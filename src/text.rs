//! UTF-8 facts about the byte offsets of character sequences, and slicing a
//! `str` by byte offsets that fall between known parts of it.
use vstd::prelude::*;
use vstd::string::StringSliceAdditionalSpecFns;
use vstd::utf8::{
    decode_utf8, encode_utf8, encode_utf8_decode_utf8, encode_utf8_first_scalar,
    encode_utf8_valid_utf8, is_char_boundary,
};

verus! {

/// The number of bytes that `s` takes in UTF-8.
pub open spec fn byte_len(s: Seq<char>) -> nat {
    encode_utf8(s).len()
}

/// Encoding a concatenation encodes each part in turn.
pub proof fn lemma_encode_concat(a: Seq<char>, b: Seq<char>)
    ensures
        encode_utf8(a + b) == encode_utf8(a) + encode_utf8(b),
    decreases a.len(),
{
    if a.len() == 0 {
        assert(a + b =~= b);
        assert(encode_utf8(a) + encode_utf8(b) =~= encode_utf8(b));
    } else {
        assert((a + b).drop_first() =~= a.drop_first() + b);
        assert((a + b)[0] == a[0]);
        lemma_encode_concat(a.drop_first(), b);
        assert(encode_utf8(a + b) =~= encode_utf8(a) + encode_utf8(b));
    }
}

/// Byte lengths add up over a concatenation.
pub proof fn lemma_byte_len_concat(a: Seq<char>, b: Seq<char>)
    ensures
        byte_len(a + b) == byte_len(a) + byte_len(b),
{
    lemma_encode_concat(a, b);
}

/// A sequence takes no bytes exactly when it is empty.
pub proof fn lemma_byte_len_zero(s: Seq<char>)
    ensures
        byte_len(s) == 0 <==> s.len() == 0,
{
    if s.len() > 0 {
        encode_utf8_first_scalar(s);
        lemma_encode_concat(seq![s[0]], s.drop_first());
        assert(seq![s[0]] + s.drop_first() =~= s);
        encode_utf8_first_scalar(seq![s[0]]);
    }
}

/// The end of an encoded prefix is a character boundary of the whole encoding.
pub proof fn lemma_prefix_boundary(a: Seq<char>, b: Seq<char>)
    ensures
        is_char_boundary(encode_utf8(a + b), byte_len(a) as int),
    decreases a.len(),
{
    encode_utf8_valid_utf8(a + b);
    if a.len() > 0 {
        let bytes = encode_utf8(a + b);
        encode_utf8_first_scalar(a + b);
        assert((a + b).drop_first() =~= a.drop_first() + b);
        assert((a + b)[0] == a[0]);
        lemma_encode_concat(a, b);
        lemma_encode_concat(a.drop_first(), b);
        lemma_byte_len_zero(a);
        assert(bytes.subrange(
            encode_scalar_len(a),
            bytes.len() as int,
        ) =~= encode_utf8(a.drop_first() + b));
        lemma_prefix_boundary(a.drop_first(), b);
    }
}

spec fn encode_scalar_len(a: Seq<char>) -> int {
    vstd::utf8::encode_scalar(a[0] as u32).len() as int
}

/// The characters of `s` whose bytes lie in `[start, end)`, where those
/// offsets are the byte lengths of `pre` and `pre + mid`, and `s@` begins with
/// `pre + mid`.
pub(crate) fn slice_between<'b>(
    s: &'b str,
    start: usize,
    end: usize,
    Ghost(pre): Ghost<Seq<char>>,
    Ghost(mid): Ghost<Seq<char>>,
    Ghost(post): Ghost<Seq<char>>,
) -> (r: &'b str)
    requires
        s@ == pre + mid + post,
        start == byte_len(pre),
        end == byte_len(pre + mid),
    ensures
        r@ == mid,
{
    proof {
        lemma_encode_concat(pre + mid, post);
        lemma_encode_concat(pre, mid);
        lemma_prefix_boundary(pre + mid, post);
        lemma_prefix_boundary(pre, mid);
    }
    let (left, _) = s.split_at(end);
    proof {
        assert(left.spec_bytes() =~= encode_utf8(pre + mid));
        encode_utf8_decode_utf8(left@);
        encode_utf8_decode_utf8(pre + mid);
    }
    let (_, r) = left.split_at(start);
    proof {
        assert(r.spec_bytes() =~= encode_utf8(mid));
        encode_utf8_decode_utf8(r@);
        encode_utf8_decode_utf8(mid);
    }
    r
}

} // verus!
