//! Runs of text: either plain, or carrying exactly one ruby gloss.
use vstd::prelude::*;

verus! {

/// Marks the start of an annotated run in the interlinear encoding (U+FFF9).
pub const ANCHOR: char = '\u{FFF9}';

/// Separates an annotated run's text from its gloss (U+FFFA).
pub const SEPARATOR: char = '\u{FFFA}';

/// Closes an annotated run in the interlinear encoding (U+FFFB).
pub const TERMINATOR: char = '\u{FFFB}';

/// What a run holds, as character sequences.
pub enum SegmentView {
    Plain { text: Seq<char> },
    Rubied { text: Seq<char>, ruby: Seq<char> },
}

impl SegmentView {
    /// The run's text, without any gloss.
    pub open spec fn text(self) -> Seq<char> {
        match self {
            SegmentView::Plain { text } => text,
            SegmentView::Rubied { text, .. } => text,
        }
    }

    /// The run's gloss; empty for a plain run.
    pub open spec fn gloss(self) -> Seq<char> {
        match self {
            SegmentView::Plain { .. } => Seq::empty(),
            SegmentView::Rubied { ruby, .. } => ruby,
        }
    }

    /// The run in the interlinear annotation encoding.
    pub open spec fn encoded(self) -> Seq<char> {
        match self {
            SegmentView::Plain { text } => text,
            SegmentView::Rubied { text, ruby } => seq![ANCHOR] + text + seq![SEPARATOR] + ruby
                + seq![TERMINATOR],
        }
    }
}

/// The texts of `runs`, one after another, glosses dropped.
pub open spec fn texts(runs: Seq<SegmentView>) -> Seq<char>
    decreases runs.len(),
{
    if runs.len() == 0 {
        Seq::empty()
    } else {
        texts(runs.drop_last()) + runs.last().text()
    }
}

/// The glosses of `runs`, one after another.
pub open spec fn glosses(runs: Seq<SegmentView>) -> Seq<char>
    decreases runs.len(),
{
    if runs.len() == 0 {
        Seq::empty()
    } else {
        glosses(runs.drop_last()) + runs.last().gloss()
    }
}

/// The interlinear encodings of `runs`, one after another.
pub open spec fn encodings(runs: Seq<SegmentView>) -> Seq<char>
    decreases runs.len(),
{
    if runs.len() == 0 {
        Seq::empty()
    } else {
        encodings(runs.drop_last()) + runs.last().encoded()
    }
}

/// The annotated runs of `runs`, in order.
pub open spec fn annotated(runs: Seq<SegmentView>) -> Seq<SegmentView>
    decreases runs.len(),
{
    if runs.len() == 0 {
        Seq::empty()
    } else if runs.last() is Rubied {
        annotated(runs.drop_last()).push(runs.last())
    } else {
        annotated(runs.drop_last())
    }
}

/// `texts` of a concatenation is the concatenation of the `texts`.
pub proof fn lemma_texts_concat(a: Seq<SegmentView>, b: Seq<SegmentView>)
    ensures
        texts(a + b) == texts(a) + texts(b),
    decreases b.len(),
{
    if b.len() == 0 {
        assert(a + b =~= a);
        assert(texts(a) + texts(b) =~= texts(a));
    } else {
        assert((a + b).drop_last() =~= a + b.drop_last());
        lemma_texts_concat(a, b.drop_last());
        assert(texts(a + b) =~= texts(a) + texts(b));
    }
}

/// `glosses` of a concatenation is the concatenation of the `glosses`.
pub proof fn lemma_glosses_concat(a: Seq<SegmentView>, b: Seq<SegmentView>)
    ensures
        glosses(a + b) == glosses(a) + glosses(b),
    decreases b.len(),
{
    if b.len() == 0 {
        assert(a + b =~= a);
        assert(glosses(a) + glosses(b) =~= glosses(a));
    } else {
        assert((a + b).drop_last() =~= a + b.drop_last());
        lemma_glosses_concat(a, b.drop_last());
        assert(glosses(a + b) =~= glosses(a) + glosses(b));
    }
}

/// `encodings` of a concatenation is the concatenation of the `encodings`.
pub proof fn lemma_encodings_concat(a: Seq<SegmentView>, b: Seq<SegmentView>)
    ensures
        encodings(a + b) == encodings(a) + encodings(b),
    decreases b.len(),
{
    if b.len() == 0 {
        assert(a + b =~= a);
        assert(encodings(a) + encodings(b) =~= encodings(a));
    } else {
        assert((a + b).drop_last() =~= a + b.drop_last());
        lemma_encodings_concat(a, b.drop_last());
        assert(encodings(a + b) =~= encodings(a) + encodings(b));
    }
}

/// Splits `runs` around its run at `i`, for `texts`, `glosses` and `encodings`.
pub proof fn lemma_split_at_run(runs: Seq<SegmentView>, i: int)
    requires
        0 <= i < runs.len(),
    ensures
        texts(runs) == texts(runs.take(i)) + runs[i].text() + texts(runs.skip(i + 1)),
        glosses(runs) == glosses(runs.take(i)) + runs[i].gloss() + glosses(runs.skip(i + 1)),
        encodings(runs) == encodings(runs.take(i)) + runs[i].encoded() + encodings(
            runs.skip(i + 1),
        ),
        texts(runs.take(i + 1)) == texts(runs.take(i)) + runs[i].text(),
        glosses(runs.take(i + 1)) == glosses(runs.take(i)) + runs[i].gloss(),
{
    let one = seq![runs[i]];
    assert(runs =~= runs.take(i) + one + runs.skip(i + 1));
    assert(runs.take(i + 1) =~= runs.take(i) + one);
    assert(one.drop_last() =~= Seq::<SegmentView>::empty());
    reveal_with_fuel(texts, 2);
    reveal_with_fuel(glosses, 2);
    reveal_with_fuel(encodings, 2);
    assert(texts(one) =~= runs[i].text());
    assert(glosses(one) =~= runs[i].gloss());
    assert(encodings(one) =~= runs[i].encoded());
    lemma_texts_concat(runs.take(i) + one, runs.skip(i + 1));
    lemma_texts_concat(runs.take(i), one);
    lemma_glosses_concat(runs.take(i) + one, runs.skip(i + 1));
    lemma_glosses_concat(runs.take(i), one);
    lemma_encodings_concat(runs.take(i) + one, runs.skip(i + 1));
    lemma_encodings_concat(runs.take(i), one);
}

/// A part of a `RubyString` that either has no ruby gloss or exactly one gloss
/// attached to the whole of it. Both parts borrow from their owner.
#[derive(Clone, Copy, Debug, PartialEq, Eq)]
pub enum Segment<'a> {
    /// A piece of text with no ruby gloss attached to it.
    Plain { text: &'a str },
    /// A piece of text with exactly one ruby gloss attached to all of it.
    Rubied { text: &'a str, ruby: &'a str },
}

impl<'a> View for Segment<'a> {
    type V = SegmentView;

    open spec fn view(&self) -> SegmentView {
        match *self {
            Segment::Plain { text } => SegmentView::Plain { text: text@ },
            Segment::Rubied { text, ruby } => SegmentView::Rubied { text: text@, ruby: ruby@ },
        }
    }
}

impl<'a> Segment<'a> {
    /// The text of this segment, ignoring any ruby gloss attached to it.
    pub fn plain_text(&self) -> (r: &'a str)
        ensures
            r@ == self@.text(),
    {
        match *self {
            Segment::Plain { text } => text,
            Segment::Rubied { text, .. } => text,
        }
    }

    /// This segment as a plain `String` in the interlinear annotation
    /// encoding: a plain segment is its text; an annotated one is
    /// anchor, text, separator, gloss, terminator.
    pub fn to_interlinear_encoding(&self) -> (r: String)
        ensures
            r@ == self@.encoded(),
    {
        let mut out = String::new();
        match *self {
            Segment::Plain { text } => {
                out.append(text);
            },
            Segment::Rubied { text, ruby } => {
                out.append("\u{FFF9}");
                out.append(text);
                out.append("\u{FFFA}");
                out.append(ruby);
                out.append("\u{FFFB}");
                proof {
                    reveal_strlit("\u{FFF9}");
                    reveal_strlit("\u{FFFA}");
                    reveal_strlit("\u{FFFB}");
                }
                assert(out@ =~= self@.encoded());
            },
        }
        out
    }
}

} // verus!
