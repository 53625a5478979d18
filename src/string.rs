//! The packed ruby string: one buffer for the text, one for all glosses, and
//! the byte-offset placements that tie spans of the one to spans of the other.
use vstd::prelude::*;
use crate::iterator::{visible, SegmentIterator};
use crate::segment::{
    encodings, glosses, lemma_glosses_concat, lemma_split_at_run, lemma_texts_concat, texts,
    Segment, SegmentView,
};
use crate::text::{byte_len, lemma_byte_len_concat, lemma_byte_len_zero};

verus! {

/// Where one annotated run lies: a byte span of the packed text and a byte
/// span of the packed glosses.
#[derive(Clone, Copy, Debug, PartialEq, Eq)]
pub(crate) struct Placement {
    pub(crate) text_start: usize,
    pub(crate) text_end: usize,
    pub(crate) ruby_start: usize,
    pub(crate) ruby_end: usize,
}

/// Runs in canonical form: every plain run has text, and no two plain runs
/// are next to each other.
pub open spec fn canonical(runs: Seq<SegmentView>) -> bool {
    forall|i: int|
        0 <= i < runs.len() && (#[trigger] runs[i]) is Plain ==> runs[i].text().len() > 0 && (i
            + 1 < runs.len() ==> runs[i + 1] is Rubied)
}

/// `runs` after appending plain text: the text joins a plain run at the end,
/// or starts a new one; empty text changes nothing.
pub open spec fn push_plain_run(runs: Seq<SegmentView>, t: Seq<char>) -> Seq<SegmentView> {
    if t.len() == 0 {
        runs
    } else if runs.len() > 0 && runs.last() is Plain {
        runs.update(runs.len() - 1, SegmentView::Plain { text: runs.last().text() + t })
    } else {
        runs.push(SegmentView::Plain { text: t })
    }
}

/// `runs` after appending one run: an annotated run is kept as it is.
pub open spec fn push_run(runs: Seq<SegmentView>, s: SegmentView) -> Seq<SegmentView> {
    match s {
        SegmentView::Plain { text } => push_plain_run(runs, text),
        SegmentView::Rubied { .. } => runs.push(s),
    }
}

/// `runs` after appending each of `pushes` in turn.
pub open spec fn pushed(runs: Seq<SegmentView>, pushes: Seq<SegmentView>) -> Seq<SegmentView>
    decreases pushes.len(),
{
    if pushes.len() == 0 {
        runs
    } else {
        push_run(pushed(runs, pushes.drop_last()), pushes.last())
    }
}

/// The views of `segments`, in order.
pub open spec fn views<'a>(segments: Seq<Segment<'a>>) -> Seq<SegmentView> {
    segments.map_values(|s: Segment<'a>| s@)
}

/// Whether `runs` with `more` appended still fits the byte offsets of `usize`.
pub open spec fn fits(runs: Seq<SegmentView>, more: Seq<SegmentView>) -> bool {
    &&& byte_len(texts(runs)) + byte_len(texts(more)) <= usize::MAX
    &&& byte_len(glosses(runs)) + byte_len(glosses(more)) <= usize::MAX
}

/// The placement of run `i` of `runs`.
pub(crate) open spec fn placement_at(runs: Seq<SegmentView>, i: int) -> Placement {
    Placement {
        text_start: byte_len(texts(runs.take(i))) as usize,
        text_end: byte_len(texts(runs.take(i + 1))) as usize,
        ruby_start: byte_len(glosses(runs.take(i))) as usize,
        ruby_end: byte_len(glosses(runs.take(i + 1))) as usize,
    }
}

/// The placements of the annotated runs of `runs`, in order.
pub(crate) open spec fn placements_of(runs: Seq<SegmentView>) -> Seq<Placement>
    decreases runs.len(),
{
    if runs.len() == 0 {
        Seq::empty()
    } else if runs.last() is Rubied {
        placements_of(runs.drop_last()).push(placement_at(runs, runs.len() - 1))
    } else {
        placements_of(runs.drop_last())
    }
}

/// Appending one run appends its text and its gloss.
pub(crate) proof fn lemma_push_run(runs: Seq<SegmentView>, s: SegmentView)
    requires
        canonical(runs),
    ensures
        canonical(push_run(runs, s)),
        texts(push_run(runs, s)) == texts(runs) + s.text(),
        glosses(push_run(runs, s)) == glosses(runs) + s.gloss(),
        s is Plain ==> placements_of(push_run(runs, s)) == placements_of(runs),
{
    let r = push_run(runs, s);
    match s {
        SegmentView::Plain { text } => {
            if text.len() == 0 {
                assert(texts(runs) + s.text() =~= texts(runs));
                assert(glosses(runs) + s.gloss() =~= glosses(runs));
            } else if runs.len() > 0 && runs.last() is Plain {
                assert(r.drop_last() =~= runs.drop_last());
                assert(texts(r) =~= texts(runs) + s.text());
                assert(glosses(r) =~= glosses(runs) + s.gloss());
            } else {
                assert(r.drop_last() =~= runs);
                assert(glosses(r) =~= glosses(runs) + s.gloss());
            }
        },
        SegmentView::Rubied { .. } => {
            assert(r.drop_last() =~= runs);
        },
    }
}

/// Appending runs one by one appends their texts and their glosses.
pub proof fn lemma_pushed(runs: Seq<SegmentView>, pushes: Seq<SegmentView>)
    requires
        canonical(runs),
    ensures
        canonical(pushed(runs, pushes)),
        texts(pushed(runs, pushes)) == texts(runs) + texts(pushes),
        glosses(pushed(runs, pushes)) == glosses(runs) + glosses(pushes),
    decreases pushes.len(),
{
    if pushes.len() == 0 {
        assert(texts(runs) + texts(pushes) =~= texts(runs));
        assert(glosses(runs) + glosses(pushes) =~= glosses(runs));
    } else {
        lemma_pushed(runs, pushes.drop_last());
        lemma_push_run(pushed(runs, pushes.drop_last()), pushes.last());
        assert(texts(pushed(runs, pushes)) =~= texts(runs) + texts(pushes));
        assert(glosses(pushed(runs, pushes)) =~= glosses(runs) + glosses(pushes));
    }
}

/// The placements of a prefix of `runs` are a prefix of its placements.
pub(crate) proof fn lemma_placements_prefix(runs: Seq<SegmentView>, j: int)
    requires
        0 <= j <= runs.len(),
    ensures
        placements_of(runs.take(j)).len() <= placements_of(runs).len(),
        placements_of(runs).take(placements_of(runs.take(j)).len() as int) == placements_of(
            runs.take(j),
        ),
    decreases runs.len(),
{
    if j == runs.len() {
        assert(runs.take(j) =~= runs);
        assert(placements_of(runs).take(placements_of(runs).len() as int) =~= placements_of(runs));
    } else {
        let d = runs.drop_last();
        assert(runs.take(j) =~= d.take(j));
        lemma_placements_prefix(d, j);
        let k = placements_of(d.take(j)).len() as int;
        assert(placements_of(runs).take(k) =~= placements_of(d).take(k));
    }
}

/// Run `i` of `runs`, when annotated, has the placement that follows those of
/// the runs before it.
pub(crate) proof fn lemma_placement_of_run(runs: Seq<SegmentView>, i: int)
    requires
        0 <= i < runs.len(),
    ensures
        runs[i] is Rubied ==> placements_of(runs.take(i + 1)).len() == placements_of(
            runs.take(i),
        ).len() + 1,
        runs[i] is Rubied ==> placements_of(runs.take(i)).len() < placements_of(runs).len(),
        runs[i] is Rubied ==> placements_of(runs)[placements_of(runs.take(i)).len() as int]
            == placement_at(runs, i),
        runs[i] is Plain ==> placements_of(runs.take(i + 1)) == placements_of(runs.take(i)),
{
    let t = runs.take(i + 1);
    assert(t.drop_last() =~= runs.take(i));
    assert(t.last() == runs[i]);
    assert(t.take(i) =~= runs.take(i));
    assert(t.take(i + 1) =~= runs.take(i + 1));
    assert(placement_at(t, i) == placement_at(runs, i));
    lemma_placements_prefix(runs, i + 1);
    if runs[i] is Rubied {
        let k = placements_of(runs.take(i)).len() as int;
        assert(placements_of(runs).take(k + 1)[k] == placements_of(runs)[k]);
    }
}

/// The texts and glosses of a prefix of `runs` fit wherever those of `runs` do.
pub proof fn lemma_prefix_fits(runs: Seq<SegmentView>, i: int)
    requires
        0 <= i <= runs.len(),
    ensures
        byte_len(texts(runs.take(i))) <= byte_len(texts(runs)),
        byte_len(glosses(runs.take(i))) <= byte_len(glosses(runs)),
{
    assert(runs =~= runs.take(i) + runs.skip(i));
    lemma_texts_concat(runs.take(i), runs.skip(i));
    lemma_glosses_concat(runs.take(i), runs.skip(i));
    lemma_byte_len_concat(texts(runs.take(i)), texts(runs.skip(i)));
    lemma_byte_len_concat(glosses(runs.take(i)), glosses(runs.skip(i)));
}

/// A string that can have ruby glosses attached to parts of it.
///
/// The text is stored in one `String` and all glosses, one after another, in
/// another; each annotated run is a `Placement` of byte offsets into both.
/// Only appending is offered, so the placements stay in order and never
/// overlap.
#[derive(Clone)]
pub struct RubyString {
    pub(crate) packed_text: String,
    pub(crate) packed_ruby: String,
    pub(crate) placements: Vec<Placement>,
    pub(crate) runs: Ghost<Seq<SegmentView>>,
}

impl View for RubyString {
    type V = Seq<SegmentView>;

    /// The content as runs in canonical form.
    closed spec fn view(&self) -> Seq<SegmentView> {
        self.runs@
    }
}

impl RubyString {
    /// The buffers and the placements agree with the runs.
    pub closed spec fn wf(&self) -> bool {
        &&& canonical(self.runs@)
        &&& self.packed_text@ == texts(self.runs@)
        &&& self.packed_ruby@ == glosses(self.runs@)
        &&& byte_len(self.packed_text@) <= usize::MAX
        &&& byte_len(self.packed_ruby@) <= usize::MAX
        &&& self.placements@ == placements_of(self.runs@)
    }

    /// What well-formedness says of the fields.
    pub(crate) proof fn lemma_wf(&self)
        requires
            self.wf(),
        ensures
            self@ == self.runs@,
            canonical(self@),
            self.packed_text@ == texts(self@),
            self.packed_ruby@ == glosses(self@),
            byte_len(self.packed_text@) <= usize::MAX,
            byte_len(self.packed_ruby@) <= usize::MAX,
            self.placements@ == placements_of(self@),
    {
    }

    /// Creates an empty `RubyString`.
    pub fn new() -> (r: RubyString)
        ensures
            r.wf(),
            r@ == Seq::<SegmentView>::empty(),
    {
        RubyString {
            packed_text: String::new(),
            packed_ruby: String::new(),
            placements: Vec::new(),
            runs: Ghost(Seq::empty()),
        }
    }

    /// Appends plain text, with no ruby gloss attached to it.
    pub fn push_str(&mut self, string: &str)
        requires
            old(self).wf(),
            byte_len(texts(old(self)@)) + byte_len(string@) <= usize::MAX,
        ensures
            final(self).wf(),
            final(self)@ == push_plain_run(old(self)@, string@),
    {
        let ghost s = SegmentView::Plain { text: string@ };
        proof {
            lemma_push_run(self.runs@, s);
            lemma_byte_len_concat(self.packed_text@, string@);
        }
        self.packed_text.append(string);
        self.runs = Ghost(push_run(self.runs@, s));
    }

    /// Appends one segment: its text, and for an annotated segment its gloss,
    /// attached to exactly that text.
    pub fn push_segment<'a>(&mut self, segment: Segment<'a>)
        requires
            old(self).wf(),
            fits(old(self)@, seq![segment@]),
        ensures
            final(self).wf(),
            final(self)@ == push_run(old(self)@, segment@),
    {
        proof {
            reveal_with_fuel(texts, 2);
            reveal_with_fuel(glosses, 2);
        }
        match segment {
            Segment::Plain { text } => {
                self.push_str(text);
            },
            Segment::Rubied { text, ruby } => {
                let ghost old_runs = self.runs@;
                let text_start = self.packed_text.as_str().len();
                let ruby_start = self.packed_ruby.as_str().len();
                proof {
                    lemma_push_run(old_runs, segment@);
                    lemma_byte_len_concat(self.packed_text@, text@);
                    lemma_byte_len_concat(self.packed_ruby@, ruby@);
                }
                self.packed_text.append(text);
                self.packed_ruby.append(ruby);
                let text_end = text_start + text.len();
                let ruby_end = ruby_start + ruby.len();
                self.placements.push(Placement { text_start, text_end, ruby_start, ruby_end });
                self.runs = Ghost(push_run(old_runs, segment@));
                proof {
                    let r = self.runs@;
                    assert(r.drop_last() =~= old_runs);
                    assert(r.take(r.len() - 1) =~= old_runs);
                    assert(r.take(r.len() as int) =~= r);
                }
            },
        }
    }

    /// The text of this `RubyString`, with no ruby glosses.
    pub fn to_plain_text(&self) -> (r: String)
        requires
            self.wf(),
        ensures
            r@ == texts(self@),
    {
        self.packed_text.clone()
    }

    /// The interlinear annotation encoding of this `RubyString`: its
    /// segments' encodings, one after another.
    pub fn to_interlinear_encoding(&self) -> (r: String)
        requires
            self.wf(),
        ensures
            r@ == encodings(visible(self@)),
    {
        let mut it = self.segments();
        let mut out = String::new();
        let ghost target = encodings(visible(self@));
        proof {
            assert(Seq::<char>::empty() + encodings(it@) =~= target);
        }
        loop
            invariant
                it.wf(),
                out@ + encodings(it@) == target,
            ensures
                out@ == target,
            decreases it@.len(),
        {
            let ghost before = it@;
            match it.next() {
                None => {
                    assert(out@ + encodings(it@) =~= out@);
                    break;
                },
                Some(s) => {
                    proof {
                        lemma_split_at_run(before, 0);
                        assert(before.take(0) =~= Seq::<SegmentView>::empty());
                        assert(before.skip(1) =~= it@);
                    }
                    let e = s.to_interlinear_encoding();
                    out.append(e.as_str());
                    assert(out@ + encodings(it@) =~= target);
                },
            }
        }
        out
    }

    /// A fresh cursor over the segments of this `RubyString`, in order.
    /// Plain text between annotated runs comes as one plain segment.
    pub fn segments(&self) -> (r: SegmentIterator<'_>)
        requires
            self.wf(),
        ensures
            r.wf(),
            r@ == visible(self@),
    {
        SegmentIterator::start(self)
    }

    /// A `RubyString` holding `text` with no glosses.
    pub fn from_plain(text: &str) -> (r: RubyString)
        requires
            byte_len(text@) <= usize::MAX,
        ensures
            r.wf(),
            r@ == push_plain_run(Seq::empty(), text@),
    {
        let mut r = RubyString::new();
        proof {
            lemma_byte_len_zero(Seq::<char>::empty());
        }
        r.push_str(text);
        r
    }

    /// Appends each of `segments` in turn, as `push_segment` does.
    pub fn extend<'a>(&mut self, segments: Vec<Segment<'a>>)
        requires
            old(self).wf(),
            fits(old(self)@, views(segments@)),
        ensures
            final(self).wf(),
            final(self)@ == pushed(old(self)@, views(segments@)),
    {
        let ghost start = self@;
        let ghost all = views(segments@);
        let n = segments.len();
        let mut i: usize = 0;
        proof {
            assert(all.take(0) =~= Seq::<SegmentView>::empty());
        }
        while i < n
            invariant
                n == segments@.len(),
                all == views(segments@),
                0 <= i <= n,
                self.wf(),
                fits(start, all),
                canonical(start),
                self@ == pushed(start, all.take(i as int)),
            decreases n - i,
        {
            proof {
                let pre = all.take(i as int);
                let next = all.take(i as int + 1);
                assert(next.drop_last() =~= pre);
                assert(next.last() == segments@[i as int]@);
                lemma_pushed(start, pre);
                lemma_split_at_run(all, i as int);
                lemma_prefix_fits(all, i as int + 1);
                lemma_byte_len_concat(texts(start), texts(pre));
                lemma_byte_len_concat(glosses(start), glosses(pre));
                lemma_byte_len_concat(texts(pre), all[i as int].text());
                lemma_byte_len_concat(glosses(pre), all[i as int].gloss());
                reveal_with_fuel(texts, 2);
                reveal_with_fuel(glosses, 2);
                assert(seq![all[i as int]].drop_last() =~= Seq::<SegmentView>::empty());
            }
            self.push_segment(segments[i]);
            i = i + 1;
        }
        proof {
            assert(all.take(n as int) =~= all);
        }
    }

    /// A `RubyString` built by appending each of `segments` in turn.
    pub fn from_segments<'a>(segments: Vec<Segment<'a>>) -> (r: RubyString)
        requires
            fits(Seq::empty(), views(segments@)),
        ensures
            r.wf(),
            r@ == pushed(Seq::empty(), views(segments@)),
    {
        let mut r = RubyString::new();
        r.extend(segments);
        r
    }
}

impl Default for RubyString {
    /// An empty `RubyString`.
    fn default() -> (r: RubyString)
        ensures
            r.wf(),
            r@ == Seq::<SegmentView>::empty(),
    {
        RubyString::new()
    }
}

} // verus!
