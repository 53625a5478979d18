//! A forward cursor over the runs of a `RubyString`, handing out views into
//! its buffers.
use vstd::prelude::*;
use crate::segment::{
    glosses, lemma_split_at_run, lemma_texts_concat, texts, Segment, SegmentView,
};
use crate::string::{
    lemma_placement_of_run, lemma_prefix_fits, placement_at, placements_of, RubyString,
};
use crate::text::{byte_len, lemma_byte_len_concat, lemma_byte_len_zero, slice_between};

verus! {

/// `runs` without the annotated runs of empty text at its end: iteration
/// stops as soon as all of the text has been handed out.
pub open spec fn visible(runs: Seq<SegmentView>) -> Seq<SegmentView>
    decreases runs.len(),
{
    if runs.len() > 0 && runs.last().text().len() == 0 {
        visible(runs.drop_last())
    } else {
        runs
    }
}

/// What `visible` keeps: a prefix of `runs`, ending in a run with text, with
/// all of the text of `runs`.
pub proof fn lemma_visible(runs: Seq<SegmentView>)
    ensures
        visible(runs).len() <= runs.len(),
        visible(runs) == runs.take(visible(runs).len() as int),
        visible(runs).len() > 0 ==> visible(runs).last().text().len() > 0,
        texts(visible(runs)) == texts(runs),
    decreases runs.len(),
{
    if runs.len() > 0 && runs.last().text().len() == 0 {
        let d = runs.drop_last();
        lemma_visible(d);
        assert(d.take(visible(d).len() as int) =~= runs.take(visible(d).len() as int));
        assert(texts(runs) =~= texts(d));
    } else {
        assert(runs.take(runs.len() as int) =~= runs);
    }
}

/// Before the end of the visible runs, some text is still ahead.
proof fn lemma_text_ahead(runs: Seq<SegmentView>, pos: int)
    requires
        0 <= pos < visible(runs).len(),
    ensures
        byte_len(texts(runs.take(pos))) < byte_len(texts(runs)),
{
    let v = visible(runs);
    lemma_visible(runs);
    assert(v.take(pos) =~= runs.take(pos));
    assert(v =~= v.take(pos) + v.skip(pos));
    lemma_texts_concat(v.take(pos), v.skip(pos));
    let rest = v.skip(pos);
    assert(rest.last() == v.last());
    assert(texts(rest) == texts(rest.drop_last()) + rest.last().text());
    lemma_byte_len_zero(texts(rest));
    lemma_byte_len_concat(texts(v.take(pos)), texts(rest));
}

/// A cursor over the segments of a `RubyString`, created by its `segments`
/// method. Each call of `next` hands out the next segment.
#[derive(Clone)]
pub struct SegmentIterator<'a> {
    pub(crate) string: &'a RubyString,
    /// Byte offset in the text where the next segment starts.
    pub(crate) next_text_start: usize,
    /// Index of the first placement that starts at or after `next_text_start`.
    pub(crate) next_placement_idx: usize,
    /// Index of the next run in the string's runs.
    pub(crate) pos: Ghost<int>,
}

impl<'a> View for SegmentIterator<'a> {
    type V = Seq<SegmentView>;

    /// The segments that are still to come.
    closed spec fn view(&self) -> Seq<SegmentView> {
        visible(self.string@).skip(self.pos@)
    }
}

impl<'a> SegmentIterator<'a> {
    /// The cursor stands at the start of a run of its string.
    pub closed spec fn wf(&self) -> bool {
        let runs = self.string@;
        &&& self.string.wf()
        &&& 0 <= self.pos@ <= visible(runs).len()
        &&& self.next_text_start as int == byte_len(texts(runs.take(self.pos@)))
        &&& self.next_placement_idx as int == placements_of(runs.take(self.pos@)).len()
    }

    /// A cursor at the first segment of `string`.
    pub(crate) fn start(string: &'a RubyString) -> (r: SegmentIterator<'a>)
        requires
            string.wf(),
        ensures
            r.wf(),
            r@ == visible(string@),
    {
        proof {
            let runs = string@;
            assert(runs.take(0) =~= Seq::<SegmentView>::empty());
            lemma_byte_len_zero(Seq::<char>::empty());
            assert(visible(runs).skip(0) =~= visible(runs));
        }
        SegmentIterator { string, next_text_start: 0, next_placement_idx: 0, pos: Ghost(0) }
    }

    /// Hands out the next segment, or `None` once all have been handed out.
    #[verifier::rlimit(30)]
    pub fn next(&mut self) -> (r: Option<Segment<'a>>)
        requires
            old(self).wf(),
        ensures
            final(self).wf(),
            match r {
                None => old(self)@.len() == 0 && final(self)@ == old(self)@,
                Some(s) => old(self)@.len() > 0 && s@ == old(self)@[0] && final(self)@ == old(
                    self,
                )@.drop_first(),
            },
    {
        let string: &'a RubyString = self.string;
        let ghost runs = string@;
        let ghost pos = self.pos@;
        proof {
            string.lemma_wf();
            lemma_visible(runs);
            lemma_prefix_fits(runs, pos);
        }
        let text: &'a str = string.packed_text.as_str();
        let text_len = text.len();
        if self.next_text_start >= text_len {
            proof {
                if pos < visible(runs).len() {
                    lemma_text_ahead(runs, pos);
                }
            }
            return None;
        }
        proof {
            if pos == visible(runs).len() {
                assert(runs.take(pos) == visible(runs));
            }
            assert(pos < visible(runs).len());
            assert(runs[pos] == visible(runs)[pos]);
            lemma_split_at_run(runs, pos);
            lemma_prefix_fits(runs, pos + 1);
            lemma_placement_of_run(runs, pos);
            lemma_byte_len_concat(texts(runs.take(pos)), runs[pos].text());
            assert(visible(runs).skip(pos + 1) =~= visible(runs).skip(pos).drop_first());
        }
        if self.next_placement_idx >= string.placements.len() {
            proof {
                if pos + 1 < runs.len() {
                    lemma_placement_of_run(runs, pos + 1);
                }
                assert(runs.take(pos + 1) =~= runs);
                assert(texts(runs.skip(pos + 1)) =~= Seq::<char>::empty()) by {
                    assert(runs.skip(pos + 1) =~= Seq::<SegmentView>::empty());
                }
                assert(text@ =~= texts(runs.take(pos)) + runs[pos].text() + Seq::<char>::empty());
            }
            let t = slice_between(
                text,
                self.next_text_start,
                text_len,
                Ghost(texts(runs.take(pos))),
                Ghost(runs[pos].text()),
                Ghost(Seq::empty()),
            );
            self.next_text_start = text_len;
            self.pos = Ghost(pos + 1);
            return Some(Segment::Plain { text: t });
        }
        let p = string.placements[self.next_placement_idx];
        if self.next_text_start < p.text_start {
            proof {
                if runs[pos] is Rubied {
                    assert(p == placement_at(runs, pos));
                }
                assert(runs[pos] is Plain);
                assert(pos + 1 < runs.len());
                lemma_placement_of_run(runs, pos + 1);
                lemma_prefix_fits(runs, pos + 2);
                assert(p == placement_at(runs, pos + 1));
                assert(text@ == texts(runs.take(pos)) + runs[pos].text() + texts(
                    runs.skip(pos + 1),
                ));
            }
            let t = slice_between(
                text,
                self.next_text_start,
                p.text_start,
                Ghost(texts(runs.take(pos))),
                Ghost(runs[pos].text()),
                Ghost(texts(runs.skip(pos + 1))),
            );
            self.next_text_start = p.text_start;
            self.pos = Ghost(pos + 1);
            Some(Segment::Plain { text: t })
        } else {
            proof {
                if runs[pos] is Plain {
                    if pos + 1 < runs.len() {
                        lemma_placement_of_run(runs, pos + 1);
                        lemma_prefix_fits(runs, pos + 2);
                        lemma_byte_len_zero(runs[pos].text());
                    }
                    assert(false);
                }
                assert(p == placement_at(runs, pos));
            }
            let t = slice_between(
                text,
                p.text_start,
                p.text_end,
                Ghost(texts(runs.take(pos))),
                Ghost(runs[pos].text()),
                Ghost(texts(runs.skip(pos + 1))),
            );
            let g = slice_between(
                string.packed_ruby.as_str(),
                p.ruby_start,
                p.ruby_end,
                Ghost(glosses(runs.take(pos))),
                Ghost(runs[pos].gloss()),
                Ghost(glosses(runs.skip(pos + 1))),
            );
            self.next_text_start = p.text_end;
            self.next_placement_idx = self.next_placement_idx + 1;
            self.pos = Ghost(pos + 1);
            Some(Segment::Rubied { text: t, ruby: g })
        }
    }
}

} // verus!
