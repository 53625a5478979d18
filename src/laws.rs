//! Laws that relate the operations of `RubyString` to each other.
use vstd::prelude::*;
use crate::iterator::{lemma_visible, visible};
use crate::segment::{
    annotated, encodings, texts, SegmentView, ANCHOR, SEPARATOR, TERMINATOR,
};
use crate::string::{canonical, lemma_pushed, push_run, pushed, RubyString};

verus! {

/// How many times `c` occurs in `s`.
pub open spec fn occurrences(s: Seq<char>, c: char) -> nat
    decreases s.len(),
{
    if s.len() == 0 {
        0
    } else {
        occurrences(s.drop_last(), c) + if s.last() == c {
            1nat
        } else {
            0nat
        }
    }
}

/// Whether `s` holds none of the three interlinear annotation marks.
pub open spec fn free_of_marks(s: Seq<char>) -> bool {
    !s.contains(ANCHOR) && !s.contains(SEPARATOR) && !s.contains(TERMINATOR)
}

proof fn lemma_occurrences_concat(a: Seq<char>, b: Seq<char>, c: char)
    ensures
        occurrences(a + b, c) == occurrences(a, c) + occurrences(b, c),
    decreases b.len(),
{
    if b.len() == 0 {
        assert(a + b =~= a);
    } else {
        assert((a + b).drop_last() =~= a + b.drop_last());
        lemma_occurrences_concat(a, b.drop_last(), c);
    }
}

proof fn lemma_occurrences_absent(s: Seq<char>, c: char)
    requires
        !s.contains(c),
    ensures
        occurrences(s, c) == 0,
    decreases s.len(),
{
    if s.len() > 0 {
        assert(!s.drop_last().contains(c)) by {
            if s.drop_last().contains(c) {
                let i = choose|i: int| 0 <= i < s.drop_last().len() && s.drop_last()[i] == c;
                assert(s[i] == c);
            }
        }
        assert(s[s.len() - 1] == s.last());
        lemma_occurrences_absent(s.drop_last(), c);
    }
}

proof fn lemma_mark_count(runs: Seq<SegmentView>, c: char)
    requires
        c == ANCHOR || c == SEPARATOR || c == TERMINATOR,
        forall|i: int|
            0 <= i < runs.len() ==> free_of_marks(#[trigger] runs[i].text()) && free_of_marks(
                runs[i].gloss(),
            ),
    ensures
        occurrences(encodings(runs), c) == annotated(runs).len(),
    decreases runs.len(),
{
    if runs.len() > 0 {
        let d = runs.drop_last();
        let last = runs.last();
        assert(runs[runs.len() - 1] == last);
        assert forall|i: int| 0 <= i < d.len() implies free_of_marks(#[trigger] d[i].text())
            && free_of_marks(d[i].gloss()) by {
            assert(d[i] == runs[i]);
        }
        lemma_mark_count(d, c);
        lemma_occurrences_concat(encodings(d), last.encoded(), c);
        lemma_occurrences_absent(last.text(), c);
        match last {
            SegmentView::Plain { text } => {},
            SegmentView::Rubied { text, ruby } => {
                lemma_occurrences_absent(ruby, c);
                let a = seq![ANCHOR];
                let s = seq![SEPARATOR];
                let t = seq![TERMINATOR];
                lemma_occurrences_concat(a + text + s + ruby, t, c);
                lemma_occurrences_concat(a + text + s, ruby, c);
                lemma_occurrences_concat(a + text, s, c);
                lemma_occurrences_concat(a, text, c);
                reveal_with_fuel(occurrences, 2);
                assert(a.drop_last() =~= Seq::<char>::empty());
                assert(s.drop_last() =~= Seq::<char>::empty());
                assert(t.drop_last() =~= Seq::<char>::empty());
            },
        }
    }
}

/// Where the last run of `runs` after `pushes` has no text, either it was
/// already there and the pushes brought no text, or it comes from an
/// annotated push without text after which no push brought any.
proof fn lemma_last_run_without_text(runs: Seq<SegmentView>, pushes: Seq<SegmentView>)
    requires
        canonical(runs),
    ensures
        ({
            let b = pushed(runs, pushes);
            b.len() > 0 && b.last().text().len() == 0 ==> (exists|j: int|
                0 <= j < pushes.len() && #[trigger] pushes[j] is Rubied && pushes[j].text().len()
                    == 0 && forall|k: int|
                    j < k < pushes.len() ==> (#[trigger] pushes[k]).text().len() == 0) || (
            runs.len() > 0 && runs.last().text().len() == 0 && forall|k: int|
                0 <= k < pushes.len() ==> (#[trigger] pushes[k]).text().len() == 0)
        }),
    decreases pushes.len(),
{
    if pushes.len() > 0 {
        let d = pushes.drop_last();
        let p = pushes.last();
        let n = pushes.len() as int;
        assert(pushes[n - 1] == p);
        lemma_last_run_without_text(runs, d);
        lemma_pushed(runs, d);
        let prev = pushed(runs, d);
        let b = pushed(runs, pushes);
        assert(b == push_run(prev, p));
        if b.len() > 0 && b.last().text().len() == 0 {
            match p {
                SegmentView::Rubied { .. } => {
                    assert(b.last() == p);
                    assert(pushes[n - 1] is Rubied);
                },
                SegmentView::Plain { text } => {
                    if text.len() > 0 {
                        if prev.len() > 0 && prev.last() is Plain {
                            assert(b.last().text() == prev.last().text() + text);
                        }
                        assert(false);
                    }
                    assert(b == prev);
                    if exists|j: int|
                        0 <= j < d.len() && #[trigger] d[j] is Rubied && d[j].text().len() == 0
                            && forall|k: int| j < k < d.len() ==> (#[trigger] d[k]).text().len()
                            == 0 {
                        let j = choose|j: int|
                            0 <= j < d.len() && #[trigger] d[j] is Rubied && d[j].text().len() == 0
                                && forall|k: int|
                                j < k < d.len() ==> (#[trigger] d[k]).text().len() == 0;
                        assert(pushes[j] == d[j]);
                        assert forall|k: int| j < k < pushes.len() implies (
                        #[trigger] pushes[k]).text().len() == 0 by {
                            if k < n - 1 {
                                assert(pushes[k] == d[k]);
                            }
                        }
                    } else {
                        assert forall|k: int| 0 <= k < pushes.len() implies (
                        #[trigger] pushes[k]).text().len() == 0 by {
                            if k < n - 1 {
                                assert(pushes[k] == d[k]);
                            }
                        }
                    }
                },
            }
        }
    }
}

proof fn lemma_annotated_pushed(runs: Seq<SegmentView>, pushes: Seq<SegmentView>)
    requires
        canonical(runs),
    ensures
        annotated(pushed(runs, pushes)) == annotated(runs) + annotated(pushes),
    decreases pushes.len(),
{
    if pushes.len() == 0 {
        assert(annotated(runs) + annotated(pushes) =~= annotated(runs));
    } else {
        let d = pushes.drop_last();
        let p = pushes.last();
        lemma_annotated_pushed(runs, d);
        lemma_pushed(runs, d);
        let prev = pushed(runs, d);
        let b = push_run(prev, p);
        match p {
            SegmentView::Plain { text } => {
                if text.len() > 0 {
                    if prev.len() > 0 && prev.last() is Plain {
                        assert(b.drop_last() =~= prev.drop_last());
                    } else {
                        assert(b.drop_last() =~= prev);
                    }
                }
            },
            SegmentView::Rubied { .. } => {
                assert(b.drop_last() =~= prev);
            },
        }
        assert(annotated(b) =~= annotated(runs) + annotated(pushes));
    }
}

/// The plain text of a string built from `pushes` is the texts of the pushes,
/// in order, with the glosses dropped.
pub proof fn law_plain_text_of_pushes(pushes: Seq<SegmentView>)
    ensures
        texts(pushed(Seq::empty(), pushes)) == texts(pushes),
{
    lemma_pushed(Seq::empty(), pushes);
    assert(Seq::<char>::empty() + texts(pushes) =~= texts(pushes));
}

/// The segments of a string hold all of its text, in order.
pub proof fn law_segments_hold_the_text(s: &RubyString)
    ensures
        texts(visible(s@)) == texts(s@),
{
    lemma_visible(s@);
}

/// Iterating a string built from `pushes` gives back the pushes: the same
/// text, every annotated push as a segment of its own and in order, and
/// plain text merged only with plain text (no plain segment is empty, and no
/// two are adjacent). An annotated push with empty text must be followed by
/// a push with text, or iteration ends before it.
pub proof fn law_segments_follow_pushes(pushes: Seq<SegmentView>)
    requires
        forall|i: int|
            0 <= i < pushes.len() && (#[trigger] pushes[i]) is Rubied && pushes[i].text().len()
                == 0 ==> exists|k: int| i < k < pushes.len() && (#[trigger] pushes[k]).text().len()
                > 0,
    ensures
        texts(visible(pushed(Seq::empty(), pushes))) == texts(pushes),
        annotated(visible(pushed(Seq::empty(), pushes))) == annotated(pushes),
        canonical(visible(pushed(Seq::empty(), pushes))),
{
    let b = pushed(Seq::empty(), pushes);
    lemma_pushed(Seq::empty(), pushes);
    law_plain_text_of_pushes(pushes);
    lemma_annotated_pushed(Seq::empty(), pushes);
    lemma_last_run_without_text(Seq::empty(), pushes);
    if b.len() > 0 && b.last().text().len() == 0 {
        let j = choose|j: int|
            0 <= j < pushes.len() && #[trigger] pushes[j] is Rubied && pushes[j].text().len() == 0
                && forall|k: int| j < k < pushes.len() ==> (#[trigger] pushes[k]).text().len() == 0;
        let k = choose|k: int| j < k < pushes.len() && (#[trigger] pushes[k]).text().len() > 0;
        assert(false);
    }
    assert(visible(b) == b);
    assert(Seq::<SegmentView>::empty() + annotated(pushes) =~= annotated(pushes));
}

/// In the interlinear encoding of a string whose texts and glosses hold no
/// annotation marks, each of the three marks occurs once per annotated
/// segment.
pub proof fn law_marks_per_annotated_segment(s: &RubyString)
    requires
        s.wf(),
        forall|i: int|
            0 <= i < s@.len() ==> free_of_marks(#[trigger] s@[i].text()) && free_of_marks(
                s@[i].gloss(),
            ),
    ensures
        occurrences(encodings(visible(s@)), ANCHOR) == annotated(visible(s@)).len(),
        occurrences(encodings(visible(s@)), SEPARATOR) == annotated(visible(s@)).len(),
        occurrences(encodings(visible(s@)), TERMINATOR) == annotated(visible(s@)).len(),
{
    let v = visible(s@);
    lemma_visible(s@);
    assert forall|i: int| 0 <= i < v.len() implies free_of_marks(#[trigger] v[i].text())
        && free_of_marks(v[i].gloss()) by {
        assert(s@.take(v.len() as int)[i] == s@[i]);
        assert(free_of_marks(s@[i].text()));
    }
    lemma_mark_count(v, ANCHOR);
    lemma_mark_count(v, SEPARATOR);
    lemma_mark_count(v, TERMINATOR);
}

/// An empty string has no text, no segments and an empty encoding.
pub proof fn law_empty()
    ensures
        texts(Seq::empty()) == Seq::<char>::empty(),
        visible(Seq::empty()).len() == 0,
        encodings(visible(Seq::empty())) == Seq::<char>::empty(),
{
}

} // verus!
