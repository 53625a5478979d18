use ruby_string::{RubyString, Segment, SegmentIterator};

fn collect<'a>(mut it: SegmentIterator<'a>) -> Vec<Segment<'a>> {
    let mut out = Vec::new();
    while let Some(s) = it.next() {
        out.push(s);
    }
    out
}

fn tokyo_sentence() -> RubyString {
    let mut rs = RubyString::new();
    rs.push_str("ここは");
    rs.push_segment(Segment::Rubied { text: "東", ruby: "とう" });
    rs.push_segment(Segment::Rubied { text: "京", ruby: "きょう" });
    rs.push_str("です");
    rs
}

#[test]
fn segment_plain_text() {
    assert_eq!(Segment::Plain { text: "です" }.plain_text(), "です");
    assert_eq!(Segment::Rubied { text: "東京", ruby: "とうきょう" }.plain_text(), "東京");
}

#[test]
fn segment_interlinear_encoding() {
    let s = Segment::Plain { text: "です" };
    assert_eq!(s.to_interlinear_encoding(), "です");
    let s = Segment::Rubied { text: "東京", ruby: "とうきょう" };
    assert_eq!(s.to_interlinear_encoding(), "\u{FFF9}東京\u{FFFA}とうきょう\u{FFFB}");
}

#[test]
fn plain_text_of_sentence() {
    assert_eq!(tokyo_sentence().to_plain_text(), "ここは東京です");
}

#[test]
fn interlinear_encoding_of_sentence() {
    assert_eq!(
        tokyo_sentence().to_interlinear_encoding(),
        "ここは\u{FFF9}東\u{FFFA}とう\u{FFFB}\u{FFF9}京\u{FFFA}きょう\u{FFFB}です"
    );
}

#[test]
fn segments_of_sentence() {
    let rs = tokyo_sentence();
    let segs = collect(rs.segments());
    assert_eq!(
        segs,
        vec![
            Segment::Plain { text: "ここは" },
            Segment::Rubied { text: "東", ruby: "とう" },
            Segment::Rubied { text: "京", ruby: "きょう" },
            Segment::Plain { text: "です" },
        ]
    );
}

#[test]
fn single_annotated_run() {
    let mut rs = RubyString::new();
    rs.push_segment(Segment::Rubied { text: "東京", ruby: "とうきょう" });
    let segs = collect(rs.segments());
    assert_eq!(segs, vec![Segment::Rubied { text: "東京", ruby: "とうきょう" }]);
    assert_eq!(rs.to_interlinear_encoding(), "\u{FFF9}東京\u{FFFA}とうきょう\u{FFFB}");
    assert_eq!(rs.to_plain_text(), "東京");
}

#[test]
fn empty_string() {
    let rs = RubyString::new();
    assert_eq!(rs.to_plain_text(), "");
    assert_eq!(rs.to_interlinear_encoding(), "");
    assert!(rs.segments().next().is_none());
}

#[test]
fn default_is_empty() {
    let rs = RubyString::default();
    assert_eq!(rs.to_plain_text(), "");
    assert!(rs.segments().next().is_none());
}

#[test]
fn iteration_restarts_and_cursors_are_independent() {
    let rs = tokyo_sentence();
    let mut a = rs.segments();
    let mut b = rs.segments();
    assert_eq!(a.next(), Some(Segment::Plain { text: "ここは" }));
    assert_eq!(a.next(), Some(Segment::Rubied { text: "東", ruby: "とう" }));
    assert_eq!(b.next(), Some(Segment::Plain { text: "ここは" }));
    assert_eq!(collect(a), collect(b)[1..].to_vec());
    assert_eq!(collect(rs.segments()), collect(rs.segments()));
}

#[test]
fn exhausted_cursor_stays_exhausted() {
    let rs = tokyo_sentence();
    let mut it = rs.segments();
    for _ in 0..4 {
        assert!(it.next().is_some());
    }
    assert!(it.next().is_none());
    assert!(it.next().is_none());
}

#[test]
fn adjacent_plain_pushes_merge() {
    let mut rs = RubyString::new();
    rs.push_str("ab");
    rs.push_segment(Segment::Plain { text: "cd" });
    rs.push_str("");
    rs.push_str("é");
    rs.push_segment(Segment::Rubied { text: "字", ruby: "じ" });
    rs.push_str("x");
    rs.push_str("y");
    let segs = collect(rs.segments());
    assert_eq!(
        segs,
        vec![
            Segment::Plain { text: "abcdé" },
            Segment::Rubied { text: "字", ruby: "じ" },
            Segment::Plain { text: "xy" },
        ]
    );
    assert_eq!(rs.to_plain_text(), "abcdé字xy");
}

#[test]
fn plain_text_round_trip_of_pushes() {
    let pushes = vec![
        Segment::Rubied { text: "漢", ruby: "かん" },
        Segment::Plain { text: "and " },
        Segment::Rubied { text: "字", ruby: "じ" },
        Segment::Plain { text: "" },
        Segment::Rubied { text: "🦀", ruby: "crab" },
    ];
    let mut rs = RubyString::new();
    let mut expected = String::new();
    for s in &pushes {
        rs.push_segment(*s);
        expected.push_str(s.plain_text());
    }
    assert_eq!(rs.to_plain_text(), expected);
    assert_eq!(rs.to_plain_text(), "漢and 字🦀");
    let joined: String = collect(rs.segments()).iter().map(|s| s.plain_text()).collect();
    assert_eq!(joined, expected);
}

#[test]
fn annotated_runs_are_kept_apart() {
    let mut rs = RubyString::new();
    rs.push_segment(Segment::Rubied { text: "東", ruby: "とう" });
    rs.push_segment(Segment::Rubied { text: "京", ruby: "きょう" });
    let segs = collect(rs.segments());
    assert_eq!(segs.len(), 2);
    assert_eq!(segs[0], Segment::Rubied { text: "東", ruby: "とう" });
    assert_eq!(segs[1], Segment::Rubied { text: "京", ruby: "きょう" });
}

#[test]
fn annotated_run_with_empty_text_inside() {
    let mut rs = RubyString::new();
    rs.push_str("a");
    rs.push_segment(Segment::Rubied { text: "", ruby: "note" });
    rs.push_str("b");
    let segs = collect(rs.segments());
    assert_eq!(
        segs,
        vec![
            Segment::Plain { text: "a" },
            Segment::Rubied { text: "", ruby: "note" },
            Segment::Plain { text: "b" },
        ]
    );
    assert_eq!(rs.to_interlinear_encoding(), "a\u{FFF9}\u{FFFA}note\u{FFFB}b");
}

#[test]
fn trailing_annotated_run_with_empty_text_is_not_visited() {
    let mut rs = RubyString::new();
    rs.push_str("a");
    rs.push_segment(Segment::Rubied { text: "", ruby: "note" });
    assert_eq!(collect(rs.segments()), vec![Segment::Plain { text: "a" }]);
    assert_eq!(rs.to_interlinear_encoding(), "a");
    assert_eq!(rs.to_plain_text(), "a");
}

#[test]
fn encoding_has_one_mark_triple_per_annotated_run() {
    let rs = tokyo_sentence();
    let enc = rs.to_interlinear_encoding();
    assert_eq!(enc.matches('\u{FFF9}').count(), 2);
    assert_eq!(enc.matches('\u{FFFA}').count(), 2);
    assert_eq!(enc.matches('\u{FFFB}').count(), 2);
    let stripped: String = enc
        .chars()
        .filter(|c| !['\u{FFF9}', '\u{FFFA}', '\u{FFFB}'].contains(c))
        .collect();
    assert_eq!(stripped, "ここは東とう京きょうです");
}

#[test]
fn from_plain_text() {
    let rs = RubyString::from_plain("ただの文");
    assert_eq!(rs.to_plain_text(), "ただの文");
    assert_eq!(rs.to_interlinear_encoding(), "ただの文");
    assert_eq!(collect(rs.segments()), vec![Segment::Plain { text: "ただの文" }]);
    assert!(RubyString::from_plain("").segments().next().is_none());
}

#[test]
fn from_segments_builds_in_order() {
    let rs = RubyString::from_segments(vec![
        Segment::Plain { text: "ここは" },
        Segment::Rubied { text: "東", ruby: "とう" },
        Segment::Rubied { text: "京", ruby: "きょう" },
        Segment::Plain { text: "です" },
    ]);
    assert_eq!(
        rs.to_interlinear_encoding(),
        tokyo_sentence().to_interlinear_encoding()
    );
}

#[test]
fn extend_appends_after_existing_content() {
    let mut rs = RubyString::from_plain("ここは");
    rs.extend(vec![
        Segment::Rubied { text: "東", ruby: "とう" },
        Segment::Rubied { text: "京", ruby: "きょう" },
        Segment::Plain { text: "です" },
    ]);
    assert_eq!(
        collect(rs.segments()),
        collect(tokyo_sentence().segments())
    );
    rs.extend(Vec::new());
    assert_eq!(rs.to_plain_text(), "ここは東京です");
}
