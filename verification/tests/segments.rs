use teip::ranges::Range;
use teip::select::{char_segments, field_segments, pattern_segments};
use teip::token::Segment;

fn seg(text: &[u8], selected: bool) -> Segment {
    Segment { text: text.to_vec(), selected }
}

#[test]
fn field_empty_field_counts() {
    // explicit delimiter `,` on `a,,c`: three fields, the middle one
    // empty, with two delimiter segments between them; selecting field 2
    // selects the empty field
    let rs = vec![Range { low: 2, high: 2 }];
    let segs = field_segments(&b"a,,c".to_vec(), &b",".to_vec(), &rs, false);
    assert_eq!(
        segs,
        vec![
            seg(b"a", false),
            seg(b",", false),
            seg(b"", true),
            seg(b",", false),
            seg(b"c", false),
        ]
    );
}

#[test]
fn field_trailing_delimiter_yields_empty_field() {
    let rs = vec![Range { low: 4, high: 4 }];
    let segs = field_segments(&b"a,b,".to_vec(), &b",".to_vec(), &rs, false);
    assert_eq!(
        segs,
        vec![
            seg(b"a", false),
            seg(b",", false),
            seg(b"b", false),
            seg(b",", false),
            seg(b"", false),
        ]
    );
    let rs3 = vec![Range { low: 3, high: 3 }];
    let segs3 = field_segments(&b"a,b,".to_vec(), &b",".to_vec(), &rs3, false);
    assert_eq!(segs3[4], seg(b"", true));
}

#[test]
fn char_run_merges_into_one_segment() {
    // a run of three consecutive selected characters is one segment
    let rs = vec![Range { low: 2, high: 4 }];
    let segs = char_segments(&b"abcdef".to_vec(), &rs, false);
    assert_eq!(segs, vec![seg(b"a", false), seg(b"bcd", true), seg(b"ef", false)]);
}

#[test]
fn char_counts_characters_not_bytes() {
    // the second character is two bytes long; selecting character 2
    // selects both of its bytes
    let line = "a\u{e9}b".as_bytes().to_vec();
    let rs = vec![Range { low: 2, high: 2 }];
    let segs = char_segments(&line, &rs, false);
    assert_eq!(
        segs,
        vec![seg(b"a", false), seg("\u{e9}".as_bytes(), true), seg(b"b", false)]
    );
}

#[test]
fn char_empty_record_has_no_segments() {
    let rs = vec![Range { low: 1, high: 1 }];
    let segs = char_segments(&Vec::new(), &rs, false);
    assert_eq!(segs, Vec::<Segment>::new());
}

#[test]
fn char_invert_flips_classification() {
    let rs = vec![Range { low: 2, high: 4 }];
    let plain = char_segments(&b"abcdef".to_vec(), &rs, false);
    let flipped = char_segments(&b"abcdef".to_vec(), &rs, true);
    assert_eq!(plain.len(), flipped.len());
    for (p, f) in plain.iter().zip(flipped.iter()) {
        assert_eq!(p.text, f.text);
        assert_eq!(p.selected, !f.selected);
    }
}

#[test]
fn field_invert_flips_fields_not_delimiters() {
    let rs = vec![Range { low: 2, high: 2 }];
    let plain = field_segments(&b"a,b,c".to_vec(), &b",".to_vec(), &rs, false);
    let flipped = field_segments(&b"a,b,c".to_vec(), &b",".to_vec(), &rs, true);
    assert_eq!(plain.len(), flipped.len());
    for (k, (p, f)) in plain.iter().zip(flipped.iter()).enumerate() {
        assert_eq!(p.text, f.text);
        if k % 2 == 0 {
            assert_eq!(p.selected, !f.selected);
        } else {
            assert!(!p.selected && !f.selected);
        }
    }
}

#[test]
fn pattern_segments_tile_the_record() {
    // matches at [4,5) and [7,8): five segments, matched spans selected
    let ms = vec![(4usize, 5usize), (7usize, 8usize)];
    let segs = pattern_segments(&b"hello world".to_vec(), &ms, false);
    assert_eq!(
        segs,
        vec![
            seg(b"hell", false),
            seg(b"o", true),
            seg(b" w", false),
            seg(b"o", true),
            seg(b"rld", false),
        ]
    );
}

#[test]
fn pattern_zero_width_match_produces_no_segment() {
    let ms = vec![(0usize, 0usize), (1usize, 1usize), (2usize, 2usize)];
    let segs = pattern_segments(&b"ab".to_vec(), &ms, false);
    assert_eq!(segs, vec![seg(b"a", false), seg(b"b", false)]);
}

#[test]
fn segments_concatenation_reconstructs_record() {
    let rs = vec![Range { low: 1, high: 2 }, Range { low: 5, high: 6 }];
    let line = b"one,two,three".to_vec();
    for segs in [
        char_segments(&line, &rs, false),
        field_segments(&line, &b",".to_vec(), &rs, false),
        char_segments(&line, &rs, true),
    ] {
        let mut rebuilt: Vec<u8> = Vec::new();
        for s in &segs {
            rebuilt.extend_from_slice(&s.text);
        }
        assert_eq!(rebuilt, line);
    }
}
