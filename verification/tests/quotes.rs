//! What stands between quotation marks, beside what is excluded.
use zhtw_scan::emit::ByteRange;
use zhtw_scan::quotes::{range_content as content_between, GapContent};
use zhtw_scan::text::Text;

/// What the bytes `from..to` hold outside the excluded ranges.
fn range_content(text: &str, from: usize, to: usize, excluded: &[ByteRange]) -> GapContent {
    let t = Text::new(text);
    content_between(&t, t.floor(from), t.floor(to), excluded)
}

#[test]
fn range_content_treats_a_straddling_char_as_excluded() {
    let text = "\u{201c}\u{4e2d}\u{201d}";
    let excluded = [ByteRange { start: 4, end: 5 }];
    assert!(!range_content(text, 3, 6, &excluded).cjk);
}

#[test]
fn range_content_reads_prose_beside_an_excluded_range() {
    let text = "\u{201c}ab\u{4e2d}\u{201d}";
    let excluded = [ByteRange { start: 3, end: 5 }];
    assert!(range_content(text, 3, 8, &excluded).cjk);
}

#[test]
fn range_content_handles_an_empty_range_list() {
    let text = "\u{201c}\u{4e2d}\u{201d}";
    assert!(range_content(text, 3, 6, &[]).cjk);
    assert!(!range_content(text, 3, 3, &[]).cjk);
}
