use manotz::text::{byte_to_grapheme_offset, display_width, display_width_checked, grapheme_len, grapheme_to_byte_offset, grapheme_width};

#[test]
fn grapheme_len_combining_chars() {
    assert_eq!(grapheme_len("a̐éö̲\r\n"), 4);
}

#[test]
fn grapheme_len_ascii() {
    assert_eq!(grapheme_len("hello"), 5);
}

#[test]
fn grapheme_len_precomposed() {
    assert_eq!(grapheme_len("café"), 4);
}

#[test]
fn grapheme_len_crlf() {
    assert_eq!(grapheme_len("\r\n"), 1);
}

#[test]
fn grapheme_width_ascii() {
    assert_eq!(grapheme_width("a"), 1);
}

#[test]
fn grapheme_width_cjk() {
    assert_eq!(grapheme_width("中"), 2);
}

#[test]
fn grapheme_width_precomposed() {
    assert_eq!(grapheme_width("é"), 1);
}

#[test]
fn grapheme_width_flag_emoji() {
    assert_eq!(grapheme_width("🇺🇸"), 2);
}

#[test]
fn grapheme_to_byte_offset_ascii() {
    assert_eq!(grapheme_to_byte_offset("hello", 3), 3);
}

#[test]
fn grapheme_to_byte_offset_multi_byte() {
    assert_eq!(grapheme_to_byte_offset("café", 3), 3);
}

#[test]
fn grapheme_to_byte_offset_combining() {
    assert_eq!(grapheme_to_byte_offset("a̐é", 1), 3);
}

#[test]
fn grapheme_to_byte_offset_past_end() {
    assert_eq!(grapheme_to_byte_offset("hi", 4), 2);
}

#[test]
fn byte_to_grapheme_offset_ascii() {
    assert_eq!(byte_to_grapheme_offset("hello", 3), 3);
}

#[test]
fn byte_to_grapheme_offset_multi_byte() {
    assert_eq!(byte_to_grapheme_offset("café", 3), 3);
}

#[test]
fn byte_to_grapheme_offset_combining() {
    assert_eq!(byte_to_grapheme_offset("a̐é", 2), 0);
}

#[test]
fn byte_to_grapheme_offset_start() {
    assert_eq!(byte_to_grapheme_offset("hello", 0), 0);
}

#[test]
fn byte_to_grapheme_offset_past_end() {
    assert_eq!(byte_to_grapheme_offset("hello", 10), 5);
}

#[test]
fn display_width_sums_grapheme_widths() {
    assert_eq!(display_width("a中🇺🇸"), 5);
    assert_eq!(display_width_checked("a中🇺🇸"), Some(5));
    assert_eq!(display_width(""), 0);
}

#[test]
fn grapheme_offsets_round_trip() {
    let s = "a̐éx";
    for g in 0..grapheme_len(s) {
        assert_eq!(byte_to_grapheme_offset(s, grapheme_to_byte_offset(s, g)), g);
    }
}

#[test]
fn byte_to_grapheme_offset_past_end_gives_byte_length() {
    assert_eq!(byte_to_grapheme_offset("café", 10), 5);
}

#[test]
fn grapheme_offsets_are_sums_of_grapheme_lengths() {
    let s = "aé中b";
    assert_eq!(grapheme_to_byte_offset(s, 0), 0);
    assert_eq!(grapheme_to_byte_offset(s, 1), 1);
    assert_eq!(grapheme_to_byte_offset(s, 2), 1 + 2);
    assert_eq!(grapheme_to_byte_offset(s, 3), 1 + 2 + 3);
    assert_eq!(grapheme_to_byte_offset(s, 9), s.len());
}
