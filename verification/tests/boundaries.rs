use truncating_arraystring::boundary::floor_char_boundary;
use truncating_arraystring::boundary::is_utf8_char_boundary;
use truncating_arraystring::fitting::utf8_width;

#[test]
fn ascii_bytes_start_a_scalar() {
    assert!(is_utf8_char_boundary(0x00));
    assert!(is_utf8_char_boundary(b'a'));
    assert!(is_utf8_char_boundary(0x7f));
}

#[test]
fn continuation_bytes_do_not_start_a_scalar() {
    assert!(!is_utf8_char_boundary(0x80));
    assert!(!is_utf8_char_boundary(0x9c));
    assert!(!is_utf8_char_boundary(0xbf));
}

#[test]
fn leading_bytes_start_a_scalar() {
    assert!(is_utf8_char_boundary(0xc0));
    assert!(is_utf8_char_boundary(0xc3));
    assert!(is_utf8_char_boundary(0xe2));
    assert!(is_utf8_char_boundary(0xf0));
    assert!(is_utf8_char_boundary(0xff));
}

#[test]
fn boundary_test_agrees_with_the_byte_ranges() {
    for b in 0..=255u8 {
        assert_eq!(is_utf8_char_boundary(b), b < 0x80 || b >= 0xc0);
    }
}

#[test]
fn floor_of_an_index_past_the_end_is_the_length() {
    assert_eq!(floor_char_boundary("", 0), 0);
    assert_eq!(floor_char_boundary("", 7), 0);
    assert_eq!(floor_char_boundary("abc", 3), 3);
    assert_eq!(floor_char_boundary("abc", 100), 3);
    assert_eq!(floor_char_boundary("αβ", 4), 4);
    assert_eq!(floor_char_boundary("αβ", usize::MAX), 4);
}

#[test]
fn floor_in_ascii_text_is_the_index() {
    assert_eq!(floor_char_boundary("3456789", 0), 0);
    assert_eq!(floor_char_boundary("3456789", 3), 3);
    assert_eq!(floor_char_boundary("3456789", 6), 6);
}

#[test]
fn floor_inside_a_scalar_is_its_start() {
    // "βγ" is two scalars of two bytes each.
    assert_eq!(floor_char_boundary("βγ", 0), 0);
    assert_eq!(floor_char_boundary("βγ", 1), 0);
    assert_eq!(floor_char_boundary("βγ", 2), 2);
    assert_eq!(floor_char_boundary("βγ", 3), 2);
    // "a€" is one byte, then three.
    assert_eq!(floor_char_boundary("a€", 1), 1);
    assert_eq!(floor_char_boundary("a€", 2), 1);
    assert_eq!(floor_char_boundary("a€", 3), 1);
    // "😀!" is four bytes, then one.
    assert_eq!(floor_char_boundary("😀!", 1), 0);
    assert_eq!(floor_char_boundary("😀!", 2), 0);
    assert_eq!(floor_char_boundary("😀!", 3), 0);
    assert_eq!(floor_char_boundary("😀!", 4), 4);
}

#[test]
fn floor_agrees_with_the_standard_boundary_test() {
    let text = "aé€😀z日本";
    for index in 0..text.len() + 3 {
        let b = floor_char_boundary(text, index);
        assert!(text.is_char_boundary(b));
        if index >= text.len() {
            assert_eq!(b, text.len());
        } else {
            assert!(b <= index && index - b <= 3);
            for j in b + 1..=index {
                assert!(!text.is_char_boundary(j));
            }
        }
    }
}

#[test]
fn width_of_a_scalar_is_the_length_of_its_encoding() {
    assert_eq!(utf8_width('\0'), 1);
    assert_eq!(utf8_width('a'), 1);
    assert_eq!(utf8_width('\u{7f}'), 1);
    assert_eq!(utf8_width('\u{80}'), 2);
    assert_eq!(utf8_width('é'), 2);
    assert_eq!(utf8_width('\u{7ff}'), 2);
    assert_eq!(utf8_width('\u{800}'), 3);
    assert_eq!(utf8_width('€'), 3);
    assert_eq!(utf8_width('\u{ffff}'), 3);
    assert_eq!(utf8_width('\u{10000}'), 4);
    assert_eq!(utf8_width('😀'), 4);
    assert_eq!(utf8_width('\u{10ffff}'), 4);
    for c in ['a', 'é', '€', '😀', '日'] {
        assert_eq!(utf8_width(c), c.len_utf8());
    }
}
