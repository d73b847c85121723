use farsi_shell::terminal::{
    is_arabic_char, is_digit, process_arabic_block, process_line, visual_reverse, TermParser,
};

#[test]
fn arabic_char_ranges() {
    assert!(is_arabic_char('\u{0600}'));
    assert!(is_arabic_char('\u{06FF}'));
    assert!(is_arabic_char('\u{FB50}'));
    assert!(is_arabic_char('\u{FEFF}'));
    assert!(!is_arabic_char('a'));
    assert!(!is_arabic_char('\u{0700}'));
}

#[test]
fn digits() {
    assert!(is_digit('0'));
    assert!(is_digit('9'));
    assert!(is_digit('\u{0660}'));
    assert!(is_digit('\u{06F9}'));
    assert!(!is_digit('a'));
    assert!(!is_digit('.'));
}

#[test]
fn visual_reverse_exact_values() {
    assert_eq!(visual_reverse("abc"), "cba");
    assert_eq!(visual_reverse("abc 123"), "123 cba");
    assert_eq!(visual_reverse("1.5 ab"), "ba 1.5");
    assert_eq!(visual_reverse("a ۱۲"), "۱۲ a");
    assert_eq!(visual_reverse(""), "");
    // a run that does not start with a digit is not turned back
    assert_eq!(visual_reverse(".a"), "a.");
}

#[test]
fn visual_reverse_keeps_length() {
    for s in ["12:30 x", "ab, 3.4.5", "سلام ۱۲۳"] {
        assert_eq!(visual_reverse(s).chars().count(), s.chars().count());
    }
}

#[test]
fn arabic_block_is_reshaped_and_reversed() {
    // ar-reshaper joins lam and alef into one ligature
    assert_eq!(process_arabic_block("سلام"), "\u{FEE1}\u{FEFC}\u{FEB3}");
}

#[test]
fn terminal_line_output() {
    assert_eq!(process_line("Hello World"), "Hello World");
    assert_eq!(process_line(""), "");
    assert_eq!(process_line("Hello سلام World"), "Hello  \u{FEE1}\u{FEFC}\u{FEB3}World");
    assert_eq!(process_line("سلام"), "\u{FEE1}\u{FEFC}\u{FEB3}");
}

#[test]
fn parser_passes_plain_text_and_escapes() {
    let mut p = TermParser::new();
    let input = b"\x1b[31mhello\x1b[0m world";
    assert_eq!(p.handle_bytes(input), input.to_vec());
}

#[test]
fn parser_rewrites_arabic_text() {
    let mut p = TermParser::new();
    let out = p.handle_bytes("\x1b[1mسلام".as_bytes());
    let mut expected = b"\x1b[1m".to_vec();
    expected.extend_from_slice("\u{FEE1}\u{FEFC}\u{FEB3}".as_bytes());
    assert_eq!(out, expected);
}

#[test]
fn parser_keeps_incomplete_utf8() {
    let mut p = TermParser::new();
    assert_eq!(p.handle_bytes(&[b'a', 0xD8]), b"a".to_vec());
    assert_eq!(p.handle_bytes(&[0xB3]), "\u{FEB1}".as_bytes().to_vec());
}

#[test]
fn parser_writes_invalid_leading_bytes() {
    let mut p = TermParser::new();
    // with no valid prefix, leading bytes are written one by one while more
    // than four are buffered; the last four stay buffered
    let out = p.handle_bytes(&[0xFF, 0xFF, 0xFF, 0xFF, 0xFF, b'a']);
    assert_eq!(out, vec![0xFF, 0xFF]);
    // four buffered bytes with no valid prefix stay buffered at an ESC too
    assert_eq!(p.handle_bytes(b"\x1b[0m"), b"\x1b[0m".to_vec());
    // one more byte lets the first of them out
    assert_eq!(p.handle_bytes(b"b"), vec![0xFF]);
}

#[test]
fn parser_passes_plain_text_unchanged() {
    let mut p = TermParser::new();
    let input = "total 12\r\ndrwxr-xr-x 2 user user 4096 café.txt\r\n".as_bytes();
    assert_eq!(p.handle_bytes(input), input.to_vec());
    // nothing was left buffered: an empty chunk writes nothing
    assert_eq!(p.handle_bytes(&[]), Vec::<u8>::new());
}

#[test]
fn parser_passes_ascii_with_escapes() {
    let mut p = TermParser::new();
    let input = b"ls\r\n\x1b[01;34mdir\x1b[0m  \x1b]0;title\x07file\x1b[2";
    assert_eq!(p.handle_bytes(input), input.to_vec());
    // nothing was left buffered
    assert_eq!(p.handle_bytes(b"J"), b"J".to_vec());
}
