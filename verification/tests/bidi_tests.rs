use farsi_shell::bidi::{char_direction, has_rtl_chars, is_rtl_dominant, process_line, reorder_line, Direction};

#[test]
fn test_char_direction() {
    assert_eq!(char_direction('A'), Direction::LTR);
    assert_eq!(char_direction('ا'), Direction::RTL);
    assert_eq!(char_direction(' '), Direction::Neutral);
    assert_eq!(char_direction('1'), Direction::LTR);
}

#[test]
fn test_has_rtl_chars() {
    assert!(has_rtl_chars("Hello سلام"));
    assert!(!has_rtl_chars("Hello World"));
    assert!(has_rtl_chars("سلام"));
}

#[test]
fn test_is_rtl_dominant() {
    assert!(is_rtl_dominant("سلام دنیا"));
    assert!(!is_rtl_dominant("Hello World"));
}

#[test]
fn test_presentation_forms_detected() {
    assert_eq!(char_direction('\u{FB56}'), Direction::RTL);
    assert_eq!(char_direction('\u{FB7A}'), Direction::RTL);
    assert_eq!(char_direction('\u{FB8E}'), Direction::RTL);
}

#[test]
fn test_reorder_line() {
    let input = "سلام";
    let reordered = reorder_line(input);
    let input_chars: Vec<char> = input.chars().collect();
    let reordered_chars: Vec<char> = reordered.chars().collect();
    assert_eq!(reordered_chars[0], input_chars[input_chars.len() - 1]);
}

#[test]
fn test_reorder_mixed() {
    let input = "Hello سلام World";
    let reordered = reorder_line(input);
    assert!(reordered.starts_with("Hello "));
    assert!(reordered.ends_with(" World"));
}

#[test]
fn direction_of_whitespace_punctuation_and_hebrew() {
    assert_eq!(char_direction('\t'), Direction::Neutral);
    assert_eq!(char_direction('\u{3000}'), Direction::Neutral);
    assert_eq!(char_direction('\u{00A0}'), Direction::Neutral);
    assert_eq!(char_direction('!'), Direction::Neutral);
    assert_eq!(char_direction('~'), Direction::Neutral);
    assert_eq!(char_direction('\u{05D0}'), Direction::RTL);
    assert_eq!(char_direction('\u{064B}'), Direction::RTL);
    assert_eq!(char_direction('\u{FEFF}'), Direction::RTL);
    assert_eq!(char_direction('é'), Direction::LTR);
}

#[test]
fn reorder_exact_values() {
    assert_eq!(reorder_line("abc"), "abc");
    assert_eq!(reorder_line(""), "");
    assert_eq!(reorder_line("سلام"), "مالس");
    assert_eq!(reorder_line("Hello سلام World"), "Hello مالس World");
    // a single neutral between two right-to-left words joins them into one run
    assert_eq!(reorder_line("ab ج د"), "ab د ج");
    // two neutrals end the run
    assert_eq!(reorder_line("ج  د"), "ج  د");
    // a trailing neutral is not taken into the run
    assert_eq!(reorder_line("جد."), "دج.");
}

#[test]
fn process_line_matches_reorder_line() {
    assert_eq!(process_line("Hello World"), "Hello World");
    assert_eq!(process_line("x سلام y"), "x مالس y");
}

#[test]
fn reorder_is_an_involution() {
    for s in ["Hello سلام World", "ab ج د, e", "1 ج. د 2", "ججج  ددد"] {
        assert_eq!(reorder_line(&reorder_line(s)), s);
    }
}

#[test]
fn reorder_keeps_ltr_positions_and_length() {
    let s = "a ب c د e";
    let r = reorder_line(s);
    let sc: Vec<char> = s.chars().collect();
    let rc: Vec<char> = r.chars().collect();
    assert_eq!(sc.len(), rc.len());
    for (i, c) in sc.iter().enumerate() {
        if char_direction(*c) == Direction::LTR {
            assert_eq!(rc[i], *c);
        }
    }
}

#[test]
fn rtl_dominance_counts() {
    assert!(!is_rtl_dominant(""));
    assert!(!is_rtl_dominant("ab ج"));
    assert!(is_rtl_dominant("a جد"));
    assert!(!is_rtl_dominant("ab جد"));
}
