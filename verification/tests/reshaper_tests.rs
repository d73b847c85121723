use farsi_shell::reshaper::{
    get_shaped_char, is_arabic_letter, is_diacritic, joining_type, reshape_line, JoiningType,
};

#[test]
fn test_joining_types() {
    assert_eq!(joining_type('ب'), JoiningType::Dual);
    assert_eq!(joining_type('ا'), JoiningType::Right);
    assert_eq!(joining_type('د'), JoiningType::Right);
    assert_eq!(joining_type('\u{064B}'), JoiningType::Transparent);
}

#[test]
fn test_reshape_basic() {
    let input = "سلام";
    let shaped = reshape_line(input);
    assert!(shaped.chars().all(|c| {
        let cp = c as u32;
        (0xFE70..=0xFEFF).contains(&cp) || !is_arabic_letter(c)
    }));
}

#[test]
fn test_mixed_text() {
    let input = "Hello سلام World";
    let shaped = reshape_line(input);
    assert!(shaped.starts_with("Hello "));
    assert!(shaped.ends_with(" World"));
}

#[test]
fn test_reshape_word_connectivity() {
    let input = "بسم";
    let shaped = reshape_line(input);
    let chars: Vec<char> = shaped.chars().collect();
    assert_eq!(chars[0], '\u{FE91}');
    assert_eq!(chars[1], '\u{FEB4}');
    assert_eq!(chars[2], '\u{FEE2}');
}

#[test]
fn test_diacritics_preserved() {
    // The assertion looks for fathatan (U+064B). Beh with fatha (U+064E) keeps
    // fatha, not fathatan, so with fatha as input this check could not hold;
    // the input carries fathatan itself, and `fatha_is_preserved` below checks
    // beh with fatha.
    let input = "\u{0628}\u{064B}";
    let shaped = reshape_line(input);
    assert!(shaped.contains('\u{064B}'));
}

#[test]
fn joining_type_edge_cases() {
    assert_eq!(joining_type('\u{0621}'), JoiningType::NonJoining);
    assert_eq!(joining_type('a'), JoiningType::NonJoining);
    assert_eq!(joining_type('\u{06CC}'), JoiningType::Dual);
    assert_eq!(joining_type('\u{067E}'), JoiningType::Dual);
    assert_eq!(joining_type('\u{0698}'), JoiningType::Right);
    assert_eq!(joining_type('\u{0644}'), JoiningType::Dual);
    // code points that are both in the letter and the diacritic ranges are diacritics
    assert_eq!(joining_type('\u{08F0}'), JoiningType::Transparent);
    assert!(is_arabic_letter('\u{08F0}'));
    assert!(is_diacritic('\u{08F0}'));
    assert!(!is_arabic_letter('\u{064B}'));
    assert!(!is_diacritic('ب'));
}

#[test]
fn shaped_char_forms() {
    assert_eq!(get_shaped_char('\u{0628}', true, false, false, false), '\u{FE8F}');
    assert_eq!(get_shaped_char('\u{0628}', false, true, false, false), '\u{FE91}');
    assert_eq!(get_shaped_char('\u{0628}', false, false, false, true), '\u{FE90}');
    assert_eq!(get_shaped_char('\u{0628}', false, false, true, false), '\u{FE92}');
    assert_eq!(get_shaped_char('\u{0628}', false, false, false, false), '\u{FE92}');
    assert_eq!(get_shaped_char('\u{0627}', false, true, false, false), '\u{FE8E}');
    assert_eq!(get_shaped_char('\u{0621}', false, false, false, true), '\u{FE80}');
    assert_eq!(get_shaped_char('\u{0649}', false, true, false, false), '\u{FEF3}');
    assert_eq!(get_shaped_char('\u{06CC}', true, false, false, false), '\u{FBFC}');
    assert_eq!(get_shaped_char('x', false, true, false, false), 'x');
}

#[test]
fn reshape_exact_values() {
    assert_eq!(reshape_line("سلام"), "\u{FEB3}\u{FEE0}\u{FE8E}\u{FEE1}");
    assert_eq!(reshape_line("ب"), "\u{FE8F}");
    assert_eq!(reshape_line("با"), "\u{FE91}\u{FE8E}");
    assert_eq!(reshape_line("اب"), "\u{FE8D}\u{FE8F}");
    // a diacritic between two letters does not break the join
    assert_eq!(reshape_line("بَب"), "\u{FE91}\u{064E}\u{FE90}");
    // a non-Arabic character breaks the word
    assert_eq!(reshape_line("ب ب"), "\u{FE8F} \u{FE8F}");
    assert_eq!(reshape_line(""), "");
}

#[test]
fn reshape_keeps_other_characters() {
    let s = "x بِ-ا 9 \u{0621}";
    let r = reshape_line(s);
    let sc: Vec<char> = s.chars().collect();
    let rc: Vec<char> = r.chars().collect();
    assert_eq!(sc.len(), rc.len());
    for (i, c) in sc.iter().enumerate() {
        if !is_arabic_letter(*c) || is_diacritic(*c) {
            assert_eq!(rc[i], *c);
        }
    }
}

#[test]
fn fatha_is_preserved() {
    // beh with fatha (U+064E): the letter takes its isolated form, the mark stays
    assert_eq!(reshape_line("بَ"), "\u{FE8F}\u{064E}");
}

#[test]
fn peh_and_farsi_yeh_join_both_ways() {
    // peh, peh: initial then final
    assert_eq!(reshape_line("\u{067E}\u{067E}"), "\u{FB58}\u{FB57}");
    // farsi yeh, kaf: initial yeh, final kaf
    assert_eq!(reshape_line("\u{06CC}\u{06A9}"), "\u{FBFE}\u{FB8F}");
    // beh, farsi yeh, beh: yeh takes its medial form
    assert_eq!(reshape_line("\u{0628}\u{06CC}\u{0628}"), "\u{FE91}\u{FBFF}\u{FE90}");
}
