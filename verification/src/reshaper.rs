//! Arabic/Persian contextual shaping.
//!
//! A letter of the Arabic script takes one of up to four presentation forms
//! (isolated, initial, medial, final) depending on whether it joins the letter
//! before it and the letter after it. Diacritics are transparent: they are
//! skipped when looking for the neighbours of a letter.
use vstd::prelude::*;
use crate::text::{chars_of, push_char};

verus! {

/// How a character takes part in joining.
#[derive(Debug, Clone, Copy, PartialEq, Eq, Structural)]
pub enum JoiningType {
    /// Joins on both sides.
    Dual,
    /// Joins only to the letter before it.
    Right,
    /// Never joins.
    NonJoining,
    /// A mark that is skipped when looking for neighbours.
    Transparent,
}

/// The code points that the shaper treats as Arabic-script letters.
pub open spec fn arabic_letter(c: char) -> bool {
    let cp = c as u32;
    ||| 0x0621 <= cp <= 0x063A
    ||| 0x0641 <= cp <= 0x064A
    ||| cp == 0x067E
    ||| cp == 0x0686
    ||| cp == 0x0698
    ||| cp == 0x06A9
    ||| cp == 0x06AF
    ||| cp == 0x06CC
    ||| cp == 0x0671
    ||| 0x0679 <= cp <= 0x067D
    ||| 0x0680 <= cp <= 0x069C
    ||| 0x06A0 <= cp <= 0x06B9
    ||| 0x06BB <= cp <= 0x06D3
    ||| cp == 0x06D5
    ||| 0x06EE <= cp <= 0x06EF
    ||| 0x06F0 <= cp <= 0x06F9
    ||| 0x0750 <= cp <= 0x077F
    ||| 0x08A0 <= cp <= 0x08FF
}

/// The code points that the shaper treats as diacritics (combining marks).
pub open spec fn diacritic(c: char) -> bool {
    let cp = c as u32;
    ||| 0x0610 <= cp <= 0x061A
    ||| 0x064B <= cp <= 0x065F
    ||| cp == 0x0670
    ||| 0x06D6 <= cp <= 0x06DC
    ||| 0x06DF <= cp <= 0x06E4
    ||| 0x06E7 <= cp <= 0x06E8
    ||| 0x06EA <= cp <= 0x06ED
    ||| 0x08D4 <= cp <= 0x08E1
    ||| 0x08F0 <= cp <= 0x08FF
}

/// Letters that join only to the letter before them.
pub open spec fn right_joining_letter(c: char) -> bool {
    let cp = c as u32;
    ||| cp == 0x0622 || cp == 0x0623 || cp == 0x0624 || cp == 0x0625 || cp == 0x0627
    ||| cp == 0x0629 || cp == 0x062F || cp == 0x0630 || cp == 0x0631 || cp == 0x0632
    ||| cp == 0x0648 || cp == 0x0671 || cp == 0x0698
}

/// The joining type of a character: diacritics are transparent, hamza and
/// non-Arabic characters never join, the right-joining letters join backwards
/// only, and every other Arabic letter joins on both sides.
pub open spec fn joining_type_of(c: char) -> JoiningType {
    if diacritic(c) {
        JoiningType::Transparent
    } else if c == '\u{0621}' {
        JoiningType::NonJoining
    } else if right_joining_letter(c) {
        JoiningType::Right
    } else if arabic_letter(c) {
        JoiningType::Dual
    } else {
        JoiningType::NonJoining
    }
}

/// The presentation forms of a letter, as (isolated, final, initial, medial).
/// Letters that do not join forwards use their final form in place of the
/// initial and medial ones; hamza has a single form.
pub open spec fn letter_forms(c: char) -> Option<(char, char, char, char)> {
    match c {
        '\u{0623}' => Some(('\u{FE83}', '\u{FE84}', '\u{FE84}', '\u{FE84}')),
        '\u{0622}' => Some(('\u{FE81}', '\u{FE82}', '\u{FE82}', '\u{FE82}')),
        '\u{0625}' => Some(('\u{FE87}', '\u{FE88}', '\u{FE88}', '\u{FE88}')),
        '\u{0627}' => Some(('\u{FE8D}', '\u{FE8E}', '\u{FE8E}', '\u{FE8E}')),
        '\u{0628}' => Some(('\u{FE8F}', '\u{FE90}', '\u{FE91}', '\u{FE92}')),
        '\u{0629}' => Some(('\u{FE93}', '\u{FE94}', '\u{FE94}', '\u{FE94}')),
        '\u{062A}' => Some(('\u{FE95}', '\u{FE96}', '\u{FE97}', '\u{FE98}')),
        '\u{062B}' => Some(('\u{FE99}', '\u{FE9A}', '\u{FE9B}', '\u{FE9C}')),
        '\u{062C}' => Some(('\u{FE9D}', '\u{FE9E}', '\u{FE9F}', '\u{FEA0}')),
        '\u{062D}' => Some(('\u{FEA1}', '\u{FEA2}', '\u{FEA3}', '\u{FEA4}')),
        '\u{062E}' => Some(('\u{FEA5}', '\u{FEA6}', '\u{FEA7}', '\u{FEA8}')),
        '\u{062F}' => Some(('\u{FEA9}', '\u{FEAA}', '\u{FEAA}', '\u{FEAA}')),
        '\u{0630}' => Some(('\u{FEAB}', '\u{FEAC}', '\u{FEAC}', '\u{FEAC}')),
        '\u{0631}' => Some(('\u{FEAD}', '\u{FEAE}', '\u{FEAE}', '\u{FEAE}')),
        '\u{0632}' => Some(('\u{FEAF}', '\u{FEB0}', '\u{FEB0}', '\u{FEB0}')),
        '\u{0633}' => Some(('\u{FEB1}', '\u{FEB2}', '\u{FEB3}', '\u{FEB4}')),
        '\u{0634}' => Some(('\u{FEB5}', '\u{FEB6}', '\u{FEB7}', '\u{FEB8}')),
        '\u{0635}' => Some(('\u{FEB9}', '\u{FEBA}', '\u{FEBB}', '\u{FEBC}')),
        '\u{0636}' => Some(('\u{FEBD}', '\u{FEBE}', '\u{FEBF}', '\u{FEC0}')),
        '\u{0637}' => Some(('\u{FEC1}', '\u{FEC2}', '\u{FEC3}', '\u{FEC4}')),
        '\u{0638}' => Some(('\u{FEC5}', '\u{FEC6}', '\u{FEC7}', '\u{FEC8}')),
        '\u{0639}' => Some(('\u{FEC9}', '\u{FECA}', '\u{FECB}', '\u{FECC}')),
        '\u{063A}' => Some(('\u{FECD}', '\u{FECE}', '\u{FECF}', '\u{FED0}')),
        '\u{0641}' => Some(('\u{FED1}', '\u{FED2}', '\u{FED3}', '\u{FED4}')),
        '\u{0642}' => Some(('\u{FED5}', '\u{FED6}', '\u{FED7}', '\u{FED8}')),
        '\u{0643}' => Some(('\u{FED9}', '\u{FEDA}', '\u{FEDB}', '\u{FEDC}')),
        '\u{0644}' => Some(('\u{FEDD}', '\u{FEDE}', '\u{FEDF}', '\u{FEE0}')),
        '\u{0645}' => Some(('\u{FEE1}', '\u{FEE2}', '\u{FEE3}', '\u{FEE4}')),
        '\u{0646}' => Some(('\u{FEE5}', '\u{FEE6}', '\u{FEE7}', '\u{FEE8}')),
        '\u{0647}' => Some(('\u{FEE9}', '\u{FEEA}', '\u{FEEB}', '\u{FEEC}')),
        '\u{0648}' => Some(('\u{FEED}', '\u{FEEE}', '\u{FEEE}', '\u{FEEE}')),
        '\u{064A}' => Some(('\u{FEF1}', '\u{FEF2}', '\u{FEF3}', '\u{FEF4}')),
        '\u{0649}' => Some(('\u{FEF0}', '\u{FEF2}', '\u{FEF3}', '\u{FEF4}')),
        '\u{0621}' => Some(('\u{FE80}', '\u{FE80}', '\u{FE80}', '\u{FE80}')),
        '\u{067E}' => Some(('\u{FB56}', '\u{FB57}', '\u{FB58}', '\u{FB59}')),
        '\u{0686}' => Some(('\u{FB7A}', '\u{FB7B}', '\u{FB7C}', '\u{FB7D}')),
        '\u{0698}' => Some(('\u{FB8A}', '\u{FB8B}', '\u{FB8B}', '\u{FB8B}')),
        '\u{06A9}' => Some(('\u{FB8E}', '\u{FB8F}', '\u{FB90}', '\u{FB91}')),
        '\u{06AF}' => Some(('\u{FB92}', '\u{FB93}', '\u{FB94}', '\u{FB95}')),
        '\u{06CC}' => Some(('\u{FBFC}', '\u{FBFD}', '\u{FBFE}', '\u{FBFF}')),
        _ => None,
    }
}

/// The form of `c` that `get_shaped_char` picks: the isolated form when
/// `isolated`, else the initial form when `initial`, else the final form when
/// `final_pos`, else the medial form. A character without presentation forms
/// is returned as it is.
pub open spec fn shaped_char(c: char, isolated: bool, initial: bool, final_pos: bool) -> char {
    match letter_forms(c) {
        Some((iso, fin, ini, med)) => if isolated {
            iso
        } else if initial {
            ini
        } else if final_pos {
            fin
        } else {
            med
        },
        None => c,
    }
}

/// True when the nearest non-transparent entry at or before `j` joins
/// forwards (is `Dual`); false when there is none.
pub open spec fn joins_before(jt: Seq<JoiningType>, j: int) -> bool
    decreases j + 1,
{
    if j < 0 || j >= jt.len() {
        false
    } else if jt[j] == JoiningType::Transparent {
        joins_before(jt, j - 1)
    } else {
        jt[j] == JoiningType::Dual
    }
}

/// True when the nearest non-transparent entry at or after `j` joins
/// backwards (is `Dual` or `Right`); false when there is none.
pub open spec fn joins_after(jt: Seq<JoiningType>, j: int) -> bool
    decreases jt.len() - j,
{
    if j < 0 || j >= jt.len() {
        false
    } else if jt[j] == JoiningType::Transparent {
        joins_after(jt, j + 1)
    } else {
        jt[j] == JoiningType::Dual || jt[j] == JoiningType::Right
    }
}

/// The shaped form of the character at index `i`, given the joining types of
/// its word.
pub open spec fn shape_at(cs: Seq<char>, jt: Seq<JoiningType>, i: int) -> char {
    let c = cs[i];
    match jt[i] {
        JoiningType::Transparent => c,
        JoiningType::NonJoining => shaped_char(c, true, false, false),
        JoiningType::Right => if joins_before(jt, i - 1) {
            shaped_char(c, false, false, true)
        } else {
            shaped_char(c, true, false, false)
        },
        JoiningType::Dual => {
            let p = joins_before(jt, i - 1);
            let n = joins_after(jt, i + 1);
            if p && n {
                shaped_char(c, false, false, false)
            } else if p {
                shaped_char(c, false, false, true)
            } else if n {
                shaped_char(c, false, true, false)
            } else {
                shaped_char(c, true, false, false)
            }
        },
    }
}

/// Every character of `cs` shaped in the context of `jt`.
pub open spec fn shape_word(cs: Seq<char>, jt: Seq<JoiningType>) -> Seq<char> {
    Seq::new(cs.len(), |i: int| shape_at(cs, jt, i))
}

/// The joining types of the characters of `s`.
pub open spec fn joining_types(s: Seq<char>) -> Seq<JoiningType> {
    s.map_values(|c: char| joining_type_of(c))
}

/// The shaped form of a whole line: each character shaped in the context of
/// the joining types of the line.
pub open spec fn shaped_line(s: Seq<char>) -> Seq<char> {
    shape_word(s, joining_types(s))
}

/// Whether `ch` is an Arabic-script letter.
pub fn is_arabic_letter(ch: char) -> (r: bool)
    ensures
        r == arabic_letter(ch),
{
    let cp = ch as u32;
    (0x0621 <= cp && cp <= 0x063A) || (0x0641 <= cp && cp <= 0x064A) || cp == 0x067E
        || cp == 0x0686 || cp == 0x0698 || cp == 0x06A9 || cp == 0x06AF || cp == 0x06CC
        || cp == 0x0671 || (0x0679 <= cp && cp <= 0x067D) || (0x0680 <= cp && cp <= 0x069C)
        || (0x06A0 <= cp && cp <= 0x06B9) || (0x06BB <= cp && cp <= 0x06D3) || cp == 0x06D5
        || (0x06EE <= cp && cp <= 0x06EF) || (0x06F0 <= cp && cp <= 0x06F9)
        || (0x0750 <= cp && cp <= 0x077F) || (0x08A0 <= cp && cp <= 0x08FF)
}

/// Whether `ch` is an Arabic diacritic.
pub fn is_diacritic(ch: char) -> (r: bool)
    ensures
        r == diacritic(ch),
{
    let cp = ch as u32;
    (0x0610 <= cp && cp <= 0x061A) || (0x064B <= cp && cp <= 0x065F) || cp == 0x0670
        || (0x06D6 <= cp && cp <= 0x06DC) || (0x06DF <= cp && cp <= 0x06E4)
        || (0x06E7 <= cp && cp <= 0x06E8) || (0x06EA <= cp && cp <= 0x06ED)
        || (0x08D4 <= cp && cp <= 0x08E1) || (0x08F0 <= cp && cp <= 0x08FF)
}

/// The joining type of `ch`.
pub fn joining_type(ch: char) -> (r: JoiningType)
    ensures
        r == joining_type_of(ch),
{
    if is_diacritic(ch) {
        return JoiningType::Transparent;
    }
    match ch {
        '\u{0621}' => JoiningType::NonJoining,
        '\u{0622}' | '\u{0623}' | '\u{0624}' | '\u{0625}' | '\u{0627}' | '\u{0629}'
        | '\u{062F}' | '\u{0630}' | '\u{0631}' | '\u{0632}' | '\u{0648}' | '\u{0671}'
        | '\u{0698}' => JoiningType::Right,
        _ => if is_arabic_letter(ch) {
            JoiningType::Dual
        } else {
            JoiningType::NonJoining
        },
    }
}

/// The presentation form of `ch` for the given position flags: isolated
/// first, then initial, then final, otherwise medial. Characters without
/// presentation forms come back unchanged; `_medial` does not affect the result.
pub fn get_shaped_char(ch: char, isolated: bool, initial: bool, _medial: bool, final_pos: bool) -> (r: char)
    ensures
        r == shaped_char(ch, isolated, initial, final_pos),
{
    match ch {
        '\u{0623}' => if isolated { '\u{FE83}' } else { '\u{FE84}' },
        '\u{0622}' => if isolated { '\u{FE81}' } else { '\u{FE82}' },
        '\u{0625}' => if isolated { '\u{FE87}' } else { '\u{FE88}' },
        '\u{0627}' => if isolated { '\u{FE8D}' } else { '\u{FE8E}' },
        '\u{0628}' => {
            if isolated { '\u{FE8F}' }
            else if initial { '\u{FE91}' }
            else if final_pos { '\u{FE90}' }
            else { '\u{FE92}' }
        }
        '\u{0629}' => if isolated { '\u{FE93}' } else { '\u{FE94}' },
        '\u{062A}' => {
            if isolated { '\u{FE95}' }
            else if initial { '\u{FE97}' }
            else if final_pos { '\u{FE96}' }
            else { '\u{FE98}' }
        }
        '\u{062B}' => {
            if isolated { '\u{FE99}' }
            else if initial { '\u{FE9B}' }
            else if final_pos { '\u{FE9A}' }
            else { '\u{FE9C}' }
        }
        '\u{062C}' => {
            if isolated { '\u{FE9D}' }
            else if initial { '\u{FE9F}' }
            else if final_pos { '\u{FE9E}' }
            else { '\u{FEA0}' }
        }
        '\u{062D}' => {
            if isolated { '\u{FEA1}' }
            else if initial { '\u{FEA3}' }
            else if final_pos { '\u{FEA2}' }
            else { '\u{FEA4}' }
        }
        '\u{062E}' => {
            if isolated { '\u{FEA5}' }
            else if initial { '\u{FEA7}' }
            else if final_pos { '\u{FEA6}' }
            else { '\u{FEA8}' }
        }
        '\u{062F}' => if isolated { '\u{FEA9}' } else { '\u{FEAA}' },
        '\u{0630}' => if isolated { '\u{FEAB}' } else { '\u{FEAC}' },
        '\u{0631}' => if isolated { '\u{FEAD}' } else { '\u{FEAE}' },
        '\u{0632}' => if isolated { '\u{FEAF}' } else { '\u{FEB0}' },
        '\u{0633}' => {
            if isolated { '\u{FEB1}' }
            else if initial { '\u{FEB3}' }
            else if final_pos { '\u{FEB2}' }
            else { '\u{FEB4}' }
        }
        '\u{0634}' => {
            if isolated { '\u{FEB5}' }
            else if initial { '\u{FEB7}' }
            else if final_pos { '\u{FEB6}' }
            else { '\u{FEB8}' }
        }
        '\u{0635}' => {
            if isolated { '\u{FEB9}' }
            else if initial { '\u{FEBB}' }
            else if final_pos { '\u{FEBA}' }
            else { '\u{FEBC}' }
        }
        '\u{0636}' => {
            if isolated { '\u{FEBD}' }
            else if initial { '\u{FEBF}' }
            else if final_pos { '\u{FEBE}' }
            else { '\u{FEC0}' }
        }
        '\u{0637}' => {
            if isolated { '\u{FEC1}' }
            else if initial { '\u{FEC3}' }
            else if final_pos { '\u{FEC2}' }
            else { '\u{FEC4}' }
        }
        '\u{0638}' => {
            if isolated { '\u{FEC5}' }
            else if initial { '\u{FEC7}' }
            else if final_pos { '\u{FEC6}' }
            else { '\u{FEC8}' }
        }
        '\u{0639}' => {
            if isolated { '\u{FEC9}' }
            else if initial { '\u{FECB}' }
            else if final_pos { '\u{FECA}' }
            else { '\u{FECC}' }
        }
        '\u{063A}' => {
            if isolated { '\u{FECD}' }
            else if initial { '\u{FECF}' }
            else if final_pos { '\u{FECE}' }
            else { '\u{FED0}' }
        }
        '\u{0641}' => {
            if isolated { '\u{FED1}' }
            else if initial { '\u{FED3}' }
            else if final_pos { '\u{FED2}' }
            else { '\u{FED4}' }
        }
        '\u{0642}' => {
            if isolated { '\u{FED5}' }
            else if initial { '\u{FED7}' }
            else if final_pos { '\u{FED6}' }
            else { '\u{FED8}' }
        }
        '\u{0643}' => {
            if isolated { '\u{FED9}' }
            else if initial { '\u{FEDB}' }
            else if final_pos { '\u{FEDA}' }
            else { '\u{FEDC}' }
        }
        '\u{0644}' => {
            if isolated { '\u{FEDD}' }
            else if initial { '\u{FEDF}' }
            else if final_pos { '\u{FEDE}' }
            else { '\u{FEE0}' }
        }
        '\u{0645}' => {
            if isolated { '\u{FEE1}' }
            else if initial { '\u{FEE3}' }
            else if final_pos { '\u{FEE2}' }
            else { '\u{FEE4}' }
        }
        '\u{0646}' => {
            if isolated { '\u{FEE5}' }
            else if initial { '\u{FEE7}' }
            else if final_pos { '\u{FEE6}' }
            else { '\u{FEE8}' }
        }
        '\u{0647}' => {
            if isolated { '\u{FEE9}' }
            else if initial { '\u{FEEB}' }
            else if final_pos { '\u{FEEA}' }
            else { '\u{FEEC}' }
        }
        '\u{0648}' => if isolated { '\u{FEED}' } else { '\u{FEEE}' },
        '\u{064A}' => {
            if isolated { '\u{FEF1}' }
            else if initial { '\u{FEF3}' }
            else if final_pos { '\u{FEF2}' }
            else { '\u{FEF4}' }
        }
        '\u{0649}' => {
            if isolated { '\u{FEF0}' }
            else if initial { '\u{FEF3}' }
            else if final_pos { '\u{FEF2}' }
            else { '\u{FEF4}' }
        }
        '\u{0621}' => '\u{FE80}',

        // Persian characters
        '\u{067E}' => {
            if isolated { '\u{FB56}' }
            else if initial { '\u{FB58}' }
            else if final_pos { '\u{FB57}' }
            else { '\u{FB59}' }
        }
        '\u{0686}' => {
            if isolated { '\u{FB7A}' }
            else if initial { '\u{FB7C}' }
            else if final_pos { '\u{FB7B}' }
            else { '\u{FB7D}' }
        }
        '\u{0698}' => if isolated { '\u{FB8A}' } else { '\u{FB8B}' },
        '\u{06A9}' => {
            if isolated { '\u{FB8E}' }
            else if initial { '\u{FB90}' }
            else if final_pos { '\u{FB8F}' }
            else { '\u{FB91}' }
        }
        '\u{06AF}' => {
            if isolated { '\u{FB92}' }
            else if initial { '\u{FB94}' }
            else if final_pos { '\u{FB93}' }
            else { '\u{FB95}' }
        }
        '\u{06CC}' => {
            if isolated { '\u{FBFC}' }
            else if initial { '\u{FBFE}' }
            else if final_pos { '\u{FBFD}' }
            else { '\u{FBFF}' }
        }

        _ => ch,
    }
}


/// A character that is neither an Arabic letter nor a diacritic does not
/// join, and shaping leaves it as it is.
pub proof fn lemma_non_arabic_unshaped(c: char)
    requires
        !arabic_letter(c),
        !diacritic(c),
    ensures
        joining_type_of(c) == JoiningType::NonJoining,
        letter_forms(c) is None,
        shaped_char(c, true, false, false) == c,
{
}

proof fn lemma_joins_before_window(jt: Seq<JoiningType>, start: int, end: int, k: int)
    requires
        0 <= start <= end <= jt.len(),
        -1 <= k < end - start,
        start == 0 || jt[start - 1] == JoiningType::NonJoining,
    ensures
        joins_before(jt.subrange(start, end), k) == joins_before(jt, start + k),
    decreases k + 1,
{
    if k >= 0 {
        lemma_joins_before_window(jt, start, end, k - 1);
    }
}

proof fn lemma_joins_after_window(jt: Seq<JoiningType>, start: int, end: int, k: int)
    requires
        0 <= start <= end <= jt.len(),
        0 <= k <= end - start,
        end == jt.len() || jt[end] == JoiningType::NonJoining,
    ensures
        joins_after(jt.subrange(start, end), k) == joins_after(jt, start + k),
    decreases end - start - k,
{
    if k < end - start {
        lemma_joins_after_window(jt, start, end, k + 1);
    }
}

/// Shaping a run of a line that is bounded by non-joining characters (or the
/// ends of the line) gives the same characters as shaping the whole line.
pub proof fn lemma_word_in_line(s: Seq<char>, start: int, end: int)
    requires
        0 <= start <= end <= s.len(),
        start == 0 || joining_type_of(s[start - 1]) == JoiningType::NonJoining,
        end == s.len() || joining_type_of(s[end]) == JoiningType::NonJoining,
    ensures
        shape_word(s.subrange(start, end), joining_types(s).subrange(start, end))
            == shaped_line(s).subrange(start, end),
{
    let jt = joining_types(s);
    let w = s.subrange(start, end);
    let wj = jt.subrange(start, end);
    assert forall|k: int| 0 <= k < end - start implies shape_at(w, wj, k) == shape_at(
        s,
        jt,
        start + k,
    ) by {
        lemma_joins_before_window(jt, start, end, k - 1);
        lemma_joins_after_window(jt, start, end, k + 1);
    }
    assert(shape_word(w, wj) =~= shaped_line(s).subrange(start, end));
}

/// Whether the nearest non-transparent joining type before `idx`, among the
/// first `len` entries, is `Dual`.
fn connects_prev(joining: &[JoiningType], len: usize, idx: usize) -> (r: bool)
    requires
        idx <= len <= joining.len(),
    ensures
        r == joins_before(joining@.take(len as int), idx - 1),
{
    let ghost jt = joining@.take(len as int);
    if idx == 0 {
        return false;
    }
    let mut j = idx - 1;
    loop
        invariant
            jt == joining@.take(len as int),
            len <= joining.len(),
            j < len,
            joins_before(jt, idx - 1) == joins_before(jt, j as int),
        decreases j,
    {
        assert(jt[j as int] == joining@[j as int]);
        match joining[j] {
            JoiningType::Transparent => {
                if j == 0 {
                    assert(!joins_before(jt, -1));
                    return false;
                }
                j -= 1;
            },
            JoiningType::Dual => {
                return true;
            },
            _ => {
                return false;
            },
        }
    }
}

/// Whether the nearest non-transparent joining type after `idx`, among the
/// first `len` entries, is `Dual` or `Right`.
fn connects_next(joining: &[JoiningType], len: usize, idx: usize) -> (r: bool)
    requires
        idx < len <= joining.len(),
    ensures
        r == joins_after(joining@.take(len as int), idx + 1),
{
    let ghost jt = joining@.take(len as int);
    let mut j = idx + 1;
    while j < len
        invariant
            jt == joining@.take(len as int),
            len <= joining.len(),
            idx + 1 <= j <= len,
            joins_after(jt, idx + 1) == joins_after(jt, j as int),
        decreases len - j,
    {
        assert(jt[j as int] == joining@[j as int]);
        match joining[j] {
            JoiningType::Transparent => {
                j += 1;
            },
            JoiningType::Dual | JoiningType::Right => {
                return true;
            },
            _ => {
                return false;
            },
        }
    }
    false
}

/// Shapes one word whose characters have the given joining types; joining
/// types past the last character are not looked at.
fn reshape_word(chars: &[char], joining: &[JoiningType]) -> (r: String)
    requires
        chars.len() <= joining.len(),
    ensures
        r@ == shape_word(chars@, joining@.take(chars.len() as int)),
{
    let mut result = String::new();
    let len = chars.len();
    let ghost jt = joining@.take(len as int);
    for idx in 0..len
        invariant
            len == chars.len(),
            len <= joining.len(),
            jt == joining@.take(len as int),
            result@ == shape_word(chars@, jt).take(idx as int),
    {
        assert(jt[idx as int] == joining@[idx as int]);
        let ch = chars[idx];
        match joining[idx] {
            JoiningType::Transparent => {
                push_char(&mut result, ch);
            },
            JoiningType::NonJoining => {
                push_char(&mut result, get_shaped_char(ch, true, false, false, false));
            },
            JoiningType::Right => {
                let connects_prev = connects_prev(joining, len, idx);
                if connects_prev {
                    push_char(&mut result, get_shaped_char(ch, false, false, false, true));
                } else {
                    push_char(&mut result, get_shaped_char(ch, true, false, false, false));
                }
            },
            JoiningType::Dual => {
                let connects_prev = connects_prev(joining, len, idx);
                let connects_next = connects_next(joining, len, idx);
                if connects_prev && connects_next {
                    push_char(&mut result, get_shaped_char(ch, false, false, true, false));
                } else if connects_prev {
                    push_char(&mut result, get_shaped_char(ch, false, false, false, true));
                } else if connects_next {
                    push_char(&mut result, get_shaped_char(ch, false, true, false, false));
                } else {
                    push_char(&mut result, get_shaped_char(ch, true, false, false, false));
                }
            },
        }
        assert(shape_word(chars@, jt).take(idx + 1) == shape_word(chars@, jt).take(
            idx as int,
        ).push(shape_at(chars@, jt, idx as int)));
    }
    assert(shape_word(chars@, jt).take(len as int) == shape_word(chars@, jt));
    result
}

spec fn in_script(c: char) -> bool {
    arabic_letter(c) || diacritic(c)
}

/// Shapes every run of Arabic letters and diacritics in `text`, leaving every
/// other character as it is.
pub fn reshape_line(text: &str) -> (r: String)
    ensures
        r@ == shaped_line(text@),
{
    let chars = chars_of(text);
    let ghost s = text@;
    let mut result = String::new();
    let mut i: usize = 0;
    while i < chars.len()
        invariant
            chars@ == s,
            s == text@,
            i <= chars.len(),
            result@ == shaped_line(s).take(i as int),
            i == 0 || !in_script(s[i - 1]) || i == s.len() || !in_script(s[i as int]),
        decreases chars.len() - i,
    {
        if !is_arabic_letter(chars[i]) && !is_diacritic(chars[i]) {
            proof {
                lemma_non_arabic_unshaped(s[i as int]);
                assert(shaped_line(s).take(i + 1) == shaped_line(s).take(i as int).push(s[i as int]));
            }
            push_char(&mut result, chars[i]);
            i += 1;
            continue;
        }
        let start = i;
        let mut word_chars: Vec<char> = Vec::new();
        let mut joining_info: Vec<JoiningType> = Vec::new();
        while i < chars.len() && (is_arabic_letter(chars[i]) || is_diacritic(chars[i]))
            invariant
                chars@ == s,
                start < chars.len(),
                start <= i <= chars.len(),
                word_chars@ == s.subrange(start as int, i as int),
                joining_info@ == joining_types(s).subrange(start as int, i as int),
            decreases chars.len() - i,
        {
            word_chars.push(chars[i]);
            joining_info.push(joining_type(chars[i]));
            i += 1;
            proof {
                assert(word_chars@ =~= s.subrange(start as int, i as int));
                assert(joining_info@ =~= joining_types(s).subrange(start as int, i as int));
            }
        }
        let shaped = reshape_word(&word_chars, &joining_info);
        proof {
            assert(joining_info@.take(word_chars.len() as int) =~= joining_info@);
            if start > 0 {
                lemma_non_arabic_unshaped(s[start - 1]);
            }
            if i < s.len() {
                lemma_non_arabic_unshaped(s[i as int]);
            }
            lemma_word_in_line(s, start as int, i as int);
            assert(shaped_line(s).take(i as int) =~= shaped_line(s).take(start as int)
                + shaped_line(s).subrange(start as int, i as int));
        }
        result.append(shaped.as_str());
    }
    assert(shaped_line(s).take(s.len() as int) =~= shaped_line(s));
    result
}


/// Shaping keeps the length of a line; every character that is not an Arabic
/// letter stays as it is, and so does every diacritic.
pub proof fn law_shaping_keeps_other_chars(s: Seq<char>, i: int)
    requires
        0 <= i < s.len(),
        !arabic_letter(s[i]) || diacritic(s[i]),
    ensures
        shaped_line(s).len() == s.len(),
        shaped_line(s)[i] == s[i],
{
    if !arabic_letter(s[i]) && !diacritic(s[i]) {
        lemma_non_arabic_unshaped(s[i]);
    }
}

/// The letters alef with madda, alef with hamza above, waw with hamza, alef
/// with hamza below, alef, teh marbuta, dal, thal, reh, zain, waw, alef wasla
/// and jeh join only to the letter before them.
pub proof fn law_right_joining_letters(c: char)
    requires
        ({
            let cp = c as u32;
            ||| 0x0622 <= cp <= 0x0625
            ||| cp == 0x0627 || cp == 0x0629
            ||| 0x062F <= cp <= 0x0632
            ||| cp == 0x0648 || cp == 0x0671 || cp == 0x0698
        }),
    ensures
        joining_type_of(c) == JoiningType::Right,
{
}

/// A letter that joins only backwards never connects to what follows it:
/// the character after alef, dal, reh, waw and the other right-joining
/// letters is shaped exactly as if the line started with it.
pub proof fn law_shaping_restarts_after_right_joining(s: Seq<char>, i: int)
    requires
        0 <= i,
        i + 1 < s.len(),
        ({
            let cp = s[i] as u32;
            ||| 0x0622 <= cp <= 0x0625
            ||| cp == 0x0627 || cp == 0x0629
            ||| 0x062F <= cp <= 0x0632
            ||| cp == 0x0648 || cp == 0x0671 || cp == 0x0698
        }),
    ensures
        shaped_line(s)[i + 1] == shaped_line(s.skip(i + 1))[0],
{
    law_right_joining_letters(s[i]);
    let jt = joining_types(s);
    let t = s.skip(i + 1);
    let n = s.len() as int;
    assert(joining_types(t) =~= jt.subrange(i + 1, n));
    assert(jt[i] == JoiningType::Right);
    assert(!joins_before(jt, i));
    assert(!joins_before(joining_types(t), -1));
    lemma_joins_after_window(jt, i + 1, n, 1);
    assert(t[0] == s[i + 1]);
}

/// Shaping keeps the length of a line.
pub proof fn law_shaping_len(s: Seq<char>)
    ensures
        shaped_line(s).len() == s.len(),
{
}

} // verus!
