//! A simplified bidirectional reordering for terminal lines.
//!
//! Every character gets a direction; a run that starts at a right-to-left
//! character and extends over right-to-left characters (and over single
//! neutral characters that sit between two of them) is written in reverse,
//! every other character stays where it is.
use vstd::prelude::*;
use crate::reshaper::{arabic_letter, diacritic, is_arabic_letter, is_diacritic};
use crate::text::{
    ascii_punctuation, chars_of, is_ascii_punctuation, is_whitespace, push_char,
    to_owned_string, unicode_whitespace,
};

verus! {

/// The direction of a character.
#[derive(Debug, Clone, Copy, PartialEq, Eq, Structural)]
pub enum Direction {
    LTR,
    RTL,
    Neutral,
}

/// Arabic letters and diacritics, the Arabic presentation forms and Hebrew are
/// right-to-left; whitespace and ASCII punctuation are neutral; everything
/// else is left-to-right.
#[verifier::opaque]
pub open spec fn direction_of(c: char) -> Direction {
    let cp = c as u32;
    if arabic_letter(c) || diacritic(c) {
        Direction::RTL
    } else if 0xFB50 <= cp <= 0xFDFF || 0xFE70 <= cp <= 0xFEFF || 0x0590 <= cp <= 0x05FF {
        Direction::RTL
    } else if unicode_whitespace(c) || ascii_punctuation(c) {
        Direction::Neutral
    } else {
        Direction::LTR
    }
}

/// Whether some character of `s` is right-to-left.
pub open spec fn has_rtl(s: Seq<char>) -> bool {
    exists|i: int| 0 <= i < s.len() && direction_of(#[trigger] s[i]) == Direction::RTL
}

/// The number of characters of `s` with direction `d`.
pub open spec fn count_direction(s: Seq<char>, d: Direction) -> nat
    decreases s.len(),
{
    if s.len() == 0 {
        0
    } else {
        count_direction(s.drop_last(), d) + if direction_of(s.last()) == d {
            1nat
        } else {
            0nat
        }
    }
}

/// Whether index `j` of `s` belongs to a right-to-left run that has already
/// started: a right-to-left character, or a neutral one directly followed by
/// a right-to-left character.
pub open spec fn continues_rtl_run(s: Seq<char>, j: int) -> bool {
    ||| direction_of(s[j]) == Direction::RTL
    ||| direction_of(s[j]) == Direction::Neutral && j + 1 < s.len() && direction_of(s[j + 1])
        == Direction::RTL
}

/// The end (exclusive) of the right-to-left run that goes on at index `j`.
pub open spec fn rtl_run_end(s: Seq<char>, j: int) -> int
    decreases s.len() - j,
{
    if j < 0 || j >= s.len() {
        s.len() as int
    } else if continues_rtl_run(s, j) {
        rtl_run_end(s, j + 1)
    } else {
        j
    }
}

/// A right-to-left run ends at or after where it goes on, and strictly after
/// when the character there continues it.
pub proof fn lemma_rtl_run_end_bounds(s: Seq<char>, j: int)
    requires
        0 <= j <= s.len(),
    ensures
        j <= rtl_run_end(s, j) <= s.len(),
        j < s.len() && continues_rtl_run(s, j) ==> j < rtl_run_end(s, j),
    decreases s.len() - j,
{
    if j < s.len() && continues_rtl_run(s, j) {
        lemma_rtl_run_end_bounds(s, j + 1);
    }
}

/// The visual order of `s` from index `i` on: each right-to-left run is
/// reversed, every other character is kept.
pub open spec fn reorder_from(s: Seq<char>, i: int) -> Seq<char>
    decreases s.len() - i,
{
    if i < 0 || i >= s.len() {
        Seq::empty()
    } else if direction_of(s[i]) == Direction::RTL {
        let e = rtl_run_end(s, i);
        proof {
            lemma_rtl_run_end_bounds(s, i);
        }
        s.subrange(i, e).reverse() + reorder_from(s, e)
    } else {
        seq![s[i]] + reorder_from(s, i + 1)
    }
}

/// The visual order of a whole line.
pub open spec fn visual_order(s: Seq<char>) -> Seq<char> {
    reorder_from(s, 0)
}

/// A line without right-to-left characters is its own visual order.
pub proof fn lemma_no_rtl_reorder(s: Seq<char>, i: int)
    requires
        !has_rtl(s),
        0 <= i <= s.len(),
    ensures
        reorder_from(s, i) == s.subrange(i, s.len() as int),
    decreases s.len() - i,
{
    if i < s.len() {
        assert(direction_of(s[i]) != Direction::RTL);
        lemma_no_rtl_reorder(s, i + 1);
        assert(reorder_from(s, i) =~= s.subrange(i, s.len() as int));
    } else {
        assert(reorder_from(s, i) =~= s.subrange(i, s.len() as int));
    }
}

/// The direction of `ch`.
pub fn char_direction(ch: char) -> (r: Direction)
    ensures
        r == direction_of(ch),
{
    reveal(direction_of);
    let cp = ch as u32;
    if is_arabic_letter(ch) || is_diacritic(ch) {
        return Direction::RTL;
    }
    if 0xFB50 <= cp && cp <= 0xFDFF {
        return Direction::RTL;
    }
    if 0xFE70 <= cp && cp <= 0xFEFF {
        return Direction::RTL;
    }
    if 0x0590 <= cp && cp <= 0x05FF {
        return Direction::RTL;
    }
    if is_whitespace(ch) || is_ascii_punctuation(ch) {
        return Direction::Neutral;
    }
    Direction::LTR
}

fn is_rtl(ch: char) -> (r: bool)
    ensures
        r == (direction_of(ch) == Direction::RTL),
{
    match char_direction(ch) {
        Direction::RTL => true,
        _ => false,
    }
}

/// Whether `text` holds a right-to-left character.
pub fn has_rtl_chars(text: &str) -> (r: bool)
    ensures
        r == has_rtl(text@),
{
    for c in it: text.chars()
        invariant
            it.seq() == text@,
            forall|k: int|
                0 <= k < it.index() ==> direction_of(#[trigger] text@[k]) != Direction::RTL,
    {
        if is_rtl(c) {
            assert(text@[it.index() as int] == c);
            return true;
        }
    }
    false
}

/// Whether `text` holds more right-to-left than left-to-right characters.
pub fn is_rtl_dominant(text: &str) -> (r: bool)
    ensures
        r == (count_direction(text@, Direction::RTL) > count_direction(text@, Direction::LTR)),
{
    let chars = chars_of(text);
    let ghost s = text@;
    let mut rtl_count: usize = 0;
    let mut ltr_count: usize = 0;
    for i in 0..chars.len()
        invariant
            chars@ == s,
            rtl_count == count_direction(s.take(i as int), Direction::RTL),
            ltr_count == count_direction(s.take(i as int), Direction::LTR),
            rtl_count + ltr_count <= i,
    {
        assert(s.take(i + 1).drop_last() == s.take(i as int));
        match char_direction(chars[i]) {
            Direction::RTL => rtl_count += 1,
            Direction::LTR => ltr_count += 1,
            _ => {},
        }
    }
    assert(s.take(chars.len() as int) == s);
    rtl_count > ltr_count
}

/// The visual order of `text`: every right-to-left run written in reverse.
pub fn reorder_line(text: &str) -> (r: String)
    ensures
        r@ == visual_order(text@),
{
    if !has_rtl_chars(text) {
        proof {
            lemma_no_rtl_reorder(text@, 0);
            assert(text@.subrange(0, text@.len() as int) =~= text@);
        }
        return to_owned_string(text);
    }
    let chars = chars_of(text);
    let ghost s = text@;
    let mut result = String::new();
    let mut i: usize = 0;
    while i < chars.len()
        invariant
            chars@ == s,
            i <= chars.len(),
            result@ + reorder_from(s, i as int) == visual_order(s),
        decreases chars.len() - i,
    {
        if is_rtl(chars[i]) {
            let start = i;
            proof {
                lemma_rtl_run_end_bounds(s, start as int);
            }
            while i < chars.len()
                invariant
                    chars@ == s,
                    start < chars.len(),
                    direction_of(s[start as int]) == Direction::RTL,
                    start <= i <= chars.len(),
                    rtl_run_end(s, start as int) == rtl_run_end(s, i as int),
                ensures
                    start <= i <= chars.len(),
                    rtl_run_end(s, start as int) == i,
                decreases chars.len() - i,
            {
                let d = char_direction(chars[i]);
                if d == Direction::RTL {
                    i += 1;
                } else if d == Direction::Neutral && i + 1 < chars.len() && is_rtl(chars[i + 1]) {
                    i += 1;
                } else {
                    break;
                }
            }
            proof {
                lemma_rtl_run_end_bounds(s, start as int);
            }
            assert(rtl_run_end(s, start as int) == i);
            let ghost base = result@;
            let mut k = i;
            while k > start
                invariant
                    chars@ == s,
                    start <= k <= i <= chars.len(),
                    result@ == base + s.subrange(k as int, i as int).reverse(),
                decreases k,
            {
                push_char(&mut result, chars[k - 1]);
                k -= 1;
                assert(s.subrange(k as int, i as int).reverse() =~= s.subrange(
                    k + 1,
                    i as int,
                ).reverse().push(s[k as int]));
            }
        } else {
            push_char(&mut result, chars[i]);
            i += 1;
        }
    }
    result
}

/// The visual order of an already reshaped line.
pub fn process_line(reshaped: &str) -> (r: String)
    ensures
        r@ == visual_order(reshaped@),
{
    if !has_rtl_chars(reshaped) {
        proof {
            lemma_no_rtl_reorder(reshaped@, 0);
            assert(reshaped@.subrange(0, reshaped@.len() as int) =~= reshaped@);
        }
        return to_owned_string(reshaped);
    }
    reorder_line(reshaped)
}


/// Every index in a right-to-left run holds a character that is not
/// left-to-right.
proof fn lemma_run_has_no_ltr(s: Seq<char>, j: int, q: int)
    requires
        0 <= j <= q < rtl_run_end(s, j),
        j <= s.len(),
    ensures
        direction_of(s[q]) != Direction::LTR,
    decreases q - j,
{
    lemma_rtl_run_end_bounds(s, j);
    if j < q {
        assert(continues_rtl_run(s, j));
        lemma_run_has_no_ltr(s, j + 1, q);
    } else {
        assert(continues_rtl_run(s, j));
    }
}

/// The visual order of a suffix has as many characters as the suffix, and
/// every left-to-right character in it keeps its index.
pub proof fn lemma_reorder_from_shape(s: Seq<char>, i: int)
    requires
        0 <= i <= s.len(),
    ensures
        reorder_from(s, i).len() == s.len() - i,
        forall|p: int|
            i <= p < s.len() && direction_of(#[trigger] s[p]) == Direction::LTR ==> reorder_from(
                s,
                i,
            )[p - i] == s[p],
    decreases s.len() - i,
{
    if i < s.len() {
        if direction_of(s[i]) == Direction::RTL {
            let e = rtl_run_end(s, i);
            lemma_rtl_run_end_bounds(s, i);
            lemma_reorder_from_shape(s, e);
            assert forall|p: int|
                i <= p < s.len() && direction_of(#[trigger] s[p]) == Direction::LTR implies reorder_from(
                s,
                i,
            )[p - i] == s[p] by {
                if p < e {
                    lemma_run_has_no_ltr(s, i, p);
                }
            }
        } else {
            lemma_reorder_from_shape(s, i + 1);
        }
    }
}

/// Reordering keeps the length of a line, and every left-to-right character
/// stays at its index.
pub proof fn law_visual_order_keeps_ltr(s: Seq<char>, p: int)
    requires
        0 <= p < s.len(),
        direction_of(s[p]) == Direction::LTR,
    ensures
        visual_order(s).len() == s.len(),
        visual_order(s)[p] == s[p],
{
    lemma_reorder_from_shape(s, 0);
}

/// Reordering keeps the length of a line.
pub proof fn law_visual_order_len(s: Seq<char>)
    ensures
        visual_order(s).len() == s.len(),
{
    lemma_reorder_from_shape(s, 0);
}

/// A line without right-to-left characters is left as it is.
pub proof fn law_visual_order_without_rtl(s: Seq<char>)
    requires
        !has_rtl(s),
    ensures
        visual_order(s) == s,
{
    lemma_no_rtl_reorder(s, 0);
    assert(s.subrange(0, s.len() as int) =~= s);
}


/// An index inside the right-to-left run going on at `j` continues the run,
/// and the run seen from it ends at the same place.
proof fn lemma_run_member(s: Seq<char>, j: int, q: int)
    requires
        0 <= j <= q,
        j <= s.len(),
        q < rtl_run_end(s, j),
    ensures
        continues_rtl_run(s, q),
        rtl_run_end(s, q) == rtl_run_end(s, j),
    decreases q - j,
{
    lemma_rtl_run_end_bounds(s, j);
    if j < q {
        lemma_run_member(s, j + 1, q);
    }
}

/// A run ends at the end of the line or before a character that does not
/// continue it.
proof fn lemma_run_stop(s: Seq<char>, j: int)
    requires
        0 <= j <= s.len(),
    ensures
        rtl_run_end(s, j) == s.len() || !continues_rtl_run(s, rtl_run_end(s, j)),
    decreases s.len() - j,
{
    if j < s.len() && continues_rtl_run(s, j) {
        lemma_run_stop(s, j + 1);
    }
}

/// A right-to-left run ends with a right-to-left character.
proof fn lemma_run_last(s: Seq<char>, i: int)
    requires
        0 <= i < s.len(),
        direction_of(s[i]) == Direction::RTL,
    ensures
        i < rtl_run_end(s, i) <= s.len(),
        direction_of(s[rtl_run_end(s, i) - 1]) == Direction::RTL,
{
    let e = rtl_run_end(s, i);
    lemma_rtl_run_end_bounds(s, i);
    lemma_run_member(s, i, e - 1);
    lemma_run_stop(s, i);
}

/// A neutral character inside a right-to-left run has right-to-left
/// characters on both sides, both inside the run.
proof fn lemma_run_neutral(s: Seq<char>, i: int, q: int)
    requires
        0 <= i < s.len(),
        direction_of(s[i]) == Direction::RTL,
        i <= q < rtl_run_end(s, i),
        direction_of(s[q]) == Direction::Neutral,
    ensures
        i < q,
        q + 1 < rtl_run_end(s, i),
        direction_of(s[q - 1]) == Direction::RTL,
        direction_of(s[q + 1]) == Direction::RTL,
{
    let e = rtl_run_end(s, i);
    lemma_rtl_run_end_bounds(s, i);
    lemma_run_member(s, i, q);
    lemma_run_stop(s, i);
    assert(i != q);
    lemma_run_member(s, i, q - 1);
    if q + 1 == e {
        assert(continues_rtl_run(s, q + 1));
    }
}

/// The first character of the visual order of a suffix is right-to-left
/// exactly when the suffix starts with a right-to-left character; otherwise
/// it is that first character.
proof fn lemma_reorder_first(s: Seq<char>, j: int)
    requires
        0 <= j < s.len(),
    ensures
        reorder_from(s, j).len() > 0,
        direction_of(reorder_from(s, j)[0]) == Direction::RTL <==> direction_of(s[j])
            == Direction::RTL,
        direction_of(s[j]) != Direction::RTL ==> reorder_from(s, j)[0] == s[j],
{
    lemma_reorder_from_shape(s, j);
    if direction_of(s[j]) == Direction::RTL {
        lemma_run_last(s, j);
    }
}

/// Reading the visual order of `s` from index `i` on (where `t` agrees with
/// it) and reordering again gives back `s` from `i` on.
proof fn lemma_reorder_twice(s: Seq<char>, t: Seq<char>, i: int)
    requires
        t.len() == s.len(),
        0 <= i <= s.len(),
        t.subrange(i, t.len() as int) == reorder_from(s, i),
    ensures
        reorder_from(t, i) == s.subrange(i, s.len() as int),
    decreases s.len() - i,
{
    let n = s.len() as int;
    if i == n {
        assert(s.subrange(i, n) =~= Seq::<char>::empty());
    } else if direction_of(s[i]) == Direction::RTL {
        let e = rtl_run_end(s, i);
        lemma_rtl_run_end_bounds(s, i);
        lemma_run_last(s, i);
        lemma_run_stop(s, i);
        lemma_reorder_from_shape(s, e);
        let r = s.subrange(i, e).reverse();
        assert(reorder_from(s, i) == r + reorder_from(s, e));
        assert forall|q: int| i <= q < e implies #[trigger] t[q] == s[i + e - 1 - q] by {
            assert(t[q] == t.subrange(i, n)[q - i]);
        }
        assert(t.subrange(e, n) =~= reorder_from(s, e)) by {
            assert forall|k: int| 0 <= k < n - e implies #[trigger] t.subrange(e, n)[k] == reorder_from(
                s,
                e,
            )[k] by {
                assert(t.subrange(e, n)[k] == t.subrange(i, n)[k + e - i]);
            }
        }
        // The run of `t` from `i` covers exactly the indices `i..e`.
        assert forall|q: int| i <= q < e implies #[trigger] continues_rtl_run(t, q) by {
            let p = i + e - 1 - q;
            assert(t[q] == s[p]);
            lemma_run_member(s, i, p);
            if direction_of(s[p]) == Direction::Neutral {
                lemma_run_neutral(s, i, p);
                assert(t[q + 1] == s[p - 1]);
            }
        }
        if e < n {
            assert(!continues_rtl_run(s, e));
            lemma_reorder_first(s, e);
            assert(t[e] == reorder_from(s, e)[0]);
            assert(t[e] == s[e]);
            if e + 1 < n {
                lemma_reorder_first(s, e + 1);
                lemma_reorder_from_shape(s, e + 1);
                assert(reorder_from(s, e) == seq![s[e]] + reorder_from(s, e + 1));
                assert(t[e + 1] == reorder_from(s, e)[1]);
                assert(t[e + 1] == reorder_from(s, e + 1)[0]);
            }
            assert(!continues_rtl_run(t, e));
        }
        lemma_t_run_end(t, i, e);
        lemma_reorder_twice(s, t, e);
        assert(t.subrange(i, e) =~= r);
        assert(r.reverse() =~= s.subrange(i, e));
        assert(reorder_from(t, i) == t.subrange(i, e).reverse() + reorder_from(t, e));
        assert(s.subrange(i, n) =~= s.subrange(i, e) + s.subrange(e, n));
    } else {
        lemma_reorder_from_shape(s, i + 1);
        assert(reorder_from(s, i) == seq![s[i]] + reorder_from(s, i + 1));
        assert(t[i] == t.subrange(i, n)[0]);
        assert(t.subrange(i + 1, n) =~= reorder_from(s, i + 1)) by {
            assert forall|k: int| 0 <= k < n - i - 1 implies #[trigger] t.subrange(i + 1, n)[k]
                == reorder_from(s, i + 1)[k] by {
                assert(t.subrange(i + 1, n)[k] == t.subrange(i, n)[k + 1]);
            }
        }
        lemma_reorder_twice(s, t, i + 1);
        assert(s.subrange(i, n) =~= seq![s[i]] + s.subrange(i + 1, n));
    }
}

/// When every index of `i..e` continues a run of `t` and `e` does not (or is
/// the end), the run of `t` from `i` ends at `e`.
proof fn lemma_t_run_end(t: Seq<char>, i: int, e: int)
    requires
        0 <= i <= e <= t.len(),
        forall|q: int| i <= q < e ==> #[trigger] continues_rtl_run(t, q),
        e == t.len() || !continues_rtl_run(t, e),
    ensures
        rtl_run_end(t, i) == e,
    decreases e - i,
{
    if i < e {
        lemma_t_run_end(t, i + 1, e);
    }
}

/// Reordering is its own inverse: putting the visual order of a line in
/// visual order again gives back the line.
pub proof fn law_visual_order_involution(s: Seq<char>)
    ensures
        visual_order(visual_order(s)) == s,
{
    let t = visual_order(s);
    lemma_reorder_from_shape(s, 0);
    assert(t.subrange(0, t.len() as int) =~= t);
    lemma_reorder_twice(s, t, 0);
    assert(s.subrange(0, s.len() as int) =~= s);
}

} // verus!
