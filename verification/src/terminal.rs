//! The output filter of the shell wrapper: a byte-level parser that passes
//! escape sequences through and rewrites the plain text between them, where
//! every block of Arabic-script text is reshaped and written right to left.
use vstd::prelude::*;
use vstd::utf8::{decode_utf8, encode_utf8, valid_utf8};
use crate::text::{
    ascii_digit, ascii_punctuation, chars_of, is_ascii_digit, is_ascii_punctuation,
    lemma_valid_prefix_len, push_all, push_char, str_from_utf8, valid_prefix_len,
};

verus! {

/// Characters of the Arabic, Arabic Supplement, Arabic Extended-A and Arabic
/// Presentation Forms blocks.
pub open spec fn arabic_char(c: char) -> bool {
    let cp = c as u32;
    ||| 0x0600 <= cp <= 0x06FF
    ||| 0x0750 <= cp <= 0x077F
    ||| 0x08A0 <= cp <= 0x08FF
    ||| 0xFB50 <= cp <= 0xFDFF
    ||| 0xFE70 <= cp <= 0xFEFF
}

/// ASCII, Arabic-Indic and Extended Arabic-Indic digits.
pub open spec fn digit(c: char) -> bool {
    let cp = c as u32;
    ascii_digit(c) || 0x0660 <= cp <= 0x066F || 0x06F0 <= cp <= 0x06F9
}

/// Characters that may sit inside a number: digits and `.`, `,`, `:`.
pub open spec fn number_char(c: char) -> bool {
    digit(c) || c == '.' || c == ',' || c == ':'
}

/// End (exclusive) of the run of number characters that goes on at `j`.
pub open spec fn number_run_end(s: Seq<char>, j: int) -> int
    decreases s.len() - j,
{
    if j < 0 || j >= s.len() {
        s.len() as int
    } else if number_char(s[j]) {
        number_run_end(s, j + 1)
    } else {
        j
    }
}

/// A run of number characters ends at or after where it goes on.
pub proof fn lemma_number_run_end_bounds(s: Seq<char>, j: int)
    requires
        0 <= j <= s.len(),
    ensures
        j <= number_run_end(s, j) <= s.len(),
        j < s.len() && number_char(s[j]) ==> j < number_run_end(s, j),
    decreases s.len() - j,
{
    if j < s.len() && number_char(s[j]) {
        lemma_number_run_end_bounds(s, j + 1);
    }
}

/// `r` from index `i` on, with every run of number characters that starts
/// with a digit turned back around.
pub open spec fn restore_numbers_from(r: Seq<char>, i: int) -> Seq<char>
    decreases r.len() - i,
{
    if i < 0 || i >= r.len() {
        Seq::empty()
    } else if digit(r[i]) {
        let e = number_run_end(r, i);
        proof {
            lemma_number_run_end_bounds(r, i);
        }
        r.subrange(i, e).reverse() + restore_numbers_from(r, e)
    } else {
        seq![r[i]] + restore_numbers_from(r, i + 1)
    }
}

/// `s` written backwards, except that numbers keep their left-to-right order.
pub open spec fn visual_reversed(s: Seq<char>) -> Seq<char> {
    restore_numbers_from(s.reverse(), 0)
}

/// Whether `c` belongs to an Arabic-script block.
pub fn is_arabic_char(c: char) -> (r: bool)
    ensures
        r == arabic_char(c),
{
    let cp = c as u32;
    (0x0600 <= cp && cp <= 0x06FF) || (0x0750 <= cp && cp <= 0x077F) || (0x08A0 <= cp && cp
        <= 0x08FF) || (0xFB50 <= cp && cp <= 0xFDFF) || (0xFE70 <= cp && cp <= 0xFEFF)
}

/// Whether `c` is an ASCII, Arabic-Indic or Extended Arabic-Indic digit.
pub fn is_digit(c: char) -> (r: bool)
    ensures
        r == digit(c),
{
    is_ascii_digit(c) || ('\u{0660}' <= c && c <= '\u{066F}') || ('\u{06F0}' <= c && c
        <= '\u{06F9}')
}

fn is_number_char(c: char) -> (r: bool)
    ensures
        r == number_char(c),
{
    is_digit(c) || c == '.' || c == ',' || c == ':'
}

/// Writes `s` backwards for display, keeping each number in its
/// left-to-right order.
pub fn visual_reverse(s: &str) -> (r: String)
    ensures
        r@ == visual_reversed(s@),
{
    let chars = chars_of(s);
    let ghost rev = s@.reverse();
    let n = chars.len();
    let mut rev_chars: Vec<char> = Vec::new();
    let mut k = n;
    assert(rev.len() == n);
    while k > 0
        invariant
            rev == s@.reverse(),
            rev.len() == n,
            chars@ == s@,
            n == chars.len(),
            k <= n,
            rev_chars@ == rev.take(n - k),
        decreases k,
    {
        assert(rev[n - k] == s@[k - 1]);
        rev_chars.push(chars[k - 1]);
        k -= 1;
        assert(rev_chars@ =~= rev.take(n - k));
    }
    assert(rev_chars@ =~= rev);
    let mut out: Vec<char> = Vec::new();
    let mut i: usize = 0;
    while i < n
        invariant
            rev_chars@ == rev,
            n == rev.len(),
            i <= n,
            out@ + restore_numbers_from(rev, i as int) == visual_reversed(s@),
        decreases n - i,
    {
        if is_digit(rev_chars[i]) {
            let start = i;
            while i < n && is_number_char(rev_chars[i])
                invariant
                    rev_chars@ == rev,
                    n == rev.len(),
                    start <= i <= n,
                    number_run_end(rev, start as int) == number_run_end(rev, i as int),
                decreases n - i,
            {
                i += 1;
            }
            proof {
                lemma_number_run_end_bounds(rev, start as int);
            }
            let ghost base = out@;
            let mut k = i;
            while k > start
                invariant
                    rev_chars@ == rev,
                    n == rev.len(),
                    start <= k <= i <= n,
                    out@ == base + rev.subrange(k as int, i as int).reverse(),
                decreases k,
            {
                out.push(rev_chars[k - 1]);
                k -= 1;
                assert(rev.subrange(k as int, i as int).reverse() =~= rev.subrange(
                    k + 1,
                    i as int,
                ).reverse().push(rev[k as int]));
            }
        } else {
            out.push(rev_chars[i]);
            i += 1;
        }
    }
    assert(out@ =~= visual_reversed(s@));
    let mut result = String::new();
    push_all(&mut result, out.as_slice());
    result
}

/// The name of what `ar_reshaper::reshape_line` returns for a text: the text
/// reshaped with the crate's default configuration.
pub uninterp spec fn ar_reshaped(text: Seq<char>) -> Seq<char>;

/// Trusted: `ar_reshaper::reshape_line` reshapes `text` with a default
/// `ArabicReshaper`; its result depends on the text alone and is named
/// `ar_reshaped`. Nothing more of the result is stated. Text holding a
/// zero-width joiner is excluded: the crate drops joiners from its shaped
/// letters while its ligature pass still counts them in the input, so the two
/// can fall out of step and an index run past the end.
#[verifier::external_body]
fn reshape_default(text: &str) -> (r: String)
    requires
        !text@.contains('\u{200D}'),
    ensures
        r@ == ar_reshaped(text@),
{
    ar_reshaper::reshape_line(text)
}

/// A block of Arabic-script text as displayed: reshaped, then written
/// backwards with numbers kept in order.
pub open spec fn arabic_block_output(block: Seq<char>) -> Seq<char> {
    visual_reversed(ar_reshaped(block))
}

/// Reshapes a block of Arabic-script text and writes it backwards.
pub fn process_arabic_block(block: &str) -> (r: String)
    requires
        !block@.contains('\u{200D}'),
    ensures
        r@ == arabic_block_output(block@),
{
    let reshaped = reshape_default(block);
    visual_reverse(reshaped.as_str())
}

/// Characters that stay inside an Arabic block: space and ASCII punctuation.
pub open spec fn neutral_char(c: char) -> bool {
    c == ' ' || ascii_punctuation(c)
}

/// The state of the line scan: the text written so far, the block being
/// collected and whether it is an Arabic block.
#[verifier::ext_equal]
pub struct LineScan {
    pub out: Seq<char>,
    pub block: Seq<char>,
    pub in_block: bool,
}

/// One character of the line scan. An Arabic character starts (after writing
/// any pending plain text) or extends an Arabic block; a neutral character
/// extends an Arabic block; any other character ends an Arabic block (writing
/// it reshaped and reversed) and extends the plain text.
pub open spec fn line_step(st: LineScan, c: char) -> LineScan {
    if arabic_char(c) {
        if !st.in_block && st.block.len() > 0 {
            LineScan { out: st.out + st.block, block: seq![c], in_block: true }
        } else {
            LineScan { out: st.out, block: st.block.push(c), in_block: true }
        }
    } else if neutral_char(c) && st.in_block {
        LineScan { out: st.out, block: st.block.push(c), in_block: true }
    } else if st.in_block {
        LineScan { out: st.out + arabic_block_output(st.block), block: seq![c], in_block: false }
    } else {
        LineScan { out: st.out, block: st.block.push(c), in_block: false }
    }
}

/// The line scan over a sequence of characters.
pub open spec fn line_scan(st: LineScan, t: Seq<char>) -> LineScan
    decreases t.len(),
{
    if t.len() == 0 {
        st
    } else {
        line_step(line_scan(st, t.drop_last()), t.last())
    }
}

/// The display form of a line: plain text kept, Arabic blocks reshaped and
/// written backwards.
pub open spec fn line_output(line: Seq<char>) -> Seq<char> {
    let st = line_scan(LineScan { out: Seq::empty(), block: Seq::empty(), in_block: false }, line);
    if st.block.len() == 0 {
        st.out
    } else if st.in_block {
        st.out + arabic_block_output(st.block)
    } else {
        st.out + st.block
    }
}

spec fn block_ok(block: Seq<char>, in_block: bool) -> bool {
    in_block ==> forall|k: int|
        0 <= k < block.len() ==> arabic_char(#[trigger] block[k]) || neutral_char(block[k])
}

proof fn lemma_block_no_joiner(block: Seq<char>)
    requires
        block_ok(block, true),
    ensures
        !block.contains('\u{200D}'),
{
    if block.contains('\u{200D}') {
        let k = choose|k: int| 0 <= k < block.len() && block[k] == '\u{200D}';
        assert(arabic_char(block[k]) || neutral_char(block[k]));
    }
}

/// Rewrites one line of plain text for display.
pub fn process_line(line: &str) -> (r: String)
    ensures
        r@ == line_output(line@),
{
    let chars = chars_of(line);
    let ghost s = line@;
    let mut result = String::new();
    let mut current_block = String::new();
    let mut in_arabic_block = false;
    for i in 0..chars.len()
        invariant
            chars@ == s,
            line_scan(LineScan { out: Seq::empty(), block: Seq::empty(), in_block: false }, s.take(i as int))
                == (LineScan { out: result@, block: current_block@, in_block: in_arabic_block }),
            block_ok(current_block@, in_arabic_block),
    {
        assert(s.take(i + 1).drop_last() =~= s.take(i as int));
        let ghost prev = LineScan { out: result@, block: current_block@, in_block: in_arabic_block };
        let c = chars[i];
        let is_arab = is_arabic_char(c);
        let is_neutral = c == ' ' || is_ascii_punctuation(c);
        if is_arab {
            if !in_arabic_block && !current_block.as_str().is_empty() {
                result.append(current_block.as_str());
                current_block = String::new();
            }
            in_arabic_block = true;
            push_char(&mut current_block, c);
        } else if is_neutral && in_arabic_block {
            push_char(&mut current_block, c);
        } else {
            if in_arabic_block {
                proof {
                    lemma_block_no_joiner(current_block@);
                }
                let processed = process_arabic_block(current_block.as_str());
                result.append(processed.as_str());
                current_block = String::new();
                in_arabic_block = false;
            }
            push_char(&mut current_block, c);
        }
        proof {
            let next = line_step(prev, c);
            assert(current_block@ =~= next.block);
            assert(result@ =~= next.out);
            assert(block_ok(current_block@, in_arabic_block));
        }
    }
    assert(s.take(chars.len() as int) =~= s);
    if !current_block.as_str().is_empty() {
        if in_arabic_block {
            proof {
                lemma_block_no_joiner(current_block@);
            }
            let processed = process_arabic_block(current_block.as_str());
            result.append(processed.as_str());
        } else {
            result.append(current_block.as_str());
        }
    }
    result
}


/// The output for a buffer of text bytes: as much as is complete UTF-8 is
/// decoded, rewritten with `line_output` and encoded again. When no prefix is
/// valid and more than four bytes are buffered, the first byte is written
/// unchanged and the rest is tried again; otherwise the bytes stay buffered.
/// The result is the bytes written and the bytes left buffered.
pub open spec fn utf8_flush(buf: Seq<u8>) -> (Seq<u8>, Seq<u8>)
    decreases buf.len(),
{
    if buf.len() == 0 {
        (Seq::empty(), Seq::empty())
    } else if valid_utf8(buf) {
        (encode_utf8(line_output(decode_utf8(buf))), Seq::empty())
    } else {
        let v = valid_prefix_len(buf);
        if v > 0 {
            (encode_utf8(line_output(decode_utf8(buf.take(v as int)))), buf.skip(v as int))
        } else if buf.len() > 4 {
            let (o, r) = utf8_flush(buf.drop_first());
            (seq![buf[0]] + o, r)
        } else {
            (Seq::empty(), buf)
        }
    }
}

/// Where the byte parser is: in plain text, just after an ESC, or inside a
/// control sequence.
#[derive(Debug, Clone, Copy, PartialEq, Eq, Structural)]
pub enum ParserState {
    Normal,
    Escape,
    Csi,
}

/// The state of a [`TermParser`]: where it is and the text bytes buffered.
#[verifier::ext_equal]
pub struct ParserView {
    pub state: ParserState,
    pub buffer: Seq<u8>,
}

/// One output byte fed to the parser: the new state and the bytes written.
/// In plain text, ESC writes out the buffered text and itself; other bytes
/// are buffered. After ESC, `[` starts a control sequence and any byte ends
/// the escape; in a control sequence a byte in 0x40..=0x7E ends it. Escape
/// bytes are written unchanged.
pub open spec fn parser_step(st: ParserView, b: u8) -> (ParserView, Seq<u8>) {
    match st.state {
        ParserState::Normal => if b == 0x1B {
            let (o, r) = utf8_flush(st.buffer);
            (ParserView { state: ParserState::Escape, buffer: r }, o.push(b))
        } else {
            (ParserView { state: ParserState::Normal, buffer: st.buffer.push(b) }, Seq::empty())
        },
        ParserState::Escape => (
            ParserView {
                state: if b == 0x5B {
                    ParserState::Csi
                } else {
                    ParserState::Normal
                },
                buffer: st.buffer,
            },
            seq![b],
        ),
        ParserState::Csi => (
            ParserView {
                state: if 0x40 <= b <= 0x7E {
                    ParserState::Normal
                } else {
                    ParserState::Csi
                },
                buffer: st.buffer,
            },
            seq![b],
        ),
    }
}

/// A sequence of bytes fed to the parser, one after the other.
pub open spec fn parser_feed(st: ParserView, bytes: Seq<u8>) -> (ParserView, Seq<u8>)
    decreases bytes.len(),
{
    if bytes.len() == 0 {
        (st, Seq::empty())
    } else {
        let (s1, o1) = parser_feed(st, bytes.drop_last());
        let (s2, o2) = parser_step(s1, bytes.last());
        (s2, o1 + o2)
    }
}

/// A chunk of output bytes handled: fed byte by byte, then whatever text is
/// complete is written.
pub open spec fn parser_handle(st: ParserView, bytes: Seq<u8>) -> (ParserView, Seq<u8>) {
    let (s1, o1) = parser_feed(st, bytes);
    let (o2, r) = utf8_flush(s1.buffer);
    (ParserView { state: s1.state, buffer: r }, o1 + o2)
}

/// Byte-level filter for the output of the shell.
pub struct TermParser {
    state: ParserState,
    text_buffer: Vec<u8>,
}

impl View for TermParser {
    type V = ParserView;

    closed spec fn view(&self) -> ParserView {
        ParserView { state: self.state, buffer: self.text_buffer@ }
    }
}

impl TermParser {
    /// A parser in plain text with nothing buffered.
    pub fn new() -> (r: Self)
        ensures
            r@ == (ParserView { state: ParserState::Normal, buffer: Seq::empty() }),
    {
        TermParser { state: ParserState::Normal, text_buffer: Vec::new() }
    }

    /// Handles a chunk of output bytes and returns the bytes to write.
    pub fn handle_bytes(&mut self, bytes: &[u8]) -> (out: Vec<u8>)
        ensures
            (final(self)@, out@) == parser_handle(old(self)@, bytes@),
    {
        let ghost st0 = self@;
        let mut out: Vec<u8> = Vec::new();
        for k in 0..bytes.len()
            invariant
                (self@, out@) == parser_feed(st0, bytes@.take(k as int)),
        {
            assert(bytes@.take(k + 1).drop_last() =~= bytes@.take(k as int));
            let ghost prev = self@;
            let ghost prev_out = out@;
            let b = bytes[k];
            match self.state {
                ParserState::Normal => {
                    if b == 0x1B {
                        let flushed = self.flush_complete_utf8();
                        out.extend_from_slice(flushed.as_slice());
                        self.state = ParserState::Escape;
                        out.push(b);
                    } else {
                        self.text_buffer.push(b);
                    }
                },
                ParserState::Escape => {
                    out.push(b);
                    if b == 0x5B {
                        self.state = ParserState::Csi;
                    } else {
                        self.state = ParserState::Normal;
                    }
                },
                ParserState::Csi => {
                    out.push(b);
                    if 0x40 <= b && b <= 0x7E {
                        self.state = ParserState::Normal;
                    }
                },
            }
            proof {
                let (es, eo) = parser_step(prev, b);
                assert(self@ =~= es);
                assert(out@ =~= prev_out + eo);
            }
        }
        assert(bytes@.take(bytes.len() as int) =~= bytes@);
        let ghost mid_out = out@;
        let flushed = self.flush_complete_utf8();
        out.extend_from_slice(flushed.as_slice());
        assert(out@ =~= mid_out + flushed@);
        out
    }

    /// Writes out as much of the buffered text as is complete UTF-8.
    fn flush_complete_utf8(&mut self) -> (out: Vec<u8>)
        ensures
            final(self)@.state == old(self)@.state,
            (out@, final(self)@.buffer) == utf8_flush(old(self)@.buffer),
    {
        let mut out: Vec<u8> = Vec::new();
        if self.text_buffer.len() == 0 {
            return out;
        }
        let ghost b0 = self.text_buffer@;
        while self.text_buffer.len() > 0
            invariant_except_break
                ({
                    let (o, r) = utf8_flush(self.text_buffer@);
                    (out@ + o, r) == utf8_flush(b0)
                }),
            invariant
                self@.state == old(self)@.state,
            ensures
                (out@, self.text_buffer@) == utf8_flush(b0),
            decreases self.text_buffer.len(),
        {
            let ghost buf = self.text_buffer@;
            match str_from_utf8(self.text_buffer.as_slice()) {
                Ok(text) => {
                    let ghost prev_out = out@;
                    let processed = process_line(text);
                    out.extend_from_slice(processed.as_str().as_bytes());
                    self.text_buffer = Vec::new();
                    proof {
                        assert(out@ =~= prev_out + utf8_flush(buf).0);
                        assert(self.text_buffer@ =~= utf8_flush(buf).1);
                    }
                    break;
                },
                Err(valid_up_to) => {
                    proof {
                        lemma_valid_prefix_len(buf);
                    }
                    if valid_up_to > 0 {
                        let ghost prev_out = out@;
                        let rest = self.text_buffer.split_off(valid_up_to);
                        match str_from_utf8(self.text_buffer.as_slice()) {
                            Ok(text) => {
                                let processed = process_line(text);
                                out.extend_from_slice(processed.as_str().as_bytes());
                            },
                            Err(_) => {},
                        }
                        self.text_buffer = rest;
                        proof {
                            assert(out@ =~= prev_out + utf8_flush(buf).0);
                            assert(self.text_buffer@ =~= utf8_flush(buf).1);
                        }
                        break;
                    } else if self.text_buffer.len() > 4 {
                        let ghost prev_out = out@;
                        out.push(self.text_buffer[0]);
                        self.text_buffer.remove(0);
                        proof {
                            assert(self.text_buffer@ =~= buf.drop_first());
                            let (o, r) = utf8_flush(self.text_buffer@);
                            assert(out@ + o =~= prev_out + (seq![buf[0]] + o));
                        }
                    } else {
                        break;
                    }
                },
            }
        }
        out
    }
}


/// The output of `restore_numbers_from` has as many characters as it reads.
proof fn lemma_restore_numbers_len(r: Seq<char>, i: int)
    requires
        0 <= i <= r.len(),
    ensures
        restore_numbers_from(r, i).len() == r.len() - i,
    decreases r.len() - i,
{
    if i < r.len() {
        if digit(r[i]) {
            let e = number_run_end(r, i);
            lemma_number_run_end_bounds(r, i);
            lemma_restore_numbers_len(r, e);
        } else {
            lemma_restore_numbers_len(r, i + 1);
        }
    }
}

proof fn lemma_restore_numbers_no_digits(r: Seq<char>, i: int)
    requires
        0 <= i <= r.len(),
        forall|k: int| 0 <= k < r.len() ==> !digit(#[trigger] r[k]),
    ensures
        restore_numbers_from(r, i) == r.subrange(i, r.len() as int),
    decreases r.len() - i,
{
    if i < r.len() {
        lemma_restore_numbers_no_digits(r, i + 1);
        assert(restore_numbers_from(r, i) =~= r.subrange(i, r.len() as int));
    } else {
        assert(restore_numbers_from(r, i) =~= r.subrange(i, r.len() as int));
    }
}

/// Writing backwards keeps the number of characters.
pub proof fn law_visual_reversed_len(s: Seq<char>)
    ensures
        visual_reversed(s).len() == s.len(),
{
    lemma_restore_numbers_len(s.reverse(), 0);
}

/// Text without digits is written exactly backwards.
pub proof fn law_visual_reversed_without_digits(s: Seq<char>)
    requires
        forall|k: int| 0 <= k < s.len() ==> !digit(#[trigger] s[k]),
    ensures
        visual_reversed(s) == s.reverse(),
{
    let r = s.reverse();
    assert forall|k: int| 0 <= k < r.len() implies !digit(#[trigger] r[k]) by {
        assert(r[k] == s[s.len() - 1 - k]);
    }
    lemma_restore_numbers_no_digits(r, 0);
    assert(r.subrange(0, r.len() as int) =~= r);
}

proof fn lemma_scan_without_arabic(t: Seq<char>)
    requires
        forall|k: int| 0 <= k < t.len() ==> !arabic_char(#[trigger] t[k]),
    ensures
        line_scan(LineScan { out: Seq::empty(), block: Seq::empty(), in_block: false }, t)
            == (LineScan { out: Seq::empty(), block: t, in_block: false }),
    decreases t.len(),
{
    if t.len() == 0 {
        assert(t =~= Seq::<char>::empty());
    } else {
        let init = t.drop_last();
        assert forall|k: int| 0 <= k < init.len() implies !arabic_char(#[trigger] init[k]) by {
            assert(init[k] == t[k]);
        }
        lemma_scan_without_arabic(init);
        assert(!arabic_char(t[t.len() - 1]));
        assert(init.push(t.last()) =~= t);
    }
}

/// A line without Arabic-script characters is written as it is.
pub proof fn law_line_without_arabic(s: Seq<char>)
    requires
        forall|k: int| 0 <= k < s.len() ==> !arabic_char(#[trigger] s[k]),
    ensures
        line_output(s) == s,
{
    lemma_scan_without_arabic(s);
    if s.len() == 0 {
        assert(s =~= Seq::<char>::empty());
    } else {
        assert(Seq::<char>::empty() + s =~= s);
    }
}


proof fn lemma_parser_csi_params(st: ParserView, params: Seq<u8>)
    requires
        st.state == ParserState::Csi,
        forall|k: int| 0 <= k < params.len() ==> !(0x40 <= #[trigger] params[k] <= 0x7E),
    ensures
        parser_feed(st, params) == (st, params),
    decreases params.len(),
{
    if params.len() == 0 {
        assert(params =~= Seq::<u8>::empty());
    } else {
        lemma_parser_csi_params(st, params.drop_last());
        let (s1, o1) = parser_feed(st, params.drop_last());
        assert(s1 =~= st);
        assert(o1 + seq![params.last()] =~= params);
    }
}

/// A control sequence (ESC, `[`, parameter bytes outside 0x40..=0x7E, and a
/// final byte in 0x40..=0x7E) met in plain text is written out unchanged,
/// after the complete text buffered before it, and the parser is back in
/// plain text.
pub proof fn law_parser_passes_control_sequences(st: ParserView, params: Seq<u8>, fin: u8)
    requires
        st.state == ParserState::Normal,
        forall|k: int| 0 <= k < params.len() ==> !(0x40 <= #[trigger] params[k] <= 0x7E),
        0x40 <= fin <= 0x7E,
    ensures
        ({
            let sq = seq![0x1Bu8, 0x5Bu8] + params + seq![fin];
            let (flushed, rest) = utf8_flush(st.buffer);
            parser_feed(st, sq) == (
                ParserView { state: ParserState::Normal, buffer: rest },
                flushed + sq,
            )
        }),
{
    let head = seq![0x1Bu8, 0x5Bu8];
    let sq = head + params + seq![fin];
    let (flushed, rest) = utf8_flush(st.buffer);
    let csi = ParserView { state: ParserState::Csi, buffer: rest };
    assert(head.drop_last() =~= seq![0x1Bu8]);
    assert(seq![0x1Bu8].drop_last() =~= Seq::<u8>::empty());
    assert(parser_feed(st, seq![0x1Bu8].drop_last()) == (st, Seq::<u8>::empty()));
    let (e1, eo1) = parser_feed(st, seq![0x1Bu8]);
    assert(e1 =~= ParserView { state: ParserState::Escape, buffer: rest });
    assert(eo1 =~= flushed.push(0x1Bu8));
    let (h1, ho1) = parser_feed(st, head);
    assert(h1 =~= csi);
    assert(ho1 =~= flushed + head);
    lemma_parser_csi_params(csi, params);
    lemma_parser_feed_append(st, head, params);
    let (p1, po1) = parser_feed(st, head + params);
    assert(p1 =~= csi);
    assert(po1 =~= flushed + head + params);
    assert((head + params).push(fin) =~= sq);
    assert(sq.drop_last() =~= head + params);
    assert(sq.last() == fin);
    assert(flushed + head + params + seq![fin] =~= flushed + sq);
}

proof fn lemma_parser_feed_text(st: ParserView, bytes: Seq<u8>)
    requires
        st.state == ParserState::Normal,
        forall|k: int| 0 <= k < bytes.len() ==> #[trigger] bytes[k] != 0x1Bu8,
    ensures
        parser_feed(st, bytes) == (
            ParserView { state: ParserState::Normal, buffer: st.buffer + bytes },
            Seq::<u8>::empty(),
        ),
    decreases bytes.len(),
{
    if bytes.len() == 0 {
        assert(st.buffer + bytes =~= st.buffer);
    } else {
        let init = bytes.drop_last();
        assert forall|k: int| 0 <= k < init.len() implies #[trigger] init[k] != 0x1Bu8 by {
            assert(init[k] == bytes[k]);
        }
        lemma_parser_feed_text(st, init);
        assert(bytes.last() != 0x1Bu8);
        assert((st.buffer + init).push(bytes.last()) =~= st.buffer + bytes);
        assert(Seq::<u8>::empty() + Seq::<u8>::empty() =~= Seq::<u8>::empty());
    }
}

/// A chunk of complete UTF-8 text that holds no ESC byte and no Arabic-script
/// character, handed to a parser in plain text with nothing buffered, is
/// written out unchanged, and the parser stays in plain text with nothing
/// buffered.
pub proof fn law_parser_passes_plain_text(bytes: Seq<u8>)
    requires
        valid_utf8(bytes),
        forall|k: int| 0 <= k < bytes.len() ==> #[trigger] bytes[k] != 0x1Bu8,
        forall|k: int|
            0 <= k < decode_utf8(bytes).len() ==> !arabic_char(#[trigger] decode_utf8(bytes)[k]),
    ensures
        ({
            let idle = ParserView { state: ParserState::Normal, buffer: Seq::empty() };
            parser_handle(idle, bytes) == (idle, bytes)
        }),
{
    let idle = ParserView { state: ParserState::Normal, buffer: Seq::<u8>::empty() };
    lemma_parser_feed_text(idle, bytes);
    assert(Seq::<u8>::empty() + bytes =~= bytes);
    if bytes.len() == 0 {
        assert(bytes =~= Seq::<u8>::empty());
    } else {
        law_line_without_arabic(decode_utf8(bytes));
        vstd::utf8::decode_utf8_encode_utf8(bytes);
        assert(Seq::<u8>::empty() + bytes =~= bytes);
    }
    let (s1, o1) = parser_feed(idle, bytes);
    let (o2, r) = utf8_flush(s1.buffer);
    assert(r =~= Seq::<u8>::empty());
    assert(o1 + o2 =~= bytes);
}

/// ASCII bytes are valid UTF-8 and decode to characters below U+0080.
proof fn lemma_ascii_utf8(b: Seq<u8>)
    requires
        forall|k: int| 0 <= k < b.len() ==> #[trigger] b[k] < 0x80u8,
    ensures
        valid_utf8(b),
        forall|k: int| 0 <= k < decode_utf8(b).len() ==> (#[trigger] decode_utf8(b)[k] as u32) < 0x80,
    decreases b.len(),
{
    if b.len() > 0 {
        let r = b.drop_first();
        assert forall|k: int| 0 <= k < r.len() implies #[trigger] r[k] < 0x80u8 by {
            assert(r[k] == b[k + 1]);
        }
        lemma_ascii_utf8(r);
        let b0 = b[0];
        assert(b0 < 0x80u8);
        assert((b0 & 0x7F) == b0) by (bit_vector)
            requires
                b0 < 0x80u8,
        ;
        assert(vstd::utf8::pop_first_scalar(b) =~= r);
        assert(vstd::utf8::valid_first_scalar(b));
        assert(valid_utf8(b));
        let d = decode_utf8(b);
        assert(d =~= seq![(b0 as u32) as char] + decode_utf8(r));
        assert forall|k: int| 0 <= k < d.len() implies (#[trigger] d[k] as u32) < 0x80 by {
            if k > 0 {
                assert(d[k] == decode_utf8(r)[k - 1]);
            } else {
                assert(d[0] == (b0 as u32) as char);
            }
        }
    }
}

/// A buffer of ASCII bytes is written out whole.
proof fn lemma_utf8_flush_ascii(b: Seq<u8>)
    requires
        forall|k: int| 0 <= k < b.len() ==> #[trigger] b[k] < 0x80u8,
    ensures
        utf8_flush(b) == (b, Seq::<u8>::empty()),
{
    if b.len() > 0 {
        lemma_ascii_utf8(b);
        let t = decode_utf8(b);
        assert forall|k: int| 0 <= k < t.len() implies !arabic_char(#[trigger] t[k]) by {
            assert((t[k] as u32) < 0x80);
        }
        law_line_without_arabic(t);
        vstd::utf8::decode_utf8_encode_utf8(b);
    } else {
        assert(b =~= Seq::<u8>::empty());
    }
}

proof fn lemma_parser_feed_ascii(st: ParserView, bytes: Seq<u8>)
    requires
        forall|k: int| 0 <= k < st.buffer.len() ==> #[trigger] st.buffer[k] < 0x80u8,
        st.state != ParserState::Normal ==> st.buffer.len() == 0,
        forall|k: int| 0 <= k < bytes.len() ==> #[trigger] bytes[k] < 0x80u8,
    ensures
        ({
            let (s1, o1) = parser_feed(st, bytes);
            &&& forall|k: int| 0 <= k < s1.buffer.len() ==> #[trigger] s1.buffer[k] < 0x80u8
            &&& s1.state != ParserState::Normal ==> s1.buffer.len() == 0
            &&& o1 + s1.buffer == st.buffer + bytes
        }),
    decreases bytes.len(),
{
    if bytes.len() == 0 {
        assert(Seq::<u8>::empty() + st.buffer =~= st.buffer + bytes);
    } else {
        let init = bytes.drop_last();
        let b = bytes.last();
        assert forall|k: int| 0 <= k < init.len() implies #[trigger] init[k] < 0x80u8 by {
            assert(init[k] == bytes[k]);
        }
        lemma_parser_feed_ascii(st, init);
        let (s1, o1) = parser_feed(st, init);
        let (s2, o2) = parser_step(s1, b);
        assert(st.buffer + bytes =~= st.buffer + init + seq![b]);
        match s1.state {
            ParserState::Normal => {
                if b == 0x1B {
                    lemma_utf8_flush_ascii(s1.buffer);
                    assert(o1 + o2 + s2.buffer =~= o1 + s1.buffer + seq![b]);
                } else {
                    assert forall|k: int| 0 <= k < s2.buffer.len() implies #[trigger] s2.buffer[k]
                        < 0x80u8 by {
                        if k < s1.buffer.len() {
                            assert(s2.buffer[k] == s1.buffer[k]);
                        }
                    }
                    assert(o1 + o2 + s2.buffer =~= o1 + s1.buffer + seq![b]);
                }
            },
            _ => {
                assert(o1 + o2 + s2.buffer =~= o1 + s1.buffer + seq![b]);
            },
        }
    }
}

/// ASCII output, escape sequences included, handed to a parser in plain
/// text with nothing buffered, is written out unchanged, and nothing stays
/// buffered.
pub proof fn law_parser_passes_ascii(bytes: Seq<u8>)
    requires
        forall|k: int| 0 <= k < bytes.len() ==> #[trigger] bytes[k] < 0x80u8,
    ensures
        ({
            let idle = ParserView { state: ParserState::Normal, buffer: Seq::empty() };
            let (s, o) = parser_handle(idle, bytes);
            o == bytes && s.buffer.len() == 0
        }),
{
    let idle = ParserView { state: ParserState::Normal, buffer: Seq::<u8>::empty() };
    lemma_parser_feed_ascii(idle, bytes);
    let (s1, o1) = parser_feed(idle, bytes);
    lemma_utf8_flush_ascii(s1.buffer);
    assert(idle.buffer + bytes =~= bytes);
}

/// An escape of ESC and one byte other than `[` ends at that byte: met in
/// plain text, it writes the complete text buffered before it and then the
/// two bytes unchanged, and the parser is back in plain text.
pub proof fn law_parser_two_byte_escape(st: ParserView, b: u8)
    requires
        st.state == ParserState::Normal,
        b != 0x5Bu8,
    ensures
        ({
            let (flushed, rest) = utf8_flush(st.buffer);
            parser_feed(st, seq![0x1Bu8, b]) == (
                ParserView { state: ParserState::Normal, buffer: rest },
                flushed + seq![0x1Bu8, b],
            )
        }),
{
    let (flushed, rest) = utf8_flush(st.buffer);
    let sq = seq![0x1Bu8, b];
    assert(sq.drop_last() =~= seq![0x1Bu8]);
    assert(seq![0x1Bu8].drop_last() =~= Seq::<u8>::empty());
    assert(parser_feed(st, seq![0x1Bu8].drop_last()) == (st, Seq::<u8>::empty()));
    let (e1, eo1) = parser_feed(st, seq![0x1Bu8]);
    assert(e1 =~= ParserView { state: ParserState::Escape, buffer: rest });
    assert(eo1 =~= flushed.push(0x1Bu8));
    assert(sq.last() == b);
    assert(flushed.push(0x1Bu8) + seq![b] =~= flushed + sq);
}

/// Output that starts with ESC and one byte other than `[`, handed to a
/// parser in plain text with nothing buffered, comes out as those two bytes
/// followed by what the rest alone would give.
pub proof fn law_parser_resumes_after_two_byte_escape(b: u8, rest: Seq<u8>)
    requires
        b != 0x5Bu8,
    ensures
        ({
            let idle = ParserView { state: ParserState::Normal, buffer: Seq::empty() };
            let (s, o) = parser_handle(idle, rest);
            parser_handle(idle, seq![0x1Bu8, b] + rest) == (s, seq![0x1Bu8, b] + o)
        }),
{
    let idle = ParserView { state: ParserState::Normal, buffer: Seq::<u8>::empty() };
    let esc = seq![0x1Bu8, b];
    law_parser_two_byte_escape(idle, b);
    assert(utf8_flush(Seq::<u8>::empty()) == (Seq::<u8>::empty(), Seq::<u8>::empty()));
    assert(Seq::<u8>::empty() + esc =~= esc);
    assert(ParserView { state: ParserState::Normal, buffer: Seq::<u8>::empty() } == idle);
    lemma_parser_feed_append(idle, esc, rest);
    let (s1, o1) = parser_feed(idle, rest);
    let (o2, r) = utf8_flush(s1.buffer);
    assert(esc + o1 + o2 =~= esc + (o1 + o2));
}

proof fn lemma_scan_one_block(s: Seq<char>, n: int)
    requires
        1 <= n <= s.len(),
        arabic_char(s[0]),
        forall|k: int| 0 <= k < s.len() ==> arabic_char(#[trigger] s[k]) || neutral_char(s[k]),
    ensures
        line_scan(LineScan { out: Seq::empty(), block: Seq::empty(), in_block: false }, s.take(n))
            == (LineScan { out: Seq::empty(), block: s.take(n), in_block: true }),
    decreases n,
{
    let init = LineScan { out: Seq::empty(), block: Seq::empty(), in_block: false };
    assert(s.take(n).drop_last() =~= s.take(n - 1));
    assert(s.take(n).last() == s[n - 1]);
    let prev = line_scan(init, s.take(n - 1));
    assert(line_scan(init, s.take(n)) == line_step(prev, s[n - 1]));
    if n == 1 {
        assert(s.take(0) =~= Seq::<char>::empty());
        assert(prev == init);
        assert(Seq::<char>::empty().push(s[0]) =~= s.take(1));
        assert(line_step(init, s[0]) =~= LineScan {
            out: Seq::empty(),
            block: s.take(1),
            in_block: true,
        });
    } else {
        lemma_scan_one_block(s, n - 1);
        assert(s.take(n - 1).push(s[n - 1]) =~= s.take(n));
        assert(arabic_char(s[n - 1]) || neutral_char(s[n - 1]));
        assert(line_step(prev, s[n - 1]) =~= LineScan {
            out: Seq::empty(),
            block: s.take(n),
            in_block: true,
        });
    }
}

/// A line that starts with an Arabic-script character and holds nothing but
/// Arabic-script characters, spaces and ASCII punctuation is one block: it is
/// reshaped as a whole and written backwards as a whole, so its words come
/// out right to left.
pub proof fn law_arabic_line_is_one_block(s: Seq<char>)
    requires
        s.len() > 0,
        ({
            let cp = s[0] as u32;
            ||| 0x0600 <= cp <= 0x06FF
            ||| 0x0750 <= cp <= 0x077F
            ||| 0x08A0 <= cp <= 0x08FF
            ||| 0xFB50 <= cp <= 0xFDFF
            ||| 0xFE70 <= cp <= 0xFEFF
        }),
        forall|k: int|
            0 <= k < s.len() ==> {
                let cp = #[trigger] s[k] as u32;
                ||| 0x0600 <= cp <= 0x06FF
                ||| 0x0750 <= cp <= 0x077F
                ||| 0x08A0 <= cp <= 0x08FF
                ||| 0xFB50 <= cp <= 0xFDFF
                ||| 0xFE70 <= cp <= 0xFEFF
                ||| s[k] == ' '
                ||| 0x21 <= cp <= 0x2F
                ||| 0x3A <= cp <= 0x40
                ||| 0x5B <= cp <= 0x60
                ||| 0x7B <= cp <= 0x7E
            },
    ensures
        line_output(s) == arabic_block_output(s),
{
    assert forall|k: int| 0 <= k < s.len() implies arabic_char(#[trigger] s[k]) || neutral_char(
        s[k],
    ) by {
    }
    lemma_scan_one_block(s, s.len() as int);
    assert(s.take(s.len() as int) =~= s);
    assert(Seq::<char>::empty() + arabic_block_output(s) =~= arabic_block_output(s));
}

proof fn lemma_number_run_to_end(r: Seq<char>, j: int)
    requires
        0 <= j <= r.len(),
        forall|k: int| 0 <= k < r.len() ==> number_char(#[trigger] r[k]),
    ensures
        number_run_end(r, j) == r.len(),
    decreases r.len() - j,
{
    if j < r.len() {
        lemma_number_run_to_end(r, j + 1);
    }
}

/// A number keeps its left-to-right order: text made only of digits (ASCII,
/// Arabic-Indic or Extended Arabic-Indic) and `.`, `,` or `:`, ending with a
/// digit, is written for display exactly as it is (so "12:30" stays
/// "12:30").
pub proof fn law_number_keeps_order(s: Seq<char>)
    requires
        s.len() > 0,
        forall|k: int|
            0 <= k < s.len() ==> {
                let cp = #[trigger] s[k] as u32;
                ||| 0x30 <= cp <= 0x39
                ||| 0x0660 <= cp <= 0x066F
                ||| 0x06F0 <= cp <= 0x06F9
                ||| s[k] == '.' || s[k] == ',' || s[k] == ':'
            },
        ({
            let cp = s.last() as u32;
            ||| 0x30 <= cp <= 0x39
            ||| 0x0660 <= cp <= 0x066F
            ||| 0x06F0 <= cp <= 0x06F9
        }),
    ensures
        visual_reversed(s) == s,
{
    let r = s.reverse();
    let n = r.len() as int;
    assert forall|k: int| 0 <= k < n implies number_char(#[trigger] r[k]) by {
        assert(r[k] == s[s.len() - 1 - k]);
    }
    assert(r[0] == s.last());
    assert(digit(r[0]));
    lemma_number_run_to_end(r, 0);
    assert(restore_numbers_from(r, n) == Seq::<char>::empty());
    assert(r.subrange(0, n) =~= r);
    assert(r.reverse() =~= s);
    assert(r.subrange(0, n).reverse() + Seq::<char>::empty() =~= s);
}

/// Feeding `a` and then `b` to the parser is feeding `a + b`.
pub proof fn lemma_parser_feed_append(st: ParserView, a: Seq<u8>, b: Seq<u8>)
    ensures
        ({
            let (s1, o1) = parser_feed(st, a);
            let (s2, o2) = parser_feed(s1, b);
            parser_feed(st, a + b) == (s2, o1 + o2)
        }),
    decreases b.len(),
{
    let (s1, o1) = parser_feed(st, a);
    if b.len() == 0 {
        assert(a + b =~= a);
        assert(o1 + Seq::<u8>::empty() =~= o1);
    } else {
        assert((a + b).drop_last() =~= a + b.drop_last());
        assert((a + b).last() == b.last());
        lemma_parser_feed_append(st, a, b.drop_last());
        let (sm, om) = parser_feed(s1, b.drop_last());
        let (s3, o3) = parser_step(sm, b.last());
        assert(o1 + om + o3 =~= o1 + (om + o3));
    }
}

} // verus!
