//! Terminal text processing: shaping and reordering of the plain-text parts of
//! terminal output, with ANSI escape sequences passed through untouched.
use vstd::prelude::*;
use crate::bidi::{
    direction_of, has_rtl, has_rtl_chars, law_visual_order_len, law_visual_order_without_rtl,
    process_line, visual_order, Direction,
};
use crate::reshaper::{law_shaping_keeps_other_chars, reshape_line, shaped_line};
use crate::text::{
    ascii_alphabetic, chars_of, incomplete_char, is_ascii_alphabetic, is_incomplete_char,
    lemma_decode_utf8_append, lemma_invalid_tail_short, lemma_valid_prefix_len,
    lemma_valid_utf8_prefix, push_char, str_from_utf8, to_owned_string, valid_prefix_len,
};
use vstd::slice::{slice_subrange, slice_to_vec};
use vstd::utf8::{decode_utf8, valid_utf8};

verus! {

/// A piece of terminal output: an escape sequence or a run of plain text.
#[derive(Debug)]
pub enum TextChunk {
    AnsiSequence(String),
    Text(String),
}

/// The contents of a [`TextChunk`] as character sequences.
pub enum ChunkView {
    AnsiSequence(Seq<char>),
    Text(Seq<char>),
}

impl View for TextChunk {
    type V = ChunkView;

    open spec fn view(&self) -> ChunkView {
        match self {
            TextChunk::AnsiSequence(s) => ChunkView::AnsiSequence(s@),
            TextChunk::Text(s) => ChunkView::Text(s@),
        }
    }
}

/// The views of a list of chunks.
pub open spec fn chunk_views(v: Seq<TextChunk>) -> Seq<ChunkView> {
    v.map_values(|c: TextChunk| c@)
}

/// End (exclusive) of a control sequence whose body starts at `j`: just after
/// the first ASCII letter, or the end of the text.
pub open spec fn csi_end(s: Seq<char>, j: int) -> int
    decreases s.len() - j,
{
    if j < 0 || j >= s.len() {
        s.len() as int
    } else if ascii_alphabetic(s[j]) {
        j + 1
    } else {
        csi_end(s, j + 1)
    }
}

/// End (exclusive) of an operating-system command whose body starts at `j`:
/// just after the first BEL or ESC, or the end of the text.
pub open spec fn osc_end(s: Seq<char>, j: int) -> int
    decreases s.len() - j,
{
    if j < 0 || j >= s.len() {
        s.len() as int
    } else if s[j] == '\x07' || s[j] == '\x1b' {
        j + 1
    } else {
        osc_end(s, j + 1)
    }
}

/// End (exclusive) of the escape sequence that starts with the ESC at `i`:
/// `ESC [` runs to the first ASCII letter; `ESC ]` runs to the first BEL or
/// ESC and takes one following backslash; any other ESC takes one more
/// character; an ESC at the end stands alone.
pub open spec fn escape_end(s: Seq<char>, i: int) -> int {
    if i + 1 >= s.len() {
        i + 1
    } else if s[i + 1] == '[' {
        csi_end(s, i + 2)
    } else if s[i + 1] == ']' {
        let e = osc_end(s, i + 2);
        if e < s.len() && s[e] == '\\' {
            e + 1
        } else {
            e
        }
    } else {
        i + 2
    }
}

pub proof fn lemma_csi_end_bounds(s: Seq<char>, j: int)
    requires
        0 <= j <= s.len(),
    ensures
        j <= csi_end(s, j) <= s.len(),
        j < s.len() ==> j < csi_end(s, j),
    decreases s.len() - j,
{
    if j < s.len() && !ascii_alphabetic(s[j]) {
        lemma_csi_end_bounds(s, j + 1);
    }
}

pub proof fn lemma_osc_end_bounds(s: Seq<char>, j: int)
    requires
        0 <= j <= s.len(),
    ensures
        j <= osc_end(s, j) <= s.len(),
        j < s.len() ==> j < osc_end(s, j),
    decreases s.len() - j,
{
    if j < s.len() && !(s[j] == '\x07' || s[j] == '\x1b') {
        lemma_osc_end_bounds(s, j + 1);
    }
}

/// An escape sequence takes at least its ESC and stays inside the text.
pub proof fn lemma_escape_end_bounds(s: Seq<char>, i: int)
    requires
        0 <= i < s.len(),
    ensures
        i < escape_end(s, i) <= s.len(),
{
    if i + 1 < s.len() {
        lemma_csi_end_bounds(s, i + 2);
        lemma_osc_end_bounds(s, i + 2);
    }
}

/// The pending text `cur` as a chunk list: one text chunk, or none when empty.
pub open spec fn text_prefix(cur: Seq<char>) -> Seq<ChunkView> {
    if cur.len() > 0 {
        seq![ChunkView::Text(cur)]
    } else {
        Seq::empty()
    }
}

/// The chunks of `s` from index `i` on, where `cur` is the plain text
/// collected just before `i`.
pub open spec fn chunks_from(s: Seq<char>, i: int, cur: Seq<char>) -> Seq<ChunkView>
    decreases s.len() - i,
{
    if i < 0 || i >= s.len() {
        text_prefix(cur)
    } else if s[i] == '\x1b' {
        let e = escape_end(s, i);
        proof {
            lemma_escape_end_bounds(s, i);
        }
        text_prefix(cur) + seq![ChunkView::AnsiSequence(s.subrange(i, e))] + chunks_from(
            s,
            e,
            Seq::empty(),
        )
    } else {
        chunks_from(s, i + 1, cur.push(s[i]))
    }
}

/// The split of `s` into escape sequences and the plain text between them.
pub open spec fn ansi_chunks(s: Seq<char>) -> Seq<ChunkView> {
    chunks_from(s, 0, Seq::empty())
}

/// Splits `text` into escape sequences and the plain text between them.
pub fn split_ansi_sequences(text: &str) -> (r: Vec<TextChunk>)
    ensures
        chunk_views(r@) == ansi_chunks(text@),
{
    let chars = chars_of(text);
    let ghost s = text@;
    let len = chars.len();
    let mut chunks: Vec<TextChunk> = Vec::new();
    let mut current_text = String::new();
    let mut i: usize = 0;
    while i < len
        invariant
            chars@ == s,
            len == s.len(),
            i <= len,
            chunk_views(chunks@) + chunks_from(s, i as int, current_text@) == ansi_chunks(s),
        decreases len - i,
    {
        let ch = chars[i];
        if ch == '\x1b' {
            let ghost before = chunk_views(chunks@);
            let ghost cur = current_text@;
            if !current_text.as_str().is_empty() {
                chunks.push(TextChunk::Text(current_text));
                current_text = String::new();
                assert(chunk_views(chunks@) =~= before + text_prefix(cur));
            } else {
                assert(chunk_views(chunks@) =~= before + text_prefix(cur));
            }
            let mut sequence = String::new();
            push_char(&mut sequence, ch);
            let mut j = i + 1;
            if j < len {
                let next = chars[j];
                if next == '[' {
                    push_char(&mut sequence, next);
                    j += 1;
                    while j < len
                        invariant_except_break
                            csi_end(s, i + 2) == csi_end(s, j as int),
                        invariant
                            chars@ == s,
                            len == s.len(),
                            i + 2 <= j <= len,
                            sequence@ == s.subrange(i as int, j as int),
                        ensures
                            sequence@ == s.subrange(i as int, j as int),
                            j == csi_end(s, i + 2),
                        decreases len - j,
                    {
                        let c = chars[j];
                        push_char(&mut sequence, c);
                        j += 1;
                        assert(sequence@ =~= s.subrange(i as int, j as int));
                        if is_ascii_alphabetic(c) {
                            break;
                        }
                    }
                } else if next == ']' {
                    push_char(&mut sequence, next);
                    j += 1;
                    while j < len
                        invariant_except_break
                            osc_end(s, i + 2) == osc_end(s, j as int),
                        invariant
                            chars@ == s,
                            len == s.len(),
                            i + 2 <= j <= len,
                            sequence@ == s.subrange(i as int, j as int),
                        ensures
                            sequence@ == s.subrange(i as int, j as int),
                            j == osc_end(s, i + 2),
                        decreases len - j,
                    {
                        let c = chars[j];
                        push_char(&mut sequence, c);
                        j += 1;
                        assert(sequence@ =~= s.subrange(i as int, j as int));
                        if c == '\x07' || c == '\x1b' {
                            break;
                        }
                    }
                    if j < len && chars[j] == '\\' {
                        push_char(&mut sequence, chars[j]);
                        j += 1;
                        assert(sequence@ =~= s.subrange(i as int, j as int));
                    }
                } else {
                    push_char(&mut sequence, next);
                    j += 1;
                }
            }
            assert(sequence@ =~= s.subrange(i as int, j as int));
            assert(j == escape_end(s, i as int));
            let ghost mid = chunk_views(chunks@);
            chunks.push(TextChunk::AnsiSequence(sequence));
            assert(chunk_views(chunks@) =~= mid + seq![
                ChunkView::AnsiSequence(s.subrange(i as int, j as int)),
            ]);
            assert(current_text@ =~= Seq::<char>::empty());
            i = j;
        } else {
            push_char(&mut current_text, ch);
            i += 1;
        }
    }
    let ghost before = chunk_views(chunks@);
    let ghost cur = current_text@;
    if !current_text.as_str().is_empty() {
        chunks.push(TextChunk::Text(current_text));
    }
    assert(chunk_views(chunks@) =~= before + text_prefix(cur));
    chunks
}


/// What becomes of a plain-text chunk: text without right-to-left characters
/// is kept; otherwise it is shaped, and the shaped text is put in visual order
/// when it still holds right-to-left characters.
pub open spec fn chunk_output(t: Seq<char>) -> Seq<char> {
    if !has_rtl(t) {
        t
    } else {
        let r = shaped_line(t);
        if has_rtl(r) {
            visual_order(r)
        } else {
            r
        }
    }
}

/// The output for one chunk: escape sequences pass through unchanged.
pub open spec fn render_chunk(c: ChunkView) -> Seq<char> {
    match c {
        ChunkView::AnsiSequence(a) => a,
        ChunkView::Text(t) => chunk_output(t),
    }
}

/// The concatenated output for a list of chunks.
pub open spec fn render_chunks(cs: Seq<ChunkView>) -> Seq<char>
    decreases cs.len(),
{
    if cs.len() == 0 {
        Seq::empty()
    } else {
        render_chunks(cs.drop_last()) + render_chunk(cs.last())
    }
}

/// The display form of a buffer: unchanged when it has no right-to-left
/// characters, otherwise every plain-text chunk processed and every escape
/// sequence kept.
pub open spec fn buffer_output(s: Seq<char>) -> Seq<char> {
    if !has_rtl(s) {
        s
    } else {
        render_chunks(ansi_chunks(s))
    }
}

/// Reshapes and reorders one plain-text chunk.
fn process_text_chunk(text: &str) -> (r: String)
    ensures
        r@ == chunk_output(text@),
{
    if !has_rtl_chars(text) {
        return to_owned_string(text);
    }
    let reshaped = reshape_line(text);
    if has_rtl_chars(reshaped.as_str()) {
        process_line(reshaped.as_str())
    } else {
        reshaped
    }
}

/// Reshapes and reorders the plain text of `text`, keeping its escape
/// sequences as they are.
pub fn process_buffer(text: &str) -> (r: String)
    ensures
        r@ == buffer_output(text@),
{
    if !has_rtl_chars(text) {
        return to_owned_string(text);
    }
    let chunks = split_ansi_sequences(text);
    let ghost cs = chunk_views(chunks@);
    let mut result = String::new();
    for k in 0..chunks.len()
        invariant
            cs == chunk_views(chunks@),
            cs == ansi_chunks(text@),
            result@ == render_chunks(cs.take(k as int)),
    {
        assert(cs.take(k + 1).drop_last() =~= cs.take(k as int));
        match &chunks[k] {
            TextChunk::AnsiSequence(seq) => {
                result.append(seq.as_str());
            },
            TextChunk::Text(t) => {
                let processed = process_text_chunk(t.as_str());
                result.append(processed.as_str());
            },
        }
    }
    assert(cs.take(chunks.len() as int) =~= cs);
    result
}

/// The display form of `s` processed line by line, from index `i` on, where
/// the current line started at `start`.
pub open spec fn lines_from(s: Seq<char>, i: int, start: int) -> Seq<char>
    decreases s.len() - i,
{
    if i < 0 || i >= s.len() {
        buffer_output(s.subrange(start, s.len() as int))
    } else if s[i] == '\n' {
        buffer_output(s.subrange(start, i)) + seq!['\n'] + lines_from(s, i + 1, i + 1)
    } else {
        lines_from(s, i + 1, start)
    }
}

/// The display form of `s` with every line (split at `\n`) processed on its
/// own and the line breaks kept.
pub open spec fn lines_output(s: Seq<char>) -> Seq<char> {
    lines_from(s, 0, 0)
}

/// Processes `text` line by line, keeping its line breaks.
pub fn process_lines(text: &str) -> (r: String)
    ensures
        r@ == lines_output(text@),
{
    let chars = chars_of(text);
    let ghost s = text@;
    let mut result = String::new();
    let mut line = String::new();
    let ghost mut start: int = 0;
    for i in 0..chars.len()
        invariant
            chars@ == s,
            0 <= start <= i,
            line@ == s.subrange(start, i as int),
            result@ + lines_from(s, i as int, start) == lines_output(s),
    {
        if chars[i] == '\n' {
            let processed = process_buffer(line.as_str());
            result.append(processed.as_str());
            push_char(&mut result, '\n');
            line = String::new();
            proof {
                start = i + 1;
            }
            assert(line@ =~= s.subrange(start, i + 1));
        } else {
            push_char(&mut line, chars[i]);
            assert(line@ =~= s.subrange(start, i + 1));
        }
    }
    let processed = process_buffer(line.as_str());
    result.append(processed.as_str());
    result
}


/// The characters a chunk was cut from.
pub open spec fn chunk_text(c: ChunkView) -> Seq<char> {
    match c {
        ChunkView::AnsiSequence(a) => a,
        ChunkView::Text(t) => t,
    }
}

/// The characters of a list of chunks, one after the other.
pub open spec fn flatten_chunks(cs: Seq<ChunkView>) -> Seq<char>
    decreases cs.len(),
{
    if cs.len() == 0 {
        Seq::empty()
    } else {
        flatten_chunks(cs.drop_last()) + chunk_text(cs.last())
    }
}

proof fn lemma_flatten_append(a: Seq<ChunkView>, b: Seq<ChunkView>)
    ensures
        flatten_chunks(a + b) == flatten_chunks(a) + flatten_chunks(b),
    decreases b.len(),
{
    if b.len() == 0 {
        assert(a + b =~= a);
        assert(flatten_chunks(a) + flatten_chunks(b) =~= flatten_chunks(a));
    } else {
        assert((a + b).drop_last() =~= a + b.drop_last());
        lemma_flatten_append(a, b.drop_last());
        assert(flatten_chunks(a + b) =~= flatten_chunks(a) + flatten_chunks(b));
    }
}

proof fn lemma_render_append(a: Seq<ChunkView>, b: Seq<ChunkView>)
    ensures
        render_chunks(a + b) == render_chunks(a) + render_chunks(b),
    decreases b.len(),
{
    if b.len() == 0 {
        assert(a + b =~= a);
        assert(render_chunks(a) + render_chunks(b) =~= render_chunks(a));
    } else {
        assert((a + b).drop_last() =~= a + b.drop_last());
        lemma_render_append(a, b.drop_last());
        assert(render_chunks(a + b) =~= render_chunks(a) + render_chunks(b));
    }
}

/// Each chunk kind as its own chunk list.
proof fn lemma_single_chunk(c: ChunkView)
    ensures
        flatten_chunks(seq![c]) == chunk_text(c),
        render_chunks(seq![c]) == render_chunk(c),
{
    let one = seq![c];
    assert(one.drop_last() =~= Seq::<ChunkView>::empty());
    assert(one.last() == c);
    assert(flatten_chunks(one.drop_last()) =~= Seq::<char>::empty());
    assert(render_chunks(one.drop_last()) =~= Seq::<char>::empty());
    assert(flatten_chunks(seq![c]) =~= chunk_text(c));
    assert(render_chunks(seq![c]) =~= render_chunk(c));
}

proof fn lemma_chunks_from_flatten(s: Seq<char>, i: int, cur: Seq<char>)
    requires
        0 <= i <= s.len(),
    ensures
        flatten_chunks(chunks_from(s, i, cur)) == cur + s.subrange(i, s.len() as int),
    decreases s.len() - i,
{
    let n = s.len() as int;
    let tp = text_prefix(cur);
    if cur.len() > 0 {
        lemma_single_chunk(ChunkView::Text(cur));
    }
    assert(flatten_chunks(tp) == cur) by {
        if cur.len() == 0 {
            assert(cur =~= Seq::<char>::empty());
        }
    }
    if i >= n {
        assert(cur + s.subrange(i, n) =~= cur);
    } else if s[i] == '\x1b' {
        let e = escape_end(s, i);
        lemma_escape_end_bounds(s, i);
        let a = seq![ChunkView::AnsiSequence(s.subrange(i, e))];
        lemma_single_chunk(ChunkView::AnsiSequence(s.subrange(i, e)));
        lemma_chunks_from_flatten(s, e, Seq::empty());
        lemma_flatten_append(tp + a, chunks_from(s, e, Seq::empty()));
        lemma_flatten_append(tp, a);
        assert(Seq::<char>::empty() + s.subrange(e, n) =~= s.subrange(e, n));
        assert(cur + s.subrange(i, n) =~= cur + s.subrange(i, e) + s.subrange(e, n));
    } else {
        lemma_chunks_from_flatten(s, i + 1, cur.push(s[i]));
        assert(cur.push(s[i]) + s.subrange(i + 1, n) =~= cur + s.subrange(i, n));
    }
}

/// Splitting into escape sequences and text loses nothing: the chunks, put
/// back together, give the input.
pub proof fn law_split_is_lossless(s: Seq<char>)
    ensures
        flatten_chunks(ansi_chunks(s)) == s,
{
    lemma_chunks_from_flatten(s, 0, Seq::empty());
    assert(Seq::<char>::empty() + s.subrange(0, s.len() as int) =~= s);
}

/// A text chunk is non-empty and holds no ESC; an escape-sequence chunk
/// starts with ESC.
pub open spec fn well_shaped_chunk(c: ChunkView) -> bool {
    match c {
        ChunkView::Text(t) => t.len() > 0 && !t.contains('\x1b'),
        ChunkView::AnsiSequence(a) => a.len() > 0 && a[0] == '\x1b',
    }
}

proof fn lemma_chunks_from_shapes(s: Seq<char>, i: int, cur: Seq<char>)
    requires
        0 <= i <= s.len(),
        !cur.contains('\x1b'),
    ensures
        forall|k: int|
            0 <= k < chunks_from(s, i, cur).len() ==> well_shaped_chunk(
                #[trigger] chunks_from(s, i, cur)[k],
            ),
    decreases s.len() - i,
{
    let n = s.len() as int;
    let tp = text_prefix(cur);
    assert forall|k: int| 0 <= k < tp.len() implies well_shaped_chunk(#[trigger] tp[k]) by {}
    if i >= n {
        assert(chunks_from(s, i, cur) == tp);
    } else if s[i] == '\x1b' {
        let e = escape_end(s, i);
        lemma_escape_end_bounds(s, i);
        lemma_chunks_from_shapes(s, e, Seq::empty());
        let a = seq![ChunkView::AnsiSequence(s.subrange(i, e))];
        let rest = chunks_from(s, e, Seq::empty());
        assert(chunks_from(s, i, cur) == tp + a + rest);
        assert(well_shaped_chunk(a[0]));
        assert forall|k: int| 0 <= k < (tp + a + rest).len() implies well_shaped_chunk(
            #[trigger] (tp + a + rest)[k],
        ) by {
            if k < tp.len() {
                assert((tp + a + rest)[k] == tp[k]);
            } else if k == tp.len() {
                assert((tp + a + rest)[k] == a[0]);
            } else {
                assert((tp + a + rest)[k] == rest[k - tp.len() - 1]);
            }
        }
    } else {
        assert(!cur.push(s[i]).contains('\x1b')) by {
            if cur.push(s[i]).contains('\x1b') {
                let k = choose|k: int| 0 <= k < cur.push(s[i]).len() && cur.push(s[i])[k] == '\x1b';
                if k < cur.len() {
                    assert(cur[k] == '\x1b');
                }
            }
        }
        lemma_chunks_from_shapes(s, i + 1, cur.push(s[i]));
        assert(chunks_from(s, i, cur) == chunks_from(s, i + 1, cur.push(s[i])));
    }
}

/// Every chunk of the split is well shaped: plain-text chunks are non-empty
/// and hold no ESC, escape-sequence chunks start with ESC.
pub proof fn law_split_chunks_well_shaped(s: Seq<char>, k: int)
    requires
        0 <= k < ansi_chunks(s).len(),
    ensures
        well_shaped_chunk(ansi_chunks(s)[k]),
{
    lemma_chunks_from_shapes(s, 0, Seq::empty());
}

/// Processing a plain-text chunk keeps its length.
pub proof fn lemma_chunk_output_len(t: Seq<char>)
    ensures
        chunk_output(t).len() == t.len(),
{
    law_visual_order_len(shaped_line(t));
}

proof fn lemma_render_len(cs: Seq<ChunkView>)
    ensures
        render_chunks(cs).len() == flatten_chunks(cs).len(),
    decreases cs.len(),
{
    if cs.len() > 0 {
        lemma_render_len(cs.drop_last());
        match cs.last() {
            ChunkView::Text(t) => lemma_chunk_output_len(t),
            ChunkView::AnsiSequence(_) => {},
        }
    }
}

/// Processing a buffer never adds or drops characters.
pub proof fn law_buffer_output_len(s: Seq<char>)
    ensures
        buffer_output(s).len() == s.len(),
{
    if has_rtl(s) {
        lemma_render_len(ansi_chunks(s));
        law_split_is_lossless(s);
    }
}

/// A buffer without right-to-left characters is returned as it is.
pub proof fn law_buffer_without_rtl(s: Seq<char>)
    requires
        !has_rtl(s),
    ensures
        buffer_output(s) == s,
{
}

proof fn lemma_lines_from_len(s: Seq<char>, i: int, start: int)
    requires
        0 <= start <= i <= s.len(),
    ensures
        lines_from(s, i, start).len() == s.len() - start,
    decreases s.len() - i,
{
    if i >= s.len() {
        law_buffer_output_len(s.subrange(start, s.len() as int));
    } else if s[i] == '\n' {
        law_buffer_output_len(s.subrange(start, i));
        lemma_lines_from_len(s, i + 1, i + 1);
    } else {
        lemma_lines_from_len(s, i + 1, start);
    }
}

/// Processing text line by line never adds or drops characters.
pub proof fn law_lines_output_len(s: Seq<char>)
    ensures
        lines_output(s).len() == s.len(),
{
    lemma_lines_from_len(s, 0, 0);
}

/// A plain-text chunk comes out reshaped and then reordered, as
/// `reorder_line(reshape_line(t))` gives it, whether or not it holds
/// right-to-left text.
pub proof fn law_chunk_output_is_reordered_shaping(t: Seq<char>)
    ensures
        chunk_output(t) == visual_order(shaped_line(t)),
{
    let r = shaped_line(t);
    if !has_rtl(t) {
        assert forall|i: int| 0 <= i < t.len() implies #[trigger] r[i] == t[i] by {
            reveal(direction_of);
            assert(direction_of(t[i]) != Direction::RTL);
            law_shaping_keeps_other_chars(t, i);
        }
        assert(r =~= t);
        law_visual_order_without_rtl(t);
    } else if !has_rtl(r) {
        law_visual_order_without_rtl(r);
    }
}

/// Chunks whose characters hold no right-to-left text render as they are.
proof fn lemma_render_without_rtl(cs: Seq<ChunkView>)
    requires
        !has_rtl(flatten_chunks(cs)),
    ensures
        render_chunks(cs) == flatten_chunks(cs),
    decreases cs.len(),
{
    if cs.len() > 0 {
        let init = cs.drop_last();
        let f = flatten_chunks(cs);
        let fi = flatten_chunks(init);
        let last = chunk_text(cs.last());
        assert(f == fi + last);
        assert(!has_rtl(fi)) by {
            if has_rtl(fi) {
                let i = choose|i: int| 0 <= i < fi.len() && direction_of(#[trigger] fi[i]) == Direction::RTL;
                assert(f[i] == fi[i]);
            }
        }
        assert(!has_rtl(last)) by {
            if has_rtl(last) {
                let i = choose|i: int| 0 <= i < last.len() && direction_of(#[trigger] last[i]) == Direction::RTL;
                assert(f[fi.len() + i] == last[i]);
            }
        }
        lemma_render_without_rtl(init);
    }
}

/// A buffer comes out chunk by chunk: every escape sequence as it is and
/// every plain-text chunk reshaped and reordered on its own; so each chunk
/// starts in the output at the index where it starts in the input.
pub proof fn law_buffer_chunk_by_chunk(s: Seq<char>)
    ensures
        buffer_output(s) == render_chunks(ansi_chunks(s)),
        forall|k: int|
            0 <= k <= ansi_chunks(s).len() ==> #[trigger] render_chunks(ansi_chunks(s).take(k)).len()
                == flatten_chunks(ansi_chunks(s).take(k)).len(),
{
    let cs = ansi_chunks(s);
    law_split_is_lossless(s);
    if !has_rtl(s) {
        lemma_render_without_rtl(cs);
    }
    assert forall|k: int| 0 <= k <= cs.len() implies #[trigger] render_chunks(cs.take(k)).len()
        == flatten_chunks(cs.take(k)).len() by {
        lemma_render_len(cs.take(k));
    }
}

/// Line processing seen from index `k` of `p + q` is line processing of `q`.
proof fn lemma_lines_from_shift(p: Seq<char>, q: Seq<char>, j: int, st: int)
    requires
        0 <= st <= j <= q.len(),
    ensures
        lines_from(p + q, p.len() + j, p.len() + st) == lines_from(q, j, st),
    decreases q.len() - j,
{
    let s = p + q;
    let k = p.len() as int;
    if j >= q.len() {
        assert(s.subrange(k + st, s.len() as int) =~= q.subrange(st, q.len() as int));
    } else {
        assert(s[k + j] == q[j]);
        if q[j] == '\n' {
            assert(s.subrange(k + st, k + j) =~= q.subrange(st, j));
            lemma_lines_from_shift(p, q, j + 1, j + 1);
        } else {
            lemma_lines_from_shift(p, q, j + 1, st);
        }
    }
}

proof fn lemma_lines_from_split(a: Seq<char>, b: Seq<char>, i: int, start: int)
    requires
        0 <= start <= i <= a.len(),
    ensures
        lines_from(a + seq!['\n'] + b, i, start) == lines_from(a, i, start) + seq!['\n']
            + lines_output(b),
    decreases a.len() - i,
{
    let s = a + seq!['\n'] + b;
    let n = a.len() as int;
    if i == n {
        assert(s[n] == '\n');
        assert(s.subrange(start, n) =~= a.subrange(start, n));
        lemma_lines_from_shift(a + seq!['\n'], b, 0, 0);
        assert(a + seq!['\n'] + b == s);
    } else {
        assert(s[i] == a[i]);
        if a[i] == '\n' {
            assert(s.subrange(start, i) =~= a.subrange(start, i));
            lemma_lines_from_split(a, b, i + 1, i + 1);
        } else {
            lemma_lines_from_split(a, b, i + 1, start);
        }
    }
}

proof fn lemma_lines_from_one_line(a: Seq<char>, i: int)
    requires
        0 <= i <= a.len(),
        !a.contains('\n'),
    ensures
        lines_from(a, i, 0) == buffer_output(a),
    decreases a.len() - i,
{
    if i >= a.len() {
        assert(a.subrange(0, a.len() as int) =~= a);
    } else {
        assert(a[i] != '\n');
        lemma_lines_from_one_line(a, i + 1);
    }
}

/// Each line is processed on its own: joining two texts with a line break
/// joins their outputs with the same line break, and a text without line
/// breaks is processed as one buffer.
pub proof fn law_lines_split_at_break(a: Seq<char>, b: Seq<char>)
    ensures
        lines_output(a + seq!['\n'] + b) == lines_output(a) + seq!['\n'] + lines_output(b),
        !a.contains('\n') ==> lines_output(a) == buffer_output(a),
{
    lemma_lines_from_split(a, b, 0, 0);
    if !a.contains('\n') {
        lemma_lines_from_one_line(a, 0);
    }
}

/// Incremental processor for a terminal output stream: buffers an incomplete
/// UTF-8 tail, the current line and an unfinished escape sequence between calls.
pub struct StreamProcessor {
    utf8_buffer: Vec<u8>,
    utf8_buffer_alone: bool,
    line_buffer: String,
    in_ansi_sequence: bool,
    ansi_buffer: String,
}

/// The state of a [`StreamProcessor`].
#[verifier::ext_equal]
pub struct StreamState {
    /// Bytes of an incomplete UTF-8 sequence kept for the next call.
    pub pending: Seq<u8>,
    /// Whether the pending bytes are a character cut short that was all the
    /// undecodable input of its call, with nothing valid before it.
    pub pending_alone: bool,
    /// Plain text of the current line not yet written.
    pub line: Seq<char>,
    /// Whether an escape sequence is being collected.
    pub in_ansi: bool,
    /// The escape sequence collected so far.
    pub ansi: Seq<char>,
}

impl View for StreamProcessor {
    type V = StreamState;

    closed spec fn view(&self) -> StreamState {
        StreamState {
            pending: self.utf8_buffer@,
            pending_alone: self.utf8_buffer_alone,
            line: self.line_buffer@,
            in_ansi: self.in_ansi_sequence,
            ansi: self.ansi_buffer@,
        }
    }
}

/// The state of a fresh processor.
pub open spec fn initial_stream_state() -> StreamState {
    StreamState {
        pending: Seq::empty(),
        pending_alone: false,
        line: Seq::empty(),
        in_ansi: false,
        ansi: Seq::empty(),
    }
}

/// The output for a buffered line: its display form, or nothing when empty.
pub open spec fn flushed_line(l: Seq<char>) -> Seq<char> {
    if l.len() > 0 {
        buffer_output(l)
    } else {
        Seq::empty()
    }
}

/// One character fed to the stream: the new state and what is written.
/// A line break writes the buffered line and the break; inside an escape
/// sequence characters are collected until an ASCII letter ends it; an ESC
/// writes the buffered line and starts a sequence; any other character is
/// buffered.
pub open spec fn stream_step(st: StreamState, c: char) -> (StreamState, Seq<char>) {
    if c == '\n' || c == '\r' {
        (
            StreamState { pending: st.pending, pending_alone: st.pending_alone, line: Seq::empty(), in_ansi: st.in_ansi, ansi: st.ansi },
            flushed_line(st.line).push(c),
        )
    } else if st.in_ansi {
        let a = st.ansi.push(c);
        if ascii_alphabetic(c) {
            (
                StreamState {
                    pending: st.pending, pending_alone: st.pending_alone,
                    line: st.line,
                    in_ansi: false,
                    ansi: Seq::empty(),
                },
                a,
            )
        } else {
            (StreamState { pending: st.pending, pending_alone: st.pending_alone, line: st.line, in_ansi: true, ansi: a }, Seq::empty())
        }
    } else if c == '\x1b' {
        (
            StreamState {
                pending: st.pending, pending_alone: st.pending_alone,
                line: Seq::empty(),
                in_ansi: true,
                ansi: st.ansi.push(c),
            },
            flushed_line(st.line),
        )
    } else {
        (
            StreamState { pending: st.pending, pending_alone: st.pending_alone, line: st.line.push(c), in_ansi: st.in_ansi, ansi: st.ansi },
            Seq::empty(),
        )
    }
}

/// A sequence of characters fed to the stream, one after the other.
pub open spec fn stream_feed(st: StreamState, t: Seq<char>) -> (StreamState, Seq<char>)
    decreases t.len(),
{
    if t.len() == 0 {
        (st, Seq::empty())
    } else {
        let (s1, o1) = stream_feed(st, t.drop_last());
        let (s2, o2) = stream_step(s1, t.last());
        (s2, o1 + o2)
    }
}

/// The state with no pending bytes.
pub open spec fn without_pending(st: StreamState) -> StreamState {
    StreamState {
        pending: Seq::empty(),
        pending_alone: false,
        line: st.line,
        in_ansi: st.in_ansi,
        ansi: st.ansi,
    }
}

/// Bytes fed to the stream. The pending bytes and `data` are decoded as far
/// as they are valid UTF-8 and the characters are fed. When some prefix is
/// valid, the rest is kept for the next call if it is at most four bytes long
/// and dropped otherwise. When no prefix is valid, the bytes are kept if they
/// are a character cut short (`incomplete_char`); else, when the pending bytes
/// were such a character kept alone, they are dropped and `data` is fed on its
/// own; otherwise all of it is dropped.
pub open spec fn stream_bytes(st: StreamState, data: Seq<u8>) -> (StreamState, Seq<char>)
    decreases st.pending.len(),
{
    let all = st.pending + data;
    let cleared = without_pending(st);
    if valid_utf8(all) {
        stream_feed(cleared, decode_utf8(all))
    } else {
        let v = valid_prefix_len(all);
        if v == 0 && incomplete_char(all) {
            (
                StreamState {
                    pending: all,
                    pending_alone: true,
                    line: st.line,
                    in_ansi: st.in_ansi,
                    ansi: st.ansi,
                },
                Seq::empty(),
            )
        } else if v == 0 && st.pending_alone && st.pending.len() > 0 {
            stream_bytes(cleared, data)
        } else {
            let (s2, o) = stream_feed(cleared, decode_utf8(all.take(v as int)));
            if all.len() - v <= 4 && v > 0 {
                (
                    StreamState {
                        pending: all.skip(v as int),
                        pending_alone: false,
                        line: s2.line,
                        in_ansi: s2.in_ansi,
                        ansi: s2.ansi,
                    },
                    o,
                )
            } else {
                (s2, o)
            }
        }
    }
}

/// With nothing pending, feeding `data` depends only on the line and escape
/// state.
proof fn lemma_stream_bytes_cleared(st: StreamState, data: Seq<u8>)
    requires
        st.pending.len() == 0,
    ensures
        stream_bytes(st, data) == stream_bytes(without_pending(st), data),
{
    assert(st.pending + data =~= data);
    assert(without_pending(st).pending + data =~= data);
    assert(without_pending(without_pending(st)) =~= without_pending(st));
}

/// Flushing the stream writes the buffered line and any unfinished escape
/// sequence, and empties both.
pub open spec fn stream_flush(st: StreamState) -> (StreamState, Seq<char>) {
    if st.ansi.len() > 0 {
        (
            StreamState { pending: st.pending, pending_alone: st.pending_alone, line: Seq::empty(), in_ansi: false, ansi: Seq::empty() },
            flushed_line(st.line) + st.ansi,
        )
    } else {
        (
            StreamState { pending: st.pending, pending_alone: st.pending_alone, line: Seq::empty(), in_ansi: st.in_ansi, ansi: Seq::empty() },
            flushed_line(st.line),
        )
    }
}

/// Feeding characters never touches the pending bytes.
pub proof fn lemma_stream_feed_pending(st: StreamState, t: Seq<char>)
    ensures
        stream_feed(st, t).0.pending == st.pending,
        stream_feed(st, t).0.pending_alone == st.pending_alone,
    decreases t.len(),
{
    if t.len() > 0 {
        lemma_stream_feed_pending(st, t.drop_last());
    }
}

/// Feeding `a` and then `b` is feeding `a + b`: the stream does not depend on
/// how its characters are cut into pieces.
pub proof fn law_stream_feed_append(st: StreamState, a: Seq<char>, b: Seq<char>)
    ensures
        ({
            let (s1, o1) = stream_feed(st, a);
            let (s2, o2) = stream_feed(s1, b);
            stream_feed(st, a + b) == (s2, o1 + o2)
        }),
    decreases b.len(),
{
    let (s1, o1) = stream_feed(st, a);
    if b.len() == 0 {
        assert(a + b =~= a);
        assert(o1 + Seq::<char>::empty() =~= o1);
    } else {
        assert((a + b).drop_last() =~= a + b.drop_last());
        assert((a + b).last() == b.last());
        law_stream_feed_append(st, a, b.drop_last());
        let (sm, om) = stream_feed(s1, b.drop_last());
        let (s3, o3) = stream_step(sm, b.last());
        assert(o1 + om + o3 =~= o1 + (om + o3));
    }
}

/// With nothing pending, feeding two pieces of valid UTF-8 one after the
/// other gives the same state and the same output as feeding them at once.
pub proof fn law_stream_bytes_append(st: StreamState, d1: Seq<u8>, d2: Seq<u8>)
    requires
        st.pending.len() == 0,
        valid_utf8(d1),
        valid_utf8(d2),
    ensures
        ({
            let (s1, o1) = stream_bytes(st, d1);
            let (s2, o2) = stream_bytes(s1, d2);
            stream_bytes(st, d1 + d2) == (s2, o1 + o2)
        }),
{
    let c = without_pending(st);
    assert(st.pending + d1 =~= d1);
    lemma_decode_utf8_append(d1, d2);
    assert(st.pending + (d1 + d2) =~= d1 + d2);
    let (s1, o1) = stream_feed(c, decode_utf8(d1));
    lemma_stream_feed_pending(c, decode_utf8(d1));
    assert(s1.pending + d2 =~= d2);
    assert(without_pending(s1) =~= s1);
    law_stream_feed_append(c, decode_utf8(d1), decode_utf8(d2));
}

/// UTF-8 cut anywhere between two reads, inside a character too, comes out as
/// if it had been read at once: with nothing pending and `d1 + d2` valid UTF-8,
/// reading `d1` then `d2` gives the state and output of reading `d1 + d2`.
pub proof fn law_stream_bytes_split_anywhere(st: StreamState, d1: Seq<u8>, d2: Seq<u8>)
    requires
        st.pending.len() == 0,
        valid_utf8(d1 + d2),
    ensures
        ({
            let (s1, o1) = stream_bytes(st, d1);
            let (s2, o2) = stream_bytes(s1, d2);
            stream_bytes(st, d1 + d2) == (s2, o1 + o2)
        }),
{
    lemma_valid_prefix_len(d1);
    let c = without_pending(st);
    assert(st.pending + d1 =~= d1);
    assert(st.pending + (d1 + d2) =~= d1 + d2);
    if valid_utf8(d1) {
        lemma_valid_utf8_prefix(d1, d2);
        law_stream_bytes_append(st, d1, d2);
    } else {
        let v = valid_prefix_len(d1) as int;
        let p = d1.take(v);
        let tail = d1.skip(v);
        lemma_invalid_tail_short(d1, d2);
        if v == 0 {
            assert(tail =~= d1);
            let s1 = StreamState {
                pending: d1,
                pending_alone: true,
                line: st.line,
                in_ansi: st.in_ansi,
                ansi: st.ansi,
            };
            assert(stream_bytes(st, d1) == (s1, Seq::<char>::empty()));
            assert(s1.pending + d2 =~= d1 + d2);
            assert(without_pending(s1) =~= c);
            let (s2, o2) = stream_bytes(s1, d2);
            assert(Seq::<char>::empty() + o2 =~= o2);
        } else {
            let (f1, o1) = stream_feed(c, decode_utf8(p));
            lemma_stream_feed_pending(c, decode_utf8(p));
            let s1 = StreamState {
                pending: tail,
                pending_alone: false,
                line: f1.line,
                in_ansi: f1.in_ansi,
                ansi: f1.ansi,
            };
            assert(stream_bytes(st, d1) == (s1, o1));
            assert(d1 + d2 =~= p + (tail + d2));
            lemma_valid_utf8_prefix(p, tail + d2);
            assert(s1.pending + d2 =~= tail + d2);
            assert(without_pending(s1) =~= f1);
            law_stream_feed_append(c, decode_utf8(p), decode_utf8(tail + d2));
        }
    }
}

/// Inside an escape sequence, characters that are neither line breaks nor
/// ASCII letters are collected and nothing is written.
proof fn lemma_stream_escape_body(st: StreamState, body: Seq<char>)
    requires
        st.in_ansi,
        forall|k: int|
            0 <= k < body.len() ==> !ascii_alphabetic(#[trigger] body[k]) && body[k] != '\n'
                && body[k] != '\r',
    ensures
        stream_feed(st, body) == (
            StreamState { pending: st.pending, pending_alone: st.pending_alone, line: st.line, in_ansi: true, ansi: st.ansi + body },
            Seq::<char>::empty(),
        ),
    decreases body.len(),
{
    if body.len() == 0 {
        assert(st.ansi + body =~= st.ansi);
        assert(StreamState { pending: st.pending, pending_alone: st.pending_alone, line: st.line, in_ansi: true, ansi: st.ansi + body } =~= st);
    } else {
        lemma_stream_escape_body(st, body.drop_last());
        assert(st.ansi + body.drop_last() + seq![body.last()] =~= st.ansi + body);
        assert((st.ansi + body.drop_last()).push(body.last()) =~= st.ansi + body);
    }
}

/// An escape sequence reaching the stream outside another one is written out
/// unchanged, after the buffered line: ESC, then characters that are neither
/// line breaks nor ASCII letters, then a closing ASCII letter.
pub proof fn law_stream_passes_escape_sequences(st: StreamState, body: Seq<char>, last: char)
    requires
        !st.in_ansi,
        st.ansi.len() == 0,
        forall|k: int|
            0 <= k < body.len() ==> !ascii_alphabetic(#[trigger] body[k]) && body[k] != '\n'
                && body[k] != '\r',
        ascii_alphabetic(last),
    ensures
        ({
            let sq = seq!['\x1b'] + body + seq![last];
            stream_feed(st, sq) == (
                StreamState { pending: st.pending, pending_alone: st.pending_alone, line: Seq::empty(), in_ansi: false, ansi: Seq::empty() },
                flushed_line(st.line) + sq,
            )
        }),
{
    let esc = seq!['\x1b'];
    let sq = esc + body + seq![last];
    assert(esc.drop_last() =~= Seq::<char>::empty());
    assert(esc.last() == '\x1b');
    assert(stream_feed(st, esc.drop_last()) == (st, Seq::<char>::empty()));
    let (s1, o1) = stream_feed(st, esc);
    assert(s1 =~= StreamState { pending: st.pending, pending_alone: st.pending_alone, line: Seq::<char>::empty(), in_ansi: true, ansi: esc }) by {
        assert(st.ansi.push('\x1b') =~= esc);
    }
    assert(o1 =~= flushed_line(st.line));
    lemma_stream_escape_body(s1, body);
    law_stream_feed_append(st, esc, body);
    let (s2, o2) = stream_feed(st, esc + body);
    assert(s2 =~= StreamState { pending: st.pending, pending_alone: st.pending_alone, line: Seq::<char>::empty(), in_ansi: true, ansi: esc + body });
    assert(o2 =~= flushed_line(st.line));
    law_stream_feed_append(st, esc + body, seq![last]);
    let tail = seq![last];
    assert(tail.drop_last() =~= Seq::<char>::empty());
    assert(tail.last() == last);
    assert(stream_feed(s2, tail.drop_last()) == (s2, Seq::<char>::empty()));
    assert((esc + body).push(last) =~= sq);
    assert(esc + body + tail =~= sq);
    let (s3, o3) = stream_feed(s2, tail);
    assert(o3 =~= sq);
    assert(s3 =~= StreamState { pending: st.pending, pending_alone: st.pending_alone, line: Seq::<char>::empty(), in_ansi: false, ansi: Seq::<char>::empty() });
    assert(o2 + o3 =~= flushed_line(st.line) + sq);
}

/// Flushing a line writes what processing it as a buffer gives.
proof fn lemma_flushed_line(l: Seq<char>)
    ensures
        flushed_line(l) == buffer_output(l),
{
    if l.len() == 0 {
        assert(!has_rtl(l));
        assert(l =~= Seq::<char>::empty());
    }
}

/// Feeding `c` and then `r` is feeding `[c] + r`.
proof fn lemma_stream_feed_first(st: StreamState, c: char, r: Seq<char>)
    ensures
        ({
            let (s1, o1) = stream_step(st, c);
            let (s2, o2) = stream_feed(s1, r);
            stream_feed(st, seq![c] + r) == (s2, o1 + o2)
        }),
{
    law_stream_feed_append(st, seq![c], r);
    let one = seq![c];
    assert(one.drop_last() =~= Seq::<char>::empty());
    assert(one.last() == c);
    assert(stream_feed(st, one.drop_last()) == (st, Seq::<char>::empty()));
    let (s1, o1) = stream_step(st, c);
    assert(Seq::<char>::empty() + o1 =~= o1);
}

proof fn lemma_stream_plain_lines(st: StreamState, t: Seq<char>)
    requires
        !st.in_ansi,
        st.ansi.len() == 0,
        forall|k: int| 0 <= k < t.len() ==> #[trigger] t[k] != '\x1b' && t[k] != '\r',
    ensures
        ({
            let (s1, o1) = stream_feed(st, t);
            &&& !s1.in_ansi
            &&& s1.ansi.len() == 0
            &&& o1 + flushed_line(s1.line) == lines_from(st.line + t, st.line.len() as int, 0)
        }),
    decreases t.len(),
{
    let l = st.line;
    let u = l + t;
    let n = l.len() as int;
    lemma_flushed_line(l);
    if t.len() == 0 {
        assert(u =~= l);
        assert(u.subrange(0, n) =~= l);
        assert(Seq::<char>::empty() + flushed_line(l) =~= flushed_line(l));
    } else {
        let c = t[0];
        let r = t.drop_first();
        assert(t =~= seq![c] + r);
        assert forall|k: int| 0 <= k < r.len() implies #[trigger] r[k] != '\x1b' && r[k] != '\r' by {
            assert(r[k] == t[k + 1]);
        }
        lemma_stream_feed_first(st, c, r);
        let (s1, o1) = stream_step(st, c);
        let (s2, o2) = stream_feed(s1, r);
        assert(u[n] == c);
        lemma_stream_plain_lines(s1, r);
        if c == '\n' {
            assert(s1.line =~= Seq::<char>::empty());
            assert(s1.line + r =~= r);
            assert(u.subrange(0, n) =~= l);
            lemma_lines_from_shift(l + seq!['\n'], r, 0, 0);
            assert(l + seq!['\n'] + r =~= u);
            assert(o1 + o2 + flushed_line(s2.line) =~= o1 + (o2 + flushed_line(s2.line)));
        } else {
            assert(s1.line + r =~= u);
            assert(o1 =~= Seq::<char>::empty());
            assert(o1 + o2 =~= o2);
        }
    }
}

/// Text without escape sequences and carriage returns, read in one piece and
/// then flushed, comes out as processing it line by line gives it.
pub proof fn law_stream_then_flush_is_lines(d: Seq<u8>)
    requires
        valid_utf8(d),
        forall|k: int|
            0 <= k < decode_utf8(d).len() ==> #[trigger] decode_utf8(d)[k] != '\x1b'
                && decode_utf8(d)[k] != '\r',
    ensures
        ({
            let (s1, o1) = stream_bytes(initial_stream_state(), d);
            let (s2, o2) = stream_flush(s1);
            o1 + o2 == lines_output(decode_utf8(d))
        }),
{
    let st = initial_stream_state();
    assert(st.pending + d =~= d);
    assert(without_pending(st) =~= st);
    let t = decode_utf8(d);
    lemma_stream_plain_lines(st, t);
    assert(st.line + t =~= t);
}

/// A flushed line has as many characters as the line.
proof fn lemma_flushed_line_len(l: Seq<char>)
    ensures
        flushed_line(l).len() == l.len(),
{
    lemma_flushed_line(l);
    law_buffer_output_len(l);
}

proof fn lemma_stream_keeps_breaks(st: StreamState, t: Seq<char>)
    requires
        !st.in_ansi,
        st.ansi.len() == 0,
        forall|k: int| 0 <= k < t.len() ==> #[trigger] t[k] != '\x1b',
    ensures
        ({
            let (s1, o1) = stream_feed(st, t);
            &&& !s1.in_ansi
            &&& s1.ansi.len() == 0
            &&& o1.len() + s1.line.len() == st.line.len() + t.len()
            &&& forall|k: int|
                0 <= k < t.len() && (#[trigger] t[k] == '\n' || t[k] == '\r') ==> st.line.len() + k
                    < o1.len() && o1[st.line.len() + k] == t[k]
        }),
    decreases t.len(),
{
    if t.len() > 0 {
        let init = t.drop_last();
        let c = t.last();
        let l = st.line.len() as int;
        assert forall|k: int| 0 <= k < init.len() implies #[trigger] init[k] != '\x1b' by {
            assert(init[k] == t[k]);
        }
        lemma_stream_keeps_breaks(st, init);
        let (s1, o1) = stream_feed(st, init);
        let (s2, o2) = stream_step(s1, c);
        assert(stream_feed(st, t) == (s2, o1 + o2));
        lemma_flushed_line_len(s1.line);
        assert(c != '\x1b');
        assert forall|k: int|
            0 <= k < t.len() && (#[trigger] t[k] == '\n' || t[k] == '\r') implies l + k < (o1
            + o2).len() && (o1 + o2)[l + k] == t[k] by {
            if k < init.len() {
                assert(init[k] == t[k]);
            } else {
                assert(k == init.len());
                assert(o2 == flushed_line(s1.line).push(c));
            }
        }
    }
}

/// Nothing is lost by the stream: valid UTF-8 without escape sequences, read
/// whole and then flushed, comes out with as many characters as it decodes
/// to, and every line break (`\n` or `\r`) stands at its own index.
pub proof fn law_stream_keeps_line_breaks(d: Seq<u8>)
    requires
        valid_utf8(d),
        forall|k: int| 0 <= k < decode_utf8(d).len() ==> #[trigger] decode_utf8(d)[k] != '\x1b',
    ensures
        ({
            let t = decode_utf8(d);
            let (s1, o1) = stream_bytes(initial_stream_state(), d);
            let (s2, o2) = stream_flush(s1);
            &&& (o1 + o2).len() == t.len()
            &&& forall|k: int|
                0 <= k < t.len() && (#[trigger] t[k] == '\n' || t[k] == '\r') ==> (o1 + o2)[k]
                    == t[k]
        }),
{
    let st = initial_stream_state();
    assert(st.pending + d =~= d);
    assert(without_pending(st) =~= st);
    let t = decode_utf8(d);
    lemma_stream_keeps_breaks(st, t);
    let (s1, o1) = stream_feed(st, t);
    lemma_flushed_line_len(s1.line);
}

impl StreamProcessor {
    /// A processor with nothing buffered.
    pub fn new() -> (r: Self)
        ensures
            r@ == initial_stream_state(),
    {
        StreamProcessor {
            utf8_buffer: Vec::new(),
            utf8_buffer_alone: false,
            line_buffer: String::new(),
            in_ansi_sequence: false,
            ansi_buffer: String::new(),
        }
    }

    /// Feeds raw output bytes and returns what is ready to be written.
    pub fn process_bytes(&mut self, data: &[u8]) -> (r: String)
        ensures
            (final(self)@, r@) == stream_bytes(old(self)@, data@),
    {
        let alone = self.utf8_buffer_alone;
        let pending_len = self.utf8_buffer.len();
        let mut all_bytes: Vec<u8> = Vec::new();
        all_bytes.extend_from_slice(self.utf8_buffer.as_slice());
        all_bytes.extend_from_slice(data);
        self.utf8_buffer.clear();
        self.utf8_buffer_alone = false;
        proof {
            assert(all_bytes@ =~= old(self)@.pending + data@);
            assert(self@ =~= without_pending(old(self)@));
            lemma_stream_bytes_cleared(self@, all_bytes@);
            lemma_stream_bytes_cleared(self@, data@);
            assert(self@.pending + all_bytes@ =~= all_bytes@);
        }
        if alone && pending_len > 0 {
            match str_from_utf8(all_bytes.as_slice()) {
                Ok(_) => {},
                Err(valid_up_to) => {
                    if valid_up_to == 0 && !is_incomplete_char(all_bytes.as_slice()) {
                        return self.process_unpending(data);
                    }
                },
            }
        }
        self.process_unpending(all_bytes.as_slice())
    }

    /// Feeds raw bytes when nothing is pending.
    fn process_unpending(&mut self, all: &[u8]) -> (r: String)
        requires
            old(self)@.pending.len() == 0,
            !old(self)@.pending_alone,
        ensures
            (final(self)@, r@) == stream_bytes(old(self)@, all@),
    {
        proof {
            assert(old(self)@.pending + all@ =~= all@);
            assert(without_pending(old(self)@) =~= old(self)@);
        }
        match str_from_utf8(all) {
            Ok(text) => self.process_text(text),
            Err(valid_up_to) => {
                proof {
                    lemma_valid_prefix_len(all@);
                }
                if valid_up_to == 0 && is_incomplete_char(all) {
                    self.utf8_buffer = slice_to_vec(all);
                    self.utf8_buffer_alone = true;
                    return String::new();
                }
                let remaining = all.len() - valid_up_to;
                let valid = slice_subrange(all, 0, valid_up_to);
                assert(valid@ =~= all@.take(valid_up_to as int));
                match str_from_utf8(valid) {
                    Ok(valid_text) => {
                        let r = self.process_text(valid_text);
                        if remaining <= 4 && valid_up_to > 0 {
                            self.utf8_buffer = slice_to_vec(slice_subrange(all, valid_up_to, all.len()));
                            proof {
                                lemma_stream_feed_pending(
                                    old(self)@,
                                    decode_utf8(all@.take(valid_up_to as int)),
                                );
                                assert(all@.subrange(valid_up_to as int, all@.len() as int)
                                    =~= all@.skip(valid_up_to as int));
                                assert(self@ =~= stream_bytes(old(self)@, all@).0);
                            }
                        }
                        r
                    },
                    Err(_) => String::new(),
                }
            },
        }
    }

    /// Feeds decoded characters and returns what is ready to be written.
    fn process_text(&mut self, text: &str) -> (r: String)
        ensures
            (final(self)@, r@) == stream_feed(old(self)@, text@),
            final(self)@.pending == old(self)@.pending,
    {
        let chars = chars_of(text);
        let ghost s = text@;
        let ghost st0 = self@;
        let mut result = String::new();
        for i in 0..chars.len()
            invariant
                chars@ == s,
                (self@, result@) == stream_feed(st0, s.take(i as int)),
                self@.pending == st0.pending,
        {
            assert(s.take(i + 1).drop_last() =~= s.take(i as int));
            let ghost prev = self@;
            let ghost prev_out = result@;
            let ch = chars[i];
            if ch == '\n' || ch == '\r' {
                if !self.line_buffer.as_str().is_empty() {
                    let processed = process_buffer(self.line_buffer.as_str());
                    result.append(processed.as_str());
                    self.line_buffer = String::new();
                }
                push_char(&mut result, ch);
            } else if self.in_ansi_sequence {
                push_char(&mut self.ansi_buffer, ch);
                if is_ascii_alphabetic(ch) {
                    result.append(self.ansi_buffer.as_str());
                    self.ansi_buffer = String::new();
                    self.in_ansi_sequence = false;
                }
            } else if ch == '\x1b' {
                if !self.line_buffer.as_str().is_empty() {
                    let processed = process_buffer(self.line_buffer.as_str());
                    result.append(processed.as_str());
                    self.line_buffer = String::new();
                }
                self.in_ansi_sequence = true;
                push_char(&mut self.ansi_buffer, ch);
            } else {
                push_char(&mut self.line_buffer, ch);
            }
            proof {
                let (es, eo) = stream_step(prev, ch);
                assert(self@ =~= es);
                assert(result@ =~= prev_out + eo);
            }
        }
        assert(s.take(chars.len() as int) =~= s);
        result
    }

    /// Writes out whatever is still buffered.
    pub fn flush(&mut self) -> (r: String)
        ensures
            (final(self)@, r@) == stream_flush(old(self)@),
    {
        let mut result = String::new();
        if !self.line_buffer.as_str().is_empty() {
            let processed = process_buffer(self.line_buffer.as_str());
            result.append(processed.as_str());
            self.line_buffer = String::new();
        }
        if !self.ansi_buffer.as_str().is_empty() {
            result.append(self.ansi_buffer.as_str());
            self.ansi_buffer = String::new();
            self.in_ansi_sequence = false;
        }
        proof {
            let (es, eo) = stream_flush(old(self)@);
            assert(self@ =~= es);
            assert(result@ =~= eo);
        }
        result
    }
}

} // verus!
