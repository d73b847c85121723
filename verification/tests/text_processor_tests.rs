use farsi_shell::bidi::reorder_line;
use farsi_shell::reshaper::reshape_line;
use farsi_shell::text_processor::{
    process_buffer, process_lines, split_ansi_sequences, StreamProcessor, TextChunk,
};

#[test]
fn test_split_ansi_sequences() {
    let input = "\x1b[31mHello\x1b[0m World";
    let chunks = split_ansi_sequences(input);
    assert_eq!(chunks.len(), 4);
    assert!(matches!(chunks[0], TextChunk::AnsiSequence(_)));
    assert!(matches!(chunks[1], TextChunk::Text(_)));
    assert!(matches!(chunks[2], TextChunk::AnsiSequence(_)));
    assert!(matches!(chunks[3], TextChunk::Text(_)));
}

#[test]
fn test_process_buffer_no_arabic() {
    let input = "Hello World 123";
    assert_eq!(process_buffer(input), input);
}

#[test]
fn test_process_buffer_with_arabic() {
    let input = "سلام";
    let result = process_buffer(input);
    assert_ne!(result, input);
}

#[test]
fn test_stream_processor() {
    let mut processor = StreamProcessor::new();
    let result1 = processor.process_bytes(b"Hello ");
    let result2 = processor.process_bytes("سلام\n".as_bytes());
    let combined = result1 + &result2;
    assert!(!combined.is_empty());
    assert!(combined.contains('\n'));
}

#[test]
fn test_ansi_preserved() {
    let input = "\x1b[31mسلام\x1b[0m";
    let result = process_buffer(input);
    assert!(result.contains("\x1b[31m"));
    assert!(result.contains("\x1b[0m"));
}

#[test]
fn test_split_osc_sequence() {
    let input = "\x1b]0;title\x07Hello";
    let chunks = split_ansi_sequences(input);
    assert!(matches!(chunks[0], TextChunk::AnsiSequence(_)));
    assert!(matches!(chunks[1], TextChunk::Text(_)));
}

fn chunk_strings(chunks: &[TextChunk]) -> Vec<(bool, String)> {
    chunks
        .iter()
        .map(|c| match c {
            TextChunk::AnsiSequence(s) => (true, s.clone()),
            TextChunk::Text(s) => (false, s.clone()),
        })
        .collect()
}

#[test]
fn split_exact_chunks() {
    let chunks = split_ansi_sequences("\x1b[31mHello\x1b[0m World");
    assert_eq!(
        chunk_strings(&chunks),
        vec![
            (true, "\x1b[31m".to_string()),
            (false, "Hello".to_string()),
            (true, "\x1b[0m".to_string()),
            (false, " World".to_string()),
        ]
    );
    // an OSC ended by ESC takes the following backslash
    let chunks = split_ansi_sequences("\x1b]0;t\x1b\\x");
    assert_eq!(
        chunk_strings(&chunks),
        vec![(true, "\x1b]0;t\x1b\\".to_string()), (false, "x".to_string())]
    );
    // a two-character escape and a lone ESC at the end
    let chunks = split_ansi_sequences("a\x1b7b\x1b");
    assert_eq!(
        chunk_strings(&chunks),
        vec![
            (false, "a".to_string()),
            (true, "\x1b7".to_string()),
            (false, "b".to_string()),
            (true, "\x1b".to_string()),
        ]
    );
    // an unterminated control sequence runs to the end
    let chunks = split_ansi_sequences("\x1b[12;3");
    assert_eq!(chunk_strings(&chunks), vec![(true, "\x1b[12;3".to_string())]);
    assert!(split_ansi_sequences("").is_empty());
}

#[test]
fn split_is_lossless() {
    for s in ["\x1b[31mHello\x1b[0m World", "\x1b]0;t\x07x\x1b", "plain", "\x1b[1;2"] {
        let joined: String = chunk_strings(&split_ansi_sequences(s)).into_iter().map(|(_, t)| t).collect();
        assert_eq!(joined, s);
    }
}

#[test]
fn process_buffer_exact_values() {
    assert_eq!(process_buffer("سلام"), "\u{FEE1}\u{FE8E}\u{FEE0}\u{FEB3}");
    assert_eq!(process_buffer("\x1b[31mسلام\x1b[0m"), "\x1b[31m\u{FEE1}\u{FE8E}\u{FEE0}\u{FEB3}\x1b[0m");
    assert_eq!(
        process_buffer("Hello سلام World"),
        "Hello \u{FEE1}\u{FE8E}\u{FEE0}\u{FEB3} World"
    );
}

#[test]
fn process_buffer_keeps_length() {
    for s in ["Hello سلام World", "\x1b[1mبَب\x1b[0m x", "1 ج. د 2"] {
        assert_eq!(process_buffer(s).chars().count(), s.chars().count());
    }
}

#[test]
fn process_lines_per_line() {
    assert_eq!(process_lines("ab\nسلام\n"), "ab\n\u{FEE1}\u{FE8E}\u{FEE0}\u{FEB3}\n");
    assert_eq!(process_lines(""), "");
    assert_eq!(process_lines("\n\n"), "\n\n");
}

#[test]
fn stream_processor_exact_output() {
    let mut p = StreamProcessor::new();
    assert_eq!(p.process_bytes(b"Hello "), "");
    assert_eq!(
        p.process_bytes("سلام\n".as_bytes()),
        "Hello \u{FEE1}\u{FE8E}\u{FEE0}\u{FEB3}\n"
    );
    assert_eq!(p.flush(), "");
}

#[test]
fn stream_processor_keeps_split_utf8() {
    let mut p = StreamProcessor::new();
    // 'س' is D8 B3; the lead byte is kept for the next call
    assert_eq!(p.process_bytes(&[b'a', 0xD8]), "");
    assert_eq!(p.process_bytes(&[0xB3, b'\n']), "a\u{FEB1}\n");
}

#[test]
fn stream_processor_keeps_split_utf8_at_read_start() {
    let mut p = StreamProcessor::new();
    // a read holding only the lead byte of 'س' keeps it for the next read
    assert_eq!(p.process_bytes(&[0xD8]), "");
    assert_eq!(p.process_bytes(&[0xB3, 0x0A]), "\u{FEB1}\n");
}

#[test]
fn stream_processor_drops_a_lead_byte_that_is_not_continued() {
    let mut p = StreamProcessor::new();
    // the lead byte is kept, but the next read does not continue it: the
    // lead byte is dropped and the next read is handled on its own
    assert_eq!(p.process_bytes(&[0xD8]), "");
    assert_eq!(p.process_bytes(b"x\n"), "x\n");
}

#[test]
fn stream_processor_drops_a_long_invalid_tail() {
    let mut p = StreamProcessor::new();
    // more than four bytes after the valid prefix: they are dropped
    assert_eq!(p.process_bytes(&[b'a', 0xFF, 0xFE, b'b', 0x80, b'c', b'\n']), "");
    // nothing valid at the start and no character cut short: all is dropped
    assert_eq!(p.process_bytes(&[0xFF, b'h', b'e', b'l', b'l', b'o', b'\n']), "");
    assert_eq!(p.flush(), "a");
}

#[test]
fn stream_processor_keeps_a_short_tail_after_valid_text() {
    let mut p = StreamProcessor::new();
    // at most four bytes after the valid prefix are kept, whatever they hold
    assert_eq!(p.process_bytes(&[b'a', 0xFF]), "");
    // with the kept byte in front, nothing is valid: the whole read is dropped
    assert_eq!(p.process_bytes(b"\n"), "");
    assert_eq!(p.flush(), "a");
}

#[test]
fn stream_processor_escape_sequences() {
    let mut p = StreamProcessor::new();
    assert_eq!(p.process_bytes(b"ab\x1b[31"), "ab");
    assert_eq!(p.process_bytes(b"mcd"), "\x1b[31m");
    assert_eq!(p.flush(), "cd");
    assert_eq!(p.process_bytes(b"\x1b[2"), "");
    assert_eq!(p.flush(), "\x1b[2");
    assert_eq!(p.flush(), "");
}

#[test]
fn stream_chunking_does_not_matter() {
    let text = "ab سلام\x1b[1mcd\nxy";
    let mut whole = StreamProcessor::new();
    let mut out_whole = whole.process_bytes(text.as_bytes());
    out_whole.push_str(&whole.flush());
    let mut parts = StreamProcessor::new();
    // cut inside the two bytes of 'س'
    let (a, b) = text.as_bytes().split_at(4);
    let mut out_parts = parts.process_bytes(a);
    out_parts.push_str(&parts.process_bytes(b));
    out_parts.push_str(&parts.flush());
    assert_eq!(out_whole, out_parts);
}

#[test]
fn buffer_is_processed_chunk_by_chunk() {
    let input = "ab \x1b[1mسلام دنیا\x1b[0m cd";
    let mut expected = String::from("ab ");
    expected.push_str("\x1b[1m");
    expected.push_str(&reorder_line(&reshape_line("سلام دنیا")));
    expected.push_str("\x1b[0m");
    expected.push_str(" cd");
    assert_eq!(process_buffer(input), expected);
}

#[test]
fn lines_split_at_break() {
    let a = "x سلام";
    let b = "دنیا y\nz";
    let joined = format!("{}\n{}", a, b);
    assert_eq!(process_lines(&joined), format!("{}\n{}", process_lines(a), process_lines(b)));
    assert_eq!(process_lines(a), process_buffer(a));
}

#[test]
fn stream_then_flush_is_line_by_line() {
    let text = "سلام world\n\nab دنیا\nend";
    let mut p = StreamProcessor::new();
    let mut out = p.process_bytes(text.as_bytes());
    out.push_str(&p.flush());
    assert_eq!(out, process_lines(text));
}
