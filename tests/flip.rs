use flip::lines::{flip_line, flip_text, split_lines, LineError, LineReverser};
use flip::reader::{MultiReader, Step};
use flip::reverse::{join_reversed, reverse_line};

/// Reads the whole stream of in-memory sources through a `MultiReader`,
/// with each source handing out at most `chunk` bytes per read.
fn read_all(sources: &[&[u8]], capacity: usize, chunk: usize) -> Vec<u8> {
    let mut positions = vec![0usize; sources.len()];
    let mut reader = MultiReader::new(sources.len());
    let mut out = Vec::new();
    let mut buf = vec![0u8; capacity];
    let mut calls = 0;
    loop {
        let mut filled = 0;
        let written = loop {
            match reader.next_step(filled, capacity) {
                Step::Done { written } => break written,
                Step::Read { source, offset } => {
                    let data = sources[source];
                    let pos = positions[source];
                    let n = (data.len() - pos).min(capacity - offset).min(chunk);
                    buf[offset..offset + n].copy_from_slice(&data[pos..pos + n]);
                    positions[source] += n;
                    filled += n;
                    reader.record_read(n);
                }
            }
        };
        out.extend_from_slice(&buf[..written]);
        calls += 1;
        assert!(calls < 100_000);
        if written == 0 && capacity > 0 {
            return out;
        }
        if capacity == 0 {
            return out;
        }
    }
}

fn flipped(input: &[u8]) -> Vec<String> {
    let r = flip_text(input);
    assert_eq!(r.error, None);
    r.lines
}

#[test]
fn scenario_single_line_without_terminator() {
    assert_eq!(flipped(b"abc"), vec!["cba\n".to_string()]);
}

#[test]
fn scenario_two_lines_last_unterminated() {
    assert_eq!(flipped(b"hello\nworld"), vec!["olleh\n".to_string(), "dlrow\n".to_string()]);
}

#[test]
fn scenario_two_files_concatenated() {
    let stream = read_all(&[b"foo\n", b"bar\n"], 4096, 4096);
    assert_eq!(stream, b"foo\nbar\n".to_vec());
    assert_eq!(flipped(&stream).concat(), "oof\nrab\n");
}

#[test]
fn scenario_empty_input() {
    let r = flip_text(b"");
    assert!(r.lines.is_empty());
    assert_eq!(r.error, None);
    assert_eq!(read_all(&[], 16, 16), Vec::<u8>::new());
}

#[test]
fn scenario_emoji_with_variation_selector() {
    let heart = "\u{2764}\u{FE0F}";
    assert_eq!(reverse_line(heart), heart);
    assert_eq!(flipped(heart.as_bytes()), vec![format!("{}\n", heart)]);
}

#[test]
fn concatenation_fidelity_any_buffer_size() {
    let sources: [&[u8]; 5] = [b"first line\nsec", b"", b"ond\n", b"x", b"\nlast"];
    let whole: Vec<u8> = sources.concat();
    for capacity in [1usize, 4, 4096, whole.len() + 10] {
        for chunk in [1usize, 3, 4096] {
            assert_eq!(read_all(&sources, capacity, chunk), whole);
        }
    }
}

#[test]
fn read_spans_source_boundary() {
    let mut reader = MultiReader::new(2);
    assert_eq!(reader.next_step(0, 4), Step::Read { source: 0, offset: 0 });
    reader.record_read(2);
    assert_eq!(reader.next_step(2, 4), Step::Read { source: 0, offset: 2 });
    reader.record_read(0);
    assert_eq!(reader.current(), 1);
    assert_eq!(reader.next_step(2, 4), Step::Read { source: 1, offset: 2 });
    reader.record_read(2);
    assert_eq!(reader.next_step(4, 4), Step::Done { written: 4 });
}

#[test]
fn zero_capacity_read_writes_nothing() {
    let reader = MultiReader::new(3);
    assert_eq!(reader.next_step(0, 0), Step::Done { written: 0 });
    assert_eq!(reader.current(), 0);
}

#[test]
fn exhaustion_is_final() {
    let mut reader = MultiReader::new(1);
    reader.record_read(0);
    assert!(reader.is_exhausted());
    for capacity in [1usize, 4, 4096] {
        assert_eq!(reader.next_step(0, capacity), Step::Done { written: 0 });
    }
    let none = MultiReader::new(0);
    assert!(none.is_exhausted());
    assert_eq!(none.next_step(0, 8), Step::Done { written: 0 });
}

#[test]
fn reversal_twice_gives_back_the_line() {
    for line in ["abc", "a\u{310}e\u{301}o\u{308}\u{332}", "\u{1F1F7}\u{1F1FA}\u{1F1F8}\u{1F1F9}", ""] {
        assert_eq!(reverse_line(&reverse_line(line)), line);
    }
}

#[test]
fn combining_mark_stays_with_its_base() {
    assert_eq!(reverse_line("e\u{301}x"), "xe\u{301}");
    assert_eq!(reverse_line("a\u{310}e\u{301}o\u{308}\u{332}"), "o\u{308}\u{332}e\u{301}a\u{310}");
    assert_eq!(reverse_line("\u{301}\u{301}"), "\u{301}\u{301}");
}

#[test]
fn multibyte_characters_reverse_whole() {
    assert_eq!(reverse_line("żółw"), "włóż");
    assert_eq!(reverse_line("日本語"), "語本日");
}

#[test]
fn join_reversed_puts_last_first() {
    let clusters = vec!["a".to_string(), "e\u{301}".to_string(), "z".to_string()];
    assert_eq!(join_reversed(&clusters), "ze\u{301}a");
    assert_eq!(join_reversed(&Vec::new()), "");
}

#[test]
fn line_count_is_kept() {
    assert_eq!(flipped(b"a\n\nb").len(), 3);
    assert_eq!(flipped(b"\n"), vec!["\n".to_string()]);
    assert_eq!(flipped(b"\n\n"), vec!["\n".to_string(), "\n".to_string()]);
    assert_eq!(flipped(b"ab\ncd\n").len(), 2);
}

#[test]
fn carriage_return_is_dropped_before_terminator() {
    assert_eq!(flipped(b"ab\r\ncd"), vec!["ba\n".to_string(), "dc\n".to_string()]);
    assert_eq!(flip_line(b"ab\r\n"), Some("ba\n".to_string()));
    assert_eq!(flip_line(b"a\rb"), Some("b\ra\n".to_string()));
}

#[test]
fn invalid_text_stops_at_its_line() {
    let r = flip_text(b"ok\n\xff\nmore\n");
    assert_eq!(r.lines, vec!["ko\n".to_string()]);
    assert_eq!(r.error, Some(LineError { line: 2 }));
    let first = flip_text(b"\xc3");
    assert!(first.lines.is_empty());
    assert_eq!(first.error, Some(LineError { line: 1 }));
    assert_eq!(flip_line(b"\xff\n"), None);
}

#[test]
fn split_lines_keeps_empty_lines() {
    assert_eq!(split_lines(b"a\n\nbc"), vec![b"a".to_vec(), Vec::new(), b"bc".to_vec()]);
    assert_eq!(split_lines(b"x\n"), vec![b"x".to_vec()]);
    assert!(split_lines(b"").is_empty());
}

#[test]
fn engine_numbers_lines_and_halts() {
    let mut engine = LineReverser::new();
    assert_eq!(engine.feed(b"ab\n"), Ok("ba\n".to_string()));
    assert_eq!(engine.feed(b"\n"), Ok("\n".to_string()));
    assert_eq!(engine.lines_taken(), 2);
    assert!(!engine.is_halted());
    assert_eq!(engine.feed(b"\xfe"), Err(LineError { line: 3 }));
    assert!(engine.is_halted());

    let mut other = LineReverser::new();
    assert_eq!(other.feed(b"x"), Ok("x\n".to_string()));
    assert_eq!(other.read_failed(), LineError { line: 2 });
    assert!(other.is_halted());
}
