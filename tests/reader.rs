use rtail::file::{new, FileDetail, OpenError};

fn opened(path: &str, start: usize, data: &[u8]) -> FileDetail {
    let mut f = new(path.to_string());
    assert_eq!(f.prepare(start, Ok(data.to_vec())), Ok(()));
    f
}

#[test]
fn read_line_keeps_terminator() {
    let mut f = opened("a.txt", 0, b"one\ntwo\nthree");
    assert_eq!(f.read_line(), Some("one\n".to_string()));
    assert_eq!(f.buffer_position(), 4);
    assert_eq!(f.read_line(), Some("two\n".to_string()));
    assert_eq!(f.read_line(), Some("three".to_string()));
    assert_eq!(f.read_line(), None);
    assert_eq!(f.buffer_position(), 13);
    assert!(f.is_text());
}

#[test]
fn non_text_line_switches_to_binary_mode() {
    let mut f = opened("b.bin", 0, b"ok\n\xff\xfe\nlater\n");
    assert_eq!(f.read_line(), Some("ok\n".to_string()));
    assert_eq!(f.read_line(), None);
    assert!(!f.is_text());
    assert_eq!(f.buffer_position(), 6);
    assert_eq!(f.read_line(), None);
    assert_eq!(f.read_chunk(10), Some(b"later\n".to_vec()));
}

#[test]
fn read_chunk_gives_at_most_n_bytes() {
    let mut f = opened("c", 0, b"abcdef");
    assert_eq!(f.read_chunk(4), Some(b"abcd".to_vec()));
    assert_eq!(f.read_chunk(4), Some(b"ef".to_vec()));
    assert_eq!(f.read_chunk(4), None);
    assert_eq!(f.read_chunk(0), None);
}

#[test]
fn prepare_seeks_and_clamps() {
    let mut f = opened("d", 3, b"abcdef");
    assert_eq!(f.buffer_position(), 3);
    assert_eq!(f.read_chunk(10), Some(b"def".to_vec()));
    let mut g = opened("d", 100, b"abc");
    assert_eq!(g.buffer_position(), 3);
    assert_eq!(g.read_chunk(1), None);
}

#[test]
fn prepare_on_stdin_ignores_offset() {
    let mut f = opened("-", 3, b"abcdef");
    assert!(f.is_stdin());
    assert_eq!(f.buffer_position(), 0);
    assert_eq!(f.read_chunk(2), Some(b"ab".to_vec()));
}

#[test]
fn prepare_error_is_passed_on() {
    let mut f = new("dir".to_string());
    assert_eq!(f.prepare(0, Err(OpenError::IsDirectory)), Err(OpenError::IsDirectory));
    let mut g = new("gone".to_string());
    assert_eq!(g.prepare(0, Err(OpenError::NotFound)), Err(OpenError::NotFound));
    assert_eq!(g.read_line(), None);
    assert_eq!(g.path(), "gone".to_string());
    assert!(!g.is_stdin());
}

#[test]
fn walk_skips_bytes_and_lines() {
    let mut f = opened("e", 0, b"l1\nl2\nl3\n");
    f.walk_buffer_lines(2);
    assert_eq!(f.read_line(), Some("l3\n".to_string()));
    let mut g = opened("e", 0, b"l1\nl2\nl3\n");
    g.walk_buffer_bytes(4);
    assert_eq!(g.read_line(), Some("2\n".to_string()));
    g.walk_buffer_lines(50);
    assert_eq!(g.read_line(), None);
}

#[test]
fn walk_is_nothing_on_stdin() {
    let mut f = opened("-", 0, b"l1\nl2\n");
    f.walk_buffer_lines(1);
    f.walk_buffer_bytes(1);
    assert_eq!(f.read_line(), Some("l1\n".to_string()));
}

#[test]
fn last_lines_with_room_for_all() {
    let mut f = opened("f", 0, b"1\n2\n3\n");
    let (n, lines) = f.last_lines(5);
    assert_eq!(n, 3);
    assert_eq!(lines, vec!["1\n".to_string(), "2\n".to_string(), "3\n".to_string()]);
    let mut g = opened("f", 0, b"1\n2\n3\n");
    let (n, lines) = g.last_lines(3);
    assert_eq!(n, 3);
    assert_eq!(lines.len(), 3);
}

#[test]
fn last_lines_keeps_the_last_k() {
    let mut f = opened("g", 0, b"a\nb\nc\nd\ne\n");
    let (n, lines) = f.last_lines(2);
    assert_eq!(n, 5);
    assert_eq!(lines, vec!["d\n".to_string(), "e\n".to_string()]);
    assert_eq!(f.read_line(), None);
}

#[test]
fn last_lines_zero_and_empty() {
    let mut f = opened("h", 0, b"a\nb\n");
    assert_eq!(f.last_lines(0), (2, vec![]));
    let mut g = opened("h", 0, b"");
    assert_eq!(g.last_lines(10), (0, vec![]));
}

#[test]
fn last_bytes_window() {
    let mut f = opened("i", 0, b"hello world");
    assert_eq!(f.last_bytes(5), (11, b"world".to_vec()));
    assert_eq!(f.buffer_position(), 11);
    let mut g = opened("i", 0, b"abc");
    assert_eq!(g.last_bytes(10), (3, b"abc".to_vec()));
    let mut h = opened("i", 0, b"abc");
    assert_eq!(h.last_bytes(0), (3, vec![]));
}
