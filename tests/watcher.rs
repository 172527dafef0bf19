use rtail::file::{new, OpenError};
use rtail::output::Line;
use rtail::strategy::FileReadStrategy;
use rtail::watcher::{Next, TailOption};

fn from(file: &str, content: &[u8]) -> Line {
    Line { from_file: Some(file.to_string()), content: content.to_vec() }
}

/// One poll of `to` over a file whose bytes are `data`.
fn poll_on(to: &mut TailOption, data: &[u8]) -> (Vec<Line>, Next) {
    let start = to.start_position(data.len());
    let mut f = new(to.file.clone());
    let opened = f.prepare(start, Ok(data.to_vec()));
    to.poll(&mut f, opened, Some(data.len() as u64))
}

#[test]
fn truncated_file_restarts_from_zero() {
    let mut to = TailOption::new("log".to_string(), FileReadStrategy::LastLines(10), true, true, 1000, 5);
    let (lines, next) = poll_on(&mut to, b"1\n2\n3\n4\n5\n");
    assert_eq!(lines, vec![from("log", b"1\n2\n3\n4\n5\n")]);
    assert_eq!(next, Next::Sleep);
    assert_eq!(to.read_strategy, FileReadStrategy::FromLine(5));
    let (lines, next) = poll_on(&mut to, b"new\n");
    assert_eq!(lines, vec![]);
    assert_eq!(next, Next::Reopen);
    assert_eq!(to.read_strategy, FileReadStrategy::FromLine(0));
    let (lines, next) = poll_on(&mut to, b"new\n");
    assert_eq!(lines, vec![from("log", b"new\n")]);
    assert_eq!(next, Next::Sleep);
    assert_eq!(to.read_strategy, FileReadStrategy::FromLine(1));
}

#[test]
fn growing_file_is_read_incrementally_by_lines() {
    let mut to = TailOption::new("g".to_string(), FileReadStrategy::LastLines(1), true, false, 10, 5);
    let (lines, _) = poll_on(&mut to, b"a\nb\n");
    assert_eq!(lines, vec![from("g", b"b\n")]);
    let (lines, next) = poll_on(&mut to, b"a\nb\n");
    assert_eq!(lines, vec![]);
    assert_eq!(next, Next::Sleep);
    let (lines, _) = poll_on(&mut to, b"a\nb\nc\nd\n");
    assert_eq!(lines, vec![from("g", b"c\n"), from("g", b"d\n")]);
    assert_eq!(to.read_strategy, FileReadStrategy::FromLine(4));
}

#[test]
fn from_byte_emits_each_byte() {
    let mut to = TailOption::new("b".to_string(), FileReadStrategy::FromByte(2), true, false, 10, 5);
    let (lines, _) = poll_on(&mut to, b"abcdef");
    assert_eq!(lines, vec![from("b", b"c"), from("b", b"d"), from("b", b"e"), from("b", b"f")]);
    assert_eq!(to.read_strategy, FileReadStrategy::FromByte(6));
    let (lines, _) = poll_on(&mut to, b"abcdefgh");
    assert_eq!(lines, vec![from("b", b"g"), from("b", b"h")]);
}

#[test]
fn last_bytes_then_follows_from_the_end() {
    let mut to = TailOption::new("t".to_string(), FileReadStrategy::LastBytes(3), true, false, 10, 5);
    assert_eq!(to.start_position(6), 3);
    assert_eq!(to.start_position(2), 0);
    let (lines, _) = poll_on(&mut to, b"abcdef");
    assert_eq!(lines, vec![from("t", b"def")]);
    assert_eq!(to.read_strategy, FileReadStrategy::FromByte(6));
    let (lines, _) = poll_on(&mut to, b"abcdefg");
    assert_eq!(lines, vec![from("t", b"g")]);
}

#[test]
fn start_position_for_from_byte() {
    let to = TailOption::new("s".to_string(), FileReadStrategy::FromByte(10), false, false, 10, 5);
    assert_eq!(to.start_position(4), 4);
    assert_eq!(to.start_position(40), 10);
    let lines = TailOption::new("s".to_string(), FileReadStrategy::FromLine(10), false, false, 10, 5);
    assert_eq!(lines.start_position(40), 0);
}

#[test]
fn open_failure_reported_once_per_streak() {
    let mut to = TailOption::new("nope".to_string(), FileReadStrategy::LastLines(10), true, true, 10, 5);
    let mut f = new("nope".to_string());
    let (lines, next) = to.poll(&mut f, Err(OpenError::NotFound), None);
    assert_eq!(
        lines,
        vec![Line {
            from_file: None,
            content: b"tail cannot open 'nope' for reading: No such file or directory\n".to_vec()
        }]
    );
    assert_eq!(next, Next::Sleep);
    let (lines, next) = to.poll(&mut f, Err(OpenError::NotFound), None);
    assert_eq!(lines, vec![]);
    assert_eq!(next, Next::Sleep);
    let (lines, _) = poll_on(&mut to, b"x\n");
    assert_eq!(lines, vec![from("nope", b"x\n")]);
    let mut f = new("nope".to_string());
    let (lines, _) = to.poll(&mut f, Err(OpenError::PermissionDenied), None);
    assert_eq!(lines.len(), 1);
}

#[test]
fn open_failure_without_retry_closes() {
    let mut to = TailOption::new("d".to_string(), FileReadStrategy::LastLines(10), false, false, 10, 5);
    let mut f = new("d".to_string());
    let (lines, next) = to.poll(&mut f, Err(OpenError::IsDirectory), None);
    assert_eq!(lines[0].content, b"tail cannot open 'd' for reading: Is a directory\n".to_vec());
    assert_eq!(next, Next::Close);
}

#[test]
fn unreadable_size_reads_nothing() {
    let mut to = TailOption::new("u".to_string(), FileReadStrategy::LastLines(10), true, false, 10, 5);
    let mut f = new("u".to_string());
    let opened = f.prepare(0, Ok(b"a\n".to_vec()));
    let (lines, next) = to.poll(&mut f, opened, None);
    assert_eq!(lines, vec![]);
    assert_eq!(next, Next::Sleep);
    assert_eq!(to.last_file_size, 0);
}

#[test]
fn stdin_is_read_once_and_closed() {
    let mut to = TailOption::new("-".to_string(), FileReadStrategy::LastLines(1), true, true, 10, 5);
    let notice = to.stdin_notice().unwrap();
    assert_eq!(notice.from_file, None);
    assert_eq!(
        notice.content,
        b"tail: warning: following standard input indefinitely is ineffective\n".to_vec()
    );
    let mut f = new("-".to_string());
    let opened = f.prepare(0, Ok(b"p\nq\n".to_vec()));
    let (lines, next) = to.poll(&mut f, opened, None);
    assert_eq!(lines, vec![from("-", b"q\n")]);
    assert_eq!(next, Next::Close);
    let other = TailOption::new("f".to_string(), FileReadStrategy::LastLines(1), true, true, 10, 5);
    assert!(other.stdin_notice().is_none());
}

#[test]
fn invalid_strategy_reads_nothing() {
    let mut to = TailOption::new(
        "v".to_string(),
        FileReadStrategy::Invalid("x: invalid number of bytes".to_string()),
        false,
        false,
        10,
        5,
    );
    let (lines, next) = poll_on(&mut to, b"a\n");
    assert_eq!(lines, vec![]);
    assert_eq!(next, Next::Close);
}

#[test]
fn without_follow_files_run_one_after_another() {
    let mut out: Vec<Line> = Vec::new();
    for (name, data) in [("one", &b"a\nb\n"[..]), ("two", &b"c\n"[..])] {
        let mut to = TailOption::new(name.to_string(), FileReadStrategy::FromLine(0), false, false, 10, 5);
        let (lines, next) = poll_on(&mut to, data);
        assert_eq!(next, Next::Close);
        out.extend(lines);
    }
    assert_eq!(out, vec![from("one", b"a\n"), from("one", b"b\n"), from("two", b"c\n")]);
}

#[test]
fn directory_is_never_retried() {
    let mut to = TailOption::new("d".to_string(), FileReadStrategy::LastLines(10), true, true, 10, 5);
    let mut f = new("d".to_string());
    let (lines, next) = to.poll(&mut f, Err(OpenError::IsDirectory), None);
    assert_eq!(lines.len(), 1);
    assert_eq!(next, Next::Close);
}

#[test]
fn retry_without_follow_gives_up() {
    let mut to = TailOption::new("m".to_string(), FileReadStrategy::LastLines(10), false, true, 10, 5);
    let mut f = new("m".to_string());
    let (lines, next) = to.poll(&mut f, Err(OpenError::NotFound), None);
    assert_eq!(lines.len(), 1);
    assert_eq!(next, Next::Close);
}
