use crate::file::{
    FileDetail, OpenError, ReaderModel, advance, drained, is_stdin_path, last_n, lemma_line_end,
    skip_lines, text_lines, views,
};
use crate::output::{Line, line_view, lines_view, text_bytes};
use crate::strategy::FileReadStrategy;
use vstd::prelude::*;
use vstd::string::*;
use vstd::utf8::*;

verus! {

/// What the caller does after one poll.
#[derive(Debug, Clone, Copy, PartialEq, Eq, Structural)]
pub enum Next {
    /// Wait one interval, then poll again.
    Sleep,
    /// Poll again at once: the file shrank and is read anew from its start.
    Reopen,
    /// Stop watching this file.
    Close,
}

/// The verdict on a file's size before reading it.
#[derive(Debug, Clone, Copy, PartialEq, Eq, Structural)]
pub enum Guard {
    /// New content may be there: read it.
    Go,
    /// The size is the same, or unknown: nothing to read.
    Unchanged,
    /// The file got smaller: it was truncated or replaced.
    Shrunk,
}

/// The size check: its verdict and the size to remember.
pub open spec fn guard_spec(stdin: bool, last: u64, now: Option<u64>) -> (Guard, u64) {
    if stdin {
        (Guard::Go, last)
    } else {
        match now {
            None => (Guard::Unchanged, 0),
            Some(n) => if n < last {
                (Guard::Shrunk, 0)
            } else if n == last {
                (Guard::Unchanged, n)
            } else {
                (Guard::Go, n)
            },
        }
    }
}

/// Each byte as an output unit of its own.
pub open spec fn byte_units(b: Seq<u8>) -> Seq<Seq<u8>> {
    Seq::new(b.len(), |i: int| seq![b[i]])
}

pub open spec fn encoded(ls: Seq<Seq<char>>) -> Seq<Seq<u8>> {
    ls.map_values(|t: Seq<char>| encode_utf8(t))
}

/// The lines' bytes, one after the other.
pub open spec fn joined(ls: Seq<Seq<char>>) -> Seq<u8>
    decreases ls.len(),
{
    if ls.len() == 0 {
        seq![]
    } else {
        joined(ls.drop_last()) + encode_utf8(ls.last())
    }
}

/// Units of content, each tagged with the file they came from.
pub open spec fn tagged(file: Seq<char>, units: Seq<Seq<u8>>) -> Seq<(Option<Seq<char>>, Seq<u8>)> {
    units.map_values(|u: Seq<u8>| (Some(file), u))
}

/// What is left to read.
pub open spec fn rest(m: ReaderModel) -> Seq<u8> {
    m.data.subrange(m.cursor, m.data.len() as int)
}

/// The reader once `n` lines are skipped, which standard input cannot do.
pub open spec fn walked(m: ReaderModel, n: nat) -> ReaderModel {
    if is_stdin_path(m.path) {
        m
    } else {
        skip_lines(m, n)
    }
}

pub open spec fn error_text(e: OpenError) -> Seq<char> {
    match e {
        OpenError::IsDirectory => "Is a directory"@,
        OpenError::NotFound => "No such file or directory"@,
        OpenError::PermissionDenied => "Permission denied"@,
        OpenError::Other(s) => s@,
    }
}

/// The notice for a file that could not be opened.
pub open spec fn open_notice(file: Seq<char>, e: OpenError) -> Seq<char> {
    "tail cannot open '"@ + file + "' for reading: "@ + error_text(e) + "\n"@
}

/// The notice for following standard input.
pub open spec fn stdin_warning() -> Seq<char> {
    "tail: warning: following standard input indefinitely is ineffective\n"@
}

/// The strategy that reads again from the start, in the same unit.
pub open spec fn from_zero(s: FileReadStrategy) -> FileReadStrategy {
    match s {
        FileReadStrategy::FromByte(_) | FileReadStrategy::LastBytes(_) => FileReadStrategy::FromByte(0),
        _ => FileReadStrategy::FromLine(0),
    }
}

impl OpenError {
    /// The description printed after a failed open.
    pub fn message(&self) -> (r: String)
        ensures
            r@ == error_text(*self),
    {
        match self {
            OpenError::IsDirectory => String::from_str("Is a directory"),
            OpenError::NotFound => String::from_str("No such file or directory"),
            OpenError::PermissionDenied => String::from_str("Permission denied"),
            OpenError::Other(s) => s.clone(),
        }
    }
}

/// The state of watching one file.
#[derive(Debug)]
pub struct TailOption {
    pub read_strategy: FileReadStrategy,
    pub follow: bool,
    pub max_unchanged_stats: usize,
    pub retry: bool,
    /// Milliseconds between polls.
    pub sleep: u64,
    pub file: String,
    /// The size seen at the last poll that read the file's size.
    pub last_file_size: u64,
    /// Whether the next failure to open is reported.
    pub notify_error: bool,
}

/// Reads `f` byte by byte to its end, each byte a line of its own; gives
/// the lines and how many bytes were read.
fn stream_bytes(f: &mut FileDetail, file: &String) -> (r: (Vec<Line>, usize))
    requires
        old(f).wf(),
    ensures
        final(f).wf(),
        final(f)@ == advance(old(f)@, rest(old(f)@).len() as int),
        lines_view(r.0@) == tagged(file@, byte_units(rest(old(f)@))),
        r.1 == rest(old(f)@).len(),
{
    let ghost m0 = f@;
    let mut out: Vec<Line> = Vec::new();
    let mut count: usize = 0;
    loop
        invariant
            f.wf(),
            0 <= m0.cursor <= m0.data.len(),
            f@ == advance(m0, count as int),
            count == f@.cursor - m0.cursor,
            lines_view(out@) == tagged(file@, byte_units(m0.data.subrange(m0.cursor, f@.cursor))),
        ensures
            f@.cursor == f@.data.len(),
        decreases f@.data.len() - f@.cursor,
    {
        let ghost c = f@.cursor;
        let b = match f.read_chunk(1) {
            Some(b) => b,
            None => break,
        };
        proof {
            assert(f@ == advance(advance(m0, count as int), 1));
            assert(b@ =~= seq![m0.data[c]]);
        }
        let line = Line { from_file: Some(file.clone()), content: b };
        let ghost prev = out@;
        out.push(line);
        count = count + 1;
        proof {
            assert(lines_view(out@) =~= lines_view(prev).push(line_view(line)));
            assert(m0.data.subrange(m0.cursor, f@.cursor) =~= m0.data.subrange(m0.cursor, c).push(
                m0.data[c],
            ));
            assert(byte_units(m0.data.subrange(m0.cursor, f@.cursor)) =~= byte_units(
                m0.data.subrange(m0.cursor, c),
            ).push(seq![m0.data[c]]));
            assert(lines_view(out@) =~= tagged(
                file@,
                byte_units(m0.data.subrange(m0.cursor, f@.cursor)),
            ));
        }
    }
    assert(m0.data.subrange(m0.cursor, f@.cursor) =~= rest(m0));
    (out, count)
}

/// Reads `f` line by line to the first `None`; gives the lines and how many
/// there were.
fn stream_lines(f: &mut FileDetail, file: &String) -> (r: (Vec<Line>, usize))
    requires
        old(f).wf(),
    ensures
        final(f).wf(),
        final(f)@ == drained(old(f)@),
        lines_view(r.0@) == tagged(file@, encoded(text_lines(old(f)@))),
        r.1 == text_lines(old(f)@).len(),
{
    let ghost m0 = f@;
    let ghost mut seen: Seq<Seq<char>> = seq![];
    let ghost mut old_seen: Seq<Seq<char>> = seq![];
    let mut out: Vec<Line> = Vec::new();
    let mut count: usize = 0;
    loop
        invariant
            f.wf(),
            0 <= m0.cursor <= f@.cursor,
            m0.data == f@.data,
            text_lines(m0) == seen + text_lines(f@),
            drained(m0) == drained(f@),
            lines_view(out@) == tagged(file@, encoded(seen)),
            count == seen.len(),
            count <= f@.cursor - m0.cursor,
        ensures
            !f@.text || f@.cursor >= f@.data.len(),
        decreases f@.data.len() - f@.cursor,
    {
        let ghost before = f@;
        proof {
            if before.cursor < before.data.len() {
                lemma_line_end(before.data, before.cursor);
            }
        }
        let t = match f.read_line() {
            Some(t) => t,
            None => {
                assert(seen + text_lines(before) =~= seen);
                assert(text_lines(f@) =~= seq![]);
                break;
            },
        };
        assert(f@.cursor > before.cursor);
        proof {
            assert(seen + text_lines(before) =~= seen.push(t@) + text_lines(f@));
            old_seen = seen;
            seen = seen.push(t@);
        }
        let line = Line { from_file: Some(file.clone()), content: text_bytes(&t) };
        let ghost prev = out@;
        out.push(line);
        count = count + 1;
        proof {
            assert(lines_view(out@) =~= lines_view(prev).push(line_view(line)));
            assert(encoded(seen) =~= encoded(seen.drop_last()).push(encode_utf8(t@)));
            assert(seen.drop_last() =~= old_seen);
            assert(lines_view(out@) =~= tagged(file@, encoded(seen)));
        }
    }
    assert(text_lines(f@) =~= seq![]);
    assert(seen =~= text_lines(m0));
    assert(drained(f@) == f@);
    (out, count)
}

/// The lines' bytes, one after the other.
fn join_lines(ls: &Vec<String>) -> (r: Vec<u8>)
    ensures
        r@ == joined(views(ls@)),
{
    let mut out: Vec<u8> = Vec::new();
    let mut i: usize = 0;
    while i < ls.len()
        invariant
            i <= ls@.len(),
            out@ == joined(views(ls@).subrange(0, i as int)),
        decreases ls@.len() - i,
    {
        let mut b = text_bytes(&ls[i]);
        proof {
            let vs = views(ls@).subrange(0, i + 1);
            assert(vs.drop_last() =~= views(ls@).subrange(0, i as int));
        }
        out.append(&mut b);
        i = i + 1;
    }
    assert(views(ls@).subrange(0, i as int) =~= views(ls@));
    out
}

/// The notice for a file that could not be opened, as bytes.
fn open_notice_bytes(file: &String, e: &OpenError) -> (r: Vec<u8>)
    ensures
        r@ == encode_utf8(open_notice(file@, *e)),
{
    let text = String::from_str("tail cannot open '").concat(file.as_str()).concat(
        "' for reading: ",
    ).concat(e.message().as_str()).concat("\n");
    text_bytes(&text)
}

/// What follows a poll that read the file: polling again, or stopping.
pub open spec fn after_read(follow: bool) -> Next {
    if follow {
        Next::Sleep
    } else {
        Next::Close
    }
}

/// What follows a failed open: a directory never becomes readable, so it
/// is given up; otherwise the file is tried again after a wait only when
/// retrying while following.
pub open spec fn retry_after_failure(s: TailOption, e: OpenError) -> Next {
    if !(e is IsDirectory) && s.retry && s.follow {
        Next::Sleep
    } else {
        Next::Close
    }
}

/// One poll of a watched file, given whether opening it succeeded, the
/// reader opened on it, and its size now: the new watch state, the new
/// reader state, the lines to print, and what to do next.
pub open spec fn poll_spec(
    s: TailOption,
    m: ReaderModel,
    opened: Result<(), OpenError>,
    size_now: Option<u64>,
) -> (TailOption, ReaderModel, Seq<(Option<Seq<char>>, Seq<u8>)>, Next) {
    match opened {
        Err(e) => (
            TailOption { notify_error: false, ..s },
            m,
            if s.notify_error {
                seq![(None::<Seq<char>>, encode_utf8(open_notice(s.file@, e)))]
            } else {
                seq![]
            },
            retry_after_failure(s, e),
        ),
        Ok(_) => {
            let s1 = TailOption { notify_error: true, ..s };
            let stdin = is_stdin_path(m.path);
            let (g, last) = guard_spec(stdin, s.last_file_size, size_now);
            let s2 = TailOption { last_file_size: last, ..s1 };
            match s.read_strategy {
                FileReadStrategy::Invalid(_) => (s1, m, seq![], after_read(s.follow)),
                _ => if g == Guard::Unchanged {
                    (s2, m, seq![], after_read(s.follow))
                } else if g == Guard::Shrunk {
                    (
                        TailOption { read_strategy: from_zero(s.read_strategy), ..s2 },
                        m,
                        seq![],
                        Next::Reopen,
                    )
                } else {
                    match s.read_strategy {
                        FileReadStrategy::FromByte(v) => (
                            TailOption {
                                read_strategy: FileReadStrategy::FromByte(
                                    v.saturating_add(rest(m).len() as usize),
                                ),
                                ..s2
                            },
                            advance(m, rest(m).len() as int),
                            tagged(s.file@, byte_units(rest(m))),
                            after_read(s.follow),
                        ),
                        FileReadStrategy::LastBytes(v) => (
                            TailOption {
                                read_strategy: FileReadStrategy::FromByte(
                                    (m.pos + rest(m).len()) as usize,
                                ),
                                ..s2
                            },
                            advance(m, rest(m).len() as int),
                            seq![(Some(s.file@), last_n(rest(m), v as nat))],
                            after_read(s.follow),
                        ),
                        FileReadStrategy::LastLines(v) => (
                            TailOption {
                                read_strategy: FileReadStrategy::FromLine(
                                    text_lines(m).len() as usize,
                                ),
                                ..s2
                            },
                            drained(m),
                            seq![(Some(s.file@), joined(last_n(text_lines(m), v as nat)))],
                            if stdin {
                                Next::Close
                            } else {
                                after_read(s.follow)
                            },
                        ),
                        FileReadStrategy::FromLine(v) => {
                            let w = walked(m, v as nat);
                            let n = text_lines(w).len();
                            (
                                if stdin {
                                    s2
                                } else {
                                    TailOption {
                                        read_strategy: FileReadStrategy::FromLine(
                                            v.saturating_add(n as usize),
                                        ),
                                        ..s2
                                    }
                                },
                                drained(w),
                                tagged(s.file@, encoded(text_lines(w))),
                                if stdin {
                                    Next::Close
                                } else {
                                    after_read(s.follow)
                                },
                            )
                        },
                        FileReadStrategy::Invalid(_) => (s1, m, seq![], after_read(s.follow)),
                    }
                },
            }
        },
    }
}

impl TailOption {
    /// The watch state of `file` before its first poll.
    pub fn new(
        file: String,
        read_strategy: FileReadStrategy,
        follow: bool,
        retry: bool,
        sleep: u64,
        max_unchanged_stats: usize,
    ) -> (r: TailOption)
        ensures
            r == (TailOption {
                read_strategy,
                follow,
                max_unchanged_stats,
                retry,
                sleep,
                file,
                last_file_size: 0,
                notify_error: true,
            }),
    {
        TailOption {
            read_strategy,
            follow,
            max_unchanged_stats,
            retry,
            sleep,
            file,
            last_file_size: 0,
            notify_error: true,
        }
    }

    /// On standard input, the warning printed before watching it.
    pub fn stdin_notice(&self) -> (r: Option<Line>)
        ensures
            is_stdin_path(self.file@) ==> (r matches Some(l) && line_view(l) == (
                None::<Seq<char>>,
                encode_utf8(stdin_warning()),
            )),
            !is_stdin_path(self.file@) ==> r is None,
    {
        let dash = String::from_str("-");
        if self.file == dash {
            let text = String::from_str(
                "tail: warning: following standard input indefinitely is ineffective\n",
            );
            Some(Line { from_file: None, content: text_bytes(&text) })
        } else {
            None
        }
    }

    /// The byte offset to open the file at, given its length.
    pub fn start_position(&self, file_len: usize) -> (r: usize)
        ensures
            r == match self.read_strategy {
                FileReadStrategy::FromByte(v) => if v <= file_len { v } else { file_len },
                FileReadStrategy::LastBytes(v) => if v <= file_len { (file_len - v) as usize } else { 0 },
                _ => 0,
            },
    {
        match self.read_strategy {
            FileReadStrategy::FromByte(v) => if v <= file_len {
                v
            } else {
                file_len
            },
            FileReadStrategy::LastBytes(v) => if v <= file_len {
                file_len - v
            } else {
                0
            },
            _ => 0,
        }
    }

    /// One poll of the file: `opened` tells whether `f` could be opened on
    /// it, `size_now` is its size now (`None` when it could not be read).
    /// Gives the lines to print, in order, and what to do next.
    pub fn poll(
        &mut self,
        f: &mut FileDetail,
        opened: Result<(), OpenError>,
        size_now: Option<u64>,
    ) -> (r: (Vec<Line>, Next))
        requires
            old(f).wf(),
        ensures
            final(f).wf(),
            (*final(self), final(f)@, lines_view(r.0@), r.1) == poll_spec(
                *old(self),
                old(f)@,
                opened,
                size_now,
            ),
            opened == Err::<(), OpenError>(OpenError::IsDirectory) ==> r.1 == Next::Close,
            !old(self).follow ==> r.1 != Next::Sleep,
    {
        let mut out: Vec<Line> = Vec::new();
        match opened {
            Err(e) => {
                if self.notify_error {
                    self.notify_error = false;
                    let content = open_notice_bytes(&self.file, &e);
                    out.push(Line { from_file: None, content });
                    assert(lines_view(out@) =~= seq![
                        (None::<Seq<char>>, encode_utf8(open_notice(self.file@, e))),
                    ]);
                } else {
                    assert(lines_view(out@) =~= seq![]);
                }
                let permanent = match e {
                    OpenError::IsDirectory => true,
                    _ => false,
                };
                let next = if !permanent && self.retry && self.follow {
                    Next::Sleep
                } else {
                    Next::Close
                };
                return (out, next);
            },
            Ok(_) => {},
        }
        self.notify_error = true;
        let next = if self.follow {
            Next::Sleep
        } else {
            Next::Close
        };
        assert(lines_view(out@) =~= seq![]);
        if let FileReadStrategy::Invalid(_) = self.read_strategy {
            return (out, next);
        }
        let stdin = f.is_stdin();
        let g = self.size_guard(stdin, size_now);
        match g {
            Guard::Unchanged => {
                return (out, next);
            },
            Guard::Shrunk => {
                self.read_strategy = match self.read_strategy {
                    FileReadStrategy::FromByte(_) | FileReadStrategy::LastBytes(_) => {
                        FileReadStrategy::FromByte(0)
                    },
                    _ => FileReadStrategy::FromLine(0),
                };
                return (out, Next::Reopen);
            },
            Guard::Go => {},
        }
        match self.read_strategy {
            FileReadStrategy::FromByte(v) => {
                let (lines, count) = stream_bytes(f, &self.file);
                self.read_strategy = FileReadStrategy::FromByte(v.saturating_add(count));
                (lines, next)
            },
            FileReadStrategy::LastBytes(v) => {
                let (_size, buffer) = f.last_bytes(v);
                self.read_strategy = FileReadStrategy::FromByte(f.buffer_position());
                out.push(Line { from_file: Some(self.file.clone()), content: buffer });
                assert(lines_view(out@) =~= seq![(Some(self.file@), buffer@)]);
                (out, next)
            },
            FileReadStrategy::LastLines(v) => {
                let (size, kept) = f.last_lines(v);
                self.read_strategy = FileReadStrategy::FromLine(size);
                let content = join_lines(&kept);
                out.push(Line { from_file: Some(self.file.clone()), content });
                assert(lines_view(out@) =~= seq![(Some(self.file@), content@)]);
                if stdin {
                    (out, Next::Close)
                } else {
                    (out, next)
                }
            },
            FileReadStrategy::FromLine(v) => {
                f.walk_buffer_lines(v);
                let (lines, count) = stream_lines(f, &self.file);
                if stdin {
                    (lines, Next::Close)
                } else {
                    self.read_strategy = FileReadStrategy::FromLine(v.saturating_add(count));
                    (lines, next)
                }
            },
            FileReadStrategy::Invalid(_) => (out, next),
        }
    }

    /// Compares the file's size now with the last one seen, and remembers it.
    pub fn size_guard(&mut self, stdin: bool, size_now: Option<u64>) -> (r: Guard)
        ensures
            (r, final(self).last_file_size) == guard_spec(stdin, old(self).last_file_size, size_now),
            *final(self) == (TailOption { last_file_size: final(self).last_file_size, ..*old(self) }),
    {
        if stdin {
            return Guard::Go;
        }
        match size_now {
            None => {
                self.last_file_size = 0;
                Guard::Unchanged
            },
            Some(n) => if n < self.last_file_size {
                self.last_file_size = 0;
                Guard::Shrunk
            } else if n == self.last_file_size {
                Guard::Unchanged
            } else {
                self.last_file_size = n;
                Guard::Go
            },
        }
    }
}

} // verus!
