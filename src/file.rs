use std::collections::VecDeque;
use vstd::prelude::*;
use vstd::string::*;
use vstd::utf8::*;

verus! {

/// Why a path could not be opened for reading.
#[derive(Debug, Clone, PartialEq, Eq)]
pub enum OpenError {
    /// The path names a directory.
    IsDirectory,
    /// Nothing exists at the path.
    NotFound,
    /// The path exists but may not be read.
    PermissionDenied,
    /// Any other failure, with the system's description of it.
    Other(String),
}

/// What the reader knows: its path, whether it still reads text, the bytes
/// of the opened stream, how far it has read into them, and the byte
/// position it reports.
pub ghost struct ReaderModel {
    pub path: Seq<char>,
    pub text: bool,
    pub data: Seq<u8>,
    pub cursor: int,
    pub pos: int,
}

pub open spec fn is_stdin_path(p: Seq<char>) -> bool {
    p == "-"@
}

/// Index just past the line that starts at `i`: past its `\n`, or the end.
pub open spec fn line_end(s: Seq<u8>, i: int) -> int
    decreases s.len() - i,
{
    if i >= s.len() {
        s.len() as int
    } else if s[i] == 10 {
        i + 1
    } else {
        line_end(s, i + 1)
    }
}

pub proof fn lemma_line_end(s: Seq<u8>, i: int)
    requires
        0 <= i < s.len(),
    ensures
        i < line_end(s, i) <= s.len(),
    decreases s.len() - i,
{
    reveal_with_fuel(line_end, 2);
    if s[i] != 10 && i + 1 < s.len() {
        lemma_line_end(s, i + 1);
    }
}

/// One `read_line`: the text of the next line and the state after it.
/// A line that is not UTF-8 is consumed, yields nothing and ends text mode.
pub open spec fn next_line(m: ReaderModel) -> (Option<Seq<char>>, ReaderModel) {
    if !m.text || m.cursor >= m.data.len() {
        (None, m)
    } else {
        let k = line_end(m.data, m.cursor);
        let b = m.data.subrange(m.cursor, k);
        if valid_utf8(b) {
            (Some(decode_utf8(b)), ReaderModel { cursor: k, pos: m.pos + (k - m.cursor), ..m })
        } else {
            (None, ReaderModel { cursor: k, pos: m.pos + (k - m.cursor), text: false, ..m })
        }
    }
}

/// The state after `n` calls of `read_line`.
pub open spec fn skip_lines(m: ReaderModel, n: nat) -> ReaderModel
    decreases n,
{
    if n == 0 {
        m
    } else {
        skip_lines(next_line(m).1, (n - 1) as nat)
    }
}

/// The lines that `read_line` yields from `m` on, up to the first `None`.
pub open spec fn text_lines(m: ReaderModel) -> Seq<Seq<char>>
    decreases m.data.len() - m.cursor,
    when 0 <= m.cursor <= m.data.len()
{
    match next_line(m).0 {
        None => seq![],
        Some(t) => {
            proof {
                lemma_line_end(m.data, m.cursor);
            }
            seq![t] + text_lines(next_line(m).1)
        },
    }
}

/// The state once `read_line` has yielded `None`, reading from `m` on.
pub open spec fn drained(m: ReaderModel) -> ReaderModel
    decreases m.data.len() - m.cursor,
    when 0 <= m.cursor <= m.data.len()
{
    match next_line(m).0 {
        None => next_line(m).1,
        Some(_) => {
            proof {
                lemma_line_end(m.data, m.cursor);
            }
            drained(next_line(m).1)
        },
    }
}

/// The last `n` items of `s`, in order.
pub open spec fn last_n<T>(s: Seq<T>, n: nat) -> Seq<T> {
    if s.len() <= n {
        s
    } else {
        s.subrange(s.len() - n, s.len() as int)
    }
}

pub open spec fn views(v: Seq<String>) -> Seq<Seq<char>> {
    v.map_values(|s: String| s@)
}

pub open spec fn min(a: int, b: int) -> int {
    if a <= b {
        a
    } else {
        b
    }
}

/// The state after reading `n` bytes, or to the end if fewer are left.
pub open spec fn advance(m: ReaderModel, n: int) -> ReaderModel {
    let k = min(n, m.data.len() - m.cursor);
    ReaderModel { cursor: m.cursor + k, pos: m.pos + k, ..m }
}

/// A state that `read_line` leaves as it is, however often it is called.
pub proof fn lemma_skip_fixed(m: ReaderModel, n: nat)
    requires
        !m.text || m.cursor >= m.data.len(),
    ensures
        skip_lines(m, n) == m,
    decreases n,
{
    if n > 0 {
        lemma_skip_fixed(next_line(m).1, (n - 1) as nat);
    }
}

/// Skipping one more line reads one more line after the others.
pub proof fn lemma_skip_one_more(m: ReaderModel, n: nat)
    ensures
        skip_lines(m, n + 1) == next_line(skip_lines(m, n)).1,
    decreases n,
{
    reveal_with_fuel(skip_lines, 2);
    if n > 0 {
        lemma_skip_one_more(next_line(m).1, (n - 1) as nat);
    }
}

/// Skipping `a` lines, then `b` more, skips `a + b`.
pub proof fn lemma_skip_split(m: ReaderModel, a: nat, b: nat)
    ensures
        skip_lines(m, a + b) == skip_lines(skip_lines(m, a), b),
    decreases a,
{
    if a > 0 {
        lemma_skip_split(next_line(m).1, (a - 1) as nat, b);
    }
}

/// Pushing onto a window of the last `n` items.
proof fn lemma_last_n_push<T>(s: Seq<T>, x: T, n: nat)
    ensures
        last_n(s, n).push(x).len() <= n ==> last_n(s.push(x), n) == last_n(s, n).push(x),
        last_n(s, n).push(x).len() > n ==> last_n(s.push(x), n) == last_n(s, n).push(x).subrange(
            1,
            last_n(s, n).push(x).len() as int,
        ),
{
    let w = last_n(s, n).push(x);
    if w.len() <= n {
        assert(last_n(s.push(x), n) =~= w);
    } else {
        assert(last_n(s.push(x), n) =~= w.subrange(1, w.len() as int));
    }
}

/// Relies on String::from_utf8: it succeeds exactly on valid UTF-8, and the
/// string then holds the characters those bytes encode.
#[verifier::external_body]
fn decode_text(bytes: Vec<u8>) -> (r: Option<String>)
    ensures
        r is Some <==> valid_utf8(bytes@),
        r matches Some(s) ==> s@ == decode_utf8(bytes@),
{
    String::from_utf8(bytes).ok()
}

/// A copy of `v[from..to]`.
fn copy_range(v: &Vec<u8>, from: usize, to: usize) -> (r: Vec<u8>)
    requires
        from <= to <= v.len(),
    ensures
        r@ == v@.subrange(from as int, to as int),
{
    let mut r: Vec<u8> = Vec::new();
    let mut i: usize = from;
    while i < to
        invariant
            from <= i <= to <= v.len(),
            r@ == v@.subrange(from as int, i as int),
        decreases to - i,
    {
        r.push(v[i]);
        i = i + 1;
        assert(r@ =~= v@.subrange(from as int, i as int));
    }
    r
}

/// A reader over one path, or standard input for `-`.
pub struct FileDetail {
    path: String,
    is_text: bool,
    content: Vec<u8>,
    cursor: usize,
    bufpos: usize,
}

/// A reader for `path` that has not been opened yet.
pub fn new(path: String) -> (r: FileDetail)
    ensures
        r.wf(),
        r@ == (ReaderModel { path: path@, text: true, data: seq![], cursor: 0, pos: 0 }),
{
    FileDetail { path, is_text: true, content: Vec::new(), cursor: 0, bufpos: 0 }
}

impl View for FileDetail {
    type V = ReaderModel;

    closed spec fn view(&self) -> ReaderModel {
        ReaderModel {
            path: self.path@,
            text: self.is_text,
            data: self.content@,
            cursor: self.cursor as int,
            pos: self.bufpos as int,
        }
    }
}

impl FileDetail {
    /// Positions within the stream never run past its end.
    pub open spec fn wf(&self) -> bool {
        0 <= self@.pos <= self@.cursor <= self@.data.len() <= usize::MAX
    }

    /// Opens the reader on what was read from its path: on standard input
    /// from the start, else at `start_pos`, clamped to the length. An error
    /// leaves the reader as it was.
    pub fn prepare(&mut self, start_pos: usize, source: Result<Vec<u8>, OpenError>) -> (r: Result<
        (),
        OpenError,
    >)
        requires
            old(self).wf(),
        ensures
            final(self).wf(),
            match source {
                Err(e) => r == Err::<(), OpenError>(e) && final(self)@ == old(self)@,
                Ok(bytes) => {
                    let at = if is_stdin_path(old(self)@.path) {
                        0
                    } else {
                        min(start_pos as int, bytes@.len() as int)
                    };
                    &&& r is Ok
                    &&& final(self)@ == ReaderModel {
                        data: bytes@,
                        cursor: at,
                        pos: at,
                        ..old(self)@
                    }
                },
            },
    {
        match source {
            Err(e) => Err(e),
            Ok(bytes) => {
                let n = bytes.len();
                let at = if self.is_stdin() {
                    0
                } else if start_pos <= n {
                    start_pos
                } else {
                    n
                };
                self.content = bytes;
                self.cursor = at;
                self.bufpos = at;
                Ok(())
            },
        }
    }

    /// The next line with its `\n`, or `None` at the end of the stream or in
    /// binary mode. A line that is not text switches to binary mode.
    pub fn read_line(&mut self) -> (r: Option<String>)
        requires
            old(self).wf(),
        ensures
            final(self).wf(),
            final(self)@ == next_line(old(self)@).1,
            match r {
                Some(s) => next_line(old(self)@).0 == Some(s@),
                None => next_line(old(self)@).0 is None,
            },
    {
        if !self.is_text || self.cursor >= self.content.len() {
            return None;
        }
        let start = self.cursor;
        let mut k: usize = start;
        while k < self.content.len() && self.content[k] != 10
            invariant
                start <= k <= self.content.len(),
                start < self.content.len(),
                line_end(self.content@, start as int) == line_end(self.content@, k as int),
            decreases self.content.len() - k,
        {
            k = k + 1;
        }
        if k < self.content.len() {
            k = k + 1;
        }
        let bytes = copy_range(&self.content, start, k);
        match decode_text(bytes) {
            Some(s) => {
                self.cursor = k;
                self.bufpos = self.bufpos + (k - start);
                Some(s)
            },
            None => {
                self.cursor = k;
                self.bufpos = self.bufpos + (k - start);
                self.is_text = false;
                None
            },
        }
    }

    /// Up to `length` raw bytes, or `None` when none could be read.
    pub fn read_chunk(&mut self, length: usize) -> (r: Option<Vec<u8>>)
        requires
            old(self).wf(),
        ensures
            final(self).wf(),
            final(self)@ == advance(old(self)@, length as int),
            ({
                let m = old(self)@;
                let k = min(length as int, m.data.len() - m.cursor);
                match r {
                    Some(b) => k > 0 && b@ == m.data.subrange(m.cursor, m.cursor + k),
                    None => k == 0,
                }
            }),
    {
        let left = self.content.len() - self.cursor;
        let k = if length <= left {
            length
        } else {
            left
        };
        if k == 0 {
            return None;
        }
        let b = copy_range(&self.content, self.cursor, self.cursor + k);
        self.cursor = self.cursor + k;
        self.bufpos = self.bufpos + k;
        Some(b)
    }

    /// True when the reader stands for standard input.
    pub fn is_stdin(&self) -> (r: bool)
        ensures
            r == is_stdin_path(self@.path),
    {
        let dash = String::from_str("-");
        self.path == dash
    }

    /// The path this reader was made for.
    pub fn path(&self) -> (r: String)
        ensures
            r@ == self@.path,
    {
        self.path.clone()
    }

    /// The byte position: where the stream was opened, plus what was read.
    pub fn buffer_position(&self) -> (r: usize)
        ensures
            r == self@.pos,
    {
        self.bufpos
    }

    /// Discards `bytes` bytes; nothing on standard input.
    pub fn walk_buffer_bytes(&mut self, bytes: usize)
        requires
            old(self).wf(),
        ensures
            final(self).wf(),
            final(self)@ == if is_stdin_path(old(self)@.path) {
                old(self)@
            } else {
                advance(old(self)@, bytes as int)
            },
    {
        if !self.is_stdin() {
            let ghost m0 = self@;
            let mut i: usize = 0;
            while i < bytes
                invariant
                    i <= bytes,
                    self.wf(),
                    self@ == advance(m0, i as int),
                    m0.cursor <= m0.data.len(),
                    m0 == old(self)@,
                    !is_stdin_path(m0.path),
                decreases bytes - i,
            {
                if self.cursor >= self.content.len() {
                    assert(advance(m0, bytes as int) == self@);
                    return;
                }
                self.read_chunk(1);
                i = i + 1;
            }
        }
    }

    /// Discards `lines` lines; nothing on standard input.
    pub fn walk_buffer_lines(&mut self, lines: usize)
        requires
            old(self).wf(),
        ensures
            final(self).wf(),
            final(self)@ == if is_stdin_path(old(self)@.path) {
                old(self)@
            } else {
                skip_lines(old(self)@, lines as nat)
            },
    {
        if !self.is_stdin() {
            let ghost m0 = self@;
            let mut i: usize = 0;
            while i < lines
                invariant
                    i <= lines,
                    self.wf(),
                    self@ == skip_lines(m0, i as nat),
                    m0 == old(self)@,
                    !is_stdin_path(m0.path),
                decreases lines - i,
            {
                if !self.is_text || self.cursor >= self.content.len() {
                    proof {
                        lemma_skip_fixed(self@, (lines - i) as nat);
                        lemma_skip_split(m0, i as nat, (lines - i) as nat);
                    }
                    return;
                }
                proof {
                    lemma_skip_one_more(m0, i as nat);
                }
                self.read_line();
                i = i + 1;
            }
        }
    }

    /// Reads to the end, keeping only the last `bytes` bytes; gives how many
    /// bytes were read and those kept.
    pub fn last_bytes(&mut self, bytes: usize) -> (r: (usize, Vec<u8>))
        requires
            old(self).wf(),
        ensures
            final(self).wf(),
            ({
                let m = old(self)@;
                let rest = m.data.subrange(m.cursor, m.data.len() as int);
                &&& r.0 == rest.len()
                &&& r.1@ == last_n(rest, bytes as nat)
                &&& final(self)@ == advance(m, rest.len() as int)
            }),
    {
        let ghost m0 = self@;
        let mut bunch: VecDeque<u8> = VecDeque::with_capacity(bytes);
        let mut size: usize = 0;
        loop
            invariant
                self.wf(),
                0 <= m0.cursor <= m0.data.len(),
                self@ == advance(m0, size as int),
                size == self.cursor - m0.cursor,
                bunch@ == last_n(m0.data.subrange(m0.cursor, self.cursor as int), bytes as nat),
            ensures
                self.cursor == self.content.len(),
            decreases self.content.len() - self.cursor,
        {
            let ghost c = self.cursor as int;
            let b = match self.read_chunk(1) {
                Some(b) => b,
                None => break,
            };
            let ghost seen = m0.data.subrange(m0.cursor, c);
            proof {
                assert(self@ == advance(advance(m0, size as int), 1));
                assert(self.cursor == c + 1);
                assert(self.content@ == m0.data);
                assert(b@.len() == 1);
                assert(b[0] == m0.data[c]);
                assert(m0.data.subrange(m0.cursor, self.cursor as int) =~= seen.push(b[0]));
                lemma_last_n_push(seen, b[0], bytes as nat);
            }
            bunch.push_back(b[0]);
            size = size + 1;
            if bunch.len() > bytes {
                bunch.pop_front();
            }
        }
        assert(m0.data.subrange(m0.cursor, self.cursor as int) =~= m0.data.subrange(
            m0.cursor,
            m0.data.len() as int,
        ));
        let mut out: Vec<u8> = Vec::new();
        let mut i: usize = 0;
        while i < bunch.len()
            invariant
                i <= bunch@.len(),
                out@ == bunch@.subrange(0, i as int),
            decreases bunch@.len() - i,
        {
            out.push(bunch[i]);
            i = i + 1;
            assert(out@ =~= bunch@.subrange(0, i as int));
        }
        assert(out@ =~= bunch@);
        (size, out)
    }

    /// Reads lines to the end, keeping only the last `lines` of them; gives
    /// how many lines were read and those kept.
    pub fn last_lines(&mut self, lines: usize) -> (r: (usize, Vec<String>))
        requires
            old(self).wf(),
        ensures
            final(self).wf(),
            r.0 == text_lines(old(self)@).len(),
            views(r.1@) == last_n(text_lines(old(self)@), lines as nat),
            final(self)@ == drained(old(self)@),
    {
        let ghost m0 = self@;
        let ghost mut seen: Seq<Seq<char>> = seq![];
        let mut bunch: VecDeque<String> = VecDeque::with_capacity(lines);
        let mut size: usize = 0;
        loop
            invariant
                self.wf(),
                0 <= m0.cursor <= self.cursor,
                m0.data == self@.data,
                text_lines(m0) == seen + text_lines(self@),
                drained(m0) == drained(self@),
                views(bunch@) == last_n(seen, lines as nat),
                size == seen.len(),
                size <= self.cursor - m0.cursor,
            ensures
                !self.is_text || self.cursor >= self.content.len(),
            decreases self.content.len() - self.cursor,
        {
            let ghost before = self@;
            proof {
                if self.cursor < self.content.len() {
                    lemma_line_end(before.data, before.cursor);
                }
            }
            let b = match self.read_line() {
                Some(s) => s,
                None => {
                    assert(seen + text_lines(before) =~= seen);
                    assert(text_lines(self@) =~= seq![]);
                    break;
                },
            };
            assert(self.cursor > before.cursor);
            proof {
                assert(seen + text_lines(before) =~= seen.push(b@) + text_lines(self@));
                lemma_last_n_push(seen, b@, lines as nat);
                seen = seen.push(b@);
                assert(views(bunch@.push(b)) =~= views(bunch@).push(b@));
            }
            bunch.push_back(b);
            size = size + 1;
            if bunch.len() > lines {
                let ghost w = bunch@;
                bunch.pop_front();
                assert(views(bunch@) =~= views(w).subrange(1, views(w).len() as int));
            }
        }
        assert(text_lines(self@) =~= seq![]);
        assert(seen =~= text_lines(m0));
        assert(drained(self@) == self@);
        let mut out: Vec<String> = Vec::new();
        let mut i: usize = 0;
        while i < bunch.len()
            invariant
                i <= bunch@.len(),
                out@ == bunch@.subrange(0, i as int),
            decreases bunch@.len() - i,
        {
            let s = bunch[i].clone();
            out.push(s);
            i = i + 1;
            assert(out@ =~= bunch@.subrange(0, i as int));
        }
        assert(out@ =~= bunch@);
        (size, out)
    }

    /// False once a line failed to read as text.
    pub fn is_text(&self) -> (r: bool)
        ensures
            r == self@.text,
    {
        self.is_text
    }
}

} // verus!
