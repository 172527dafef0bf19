use vstd::prelude::*;
use vstd::string::*;
use vstd::utf8::*;

verus! {

/// One piece of output: content read from a file, tagged with its path, or
/// a notice that belongs to no file.
#[derive(Debug, Clone, PartialEq, Eq)]
pub struct Line {
    pub from_file: Option<String>,
    pub content: Vec<u8>,
}

pub open spec fn opt_view(o: Option<String>) -> Option<Seq<char>> {
    match o {
        Some(s) => Some(s@),
        None => None,
    }
}

/// A line as plain values: its origin and its bytes.
pub open spec fn line_view(l: Line) -> (Option<Seq<char>>, Seq<u8>) {
    (opt_view(l.from_file), l.content@)
}

pub open spec fn lines_view(v: Seq<Line>) -> Seq<(Option<Seq<char>>, Seq<u8>)> {
    v.map_values(|l: Line| line_view(l))
}

/// The bytes of a string.
pub fn text_bytes(s: &String) -> (r: Vec<u8>)
    ensures
        r@ == encode_utf8(s@),
{
    s.as_str().as_bytes_vec()
}

/// The header printed before content from a new file.
pub open spec fn header(file: Seq<char>) -> Seq<u8> {
    encode_utf8("\n==>  "@ + file + "  <==\n"@)
}

/// Printing one line after lines from `last`: the bytes printed and the
/// origin remembered. A line from a file other than `last` gets a header;
/// a notice neither gets one nor changes `last`.
pub open spec fn render_spec(last: Option<Seq<char>>, l: (Option<Seq<char>>, Seq<u8>)) -> (
    Seq<u8>,
    Option<Seq<char>>,
) {
    match l.0 {
        Some(f) => if last == Some(f) {
            (l.1, last)
        } else {
            (header(f) + l.1, Some(f))
        },
        None => (l.1, last),
    }
}

/// Printing lines one after the other, from `last` on.
pub open spec fn render_all(last: Option<Seq<char>>, ls: Seq<(Option<Seq<char>>, Seq<u8>)>) -> (
    Seq<u8>,
    Option<Seq<char>>,
)
    decreases ls.len(),
{
    if ls.len() == 0 {
        (seq![], last)
    } else {
        let (out, l) = render_all(last, ls.drop_last());
        let (more, l2) = render_spec(l, ls.last());
        (out + more, l2)
    }
}

/// Turns the lines that watchers emit into the bytes to print.
#[derive(Debug)]
pub struct OutputCollector {
    last_read: Option<String>,
}

impl View for OutputCollector {
    type V = Option<Seq<char>>;

    closed spec fn view(&self) -> Option<Seq<char>> {
        opt_view(self.last_read)
    }
}

impl OutputCollector {
    /// A collector that has printed nothing yet.
    pub fn new() -> (r: OutputCollector)
        ensures
            r@ is None,
    {
        OutputCollector { last_read: None }
    }

    /// The bytes to print for `line`: a header first when it comes from a
    /// file other than the last one printed, then its content.
    pub fn render(&mut self, line: Line) -> (r: Vec<u8>)
        ensures
            (r@, final(self)@) == render_spec(old(self)@, line_view(line)),
    {
        let Line { from_file, content } = line;
        let mut content = content;
        match from_file {
            Some(file) => {
                let same = match &self.last_read {
                    Some(last) => *last == file,
                    None => false,
                };
                if same {
                    content
                } else {
                    let text = String::from_str("\n==>  ").concat(file.as_str()).concat("  <==\n");
                    let mut out = text_bytes(&text);
                    out.append(&mut content);
                    self.last_read = Some(file);
                    out
                }
            },
            None => content,
        }
    }

    /// The bytes to print for `lines`, in order.
    pub fn render_lines(&mut self, lines: Vec<Line>) -> (r: Vec<u8>)
        ensures
            (r@, final(self)@) == render_all(old(self)@, lines_view(lines@)),
    {
        let ghost all = lines_view(lines@);
        let mut rest = lines;
        let mut out: Vec<u8> = Vec::new();
        let ghost mut i: int = 0;
        while rest.len() > 0
            invariant
                0 <= i <= all.len(),
                lines_view(rest@) == all.subrange(i, all.len() as int),
                (out@, self@) == render_all(old(self)@, all.subrange(0, i)),
            decreases rest@.len(),
        {
            let ghost before = rest@;
            let line = rest.remove(0);
            proof {
                assert(lines_view(before).len() == before.len());
                assert(lines_view(before)[0] == line_view(before[0]));
                assert(all.subrange(i, all.len() as int)[0] == all[i]);
                assert(line_view(line) == all[i]);
                assert(lines_view(rest@) =~= lines_view(before).subrange(1, before.len() as int));
                assert(lines_view(rest@) =~= all.subrange(i + 1, all.len() as int));
                assert(all.subrange(0, i + 1).drop_last() =~= all.subrange(0, i));
            }
            let mut piece = self.render(line);
            out.append(&mut piece);
            proof {
                i = i + 1;
            }
        }
        assert(all.subrange(0, i) =~= all);
        out
    }
}

} // verus!
