use vstd::prelude::*;
use vstd::string::*;

verus! {

/// Where to start reading a file, and how.
#[derive(Debug, Clone, PartialEq, Eq)]
pub enum FileReadStrategy {
    /// Stream from this absolute byte offset.
    FromByte(usize),
    /// Stream the last this many bytes, then follow.
    LastBytes(usize),
    /// Skip this many lines, then stream.
    FromLine(usize),
    /// Keep the last this many complete lines, then follow.
    LastLines(usize),
    /// The offset specifications could not be parsed; holds the reason.
    Invalid(String),
}

/// The number of lines shown when no offset is asked for.
pub const DEFAULT_LINES: usize = 10;

pub open spec fn is_digit(c: char) -> bool {
    '0' <= c && c <= '9'
}

pub open spec fn all_digits(s: Seq<char>) -> bool {
    forall|i: int| 0 <= i < s.len() ==> is_digit(#[trigger] s[i])
}

/// Decimal value of a sequence of digits, most significant first.
pub open spec fn digits_value(s: Seq<char>) -> nat
    decreases s.len(),
{
    if s.len() == 0 {
        0
    } else {
        digits_value(s.drop_last()) * 10 + (s.last() as nat - '0' as nat) as nat
    }
}

/// True when the specification starts with `+`, meaning "from the start".
pub open spec fn has_plus(s: Seq<char>) -> bool {
    s.len() > 0 && s[0] == '+'
}

/// The digits of an offset specification, without its optional `+`.
pub open spec fn magnitude_part(s: Seq<char>) -> Seq<char> {
    if has_plus(s) {
        s.drop_first()
    } else {
        s
    }
}

/// An offset specification: an optional `+` and one or more decimal digits
/// whose value fits in a `usize`. Gives whether it counts from the start,
/// and its magnitude.
pub open spec fn parse_offset(s: Seq<char>) -> Option<(bool, nat)> {
    let d = magnitude_part(s);
    if d.len() > 0 && all_digits(d) && digits_value(d) <= usize::MAX {
        Some((has_plus(s), digits_value(d)))
    } else {
        None
    }
}

/// An offset as a pair (from the start, from the end): one of them is zero.
pub open spec fn split_offset(o: (bool, nat)) -> (nat, nat) {
    if o.0 {
        (o.1, 0)
    } else {
        (0, o.1)
    }
}

/// The strategy for two well-formed offsets, by precedence: from a byte,
/// last bytes, from a line, last lines, else the default.
pub open spec fn strategy_for(b: (bool, nat), l: (bool, nat)) -> FileReadStrategy {
    let (fb, lb) = split_offset(b);
    let (fl, ll) = split_offset(l);
    if fb > 0 {
        FileReadStrategy::FromByte(fb as usize)
    } else if lb > 0 {
        FileReadStrategy::LastBytes(lb as usize)
    } else if fl > 0 {
        FileReadStrategy::FromLine(fl as usize)
    } else if ll > 0 {
        FileReadStrategy::LastLines(ll as usize)
    } else {
        FileReadStrategy::LastLines(DEFAULT_LINES)
    }
}

/// True of `r` when it is `Invalid` with the message `m`.
pub open spec fn is_invalid_with(r: FileReadStrategy, m: Seq<char>) -> bool {
    match r {
        FileReadStrategy::Invalid(s) => s@ == m,
        _ => false,
    }
}

/// The whole selection: the strategy, or the reason it is invalid.
pub open spec fn picks(bytes: Seq<char>, lines: Seq<char>, r: FileReadStrategy) -> bool {
    match (parse_offset(bytes), parse_offset(lines)) {
        (None, _) => is_invalid_with(r, bytes + ": invalid number of bytes"@),
        (Some(_), None) => is_invalid_with(r, lines + ": invalid number of lines"@),
        (Some(b), Some(l)) => r == strategy_for(b, l),
    }
}

proof fn lemma_digits_step(s: Seq<char>, i: int)
    requires
        0 <= i < s.len(),
    ensures
        digits_value(s.take(i + 1)) == digits_value(s.take(i)) * 10 + (s[i] as nat
            - '0' as nat) as nat,
{
    assert(s.take(i + 1).drop_last() =~= s.take(i));
}

impl FileReadStrategy {
    /// Selects the strategy from the byte and line offset specifications.
    pub fn pick(bytes: String, lines: String) -> (r: FileReadStrategy)
        ensures
            picks(bytes@, lines@, r),
    {
        let (from_byte, last_bytes) = match FileReadStrategy::from_last_converter(bytes.clone()) {
            Some(p) => p,
            None => {
                return FileReadStrategy::Invalid(bytes.concat(": invalid number of bytes"));
            },
        };
        let (from_line, last_lines) = match FileReadStrategy::from_last_converter(lines.clone()) {
            Some(p) => p,
            None => {
                return FileReadStrategy::Invalid(lines.concat(": invalid number of lines"));
            },
        };
        if from_byte > 0 {
            return FileReadStrategy::FromByte(from_byte);
        }
        if last_bytes > 0 {
            return FileReadStrategy::LastBytes(last_bytes);
        }
        if from_line > 0 {
            return FileReadStrategy::FromLine(from_line);
        }
        if last_lines > 0 {
            return FileReadStrategy::LastLines(last_lines);
        }
        FileReadStrategy::LastLines(DEFAULT_LINES)
    }

    /// Parses one offset specification into (from the start, from the end).
    pub fn from_last_converter(size: String) -> (r: Option<(usize, usize)>)
        ensures
            match parse_offset(size@) {
                None => r is None,
                Some(o) => r matches Some(p) && p.0 as nat == split_offset(o).0 && p.1 as nat
                    == split_offset(o).1,
            },
    {
        let s = size.as_str();
        let n = s.unicode_len();
        let plus = n > 0 && s.get_char(0) == '+';
        let start: usize = if plus {
            1
        } else {
            0
        };
        if start >= n {
            return None;
        }
        let ghost d = magnitude_part(size@);
        assert(d =~= size@.subrange(start as int, n as int));
        let mut value: usize = 0;
        let mut i: usize = start;
        while i < n
            invariant
                start <= i <= n,
                n == size@.len(),
                s@ == size@,
                d == magnitude_part(size@),
                d == size@.subrange(start as int, n as int),
                all_digits(d.take(i - start)),
                value as nat == digits_value(d.take(i - start)),
            decreases n - i,
        {
            let c = s.get_char(i);
            if !('0' <= c && c <= '9') {
                assert(d[i - start] == c);
                assert(!all_digits(d));
                return None;
            }
            let digit = (c as u32 - '0' as u32) as usize;
            proof {
                lemma_digits_step(d, i - start);
                assert(d.take(i + 1 - start) =~= d.take(i - start).push(c));
            }
            value = match value.checked_mul(10) {
                Some(v) => match v.checked_add(digit) {
                    Some(w) => w,
                    None => {
                        proof {
                            if all_digits(d) {
                                lemma_prefix_bound(d, (i + 1 - start) as int);
                            }
                        }
                        return None;
                    },
                },
                None => {
                    proof {
                            if all_digits(d) {
                                lemma_prefix_bound(d, (i + 1 - start) as int);
                            }
                        }
                    return None;
                },
            };
            i = i + 1;
        }
        assert(d.take(n - start) =~= d);
        if plus {
            Some((value, 0))
        } else {
            Some((0, value))
        }
    }
}

/// A prefix of a digit string is worth no more than the whole.
proof fn lemma_prefix_bound(d: Seq<char>, k: int)
    requires
        0 <= k <= d.len(),
        all_digits(d),
    ensures
        digits_value(d.take(k)) <= digits_value(d),
    decreases d.len() - k,
{
    if k < d.len() {
        lemma_prefix_bound(d, k + 1);
        lemma_digits_step(d, k);
    } else {
        assert(d.take(k) =~= d);
    }
}

} // verus!
