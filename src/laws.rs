use crate::file::{OpenError, ReaderModel, is_stdin_path, last_n, line_end, next_line, text_lines};
use crate::output::{header, render_all};
use crate::strategy::{FileReadStrategy, picks};
use crate::watcher::{
    Next, TailOption, byte_units, encoded, from_zero, poll_spec, rest, tagged,
};
use vstd::prelude::*;
use vstd::utf8::*;

verus! {

/// Two strategies agree: the same variant with the same magnitude, or both
/// invalid for the same reason.
pub open spec fn same_strategy(a: FileReadStrategy, b: FileReadStrategy) -> bool {
    match (a, b) {
        (FileReadStrategy::Invalid(x), FileReadStrategy::Invalid(y)) => x@ == y@,
        (FileReadStrategy::Invalid(_), _) => false,
        (_, FileReadStrategy::Invalid(_)) => false,
        _ => a == b,
    }
}

/// Selection is a function of the two specifications: whatever `pick`
/// returns for them agrees with anything else it may return for them.
pub proof fn law_pick_deterministic(
    bytes: Seq<char>,
    lines: Seq<char>,
    r1: FileReadStrategy,
    r2: FileReadStrategy,
)
    requires
        picks(bytes, lines, r1),
        picks(bytes, lines, r2),
    ensures
        same_strategy(r1, r2),
{
}

/// When a followed file is found smaller than at the last poll, nothing is
/// printed, the strategy is reset to read from the start (in bytes or in
/// lines, as before), and the file is polled again at once; since the size
/// remembered is then zero, that next poll reads the file from its start.
pub proof fn law_shrink_restarts(
    s: TailOption,
    m: ReaderModel,
    n: u64,
)
    requires
        !is_stdin_path(m.path),
        !(s.read_strategy is Invalid),
        n < s.last_file_size,
    ensures
        ({
            let (s2, m2, out, next) = poll_spec(s, m, Ok(()), Some(n));
            &&& out.len() == 0
            &&& m2 == m
            &&& next == Next::Reopen
            &&& s2.read_strategy == from_zero(s.read_strategy)
            &&& s2.last_file_size == 0
            &&& (s2.read_strategy == FileReadStrategy::FromByte(0) || s2.read_strategy
                == FileReadStrategy::FromLine(0))
        }),
{
}

/// The window of `last_lines`: with no fewer slots than lines it holds them
/// all; with fewer it holds exactly the last ones, in order.
pub proof fn law_tail_window(m: ReaderModel, k: nat)
    requires
        0 <= m.cursor <= m.data.len(),
    ensures
        ({
            let all = text_lines(m);
            let kept = last_n(all, k);
            &&& k >= all.len() ==> kept == all
            &&& k < all.len() ==> kept.len() == k && forall|i: int|
                0 <= i < k ==> #[trigger] kept[i] == all[all.len() - k + i]
        }),
{
}

/// Byte sequences, one after the other.
pub open spec fn concat_bytes(ls: Seq<Seq<u8>>) -> Seq<u8>
    decreases ls.len(),
{
    if ls.len() == 0 {
        seq![]
    } else {
        ls[0] + concat_bytes(ls.drop_first())
    }
}

/// A complete line: UTF-8 text whose only `\n` is its last byte.
pub open spec fn complete_line(l: Seq<u8>) -> bool {
    &&& l.len() > 0
    &&& l[l.len() - 1] == 10
    &&& forall|j: int| 0 <= j < l.len() - 1 ==> #[trigger] l[j] != 10
    &&& valid_utf8(l)
}

proof fn lemma_line_end_at(s: Seq<u8>, i: int, e: int)
    requires
        0 <= i < e <= s.len(),
        s[e - 1] == 10,
        forall|j: int| i <= j < e - 1 ==> #[trigger] s[j] != 10,
    ensures
        line_end(s, i) == e,
    decreases e - i,
{
    if i < e - 1 {
        lemma_line_end_at(s, i + 1, e);
    }
}

/// A text reader whose remaining bytes are complete lines reads exactly
/// those lines, in order, each with its `\n`.
pub proof fn law_complete_lines(m: ReaderModel, ls: Seq<Seq<u8>>)
    requires
        m.text,
        0 <= m.cursor <= m.data.len(),
        rest(m) == concat_bytes(ls),
        forall|i: int| 0 <= i < ls.len() ==> complete_line(#[trigger] ls[i]),
    ensures
        text_lines(m) == ls.map_values(|l: Seq<u8>| decode_utf8(l)),
    decreases ls.len(),
{
    if ls.len() == 0 {
        assert(concat_bytes(ls) =~= seq![]);
        assert(rest(m).len() == 0);
        assert(m.cursor == m.data.len());
        assert(text_lines(m) =~= seq![]);
        assert(ls.map_values(|l: Seq<u8>| decode_utf8(l)) =~= seq![]);
    } else {
        let l0 = ls[0];
        let tail = ls.drop_first();
        assert(complete_line(l0));
        let k = m.cursor + l0.len();
        assert(rest(m) =~= l0 + concat_bytes(tail));
        assert forall|j: int| 0 <= j < l0.len() implies #[trigger] m.data[m.cursor + j] == l0[j] by {
            assert(rest(m)[j] == m.data[m.cursor + j]);
        }
        assert forall|j: int| m.cursor <= j < k - 1 implies #[trigger] m.data[j] != 10 by {
            assert(m.data[m.cursor + (j - m.cursor)] == l0[j - m.cursor]);
        }
        assert(m.data[m.cursor + (l0.len() - 1)] == l0[l0.len() - 1]);
        lemma_line_end_at(m.data, m.cursor, k);
        assert(m.data.subrange(m.cursor, k) =~= l0);
        let m2 = next_line(m).1;
        assert(m2.cursor == k);
        assert(m2.data == m.data);
        assert(rest(m2) =~= rest(m).subrange(l0.len() as int, rest(m).len() as int));
        assert((l0 + concat_bytes(tail)).subrange(
            l0.len() as int,
            (l0 + concat_bytes(tail)).len() as int,
        ) =~= concat_bytes(tail));
        assert(rest(m2) =~= concat_bytes(tail));
        assert forall|i: int| 0 <= i < tail.len() implies complete_line(#[trigger] tail[i]) by {
            assert(tail[i] == ls[i + 1]);
        }
        law_complete_lines(m2, tail);
        assert(ls.map_values(|l: Seq<u8>| decode_utf8(l)) =~= seq![decode_utf8(l0)]
            + tail.map_values(|l: Seq<u8>| decode_utf8(l)));
    }
}

/// Once reset by a shrink, the next poll that finds content reads the file
/// from its start: every byte, or every line, of it.
pub proof fn law_restart_reads_all(s: TailOption, m: ReaderModel, n: u64)
    requires
        !is_stdin_path(m.path),
        s.read_strategy == FileReadStrategy::FromByte(0) || s.read_strategy
            == FileReadStrategy::FromLine(0),
        s.last_file_size == 0,
        n > 0,
        m.cursor == 0,
        m.pos == 0,
        m.text,
    ensures
        ({
            let (s2, m2, out, next) = poll_spec(s, m, Ok(()), Some(n));
            &&& s.read_strategy == FileReadStrategy::FromByte(0) ==> out == tagged(
                s.file@,
                byte_units(m.data),
            )
            &&& s.read_strategy == FileReadStrategy::FromLine(0) ==> out == tagged(
                s.file@,
                encoded(text_lines(m)),
            )
        }),
{
    assert(rest(m) =~= m.data);
}

/// Without following, a poll never asks to wait, whether or not the file
/// could be opened: each watcher either finishes or reads its file anew at
/// once, so files watched one after the other run to completion in turn.
pub proof fn law_no_wait_without_follow(
    s: TailOption,
    m: ReaderModel,
    opened: Result<(), OpenError>,
    size_now: Option<u64>,
)
    requires
        !s.follow,
    ensures
        poll_spec(s, m, opened, size_now).3 != Next::Sleep,
{
}

/// The contents of lines, one after the other.
pub open spec fn contents(ls: Seq<(Option<Seq<char>>, Seq<u8>)>) -> Seq<u8>
    decreases ls.len(),
{
    if ls.len() == 0 {
        seq![]
    } else {
        contents(ls.drop_last()) + ls.last().1
    }
}

/// A run of lines from one file, after output from elsewhere, prints one
/// header and then every line's content, in order, none left out.
pub proof fn law_one_header_per_run(
    last: Option<Seq<char>>,
    file: Seq<char>,
    ls: Seq<(Option<Seq<char>>, Seq<u8>)>,
)
    requires
        last != Some(file),
        ls.len() > 0,
        forall|i: int| 0 <= i < ls.len() ==> (#[trigger] ls[i]).0 == Some(file),
    ensures
        render_all(last, ls) == (header(file) + contents(ls), Some(file)),
    decreases ls.len(),
{
    if ls.len() == 1 {
        assert(ls.drop_last() =~= seq![]);
        assert(contents(ls.drop_last()) =~= seq![]);
        assert(ls.last() == ls[0]);
        assert(render_all(last, ls.drop_last()) == (Seq::<u8>::empty(), last));
        assert(Seq::<u8>::empty() + (header(file) + ls[0].1) =~= header(file) + contents(ls));
    } else {
        let init = ls.drop_last();
        assert forall|i: int| 0 <= i < init.len() implies (#[trigger] init[i]).0 == Some(file) by {
            assert(init[i] == ls[i]);
        }
        law_one_header_per_run(last, file, init);
        assert(ls.last() == ls[ls.len() - 1]);
        assert(header(file) + contents(init) + ls.last().1 =~= header(file) + contents(ls));
    }
}

} // verus!
