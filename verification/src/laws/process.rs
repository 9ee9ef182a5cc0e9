//! Laws of what is read of a process: the arguments that a kernel hands out read back as
//! themselves, and no name of a process is mistaken for something else.

use crate::laws;
use crate::num;
use crate::sys::bytes;
use crate::sys::linux;
use crate::sys::macos;
use crate::sys::macos::layout;
use crate::text;
use crate::text::Sep;
use vstd::prelude::*;

verus! {

/// Whether no byte is zero.
pub open spec fn zero_free(b: Seq<u8>) -> bool {
    forall|i: int| 0 <= i < b.len() ==> (#[trigger] b[i]) != 0
}

/// Arguments as the kernels hand them out: one behind the other, with a zero byte behind each.
pub open spec fn ended(args: Seq<Seq<u8>>) -> Seq<u8>
    decreases args.len(),
{
    if args.len() == 0 {
        Seq::<u8>::empty()
    } else {
        ended(args.drop_last()) + args.last() + seq![0u8]
    }
}

pub proof fn lemma_runs_behind_zero(b: Seq<u8>, w: Seq<u8>)
    requires
        b.len() == 0 || b.last() == 0,
        zero_free(w),
        w.len() > 0,
    ensures
        bytes::runs(b + w) == bytes::runs(b).push(w),
    decreases w.len(),
{
    let s = b + w;
    let front = w.drop_last();
    let c = w[w.len() - 1];
    assert(s.drop_last() =~= b + front);
    assert(s.last() == c);
    if front.len() == 0 {
        assert(b + front =~= b);
        if b.len() > 0 {
            assert(s[s.len() - 2] == b.last());
        }
        assert(w =~= seq![c]);
    } else {
        assert forall|i: int| 0 <= i < front.len() implies (#[trigger] front[i]) != 0 by {
            assert(front[i] == w[i]);
        }
        lemma_runs_behind_zero(b, front);
        assert(s[s.len() - 2] == w[w.len() - 2]);
        let before = bytes::runs(b + front);
        assert(before.drop_last() =~= bytes::runs(b));
        assert(before.last().push(c) =~= w);
    }
}

proof fn lemma_runs_of_ended(args: Seq<Seq<u8>>)
    requires
        forall|i: int| 0 <= i < args.len() ==> zero_free(#[trigger] args[i]) && args[i].len() > 0,
    ensures
        bytes::runs(ended(args)) == args,
        ended(args).len() == 0 || ended(args).last() == 0,
    decreases args.len(),
{
    if args.len() == 0 {
        assert(bytes::runs(ended(args)) =~= args);
    } else {
        let front = args.drop_last();
        let last = args[args.len() - 1];
        assert forall|i: int| 0 <= i < front.len() implies zero_free(#[trigger] front[i])
            && front[i].len() > 0 by {
            assert(front[i] == args[i]);
        }
        lemma_runs_of_ended(front);
        let b = ended(front);
        lemma_runs_behind_zero(b, last);
        let whole = ended(args);
        assert(whole.drop_last() =~= b + last);
        assert(whole.last() == 0);
        assert(front.push(last) =~= args);
    }
}

/// On Linux, the command line of a process is its arguments, as long as none is empty: an empty
/// one is passed over.
pub proof fn law_linux_arguments_read_back(args: Seq<Seq<u8>>)
    requires
        forall|i: int| 0 <= i < args.len() ==> zero_free(#[trigger] args[i]) && args[i].len() > 0,
    ensures
        linux::process::cmdline_text(Some(ended(args))) == bytes::command_line_text(
            bytes::texts(args),
        ),
{
    lemma_runs_of_ended(args);
}

pub proof fn lemma_zero_at(b: Seq<u8>, from: int, at: int)
    requires
        0 <= from <= at < b.len(),
        b[at] == 0,
        forall|i: int| from <= i < at ==> (#[trigger] b[i]) != 0,
    ensures
        bytes::zero_at(b, from) == Some(at),
    decreases at - from,
{
    if from < at {
        assert(b[from] != 0);
        lemma_zero_at(b, from + 1, at);
    }
}

proof fn lemma_past_zeros(b: Seq<u8>, from: int, to: int)
    requires
        0 <= from <= to < b.len(),
        b[to] != 0,
        forall|i: int| from <= i < to ==> (#[trigger] b[i]) == 0,
    ensures
        macos::process::past_zeros(b, from) == to,
    decreases to - from,
{
    if from < to {
        assert(b[from] == 0);
        lemma_past_zeros(b, from + 1, to);
    }
}

/// The first argument and the others.
proof fn lemma_ended_first(args: Seq<Seq<u8>>)
    requires
        args.len() > 0,
    ensures
        ended(args) == args[0] + seq![0u8] + ended(args.drop_first()),
    decreases args.len(),
{
    let rest = args.drop_first();
    if args.len() == 1 {
        assert(args.drop_last() =~= Seq::<Seq<u8>>::empty());
        assert(ended(args.drop_last()) =~= Seq::<u8>::empty());
        assert(ended(rest) =~= Seq::<u8>::empty());
        assert(ended(args) =~= args[0] + seq![0u8] + ended(rest));
    } else {
        lemma_ended_first(args.drop_last());
        assert(args.drop_last().drop_first() =~= rest.drop_last());
        assert(ended(args) =~= args[0] + seq![0u8] + ended(rest));
    }
}

proof fn lemma_arguments(before: Seq<u8>, args: Seq<Seq<u8>>, behind: Seq<u8>)
    requires
        forall|i: int| 0 <= i < args.len() ==> zero_free(#[trigger] args[i]),
    ensures
        macos::process::arguments(before + ended(args) + behind, before.len() as int, args.len())
            == Some(args),
    decreases args.len(),
{
    let b = before + ended(args) + behind;
    if args.len() == 0 {
        assert(args =~= Seq::<Seq<u8>>::empty());
    } else {
        let first = args[0];
        let rest = args.drop_first();
        lemma_ended_first(args);
        let p = before.len() as int;
        let end = p + first.len();
        assert(zero_free(args[0]));
        assert forall|i: int| p <= i < end implies (#[trigger] b[i]) != 0 by {
            assert(b[i] == first[i - p]);
        }
        assert(b[end] == 0);
        lemma_zero_at(b, p, end);
        assert(b.subrange(p, end) =~= first);
        let next = before + first + seq![0u8];
        assert(b =~= next + ended(rest) + behind);
        assert forall|i: int| 0 <= i < rest.len() implies zero_free(#[trigger] rest[i]) by {
            assert(rest[i] == args[i + 1]);
        }
        lemma_arguments(next, rest, behind);
        assert(next.len() == end + 1);
        assert(seq![first] + rest =~= args);
    }
}

/// What the kernel of macOS hands out for a process: the number of its arguments, the path of its
/// executable, zero bytes, its arguments and its environment.
pub open spec fn handed_out(
    count: Seq<u8>,
    path: Seq<u8>,
    padding: nat,
    args: Seq<Seq<u8>>,
    environment: Seq<u8>,
) -> Seq<u8> {
    count + (path + seq![0u8] + Seq::new(padding, |i: int| 0u8) + ended(args) + environment)
}

/// On macOS, the command line of a process is its arguments, and nothing of the path in front of
/// them or of the environment behind them, as long as the first is not empty: an empty one cannot
/// be told from what stands in front of it.
pub proof fn law_macos_arguments_read_back(
    count: Seq<u8>,
    path: Seq<u8>,
    padding: nat,
    args: Seq<Seq<u8>>,
    environment: Seq<u8>,
    big: bool,
)
    requires
        count.len() == 4,
        layout::u32_at(count, 0, big) == args.len(),
        zero_free(path),
        forall|i: int| 0 <= i < args.len() ==> zero_free(#[trigger] args[i]),
        args.len() > 0 ==> args[0].len() > 0,
    ensures
        macos::process::args_text(handed_out(count, path, padding, args, environment), big)
            == bytes::command_line_text(bytes::texts(args)),
{
    let b = handed_out(count, path, padding, args, environment);
    let zeros = Seq::new(padding, |i: int| 0u8);
    let before = path + seq![0u8] + zeros;
    let rest = before + ended(args) + environment;
    assert(b.skip(4) =~= rest);
    assert(layout::u32_at(b, 0, big) == args.len());
    let end = path.len() as int;
    assert forall|i: int| 0 <= i < end implies (#[trigger] rest[i]) != 0 by {
        assert(rest[i] == path[i]);
    }
    assert(rest[end] == 0);
    lemma_zero_at(rest, 0, end);
    if args.len() == 0 {
        assert(args =~= Seq::<Seq<u8>>::empty());
    } else {
        lemma_ended_first(args);
        let to = before.len() as int;
        assert(zero_free(args[0]));
        assert(rest[to] == args[0][0]);
        assert forall|i: int| end <= i < to implies (#[trigger] rest[i]) == 0 by {
            assert(rest[i] == before[i]);
        }
        lemma_past_zeros(rest, end, to);
        lemma_arguments(before, args, environment);
    }
}

proof fn lemma_rfind(a: Seq<char>, b: Seq<char>)
    requires
        forall|i: int| 0 <= i < b.len() ==> (#[trigger] b[i]) != ')',
    ensures
        text::rfind(a + seq![')'] + b, ')') == Some(a.len() as int),
    decreases b.len(),
{
    let s = a + seq![')'] + b;
    if b.len() == 0 {
        assert(s.last() == ')');
    } else {
        let front = b.drop_last();
        assert forall|i: int| 0 <= i < front.len() implies (#[trigger] front[i]) != ')' by {
            assert(front[i] == b[i]);
        }
        lemma_rfind(a, front);
        assert(s.last() == b[b.len() - 1]);
        assert(s.drop_last() =~= a + seq![')'] + front);
    }
}

proof fn lemma_no_parenthesis(f: Seq<Seq<char>>)
    requires
        forall|i: int, j: int|
            0 <= i < f.len() && 0 <= j < f[i].len() ==> (#[trigger] f[i][j]) != ')',
    ensures
        forall|i: int|
            0 <= i < text::join(f, seq![' ']).len() ==> (#[trigger] text::join(f, seq![' '])[i])
                != ')',
    decreases f.len(),
{
    let s = text::join(f, seq![' ']);
    if f.len() == 1 {
        assert forall|i: int| 0 <= i < s.len() implies (#[trigger] s[i]) != ')' by {
            assert(s[i] == f[0][i]);
        }
    } else if f.len() > 1 {
        let front = f.drop_last();
        assert forall|i: int, j: int| 0 <= i < front.len() && 0 <= j < front[i].len() implies (
        #[trigger] front[i][j]) != ')' by {
            assert(front[i][j] == f[i][j]);
        }
        lemma_no_parenthesis(front);
        let before = text::join(front, seq![' ']);
        assert forall|i: int| 0 <= i < s.len() implies (#[trigger] s[i]) != ')' by {
            if i < before.len() {
                assert(s[i] == before[i]);
            } else if i > before.len() {
                assert(s[i] == f[f.len() - 1][i - before.len() - 1]);
            }
        }
    }
}

/// On Linux, whatever a process is called, spaces and parentheses in its name are not taken for
/// fields: what stands behind the last closing one is read, field by field.
pub proof fn law_names_are_not_taken_for_fields(head: Seq<char>, f: Seq<Seq<char>>)
    requires
        f.len() >= 20,
        laws::fmt::solid(f, Sep::White),
        forall|i: int, j: int|
            0 <= i < f.len() && 0 <= j < f[i].len() ==> (#[trigger] f[i][j]) != ')',
    ensures
        linux::process::stat_fields(head + seq![')'] + (seq![' '] + text::join(f, seq![' '])))
            == match (
            num::parse_signed(f[1]),
            num::parse_unsigned(f[19], 10, 0xffff_ffff_ffff_ffff),
        ) {
            (Some(ppid), Some(ticks)) => Some((ppid, ticks)),
            _ => None,
        },
{
    let joined = text::join(f, seq![' ']);
    let tail = seq![' '] + joined;
    let none = Seq::<char>::empty();
    lemma_no_parenthesis(f);
    assert forall|i: int| 0 <= i < tail.len() implies (#[trigger] tail[i]) != ')' by {
        if i > 0 {
            assert(tail[i] == joined[i - 1]);
        }
    }
    lemma_rfind(head, tail);
    let stat = head + seq![')'] + tail;
    assert(stat.skip(head.len() as int + 1) =~= tail);
    laws::fmt::lemma_split_joined(f, Sep::White);
    laws::fmt::lemma_nonempty_all(f);
    assert(none + seq![' '] + joined =~= tail);
    text::lemma_split_around(none, ' ', joined, Sep::White);
    let pieces = seq![none] + f;
    assert(text::split(tail, Sep::White) =~= pieces);
    lemma_nonempty_behind(f);
}

/// An empty piece in front of others is passed over.
proof fn lemma_nonempty_behind(f: Seq<Seq<char>>)
    ensures
        text::nonempty(seq![Seq::<char>::empty()] + f) == text::nonempty(f),
    decreases f.len(),
{
    let s = seq![Seq::<char>::empty()] + f;
    if f.len() == 0 {
        assert(s.drop_last() =~= Seq::<Seq<char>>::empty());
        assert(text::nonempty(s.drop_last()) =~= Seq::<Seq<char>>::empty());
        assert(text::nonempty(s) =~= text::nonempty(f));
    } else {
        lemma_nonempty_behind(f.drop_last());
        assert(s.drop_last() =~= seq![Seq::<char>::empty()] + f.drop_last());
        assert(s.last() == f.last());
    }
}

} // verus!
