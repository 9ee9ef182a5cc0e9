//! Laws of the command line.

use crate::cli;
use crate::cli::{ArgsView, Parsed, Request};
use crate::num;
use crate::text;
use crate::text::Sep;
use vstd::prelude::*;

verus! {

/// Arguments that are accepted are valid: their ports are in ascending order and each named
/// once, `-9` kills, and killing names a port.
pub proof fn law_accepted_arguments_are_valid(args: Seq<Seq<char>>)
    ensures
        cli::parsed(args) matches Parsed::Run(a) ==> cli::valid(a),
{
    lemma_sigkill_kills(args);
    if let Parsed::Run(a) = cli::steps(args) {
        cli::lemma_below(a.ports, 0x10000);
        if a.ports.len() > 0 {
            assert(a.ports.contains(a.ports[0]));
            assert(cli::in_order(a.ports).contains(a.ports[0]));
        }
    }
}

proof fn lemma_sigkill_kills(args: Seq<Seq<char>>)
    ensures
        cli::steps(args) matches Parsed::Run(a) ==> (a.sigkill ==> a.kill),
    decreases args.len(),
{
    if args.len() > 0 {
        lemma_sigkill_kills(args.drop_last());
    }
}

/// The ports in order are the ports that were named, in ascending order and each once.
pub proof fn law_ports_in_order(ports: Seq<u16>)
    ensures
        cli::ascending(cli::in_order(ports)),
        forall|p: u16| #[trigger] cli::in_order(ports).contains(p) == ports.contains(p),
{
    cli::lemma_below(ports, 0x10000);
}

proof fn lemma_number_trimmed(n: nat)
    ensures
        text::trim(num::dec(n)) == num::dec(n),
        forall|i: int| 0 <= i < num::dec(n).len() ==> (#[trigger] num::dec(n)[i]) != '-',
        forall|i: int| 0 <= i < num::dec(n).len() ==> (#[trigger] num::dec(n)[i]) != ',',
        num::dec(n).len() > 0,
{
    let d = num::dec(n);
    num::lemma_digits_plain(n, 10);
    assert forall|i: int| 0 <= i < d.len() implies (#[trigger] d[i]) != '-' && d[i] != ',' by {
        assert(d[i] == num::digits(n, 10)[i]);
    }
    assert(d[0] == num::digits(n, 10)[0]);
    assert(d[d.len() - 1] == num::digits(n, 10)[d.len() - 1]);
    assert(!text::is_white(d[0]));
    assert(!text::is_white(d[d.len() - 1]));
    assert(text::trim_start(d) == d);
    assert(text::trim_end(d) == d);
}

/// A port as it is written stands for that port alone.
pub proof fn law_a_port_stands_for_itself(p: u16)
    ensures
        cli::list_ports(num::dec(p as nat)) == (seq![p], None::<Seq<char>>),
{
    let d = num::dec(p as nat);
    lemma_number_trimmed(p as nat);
    num::law_written_numbers_read_back(p as nat, 10, 0xffff);
    text::lemma_find_none(d, '-');
    text::lemma_split_solid(d, Sep::Char(','));
    let pieces = seq![d];
    assert(cli::part_ports(d) == Ok::<Seq<u16>, Seq<char>>(seq![p]));
    assert(pieces.drop_last() =~= Seq::<Seq<char>>::empty());
    reveal_with_fuel(cli::parts_ports, 2);
    assert(Seq::<u16>::empty() + seq![p] =~= seq![p]);
}

/// Two ports with a dash between them stand for the ports from the one to the other, both of
/// them too; where the first is the larger, they are refused.
pub proof fn law_a_range_stands_for_its_ports(lo: u16, hi: u16)
    ensures
        ({
            let s = num::dec(lo as nat) + seq!['-'] + num::dec(hi as nat);
            cli::list_ports(s) == if lo <= hi {
                (cli::range(lo, hi), None)
            } else {
                (Seq::<u16>::empty(), Some(cli::backwards_text(s)))
            }
        }),
{
    let a = num::dec(lo as nat);
    let b = num::dec(hi as nat);
    let s = a + seq!['-'] + b;
    lemma_number_trimmed(lo as nat);
    lemma_number_trimmed(hi as nat);
    num::law_written_numbers_read_back(lo as nat, 10, 0xffff);
    num::law_written_numbers_read_back(hi as nat, 10, 0xffff);
    assert forall|i: int| 0 <= i < s.len() implies (#[trigger] s[i]) != ',' by {
        if i < a.len() {
            assert(s[i] == a[i]);
        } else if i > a.len() {
            assert(s[i] == b[i - a.len() - 1]);
        }
    }
    assert(s[0] == a[0]);
    assert(s[s.len() - 1] == b[b.len() - 1]);
    num::lemma_digits_plain(lo as nat, 10);
    num::lemma_digits_plain(hi as nat, 10);
    assert(a[0] == num::digits(lo as nat, 10)[0]);
    assert(b[b.len() - 1] == num::digits(hi as nat, 10)[b.len() - 1]);
    assert(!text::is_white(s[0]));
    assert(!text::is_white(s[s.len() - 1]));
    assert(text::trim_start(s) == s);
    assert(text::trim_end(s) == s);
    assert forall|j: int| 0 <= j < a.len() implies s[j] != '-' by {
        assert(s[j] == a[j]);
    }
    text::lemma_find_at(s, '-', a.len() as int);
    assert(s.take(a.len() as int) =~= a);
    assert(s.skip(a.len() as int + 1) =~= b);
    text::lemma_split_solid(s, Sep::Char(','));
    let pieces = seq![s];
    assert(pieces.drop_last() =~= Seq::<Seq<char>>::empty());
    reveal_with_fuel(cli::parts_ports, 2);
    assert(Seq::<u16>::empty() + cli::range(lo, hi) =~= cli::range(lo, hi));
}

proof fn lemma_parts_ports_add(a: Seq<Seq<char>>, b: Seq<Seq<char>>)
    requires
        cli::parts_ports(a).1 is None,
    ensures
        cli::parts_ports(a + b) == (
            cli::parts_ports(a).0 + cli::parts_ports(b).0,
            cli::parts_ports(b).1,
        ),
    decreases b.len(),
{
    if b.len() == 0 {
        assert(a + b =~= a);
        assert(cli::parts_ports(a).0 + cli::parts_ports(b).0 =~= cli::parts_ports(a).0);
    } else {
        lemma_parts_ports_add(a, b.drop_last());
        assert((a + b).drop_last() =~= a + b.drop_last());
        assert((a + b).last() == b.last());
        assert(cli::parts_ports(a + b).0 =~= cli::parts_ports(a).0 + cli::parts_ports(b).0);
    }
}

/// Two lists with a comma between them stand for the ports of both.
pub proof fn law_commas_join_lists(a: Seq<char>, b: Seq<char>)
    requires
        cli::list_ports(a).1 is None,
    ensures
        cli::list_ports(a + seq![','] + b) == (
            cli::list_ports(a).0 + cli::list_ports(b).0,
            cli::list_ports(b).1,
        ),
{
    text::lemma_split_around(a, ',', b, Sep::Char(','));
    lemma_parts_ports_add(text::split(a, Sep::Char(',')), text::split(b, Sep::Char(',')));
}

/// Whether two lists of arguments ask for the same but for the order in which ports are named.
spec fn alike(a: ArgsView, b: ArgsView) -> bool {
    &&& a == (ArgsView { ports: a.ports, ..b })
    &&& forall|p: u16|
        #![trigger a.ports.contains(p)]
        #![trigger b.ports.contains(p)]
        a.ports.contains(p) == b.ports.contains(p)
    &&& a.ports.len() == b.ports.len()
}

proof fn lemma_contains_add(a: Seq<u16>, b: Seq<u16>)
    ensures
        forall|p: u16| #[trigger] (a + b).contains(p) == (a.contains(p) || b.contains(p)),
{
    let c = a + b;
    assert forall|p: u16| #[trigger] c.contains(p) == (a.contains(p) || b.contains(p)) by {
        if a.contains(p) {
            let k = choose|k: int| 0 <= k < a.len() && a[k] == p;
            assert(c[k] == p);
        }
        if b.contains(p) {
            let k = choose|k: int| 0 <= k < b.len() && b[k] == p;
            assert(c[a.len() + k] == p);
        }
        if c.contains(p) {
            let k = choose|k: int| 0 <= k < c.len() && c[k] == p;
            if k < a.len() {
                assert(a[k] == p);
            } else {
                assert(b[k - a.len()] == p);
            }
        }
    }
}

/// What arguments that ask for the same come to with one more argument.
spec fn both_alike(x: Parsed, y: Parsed) -> bool {
    match (x, y) {
        (Parsed::Run(a), Parsed::Run(b)) => alike(a, b),
        _ => x == y,
    }
}

proof fn lemma_step_alike(a: ArgsView, b: ArgsView, arg: Seq<char>)
    requires
        alike(a, b),
    ensures
        both_alike(cli::step(a, arg), cli::step(b, arg)),
{
    let more = cli::list_ports(arg).0;
    lemma_contains_add(a.ports, more);
    lemma_contains_add(b.ports, more);
}

/// What two lists of arguments ask for together.
spec fn both(a: ArgsView, b: ArgsView) -> ArgsView {
    ArgsView {
        ports: a.ports + b.ports,
        all: a.all || b.all,
        kill: a.kill || b.kill,
        sigkill: a.sigkill || b.sigkill,
        force: a.force || b.force,
        json: a.json || b.json,
        no_color: a.no_color || b.no_color,
    }
}

/// An argument adds what it asks for on its own.
proof fn lemma_step_adds(a: ArgsView, x: Seq<char>)
    ensures
        match cli::step(cli::nothing_asked(), x) {
            Parsed::Run(own) => cli::step(a, x) == Parsed::Run(both(a, own)),
            ended => cli::step(a, x) == ended,
        },
{
    let none = Seq::<u16>::empty();
    assert(a.ports + none =~= a.ports);
    assert(a.ports + (none + cli::list_ports(x).0) =~= a.ports + cli::list_ports(x).0);
}

/// Two arguments that are both accepted may change places.
proof fn lemma_swap(a: ArgsView, x: Seq<char>, y: Seq<char>)
    requires
        cli::step(a, x) is Run,
        cli::step(a, y) is Run,
    ensures
        ({
            let ax = cli::step(a, x)->Run_0;
            let ay = cli::step(a, y)->Run_0;
            both_alike(cli::step(ax, y), cli::step(ay, x))
        }),
{
    lemma_step_adds(a, x);
    lemma_step_adds(a, y);
    let own_x = cli::step(cli::nothing_asked(), x)->Run_0;
    let own_y = cli::step(cli::nothing_asked(), y)->Run_0;
    lemma_step_adds(both(a, own_x), y);
    lemma_step_adds(both(a, own_y), x);
    lemma_swap_added(a, own_x, own_y);
}

proof fn lemma_swap_added(a: ArgsView, x: ArgsView, y: ArgsView)
    ensures
        alike(both(both(a, x), y), both(both(a, y), x)),
{
    lemma_contains_add(a.ports, x.ports);
    lemma_contains_add(a.ports, y.ports);
    lemma_contains_add(a.ports + x.ports, y.ports);
    lemma_contains_add(a.ports + y.ports, x.ports);
}

proof fn lemma_swapped_steps(
    before: Seq<Seq<char>>,
    x: Seq<char>,
    y: Seq<char>,
    after: Seq<Seq<char>>,
)
    requires
        cli::steps(before) matches Parsed::Run(a) && cli::step(a, x) is Run && cli::step(a, y)
            is Run,
    ensures
        both_alike(
            cli::steps(before + seq![x, y] + after),
            cli::steps(before + seq![y, x] + after),
        ),
    decreases after.len(),
{
    let s = before + seq![x, y] + after;
    let t = before + seq![y, x] + after;
    if after.len() == 0 {
        let a = cli::steps(before)->Run_0;
        assert(s.drop_last() =~= before.push(x));
        assert(s.drop_last().drop_last() =~= before);
        assert(t.drop_last() =~= before.push(y));
        assert(t.drop_last().drop_last() =~= before);
        assert(s.last() == y && s.drop_last().last() == x);
        assert(t.last() == x && t.drop_last().last() == y);
        assert(cli::steps(s.drop_last()) == cli::step(a, x));
        assert(cli::steps(t.drop_last()) == cli::step(a, y));
        lemma_swap(a, x, y);
    } else {
        lemma_swapped_steps(before, x, y, after.drop_last());
        assert(s.drop_last() =~= before + seq![x, y] + after.drop_last());
        assert(t.drop_last() =~= before + seq![y, x] + after.drop_last());
        assert(s.last() == after.last() && t.last() == after.last());
        match (cli::steps(s.drop_last()), cli::steps(t.drop_last())) {
            (Parsed::Run(a), Parsed::Run(b)) => lemma_step_alike(a, b, after.last()),
            _ => {},
        }
    }
}

proof fn lemma_below_same(p: Seq<u16>, q: Seq<u16>, n: nat)
    requires
        forall|x: u16| p.contains(x) == q.contains(x),
    ensures
        cli::below(p, n) == cli::below(q, n),
    decreases n,
{
    if n > 0 {
        lemma_below_same(p, q, (n - 1) as nat);
        assert(p.contains((n - 1) as u16) == q.contains((n - 1) as u16));
    }
}

/// The order of arguments is free: options and ports may stand in any order. Any two
/// neighbours that are accepted may change places.
pub proof fn law_arguments_come_in_any_order(
    before: Seq<Seq<char>>,
    x: Seq<char>,
    y: Seq<char>,
    after: Seq<Seq<char>>,
)
    requires
        cli::steps(before) matches Parsed::Run(a) && cli::step(a, x) is Run && cli::step(a, y)
            is Run,
    ensures
        cli::parsed(before + seq![x, y] + after) == cli::parsed(before + seq![y, x] + after),
{
    lemma_swapped_steps(before, x, y, after);
    match (cli::steps(before + seq![x, y] + after), cli::steps(before + seq![y, x] + after)) {
        (Parsed::Run(a), Parsed::Run(b)) => lemma_below_same(a.ports, b.ports, 0x10000),
        _ => {},
    }
}

/// Whether one of the arguments is the option, in its short or its long form.
pub open spec fn given(args: Seq<Seq<char>>, short: Seq<char>, long: Seq<char>) -> bool {
    args.contains(short) || args.contains(long)
}

proof fn lemma_options()
    ensures
        "-h"@ == seq!['-', 'h'],
        "--help"@ == seq!['-', '-', 'h', 'e', 'l', 'p'],
        "-V"@ == seq!['-', 'V'],
        "--version"@ == seq!['-', '-', 'v', 'e', 'r', 's', 'i', 'o', 'n'],
        "-a"@ == seq!['-', 'a'],
        "--all"@ == seq!['-', '-', 'a', 'l', 'l'],
        "-k"@ == seq!['-', 'k'],
        "--kill"@ == seq!['-', '-', 'k', 'i', 'l', 'l'],
        "-9"@ == seq!['-', '9'],
        "-f"@ == seq!['-', 'f'],
        "--force"@ == seq!['-', '-', 'f', 'o', 'r', 'c', 'e'],
        "-j"@ == seq!['-', 'j'],
        "--json"@ == seq!['-', '-', 'j', 's', 'o', 'n'],
        "--no-color"@ == seq!['-', '-', 'n', 'o', '-', 'c', 'o', 'l', 'o', 'r'],
{
    reveal_strlit("-h");
    reveal_strlit("--help");
    reveal_strlit("-V");
    reveal_strlit("--version");
    reveal_strlit("-a");
    reveal_strlit("--all");
    reveal_strlit("-k");
    reveal_strlit("--kill");
    reveal_strlit("-9");
    reveal_strlit("-f");
    reveal_strlit("--force");
    reveal_strlit("-j");
    reveal_strlit("--json");
    reveal_strlit("--no-color");
}

/// All options, in both of their forms, by their lengths and the characters that tell them apart.
proof fn lemma_options_differ()
    ensures
        "-h"@.len() == 2 && "-h"@[1] == 'h',
        "--help"@.len() == 6 && "--help"@[2] == 'h',
        "-V"@.len() == 2 && "-V"@[1] == 'V',
        "--version"@.len() == 9,
        "-a"@.len() == 2 && "-a"@[1] == 'a',
        "--all"@.len() == 5,
        "-k"@.len() == 2 && "-k"@[1] == 'k',
        "--kill"@.len() == 6 && "--kill"@[2] == 'k',
        "-9"@.len() == 2 && "-9"@[1] == '9',
        "-f"@.len() == 2 && "-f"@[1] == 'f',
        "--force"@.len() == 7,
        "-j"@.len() == 2 && "-j"@[1] == 'j',
        "--json"@.len() == 6 && "--json"@[2] == 'j',
        "--no-color"@.len() == 10,
{
    lemma_options();
}

proof fn lemma_contains_last(args: Seq<Seq<char>>, x: Seq<char>)
    requires
        args.len() > 0,
    ensures
        args.contains(x) == (args.drop_last().contains(x) || args.last() == x),
{
    let front = args.drop_last();
    if front.contains(x) {
        let k = choose|k: int| 0 <= k < front.len() && front[k] == x;
        assert(args[k] == x);
    }
    if args.contains(x) {
        let k = choose|k: int| 0 <= k < args.len() && args[k] == x;
        if k < front.len() {
            assert(front[k] == x);
        }
    }
    assert(args[args.len() - 1] == args.last());
}

/// Whether an argument is one of the options that say how to run.
pub open spec fn is_option(arg: Seq<char>) -> bool {
    ||| arg == "-a"@ || arg == "--all"@
    ||| arg == "-k"@ || arg == "--kill"@
    ||| arg == "-9"@
    ||| arg == "-f"@ || arg == "--force"@
    ||| arg == "-j"@ || arg == "--json"@
    ||| arg == "--no-color"@
}

/// Whether an argument is one of the options that say what to show instead of running.
pub open spec fn is_question(arg: Seq<char>) -> bool {
    arg == "-h"@ || arg == "--help"@ || arg == "-V"@ || arg == "--version"@
}

proof fn lemma_flags(args: Seq<Seq<char>>)
    ensures
        cli::steps(args) matches Parsed::Run(a) ==> {
            &&& a.all == given(args, "-a"@, "--all"@)
            &&& a.kill == (given(args, "-k"@, "--kill"@) || args.contains("-9"@))
            &&& a.sigkill == args.contains("-9"@)
            &&& a.force == given(args, "-f"@, "--force"@)
            &&& a.json == given(args, "-j"@, "--json"@)
            &&& a.no_color == args.contains("--no-color"@)
        },
    decreases args.len(),
{
    if args.len() > 0 {
        lemma_flags(args.drop_last());
        lemma_options_differ();
        lemma_contains_last(args, "-a"@);
        lemma_contains_last(args, "--all"@);
        lemma_contains_last(args, "-k"@);
        lemma_contains_last(args, "--kill"@);
        lemma_contains_last(args, "-9"@);
        lemma_contains_last(args, "-f"@);
        lemma_contains_last(args, "--force"@);
        lemma_contains_last(args, "-j"@);
        lemma_contains_last(args, "--json"@);
        lemma_contains_last(args, "--no-color"@);
    }
}

/// Each option sets what it stands for and nothing else: where the arguments are accepted, what
/// they ask for is set exactly where one of the options for it is among them. So nothing is
/// forced, killed or shown that no option asks for.
pub proof fn law_options_set_what_they_stand_for(args: Seq<Seq<char>>)
    ensures
        cli::parsed(args) matches Parsed::Run(a) ==> {
            &&& a.all == (args.contains("-a"@) || args.contains("--all"@))
            &&& a.kill == (args.contains("-k"@) || args.contains("--kill"@) || args.contains(
                "-9"@,
            ))
            &&& a.sigkill == args.contains("-9"@)
            &&& a.force == (args.contains("-f"@) || args.contains("--force"@))
            &&& a.json == (args.contains("-j"@) || args.contains("--json"@))
            &&& a.no_color == args.contains("--no-color"@)
        },
{
    lemma_flags(args);
}

/// The number that a text in decimal stands for, where it is a port.
pub open spec fn port_number(s: Seq<char>) -> Option<nat> {
    num::parse_unsigned(s, 10, 65535)
}

/// Whether a part of a list is a port, or a range that a dash stands in the middle of.
pub open spec fn names_port(part: Seq<char>, p: u16) -> bool {
    ||| (!part.contains('-') && port_number(part) == Some(p as nat))
    ||| exists|at: int|
        {
            &&& 0 <= at < part.len()
            &&& #[trigger] part[at] == '-'
            &&& !part.take(at).contains('-')
            &&& (port_number(text::trim(part.take(at))) matches Some(lo) && lo <= p)
            &&& (port_number(text::trim(part.skip(at + 1))) matches Some(hi) && p <= hi)
        }
}

/// Whether one of the parts of an argument names the port.
pub open spec fn argument_names(arg: Seq<char>, p: u16) -> bool {
    exists|k: int|
        0 <= k < text::split(arg, Sep::Char(',')).len() && names_port(
            text::trim(#[trigger] text::split(arg, Sep::Char(','))[k]),
            p,
        )
}

proof fn lemma_part_ports(piece: Seq<char>)
    ensures
        cli::part_ports(piece) matches Ok(ports) ==> forall|p: u16| #[trigger]
            ports.contains(p) == names_port(text::trim(piece), p),
{
    let part = text::trim(piece);
    if let Ok(ports) = cli::part_ports(piece) {
        text::lemma_find_is(part, '-');
        match text::find(part, '-') {
            Some(at) => {
                lemma_find_first(part, '-');
                let lo = text::trim(part.take(at));
                let hi = text::trim(part.skip(at + 1));
                let l = cli::port(lo)->0;
                let h = cli::port(hi)->0;
                assert(ports == cli::range(l, h));
                assert forall|p: u16| #[trigger] ports.contains(p) == names_port(part, p) by {
                    if l <= p <= h {
                        assert(ports[p - l] == p);
                        assert(part[at] == '-');
                    }
                    if names_port(part, p) {
                        let k = choose|k: int|
                            {
                                &&& 0 <= k < part.len()
                                &&& #[trigger] part[k] == '-'
                                &&& !part.take(k).contains('-')
                                &&& (port_number(text::trim(part.take(k))) matches Some(x) && x
                                    <= p)
                                &&& (port_number(text::trim(part.skip(k + 1))) matches Some(y)
                                    && p <= y)
                            };
                        if k < at {
                            assert(part.take(at)[k] == '-');
                            assert(part.take(at).contains('-'));
                        } else if at < k {
                            assert(part.take(k)[at] == '-');
                            assert(part.take(k).contains('-'));
                        }
                    }
                }
            },
            None => {
                assert forall|p: u16| #[trigger] ports.contains(p) == names_port(part, p) by {
                    if part.len() > 0 {
                        assert(ports[0] == cli::port(part)->0);
                    }
                    assert forall|k: int| 0 <= k < part.len() implies part[k] != '-' by {
                        assert(!part.contains('-'));
                    }
                }
            },
        }
    }
}

/// What is found first has nothing like it in front of it.
proof fn lemma_find_first(s: Seq<char>, c: char)
    ensures
        text::find(s, c) matches Some(at) ==> 0 <= at < s.len() && s[at] == c && !s.take(
            at,
        ).contains(c),
{
    text::lemma_find_is(s, c);
}

proof fn lemma_parts_named(pieces: Seq<Seq<char>>)
    ensures
        cli::parts_ports(pieces).1 is None ==> forall|p: u16| #[trigger]
            cli::parts_ports(pieces).0.contains(p) == exists|k: int|
                0 <= k < pieces.len() && names_port(text::trim(#[trigger] pieces[k]), p),
    decreases pieces.len(),
{
    if pieces.len() > 0 && cli::parts_ports(pieces).1 is None {
        let front = pieces.drop_last();
        let last = pieces[pieces.len() - 1];
        lemma_parts_named(front);
        lemma_part_ports(last);
        let before = cli::parts_ports(front).0;
        let more = cli::part_ports(last)->Ok_0;
        lemma_contains_add(before, more);
        assert forall|p: u16| #[trigger] cli::parts_ports(pieces).0.contains(p) == exists|k: int|
            0 <= k < pieces.len() && names_port(text::trim(#[trigger] pieces[k]), p) by {
            assert((before + more).contains(p) == (before.contains(p) || more.contains(p)));
            if before.contains(p) {
                let k = choose|k: int|
                    0 <= k < front.len() && names_port(text::trim(#[trigger] front[k]), p);
                assert(pieces[k] == front[k]);
            }
            if exists|k: int|
                0 <= k < pieces.len() && names_port(text::trim(#[trigger] pieces[k]), p) {
                let k = choose|k: int|
                    0 <= k < pieces.len() && names_port(text::trim(#[trigger] pieces[k]), p);
                if k < front.len() {
                    assert(front[k] == pieces[k]);
                }
            }
        }
    }
}

/// Whether one of the arguments that are no options names the port.
pub open spec fn named(args: Seq<Seq<char>>, p: u16) -> bool {
    exists|i: int|
        0 <= i < args.len() && !is_option(#[trigger] args[i]) && argument_names(args[i], p)
}

proof fn lemma_named_last(args: Seq<Seq<char>>, p: u16)
    requires
        args.len() > 0,
    ensures
        named(args, p) == (named(args.drop_last(), p) || (!is_option(args.last())
            && argument_names(args.last(), p))),
{
    let front = args.drop_last();
    if named(front, p) {
        let i = choose|i: int|
            0 <= i < front.len() && !is_option(#[trigger] front[i]) && argument_names(front[i], p);
        assert(args[i] == front[i]);
    }
    if named(args, p) {
        let i = choose|i: int|
            0 <= i < args.len() && !is_option(#[trigger] args[i]) && argument_names(args[i], p);
        if i < front.len() {
            assert(front[i] == args[i]);
        }
    }
    assert(args[args.len() - 1] == args.last());
}

proof fn lemma_step_ports(b: ArgsView, arg: Seq<char>)
    ensures
        cli::step(b, arg) matches Parsed::Run(a) ==> a.ports == if is_option(arg) {
            b.ports
        } else {
            b.ports + cli::list_ports(arg).0
        },
        cli::step(b, arg) is Run && !is_option(arg) ==> cli::list_ports(arg).1 is None,
{
    lemma_options_differ();
}

proof fn lemma_ports_named(args: Seq<Seq<char>>)
    ensures
        cli::steps(args) matches Parsed::Run(a) ==> forall|p: u16| #[trigger]
            a.ports.contains(p) == named(args, p),
    decreases args.len(),
{
    if args.len() > 0 {
        let front = args.drop_last();
        let arg = args.last();
        lemma_ports_named(front);
        match (cli::steps(front), cli::steps(args)) {
            (Parsed::Run(b), Parsed::Run(a)) => {
                let own = cli::list_ports(arg).0;
                lemma_step_ports(b, arg);
                lemma_parts_named(text::split(arg, Sep::Char(',')));
                lemma_contains_add(b.ports, own);
                assert forall|p: u16| #[trigger] a.ports.contains(p) == named(args, p) by {
                    lemma_named_last(args, p);
                    assert(b.ports.contains(p) == named(front, p));
                    assert((b.ports + own).contains(p) == (b.ports.contains(p) || own.contains(p)));
                    if !is_option(arg) {
                        assert(own.contains(p) == argument_names(arg, p));
                    }
                }
            },
            _ => {},
        }
    } else {
        assert(cli::nothing_asked().ports.len() == 0);
    }
}

/// The ports that are asked for are exactly those that an argument names, alone, in a list or in
/// a range: the others are options. They are in ascending order and each named once.
pub proof fn law_ports_are_those_named(args: Seq<Seq<char>>)
    ensures
        cli::parsed(args) matches Parsed::Run(a) ==> {
            &&& forall|p: u16| #[trigger]
                a.ports.contains(p) == named(args, p)
            &&& forall|i: int, j: int|
                #![trigger a.ports[i], a.ports[j]]
                0 <= i < j < a.ports.len() ==> a.ports[i] < a.ports[j]
        },
{
    lemma_ports_named(args);
    if let Parsed::Run(a) = cli::steps(args) {
        cli::lemma_below(a.ports, 0x10000);
    }
}

/// Whether a part of a list is empty, a port, or a range that does not end before it starts.
pub open spec fn is_part(part: Seq<char>) -> bool {
    ||| part.len() == 0
    ||| (!part.contains('-') && port_number(part) is Some)
    ||| exists|at: int|
        {
            &&& 0 <= at < part.len()
            &&& #[trigger] part[at] == '-'
            &&& !part.take(at).contains('-')
            &&& (port_number(text::trim(part.take(at))) matches Some(lo) && port_number(
                text::trim(part.skip(at + 1)),
            ) matches Some(hi) && lo <= hi)
        }
}

/// Whether a part of a list is a range that ends before it starts.
pub open spec fn is_backwards(part: Seq<char>) -> bool {
    exists|at: int|
        {
            &&& 0 <= at < part.len()
            &&& #[trigger] part[at] == '-'
            &&& !part.take(at).contains('-')
            &&& (port_number(text::trim(part.take(at))) matches Some(lo) && port_number(
                text::trim(part.skip(at + 1)),
            ) matches Some(hi) && lo > hi)
        }
}

/// Whether all parts of an argument are parts of a list of ports.
pub open spec fn is_list(arg: Seq<char>) -> bool {
    forall|k: int|
        0 <= k < text::split(arg, Sep::Char(',')).len() ==> is_part(
            text::trim(#[trigger] text::split(arg, Sep::Char(','))[k]),
        )
}

/// Whether an argument starts with a dash and something else than a digit.
pub open spec fn dashed(arg: Seq<char>) -> bool {
    arg.len() > 1 && arg[0] == '-' && !('0' <= arg[1] <= '9')
}

/// Whether an argument is one that a run can be asked for with.
pub open spec fn readable(arg: Seq<char>) -> bool {
    is_option(arg) || (!is_question(arg) && !dashed(arg) && is_list(arg))
}

/// What is said of a part that is none.
pub open spec fn complaint(part: Seq<char>) -> Seq<char> {
    if is_backwards(part) {
        "端口区间 "@ + part + " 的起点比终点大"@
    } else {
        "无法解析的端口格式 `"@ + part + "`（有效示例：1-65535，或 3000-3010）"@
    }
}

/// Whether a list is refused for its first part that is none, the part of the given index.
pub open spec fn refused_for(pieces: Seq<Seq<char>>, k: int, r: Parsed) -> bool {
    &&& 0 <= k < pieces.len()
    &&& !is_part(text::trim(pieces[k]))
    &&& forall|m: int| 0 <= m < k ==> is_part(text::trim(#[trigger] pieces[m]))
    &&& r == Parsed::Wrong(complaint(text::trim(pieces[k])))
}

proof fn lemma_is_part(piece: Seq<char>)
    ensures
        (cli::part_ports(piece) is Ok) == is_part(text::trim(piece)),
        cli::part_ports(piece) matches Err(e) ==> e == complaint(text::trim(piece)),
{
    let part = text::trim(piece);
    text::lemma_find_is(part, '-');
    match text::find(part, '-') {
        Some(at) => {
            lemma_find_first(part, '-');
            assert(part[at] == '-');
            assert(part.contains('-'));
            assert forall|k: int|
                0 <= k < part.len() && #[trigger] part[k] == '-' && !part.take(k).contains(
                    '-',
                ) implies k == at by {
                if k < at {
                    assert(part.take(at)[k] == '-');
                } else if at < k {
                    assert(part.take(k)[at] == '-');
                }
            }
        },
        None => {},
    }
}

proof fn lemma_parts_read(pieces: Seq<Seq<char>>)
    ensures
        (cli::parts_ports(pieces).1 is None) == forall|k: int|
            0 <= k < pieces.len() ==> is_part(text::trim(#[trigger] pieces[k])),
        cli::parts_ports(pieces).1 matches Some(e) ==> exists|k: int|
            {
                &&& 0 <= k < pieces.len()
                &&& !is_part(text::trim(#[trigger] pieces[k]))
                &&& e == complaint(text::trim(pieces[k]))
                &&& forall|m: int| 0 <= m < k ==> is_part(text::trim(#[trigger] pieces[m]))
            },
    decreases pieces.len(),
{
    if pieces.len() > 0 {
        let front = pieces.drop_last();
        let n = pieces.len() - 1;
        lemma_parts_read(front);
        lemma_is_part(pieces[n]);
        assert forall|k: int| 0 <= k < front.len() implies #[trigger] front[k] == pieces[k] by {}
        match cli::parts_ports(front).1 {
            Some(e) => {
                let k = choose|k: int|
                    {
                        &&& 0 <= k < front.len()
                        &&& !is_part(text::trim(#[trigger] front[k]))
                        &&& e == complaint(text::trim(front[k]))
                        &&& forall|m: int| 0 <= m < k ==> is_part(text::trim(#[trigger] front[m]))
                    };
                assert(pieces[k] == front[k]);
                assert forall|m: int| 0 <= m < k implies is_part(
                    text::trim(#[trigger] pieces[m]),
                ) by {
                    assert(front[m] == pieces[m]);
                }
            },
            None => {
                assert forall|m: int| 0 <= m < n implies is_part(
                    text::trim(#[trigger] pieces[m]),
                ) by {
                    assert(front[m] == pieces[m]);
                }
            },
        }
    }
}

proof fn lemma_readable(a: ArgsView, arg: Seq<char>)
    ensures
        (cli::step(a, arg) is Run) == readable(arg),
{
    lemma_options_differ();
    lemma_options();
    lemma_parts_read(text::split(arg, Sep::Char(',')));
}

proof fn lemma_all_readable(args: Seq<Seq<char>>)
    requires
        forall|i: int| 0 <= i < args.len() ==> readable(#[trigger] args[i]),
    ensures
        cli::steps(args) is Run,
    decreases args.len(),
{
    if args.len() > 0 {
        let front = args.drop_last();
        assert forall|i: int| 0 <= i < front.len() implies readable(#[trigger] front[i]) by {
            assert(front[i] == args[i]);
        }
        lemma_all_readable(front);
        lemma_readable(cli::steps(front)->Run_0, args[args.len() - 1]);
    }
}

/// Arguments are accepted where each is an option or a list of ports, unless they ask to kill and
/// name no port: then it is said that one has to be named.
pub proof fn law_which_arguments_are_accepted(args: Seq<Seq<char>>)
    requires
        forall|i: int| 0 <= i < args.len() ==> readable(#[trigger] args[i]),
    ensures
        ({
            let kills = args.contains("-k"@) || args.contains("--kill"@) || args.contains("-9"@);
            let some = exists|p: u16| #[trigger] named(args, p);
            if kills && !some {
                cli::parsed(args) == Parsed::Wrong(
                    "使用 -k 选项时必须指定目标端口，以防意外终止所有监听进程"@,
                )
            } else {
                cli::parsed(args) is Run
            }
        }),
{
    lemma_all_readable(args);
    lemma_flags(args);
    lemma_ports_named(args);
    let a = cli::steps(args)->Run_0;
    if a.ports.len() > 0 {
        let p = a.ports[0];
        assert(a.ports.contains(p));
        assert(named(args, p));
    }
    if exists|p: u16| #[trigger] named(args, p) {
        let p = choose|p: u16| #[trigger] named(args, p);
        assert(a.ports.contains(p));
    }
}

/// The first argument that is neither an option for a run nor a list of ports decides: it asks
/// for help or the version, or it is refused, with what is wrong with it.
pub proof fn law_what_is_not_accepted_is_told(args: Seq<Seq<char>>, i: int)
    requires
        0 <= i < args.len(),
        !readable(args[i]),
        forall|k: int| 0 <= k < i ==> readable(#[trigger] args[k]),
    ensures
        args[i] == "-h"@ || args[i] == "--help"@ ==> cli::parsed(args) == Parsed::Help,
        args[i] == "-V"@ || args[i] == "--version"@ ==> cli::parsed(args) == Parsed::Version,
        !is_question(args[i]) && dashed(args[i]) ==> cli::parsed(args) == Parsed::Wrong(
            "未知选项 "@ + args[i],
        ),
        !is_question(args[i]) && !dashed(args[i]) ==> exists|k: int| #[trigger]
            refused_for(text::split(args[i], Sep::Char(',')), k, cli::parsed(args)),
{
    let arg = args[i];
    let pieces = text::split(arg, Sep::Char(','));
    lemma_options_differ();
    lemma_parts_read(pieces);
    lemma_told(args, i);
    if !is_question(arg) && !dashed(arg) {
        let e = cli::list_ports(arg).1->0;
        let k = choose|k: int|
            {
                &&& 0 <= k < pieces.len()
                &&& !is_part(text::trim(#[trigger] pieces[k]))
                &&& e == complaint(text::trim(pieces[k]))
                &&& forall|m: int| 0 <= m < k ==> is_part(text::trim(#[trigger] pieces[m]))
            };
        assert(refused_for(pieces, k, cli::parsed(args)));
    }
}

proof fn lemma_told(args: Seq<Seq<char>>, i: int)
    requires
        0 <= i < args.len(),
        !readable(args[i]),
        forall|k: int| 0 <= k < i ==> readable(#[trigger] args[k]),
    ensures
        cli::steps(args) == cli::step(cli::nothing_asked(), args[i]),
        !(cli::steps(args) is Run),
    decreases args.len(),
{
    let front = args.drop_last();
    if i < front.len() {
        assert forall|k: int| 0 <= k < i implies readable(#[trigger] front[k]) by {
            assert(front[k] == args[k]);
        }
        lemma_told(front, i);
    } else {
        assert forall|k: int| 0 <= k < front.len() implies readable(#[trigger] front[k]) by {
            assert(front[k] == args[k]);
        }
        lemma_all_readable(front);
        let a = cli::steps(front)->Run_0;
        lemma_readable(a, args[i]);
        lemma_step_adds(a, args[i]);
        lemma_readable(cli::nothing_asked(), args[i]);
    }
}

/// What a request is, by what the arguments come to: help, the version, a run with what was asked
/// for, or what is wrong.
pub proof fn law_what_is_requested(r: Result<Request, String>, args: Seq<Seq<char>>)
    requires
        cli::outcome(r) == cli::parsed(args),
    ensures
        r matches Ok(Request::Help) <==> cli::parsed(args) is Help,
        r matches Ok(Request::Version) <==> cli::parsed(args) is Version,
        r is Err <==> cli::parsed(args) is Wrong,
        r matches Err(e) ==> cli::parsed(args) == Parsed::Wrong(e@),
        r matches Ok(Request::Run(a)) ==> cli::parsed(args) matches Parsed::Run(b) && {
            &&& a.ports@ == b.ports
            &&& a.all == b.all && a.kill == b.kill && a.sigkill == b.sigkill
            &&& a.force == b.force && a.json == b.json && a.no_color == b.no_color
        },
{
}

/// What is said of wrong arguments and of a failure, on the lines that say it.
pub proof fn law_how_errors_are_told(e: Seq<char>)
    ensures
        cli::usage_text(e) == "ports: "@ + e + "\n"@ + "试试 `ports --help`\n"@,
        cli::failure_text(e) == "ports: "@ + e + "\n"@,
{
    reveal_strlit("\n");
    reveal_strlit("试试 `ports --help`\n");
    reveal_strlit("\n试试 `ports --help`\n");
    assert(cli::usage_text(e) =~= "ports: "@ + e + "\n"@ + "试试 `ports --help`\n"@);
}

} // verus!
