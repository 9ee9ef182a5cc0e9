//! Laws of what is written line by line, the details of a port and the reports on killing: what
//! processes are called and run cannot drive the terminal, and colours change nothing else.

use crate::cli::ArgsView;
use crate::fmt;
use crate::fmt::CalendarTime;
use crate::kill;
use crate::kill::{EventView, JobView, Signal};
use crate::laws::colour;
use crate::laws::json;
use crate::laws::table;
use crate::model;
use crate::model::{EntryView, Proto, TcpState};
use crate::num;
use crate::render;
use crate::render::detail;
use crate::text;
use crate::text::Sep;
use vstd::prelude::*;

verus! {

/// Whether all characters of a text are line feeds or may stand on a line.
pub open spec fn ruled(on: bool, s: Seq<char>) -> bool {
    forall|i: int| 0 <= i < s.len() ==> (#[trigger] s[i] == '\n' || table::allowed(on, s[i]))
}

proof fn lemma_ruled_add(on: bool, a: Seq<char>, b: Seq<char>)
    requires
        ruled(on, a),
        ruled(on, b),
    ensures
        ruled(on, a + b),
{
    let s = a + b;
    assert forall|i: int| 0 <= i < s.len() implies (#[trigger] s[i] == '\n' || table::allowed(
        on,
        s[i],
    )) by {
        if i < a.len() {
            assert(s[i] == a[i]);
        } else {
            assert(s[i] == b[i - a.len()]);
        }
    }
}

proof fn lemma_ruled_three(on: bool, a: Seq<char>, b: Seq<char>, c: Seq<char>)
    requires
        ruled(on, a),
        ruled(on, b),
        ruled(on, c),
    ensures
        ruled(on, a + b + c),
{
    lemma_ruled_add(on, a, b);
    lemma_ruled_add(on, a + b, c);
}

proof fn lemma_ruled_five(
    on: bool,
    a: Seq<char>,
    b: Seq<char>,
    c: Seq<char>,
    d: Seq<char>,
    e: Seq<char>,
)
    requires
        ruled(on, a),
        ruled(on, b),
        ruled(on, c),
        ruled(on, d),
        ruled(on, e),
    ensures
        ruled(on, a + b + c + d),
        ruled(on, a + b + c + d + e),
{
    lemma_ruled_three(on, a, b, c);
    lemma_ruled_three(on, a + b + c, d, e);
    lemma_ruled_add(on, a + b + c, d);
}

proof fn lemma_ruled_painted(on: bool, code: Seq<char>, s: Seq<char>)
    requires
        ruled(on, code),
        ruled(on, s),
    ensures
        ruled(on, fmt::painted(on, code, s)),
{
    if on {
        reveal_strlit("\x1b[");
        reveal_strlit("m");
        reveal_strlit("\x1b[0m");
        lemma_ruled_five(on, "\x1b["@, code, "m"@, s, "\x1b[0m"@);
    }
}

proof fn lemma_ruled_colours(on: bool, s: Seq<char>)
    requires
        ruled(on, s),
    ensures
        ruled(on, fmt::bold(on, s)),
        ruled(on, fmt::dim(on, s)),
        ruled(on, fmt::cyan(on, s)),
        ruled(on, fmt::green(on, s)),
        ruled(on, fmt::yellow(on, s)),
        ruled(on, fmt::red(on, s)),
{
    reveal_strlit("1");
    reveal_strlit("2");
    reveal_strlit("36");
    reveal_strlit("32");
    reveal_strlit("33");
    reveal_strlit("31");
    lemma_ruled_painted(on, "1"@, s);
    lemma_ruled_painted(on, "2"@, s);
    lemma_ruled_painted(on, "36"@, s);
    lemma_ruled_painted(on, "32"@, s);
    lemma_ruled_painted(on, "33"@, s);
    lemma_ruled_painted(on, "31"@, s);
}

/// What numbers, names and times are written as.
proof fn lemma_ruled_basics(on: bool, n: nat, i: int, s: Seq<char>, e: EntryView)
    ensures
        ruled(on, num::dec(n)),
        ruled(on, num::signed(i)),
        ruled(on, fmt::sanitized(s)),
        ruled(on, fmt::duration_text(n)),
        ruled(on, model::proto_name(e.proto)),
        e.state matches Some(t) ==> ruled(on, model::state_name(t)),
{
    table::lemma_tidy_dec(on, n);
    table::lemma_tidy_signed(on, i);
    table::lemma_tidy_sanitized(on, s);
    table::lemma_tidy_duration(on, n);
    match e.state {
        Some(t) => table::lemma_tidy_names(on, e.proto, t),
        None => table::lemma_tidy_names(on, e.proto, TcpState::Closed),
    }
}

proof fn lemma_ruled_field(on: bool, key: Seq<char>, val: Seq<char>)
    requires
        ruled(on, key),
        ruled(on, val),
    ensures
        ruled(on, detail::field(on, key, val)),
{
    reveal_strlit("  ");
    reveal_strlit("\n");
    let fill = text::spaces((detail::KEY - fmt::columns(key)) as nat);
    assert(ruled(on, fill));
    lemma_ruled_add(on, key, fill);
    let name = fmt::padded(key, detail::KEY as nat);
    assert(ruled(on, name));
    lemma_ruled_colours(on, name);
    lemma_ruled_five(on, "  "@, fmt::dim(on, name), "  "@, val, "\n"@);
}

proof fn lemma_split_ruled(on: bool, s: Seq<char>, sep: Sep)
    requires
        ruled(on, s),
    ensures
        forall|i: int|
            0 <= i < text::split(s, sep).len() ==> ruled(on, #[trigger] text::split(s, sep)[i]),
    decreases s.len(),
{
    if s.len() > 0 {
        let front = s.drop_last();
        assert forall|i: int| 0 <= i < front.len() implies (#[trigger] front[i] == '\n'
            || table::allowed(on, front[i])) by {
            assert(front[i] == s[i]);
        }
        lemma_split_ruled(on, front, sep);
        text::lemma_split_len(front, sep);
        let before = text::split(front, sep);
        let all = text::split(s, sep);
        let c = s[s.len() - 1];
        assert forall|i: int| 0 <= i < all.len() implies ruled(on, #[trigger] all[i]) by {
            if i < before.len() - 1 {
                assert(all[i] == before[i]);
            } else if text::separates(sep, c) {
                if i == before.len() - 1 {
                    assert(all[i] == before[i]);
                }
            } else {
                assert(ruled(on, before[before.len() - 1]));
                lemma_ruled_add(on, before.last(), seq![c]);
                assert(before.last() + seq![c] =~= all[i]);
            }
        }
    }
}

proof fn lemma_nonempty_ruled(on: bool, pieces: Seq<Seq<char>>)
    requires
        forall|i: int| 0 <= i < pieces.len() ==> ruled(on, #[trigger] pieces[i]),
    ensures
        forall|i: int|
            0 <= i < text::nonempty(pieces).len() ==> ruled(
                on,
                #[trigger] text::nonempty(pieces)[i],
            ),
    decreases pieces.len(),
{
    if pieces.len() > 0 {
        let front = pieces.drop_last();
        assert forall|i: int| 0 <= i < front.len() implies ruled(on, #[trigger] front[i]) by {
            assert(front[i] == pieces[i]);
        }
        lemma_nonempty_ruled(on, front);
        let before = text::nonempty(front);
        let all = text::nonempty(pieces);
        assert forall|i: int| 0 <= i < all.len() implies ruled(on, #[trigger] all[i]) by {
            if i < before.len() {
                assert(all[i] == before[i]);
            } else {
                assert(all[i] == pieces[pieces.len() - 1]);
            }
        }
    }
}

proof fn lemma_chopped_ruled(on: bool, word: Seq<char>, width: nat)
    requires
        ruled(on, word),
    ensures
        forall|i: int|
            0 <= i < fmt::chopped(word, width).len() ==> ruled(
                on,
                #[trigger] fmt::chopped(word, width)[i],
            ),
    decreases word.len(),
{
    if word.len() > 0 {
        let front = word.drop_last();
        assert forall|i: int| 0 <= i < front.len() implies (#[trigger] front[i] == '\n'
            || table::allowed(on, front[i])) by {
            assert(front[i] == word[i]);
        }
        lemma_chopped_ruled(on, front, width);
        let before = fmt::chopped(front, width);
        let all = fmt::chopped(word, width);
        let c = word[word.len() - 1];
        assert(ruled(on, seq![c]));
        assert forall|i: int| 0 <= i < all.len() implies ruled(on, #[trigger] all[i]) by {
            if i < before.len() - 1 {
                assert(all[i] == before[i]);
            } else if before.len() > 0 && fmt::columns(before.last()) + fmt::char_columns(c)
                <= width {
                assert(ruled(on, before[before.len() - 1]));
                lemma_ruled_add(on, before.last(), seq![c]);
                assert(before.last() + seq![c] =~= all[i]);
            } else if i == before.len() - 1 {
                assert(all[i] == before[i]);
            }
        }
    }
}

proof fn lemma_layout_ruled(on: bool, words: Seq<Seq<char>>, width: nat)
    requires
        forall|i: int| 0 <= i < words.len() ==> ruled(on, #[trigger] words[i]),
    ensures
        forall|i: int|
            0 <= i < fmt::layout(words, width).len() ==> ruled(
                on,
                #[trigger] fmt::layout(words, width)[i],
            ),
    decreases words.len(),
{
    if words.len() > 0 {
        let front = words.drop_last();
        assert forall|i: int| 0 <= i < front.len() implies ruled(on, #[trigger] front[i]) by {
            assert(front[i] == words[i]);
        }
        lemma_layout_ruled(on, front, width);
        let before = fmt::layout(front, width);
        let all = fmt::layout(words, width);
        let word = words[words.len() - 1];
        lemma_chopped_ruled(on, word, width);
        assert(ruled(on, seq![' ']));
        assert forall|i: int| 0 <= i < all.len() implies ruled(on, #[trigger] all[i]) by {
            if before.len() > 0 && fmt::columns(before.last()) + 1 + fmt::columns(word) <= width {
                if i < before.len() - 1 {
                    assert(all[i] == before[i]);
                } else {
                    assert(ruled(on, before[before.len() - 1]));
                    lemma_ruled_three(on, before.last(), seq![' '], word);
                }
            } else if i < before.len() {
                assert(all[i] == before[i]);
            } else {
                assert(all[i] == fmt::chopped(word, width)[i - before.len()]);
            }
        }
    }
}

proof fn lemma_wrapped_ruled(on: bool, s: Seq<char>, max_width: nat, max_lines: nat)
    requires
        ruled(on, s),
    ensures
        forall|i: int|
            0 <= i < fmt::wrapped(s, max_width, max_lines).len() ==> ruled(
                on,
                #[trigger] fmt::wrapped(s, max_width, max_lines)[i],
            ),
{
    lemma_split_ruled(on, s, Sep::Char(' '));
    lemma_nonempty_ruled(on, text::split(s, Sep::Char(' ')));
    let words = text::words(s, Sep::Char(' '));
    let width = fmt::line_width(max_width);
    lemma_layout_ruled(on, words, width);
    let all = fmt::layout(words, width);
    let r = fmt::wrapped(s, max_width, max_lines);
    assert forall|i: int| 0 <= i < r.len() implies ruled(on, #[trigger] r[i]) by {
        if i < all.len() && !(all.len() > max_lines && i == max_lines) {
            assert(r[i] == all[i]);
        }
    }
}

proof fn lemma_ruled_lines(on: bool, key: Seq<char>, lines: Seq<Seq<char>>)
    requires
        ruled(on, key),
        forall|i: int| 0 <= i < lines.len() ==> ruled(on, #[trigger] lines[i]),
    ensures
        ruled(on, detail::field_lines(on, key, lines)),
    decreases lines.len(),
{
    if lines.len() == 1 {
        assert(ruled(on, lines[0]));
        lemma_ruled_field(on, key, lines[0]);
    } else if lines.len() > 1 {
        let front = lines.drop_last();
        let last = lines[lines.len() - 1];
        assert forall|i: int| 0 <= i < front.len() implies ruled(on, #[trigger] front[i]) by {
            assert(front[i] == lines[i]);
        }
        lemma_ruled_lines(on, key, front);
        lemma_ruled_colours(on, last);
        reveal_strlit("\n");
        let indent = text::spaces(detail::INDENT as nat);
        assert(ruled(on, indent));
        lemma_ruled_five(
            on,
            detail::field_lines(on, key, front),
            indent,
            fmt::dim(on, last),
            "\n"@,
            "\n"@,
        );
    }
}

proof fn lemma_ruled_wrapped_field(
    on: bool,
    key: Seq<char>,
    val: Option<Seq<char>>,
    room: nat,
    max_lines: nat,
)
    requires
        ruled(on, key),
    ensures
        ruled(on, detail::wrapped_field(on, key, val, room, max_lines)),
{
    if let Some(v) = val {
        table::lemma_tidy_sanitized(on, v);
        assert(ruled(on, fmt::sanitized(v)));
        lemma_wrapped_ruled(on, fmt::sanitized(v), room, max_lines);
        lemma_ruled_lines(on, key, fmt::wrapped(fmt::sanitized(v), room, max_lines));
    }
}

proof fn lemma_ruled_addr_port(on: bool, addr: Seq<char>, port: nat)
    requires
        ruled(on, addr),
    ensures
        ruled(on, detail::addr_port_text(addr, port)),
{
    table::lemma_tidy_dec(on, port);
    assert(ruled(on, num::dec(port)));
    reveal_strlit("[");
    reveal_strlit("]:");
    reveal_strlit(":");
    lemma_ruled_five(on, "["@, addr, "]:"@, num::dec(port), num::dec(port));
    lemma_ruled_three(on, addr, ":"@, num::dec(port));
}

proof fn lemma_ruled_zero_padded(on: bool, n: int, width: nat)
    ensures
        ruled(on, num::zero_padded(n, width)),
{
    let m = if n < 0 {
        (-n) as nat
    } else {
        n as nat
    };
    table::lemma_tidy_dec(on, m);
    let sign = if n < 0 {
        seq!['-']
    } else {
        Seq::<char>::empty()
    };
    let used = sign.len() + num::dec(m).len();
    let fill = num::zeros(
        if used < width {
            (width - used) as nat
        } else {
            0
        },
    );
    assert(ruled(on, sign));
    assert(ruled(on, fill));
    lemma_ruled_three(on, sign, fill, num::dec(m));
}

proof fn lemma_ruled_two_digits(on: bool, n: int, width: nat, c: char)
    requires
        table::allowed(on, c),
    ensures
        ruled(on, num::zero_padded(n, width).push(c)),
{
    lemma_ruled_zero_padded(on, n, width);
    lemma_ruled_add(on, num::zero_padded(n, width), seq![c]);
    assert(num::zero_padded(n, width) + seq![c] =~= num::zero_padded(n, width).push(c));
}

proof fn lemma_ruled_local_time(on: bool, unix: nat, t: Option<CalendarTime>)
    ensures
        ruled(on, fmt::local_time_text(unix, t)),
{
    match t {
        Some(t) => {
            lemma_ruled_two_digits(on, t.year + 1900, 4, '-');
            lemma_ruled_two_digits(on, t.mon + 1, 2, '-');
            lemma_ruled_two_digits(on, t.mday as int, 2, ' ');
            lemma_ruled_two_digits(on, t.hour as int, 2, ':');
            lemma_ruled_two_digits(on, t.min as int, 2, ':');
            lemma_ruled_zero_padded(on, t.sec as int, 2);
            let a = num::zero_padded(t.year + 1900, 4).push('-');
            let b = num::zero_padded(t.mon + 1, 2).push('-');
            let c = num::zero_padded(t.mday as int, 2).push(' ');
            let d = num::zero_padded(t.hour as int, 2).push(':');
            let e = num::zero_padded(t.min as int, 2).push(':');
            lemma_ruled_five(on, a, b, c, d, e);
            lemma_ruled_add(on, a + b + c + d + e, num::zero_padded(t.sec as int, 2));
        },
        None => table::lemma_tidy_dec(on, unix),
    }
}

proof fn lemma_ruled_title(on: bool, port: nat, e: EntryView)
    ensures
        ruled(on, detail::title(on, port, e)),
{
    lemma_ruled_basics(on, port, 0, Seq::<char>::empty(), e);
    lemma_ruled_colours(on, num::dec(port));
    lemma_ruled_colours(on, fmt::cyan(on, num::dec(port)));
    lemma_ruled_colours(on, model::proto_name(e.proto));
    reveal_strlit(" ");
    reveal_strlit("\n\n");
    reveal_strlit("LISTEN");
    lemma_ruled_colours(on, "LISTEN"@);
    lemma_ruled_add(on, " "@, fmt::green(on, "LISTEN"@));
    if let Some(t) = e.state {
        lemma_ruled_colours(on, model::state_name(t));
        lemma_ruled_add(on, " "@, fmt::dim(on, model::state_name(t)));
    }
    lemma_ruled_five(
        on,
        fmt::bold(on, fmt::cyan(on, num::dec(port))),
        " "@,
        fmt::dim(on, model::proto_name(e.proto)),
        detail::title_state(on, e.state),
        "\n\n"@,
    );
}

proof fn lemma_ruled_holder(
    on: bool,
    port: nat,
    e: EntryView,
    started: Option<CalendarTime>,
    now: nat,
)
    ensures
        ruled(on, detail::holder(port, e, started, on, now)),
{
    lemma_ruled_title(on, port, e);
    reveal_strlit("PID");
    reveal_strlit("Process");
    reveal_strlit("User");
    reveal_strlit("Started");
    reveal_strlit(" (");
    reveal_strlit(")");
    reveal_strlit("(");
    reveal_strlit(" ago)");
    reveal_strlit("  ");
    lemma_ruled_basics(on, e.uid as nat, e.pid as int, e.proc_name, e);
    lemma_ruled_colours(on, num::signed(e.pid as int));
    lemma_ruled_field(on, "PID"@, fmt::yellow(on, num::signed(e.pid as int)));
    lemma_ruled_field(on, "Process"@, fmt::sanitized(e.proc_name));
    lemma_ruled_basics(on, e.uid as nat, 0, e.user, e);
    lemma_ruled_five(
        on,
        fmt::sanitized(e.user),
        " ("@,
        num::dec(e.uid as nat),
        ")"@,
        ")"@,
    );
    lemma_ruled_field(on, "User"@, detail::user_text(e));
    let up = render::table::uptime(e, now);
    lemma_ruled_basics(on, up, 0, e.user, e);
    let ago = "("@ + fmt::duration_text(up) + " ago)"@;
    lemma_ruled_three(on, "("@, fmt::duration_text(up), " ago)"@);
    lemma_ruled_colours(on, ago);
    lemma_ruled_local_time(on, e.start_time as nat, started);
    lemma_ruled_three(
        on,
        fmt::local_time_text(e.start_time as nat, started),
        "  "@,
        fmt::dim(on, ago),
    );
    lemma_ruled_field(on, "Started"@, detail::started_text(on, e, started, now));
    lemma_ruled_five(
        on,
        detail::title(on, port, e),
        detail::field(on, "PID"@, fmt::yellow(on, num::signed(e.pid as int))),
        detail::field(on, "Process"@, fmt::sanitized(e.proc_name)),
        detail::field(on, "User"@, detail::user_text(e)),
        detail::field(on, "Started"@, detail::started_text(on, e, started, now)),
    );
}

/// Whether the addresses of an entry hold no control characters.
pub open spec fn plain_addrs(on: bool, e: EntryView) -> bool {
    table::tidy(on, e.local_addr) && (e.remote_addr matches Some(p) ==> table::tidy(on, p))
}

proof fn lemma_ruled_place(on: bool, e: EntryView, room: nat)
    requires
        plain_addrs(on, e),
    ensures
        ruled(on, detail::place(e, on, room)),
{
    reveal_strlit("Address");
    reveal_strlit("Peer");
    reveal_strlit("Binary");
    reveal_strlit("Command");
    reveal_strlit("Parent");
    let address = detail::addr_port_text(e.local_addr, e.local_port as nat);
    assert(ruled(on, e.local_addr));
    lemma_ruled_addr_port(on, e.local_addr, e.local_port as nat);
    lemma_ruled_field(on, "Address"@, address);
    if let Some(p) = e.remote_addr {
        assert(ruled(on, p));
        lemma_ruled_addr_port(on, p, e.remote_port as nat);
        lemma_ruled_field(on, "Peer"@, detail::addr_port_text(p, e.remote_port as nat));
    }
    let binary = detail::wrapped_field(
        on,
        "Binary"@,
        e.exe,
        room,
        detail::BINARY_LINES as nat,
    );
    let command = detail::wrapped_field(
        on,
        "Command"@,
        e.cmdline,
        room,
        detail::COMMAND_LINES as nat,
    );
    lemma_ruled_wrapped_field(on, "Binary"@, e.exe, room, detail::BINARY_LINES as nat);
    lemma_ruled_wrapped_field(on, "Command"@, e.cmdline, room, detail::COMMAND_LINES as nat);
    table::lemma_tidy_signed(on, e.ppid as int);
    assert(ruled(on, num::signed(e.ppid as int)));
    lemma_ruled_field(on, "Parent"@, num::signed(e.ppid as int));
    lemma_ruled_five(
        on,
        detail::field(on, "Address"@, address),
        detail::peer_field(on, e),
        binary,
        command,
        detail::field(on, "Parent"@, num::signed(e.ppid as int)),
    );
}

proof fn lemma_ruled_sections(
    on: bool,
    port: nat,
    rows: Seq<EntryView>,
    starts: Seq<Option<CalendarTime>>,
    room: nat,
    now: nat,
)
    requires
        forall|i: int| 0 <= i < rows.len() ==> plain_addrs(on, #[trigger] rows[i]),
    ensures
        ruled(on, detail::sections(port, rows, starts, on, room, now)),
    decreases rows.len(),
{
    if rows.len() > 0 {
        let front = rows.drop_last();
        let e = rows[rows.len() - 1];
        let started = starts[rows.len() - 1];
        assert forall|i: int| 0 <= i < front.len() implies plain_addrs(on, #[trigger] front[i]) by {
            assert(front[i] == rows[i]);
        }
        lemma_ruled_sections(on, port, front, starts, room, now);
        reveal_strlit("  ───\n\n");
        lemma_ruled_colours(on, "  ───\n\n"@);
        lemma_ruled_holder(on, port, e, started, now);
        lemma_ruled_place(on, e, room);
        lemma_ruled_add(
            on,
            detail::holder(port, e, started, on, now),
            detail::place(e, on, room),
        );
        let divider = if rows.len() > 1 {
            detail::divider(on)
        } else {
            Seq::<char>::empty()
        };
        lemma_ruled_three(
            on,
            detail::sections(port, front, starts, on, room, now),
            divider,
            detail::section(port, e, started, on, room, now),
        );
    }
}

/// The details of a port hold no control characters but line feeds and, where output is
/// coloured, those that start an escape sequence, as long as addresses hold none.
pub proof fn law_details_hold_no_control(
    port: nat,
    rows: Seq<EntryView>,
    starts: Seq<Option<CalendarTime>>,
    on: bool,
    term_width: nat,
    now: nat,
)
    requires
        forall|i: int| 0 <= i < rows.len() ==> plain_addrs(on, #[trigger] rows[i]),
    ensures
        ruled(on, detail::detail_text(port, rows, starts, on, term_width, now)),
{
    let room = detail::value_room(term_width);
    lemma_ruled_sections(on, port, rows, starts, room, now);
    table::lemma_tidy_dec(on, port);
    reveal_strlit("ports ");
    reveal_strlit(" -k");
    reveal_strlit("\n  ");
    reveal_strlit("kill it:");
    reveal_strlit("  ");
    reveal_strlit("\n");
    let command = "ports "@ + num::dec(port) + " -k"@;
    lemma_ruled_three(on, "ports "@, num::dec(port), " -k"@);
    lemma_ruled_colours(on, command);
    lemma_ruled_colours(on, "kill it:"@);
    lemma_ruled_five(
        on,
        "\n  "@,
        fmt::dim(on, "kill it:"@),
        "  "@,
        fmt::dim(on, command),
        "\n"@,
    );
    let last = if rows.len() == 1 {
        detail::hint(on, port)
    } else {
        Seq::<char>::empty()
    };
    lemma_ruled_add(on, detail::sections(port, rows, starts, on, room, now), last);
}

proof fn lemma_ruled_paints(s: Seq<char>)
    requires
        ruled(false, s),
    ensures
        colour::paints(s, s),
{
    assert forall|i: int| 0 <= i < s.len() implies #[trigger] s[i] != '\u{1b}' by {
        assert(s[i] == '\n' || table::allowed(false, s[i]));
    }
    colour::lemma_bare_paints(s);
}

proof fn lemma_field_paints(key: Seq<char>, x: Seq<char>, y: Seq<char>)
    requires
        ruled(false, key),
        colour::paints(x, y),
    ensures
        colour::paints(detail::field(true, key, x), detail::field(false, key, y)),
{
    reveal_strlit("  ");
    reveal_strlit("\n");
    let fill = text::spaces((detail::KEY - fmt::columns(key)) as nat);
    lemma_ruled_add(false, key, fill);
    let name = fmt::padded(key, detail::KEY as nat);
    lemma_ruled_paints(name);
    colour::lemma_colours_paint(name, name);
    lemma_ruled_paints("  "@);
    lemma_ruled_paints("\n"@);
    colour::lemma_paints_three("  "@, fmt::dim(true, name), "  "@, "  "@, name, "  "@);
    colour::lemma_paints_three(
        "  "@ + fmt::dim(true, name) + "  "@,
        x,
        "\n"@,
        "  "@ + name + "  "@,
        y,
        "\n"@,
    );
}

proof fn lemma_lines_paint(key: Seq<char>, lines: Seq<Seq<char>>)
    requires
        ruled(false, key),
        forall|i: int| 0 <= i < lines.len() ==> ruled(false, #[trigger] lines[i]),
    ensures
        colour::paints(
            detail::field_lines(true, key, lines),
            detail::field_lines(false, key, lines),
        ),
    decreases lines.len(),
{
    if lines.len() == 0 {
        lemma_ruled_paints(Seq::<char>::empty());
    } else if lines.len() == 1 {
        lemma_ruled_paints(lines[0]);
        lemma_field_paints(key, lines[0], lines[0]);
    } else {
        let front = lines.drop_last();
        let last = lines[lines.len() - 1];
        assert forall|i: int| 0 <= i < front.len() implies ruled(false, #[trigger] front[i]) by {
            assert(front[i] == lines[i]);
        }
        lemma_lines_paint(key, front);
        lemma_ruled_paints(last);
        colour::lemma_colours_paint(last, last);
        reveal_strlit("\n");
        lemma_ruled_paints("\n"@);
        let indent = text::spaces(detail::INDENT as nat);
        lemma_ruled_paints(indent);
        let x = detail::field_lines(true, key, front);
        let y = detail::field_lines(false, key, front);
        colour::lemma_paints_add(x, y, indent, indent);
        colour::lemma_paints_three(
            x + indent,
            fmt::dim(true, last),
            "\n"@,
            y + indent,
            last,
            "\n"@,
        );
    }
}

proof fn lemma_wrapped_field_paints(
    key: Seq<char>,
    val: Option<Seq<char>>,
    room: nat,
    max_lines: nat,
)
    requires
        ruled(false, key),
    ensures
        colour::paints(
            detail::wrapped_field(true, key, val, room, max_lines),
            detail::wrapped_field(false, key, val, room, max_lines),
        ),
{
    match val {
        Some(v) => {
            table::lemma_tidy_sanitized(false, v);
            assert(ruled(false, fmt::sanitized(v)));
            lemma_wrapped_ruled(false, fmt::sanitized(v), room, max_lines);
            lemma_lines_paint(key, fmt::wrapped(fmt::sanitized(v), room, max_lines));
        },
        None => lemma_ruled_paints(Seq::<char>::empty()),
    }
}

proof fn lemma_addr_port_paints(addr: Seq<char>, port: nat)
    requires
        colour::bare(addr),
    ensures
        colour::paints(
            detail::addr_port_text(addr, port),
            detail::addr_port_text(addr, port),
        ),
{
    table::lemma_tidy_dec(false, port);
    let n = num::dec(port);
    lemma_ruled_paints(n);
    colour::lemma_bare_paints(addr);
    reveal_strlit("[");
    reveal_strlit("]:");
    reveal_strlit(":");
    lemma_ruled_paints("["@);
    lemma_ruled_paints("]:"@);
    lemma_ruled_paints(":"@);
    colour::lemma_paints_three("["@, addr, "]:"@, "["@, addr, "]:"@);
    colour::lemma_paints_add("["@ + addr + "]:"@, "["@ + addr + "]:"@, n, n);
    colour::lemma_paints_three(addr, ":"@, n, addr, ":"@, n);
}

proof fn lemma_title_paints(port: nat, e: EntryView)
    ensures
        colour::paints(detail::title(true, port, e), detail::title(false, port, e)),
{
    let n = num::dec(port);
    let proto = model::proto_name(e.proto);
    lemma_ruled_basics(false, port, 0, Seq::<char>::empty(), e);
    lemma_ruled_paints(n);
    colour::lemma_colours_paint(n, n);
    colour::lemma_colours_paint(fmt::cyan(true, n), n);
    lemma_ruled_paints(proto);
    colour::lemma_colours_paint(proto, proto);
    reveal_strlit(" ");
    reveal_strlit("\n\n");
    lemma_ruled_paints(" "@);
    lemma_ruled_paints("\n\n"@);
    lemma_ruled_paints(Seq::<char>::empty());
    if let Some(t) = e.state {
        let name = model::state_name(t);
        lemma_ruled_paints(name);
        colour::lemma_colours_paint(name, name);
        colour::lemma_paints_add(" "@, " "@, fmt::dim(true, name), name);
        colour::lemma_paints_add(" "@, " "@, fmt::green(true, name), name);
    }
    let x = fmt::bold(true, fmt::cyan(true, n)) + " "@ + fmt::dim(true, proto);
    let y = n + " "@ + proto;
    colour::lemma_paints_three(
        fmt::bold(true, fmt::cyan(true, n)),
        " "@,
        fmt::dim(true, proto),
        n,
        " "@,
        proto,
    );
    colour::lemma_paints_three(
        x,
        detail::title_state(true, e.state),
        "\n\n"@,
        y,
        detail::title_state(false, e.state),
        "\n\n"@,
    );
}

proof fn lemma_started_paints(e: EntryView, started: Option<CalendarTime>, now: nat)
    ensures
        colour::paints(
            detail::started_text(true, e, started, now),
            detail::started_text(false, e, started, now),
        ),
{
    reveal_strlit("(");
    reveal_strlit(" ago)");
    reveal_strlit("  ");
    let up = render::table::uptime(e, now);
    let ago = "("@ + fmt::duration_text(up) + " ago)"@;
    let at = fmt::local_time_text(e.start_time as nat, started);
    lemma_ruled_basics(false, up, 0, e.user, e);
    lemma_ruled_three(false, "("@, fmt::duration_text(up), " ago)"@);
    lemma_ruled_local_time(false, e.start_time as nat, started);
    lemma_ruled_paints(ago);
    lemma_ruled_paints(at);
    lemma_ruled_paints("  "@);
    colour::lemma_colours_paint(ago, ago);
    colour::lemma_paints_three(at, "  "@, fmt::dim(true, ago), at, "  "@, ago);
}

proof fn lemma_holder_paints(port: nat, e: EntryView, started: Option<CalendarTime>, now: nat)
    ensures
        colour::paints(
            detail::holder(port, e, started, true, now),
            detail::holder(port, e, started, false, now),
        ),
{
    reveal_strlit("PID");
    reveal_strlit("Process");
    reveal_strlit("User");
    reveal_strlit("Started");
    reveal_strlit(" (");
    reveal_strlit(")");
    let pid = num::signed(e.pid as int);
    let name = fmt::sanitized(e.proc_name);
    let user = detail::user_text(e);
    lemma_title_paints(port, e);
    lemma_ruled_basics(false, e.uid as nat, e.pid as int, e.proc_name, e);
    lemma_ruled_paints(pid);
    colour::lemma_colours_paint(pid, pid);
    lemma_field_paints("PID"@, fmt::yellow(true, pid), pid);
    lemma_ruled_paints(name);
    lemma_field_paints("Process"@, name, name);
    lemma_ruled_basics(false, e.uid as nat, 0, e.user, e);
    lemma_ruled_three(false, fmt::sanitized(e.user), " ("@, num::dec(e.uid as nat));
    lemma_ruled_add(false, fmt::sanitized(e.user) + " ("@ + num::dec(e.uid as nat), ")"@);
    lemma_ruled_paints(user);
    lemma_field_paints("User"@, user, user);
    lemma_started_paints(e, started, now);
    lemma_field_paints(
        "Started"@,
        detail::started_text(true, e, started, now),
        detail::started_text(false, e, started, now),
    );
    let x = detail::title(true, port, e) + detail::field(true, "PID"@, fmt::yellow(true, pid))
        + detail::field(true, "Process"@, name);
    let y = detail::title(false, port, e) + detail::field(false, "PID"@, pid) + detail::field(
        false,
        "Process"@,
        name,
    );
    colour::lemma_paints_three(
        detail::title(true, port, e),
        detail::field(true, "PID"@, fmt::yellow(true, pid)),
        detail::field(true, "Process"@, name),
        detail::title(false, port, e),
        detail::field(false, "PID"@, pid),
        detail::field(false, "Process"@, name),
    );
    colour::lemma_paints_three(
        x,
        detail::field(true, "User"@, user),
        detail::field(true, "Started"@, detail::started_text(true, e, started, now)),
        y,
        detail::field(false, "User"@, user),
        detail::field(false, "Started"@, detail::started_text(false, e, started, now)),
    );
}

/// Whether the addresses of an entry hold no escape character.
pub open spec fn bare_addrs(e: EntryView) -> bool {
    colour::bare(e.local_addr) && (e.remote_addr matches Some(p) ==> colour::bare(p))
}

proof fn lemma_place_paints(e: EntryView, room: nat)
    requires
        bare_addrs(e),
    ensures
        colour::paints(detail::place(e, true, room), detail::place(e, false, room)),
{
    reveal_strlit("Address");
    reveal_strlit("Peer");
    reveal_strlit("Binary");
    reveal_strlit("Command");
    reveal_strlit("Parent");
    let most = detail::BINARY_LINES as nat;
    let longest = detail::COMMAND_LINES as nat;
    let address = detail::addr_port_text(e.local_addr, e.local_port as nat);
    lemma_addr_port_paints(e.local_addr, e.local_port as nat);
    lemma_field_paints("Address"@, address, address);
    match e.remote_addr {
        Some(p) => {
            let peer = detail::addr_port_text(p, e.remote_port as nat);
            lemma_addr_port_paints(p, e.remote_port as nat);
            lemma_field_paints("Peer"@, peer, peer);
        },
        None => lemma_ruled_paints(Seq::<char>::empty()),
    }
    lemma_wrapped_field_paints("Binary"@, e.exe, room, most);
    lemma_wrapped_field_paints("Command"@, e.cmdline, room, longest);
    let parent = num::signed(e.ppid as int);
    table::lemma_tidy_signed(false, e.ppid as int);
    lemma_ruled_paints(parent);
    lemma_field_paints("Parent"@, parent, parent);
    colour::lemma_paints_three(
        detail::field(true, "Address"@, address),
        detail::peer_field(true, e),
        detail::wrapped_field(true, "Binary"@, e.exe, room, most),
        detail::field(false, "Address"@, address),
        detail::peer_field(false, e),
        detail::wrapped_field(false, "Binary"@, e.exe, room, most),
    );
    colour::lemma_paints_three(
        detail::field(true, "Address"@, address) + detail::peer_field(true, e)
            + detail::wrapped_field(true, "Binary"@, e.exe, room, most),
        detail::wrapped_field(true, "Command"@, e.cmdline, room, longest),
        detail::field(true, "Parent"@, parent),
        detail::field(false, "Address"@, address) + detail::peer_field(false, e)
            + detail::wrapped_field(false, "Binary"@, e.exe, room, most),
        detail::wrapped_field(false, "Command"@, e.cmdline, room, longest),
        detail::field(false, "Parent"@, parent),
    );
}

proof fn lemma_section_paints(
    port: nat,
    e: EntryView,
    started: Option<CalendarTime>,
    room: nat,
    now: nat,
)
    requires
        bare_addrs(e),
    ensures
        colour::paints(
            detail::section(port, e, started, true, room, now),
            detail::section(port, e, started, false, room, now),
        ),
{
    lemma_holder_paints(port, e, started, now);
    lemma_place_paints(e, room);
    colour::lemma_paints_add(
        detail::holder(port, e, started, true, now),
        detail::holder(port, e, started, false, now),
        detail::place(e, true, room),
        detail::place(e, false, room),
    );
}

proof fn lemma_divider_paints()
    ensures
        colour::paints(detail::divider(true), detail::divider(false)),
{
    reveal_strlit("  ───\n\n");
    let rule = "  ───\n\n"@;
    lemma_ruled_paints(rule);
    colour::lemma_colours_paint(rule, rule);
}

proof fn lemma_sections_paint(
    port: nat,
    rows: Seq<EntryView>,
    starts: Seq<Option<CalendarTime>>,
    room: nat,
    now: nat,
)
    requires
        forall|i: int| 0 <= i < rows.len() ==> bare_addrs(#[trigger] rows[i]),
    ensures
        colour::paints(
            detail::sections(port, rows, starts, true, room, now),
            detail::sections(port, rows, starts, false, room, now),
        ),
    decreases rows.len(),
{
    let none = Seq::<char>::empty();
    lemma_ruled_paints(none);
    if rows.len() > 0 {
        let front = rows.drop_last();
        let e = rows[rows.len() - 1];
        let started = starts[rows.len() - 1];
        assert forall|i: int| 0 <= i < front.len() implies bare_addrs(#[trigger] front[i]) by {
            assert(front[i] == rows[i]);
        }
        lemma_sections_paint(port, front, starts, room, now);
        lemma_divider_paints();
        lemma_section_paints(port, e, started, room, now);
        colour::lemma_paints_three(
            detail::sections(port, front, starts, true, room, now),
            if rows.len() > 1 {
                detail::divider(true)
            } else {
                none
            },
            detail::section(port, e, started, true, room, now),
            detail::sections(port, front, starts, false, room, now),
            if rows.len() > 1 {
                detail::divider(false)
            } else {
                none
            },
            detail::section(port, e, started, false, room, now),
        );
    }
}

proof fn lemma_hint_paints(port: nat)
    ensures
        colour::paints(detail::hint(true, port), detail::hint(false, port)),
{
    reveal_strlit("ports ");
    reveal_strlit(" -k");
    reveal_strlit("\n  ");
    reveal_strlit("kill it:");
    reveal_strlit("  ");
    reveal_strlit("\n");
    let what = "kill it:"@;
    let command = "ports "@ + num::dec(port) + " -k"@;
    table::lemma_tidy_dec(false, port);
    lemma_ruled_three(false, "ports "@, num::dec(port), " -k"@);
    lemma_ruled_paints("\n  "@);
    lemma_ruled_paints(what);
    lemma_ruled_paints("  "@);
    lemma_ruled_paints(command);
    lemma_ruled_paints("\n"@);
    colour::lemma_colours_paint(what, what);
    colour::lemma_colours_paint(command, command);
    colour::lemma_paints_three("\n  "@, fmt::dim(true, what), "  "@, "\n  "@, what, "  "@);
    colour::lemma_paints_three(
        "\n  "@ + fmt::dim(true, what) + "  "@,
        fmt::dim(true, command),
        "\n"@,
        "\n  "@ + what + "  "@,
        command,
        "\n"@,
    );
}

/// Colours change nothing but the escape sequences: with those taken out, the coloured details
/// are the plain ones. No address may hold an escape character of its own.
pub proof fn law_colours_keep_the_details(
    port: nat,
    rows: Seq<EntryView>,
    starts: Seq<Option<CalendarTime>>,
    term_width: nat,
    now: nat,
)
    requires
        forall|i: int| 0 <= i < rows.len() ==> bare_addrs(#[trigger] rows[i]),
    ensures
        colour::without_colours(detail::detail_text(port, rows, starts, true, term_width, now))
            == detail::detail_text(port, rows, starts, false, term_width, now),
{
    let room = detail::value_room(term_width);
    lemma_sections_paint(port, rows, starts, room, now);
    lemma_hint_paints(port);
    lemma_ruled_paints(Seq::<char>::empty());
    let x = detail::sections(port, rows, starts, true, room, now);
    let y = detail::sections(port, rows, starts, false, room, now);
    let none = Seq::<char>::empty();
    if rows.len() == 1 {
        colour::lemma_paints_add(x, y, detail::hint(true, port), detail::hint(false, port));
    } else {
        colour::lemma_paints_add(x, y, none, none);
    }
    colour::lemma_paints_alone(
        detail::detail_text(port, rows, starts, true, term_width, now),
        detail::detail_text(port, rows, starts, false, term_width, now),
    );
}

proof fn lemma_ruled_label(on: bool, t: EntryView)
    ensures
        ruled(on, kill::label(t)),
{
    reveal_strlit(" ");
    reveal_strlit(" (");
    reveal_strlit(")");
    lemma_ruled_basics(on, 0, t.pid as int, t.proc_name, t);
    lemma_ruled_five(
        on,
        " "@,
        num::signed(t.pid as int),
        " ("@,
        fmt::sanitized(t.proc_name),
        ")"@,
    );
}

proof fn lemma_ruled_signal(on: bool, s: Signal)
    ensures
        ruled(on, kill::signal_name(s)),
        ruled(on, kill::question(s)),
{
    reveal_strlit("SIGTERM");
    reveal_strlit("SIGKILL");
    reveal_strlit("发送 ");
    reveal_strlit("?");
    lemma_ruled_three(on, "发送 "@, kill::signal_name(s), "?"@);
}

proof fn lemma_ruled_target_line(on: bool, t: EntryView)
    ensures
        ruled(on, kill::target_line(on, t)),
{
    reveal_strlit("  ");
    reveal_strlit(" ");
    reveal_strlit(":");
    reveal_strlit("\n");
    lemma_ruled_basics(on, t.local_port as nat, t.pid as int, t.proc_name, t);
    let pid = fmt::yellow(on, num::signed(t.pid as int));
    lemma_ruled_colours(on, num::signed(t.pid as int));
    let name = fmt::sanitized(t.proc_name);
    let port = ":"@ + num::dec(t.local_port as nat);
    lemma_ruled_add(on, ":"@, num::dec(t.local_port as nat));
    lemma_ruled_colours(on, port);
    let whole = fmt::sanitized(model::command(t));
    table::lemma_tidy_sanitized(on, model::command(t));
    table::lemma_tidy_truncated(on, whole, kill::MAX_COMMAND as nat);
    let command = fmt::truncated(whole, kill::MAX_COMMAND as nat);
    assert(ruled(on, command));
    lemma_ruled_colours(on, command);
    let a = "  "@ + pid + " "@ + name + "  "@;
    lemma_ruled_five(on, "  "@, pid, " "@, name, "  "@);
    lemma_ruled_five(on, a, fmt::dim(on, port), "  "@, fmt::dim(on, command), "\n"@);
}

proof fn lemma_ruled_target_lines(on: bool, targets: Seq<EntryView>)
    ensures
        ruled(on, kill::target_lines(on, targets)),
    decreases targets.len(),
{
    if targets.len() > 0 {
        lemma_ruled_target_lines(on, targets.drop_last());
        lemma_ruled_target_line(on, targets.last());
        lemma_ruled_add(
            on,
            kill::target_lines(on, targets.drop_last()),
            kill::target_line(on, targets.last()),
        );
    }
}

proof fn lemma_ruled_notice(on: bool, targets: Seq<EntryView>)
    ensures
        ruled(on, kill::notice(on, targets)),
{
    reveal_strlit("即将终止:");
    reveal_strlit("\n");
    lemma_ruled_colours(on, "即将终止:"@);
    lemma_ruled_target_lines(on, targets);
    lemma_ruled_three(
        on,
        fmt::bold(on, "即将终止:"@),
        "\n"@,
        kill::target_lines(on, targets),
    );
}

proof fn lemma_ruled_result_line(on: bool, s: Signal, t: EntryView, alive: Seq<i32>)
    ensures
        ruled(on, kill::result_line(on, s, t, alive)),
{
    reveal_strlit("!");
    reveal_strlit(" 收到 ");
    reveal_strlit(" 后仍在运行");
    reveal_strlit("，可以试试 -9");
    reveal_strlit("已终止");
    reveal_strlit("\n");
    lemma_ruled_label(on, t);
    lemma_ruled_signal(on, s);
    lemma_ruled_colours(on, "!"@);
    lemma_ruled_colours(on, "已终止"@);
    lemma_ruled_three(on, fmt::green(on, "已终止"@), kill::label(t), "\n"@);
    let a = fmt::yellow(on, "!"@) + kill::label(t) + " 收到 "@ + kill::signal_name(s)
        + " 后仍在运行"@;
    lemma_ruled_five(
        on,
        fmt::yellow(on, "!"@),
        kill::label(t),
        " 收到 "@,
        kill::signal_name(s),
        " 后仍在运行"@,
    );
    let advice = match s {
        Signal::Term => "，可以试试 -9"@,
        Signal::Kill => Seq::<char>::empty(),
    };
    lemma_ruled_three(on, a, advice, "\n"@);
}

proof fn lemma_ruled_result_lines(on: bool, s: Signal, targets: Seq<EntryView>, alive: Seq<i32>)
    ensures
        ruled(on, kill::result_lines(on, s, targets, alive)),
    decreases targets.len(),
{
    if targets.len() > 0 {
        lemma_ruled_result_lines(on, s, targets.drop_last(), alive);
        lemma_ruled_result_line(on, s, targets.last(), alive);
        lemma_ruled_add(
            on,
            kill::result_lines(on, s, targets.drop_last(), alive),
            kill::result_line(on, s, targets.last(), alive),
        );
    }
}

/// What is written before anything is killed holds no control characters but line feeds and, where
/// output is coloured, those that start an escape sequence.
pub proof fn law_notices_hold_no_control(a: ArgsView, rows: Seq<EntryView>, on: bool)
    ensures
        ruled(on, kill::first(a, rows, on).text),
{
    lemma_ruled_notice(on, kill::targets_of(rows));
}

/// What is written while processes are killed holds no control characters but line feeds and,
/// where output is coloured, those that start an escape sequence, as long as what the system says
/// of a failure holds none.
pub proof fn law_reports_hold_no_control(j: JobView, e: EventView)
    requires
        e matches EventView::Sent(Some(m)) ==> ruled(j.on, m),
    ensures
        ruled(j.on, kill::next(j, e).text),
{
    let on = j.on;
    reveal_strlit(" [y/N] ");
    reveal_strlit(" 非交互环境，需要 -f 才会执行\n");
    reveal_strlit("已取消");
    reveal_strlit("\n");
    reveal_strlit("失败");
    reveal_strlit(": ");
    lemma_ruled_signal(on, j.signal);
    lemma_ruled_colours(on, "已取消"@);
    lemma_ruled_colours(on, "失败"@);
    lemma_ruled_add(on, fmt::dim(on, "已取消"@), "\n"@);
    lemma_ruled_add(on, kill::question(j.signal), " [y/N] "@);
    lemma_ruled_three(
        on,
        kill::question(j.signal),
        " 非交互环境，需要 -f 才会执行\n"@,
        kill::cancelled(on),
    );
    lemma_ruled_add(on, "\n"@, kill::cancelled(on));
    match (j.phase, e) {
        (kill::Phase::Sending(i), EventView::Sent(Some(m))) => {
            lemma_ruled_label(on, j.targets[i as int]);
            lemma_ruled_five(
                on,
                fmt::red(on, "失败"@),
                kill::label(j.targets[i as int]),
                ": "@,
                m,
                "\n"@,
            );
        },
        (kill::Phase::Probing(i), EventView::Probed(there)) => {
            let alive = if there {
                j.alive.push(j.targets[i as int].pid)
            } else {
                j.alive
            };
            lemma_ruled_result_lines(on, j.signal, j.targets, alive);
        },
        (kill::Phase::Rescanning, EventView::Scanned(s)) => {
            lemma_ruled_result_lines(
                on,
                j.signal,
                j.targets,
                kill::holders(j.alive, j.targets, s),
            );
        },
        _ => {},
    }
}

/// The line of a field: its name in a column of nine, and its value.
pub open spec fn told_field(key: Seq<char>, val: Seq<char>) -> Seq<char> {
    "  "@ + (if fmt::columns(key) >= 9 {
        key
    } else {
        key + text::spaces((9 - fmt::columns(key)) as nat)
    }) + "  "@ + val + "\n"@
}

/// The lines of a field whose value takes several, one below the other.
pub open spec fn told_lines(key: Seq<char>, lines: Seq<Seq<char>>) -> Seq<char>
    decreases lines.len(),
{
    if lines.len() == 0 {
        Seq::<char>::empty()
    } else if lines.len() == 1 {
        told_field(key, lines[0])
    } else {
        told_lines(key, lines.drop_last()) + text::spaces(13) + lines.last() + "\n"@
    }
}

/// The lines of a text that may not be there, wrapped to at most `most` lines.
pub open spec fn told_text(key: Seq<char>, val: Option<Seq<char>>, room: nat, most: nat) -> Seq<
    char,
> {
    if val is Some {
        told_lines(key, fmt::wrapped(fmt::sanitized(val->0), room, most))
    } else {
        Seq::<char>::empty()
    }
}

/// An address and a port; one that holds colons stands in square brackets.
pub open spec fn told_place(addr: Seq<char>, port: nat) -> Seq<char> {
    if addr.contains(':') {
        "["@ + addr + "]:"@ + num::dec(port)
    } else {
        addr + ":"@ + num::dec(port)
    }
}

/// What is told of a socket in front of its fields.
pub open spec fn told_title(port: nat, e: EntryView) -> Seq<char> {
    num::dec(port) + " "@ + (if e.proto == Proto::Tcp {
        "tcp"@
    } else {
        "udp"@
    }) + (match e.state {
        Some(s) => " "@ + json::state_word(s),
        None => Seq::<char>::empty(),
    }) + "\n\n"@
}

/// What is told of the process of a socket.
pub open spec fn told_holder(e: EntryView, started: Option<CalendarTime>, now: nat) -> Seq<char> {
    let up = if now >= e.start_time {
        (now - e.start_time) as nat
    } else {
        0
    };
    told_field("PID"@, num::signed(e.pid as int)) + told_field(
        "Process"@,
        fmt::sanitized(e.proc_name),
    ) + told_field(
        "User"@,
        fmt::sanitized(e.user) + " ("@ + num::dec(e.uid as nat) + ")"@,
    ) + told_field(
        "Started"@,
        fmt::local_time_text(e.start_time as nat, started) + "  "@ + ("("@ + fmt::duration_text(up)
            + " ago)"@),
    )
}

/// What is told of where a socket is and of what its process runs.
pub open spec fn told_rest(e: EntryView, room: nat) -> Seq<char> {
    told_field("Address"@, told_place(e.local_addr, e.local_port as nat)) + (if e.remote_addr is Some {
        told_field("Peer"@, told_place(e.remote_addr->0, e.remote_port as nat))
    } else {
        Seq::<char>::empty()
    }) + told_text("Binary"@, e.exe, room, 3) + told_text("Command"@, e.cmdline, room, 6)
        + told_field("Parent"@, num::signed(e.ppid as int))
}

/// What is told of the first `n` sockets, with a rule between any two.
pub open spec fn told_sockets(
    port: nat,
    rows: Seq<EntryView>,
    n: nat,
    starts: Seq<Option<CalendarTime>>,
    room: nat,
    now: nat,
) -> Seq<char>
    decreases n,
{
    if n == 0 {
        Seq::<char>::empty()
    } else {
        told_sockets(port, rows, (n - 1) as nat, starts, room, now) + (if n > 1 {
            "  ───\n\n"@
        } else {
            Seq::<char>::empty()
        }) + (told_title(port, rows[n - 1]) + told_holder(rows[n - 1], starts[n - 1], now)
            + told_rest(rows[n - 1], room))
    }
}

proof fn lemma_told_lines(key: Seq<char>, lines: Seq<Seq<char>>)
    ensures
        detail::field_lines(false, key, lines) == told_lines(key, lines),
    decreases lines.len(),
{
    if lines.len() > 1 {
        lemma_told_lines(key, lines.drop_last());
    }
}

proof fn lemma_told_holder(port: nat, e: EntryView, started: Option<CalendarTime>, now: nat)
    ensures
        detail::holder(port, e, started, false, now) == told_title(port, e) + told_holder(
            e,
            started,
            now,
        ),
{
    let a = told_title(port, e);
    let b = told_field("PID"@, num::signed(e.pid as int));
    let c = told_field("Process"@, fmt::sanitized(e.proc_name));
    let d = told_field("User"@, detail::user_text(e));
    let f = told_field("Started"@, detail::started_text(false, e, started, now));
    assert(detail::title(false, port, e) =~= a);
    assert(a + b + c + d + f =~= a + (b + c + d + f));
}

proof fn lemma_told_rest(e: EntryView, room: nat)
    ensures
        detail::place(e, false, room) == told_rest(e, room),
{
    if e.exe is Some {
        lemma_told_lines("Binary"@, fmt::wrapped(fmt::sanitized(e.exe->0), room, 3));
    }
    if e.cmdline is Some {
        lemma_told_lines("Command"@, fmt::wrapped(fmt::sanitized(e.cmdline->0), room, 6));
    }
}

proof fn lemma_told_sockets(
    port: nat,
    rows: Seq<EntryView>,
    n: nat,
    starts: Seq<Option<CalendarTime>>,
    room: nat,
    now: nat,
)
    requires
        n <= rows.len(),
    ensures
        detail::sections(port, rows.take(n as int), starts, false, room, now) == told_sockets(
            port,
            rows,
            n,
            starts,
            room,
            now,
        ),
    decreases n,
{
    if n > 0 {
        let m = (n - 1) as nat;
        lemma_told_sockets(port, rows, m, starts, room, now);
        assert(rows.take(n as int).drop_last() =~= rows.take(m as int));
        assert(rows.take(n as int).last() == rows[n - 1]);
        lemma_told_holder(port, rows[n - 1], starts[n - 1], now);
        lemma_told_rest(rows[n - 1], room);
    } else {
        assert(rows.take(0) =~= Seq::<EntryView>::empty());
    }
}

/// What the details tell of each socket, line by line: its port, protocol and state, and of its
/// process the number, name, user and number of the user, start, address, peer, executable, whole
/// command line and parent. How to kill it is told where there is one socket only.
pub proof fn law_what_the_details_tell(
    port: nat,
    rows: Seq<EntryView>,
    starts: Seq<Option<CalendarTime>>,
    term_width: nat,
    now: nat,
)
    ensures
        ({
            let room = if term_width < 37 {
                24
            } else {
                (term_width - 13) as nat
            };
            let hint = "\n  "@ + "kill it:"@ + "  "@ + ("ports "@ + num::dec(port) + " -k"@)
                + "\n"@;
            detail::detail_text(port, rows, starts, false, term_width, now) == told_sockets(
                port,
                rows,
                rows.len(),
                starts,
                room,
                now,
            ) + (if rows.len() == 1 {
                hint
            } else {
                Seq::<char>::empty()
            })
        }),
{
    let room = detail::value_room(term_width);
    lemma_told_sockets(port, rows, rows.len(), starts, room, now);
    assert(rows.take(rows.len() as int) =~= rows);
}

/// What the details colour: the port is bold and cyan, a state that listens green and any other
/// dim, the process yellow; the protocol, the names of fields, the lines of a value below its
/// first, how long ago a process started, the rule between sockets and the hint are dim.
pub proof fn law_what_the_details_colour(
    port: nat,
    e: EntryView,
    key: Seq<char>,
    val: Seq<char>,
    started: Option<CalendarTime>,
    now: nat,
)
    ensures
        detail::title(true, port, e) == fmt::painted(
            true,
            "1"@,
            fmt::painted(true, "36"@, num::dec(port)),
        ) + " "@ + fmt::painted(true, "2"@, model::proto_name(e.proto)) + (match e.state {
            Some(s) => " "@ + (if s == TcpState::Listen {
                fmt::painted(true, "32"@, "LISTEN"@)
            } else {
                fmt::painted(true, "2"@, json::state_word(s))
            }),
            None => Seq::<char>::empty(),
        }) + "\n\n"@,
        detail::field(true, key, val) == "  "@ + fmt::painted(true, "2"@, fmt::padded(key, 9))
            + "  "@ + val + "\n"@,
        detail::divider(true) == fmt::painted(true, "2"@, "  ───\n\n"@),
        detail::started_text(true, e, started, now) == fmt::local_time_text(
            e.start_time as nat,
            started,
        ) + "  "@ + fmt::painted(
            true,
            "2"@,
            "("@ + fmt::duration_text(render::table::uptime(e, now)) + " ago)"@,
        ),
        detail::hint(true, port) == "\n  "@ + fmt::painted(true, "2"@, "kill it:"@) + "  "@
            + fmt::painted(true, "2"@, "ports "@ + num::dec(port) + " -k"@) + "\n"@,
{
}

} // verus!
