//! The details of the sockets on one port.

use crate::fmt;
use crate::fmt::{CalendarTime, Style};
use crate::model;
use crate::model::{Entry, EntryView, TcpState};
use crate::num;
use crate::render::table;
use crate::text;
use vstd::prelude::*;

verus! {

/// The columns that the name of a field takes.
pub const KEY: usize = 9;

/// The column at which values stand: behind the name of the field and two spaces on either side.
pub const INDENT: usize = 13;

/// The least room for a value, however narrow the terminal.
pub const MIN_ROOM: usize = 24;

/// The most lines for the path of an executable.
pub const BINARY_LINES: usize = 3;

/// The most lines for a command line.
pub const COMMAND_LINES: usize = 6;

/// An address and a port. An address with a colon stands in brackets: `::1:8080` is an address
/// of its own.
pub open spec fn addr_port_text(addr: Seq<char>, port: nat) -> Seq<char> {
    if addr.contains(':') {
        "["@ + addr + "]:"@ + num::dec(port)
    } else {
        addr + ":"@ + num::dec(port)
    }
}

/// The line of a field.
pub open spec fn field(on: bool, key: Seq<char>, val: Seq<char>) -> Seq<char> {
    "  "@ + fmt::dim(on, fmt::padded(key, KEY as nat)) + "  "@ + val + "\n"@
}

/// The lines of a field whose value takes several: the first one behind its name, the others
/// below its value.
pub open spec fn field_lines(on: bool, key: Seq<char>, lines: Seq<Seq<char>>) -> Seq<char>
    decreases lines.len(),
{
    if lines.len() == 0 {
        Seq::<char>::empty()
    } else if lines.len() == 1 {
        field(on, key, lines[0])
    } else {
        field_lines(on, key, lines.drop_last()) + text::spaces(INDENT as nat) + fmt::dim(
            on,
            lines.last(),
        ) + "\n"@
    }
}

/// The field for an optional text, wrapped to the room for it.
pub open spec fn wrapped_field(
    on: bool,
    key: Seq<char>,
    val: Option<Seq<char>>,
    room: nat,
    max_lines: nat,
) -> Seq<char> {
    match val {
        Some(v) => field_lines(on, key, fmt::wrapped(fmt::sanitized(v), room, max_lines)),
        None => Seq::<char>::empty(),
    }
}

/// The room for a value on a terminal of the given width.
pub open spec fn value_room(term_width: nat) -> nat {
    if term_width < INDENT + MIN_ROOM {
        MIN_ROOM as nat
    } else {
        (term_width - INDENT) as nat
    }
}

/// The state behind a title: nothing for a socket without one.
pub open spec fn title_state(on: bool, s: Option<TcpState>) -> Seq<char> {
    match s {
        Some(TcpState::Listen) => " "@ + fmt::green(on, "LISTEN"@),
        Some(s) => " "@ + fmt::dim(on, model::state_name(s)),
        None => Seq::<char>::empty(),
    }
}

/// The line above the fields: port, protocol and state.
pub open spec fn title(on: bool, port: nat, e: EntryView) -> Seq<char> {
    fmt::bold(on, fmt::cyan(on, num::dec(port))) + " "@ + fmt::dim(on, model::proto_name(e.proto))
        + title_state(on, e.state) + "\n\n"@
}

/// Who a process runs as.
pub open spec fn user_text(e: EntryView) -> Seq<char> {
    fmt::sanitized(e.user) + " ("@ + num::dec(e.uid as nat) + ")"@
}

/// When a process started, and how long ago that is.
pub open spec fn started_text(
    on: bool,
    e: EntryView,
    started: Option<CalendarTime>,
    now: nat,
) -> Seq<char> {
    fmt::local_time_text(e.start_time as nat, started) + "  "@ + fmt::dim(
        on,
        "("@ + fmt::duration_text(table::uptime(e, now)) + " ago)"@,
    )
}

/// The field for the peer of a socket.
pub open spec fn peer_field(on: bool, e: EntryView) -> Seq<char> {
    match e.remote_addr {
        Some(peer) => field(on, "Peer"@, addr_port_text(peer, e.remote_port as nat)),
        None => Seq::<char>::empty(),
    }
}

/// Who holds a socket: the title and the fields of its process.
pub open spec fn holder(
    port: nat,
    e: EntryView,
    started: Option<CalendarTime>,
    on: bool,
    now: nat,
) -> Seq<char> {
    title(on, port, e) + field(on, "PID"@, fmt::yellow(on, num::signed(e.pid as int))) + field(
        on,
        "Process"@,
        fmt::sanitized(e.proc_name),
    ) + field(on, "User"@, user_text(e)) + field(
        on,
        "Started"@,
        started_text(on, e, started, now),
    )
}

/// Where a socket is, and what its process runs.
pub open spec fn place(e: EntryView, on: bool, room: nat) -> Seq<char> {
    field(on, "Address"@, addr_port_text(e.local_addr, e.local_port as nat)) + peer_field(on, e)
        + wrapped_field(on, "Binary"@, e.exe, room, BINARY_LINES as nat) + wrapped_field(
        on,
        "Command"@,
        e.cmdline,
        room,
        COMMAND_LINES as nat,
    ) + field(on, "Parent"@, num::signed(e.ppid as int))
}

/// All that is shown of one socket.
pub open spec fn section(
    port: nat,
    e: EntryView,
    started: Option<CalendarTime>,
    on: bool,
    room: nat,
    now: nat,
) -> Seq<char> {
    holder(port, e, started, on, now) + place(e, on, room)
}

/// What stands between two sockets.
pub open spec fn divider(on: bool) -> Seq<char> {
    fmt::dim(on, "  ───\n\n"@)
}

/// The sections of the given sockets, with a divider between any two.
pub open spec fn sections(
    port: nat,
    rows: Seq<EntryView>,
    starts: Seq<Option<CalendarTime>>,
    on: bool,
    room: nat,
    now: nat,
) -> Seq<char>
    decreases rows.len(),
{
    if rows.len() == 0 {
        Seq::<char>::empty()
    } else {
        sections(port, rows.drop_last(), starts, on, room, now) + (if rows.len() > 1 {
            divider(on)
        } else {
            Seq::<char>::empty()
        }) + section(port, rows.last(), starts[rows.len() - 1], on, room, now)
    }
}

/// How to kill the process, which is shown where there is one socket only.
pub open spec fn hint(on: bool, port: nat) -> Seq<char> {
    "\n  "@ + fmt::dim(on, "kill it:"@) + "  "@ + fmt::dim(
        on,
        "ports "@ + num::dec(port) + " -k"@,
    ) + "\n"@
}

/// The details of the sockets on a port, on a terminal of the given width at the given time.
pub open spec fn detail_text(
    port: nat,
    rows: Seq<EntryView>,
    starts: Seq<Option<CalendarTime>>,
    on: bool,
    term_width: nat,
    now: nat,
) -> Seq<char> {
    sections(port, rows, starts, on, value_room(term_width), now) + (if rows.len() == 1 {
        hint(on, port)
    } else {
        Seq::<char>::empty()
    })
}

/// An address and a port, as `127.0.0.1:80` or `[::1]:80`.
pub fn addr_port(addr: &str, port: u16) -> (r: String)
    ensures
        r@ == addr_port_text(addr@, port as nat),
{
    let mut r = String::new();
    let colon = text::find_char(text::chars_of(addr).as_slice(), ':').is_some();
    proof {
        text::lemma_find_is(addr@, ':');
    }
    if colon {
        r.append("[");
        r.append(addr);
        r.append("]:");
    } else {
        r.append(addr);
        r.append(":");
    }
    num::push_dec(&mut r, port as u64);
    assert(r@ =~= addr_port_text(addr@, port as nat));
    r
}

/// Appends the line of a field.
fn push_field(out: &mut String, st: Style, key: &str, val: &str)
    ensures
        final(out)@ == old(out)@ + field(st.colored(), key@, val@),
{
    out.append("  ");
    out.append(st.dim(fmt::pad(key, KEY).as_str()).as_str());
    out.append("  ");
    out.append(val);
    out.append("\n");
    assert(out@ =~= old(out)@ + field(st.colored(), key@, val@));
}

/// Appends the field for an optional text, wrapped to the room for it.
fn wrapped(
    out: &mut String,
    key: &str,
    val: &Option<String>,
    room: usize,
    max_lines: usize,
    st: Style,
)
    ensures
        final(out)@ == old(out)@ + wrapped_field(
            st.colored(),
            key@,
            text::opt_view(*val),
            room as nat,
            max_lines as nat,
        ),
{
    match val {
        Some(v) => {
            let lines = fmt::wrap(fmt::sanitize(v.as_str()).as_str(), room, max_lines);
            let ghost all = text::views(lines@);
            let ghost start = out@;
            assert(out@ =~= start + field_lines(st.colored(), key@, all.take(0)));
            for i in 0..lines.len()
                invariant
                    all == text::views(lines@),
                    out@ == start + field_lines(st.colored(), key@, all.take(i as int)),
            {
                assert(all.take(i + 1).drop_last() =~= all.take(i as int));
                assert(all.take(i + 1).last() == lines@[i as int]@);
                if i == 0 {
                    push_field(out, st, key, lines[i].as_str());
                } else {
                    text::push_spaces(out, INDENT);
                    out.append(st.dim(lines[i].as_str()).as_str());
                    out.append("\n");
                }
                assert(out@ =~= start + field_lines(st.colored(), key@, all.take(i + 1)));
            }
            assert(all.take(all.len() as int) =~= all);
        },
        None => {
            assert(out@ =~= old(out)@ + Seq::<char>::empty());
        },
    }
}

/// Appends the line above the fields.
fn push_title(out: &mut String, st: Style, port: u16, e: &Entry)
    ensures
        final(out)@ == old(out)@ + title(st.colored(), port as nat, e@),
{
    let ghost on = st.colored();
    out.append(st.bold(st.cyan(num::to_dec(port as u64).as_str()).as_str()).as_str());
    out.append(" ");
    out.append(st.dim(e.proto.as_str()).as_str());
    let ghost before = out@;
    match e.state {
        Some(TcpState::Listen) => {
            out.append(" ");
            out.append(st.green("LISTEN").as_str());
        },
        Some(s) => {
            out.append(" ");
            out.append(st.dim(s.as_str()).as_str());
        },
        None => {},
    }
    assert(out@ =~= before + title_state(on, e.state));
    out.append("\n\n");
    assert(out@ =~= old(out)@ + title(on, port as nat, e@));
}

/// Who the process runs as.
fn user_of(e: &Entry) -> (r: String)
    ensures
        r@ == user_text(e@),
{
    let mut r = fmt::sanitize(e.user.as_str());
    r.append(" (");
    num::push_dec(&mut r, e.uid as u64);
    r.append(")");
    r
}

/// When the process started, and how long ago that is.
fn started_of(e: &Entry, started: Option<CalendarTime>, st: Style, now: u64) -> (r: String)
    requires
        fmt::showable(started),
    ensures
        r@ == started_text(st.colored(), e@, started, now as nat),
{
    let mut r = fmt::local_time(e.start_time, started);
    r.append("  ");
    let mut ago = String::new();
    ago.append("(");
    ago.append(fmt::duration(table::uptime_of(e, now)).as_str());
    ago.append(" ago)");
    assert(ago@ =~= "("@ + fmt::duration_text(table::uptime(e@, now as nat)) + " ago)"@);
    r.append(st.dim(ago.as_str()).as_str());
    r
}

/// Appends who holds a socket.
fn push_holder(
    out: &mut String,
    port: u16,
    e: &Entry,
    started: Option<CalendarTime>,
    st: Style,
    now: u64,
)
    requires
        fmt::showable(started),
    ensures
        final(out)@ == old(out)@ + holder(port as nat, e@, started, st.colored(), now as nat),
{
    let pid = st.yellow(num::to_signed(e.pid).as_str());
    let process = fmt::sanitize(e.proc_name.as_str());
    let user = user_of(e);
    let started_at = started_of(e, started, st, now);
    push_title(out, st, port, e);
    push_field(out, st, "PID", pid.as_str());
    push_field(out, st, "Process", process.as_str());
    push_field(out, st, "User", user.as_str());
    push_field(out, st, "Started", started_at.as_str());
    proof {
        text::lemma_append_five(
            old(out)@,
            title(st.colored(), port as nat, e@),
            field(st.colored(), "PID"@, pid@),
            field(st.colored(), "Process"@, process@),
            field(st.colored(), "User"@, user@),
            field(st.colored(), "Started"@, started_at@),
        );
    }
}

/// Appends where a socket is, and what its process runs.
fn push_place(out: &mut String, e: &Entry, st: Style, room: usize)
    ensures
        final(out)@ == old(out)@ + place(e@, st.colored(), room as nat),
{
    let address = addr_port(e.local_addr.as_str(), e.local_port);
    let parent = num::to_signed(e.ppid);
    push_field(out, st, "Address", address.as_str());
    let ghost before = out@;
    match &e.remote_addr {
        Some(peer) => push_field(out, st, "Peer", addr_port(peer.as_str(), e.remote_port).as_str()),
        None => {},
    }
    assert(before + Seq::<char>::empty() =~= before);
    assert(out@ == before + peer_field(st.colored(), e@));
    wrapped(out, "Binary", &e.exe, room, BINARY_LINES, st);
    wrapped(out, "Command", &e.cmdline, room, COMMAND_LINES, st);
    push_field(out, st, "Parent", parent.as_str());
    proof {
        let on = st.colored();
        text::lemma_append_five(
            old(out)@,
            field(on, "Address"@, address@),
            peer_field(on, e@),
            wrapped_field(on, "Binary"@, e@.exe, room as nat, BINARY_LINES as nat),
            wrapped_field(on, "Command"@, e@.cmdline, room as nat, COMMAND_LINES as nat),
            field(on, "Parent"@, parent@),
        );
    }
}

/// Appends all that is shown of one socket.
fn push_section(
    out: &mut String,
    port: u16,
    e: &Entry,
    started: Option<CalendarTime>,
    st: Style,
    room: usize,
    now: u64,
)
    requires
        fmt::showable(started),
    ensures
        final(out)@ == old(out)@ + section(
            port as nat,
            e@,
            started,
            st.colored(),
            room as nat,
            now as nat,
        ),
{
    push_holder(out, port, e, started, st, now);
    push_place(out, e, st, room);
    proof {
        let a = holder(port as nat, e@, started, st.colored(), now as nat);
        let b = place(e@, st.colored(), room as nat);
        assert(old(out)@ + a + b =~= old(out)@ + (a + b));
    }
}

/// Appends how to kill the process.
fn push_hint(out: &mut String, st: Style, port: u16)
    ensures
        final(out)@ == old(out)@ + hint(st.colored(), port as nat),
{
    let mut kill = String::new();
    kill.append("ports ");
    num::push_dec(&mut kill, port as u64);
    kill.append(" -k");
    assert(kill@ =~= "ports "@ + num::dec(port as nat) + " -k"@);
    out.append("\n  ");
    out.append(st.dim("kill it:").as_str());
    out.append("  ");
    out.append(st.dim(kill.as_str()).as_str());
    out.append("\n");
    assert(out@ =~= old(out)@ + hint(st.colored(), port as nat));
}

/// The details of the sockets on a port at the given time. `starts` holds when each process
/// started, in local time.
pub fn detail_at(
    port: u16,
    entries: &[Entry],
    starts: &[Option<CalendarTime>],
    st: Style,
    term_width: usize,
    now: u64,
) -> (r: String)
    requires
        starts@.len() == entries@.len(),
        forall|i: int| 0 <= i < starts@.len() ==> fmt::showable(#[trigger] starts@[i]),
    ensures
        r@ == detail_text(
            port as nat,
            model::entry_views(entries@),
            starts@,
            st.colored(),
            term_width as nat,
            now as nat,
        ),
{
    let ghost rows = model::entry_views(entries@);
    let room: usize = if term_width < INDENT + MIN_ROOM {
        MIN_ROOM
    } else {
        term_width - INDENT
    };
    let mut out = String::new();
    assert(out@ =~= sections(
        port as nat,
        rows.take(0),
        starts@,
        st.colored(),
        room as nat,
        now as nat,
    ));
    for i in 0..entries.len()
        invariant
            rows == model::entry_views(entries@),
            starts@.len() == entries@.len(),
            forall|k: int| 0 <= k < starts@.len() ==> fmt::showable(#[trigger] starts@[k]),
            out@ == sections(
                port as nat,
                rows.take(i as int),
                starts@,
                st.colored(),
                room as nat,
                now as nat,
            ),
    {
        let ghost before = out@;
        assert(rows.take(i + 1).drop_last() =~= rows.take(i as int));
        if i > 0 {
            out.append(st.dim("  ───\n\n").as_str());
        }
        assert(fmt::showable(starts@[i as int]));
        push_section(&mut out, port, &entries[i], starts[i], st, room, now);
        assert(out@ =~= sections(
            port as nat,
            rows.take(i + 1),
            starts@,
            st.colored(),
            room as nat,
            now as nat,
        ));
    }
    assert(rows.take(rows.len() as int) =~= rows);
    if entries.len() == 1 {
        push_hint(&mut out, st, port);
    }
    assert(out@ =~= detail_text(
        port as nat,
        rows,
        starts@,
        st.colored(),
        term_width as nat,
        now as nat,
    ));
    out
}

/// The details of the sockets on a port at the time that the clock shows: who holds each, rather
/// than a list of descriptors.
pub fn detail(
    port: u16,
    entries: &[Entry],
    starts: &[Option<CalendarTime>],
    st: Style,
    term_width: usize,
) -> (r: String)
    requires
        starts@.len() == entries@.len(),
        forall|i: int| 0 <= i < starts@.len() ==> fmt::showable(#[trigger] starts@[i]),
    ensures
        exists|now: u64|
            fmt::clock_gave(now) && r@ == #[trigger] detail_text(
                port as nat,
                model::entry_views(entries@),
                starts@,
                st.colored(),
                term_width as nat,
                now as nat,
            ),
{
    let now: u64 = fmt::now();
    detail_at(port, entries, starts, st, term_width, now)
}

} // verus!
