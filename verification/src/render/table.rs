//! The table: one line per row, its columns aligned, the command in what room is left.

use crate::fmt;
use crate::fmt::Style;
use crate::model;
use crate::model::{Entry, EntryView};
use crate::num;
use crate::text;
use vstd::prelude::*;

verus! {

/// The columns of the table.
#[derive(Clone, Copy, PartialEq, Eq, Debug, Structural)]
pub enum Column {
    Port,
    Proto,
    State,
    Pid,
    Process,
    User,
    Uptime,
    Address,
    Command,
}

/// The most columns of the terminal that the name of a process takes. A long name would leave
/// no room for the command.
pub const MAX_PROCESS: usize = 22;

/// The most columns of the terminal that an address takes.
pub const MAX_ADDRESS: usize = 21;

/// The spaces between two columns of the table.
pub const GAP: usize = 2;

/// The least room for the command, however narrow the terminal.
pub const MIN_COMMAND: usize = 12;

/// What stands above a column.
pub open spec fn header(c: Column) -> Seq<char> {
    match c {
        Column::Port => "PORT"@,
        Column::Proto => "PROTO"@,
        Column::State => "STATE"@,
        Column::Pid => "PID"@,
        Column::Process => "PROCESS"@,
        Column::User => "USER"@,
        Column::Uptime => "UPTIME"@,
        Column::Address => "ADDRESS"@,
        Column::Command => "COMMAND"@,
    }
}

/// The columns in front of the command.
pub open spec fn leading(show_state: bool) -> Seq<Column> {
    if show_state {
        seq![
            Column::Port,
            Column::Proto,
            Column::State,
            Column::Pid,
            Column::Process,
            Column::User,
            Column::Uptime,
            Column::Address,
        ]
    } else {
        seq![
            Column::Port,
            Column::Proto,
            Column::Pid,
            Column::Process,
            Column::User,
            Column::Uptime,
            Column::Address,
        ]
    }
}

/// How many seconds ago the process of an entry started; none where that is still to come.
pub open spec fn uptime(e: EntryView, now: nat) -> nat {
    if now > e.start_time {
        (now - e.start_time) as nat
    } else {
        0
    }
}

/// What a row holds in a column.
pub open spec fn cell(e: EntryView, c: Column, now: nat) -> Seq<char> {
    match c {
        Column::Port => num::dec(e.local_port as nat),
        Column::Proto => model::proto_name(e.proto),
        Column::State => match e.state {
            Some(s) => model::state_name(s),
            None => "-"@,
        },
        Column::Pid => num::signed(e.pid as int),
        Column::Process => fmt::truncated(fmt::sanitized(e.proc_name), MAX_PROCESS as nat),
        Column::User => fmt::sanitized(e.user),
        Column::Uptime => fmt::duration_text(uptime(e, now)),
        Column::Address => fmt::truncated(e.local_addr, MAX_ADDRESS as nat),
        Column::Command => fmt::sanitized(model::command(e)),
    }
}

/// How wide a column is: as wide as the widest of its header and its cells.
pub open spec fn column_width(rows: Seq<EntryView>, c: Column, now: nat) -> nat
    decreases rows.len(),
{
    if rows.len() == 0 {
        fmt::columns(header(c))
    } else {
        let before = column_width(rows.drop_last(), c, now);
        let own = fmt::columns(cell(rows.last(), c, now));
        if own > before {
            own
        } else {
            before
        }
    }
}

/// How much the given columns take, each with the gap behind it.
pub open spec fn taken(rows: Seq<EntryView>, cols: Seq<Column>, now: nat) -> nat
    decreases cols.len(),
{
    if cols.len() == 0 {
        0
    } else {
        taken(rows, cols.drop_last(), now) + column_width(rows, cols.last(), now) + GAP as nat
    }
}

/// The room for the command: what the other columns leave of the terminal.
pub open spec fn command_room(
    rows: Seq<EntryView>,
    show_state: bool,
    term_width: nat,
    now: nat,
) -> nat {
    let used = taken(rows, leading(show_state), now);
    if used + MIN_COMMAND <= term_width {
        (term_width - used) as nat
    } else {
        MIN_COMMAND as nat
    }
}

/// The colour of a cell.
pub open spec fn shaded(on: bool, c: Column, s: Seq<char>) -> Seq<char> {
    match c {
        Column::Port => fmt::bold(on, fmt::cyan(on, s)),
        Column::Pid => fmt::yellow(on, s),
        Column::State => if s == "LISTEN"@ {
            fmt::green(on, s)
        } else {
            fmt::dim(on, s)
        },
        Column::Command => fmt::dim(on, s),
        _ => s,
    }
}

/// The headers of the given columns, each filled up to its column and the gap.
pub open spec fn head(rows: Seq<EntryView>, cols: Seq<Column>, now: nat) -> Seq<char>
    decreases cols.len(),
{
    if cols.len() == 0 {
        Seq::<char>::empty()
    } else {
        head(rows, cols.drop_last(), now) + fmt::padded(
            header(cols.last()),
            column_width(rows, cols.last(), now) + GAP as nat,
        )
    }
}

/// The cells of a row in the given columns, each filled up to its column and the gap. The
/// escape sequences that colour a cell take no room.
pub open spec fn cells(
    rows: Seq<EntryView>,
    e: EntryView,
    cols: Seq<Column>,
    on: bool,
    now: nat,
) -> Seq<char>
    decreases cols.len(),
{
    if cols.len() == 0 {
        Seq::<char>::empty()
    } else {
        let c = cols.last();
        let own = cell(e, c, now);
        cells(rows, e, cols.drop_last(), on, now) + shaded(on, c, own) + text::spaces(
            (column_width(rows, c, now) + GAP - fmt::columns(own)) as nat,
        )
    }
}

/// The line of a row, without its line feed.
pub open spec fn row_text(
    rows: Seq<EntryView>,
    e: EntryView,
    show_state: bool,
    on: bool,
    term_width: nat,
    now: nat,
) -> Seq<char> {
    cells(rows, e, leading(show_state), on, now) + shaded(
        on,
        Column::Command,
        fmt::truncated(
            cell(e, Column::Command, now),
            command_room(rows, show_state, term_width, now),
        ),
    )
}

/// The line above the rows, without its line feed.
pub open spec fn head_text(rows: Seq<EntryView>, show_state: bool, on: bool, now: nat) -> Seq<char> {
    fmt::dim(on, head(rows, leading(show_state), now) + header(Column::Command))
}

/// The lines of the first `n` rows.
pub open spec fn body_text(
    rows: Seq<EntryView>,
    n: nat,
    show_state: bool,
    on: bool,
    term_width: nat,
    now: nat,
) -> Seq<char>
    decreases n,
{
    if n == 0 {
        Seq::<char>::empty()
    } else {
        body_text(rows, (n - 1) as nat, show_state, on, term_width, now) + row_text(
            rows,
            rows[n - 1],
            show_state,
            on,
            term_width,
            now,
        ).push('\n')
    }
}

/// The table of the rows on a terminal of the given width at the given time.
pub open spec fn table_text(
    rows: Seq<EntryView>,
    show_state: bool,
    on: bool,
    term_width: nat,
    now: nat,
) -> Seq<char> {
    head_text(rows, show_state, on, now).push('\n') + body_text(
        rows,
        rows.len(),
        show_state,
        on,
        term_width,
        now,
    )
}

/// A column is at least as wide as its header and each of its cells.
pub proof fn lemma_column_width(rows: Seq<EntryView>, c: Column, now: nat)
    ensures
        column_width(rows, c, now) >= fmt::columns(header(c)),
        forall|i: int|
            0 <= i < rows.len() ==> column_width(rows, c, now) >= fmt::columns(
                cell(#[trigger] rows[i], c, now),
            ),
    decreases rows.len(),
{
    if rows.len() > 0 {
        let front = rows.drop_last();
        lemma_column_width(front, c, now);
        assert forall|i: int| 0 <= i < rows.len() implies column_width(rows, c, now)
            >= fmt::columns(cell(#[trigger] rows[i], c, now)) by {
            if i < front.len() {
                assert(front[i] == rows[i]);
            }
        }
    }
}

impl Column {
    /// What stands above the column.
    pub fn header(self) -> (r: &'static str)
        ensures
            r@ == header(self),
    {
        match self {
            Column::Port => "PORT",
            Column::Proto => "PROTO",
            Column::State => "STATE",
            Column::Pid => "PID",
            Column::Process => "PROCESS",
            Column::User => "USER",
            Column::Uptime => "UPTIME",
            Column::Address => "ADDRESS",
            Column::Command => "COMMAND",
        }
    }
}

/// The columns in front of the command.
fn leading_columns(show_state: bool) -> (r: Vec<Column>)
    ensures
        r@ == leading(show_state),
{
    let mut r: Vec<Column> = Vec::new();
    r.push(Column::Port);
    r.push(Column::Proto);
    if show_state {
        r.push(Column::State);
    }
    r.push(Column::Pid);
    r.push(Column::Process);
    r.push(Column::User);
    r.push(Column::Uptime);
    r.push(Column::Address);
    assert(r@ =~= leading(show_state));
    r
}

/// How many seconds the process of an entry has run.
pub fn uptime_of(e: &Entry, now: u64) -> (r: u64)
    ensures
        r == uptime(e@, now as nat),
{
    if now > e.start_time {
        now - e.start_time
    } else {
        0
    }
}

/// What a row holds in a column. What processes and users are called may hold control
/// characters, which are cleaned away.
fn cell_of(e: &Entry, c: Column, now: u64) -> (r: String)
    ensures
        r@ == cell(e@, c, now as nat),
{
    match c {
        Column::Port => num::to_dec(e.local_port as u64),
        Column::Proto => e.proto.as_str().to_string(),
        Column::State => match e.state {
            Some(s) => s.as_str().to_string(),
            None => "-".to_string(),
        },
        Column::Pid => num::to_signed(e.pid),
        Column::Process => fmt::truncate(fmt::sanitize(e.proc_name.as_str()).as_str(), MAX_PROCESS),
        Column::User => fmt::sanitize(e.user.as_str()),
        Column::Uptime => fmt::duration(uptime_of(e, now)),
        Column::Address => fmt::truncate(e.local_addr.as_str(), MAX_ADDRESS),
        Column::Command => fmt::sanitize(e.display_command()),
    }
}

/// How wide a column is.
fn width_of(entries: &[Entry], c: Column, now: u64) -> (r: usize)
    ensures
        r == column_width(model::entry_views(entries@), c, now as nat),
{
    let ghost rows = model::entry_views(entries@);
    let mut w: usize = fmt::width(c.header());
    assert(rows.take(0) =~= Seq::<EntryView>::empty());
    for i in 0..entries.len()
        invariant
            rows == model::entry_views(entries@),
            w == column_width(rows.take(i as int), c, now as nat),
    {
        assert(rows.take(i + 1).drop_last() =~= rows.take(i as int));
        let own: usize = fmt::width(cell_of(&entries[i], c, now).as_str());
        if own > w {
            w = own;
        }
    }
    assert(rows.take(rows.len() as int) =~= rows);
    w
}

/// The widths of the given columns.
fn widths_of(entries: &[Entry], cols: &Vec<Column>, now: u64) -> (r: Vec<usize>)
    ensures
        r@.len() == cols@.len(),
        forall|i: int|
            0 <= i < cols@.len() ==> #[trigger] r@[i] == column_width(
                model::entry_views(entries@),
                cols@[i],
                now as nat,
            ),
{
    let mut widths: Vec<usize> = Vec::new();
    for i in 0..cols.len()
        invariant
            widths@.len() == i,
            forall|k: int|
                0 <= k < i ==> #[trigger] widths@[k] == column_width(
                    model::entry_views(entries@),
                    cols@[k],
                    now as nat,
                ),
    {
        widths.push(width_of(entries, cols[i], now));
    }
    widths
}

/// The room that columns of the given widths leave for the command.
fn room_for_command(
    entries: &[Entry],
    cols: &Vec<Column>,
    widths: &Vec<usize>,
    show_state: bool,
    term_width: usize,
    now: u64,
) -> (r: usize)
    requires
        cols@ == leading(show_state),
        widths@.len() == cols@.len(),
        forall|i: int|
            0 <= i < cols@.len() ==> #[trigger] widths@[i] == column_width(
                model::entry_views(entries@),
                cols@[i],
                now as nat,
            ),
    ensures
        r == command_room(
            model::entry_views(entries@),
            show_state,
            term_width as nat,
            now as nat,
        ),
{
    let ghost rows = model::entry_views(entries@);
    let mut room: usize = term_width;
    assert(cols@.take(0) =~= Seq::<Column>::empty());
    for i in 0..cols.len()
        invariant
            rows == model::entry_views(entries@),
            widths@.len() == cols@.len(),
            forall|k: int|
                0 <= k < cols@.len() ==> #[trigger] widths@[k] == column_width(
                    rows,
                    cols@[k],
                    now as nat,
                ),
            room == (if taken(rows, cols@.take(i as int), now as nat) <= term_width {
                term_width - taken(rows, cols@.take(i as int), now as nat)
            } else {
                0
            }),
    {
        assert(cols@.take(i + 1).drop_last() =~= cols@.take(i as int));
        let w: usize = widths[i];
        room = if room > w && room - w > GAP {
            room - w - GAP
        } else {
            0
        };
    }
    assert(cols@.take(cols@.len() as int) =~= cols@);
    if room < MIN_COMMAND {
        MIN_COMMAND
    } else {
        room
    }
}

/// A cell in its colour.
fn shade(st: Style, c: Column, s: &str) -> (r: String)
    ensures
        r@ == shaded(st.colored(), c, s@),
{
    match c {
        Column::Port => st.bold(st.cyan(s).as_str()),
        Column::Pid => st.yellow(s),
        Column::State => if text::same(s, "LISTEN") {
            st.green(s)
        } else {
            st.dim(s)
        },
        Column::Command => st.dim(s),
        _ => s.to_string(),
    }
}

/// Appends the cell of a row in a column, filled up to the column and the gap.
fn push_cell(
    out: &mut String,
    entries: &[Entry],
    at: usize,
    c: Column,
    width: usize,
    st: Style,
    now: u64,
)
    requires
        at < entries@.len(),
        width == column_width(model::entry_views(entries@), c, now as nat),
    ensures
        final(out)@ == old(out)@ + shaded(
            st.colored(),
            c,
            cell(entries@[at as int]@, c, now as nat),
        ) + text::spaces(
            (width + GAP - fmt::columns(cell(entries@[at as int]@, c, now as nat))) as nat,
        ),
{
    let s = cell_of(&entries[at], c, now);
    let w: usize = fmt::width(s.as_str());
    proof {
        let rows = model::entry_views(entries@);
        lemma_column_width(rows, c, now as nat);
        assert(rows[at as int] == entries@[at as int]@);
    }
    out.append(shade(st, c, s.as_str()).as_str());
    let ghost before = out@;
    text::push_spaces(out, width - w);
    text::push_spaces(out, GAP);
    proof {
        let a = text::spaces((width - w) as nat);
        let b = text::spaces(GAP as nat);
        assert(a + b =~= text::spaces((width + GAP - w) as nat));
        assert(before + a + b =~= before + (a + b));
    }
}

/// Appends the line of a row.
fn push_row(
    out: &mut String,
    entries: &[Entry],
    at: usize,
    cols: &Vec<Column>,
    widths: &Vec<usize>,
    room: usize,
    show_state: bool,
    st: Style,
    Ghost(term_width): Ghost<nat>,
    now: u64,
)
    requires
        at < entries@.len(),
        cols@ == leading(show_state),
        widths@.len() == cols@.len(),
        forall|i: int|
            0 <= i < cols@.len() ==> #[trigger] widths@[i] == column_width(
                model::entry_views(entries@),
                cols@[i],
                now as nat,
            ),
        room == command_room(model::entry_views(entries@), show_state, term_width, now as nat),
    ensures
        final(out)@ == old(out)@ + row_text(
            model::entry_views(entries@),
            entries@[at as int]@,
            show_state,
            st.colored(),
            term_width,
            now as nat,
        ).push('\n'),
{
    let ghost rows = model::entry_views(entries@);
    let ghost start = out@;
    let e = &entries[at];
    assert(rows[at as int] == e@);
    assert(cols@.take(0) =~= Seq::<Column>::empty());
    for i in 0..cols.len()
        invariant
            rows == model::entry_views(entries@),
            at < entries@.len(),
            rows[at as int] == e@,
            widths@.len() == cols@.len(),
            forall|k: int|
                0 <= k < cols@.len() ==> #[trigger] widths@[k] == column_width(
                    rows,
                    cols@[k],
                    now as nat,
                ),
            out@ == start + cells(rows, e@, cols@.take(i as int), st.colored(), now as nat),
    {
        assert(cols@.take(i + 1).drop_last() =~= cols@.take(i as int));
        let c = cols[i];
        push_cell(out, entries, at, c, widths[i], st, now);
        proof {
            let own = cell(e@, c, now as nat);
            let before = cells(rows, e@, cols@.take(i as int), st.colored(), now as nat);
            let text = shaded(st.colored(), c, own);
            let fill = text::spaces(
                (column_width(rows, c, now as nat) + GAP - fmt::columns(own)) as nat,
            );
            assert(start + before + text + fill =~= start + (before + text + fill));
        }
    }
    assert(cols@.take(cols@.len() as int) =~= cols@);
    let command = cell_of(e, Column::Command, now);
    let cut = fmt::truncate(command.as_str(), room);
    out.append(shade(st, Column::Command, cut.as_str()).as_str());
    out.push('\n');
    assert(out@ =~= start + row_text(
        rows,
        e@,
        show_state,
        st.colored(),
        term_width,
        now as nat,
    ).push('\n'));
}

/// The line of headers.
fn head_of(
    entries: &[Entry],
    cols: &Vec<Column>,
    widths: &Vec<usize>,
    now: u64,
) -> (r: String)
    requires
        widths@.len() == cols@.len(),
        forall|i: int|
            0 <= i < cols@.len() ==> #[trigger] widths@[i] == column_width(
                model::entry_views(entries@),
                cols@[i],
                now as nat,
            ),
    ensures
        r@ == head(model::entry_views(entries@), cols@, now as nat) + header(Column::Command),
{
    let ghost rows = model::entry_views(entries@);
    let mut r = String::new();
    assert(cols@.take(0) =~= Seq::<Column>::empty());
    for i in 0..cols.len()
        invariant
            rows == model::entry_views(entries@),
            widths@.len() == cols@.len(),
            forall|k: int|
                0 <= k < cols@.len() ==> #[trigger] widths@[k] == column_width(
                    rows,
                    cols@[k],
                    now as nat,
                ),
            r@ == head(rows, cols@.take(i as int), now as nat),
    {
        assert(cols@.take(i + 1).drop_last() =~= cols@.take(i as int));
        let c = cols[i];
        proof {
            lemma_column_width(rows, c, now as nat);
        }
        r.append(fmt::pad(c.header(), widths[i]).as_str());
        text::push_spaces(&mut r, GAP);
        proof {
            let n = column_width(rows, c, now as nat);
            assert(fmt::padded(header(c), n) + text::spaces(GAP as nat) =~= fmt::padded(
                header(c),
                n + GAP as nat,
            ));
            assert(r@ =~= head(rows, cols@.take(i + 1), now as nat));
        }
    }
    assert(cols@.take(cols@.len() as int) =~= cols@);
    r.append(Column::Command.header());
    r
}

/// The table at the given time.
pub fn table_at(
    entries: &[Entry],
    show_state: bool,
    st: Style,
    term_width: usize,
    now: u64,
) -> (r: String)
    ensures
        r@ == table_text(
            model::entry_views(entries@),
            show_state,
            st.colored(),
            term_width as nat,
            now as nat,
        ),
{
    let ghost rows = model::entry_views(entries@);
    let cols = leading_columns(show_state);
    let widths = widths_of(entries, &cols, now);
    let room: usize = room_for_command(entries, &cols, &widths, show_state, term_width, now);
    let head = head_of(entries, &cols, &widths, now);
    let mut out = st.dim(head.as_str());
    out.push('\n');
    let ghost start = out@;
    for i in 0..entries.len()
        invariant
            rows == model::entry_views(entries@),
            cols@ == leading(show_state),
            widths@.len() == cols@.len(),
            forall|k: int|
                0 <= k < cols@.len() ==> #[trigger] widths@[k] == column_width(
                    rows,
                    cols@[k],
                    now as nat,
                ),
            room == command_room(rows, show_state, term_width as nat, now as nat),
            out@ == start + body_text(
                rows,
                i as nat,
                show_state,
                st.colored(),
                term_width as nat,
                now as nat,
            ),
    {
        push_row(
            &mut out,
            entries,
            i,
            &cols,
            &widths,
            room,
            show_state,
            st,
            Ghost(term_width as nat),
            now,
        );
        assert(out@ =~= start + body_text(
            rows,
            (i + 1) as nat,
            show_state,
            st.colored(),
            term_width as nat,
            now as nat,
        ));
    }
    out
}

/// The table at the time that the clock shows. The last column takes what room the terminal
/// leaves; what goes beyond it is cut off, so that each row stays on its line.
pub fn table(entries: &[Entry], show_state: bool, st: Style, term_width: usize) -> (r: String)
    ensures
        exists|now: u64|
            fmt::clock_gave(now) && r@ == #[trigger] table_text(
                model::entry_views(entries@),
                show_state,
                st.colored(),
                term_width as nat,
                now as nat,
            ),
{
    let now: u64 = fmt::now();
    table_at(entries, show_state, st, term_width, now)
}

} // verus!
