//! From what a scan found to what is shown.

use crate::cli;
use crate::cli::{Args, ArgsView};
use crate::fmt;
use crate::fmt::{CalendarTime, Style};
use crate::model;
use crate::model::{Entry, EntryView};
use crate::num;
use crate::render::collapse;
use crate::render::detail;
use crate::render::json;
use crate::render::table;
use vstd::prelude::*;

verus! {

/// The most rows of one port that are shown in detail.
pub const MAX_DETAIL: usize = 4;

/// Whether an entry is asked for: one that listens, unless all are, on one of the ports, unless
/// none is named.
pub open spec fn wanted(a: ArgsView, e: EntryView) -> bool {
    &&& a.all || model::listening(e)
    &&& a.ports.len() == 0 || a.ports.contains(e.local_port)
}

/// The entries that are asked for.
pub open spec fn filtered(a: ArgsView, rows: Seq<EntryView>) -> Seq<EntryView>
    decreases rows.len(),
{
    if rows.len() == 0 {
        rows
    } else if wanted(a, rows.last()) {
        filtered(a, rows.drop_last()).push(rows.last())
    } else {
        filtered(a, rows.drop_last())
    }
}

/// The rows that are shown.
pub open spec fn selected(a: ArgsView, rows: Seq<EntryView>) -> Seq<EntryView> {
    collapse::collapsed(filtered(a, rows))
}

/// What is shown where there is no row.
pub open spec fn empty_text(a: ArgsView, on: bool) -> Seq<char> {
    if a.json {
        "[]\n"@
    } else if a.ports.len() == 1 {
        fmt::dim(on, "端口 "@ + num::dec(a.ports[0] as nat) + " 没有进程占用"@) + "\n"@
    } else if a.ports.len() > 0 {
        fmt::dim(on, "指定的端口都没有进程占用"@) + "\n"@
    } else {
        fmt::dim(on, "没有监听中的端口"@) + "\n"@
    }
}

/// Whether the rows are shown in detail: one port is asked for, few rows are found, and neither
/// JSON nor killing is asked for.
pub open spec fn detailed(a: ArgsView, rows: Seq<EntryView>) -> bool {
    &&& !a.kill && !a.json
    &&& a.ports.len() == 1
    &&& 0 < rows.len() <= MAX_DETAIL
}

/// What is shown of the rows: JSON where it is asked for, the details where one port is asked
/// for and few rows are found, else the table.
pub open spec fn answer_text(
    a: ArgsView,
    rows: Seq<EntryView>,
    starts: Seq<Option<CalendarTime>>,
    on: bool,
    term_width: nat,
    now: nat,
) -> Seq<char> {
    if rows.len() == 0 {
        empty_text(a, on)
    } else if a.json {
        json::json_text(rows, now)
    } else if a.ports.len() == 1 && rows.len() <= MAX_DETAIL {
        detail::detail_text(a.ports[0] as nat, rows, starts, on, term_width, now)
    } else {
        table::table_text(rows, a.all, on, term_width, now)
    }
}

/// What is shown, and what follows it.
pub struct Answer {
    pub out: String,
    /// Whether processes that could not be looked into are worth a note.
    pub note: bool,
    /// The exit code.
    pub code: u8,
}

/// What comes of a query.
pub enum Reply {
    Show(Answer),
    /// The processes of the rows are to be killed.
    Kill,
}

/// Whether the answer comes with a note on processes that could not be looked into. Where a
/// port was asked for and found, it does not: one address and port have one listener.
pub open spec fn noted(a: ArgsView, rows: Seq<EntryView>) -> bool {
    rows.len() == 0 || a.ports.len() == 0
}

/// The exit code: zero where there is a row, else one, for the shell to branch on.
pub open spec fn exit_code(rows: Seq<EntryView>) -> u8 {
    if rows.len() == 0 {
        1
    } else {
        0
    }
}

/// Whether a reply is the right one at the given time.
pub open spec fn right_reply(
    r: Reply,
    a: ArgsView,
    rows: Seq<EntryView>,
    starts: Seq<Option<CalendarTime>>,
    on: bool,
    term_width: nat,
    now: nat,
) -> bool {
    if a.kill && rows.len() > 0 {
        r is Kill
    } else {
        r matches Reply::Show(s) && s.out@ == answer_text(a, rows, starts, on, term_width, now)
            && s.note == noted(a, rows) && s.code == exit_code(rows)
    }
}

/// What is said of processes that could not be looked into.
pub open spec fn partial_text(skipped: nat, on: bool) -> Seq<char> {
    fmt::dim(
        on,
        "note: "@ + num::dec(skipped)
            + " 个进程无权查看（多为其他用户/系统进程），需要完整结果请用 sudo ports"@,
    ) + "\n"@
}

/// The style of the output: colours on a terminal, unless an option or the environment forbids
/// them or JSON is asked for.
pub fn style(args: &Args, no_color: bool, tty: bool) -> (r: Style)
    ensures
        r.colored() == (!args.no_color && !args.json && !no_color && tty),
{
    if args.no_color || args.json {
        Style::plain()
    } else {
        Style::detect(no_color, tty)
    }
}

/// The rows that are shown of what a scan found.
pub fn select(args: &Args, entries: Vec<Entry>) -> (r: Vec<Entry>)
    requires
        cli::ascending(args.ports@),
    ensures
        model::entry_views(r@) == selected(args@, model::entry_views(entries@)),
{
    let ghost rows = model::entry_views(entries@);
    let mut kept: Vec<Entry> = Vec::new();
    assert(model::entry_views(kept@) =~= filtered(args@, rows.take(0)));
    for i in 0..entries.len()
        invariant
            cli::ascending(args.ports@),
            rows == model::entry_views(entries@),
            model::entry_views(kept@) == filtered(args@, rows.take(i as int)),
    {
        assert(rows.take(i + 1).drop_last() =~= rows.take(i as int));
        let e = &entries[i];
        assert(rows.take(i + 1).last() == e@);
        if (args.all || e.is_listening()) && (args.ports.len() == 0 || cli::lists(
            args.ports.as_slice(),
            e.local_port,
        )) {
            let ghost before = kept@;
            let copy = e.clone();
            kept.push(copy);
            assert(model::entry_views(kept@) =~= model::entry_views(before).push(e@));
        }
    }
    assert(rows.take(rows.len() as int) =~= rows);
    collapse::collapse(kept)
}

/// What is shown where there is no row.
pub fn empty_message(args: &Args, st: Style) -> (r: String)
    ensures
        r@ == empty_text(args@, st.colored()),
{
    let mut r = String::new();
    if args.json {
        r.append("[]\n");
    } else if args.ports.len() == 1 {
        let mut m = String::new();
        m.append("端口 ");
        num::push_dec(&mut m, args.ports[0] as u64);
        m.append(" 没有进程占用");
        assert(m@ =~= "端口 "@ + num::dec(args.ports@[0] as nat) + " 没有进程占用"@);
        r.append(st.dim(m.as_str()).as_str());
        r.append("\n");
    } else if args.ports.len() > 0 {
        r.append(st.dim("指定的端口都没有进程占用").as_str());
        r.append("\n");
    } else {
        r.append(st.dim("没有监听中的端口").as_str());
        r.append("\n");
    }
    assert(r@ =~= empty_text(args@, st.colored()));
    r
}

/// Whether the rows are shown in detail, for which it takes to know when their processes started.
pub fn in_detail(args: &Args, rows: &[Entry]) -> (r: bool)
    ensures
        r == detailed(args@, model::entry_views(rows@)),
{
    !args.kill && !args.json && args.ports.len() == 1 && rows.len() > 0 && rows.len() <= MAX_DETAIL
}

/// What comes of the query at the given time. Where the rows are shown in detail, `starts` holds
/// when the process of each started, in local time; else it is not looked at.
pub fn respond_at(
    args: &Args,
    rows: &[Entry],
    starts: &[Option<CalendarTime>],
    st: Style,
    term_width: usize,
    now: u64,
) -> (r: Reply)
    requires
        detailed(args@, model::entry_views(rows@)) ==> starts@.len() == rows@.len(),
        detailed(args@, model::entry_views(rows@)) ==> forall|i: int|
            0 <= i < starts@.len() ==> fmt::showable(#[trigger] starts@[i]),
    ensures
        right_reply(
            r,
            args@,
            model::entry_views(rows@),
            starts@,
            st.colored(),
            term_width as nat,
            now as nat,
        ),
{
    if rows.len() == 0 {
        return Reply::Show(Answer { out: empty_message(args, st), note: true, code: 1 });
    }
    if args.kill {
        return Reply::Kill;
    }
    let out = if args.json {
        json::json_at(rows, now)
    } else if in_detail(args, rows) {
        detail::detail_at(args.ports[0], rows, starts, st, term_width, now)
    } else {
        table::table_at(rows, args.all, st, term_width, now)
    };
    Reply::Show(Answer { out, note: args.ports.len() == 0, code: 0 })
}

/// What comes of the query at the time that the clock shows.
pub fn respond(
    args: &Args,
    rows: &[Entry],
    starts: &[Option<CalendarTime>],
    st: Style,
    term_width: usize,
) -> (r: Reply)
    requires
        detailed(args@, model::entry_views(rows@)) ==> starts@.len() == rows@.len(),
        detailed(args@, model::entry_views(rows@)) ==> forall|i: int|
            0 <= i < starts@.len() ==> fmt::showable(#[trigger] starts@[i]),
    ensures
        exists|now: u64|
            fmt::clock_gave(now) && #[trigger] right_reply(
                r,
                args@,
                model::entry_views(rows@),
                starts@,
                st.colored(),
                term_width as nat,
                now as nat,
            ),
{
    let now: u64 = fmt::now();
    let r = respond_at(args, rows, starts, st, term_width, now);
    assert(right_reply(
        r,
        args@,
        model::entry_views(rows@),
        starts@,
        st.colored(),
        term_width as nat,
        now as nat,
    ));
    r
}

/// The note on processes that could not be looked into: there is one where there are such
/// processes and the user is not root, who may look into all.
pub fn warn_if_partial(skipped: usize, euid: u32, st: Style) -> (r: Option<String>)
    ensures
        (r is Some) == (skipped != 0 && euid != 0),
        r matches Some(m) ==> m@ == partial_text(skipped as nat, st.colored()),
{
    if skipped == 0 || euid == 0 {
        return None;
    }
    let mut m = String::new();
    m.append("note: ");
    num::push_dec(&mut m, skipped as u64);
    m.append(" 个进程无权查看（多为其他用户/系统进程），需要完整结果请用 sudo ports");
    assert(m@ =~= "note: "@ + num::dec(skipped as nat)
        + " 个进程无权查看（多为其他用户/系统进程），需要完整结果请用 sudo ports"@);
    let mut r = st.dim(m.as_str());
    r.append("\n");
    Some(r)
}

} // verus!
