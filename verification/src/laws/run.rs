//! Laws of a query: it shows what was asked for and all of it, and its exit code says whether
//! there was any.

use crate::cli::ArgsView;
use crate::fmt;
use crate::fmt::{CalendarTime, Style};
use crate::laws::collapse;
use crate::model;
use crate::model::{EntryView, Proto, TcpState};
use crate::num;
use crate::render;
use crate::run;
use crate::run::Reply;
use vstd::prelude::*;

verus! {

proof fn lemma_filtered_members(a: ArgsView, rows: Seq<EntryView>)
    ensures
        forall|e: EntryView| #[trigger]
            run::filtered(a, rows).contains(e) == (run::wanted(a, e) && rows.contains(e)),
        run::filtered(a, rows).len() <= rows.len(),
    decreases rows.len(),
{
    if rows.len() > 0 {
        let front = rows.drop_last();
        let last = rows[rows.len() - 1];
        lemma_filtered_members(a, front);
        let before = run::filtered(a, front);
        let all = run::filtered(a, rows);
        assert forall|e: EntryView| #[trigger]
            all.contains(e) == (run::wanted(a, e) && rows.contains(e)) by {
            assert(before.contains(e) == (run::wanted(a, e) && front.contains(e)));
            if before.contains(e) {
                let k = choose|k: int| 0 <= k < before.len() && before[k] == e;
                assert(all[k] == e);
            }
            if front.contains(e) {
                let k = choose|k: int| 0 <= k < front.len() && front[k] == e;
                assert(rows[k] == e);
            }
            if rows.contains(e) {
                let k = choose|k: int| 0 <= k < rows.len() && rows[k] == e;
                if k < front.len() {
                    assert(front[k] == e);
                } else if run::wanted(a, e) {
                    assert(all[before.len() as int] == e);
                }
            }
            if all.contains(e) {
                let k = choose|k: int| 0 <= k < all.len() && all[k] == e;
                if k < before.len() {
                    assert(before[k] == e);
                }
            }
            assert(rows[rows.len() - 1] == last);
        }
    }
}

/// Every row that is shown is, but for its address, an entry that was asked for.
pub proof fn law_rows_were_asked_for(a: ArgsView, rows: Seq<EntryView>, j: int)
    requires
        0 <= j < run::selected(a, rows).len(),
    ensures
        exists|i: int|
            0 <= i < rows.len() && run::wanted(a, #[trigger] rows[i]) && collapse::but_for_address(
                run::selected(a, rows)[j],
                rows[i],
            ),
        run::wanted(a, run::selected(a, rows)[j]),
{
    let kept = run::filtered(a, rows);
    lemma_filtered_members(a, rows);
    collapse::law_collapse_invents_no_row(kept, j);
    let k = choose|k: int|
        0 <= k < kept.len() && collapse::but_for_address(
            run::selected(a, rows)[j],
            #[trigger] kept[k],
        );
    assert(kept.contains(kept[k]));
    let i = choose|i: int| 0 <= i < rows.len() && rows[i] == kept[k];
    assert(run::wanted(a, rows[i]));
}

/// Everything that was asked for is shown.
pub proof fn law_what_was_asked_for_is_shown(a: ArgsView, rows: Seq<EntryView>, i: int)
    requires
        0 <= i < rows.len(),
        run::wanted(a, rows[i]),
        forall|k: int| 0 <= k < rows.len() ==> collapse::single((#[trigger] rows[k]).local_addr),
    ensures
        exists|j: int|
            0 <= j < run::selected(a, rows).len() && collapse::shows(
                #[trigger] run::selected(a, rows)[j],
                rows[i],
            ),
{
    let kept = run::filtered(a, rows);
    lemma_filtered_members(a, rows);
    assert(rows.contains(rows[i]));
    assert(kept.contains(rows[i]));
    let k = choose|k: int| 0 <= k < kept.len() && kept[k] == rows[i];
    assert forall|m: int| 0 <= m < kept.len() implies collapse::single(
        (#[trigger] kept[m]).local_addr,
    ) by {
        assert(kept.contains(kept[m]));
        let q = choose|q: int| 0 <= q < rows.len() && rows[q] == kept[m];
        assert(collapse::single(rows[q].local_addr));
    }
    collapse::law_collapse_shows_every_socket(kept, k);
    let j = choose|j: int|
        0 <= j < render::collapse::collapsed(kept).len() && collapse::shows(
            #[trigger] render::collapse::collapsed(kept)[j],
            kept[k],
        );
    assert(collapse::shows(run::selected(a, rows)[j], rows[i]));
}

proof fn lemma_merged_some(s: Seq<EntryView>)
    ensures
        s.len() > 0 ==> render::collapse::merged(s).len() > 0,
        s.len() == 0 ==> render::collapse::merged(s).len() == 0,
{
}

/// The exit code is one exactly where nothing that was found was asked for, so that the shell
/// can branch on whether a port is free.
pub proof fn law_exit_one_means_free(a: ArgsView, rows: Seq<EntryView>)
    ensures
        run::exit_code(run::selected(a, rows)) == 1 <==> forall|i: int|
            0 <= i < rows.len() ==> !run::wanted(a, #[trigger] rows[i]),
        run::exit_code(run::selected(a, rows)) == 0 || run::exit_code(run::selected(a, rows)) == 1,
{
    broadcast use vstd::seq_lib::group_to_multiset_ensures;

    let kept = run::filtered(a, rows);
    lemma_filtered_members(a, rows);
    let order = render::collapse::sorted(kept);
    collapse::law_sorting_keeps_the_rows(kept);
    assert(order.to_multiset().len() == kept.to_multiset().len());
    assert(order.len() == kept.len());
    lemma_merged_some(order);
    if kept.len() > 0 {
        assert(kept.contains(kept[0]));
        let i = choose|i: int| 0 <= i < rows.len() && rows[i] == kept[0];
        assert(run::wanted(a, rows[i]));
    } else {
        assert forall|i: int| 0 <= i < rows.len() implies !run::wanted(a, #[trigger] rows[i]) by {
            if run::wanted(a, rows[i]) {
                assert(rows.contains(rows[i]));
                assert(kept.contains(rows[i]));
            }
        }
    }
}

/// By default, what listens is asked for: every UDP socket, and the TCP sockets in the state for
/// it. With `-a`, everything is, whatever its state. Where ports are named, what is on another is
/// not asked for.
pub proof fn law_what_a_query_asks_for(a: ArgsView, rows: Seq<EntryView>, i: int)
    requires
        0 <= i < rows.len(),
        a.all || rows[i].proto == Proto::Udp || rows[i].state == Some(TcpState::Listen),
        a.ports.len() == 0 || exists|k: int|
            0 <= k < a.ports.len() && #[trigger] a.ports[k] == rows[i].local_port,
        forall|k: int| 0 <= k < rows.len() ==> collapse::single((#[trigger] rows[k]).local_addr),
    ensures
        exists|j: int|
            0 <= j < run::selected(a, rows).len() && collapse::shows(
                #[trigger] run::selected(a, rows)[j],
                rows[i],
            ),
{
    law_what_was_asked_for_is_shown(a, rows, i);
}

/// Nothing is shown but what is asked for: each row is, but for its address, an entry that was
/// found. Without `-a` that is a UDP socket or a TCP socket that listens; where ports are named,
/// it is on one of them.
pub proof fn law_what_a_query_leaves_out(a: ArgsView, rows: Seq<EntryView>, j: int)
    requires
        0 <= j < run::selected(a, rows).len(),
    ensures
        exists|i: int|
            {
                &&& 0 <= i < rows.len()
                &&& collapse::but_for_address(run::selected(a, rows)[j], #[trigger] rows[i])
                &&& (a.all || rows[i].proto == Proto::Udp || (rows[i].proto == Proto::Tcp
                    && rows[i].state == Some(TcpState::Listen)))
                &&& (a.ports.len() > 0 ==> a.ports.contains(rows[i].local_port))
            },
{
    law_rows_were_asked_for(a, rows, j);
    let i = choose|i: int|
        0 <= i < rows.len() && run::wanted(a, #[trigger] rows[i]) && collapse::but_for_address(
            run::selected(a, rows)[j],
            rows[i],
        );
    assert(run::wanted(a, rows[i]));
}

/// Naming a port takes rows away and adds none: what a query for some ports shows of a port is
/// what a query for all shows of it.
pub proof fn law_naming_ports_only_takes_away(a: ArgsView, rows: Seq<EntryView>, e: EntryView)
    requires
        a.ports.contains(e.local_port),
    ensures
        run::filtered(a, rows).contains(e) == run::filtered(
            ArgsView { ports: Seq::<u16>::empty(), ..a },
            rows,
        ).contains(e),
{
    lemma_filtered_members(a, rows);
    lemma_filtered_members(ArgsView { ports: Seq::<u16>::empty(), ..a }, rows);
    assert(run::filtered(a, rows).contains(e) == (run::wanted(a, e) && rows.contains(e)));
}

/// A query exits with one exactly where the scan found nothing that it asks for: no entry on its
/// ports, or on any where none is named, that listens, or of any state with `-a`.
pub proof fn law_exit_code_says_what_was_found(a: ArgsView, rows: Seq<EntryView>)
    ensures
        run::exit_code(run::selected(a, rows)) == 1 <==> forall|i: int|
            0 <= i < rows.len() ==> {
                let e = #[trigger] rows[i];
                ||| !a.all && e.proto == Proto::Tcp && e.state != Some(TcpState::Listen)
                ||| a.ports.len() > 0 && !a.ports.contains(e.local_port)
            },
        run::exit_code(run::selected(a, rows)) == 0 <==> run::selected(a, rows).len() > 0,
{
    law_exit_one_means_free(a, rows);
}

/// What comes of a query. Where rows were found and killing is asked for, they are killed and
/// nothing is shown. Else what is shown is JSON where that is asked for, the details where one
/// port is asked for and has at most four rows, and the table where not, with states where all
/// connections are shown. The exit code is zero where rows were found and one where not.
pub proof fn law_what_a_query_answers(
    r: Reply,
    a: ArgsView,
    rows: Seq<EntryView>,
    starts: Seq<Option<CalendarTime>>,
    on: bool,
    term_width: nat,
    now: nat,
)
    requires
        run::right_reply(r, a, rows, starts, on, term_width, now),
    ensures
        r is Kill <==> a.kill && rows.len() > 0,
        r matches Reply::Show(s) ==> {
            &&& rows.len() == 0 ==> s.code == 1 && s.note
            &&& rows.len() > 0 ==> s.code == 0 && s.note == (a.ports.len() == 0)
            &&& rows.len() > 0 && a.json ==> s.out@ == render::json::json_text(rows, now)
            &&& rows.len() > 0 && !a.json && a.ports.len() == 1 && rows.len() <= 4 ==> s.out@
                == render::detail::detail_text(
                a.ports[0] as nat,
                rows,
                starts,
                on,
                term_width,
                now,
            )
            &&& rows.len() > 0 && !a.json && (a.ports.len() != 1 || rows.len() > 4) ==> s.out@
                == render::table::table_text(rows, a.all, on, term_width, now)
        },
{
}

/// What is said where nothing was found: an empty array of JSON where that is asked for, else that
/// the port, none of the ports, or no port at all is in use.
pub proof fn law_what_is_said_of_nothing(
    r: Reply,
    a: ArgsView,
    starts: Seq<Option<CalendarTime>>,
    on: bool,
    term_width: nat,
    now: nat,
)
    requires
        run::right_reply(r, a, Seq::<EntryView>::empty(), starts, on, term_width, now),
    ensures
        r matches Reply::Show(s) && {
            &&& a.json ==> s.out@ == "[]\n"@
            &&& !a.json && a.ports.len() == 1 ==> s.out@ == fmt::dim(
                on,
                "端口 "@ + num::dec(a.ports[0] as nat) + " 没有进程占用"@,
            ) + "\n"@
            &&& !a.json && a.ports.len() > 1 ==> s.out@ == fmt::dim(
                on,
                "指定的端口都没有进程占用"@,
            ) + "\n"@
            &&& !a.json && a.ports.len() == 0 ==> s.out@ == fmt::dim(on, "没有监听中的端口"@)
                + "\n"@
        },
{
}

/// What is noted of processes that could not be looked into: how many they are, and how to see
/// them all.
pub proof fn law_what_is_noted(skipped: nat, on: bool)
    ensures
        run::partial_text(skipped, on) == fmt::dim(
            on,
            "note: "@ + num::dec(skipped)
                + " 个进程无权查看（多为其他用户/系统进程），需要完整结果请用 sudo ports"@,
        ) + "\n"@,
{
}

/// Whether an entry is shown as one that listens, and what it is shown to run.
pub proof fn law_what_an_entry_is(e: EntryView)
    ensures
        model::listening(e) == (e.proto == Proto::Udp || e.state == Some(TcpState::Listen)),
        e.cmdline matches Some(c) ==> model::command(e) == c,
        e.cmdline is None && e.exe is Some ==> Some(model::command(e)) == e.exe,
        e.cmdline is None && e.exe is None ==> model::command(e) == e.proc_name,
{
}

/// When a query needs to know when processes started: where it shows details.
pub proof fn law_when_details_are_shown(a: ArgsView, rows: Seq<EntryView>)
    ensures
        run::detailed(a, rows) <==> !a.kill && !a.json && a.ports.len() == 1 && 1 <= rows.len()
            <= 4,
{
}

/// There is a note exactly where some processes could not be looked into and the user is not root.
pub proof fn law_when_there_is_a_note(skipped: usize, euid: u32, st: Style, r: Option<String>)
    requires
        call_ensures(run::warn_if_partial, (skipped, euid, st), r),
    ensures
        r is Some <==> skipped > 0 && euid != 0,
        r matches Some(m) ==> m@ == fmt::dim(
            st.colored(),
            "note: "@ + num::dec(skipped as nat)
                + " 个进程无权查看（多为其他用户/系统进程），需要完整结果请用 sudo ports"@,
        ) + "\n"@,
{
}

/// A terminal that does not tell its width is taken to have 120 columns.
pub proof fn law_how_wide_a_terminal_is(status: i32, columns: u16, r: usize)
    requires
        call_ensures(fmt::term_width, (status, columns), r),
    ensures
        r == if status == 0 && columns != 0 {
            columns as int
        } else {
            120
        },
{
}

} // verus!
