//! Laws of killing: nothing is killed without consent, each process gets one signal, the wait is
//! bounded, and what the exit codes stand for.

use crate::cli::ArgsView;
use crate::fmt;
use crate::kill;
use crate::kill::{Action, EventView, Phase, Signal, StepView};
use crate::model::EntryView;
use crate::num;
use vstd::prelude::*;

verus! {

/// The step at which the work stands once the events have come.
pub open spec fn walk(
    a: ArgsView,
    rows: Seq<EntryView>,
    on: bool,
    events: Seq<EventView>,
) -> StepView
    decreases events.len(),
{
    if events.len() == 0 {
        kill::first(a, rows, on)
    } else {
        kill::next(walk(a, rows, on, events.drop_last()).job, events.last())
    }
}

/// Whether each event is what came of the action before it.
pub open spec fn orderly(
    a: ArgsView,
    rows: Seq<EntryView>,
    on: bool,
    events: Seq<EventView>,
) -> bool
    decreases events.len(),
{
    events.len() > 0 ==> {
        &&& orderly(a, rows, on, events.drop_last())
        &&& kill::fits(walk(a, rows, on, events.drop_last()).job.phase, events.last())
    }
}

/// The processes that signals were sent to, in order.
pub open spec fn signalled(
    a: ArgsView,
    rows: Seq<EntryView>,
    on: bool,
    events: Seq<EventView>,
) -> Seq<i32>
    decreases events.len(),
{
    let before = if events.len() == 0 {
        Seq::<i32>::empty()
    } else {
        signalled(a, rows, on, events.drop_last())
    };
    match walk(a, rows, on, events).action {
        Action::Send(pid, _) => before.push(pid),
        _ => before,
    }
}

/// How many milliseconds were waited.
pub open spec fn slept(
    a: ArgsView,
    rows: Seq<EntryView>,
    on: bool,
    events: Seq<EventView>,
) -> nat
    decreases events.len(),
{
    let before = if events.len() == 0 {
        0
    } else {
        slept(a, rows, on, events.drop_last())
    };
    match walk(a, rows, on, events).action {
        Action::Sleep(ms) => before + ms as nat,
        _ => before,
    }
}

/// Whether killing was agreed to: it was asked for without a question, or somebody at a terminal
/// answered `y` or `Y`.
pub open spec fn agreed(a: ArgsView, events: Seq<EventView>) -> bool {
    a.force || (events.len() >= 2 && events[0] == EventView::Terminal(true) && (events[1]
        == EventView::Byte(Some(0x79u8)) || events[1] == EventView::Byte(Some(0x59u8))))
}

/// How many signals could not be sent.
pub open spec fn refused(events: Seq<EventView>) -> nat
    decreases events.len(),
{
    if events.len() == 0 {
        0
    } else {
        refused(events.drop_last()) + (if events.last() matches EventView::Sent(Some(_)) {
            1nat
        } else {
            0nat
        })
    }
}

/// The processes of the rows.
pub open spec fn pids(rows: Seq<EntryView>) -> Seq<i32> {
    rows.map_values(|e: EntryView| e.pid)
}

/// The signal that was asked for.
pub open spec fn chosen(a: ArgsView) -> Signal {
    if a.sigkill {
        Signal::Kill
    } else {
        Signal::Term
    }
}

/// What holds of a walk at each of its phases.
spec fn sane(a: ArgsView, rows: Seq<EntryView>, on: bool, events: Seq<EventView>) -> bool {
    let s = walk(a, rows, on, events);
    let j = s.job;
    let sent = signalled(a, rows, on, events);
    let all = pids(kill::targets_of(rows));
    let waited = slept(a, rows, on, events);
    &&& kill::sound(j)
    &&& j.targets == kill::targets_of(rows)
    &&& j.signal == chosen(a)
    &&& j.failed == refused(events)
    &&& waited == if j.phase == Phase::Sleeping {
        j.waited + kill::STEP_MS as nat
    } else {
        j.waited
    }
    &&& match j.phase {
        Phase::Asking => events.len() == 0 && !a.force && sent.len() == 0 && s.action
            == Action::CheckTerminal,
        Phase::Reading => events.len() == 1 && events[0] == EventView::Terminal(true) && !a.force
            && sent.len() == 0 && s.action == Action::ReadByte,
        Phase::Sending(i) => agreed(a, events) && sent == all.take(i + 1) && s.action
            == Action::Send(all[i as int], chosen(a)),
        Phase::Probing(i) => agreed(a, events) && sent == all && j.failed < all.len() && s.action
            == Action::Probe(all[i as int]),
        Phase::Sleeping => agreed(a, events) && sent == all && j.failed < all.len() && s.action
            == Action::Sleep(kill::STEP_MS),
        Phase::Rescanning => agreed(a, events) && sent == all && j.failed < all.len() && s.action
            == Action::Rescan,
        Phase::Done => {
            &&& sent.len() > 0 ==> agreed(a, events)
            &&& agreed(a, events) ==> sent == all
            &&& !agreed(a, events) ==> sent.len() == 0 && s.action == Action::Exit(0)
            &&& s.action == Action::Exit(0) || s.action == Action::Exit(1) || s.action
                == Action::Exit(2)
            &&& agreed(a, events) ==> {
                ||| s.action == Action::Exit(2) && j.failed == all.len()
                ||| s.action == Action::Exit(0) && j.failed < all.len() && j.alive.len() == 0
                ||| s.action == Action::Exit(1) && j.failed < all.len() && j.alive.len() > 0
            }
        },
    }
}

proof fn lemma_first_sane(a: ArgsView, rows: Seq<EntryView>, on: bool)
    requires
        rows.len() <= usize::MAX,
    ensures
        sane(a, rows, on, Seq::<EventView>::empty()),
{
    let none = Seq::<EventView>::empty();
    kill::lemma_first_sound(a, rows, on);
    let all = pids(kill::targets_of(rows));
    if a.force && kill::targets_of(rows).len() > 0 {
        assert(signalled(a, rows, on, none) =~= all.take(1));
    } else {
        assert(signalled(a, rows, on, none) =~= Seq::<i32>::empty());
        if kill::targets_of(rows).len() == 0 {
            assert(all =~= Seq::<i32>::empty());
        }
    }
}

proof fn lemma_sane(a: ArgsView, rows: Seq<EntryView>, on: bool, events: Seq<EventView>)
    requires
        rows.len() <= usize::MAX,
        orderly(a, rows, on, events),
    ensures
        sane(a, rows, on, events),
    decreases events.len(),
{
    if events.len() == 0 {
        assert(events =~= Seq::<EventView>::empty());
        lemma_first_sane(a, rows, on);
    } else {
        let front = events.drop_last();
        lemma_sane(a, rows, on, front);
        match walk(a, rows, on, front).job.phase {
            Phase::Asking | Phase::Reading => lemma_asked_sane(a, rows, on, events),
            Phase::Sending(i) => lemma_sent_sane(a, rows, on, events, i),
            _ => lemma_waited_sane(a, rows, on, events),
        }
    }
}

/// More events do not take consent back.
proof fn lemma_agreed_stays(a: ArgsView, events: Seq<EventView>)
    requires
        events.len() > 0,
        agreed(a, events.drop_last()),
    ensures
        agreed(a, events),
{
    let front = events.drop_last();
    if !a.force {
        assert(events[0] == front[0]);
        assert(events[1] == front[1]);
    }
}

#[verifier::rlimit(40)]
proof fn lemma_asked_sane(a: ArgsView, rows: Seq<EntryView>, on: bool, events: Seq<EventView>)
    requires
        events.len() > 0,
        sane(a, rows, on, events.drop_last()),
        ({
            let p = walk(a, rows, on, events.drop_last()).job.phase;
            kill::fits(p, events.last()) && (p == Phase::Asking || p == Phase::Reading)
        }),
    ensures
        sane(a, rows, on, events),
{
    let front = events.drop_last();
    let j = walk(a, rows, on, front).job;
    let e = events.last();
    let all = pids(kill::targets_of(rows));
    let before = signalled(a, rows, on, front);
    kill::lemma_next_sound(j, e);
    assert(before =~= Seq::<i32>::empty());
    if j.phase == Phase::Asking {
        assert(events[0] == e);
        assert(!agreed(a, events));
    } else {
        assert(events[0] == front[0]);
        assert(events[1] == e);
        if all.len() > 0 {
            assert(before.push(all[0]) =~= all.take(1));
        } else {
            assert(all =~= Seq::<i32>::empty());
        }
    }
}

#[verifier::rlimit(20)]
proof fn lemma_sent_sane(
    a: ArgsView,
    rows: Seq<EntryView>,
    on: bool,
    events: Seq<EventView>,
    i: usize,
)
    requires
        events.len() > 0,
        sane(a, rows, on, events.drop_last()),
        walk(a, rows, on, events.drop_last()).job.phase == Phase::Sending(i),
        kill::fits(Phase::Sending(i), events.last()),
    ensures
        sane(a, rows, on, events),
{
    let front = events.drop_last();
    let j = walk(a, rows, on, front).job;
    let e = events.last();
    let all = pids(kill::targets_of(rows));
    kill::lemma_next_sound(j, e);
    lemma_agreed_stays(a, events);
    if i + 1 < all.len() {
        assert(all.take(i + 1).push(all[i + 1]) =~= all.take(i + 2));
    } else {
        assert(all.take(i + 1) =~= all);
    }
}

proof fn lemma_waited_sane(a: ArgsView, rows: Seq<EntryView>, on: bool, events: Seq<EventView>)
    requires
        events.len() > 0,
        sane(a, rows, on, events.drop_last()),
        ({
            let p = walk(a, rows, on, events.drop_last()).job.phase;
            &&& kill::fits(p, events.last())
            &&& p is Probing || p is Sleeping || p is Rescanning
        }),
    ensures
        sane(a, rows, on, events),
{
    let j = walk(a, rows, on, events.drop_last()).job;
    kill::lemma_next_sound(j, events.last());
    lemma_agreed_stays(a, events);
}

/// No signal is sent unless it was asked for without a question, or somebody at a terminal
/// answered yes.
pub proof fn law_no_signal_without_consent(
    a: ArgsView,
    rows: Seq<EntryView>,
    on: bool,
    events: Seq<EventView>,
)
    requires
        rows.len() <= usize::MAX,
        orderly(a, rows, on, events),
    ensures
        signalled(a, rows, on, events).len() > 0 ==> agreed(a, events),
        walk(a, rows, on, events).action is Send ==> agreed(a, events),
{
    lemma_sane(a, rows, on, events);
}

/// Signals go to the targets one by one, in order and once, and are the one that was asked for.
/// When the work is done, all targets got theirs or, without consent, none did.
pub proof fn law_each_target_gets_one_signal(
    a: ArgsView,
    rows: Seq<EntryView>,
    on: bool,
    events: Seq<EventView>,
)
    requires
        rows.len() <= usize::MAX,
        orderly(a, rows, on, events),
    ensures
        ({
            let all = pids(kill::targets_of(rows));
            let sent = signalled(a, rows, on, events);
            let s = walk(a, rows, on, events);
            &&& sent.len() <= all.len() && sent == all.take(sent.len() as int)
            &&& s.action matches Action::Send(_, signal) ==> signal == chosen(a)
            &&& s.action is Exit && agreed(a, events) ==> sent == all
            &&& s.action is Exit && !agreed(a, events) ==> sent.len() == 0
        }),
{
    lemma_sane(a, rows, on, events);
    let all = pids(kill::targets_of(rows));
    let sent = signalled(a, rows, on, events);
    assert(all.take(all.len() as int) =~= all);
    if sent.len() == 0 {
        assert(sent =~= all.take(0));
    }
}

/// Processes are never waited for longer than the time they are given.
pub proof fn law_the_wait_is_bounded(
    a: ArgsView,
    rows: Seq<EntryView>,
    on: bool,
    events: Seq<EventView>,
)
    requires
        rows.len() <= usize::MAX,
        orderly(a, rows, on, events),
    ensures
        slept(a, rows, on, events) <= kill::TIMEOUT_MS,
{
    lemma_sane(a, rows, on, events);
}

/// The exit code is two where killing was agreed to and no signal could be sent. Where one could,
/// it is one where a process is left and zero where none is. Without consent it is zero.
pub proof fn law_what_exit_codes_mean(
    a: ArgsView,
    rows: Seq<EntryView>,
    on: bool,
    events: Seq<EventView>,
)
    requires
        rows.len() <= usize::MAX,
        orderly(a, rows, on, events),
    ensures
        walk(a, rows, on, events).job.failed == refused(events),
        walk(a, rows, on, events).action matches Action::Exit(code) ==> {
            let j = walk(a, rows, on, events).job;
            let n = kill::targets_of(rows).len();
            ||| code == 2 && agreed(a, events) && j.failed == n
            ||| code == 1 && agreed(a, events) && j.failed < n && j.alive.len() > 0
            ||| code == 0 && agreed(a, events) && j.failed < n && j.alive.len() == 0
            ||| code == 0 && !agreed(a, events)
        },
{
    lemma_sane(a, rows, on, events);
}

proof fn lemma_targets(rows: Seq<EntryView>)
    ensures
        forall|i: int, j: int|
            #![trigger kill::targets_of(rows)[i], kill::targets_of(rows)[j]]
            0 <= i < j < kill::targets_of(rows).len() ==> kill::targets_of(rows)[i].pid
                != kill::targets_of(rows)[j].pid,
        forall|i: int|
            0 <= i < rows.len() ==> kill::has_target(
                kill::targets_of(rows),
                (#[trigger] rows[i]).pid,
            ),
        forall|i: int|
            0 <= i < kill::targets_of(rows).len() ==> rows.contains(
                #[trigger] kill::targets_of(rows)[i],
            ),
    decreases rows.len(),
{
    if rows.len() > 0 {
        let front = rows.drop_last();
        lemma_targets(front);
        let before = kill::targets_of(front);
        let all = kill::targets_of(rows);
        let e = rows[rows.len() - 1];
        assert forall|i: int, j: int|
            #![trigger all[i], all[j]]
            0 <= i < j < all.len() implies all[i].pid != all[j].pid by {
            assert(all[i] == before[i]);
            if j < before.len() {
                assert(all[j] == before[j]);
            } else {
                assert(!kill::has_target(before, e.pid));
            }
        }
        assert forall|i: int| 0 <= i < rows.len() implies kill::has_target(
            all,
            (#[trigger] rows[i]).pid,
        ) by {
            let p = rows[i].pid;
            if i < front.len() {
                assert(front[i] == rows[i]);
                let k = choose|k: int| 0 <= k < before.len() && (#[trigger] before[k]).pid == p;
                assert(all[k].pid == p);
            } else if kill::has_target(before, p) {
                let k = choose|k: int| 0 <= k < before.len() && (#[trigger] before[k]).pid == p;
                assert(all[k].pid == p);
            } else {
                assert(all[before.len() as int].pid == p);
            }
        }
        assert forall|i: int| 0 <= i < all.len() implies rows.contains(#[trigger] all[i]) by {
            if i < before.len() {
                assert(all[i] == before[i]);
                let k = choose|k: int| 0 <= k < front.len() && front[k] == before[i];
                assert(rows[k] == all[i]);
            } else {
                assert(rows[rows.len() - 1] == all[i]);
            }
        }
    }
}

/// No process is a target twice, and the process of every row is a target.
pub proof fn law_targets_are_the_processes(rows: Seq<EntryView>)
    ensures
        forall|i: int, j: int|
            #![trigger kill::targets_of(rows)[i], kill::targets_of(rows)[j]]
            0 <= i < j < kill::targets_of(rows).len() ==> kill::targets_of(rows)[i].pid
                != kill::targets_of(rows)[j].pid,
        forall|i: int|
            0 <= i < rows.len() ==> exists|k: int|
                0 <= k < kill::targets_of(rows).len() && (#[trigger] kill::targets_of(rows)[k]).pid
                    == (#[trigger] rows[i]).pid,
        forall|i: int|
            0 <= i < kill::targets_of(rows).len() ==> rows.contains(
                #[trigger] kill::targets_of(rows)[i],
            ),
{
    lemma_targets(rows);
    assert forall|i: int| 0 <= i < rows.len() implies exists|k: int|
        0 <= k < kill::targets_of(rows).len() && (#[trigger] kill::targets_of(rows)[k]).pid == (
        #[trigger] rows[i]).pid by {
        assert(kill::has_target(kill::targets_of(rows), rows[i].pid));
    }
}

/// The looks at processes: which process was looked for, and whether it was there.
pub open spec fn looks(
    a: ArgsView,
    rows: Seq<EntryView>,
    on: bool,
    events: Seq<EventView>,
) -> Seq<(i32, bool)>
    decreases events.len(),
{
    if events.len() == 0 {
        Seq::<(i32, bool)>::empty()
    } else {
        let front = events.drop_last();
        let before = looks(a, rows, on, front);
        match (walk(a, rows, on, front).action, events.last()) {
            (Action::Probe(pid), EventView::Probed(there)) => before.push((pid, there)),
            _ => before,
        }
    }
}

/// Whether the process was there when it was last looked for.
pub open spec fn latest(seen: Seq<(i32, bool)>, pid: i32) -> Option<bool>
    decreases seen.len(),
{
    if seen.len() == 0 {
        None
    } else if seen.last().0 == pid {
        Some(seen.last().1)
    } else {
        latest(seen.drop_last(), pid)
    }
}

/// Whether a scan found the process on the port. One that failed is taken to have done so.
pub open spec fn found_on(scan: Option<Seq<EntryView>>, pid: i32, port: u16) -> bool {
    scan matches Some(found) ==> exists|i: int|
        0 <= i < found.len() && (#[trigger] found[i]).pid == pid && found[i].local_port == port
}

/// Whether the processes of the first `m` targets that are taken to be there are exactly those
/// that were there when they were last looked for.
spec fn as_seen(t: Seq<EntryView>, seen: Seq<(i32, bool)>, alive: Seq<i32>, m: int) -> bool {
    &&& forall|k: int|
        0 <= k < m ==> latest(seen, (#[trigger] t[k]).pid) is Some && alive.contains(t[k].pid) == (
        latest(seen, t[k].pid) == Some(true))
    &&& forall|p: i32| #[trigger]
        alive.contains(p) ==> exists|k: int| 0 <= k < m && (#[trigger] t[k]).pid == p
}

/// What a walk has found out at each of its phases.
spec fn found_out(a: ArgsView, rows: Seq<EntryView>, on: bool, events: Seq<EventView>) -> bool {
    let s = walk(a, rows, on, events);
    let j = s.job;
    let t = kill::targets_of(rows);
    let seen = looks(a, rows, on, events);
    match j.phase {
        Phase::Asking | Phase::Reading | Phase::Sending(_) => true,
        Phase::Probing(i) => as_seen(t, seen, j.alive, i as int),
        Phase::Sleeping | Phase::Rescanning => as_seen(t, seen, j.alive, t.len() as int),
        Phase::Done => agreed(a, events) && refused(events) < t.len() ==> {
            &&& events.len() > 0
            &&& j.on == on
            &&& s.text == kill::result_lines(on, chosen(a), t, j.alive)
            &&& forall|k: int|
                0 <= k < t.len() ==> latest(seen, (#[trigger] t[k]).pid) is Some
                    && j.alive.contains(t[k].pid) == left(seen, events.last(), t[k])
            &&& forall|p: i32| #[trigger]
                j.alive.contains(p) ==> exists|k: int|
                    0 <= k < t.len() && (#[trigger] t[k]).pid == p
        },
    }
}

/// Whether a target is left: it was there when it was last looked for, and a scan that followed
/// found it on its port.
pub open spec fn left(seen: Seq<(i32, bool)>, last: EventView, t: EntryView) -> bool {
    &&& latest(seen, t.pid) == Some(true)
    &&& last matches EventView::Scanned(scan) ==> found_on(scan, t.pid, t.local_port)
}

proof fn lemma_seen_more(t: Seq<EntryView>, seen: Seq<(i32, bool)>, alive: Seq<i32>, i: int, b: bool)
    requires
        0 <= i < t.len(),
        as_seen(t, seen, alive, i),
        forall|x: int, y: int|
            #![trigger t[x], t[y]]
            0 <= x < y < t.len() ==> t[x].pid != t[y].pid,
    ensures
        as_seen(
            t,
            seen.push((t[i].pid, b)),
            if b {
                alive.push(t[i].pid)
            } else {
                alive
            },
            i + 1,
        ),
{
    let more = seen.push((t[i].pid, b));
    let now = if b {
        alive.push(t[i].pid)
    } else {
        alive
    };
    assert(more.drop_last() =~= seen);
    assert forall|p: i32| #[trigger] now.contains(p) == (alive.contains(p) || (b && p
        == t[i].pid)) by {
        if alive.contains(p) {
            let k = choose|k: int| 0 <= k < alive.len() && alive[k] == p;
            assert(now[k] == p);
        }
        if b {
            assert(now[alive.len() as int] == t[i].pid);
        }
        if now.contains(p) {
            let k = choose|k: int| 0 <= k < now.len() && now[k] == p;
            if k < alive.len() {
                assert(alive[k] == p);
            }
        }
    }
    assert forall|k: int| 0 <= k < i + 1 implies latest(more, (#[trigger] t[k]).pid) is Some
        && now.contains(t[k].pid) == (latest(more, t[k].pid) == Some(true)) by {
        if k < i {
            assert(t[k].pid != t[i].pid);
            assert(latest(more, t[k].pid) == latest(seen, t[k].pid));
        } else if alive.contains(t[i].pid) {
            let q = choose|q: int| 0 <= q < i && (#[trigger] t[q]).pid == t[i].pid;
            assert(t[q].pid != t[i].pid);
        }
    }
    assert forall|p: i32| #[trigger] now.contains(p) implies exists|k: int|
        0 <= k < i + 1 && (#[trigger] t[k]).pid == p by {
        if alive.contains(p) {
            let k = choose|k: int| 0 <= k < i && (#[trigger] t[k]).pid == p;
            assert(t[k].pid == p);
        } else {
            assert(t[i].pid == p);
        }
    }
}

proof fn lemma_holders_contain(
    pids: Seq<i32>,
    t: Seq<EntryView>,
    scan: Option<Seq<EntryView>>,
    p: i32,
)
    ensures
        kill::holders(pids, t, scan).contains(p) == (pids.contains(p) && (scan matches Some(
            found,
        ) ==> kill::holds(found, t, p))),
    decreases pids.len(),
{
    if pids.len() > 0 && scan is Some {
        let front = pids.drop_last();
        lemma_holders_contain(front, t, scan, p);
        let before = kill::holders(front, t, scan);
        let all = kill::holders(pids, t, scan);
        if before.contains(p) {
            let k = choose|k: int| 0 <= k < before.len() && before[k] == p;
            assert(all[k] == p);
        }
        if all.contains(p) {
            let k = choose|k: int| 0 <= k < all.len() && all[k] == p;
            if k < before.len() {
                assert(before[k] == p);
            }
        }
        if pids.contains(p) {
            let k = choose|k: int| 0 <= k < pids.len() && pids[k] == p;
            if k < front.len() {
                assert(front[k] == p);
            } else if kill::holds(scan->0, t, p) {
                assert(all[before.len() as int] == p);
            }
        }
        if front.contains(p) {
            let k = choose|k: int| 0 <= k < front.len() && front[k] == p;
            assert(pids[k] == p);
        }
        assert(pids[pids.len() - 1] == pids.last());
    }
}

proof fn lemma_holds_on(found: Seq<EntryView>, t: Seq<EntryView>, k: int)
    requires
        0 <= k < t.len(),
        forall|x: int, y: int|
            #![trigger t[x], t[y]]
            0 <= x < y < t.len() ==> t[x].pid != t[y].pid,
    ensures
        kill::holds(found, t, t[k].pid) == found_on(Some(found), t[k].pid, t[k].local_port),
{
    let pid = t[k].pid;
    if kill::holds(found, t, pid) {
        let (i, j): (int, int) = choose|i: int, j: int|
            #![trigger found[i], t[j]]
            0 <= i < found.len() && 0 <= j < t.len() && found[i].pid == pid && t[j].pid == pid
                && found[i].local_port == t[j].local_port;
        if j < k {
            assert(t[j].pid != t[k].pid);
        } else if k < j {
            assert(t[k].pid != t[j].pid);
        }
        assert(found[i].pid == pid);
    }
    if found_on(Some(found), pid, t[k].local_port) {
        let i = choose|i: int|
            0 <= i < found.len() && (#[trigger] found[i]).pid == pid && found[i].local_port
                == t[k].local_port;
        assert(found[i].pid == pid && t[k].pid == pid);
    }
}

#[verifier::rlimit(40)]
proof fn lemma_probed(a: ArgsView, rows: Seq<EntryView>, on: bool, events: Seq<EventView>, i: usize)
    requires
        rows.len() <= usize::MAX,
        events.len() > 0,
        orderly(a, rows, on, events),
        found_out(a, rows, on, events.drop_last()),
        walk(a, rows, on, events.drop_last()).job.phase == Phase::Probing(i),
    ensures
        found_out(a, rows, on, events),
{
    let front = events.drop_last();
    let t = kill::targets_of(rows);
    let seen = looks(a, rows, on, front);
    let j = walk(a, rows, on, front).job;
    lemma_sane(a, rows, on, front);
    lemma_on(a, rows, on, front);
    lemma_targets(rows);
    let b = events.last()->Probed_0;
    lemma_seen_more(t, seen, j.alive, i as int, b);
    assert(pids(t)[i as int] == t[i as int].pid);
    assert(looks(a, rows, on, events) == seen.push((t[i as int].pid, b)));
}

/// Colours stay as they were asked for.
proof fn lemma_on(a: ArgsView, rows: Seq<EntryView>, on: bool, events: Seq<EventView>)
    ensures
        walk(a, rows, on, events).job.on == on,
    decreases events.len(),
{
    if events.len() > 0 {
        lemma_on(a, rows, on, events.drop_last());
    }
}

proof fn lemma_rescanned(a: ArgsView, rows: Seq<EntryView>, on: bool, events: Seq<EventView>)
    requires
        rows.len() <= usize::MAX,
        events.len() > 0,
        orderly(a, rows, on, events),
        found_out(a, rows, on, events.drop_last()),
        walk(a, rows, on, events.drop_last()).job.phase == Phase::Rescanning,
    ensures
        found_out(a, rows, on, events),
{
    let front = events.drop_last();
    let t = kill::targets_of(rows);
    let seen = looks(a, rows, on, front);
    let j = walk(a, rows, on, front).job;
    lemma_sane(a, rows, on, front);
    lemma_on(a, rows, on, front);
    lemma_targets(rows);
    let scan = events.last()->Scanned_0;
    let alive = walk(a, rows, on, events).job.alive;
    assert(alive == kill::holders(j.alive, t, scan));
    assert(looks(a, rows, on, events) == seen);
    assert forall|k: int| 0 <= k < t.len() implies latest(seen, (#[trigger] t[k]).pid) is Some
        && alive.contains(t[k].pid) == left(seen, events.last(), t[k]) by {
        lemma_holders_contain(j.alive, t, scan, t[k].pid);
        if let Some(found) = scan {
            lemma_holds_on(found, t, k);
        }
    }
    assert forall|p: i32| #[trigger] alive.contains(p) implies exists|k: int|
        0 <= k < t.len() && (#[trigger] t[k]).pid == p by {
        lemma_holders_contain(j.alive, t, scan, p);
    }
}

proof fn lemma_found_out(a: ArgsView, rows: Seq<EntryView>, on: bool, events: Seq<EventView>)
    requires
        rows.len() <= usize::MAX,
        orderly(a, rows, on, events),
    ensures
        found_out(a, rows, on, events),
    decreases events.len(),
{
    if events.len() > 0 {
        let front = events.drop_last();
        lemma_found_out(a, rows, on, front);
        lemma_sane(a, rows, on, front);
        lemma_sane(a, rows, on, events);
        match walk(a, rows, on, front).job.phase {
            Phase::Probing(i) => lemma_probed(a, rows, on, events, i),
            Phase::Rescanning => lemma_rescanned(a, rows, on, events),
            _ => {},
        }
    }
}

/// What is written of a target in the end.
pub open spec fn verdict(on: bool, sigkill: bool, t: EntryView, is_left: bool) -> Seq<char> {
    let who = " "@ + num::signed(t.pid as int) + " ("@ + fmt::sanitized(t.proc_name) + ")"@;
    if !is_left {
        fmt::green(on, "已终止"@) + who + "\n"@
    } else if sigkill {
        fmt::yellow(on, "!"@) + who + " 收到 "@ + "SIGKILL"@ + " 后仍在运行"@ + "\n"@
    } else {
        fmt::yellow(on, "!"@) + who + " 收到 "@ + "SIGTERM"@ + " 后仍在运行"@ + "，可以试试 -9"@
            + "\n"@
    }
}

/// What is written of the first `n` targets in the end, one line for each.
pub open spec fn verdicts(
    on: bool,
    sigkill: bool,
    t: Seq<EntryView>,
    n: nat,
    seen: Seq<(i32, bool)>,
    last: EventView,
) -> Seq<char>
    decreases n,
{
    if n == 0 {
        Seq::<char>::empty()
    } else {
        verdicts(on, sigkill, t, (n - 1) as nat, seen, last) + verdict(
            on,
            sigkill,
            t[n - 1],
            left(seen, last, t[n - 1]),
        )
    }
}

proof fn lemma_verdicts(
    on: bool,
    a: ArgsView,
    t: Seq<EntryView>,
    n: nat,
    seen: Seq<(i32, bool)>,
    last: EventView,
    alive: Seq<i32>,
)
    requires
        n <= t.len(),
        forall|k: int|
            0 <= k < t.len() ==> alive.contains((#[trigger] t[k]).pid) == left(seen, last, t[k]),
    ensures
        kill::result_lines(on, chosen(a), t.take(n as int), alive) == verdicts(
            on,
            a.sigkill,
            t,
            n,
            seen,
            last,
        ),
    decreases n,
{
    if n > 0 {
        let m = (n - 1) as nat;
        lemma_verdicts(on, a, t, m, seen, last, alive);
        assert(t.take(n as int).drop_last() =~= t.take(m as int));
        let e = t[n - 1];
        assert(t.take(n as int).last() == e);
        assert(alive.contains(e.pid) == left(seen, last, e));
        let line = kill::result_line(on, chosen(a), e, alive);
        assert(line =~= verdict(on, a.sigkill, e, left(seen, last, e)));
    }
}

/// In the end, each target is reported on by a line of its own. It is called terminated exactly
/// where it was not there when it was last looked for, or a scan did not find it on its port;
/// else it is said to run on. All targets have been looked for by then, and the exit code is zero
/// exactly where none is left.
pub proof fn law_who_is_said_to_be_gone(
    a: ArgsView,
    rows: Seq<EntryView>,
    on: bool,
    events: Seq<EventView>,
)
    requires
        rows.len() <= usize::MAX,
        orderly(a, rows, on, events),
        agreed(a, events),
        refused(events) < kill::targets_of(rows).len(),
        walk(a, rows, on, events).action is Exit,
    ensures
        ({
            let t = kill::targets_of(rows);
            let seen = looks(a, rows, on, events);
            &&& events.len() > 0
            &&& walk(a, rows, on, events).text == verdicts(
                on,
                a.sigkill,
                t,
                t.len(),
                seen,
                events.last(),
            )
            &&& forall|k: int|
                0 <= k < t.len() ==> latest(seen, (#[trigger] t[k]).pid) is Some
            &&& (walk(a, rows, on, events).action == Action::Exit(0)) == (forall|k: int|
                0 <= k < t.len() ==> !left(seen, events.last(), #[trigger] t[k]))
            &&& (walk(a, rows, on, events).action == Action::Exit(1)) == (exists|k: int|
                0 <= k < t.len() && left(seen, events.last(), #[trigger] t[k]))
        }),
{
    lemma_sane(a, rows, on, events);
    lemma_found_out(a, rows, on, events);
    let t = kill::targets_of(rows);
    let seen = looks(a, rows, on, events);
    let alive = walk(a, rows, on, events).job.alive;
    lemma_verdicts(on, a, t, t.len(), seen, events.last(), alive);
    assert(t.take(t.len() as int) =~= t);
    if alive.len() > 0 {
        assert(alive.contains(alive[0]));
        let k = choose|k: int| 0 <= k < t.len() && (#[trigger] t[k]).pid == alive[0];
        assert(left(seen, events.last(), t[k]));
    } else {
        assert forall|k: int| 0 <= k < t.len() implies !left(seen, events.last(), #[trigger] t[k]) by {
            assert(!alive.contains(t[k].pid));
        }
    }
}

/// While some process is there, it is waited for, two seconds in all, before a scan decides; no
/// scan comes earlier, and none where no process is there.
pub proof fn law_when_a_scan_decides(
    a: ArgsView,
    rows: Seq<EntryView>,
    on: bool,
    events: Seq<EventView>,
)
    requires
        rows.len() <= usize::MAX,
        orderly(a, rows, on, events),
    ensures
        walk(a, rows, on, events).action is Rescan ==> slept(a, rows, on, events) == 2000,
        walk(a, rows, on, events).action is Rescan || walk(a, rows, on, events).action is Sleep
            ==> exists|k: int|
            0 <= k < kill::targets_of(rows).len() && latest(
                looks(a, rows, on, events),
                (#[trigger] kill::targets_of(rows)[k]).pid,
            ) == Some(true),
        walk(a, rows, on, events).action matches Action::Sleep(ms) ==> ms == 50,
{
    lemma_sane(a, rows, on, events);
    lemma_found_out(a, rows, on, events);
    let alive = walk(a, rows, on, events).job.alive;
    let s = walk(a, rows, on, events);
    if s.action is Rescan || s.action is Sleep {
        assert(alive.contains(alive[0]));
    }
}

/// The target for a process is its first row, and targets come in the order of these rows.
pub proof fn law_targets_are_first_rows(rows: Seq<EntryView>, k: int)
    requires
        0 <= k < kill::targets_of(rows).len(),
    ensures
        exists|i: int|
            {
                &&& 0 <= i < rows.len()
                &&& #[trigger] rows[i] == kill::targets_of(rows)[k]
                &&& forall|m: int| 0 <= m < i ==> (#[trigger] rows[m]).pid != rows[i].pid
                &&& kill::targets_of(rows.take(i)).len() == k
            },
    decreases rows.len(),
{
    let front = rows.drop_last();
    let before = kill::targets_of(front);
    let all = kill::targets_of(rows);
    let n = rows.len() - 1;
    if k < before.len() {
        law_targets_are_first_rows(front, k);
        let i = choose|i: int|
            {
                &&& 0 <= i < front.len()
                &&& #[trigger] front[i] == before[k]
                &&& forall|m: int| 0 <= m < i ==> (#[trigger] front[m]).pid != front[i].pid
                &&& kill::targets_of(front.take(i)).len() == k
            };
        assert(rows[i] == all[k]);
        assert forall|m: int| 0 <= m < i implies (#[trigger] rows[m]).pid != rows[i].pid by {
            assert(front[m] == rows[m]);
        }
        assert(front.take(i) =~= rows.take(i));
    } else {
        lemma_targets(front);
        assert(rows[n] == all[k]);
        assert forall|m: int| 0 <= m < n implies (#[trigger] rows[m]).pid != rows[n].pid by {
            assert(front[m] == rows[m]);
            assert(kill::has_target(before, front[m].pid));
        }
        assert(rows.take(n) =~= front);
    }
}

/// The line of a target in the list of what is to be killed: its process, name, port and command
/// line, else the path of its executable, else its name.
pub open spec fn listing(on: bool, t: EntryView) -> Seq<char> {
    let what = if t.cmdline is Some {
        t.cmdline->0
    } else if t.exe is Some {
        t.exe->0
    } else {
        t.proc_name
    };
    "  "@ + fmt::yellow(on, num::signed(t.pid as int)) + " "@ + fmt::sanitized(t.proc_name) + "  "@
        + fmt::dim(on, ":"@ + num::dec(t.local_port as nat)) + "  "@ + fmt::dim(
        on,
        fmt::truncated(fmt::sanitized(what), 60),
    ) + "\n"@
}

/// The lines of the first `n` targets.
pub open spec fn listings(on: bool, t: Seq<EntryView>, n: nat) -> Seq<char>
    decreases n,
{
    if n == 0 {
        Seq::<char>::empty()
    } else {
        listings(on, t, (n - 1) as nat) + listing(on, t[n - 1])
    }
}

proof fn lemma_listings(on: bool, t: Seq<EntryView>, n: nat)
    requires
        n <= t.len(),
    ensures
        kill::target_lines(on, t.take(n as int)) == listings(on, t, n),
    decreases n,
{
    if n > 0 {
        let m = (n - 1) as nat;
        lemma_listings(on, t, m);
        assert(t.take(n as int).drop_last() =~= t.take(m as int));
        assert(t.take(n as int).last() == t[n - 1]);
        assert(kill::target_line(on, t[n - 1]) =~= listing(on, t[n - 1]));
    }
}

/// Before anything is done, all targets are listed, each on a line of its own.
pub proof fn law_targets_are_listed_first(a: ArgsView, rows: Seq<EntryView>, on: bool)
    ensures
        ({
            let t = kill::targets_of(rows);
            walk(a, rows, on, Seq::<EventView>::empty()).text == fmt::bold(on, "即将终止:"@)
                + "\n"@ + listings(on, t, t.len())
        }),
        !a.force ==> walk(a, rows, on, Seq::<EventView>::empty()).action == Action::CheckTerminal,
{
    let t = kill::targets_of(rows);
    lemma_listings(on, t, t.len());
    assert(t.take(t.len() as int) =~= t);
}

/// What is said as events come: the question names the signal, a refusal says that nothing was
/// done, and a signal that could not be sent is reported with its process and what the system
/// says of it.
pub proof fn law_what_is_said_of_events(
    a: ArgsView,
    rows: Seq<EntryView>,
    on: bool,
    events: Seq<EventView>,
)
    requires
        rows.len() <= usize::MAX,
        orderly(a, rows, on, events),
        events.len() > 0,
    ensures
        ({
            let said = walk(a, rows, on, events).text;
            let ask = "发送 "@ + (if a.sigkill {
                "SIGKILL"@
            } else {
                "SIGTERM"@
            }) + "?"@;
            let nothing_done = fmt::dim(on, "已取消"@) + "\n"@;
            &&& events.last() == EventView::Terminal(true) ==> said == ask + " [y/N] "@ && walk(
                a,
                rows,
                on,
                events,
            ).action == Action::ReadByte
            &&& events.last() == EventView::Terminal(false) ==> said == ask
                + " 非交互环境，需要 -f 才会执行\n"@ + nothing_done && walk(
                a,
                rows,
                on,
                events,
            ).action == Action::Exit(0)
            &&& events.last() matches EventView::Byte(b) ==> if b == Some(0x79u8) || b == Some(
                0x59u8,
            ) {
                said == "\n"@
            } else {
                said == "\n"@ + nothing_done && walk(a, rows, on, events).action == Action::Exit(0)
            }
            &&& events.last() == EventView::Sent(None) ==> said.len() == 0
            &&& events.last() matches EventView::Sent(Some(m)) ==> exists|k: int| #[trigger]
                tells_failure(a, rows, on, events, k, m)
        }),
{
    let front = events.drop_last();
    lemma_sane(a, rows, on, front);
    lemma_on(a, rows, on, front);
    let t = kill::targets_of(rows);
    let j = walk(a, rows, on, front).job;
    match (j.phase, events.last()) {
        (Phase::Sending(i), EventView::Sent(Some(m))) => {
            let said = walk(a, rows, on, events).text;
            assert(said == kill::failed_line(on, t[i as int], m));
            assert(said =~= failure(on, t[i as int], m));
            assert(pids(t)[i as int] == t[i as int].pid);
            assert(tells_failure(a, rows, on, events, i as int, m));
        },
        _ => {},
    }
}

/// Whether the last event is told as the failure of the signal to the target of index `k`, which
/// is the one that the signal was on its way to.
pub open spec fn tells_failure(
    a: ArgsView,
    rows: Seq<EntryView>,
    on: bool,
    events: Seq<EventView>,
    k: int,
    m: Seq<char>,
) -> bool {
    let t = kill::targets_of(rows);
    &&& 0 <= k < t.len()
    &&& walk(a, rows, on, events.drop_last()).action == Action::Send(t[k].pid, chosen(a))
    &&& walk(a, rows, on, events).text == failure(on, t[k], m)
}

/// What is said of a signal that could not be sent.
pub open spec fn failure(on: bool, t: EntryView, m: Seq<char>) -> Seq<char> {
    fmt::red(on, "失败"@) + (" "@ + num::signed(t.pid as int) + " ("@ + fmt::sanitized(t.proc_name)
        + ")"@) + ": "@ + m + "\n"@
}

} // verus!
