//! Killing the processes that hold a port: ask, send a signal to each, wait for them to go, and
//! say which did. The decisions are made here, step by step; what is done in between is an
//! [`Action`], and what came of it an [`Event`].

use crate::cli::{Args, ArgsView};
use crate::fmt;
use crate::fmt::Style;
use crate::model;
use crate::model::{Entry, EntryView};
use crate::num;
use crate::text;
use vstd::prelude::*;

verus! {

/// How long processes are given to go, in milliseconds.
pub const TIMEOUT_MS: u64 = 2000;

/// How long it takes to look again, in milliseconds.
pub const STEP_MS: u64 = 50;

/// The columns that a command takes in the list of what is to be killed.
pub const MAX_COMMAND: usize = 60;

/// The signals in use.
#[derive(Clone, Copy, PartialEq, Eq, Debug, Structural)]
pub enum Signal {
    Term,
    Kill,
}

/// What is to be done next.
#[derive(Clone, Copy, PartialEq, Eq, Debug, Structural)]
pub enum Action {
    /// Find out whether the standard input is a terminal.
    CheckTerminal,
    /// Read one byte of the standard input.
    ReadByte,
    /// Send the signal to the process.
    Send(i32, Signal),
    /// Find out whether the process is there.
    Probe(i32),
    /// Wait for so many milliseconds.
    Sleep(u64),
    /// Scan the system again.
    Rescan,
    /// Exit with the code.
    Exit(u8),
}

/// What came of an action.
pub enum Event {
    /// Whether the standard input is a terminal.
    Terminal(bool),
    /// The byte that was read, if there was one.
    Byte(Option<u8>),
    /// The signal was sent, or what the system says of its failure.
    Sent(Option<String>),
    /// Whether the process is there.
    Probed(bool),
    /// The wait is over.
    Slept,
    /// What the scan found, if it did not fail.
    Scanned(Option<Vec<Entry>>),
}

/// What came of an action, with texts and entries as sequences.
#[verifier::ext_equal]
pub enum EventView {
    Terminal(bool),
    Byte(Option<u8>),
    Sent(Option<Seq<char>>),
    Probed(bool),
    Slept,
    Scanned(Option<Seq<EntryView>>),
}

impl View for Event {
    type V = EventView;

    open spec fn view(&self) -> EventView {
        match *self {
            Event::Terminal(b) => EventView::Terminal(b),
            Event::Byte(b) => EventView::Byte(b),
            Event::Sent(e) => EventView::Sent(text::opt_view(e)),
            Event::Probed(b) => EventView::Probed(b),
            Event::Slept => EventView::Slept,
            Event::Scanned(Some(s)) => EventView::Scanned(Some(model::entry_views(s@))),
            Event::Scanned(None) => EventView::Scanned(None),
        }
    }
}

/// How far the work has come.
#[derive(Clone, Copy, PartialEq, Eq, Debug, Structural)]
pub enum Phase {
    /// It is to be found out whether somebody can be asked.
    Asking,
    /// An answer is awaited.
    Reading,
    /// The signal to the target of this index is on its way.
    Sending(usize),
    /// The target of this index is looked at.
    Probing(usize),
    Sleeping,
    Rescanning,
    Done,
}

/// The work.
pub struct Job {
    targets: Vec<Entry>,
    signal: Signal,
    st: Style,
    phase: Phase,
    failed: usize,
    waited: u64,
    alive: Vec<i32>,
}

/// The work, with its targets as a sequence.
#[verifier::ext_equal]
pub struct JobView {
    /// The processes to kill: the first row of each.
    pub targets: Seq<EntryView>,
    pub signal: Signal,
    /// Whether output is coloured.
    pub on: bool,
    pub phase: Phase,
    /// How many signals could not be sent.
    pub failed: nat,
    /// How many milliseconds were waited.
    pub waited: nat,
    /// The processes that were found to be there.
    pub alive: Seq<i32>,
}

impl View for Job {
    type V = JobView;

    closed spec fn view(&self) -> JobView {
        JobView {
            targets: model::entry_views(self.targets@),
            signal: self.signal,
            on: self.st.colored(),
            phase: self.phase,
            failed: self.failed as nat,
            waited: self.waited as nat,
            alive: self.alive@,
        }
    }
}

/// A step of the work: how it stands, what is written to the standard error, and what is to be
/// done then.
pub struct Step {
    pub job: Job,
    pub text: String,
    pub action: Action,
}

/// A step of the work, with its text as a sequence.
#[verifier::ext_equal]
pub struct StepView {
    pub job: JobView,
    pub text: Seq<char>,
    pub action: Action,
}

impl View for Step {
    type V = StepView;

    open spec fn view(&self) -> StepView {
        StepView { job: self.job@, text: self.text@, action: self.action }
    }
}

/// Whether a row of the process is among the targets.
pub open spec fn has_target(targets: Seq<EntryView>, pid: i32) -> bool {
    exists|i: int| 0 <= i < targets.len() && (#[trigger] targets[i]).pid == pid
}

/// The first row of each process. A process may hold several ports, but gets one signal.
pub open spec fn targets_of(rows: Seq<EntryView>) -> Seq<EntryView>
    decreases rows.len(),
{
    if rows.len() == 0 {
        rows
    } else {
        let before = targets_of(rows.drop_last());
        if has_target(before, rows.last().pid) {
            before
        } else {
            before.push(rows.last())
        }
    }
}

/// The name of a signal.
pub open spec fn signal_name(s: Signal) -> Seq<char> {
    match s {
        Signal::Term => "SIGTERM"@,
        Signal::Kill => "SIGKILL"@,
    }
}

/// The line of a target in the list of what is to be killed.
pub open spec fn target_line(on: bool, t: EntryView) -> Seq<char> {
    "  "@ + fmt::yellow(on, num::signed(t.pid as int)) + " "@ + fmt::sanitized(t.proc_name) + "  "@
        + fmt::dim(on, ":"@ + num::dec(t.local_port as nat)) + "  "@ + fmt::dim(
        on,
        fmt::truncated(fmt::sanitized(model::command(t)), MAX_COMMAND as nat),
    ) + "\n"@
}

/// The lines of the targets.
pub open spec fn target_lines(on: bool, targets: Seq<EntryView>) -> Seq<char>
    decreases targets.len(),
{
    if targets.len() == 0 {
        Seq::<char>::empty()
    } else {
        target_lines(on, targets.drop_last()) + target_line(on, targets.last())
    }
}

/// The list of what is to be killed.
pub open spec fn notice(on: bool, targets: Seq<EntryView>) -> Seq<char> {
    fmt::bold(on, "即将终止:"@) + "\n"@ + target_lines(on, targets)
}

/// The question.
pub open spec fn question(s: Signal) -> Seq<char> {
    "发送 "@ + signal_name(s) + "?"@
}

/// What is written where nothing is done.
pub open spec fn cancelled(on: bool) -> Seq<char> {
    fmt::dim(on, "已取消"@) + "\n"@
}

/// Whether an answer is a yes.
pub open spec fn is_yes(b: Option<u8>) -> bool {
    b == Some(0x79u8) || b == Some(0x59u8)
}

/// What a target is called in the lines that report on it.
pub open spec fn label(t: EntryView) -> Seq<char> {
    " "@ + num::signed(t.pid as int) + " ("@ + fmt::sanitized(t.proc_name) + ")"@
}

/// What is written where a signal could not be sent.
pub open spec fn failed_line(on: bool, t: EntryView, e: Seq<char>) -> Seq<char> {
    fmt::red(on, "失败"@) + label(t) + ": "@ + e + "\n"@
}

/// What is written of a target in the end.
pub open spec fn result_line(on: bool, s: Signal, t: EntryView, alive: Seq<i32>) -> Seq<char> {
    if alive.contains(t.pid) {
        fmt::yellow(on, "!"@) + label(t) + " 收到 "@ + signal_name(s) + " 后仍在运行"@ + (match s {
            Signal::Term => "，可以试试 -9"@,
            Signal::Kill => Seq::<char>::empty(),
        }) + "\n"@
    } else {
        fmt::green(on, "已终止"@) + label(t) + "\n"@
    }
}

/// What is written of the targets in the end.
pub open spec fn result_lines(
    on: bool,
    s: Signal,
    targets: Seq<EntryView>,
    alive: Seq<i32>,
) -> Seq<char>
    decreases targets.len(),
{
    if targets.len() == 0 {
        Seq::<char>::empty()
    } else {
        result_lines(on, s, targets.drop_last(), alive) + result_line(on, s, targets.last(), alive)
    }
}

/// Whether the process still holds the port it was a target for.
pub open spec fn holds(scan: Seq<EntryView>, targets: Seq<EntryView>, pid: i32) -> bool {
    exists|i: int, j: int|
        #![trigger scan[i], targets[j]]
        0 <= i < scan.len() && 0 <= j < targets.len() && scan[i].pid == pid && targets[j].pid == pid
            && scan[i].local_port == targets[j].local_port
}

/// The processes that still hold the port they were a target for. Where the scan failed, all
/// are taken to do so.
pub open spec fn holders(
    pids: Seq<i32>,
    targets: Seq<EntryView>,
    scan: Option<Seq<EntryView>>,
) -> Seq<i32>
    decreases pids.len(),
{
    match scan {
        None => pids,
        Some(rows) => if pids.len() == 0 {
            pids
        } else {
            let before = holders(pids.drop_last(), targets, scan);
            if holds(rows, targets, pids.last()) {
                before.push(pids.last())
            } else {
                before
            }
        },
    }
}

/// The end of the work, with what is written before.
pub open spec fn ended(j: JobView, said: Seq<char>, code: u8) -> StepView {
    StepView { job: JobView { phase: Phase::Done, ..j }, text: said, action: Action::Exit(code) }
}

/// The end of the work once the processes were waited for: success where none is left.
pub open spec fn finished(j: JobView) -> StepView {
    ended(
        j,
        result_lines(j.on, j.signal, j.targets, j.alive),
        if j.alive.len() == 0 {
            0
        } else {
            1
        },
    )
}

/// A look at the targets from the first one on.
pub open spec fn looking(j: JobView, said: Seq<char>) -> StepView {
    StepView {
        job: JobView { phase: Phase::Probing(0), alive: Seq::<i32>::empty(), ..j },
        text: said,
        action: Action::Probe(j.targets[0].pid),
    }
}

/// The signal to the target of index `i`; behind the last one, a look at the targets, or the
/// end where no signal could be sent.
pub open spec fn sending(j: JobView, i: nat, said: Seq<char>) -> StepView {
    if i < j.targets.len() {
        StepView {
            job: JobView { phase: Phase::Sending(i as usize), ..j },
            text: said,
            action: Action::Send(j.targets[i as int].pid, j.signal),
        }
    } else if j.failed == j.targets.len() {
        ended(j, said, 2)
    } else {
        looking(j, said)
    }
}

/// What follows a look at the target of index `i`: a look at the next; behind the last one, the
/// end where none is left, a wait, or, where there is no time left, a scan of who holds what.
pub open spec fn looked(j: JobView, i: nat, there: bool) -> StepView {
    let k = JobView {
        alive: if there {
            j.alive.push(j.targets[i as int].pid)
        } else {
            j.alive
        },
        ..j
    };
    let none = Seq::<char>::empty();
    if i + 1 < j.targets.len() {
        StepView {
            job: JobView { phase: Phase::Probing((i + 1) as usize), ..k },
            text: none,
            action: Action::Probe(j.targets[i as int + 1].pid),
        }
    } else if k.alive.len() == 0 {
        finished(k)
    } else if j.waited >= TIMEOUT_MS {
        StepView {
            job: JobView { phase: Phase::Rescanning, ..k },
            text: none,
            action: Action::Rescan,
        }
    } else {
        StepView {
            job: JobView { phase: Phase::Sleeping, ..k },
            text: none,
            action: Action::Sleep(STEP_MS),
        }
    }
}

/// The first step: without a question where that is asked for.
pub open spec fn first(a: ArgsView, rows: Seq<EntryView>, on: bool) -> StepView {
    let targets = targets_of(rows);
    let j = JobView {
        targets,
        signal: if a.sigkill {
            Signal::Kill
        } else {
            Signal::Term
        },
        on,
        phase: Phase::Asking,
        failed: 0,
        waited: 0,
        alive: Seq::<i32>::empty(),
    };
    if a.force {
        sending(j, 0, notice(on, targets))
    } else {
        StepView { job: j, text: notice(on, targets), action: Action::CheckTerminal }
    }
}

/// The step that follows an event.
pub open spec fn next(j: JobView, e: EventView) -> StepView {
    match (j.phase, e) {
        (Phase::Asking, EventView::Terminal(true)) => StepView {
            job: JobView { phase: Phase::Reading, ..j },
            text: question(j.signal) + " [y/N] "@,
            action: Action::ReadByte,
        },
        (Phase::Asking, EventView::Terminal(false)) => ended(
            j,
            question(j.signal) + " 非交互环境，需要 -f 才会执行\n"@ + cancelled(j.on),
            0,
        ),
        (Phase::Reading, EventView::Byte(b)) => if is_yes(b) {
            sending(j, 0, "\n"@)
        } else {
            ended(j, "\n"@ + cancelled(j.on), 0)
        },
        (Phase::Sending(i), EventView::Sent(None)) => sending(
            j,
            (i + 1) as nat,
            Seq::<char>::empty(),
        ),
        (Phase::Sending(i), EventView::Sent(Some(m))) => sending(
            JobView { failed: j.failed + 1, ..j },
            (i + 1) as nat,
            failed_line(j.on, j.targets[i as int], m),
        ),
        (Phase::Probing(i), EventView::Probed(there)) => looked(j, i as nat, there),
        (Phase::Sleeping, EventView::Slept) => looking(
            JobView { waited: j.waited + STEP_MS as nat, ..j },
            Seq::<char>::empty(),
        ),
        (Phase::Rescanning, EventView::Scanned(s)) => finished(
            JobView { alive: holders(j.alive, j.targets, s), ..j },
        ),
        _ => ended(j, Seq::<char>::empty(), 2),
    }
}

/// Whether an event is what came of the action that the phase awaits.
pub open spec fn fits(p: Phase, e: EventView) -> bool {
    match (p, e) {
        (Phase::Asking, EventView::Terminal(_)) => true,
        (Phase::Reading, EventView::Byte(_)) => true,
        (Phase::Sending(_), EventView::Sent(_)) => true,
        (Phase::Probing(_), EventView::Probed(_)) => true,
        (Phase::Sleeping, EventView::Slept) => true,
        (Phase::Rescanning, EventView::Scanned(_)) => true,
        _ => false,
    }
}

/// What holds of the work at every step.
pub open spec fn sound(j: JobView) -> bool {
    &&& j.targets.len() <= usize::MAX
    &&& j.failed <= j.targets.len()
    &&& j.waited <= TIMEOUT_MS
    &&& j.waited % STEP_MS as nat == 0
    &&& match j.phase {
        Phase::Asking | Phase::Reading => j.failed == 0 && j.waited == 0,
        Phase::Sending(i) => i < j.targets.len() && j.failed <= i && j.waited == 0,
        Phase::Probing(i) => i < j.targets.len() && j.alive.len() <= i,
        Phase::Sleeping => j.targets.len() > 0 && j.alive.len() > 0 && j.waited < TIMEOUT_MS,
        Phase::Rescanning => j.alive.len() > 0 && j.waited == TIMEOUT_MS,
        Phase::Done => true,
    }
}

/// Every step of sound work leaves it sound.
pub proof fn lemma_next_sound(j: JobView, e: EventView)
    requires
        sound(j),
        fits(j.phase, e),
    ensures
        sound(next(j, e).job),
{
}

/// The first step is sound.
pub proof fn lemma_first_sound(a: ArgsView, rows: Seq<EntryView>, on: bool)
    requires
        rows.len() <= usize::MAX,
    ensures
        sound(first(a, rows, on).job),
{
    lemma_targets_len(rows);
}

proof fn lemma_targets_len(rows: Seq<EntryView>)
    ensures
        targets_of(rows).len() <= rows.len(),
    decreases rows.len(),
{
    if rows.len() > 0 {
        lemma_targets_len(rows.drop_last());
    }
}

impl Signal {
    /// The name of the signal.
    pub fn name(self) -> (r: &'static str)
        ensures
            r@ == signal_name(self),
    {
        match self {
            Signal::Term => "SIGTERM",
            Signal::Kill => "SIGKILL",
        }
    }
}

/// The first row of each process.
pub fn kill_targets(entries: &[Entry]) -> (r: Vec<Entry>)
    ensures
        model::entry_views(r@) == targets_of(model::entry_views(entries@)),
{
    let ghost rows = model::entry_views(entries@);
    let mut targets: Vec<Entry> = Vec::new();
    assert(model::entry_views(targets@) =~= targets_of(rows.take(0)));
    for i in 0..entries.len()
        invariant
            rows == model::entry_views(entries@),
            model::entry_views(targets@) == targets_of(rows.take(i as int)),
    {
        assert(rows.take(i + 1).drop_last() =~= rows.take(i as int));
        let e = &entries[i];
        assert(rows.take(i + 1).last() == e@);
        let ghost before = model::entry_views(targets@);
        let mut found = false;
        for k in 0..targets.len()
            invariant
                before == model::entry_views(targets@),
                found == exists|m: int| 0 <= m < k && (#[trigger] before[m]).pid == e.pid,
        {
            assert(before[k as int].pid == targets@[k as int].pid);
            if targets[k].pid == e.pid {
                found = true;
            }
        }
        assert(found == has_target(before, e@.pid));
        if !found {
            let ghost was = targets@;
            let copy = e.clone();
            targets.push(copy);
            assert(model::entry_views(targets@) =~= before.push(e@));
        }
    }
    assert(rows.take(rows.len() as int) =~= rows);
    targets
}

/// The line of a target in the list of what is to be killed.
fn push_target_line(out: &mut String, st: Style, t: &Entry)
    ensures
        final(out)@ == old(out)@ + target_line(st.colored(), t@),
{
    let ghost on = st.colored();
    let mut port = String::new();
    port.append(":");
    num::push_dec(&mut port, t.local_port as u64);
    assert(port@ =~= ":"@ + num::dec(t.local_port as nat));
    let command = fmt::truncate(fmt::sanitize(t.display_command()).as_str(), MAX_COMMAND);
    let mut line = String::new();
    line.append("  ");
    line.append(st.yellow(num::to_signed(t.pid).as_str()).as_str());
    line.append(" ");
    line.append(fmt::sanitize(t.proc_name.as_str()).as_str());
    line.append("  ");
    line.append(st.dim(port.as_str()).as_str());
    line.append("  ");
    line.append(st.dim(command.as_str()).as_str());
    line.append("\n");
    assert(Seq::<char>::empty() + "  "@ =~= "  "@);
    assert(line@ == target_line(on, t@));
    out.append(line.as_str());
}

/// The list of what is to be killed.
fn notice_of(st: Style, targets: &Vec<Entry>) -> (r: String)
    ensures
        r@ == notice(st.colored(), model::entry_views(targets@)),
{
    let ghost rows = model::entry_views(targets@);
    let ghost head = fmt::bold(st.colored(), "即将终止:"@) + "\n"@;
    let mut r = st.bold("即将终止:");
    r.append("\n");
    assert(r@ =~= head + target_lines(st.colored(), rows.take(0)));
    for i in 0..targets.len()
        invariant
            rows == model::entry_views(targets@),
            r@ == head + target_lines(st.colored(), rows.take(i as int)),
    {
        assert(rows.take(i + 1).drop_last() =~= rows.take(i as int));
        assert(rows.take(i + 1).last() == targets@[i as int]@);
        push_target_line(&mut r, st, &targets[i]);
        assert(r@ =~= head + target_lines(st.colored(), rows.take(i + 1)));
    }
    assert(rows.take(rows.len() as int) =~= rows);
    r
}

/// The question.
fn question_of(s: Signal) -> (r: String)
    ensures
        r@ == question(s),
{
    let mut r = String::new();
    r.append("发送 ");
    r.append(s.name());
    r.append("?");
    assert(r@ =~= question(s));
    r
}

/// Appends what is written where nothing is done.
fn push_cancelled(out: &mut String, st: Style)
    ensures
        final(out)@ == old(out)@ + cancelled(st.colored()),
{
    out.append(st.dim("已取消").as_str());
    out.append("\n");
    assert(out@ =~= old(out)@ + cancelled(st.colored()));
}

/// Appends what a target is called.
fn push_label(out: &mut String, t: &Entry)
    ensures
        final(out)@ == old(out)@ + label(t@),
{
    out.append(" ");
    num::push_signed(out, t.pid);
    out.append(" (");
    out.append(fmt::sanitize(t.proc_name.as_str()).as_str());
    out.append(")");
    assert(out@ =~= old(out)@ + label(t@));
}

/// What is written where a signal could not be sent.
fn failed_line_of(st: Style, t: &Entry, e: &str) -> (r: String)
    ensures
        r@ == failed_line(st.colored(), t@, e@),
{
    let mut r = st.red("失败");
    push_label(&mut r, t);
    r.append(": ");
    r.append(e);
    r.append("\n");
    r
}

/// Whether the process is listed.
fn listed(pids: &Vec<i32>, pid: i32) -> (r: bool)
    ensures
        r == pids@.contains(pid),
{
    for i in 0..pids.len()
        invariant
            forall|k: int| 0 <= k < i ==> pids@[k] != pid,
    {
        if pids[i] == pid {
            return true;
        }
    }
    false
}

/// What is written of a target in the end. The name of a process is its own to choose, so it is
/// cleaned before it is written.
fn result_line_of(st: Style, s: Signal, t: &Entry, alive: &Vec<i32>) -> (r: String)
    ensures
        r@ == result_line(st.colored(), s, t@, alive@),
{
    if listed(alive, t.pid) {
        let mut r = st.yellow("!");
        push_label(&mut r, t);
        r.append(" 收到 ");
        r.append(s.name());
        r.append(" 后仍在运行");
        let ghost before = r@;
        match s {
            Signal::Term => r.append("，可以试试 -9"),
            Signal::Kill => {
                assert(before =~= before + Seq::<char>::empty());
            },
        }
        r.append("\n");
        r
    } else {
        let mut r = st.green("已终止");
        push_label(&mut r, t);
        r.append("\n");
        r
    }
}

/// What is written of the targets in the end.
fn result_lines_of(st: Style, s: Signal, targets: &Vec<Entry>, alive: &Vec<i32>) -> (r: String)
    ensures
        r@ == result_lines(st.colored(), s, model::entry_views(targets@), alive@),
{
    let ghost rows = model::entry_views(targets@);
    let mut r = String::new();
    assert(r@ =~= result_lines(st.colored(), s, rows.take(0), alive@));
    for i in 0..targets.len()
        invariant
            rows == model::entry_views(targets@),
            r@ == result_lines(st.colored(), s, rows.take(i as int), alive@),
    {
        assert(rows.take(i + 1).drop_last() =~= rows.take(i as int));
        assert(rows.take(i + 1).last() == targets@[i as int]@);
        r.append(result_line_of(st, s, &targets[i], alive).as_str());
    }
    assert(rows.take(rows.len() as int) =~= rows);
    r
}

/// Whether the process still holds the port it was a target for.
fn is_holder(scan: &Vec<Entry>, targets: &Vec<Entry>, pid: i32) -> (r: bool)
    ensures
        r == holds(model::entry_views(scan@), model::entry_views(targets@), pid),
{
    let ghost found = model::entry_views(scan@);
    let ghost rows = model::entry_views(targets@);
    for i in 0..scan.len()
        invariant
            found == model::entry_views(scan@),
            rows == model::entry_views(targets@),
            forall|m: int, n: int|
                #![trigger found[m], rows[n]]
                0 <= m < i && 0 <= n < rows.len() ==> !(found[m].pid == pid && rows[n].pid == pid
                    && found[m].local_port == rows[n].local_port),
    {
        for j in 0..targets.len()
            invariant
                i < scan@.len(),
                found == model::entry_views(scan@),
                rows == model::entry_views(targets@),
                forall|m: int, n: int|
                    #![trigger found[m], rows[n]]
                    0 <= m < i && 0 <= n < rows.len() ==> !(found[m].pid == pid && rows[n].pid
                        == pid && found[m].local_port == rows[n].local_port),
                forall|n: int|
                    #![trigger rows[n]]
                    0 <= n < j ==> !(found[i as int].pid == pid && rows[n].pid == pid
                        && found[i as int].local_port == rows[n].local_port),
        {
            assert(found[i as int] == scan@[i as int]@);
            assert(rows[j as int] == targets@[j as int]@);
            if scan[i].pid == pid && targets[j].pid == pid && scan[i].local_port
                == targets[j].local_port {
                return true;
            }
        }
    }
    false
}

/// The processes that still hold the port they were a target for. A process that did not go may
/// have let go of its port all the same. Where the scan failed, all are taken to hold it.
pub fn still_holding(pids: &Vec<i32>, targets: &Vec<Entry>, scan: &Option<Vec<Entry>>) -> (r: Vec<
    i32,
>)
    ensures
        r@ == holders(
            pids@,
            model::entry_views(targets@),
            match *scan {
                Some(s) => Some(model::entry_views(s@)),
                None => None,
            },
        ),
{
    let mut r: Vec<i32> = Vec::new();
    match scan {
        None => {
            for i in 0..pids.len()
                invariant
                    r@ == pids@.take(i as int),
            {
                r.push(pids[i]);
                assert(r@ =~= pids@.take(i + 1));
            }
            assert(pids@.take(pids@.len() as int) =~= pids@);
        },
        Some(found) => {
            let ghost rows = model::entry_views(targets@);
            let ghost seen = Some(model::entry_views(found@));
            assert(r@ =~= holders(pids@.take(0), rows, seen));
            for i in 0..pids.len()
                invariant
                    rows == model::entry_views(targets@),
                    seen == Some(model::entry_views(found@)),
                    r@ == holders(pids@.take(i as int), rows, seen),
            {
                assert(pids@.take(i + 1).drop_last() =~= pids@.take(i as int));
                if is_holder(found, targets, pids[i]) {
                    r.push(pids[i]);
                }
            }
            assert(pids@.take(pids@.len() as int) =~= pids@);
        },
    }
    r
}

impl Job {
    /// The end of the work.
    fn end(self, said: String, code: u8) -> (r: Step)
        ensures
            r@ == ended(self@, said@, code),
    {
        let r = Step { job: Job { phase: Phase::Done, ..self }, text: said, action: Action::Exit(code) };
        assert(r@ =~= ended(self@, said@, code));
        r
    }

    /// The end of the work once the processes were waited for.
    fn finish(self) -> (r: Step)
        ensures
            r@ == finished(self@),
    {
        let said = result_lines_of(self.st, self.signal, &self.targets, &self.alive);
        let code: u8 = if self.alive.len() == 0 {
            0
        } else {
            1
        };
        self.end(said, code)
    }

    /// A look at the targets from the first one on.
    fn look(self, said: String) -> (r: Step)
        requires
            self@.targets.len() > 0,
        ensures
            r@ == looking(self@, said@),
    {
        let pid: i32 = self.targets[0].pid;
        let r = Step {
            job: Job { phase: Phase::Probing(0), alive: Vec::new(), ..self },
            text: said,
            action: Action::Probe(pid),
        };
        assert(r@ =~= looking(self@, said@));
        r
    }

    /// The signal to the target of index `i`, or what follows the last one.
    fn send(self, i: usize, said: String) -> (r: Step)
        requires
            i <= self@.targets.len(),
            self@.failed <= self@.targets.len(),
        ensures
            r@ == sending(self@, i as nat, said@),
    {
        if i < self.targets.len() {
            let pid: i32 = self.targets[i].pid;
            let signal = self.signal;
            let r = Step {
                job: Job { phase: Phase::Sending(i), ..self },
                text: said,
                action: Action::Send(pid, signal),
            };
            assert(r@ =~= sending(self@, i as nat, said@));
            r
        } else if self.failed == self.targets.len() {
            self.end(said, 2)
        } else {
            self.look(said)
        }
    }

    /// What follows a look at the target of index `i`.
    fn after_look(self, i: usize, there: bool) -> (r: Step)
        requires
            i < self@.targets.len(),
        ensures
            r@ == looked(self@, i as nat, there),
    {
        let ghost j = self@;
        let mut job = self;
        if there {
            job.alive.push(job.targets[i].pid);
        }
        let ghost k = job@;
        assert(k.alive =~= (if there {
            j.alive.push(j.targets[i as int].pid)
        } else {
            j.alive
        }));
        let count: usize = job.targets.len();
        let next: usize = i + 1;
        if next < count {
            let pid: i32 = job.targets[next].pid;
            let r = Step {
                job: Job { phase: Phase::Probing(next), ..job },
                text: String::new(),
                action: Action::Probe(pid),
            };
            assert(r@ =~= looked(j, i as nat, there));
            r
        } else if job.alive.len() == 0 {
            job.finish()
        } else if job.waited >= TIMEOUT_MS {
            let r = Step {
                job: Job { phase: Phase::Rescanning, ..job },
                text: String::new(),
                action: Action::Rescan,
            };
            assert(r@ =~= looked(j, i as nat, there));
            r
        } else {
            let r = Step {
                job: Job { phase: Phase::Sleeping, ..job },
                text: String::new(),
                action: Action::Sleep(STEP_MS),
            };
            assert(r@ =~= looked(j, i as nat, there));
            r
        }
    }
}

/// The first step of killing the processes of the rows.
pub fn start(args: &Args, entries: &[Entry], st: Style) -> (r: Step)
    ensures
        r@ == first(args@, model::entry_views(entries@), st.colored()),
        sound(r@.job),
{
    let count: usize = entries.len();
    proof {
        assert(model::entry_views(entries@).len() == count);
        lemma_first_sound(args@, model::entry_views(entries@), st.colored());
    }
    let targets = kill_targets(entries);
    let said = notice_of(st, &targets);
    let signal = if args.sigkill {
        Signal::Kill
    } else {
        Signal::Term
    };
    let job = Job {
        targets,
        signal,
        st,
        phase: Phase::Asking,
        failed: 0,
        waited: 0,
        alive: Vec::new(),
    };
    assert(job@.alive =~= Seq::<i32>::empty());
    if args.force {
        job.send(0, said)
    } else {
        Step { job, text: said, action: Action::CheckTerminal }
    }
}

/// The step that follows an event.
pub fn advance(job: Job, event: Event) -> (r: Step)
    requires
        sound(job@),
        fits(job@.phase, event@),
    ensures
        r@ == next(job@, event@),
        sound(r@.job),
{
    let ghost j = job@;
    proof {
        lemma_next_sound(job@, event@);
    }
    match (job.phase, event) {
        (Phase::Asking, Event::Terminal(tty)) => {
            let mut said = question_of(job.signal);
            if tty {
                said.append(" [y/N] ");
                Step { job: Job { phase: Phase::Reading, ..job }, text: said, action: Action::ReadByte }
            } else {
                said.append(" 非交互环境，需要 -f 才会执行\n");
                push_cancelled(&mut said, job.st);
                job.end(said, 0)
            }
        },
        (Phase::Reading, Event::Byte(b)) => {
            let yes = match b {
                Some(c) => c == 0x79 || c == 0x59,
                None => false,
            };
            let mut said = String::new();
            said.append("\n");
            assert(said@ =~= "\n"@);
            if yes {
                job.send(0, said)
            } else {
                push_cancelled(&mut said, job.st);
                job.end(said, 0)
            }
        },
        (Phase::Sending(i), Event::Sent(None)) => job.send(i + 1, String::new()),
        (Phase::Sending(i), Event::Sent(Some(e))) => {
            let said = failed_line_of(job.st, &job.targets[i], e.as_str());
            let mut job = job;
            job.failed = job.failed + 1;
            assert(job@ =~= JobView { failed: j.failed + 1, ..j });
            job.send(i + 1, said)
        },
        (Phase::Probing(i), Event::Probed(there)) => job.after_look(i, there),
        (Phase::Sleeping, Event::Slept) => {
            let mut job = job;
            job.waited = job.waited + STEP_MS;
            assert(job@ =~= JobView { waited: j.waited + STEP_MS as nat, ..j });
            job.look(String::new())
        },
        (Phase::Rescanning, Event::Scanned(scan)) => {
            let mut job = job;
            job.alive = still_holding(&job.alive, &job.targets, &scan);
            job.finish()
        },
        _ => job.end(String::new(), 2),
    }
}

} // verus!
