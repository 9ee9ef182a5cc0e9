use ports::cli::Args;
use ports::fmt::Style;
use ports::kill::{advance, kill_targets, start, still_holding, Action, Event, Signal, Step};
use ports::model::{Entry, Proto, TcpState};

fn entry(pid: i32, port: u16, name: &str) -> Entry {
    Entry {
        proto: Proto::Tcp,
        state: Some(TcpState::Listen),
        local_addr: "*".to_string(),
        local_port: port,
        remote_addr: None,
        remote_port: 0,
        pid,
        proc_name: name.to_string(),
        exe: None,
        cmdline: Some("run\nme".into()),
        user: "kirk".into(),
        uid: 501,
        ppid: 1,
        start_time: 0,
    }
}

fn args(force: bool, sigkill: bool) -> Args {
    Args {
        ports: vec![80],
        all: false,
        kill: true,
        sigkill,
        force,
        json: false,
        no_color: false,
    }
}

fn next(s: Step, e: Event) -> Step {
    advance(s.job, e)
}

const NOTICE: &str = "即将终止:\n  7 a b  :80  run me\n  8 c  :81  run me\n";

fn rows() -> Vec<Entry> {
    vec![entry(7, 80, "a\tb"), entry(8, 81, "c"), entry(7, 82, "a\tb")]
}

#[test]
fn a_process_is_a_target_once() {
    let t = kill_targets(&rows());
    let seen: Vec<(i32, u16)> = t.iter().map(|e| (e.pid, e.local_port)).collect();
    assert_eq!(seen, vec![(7, 80), (8, 81)]);
}

#[test]
fn without_a_terminal_nothing_is_killed() {
    let s = start(&args(false, false), &rows(), Style::plain());
    assert_eq!((s.text.as_str(), s.action), (NOTICE, Action::CheckTerminal));
    let s = next(s, Event::Terminal(false));
    assert_eq!(s.text, "发送 SIGTERM? 非交互环境，需要 -f 才会执行\n已取消\n");
    assert_eq!(s.action, Action::Exit(0));
}

#[test]
fn only_a_yes_kills() {
    for answer in [None, Some(b'n'), Some(b'\n'), Some(b'1')] {
        let s = start(&args(false, true), &rows(), Style::plain());
        let s = next(s, Event::Terminal(true));
        assert_eq!((s.text.as_str(), s.action), ("发送 SIGKILL? [y/N] ", Action::ReadByte));
        let s = next(s, Event::Byte(answer));
        assert_eq!((s.text.as_str(), s.action), ("\n已取消\n", Action::Exit(0)));
    }
    for answer in [b'y', b'Y'] {
        let s = start(&args(false, true), &rows(), Style::plain());
        let s = next(s, Event::Terminal(true));
        let s = next(s, Event::Byte(Some(answer)));
        assert_eq!((s.text.as_str(), s.action), ("\n", Action::Send(7, Signal::Kill)));
    }
}

#[test]
fn processes_that_go_are_reported() {
    let s = start(&args(true, false), &rows(), Style::plain());
    assert_eq!((s.text.as_str(), s.action), (NOTICE, Action::Send(7, Signal::Term)));
    let s = next(s, Event::Sent(None));
    assert_eq!(s.action, Action::Send(8, Signal::Term));
    let s = next(s, Event::Sent(Some("no such process".into())));
    assert_eq!(s.text, "失败 8 (c): no such process\n");
    assert_eq!(s.action, Action::Probe(7));
    let s = next(s, Event::Probed(true));
    assert_eq!(s.action, Action::Probe(8));
    let s = next(s, Event::Probed(false));
    assert_eq!(s.action, Action::Sleep(50));
    let s = next(s, Event::Slept);
    assert_eq!(s.action, Action::Probe(7));
    let s = next(s, Event::Probed(false));
    let s = next(s, Event::Probed(false));
    assert_eq!(s.text, "已终止 7 (a b)\n已终止 8 (c)\n");
    assert_eq!(s.action, Action::Exit(0));
}

#[test]
fn where_no_signal_can_be_sent_the_code_is_two() {
    let s = start(&args(true, false), &rows(), Style::plain());
    let s = next(s, Event::Sent(Some("x".into())));
    assert_eq!(s.text, "失败 7 (a b): x\n");
    let s = next(s, Event::Sent(Some("y".into())));
    assert_eq!((s.text.as_str(), s.action), ("失败 8 (c): y\n", Action::Exit(2)));
    let s = start(&args(true, false), &[], Style::plain());
    assert_eq!((s.text.as_str(), s.action), ("即将终止:\n", Action::Exit(2)));
}

#[test]
fn where_one_signal_gets_through_the_code_tells_who_is_left() {
    let mut s = start(&args(true, false), &rows(), Style::plain());
    while s.action != Action::Rescan {
        s = match s.action {
            Action::Send(pid, _) if pid == 7 => next(s, Event::Sent(Some("x".into()))),
            Action::Send(..) => next(s, Event::Sent(None)),
            Action::Probe(pid) => next(s, Event::Probed(pid == 7)),
            Action::Sleep(_) => next(s, Event::Slept),
            _ => panic!("{:?}", s.action),
        };
    }
    let s = next(s, Event::Scanned(Some(vec![entry(7, 80, "a")])));
    assert_eq!(s.action, Action::Exit(1));
}

fn wait_out(sigkill: bool) -> Step {
    let mut s = start(&args(true, sigkill), &rows(), Style::plain());
    let mut waited = 0;
    loop {
        s = match s.action {
            Action::Send(..) => next(s, Event::Sent(None)),
            Action::Probe(pid) => next(s, Event::Probed(pid == 7)),
            Action::Sleep(ms) => {
                waited += ms;
                next(s, Event::Slept)
            }
            _ => break,
        };
    }
    assert_eq!(waited, 2000);
    s
}

#[test]
fn after_two_seconds_a_scan_decides_who_is_left() {
    let s = wait_out(false);
    assert_eq!(s.action, Action::Rescan);
    let s = next(s, Event::Scanned(Some(vec![entry(7, 80, "a")])));
    assert_eq!(
        s.text,
        "! 7 (a b) 收到 SIGTERM 后仍在运行，可以试试 -9\n已终止 8 (c)\n"
    );
    assert_eq!(s.action, Action::Exit(1));

    let s = next(wait_out(true), Event::Scanned(None));
    assert_eq!(s.text, "! 7 (a b) 收到 SIGKILL 后仍在运行\n已终止 8 (c)\n");
    assert_eq!(s.action, Action::Exit(1));

    let other = vec![entry(7, 82, "a"), entry(9, 80, "b")];
    let s = next(wait_out(false), Event::Scanned(Some(other)));
    assert_eq!(s.text, "已终止 7 (a b)\n已终止 8 (c)\n");
    assert_eq!(s.action, Action::Exit(0));
}

#[test]
fn holding_on_takes_the_same_process_and_port() {
    let targets = kill_targets(&rows());
    let scan = Some(vec![entry(8, 81, "c"), entry(7, 81, "a")]);
    assert_eq!(still_holding(&vec![7, 8], &targets, &scan), vec![8]);
    assert_eq!(still_holding(&vec![7, 8], &targets, &None), vec![7, 8]);
    assert_eq!(still_holding(&vec![], &targets, &scan), Vec::<i32>::new());
}
