use ports::cli::Args;
use ports::fmt::Style;
use ports::model::{Entry, Proto, TcpState};
use ports::run::{
    empty_message, in_detail, respond, respond_at, select, style, warn_if_partial, Reply,
};

fn entry(pid: i32, port: u16, state: Option<TcpState>) -> Entry {
    Entry {
        proto: if state.is_some() { Proto::Tcp } else { Proto::Udp },
        state,
        local_addr: "*".to_string(),
        local_port: port,
        remote_addr: None,
        remote_port: 0,
        pid,
        proc_name: "node".into(),
        exe: None,
        cmdline: None,
        user: "kirk".into(),
        uid: 501,
        ppid: 1,
        start_time: 0,
    }
}

fn args(ports: &[u16]) -> Args {
    Args {
        ports: ports.to_vec(),
        all: false,
        kill: false,
        sigkill: false,
        force: false,
        json: false,
        no_color: false,
    }
}

fn found() -> Vec<Entry> {
    vec![
        entry(1, 80, Some(TcpState::Listen)),
        entry(2, 80, Some(TcpState::Established)),
        entry(3, 53, None),
        entry(4, 443, Some(TcpState::Listen)),
    ]
}

fn pids(rows: &[Entry]) -> Vec<i32> {
    rows.iter().map(|e| e.pid).collect()
}

#[test]
fn only_what_is_asked_for_is_selected() {
    assert_eq!(pids(&select(&args(&[]), found())), vec![3, 1, 4]);
    assert_eq!(pids(&select(&args(&[80]), found())), vec![1]);
    assert_eq!(pids(&select(&args(&[53, 443]), found())), vec![3, 4]);
    let mut all = args(&[80]);
    all.all = true;
    assert_eq!(pids(&select(&all, found())), vec![1, 2]);
    assert!(select(&args(&[81]), found()).is_empty());
}

#[test]
fn nothing_found_is_said_and_exits_one() {
    let plain = Style::plain();
    assert_eq!(empty_message(&args(&[]), plain), "没有监听中的端口\n");
    assert_eq!(empty_message(&args(&[3000]), plain), "端口 3000 没有进程占用\n");
    assert_eq!(empty_message(&args(&[1, 2]), plain), "指定的端口都没有进程占用\n");
    let mut json = args(&[3000]);
    json.json = true;
    assert_eq!(empty_message(&json, plain), "[]\n");
    json.kill = true;
    match respond(&json, &[], &[], plain, 80) {
        Reply::Show(a) => assert_eq!((a.out.as_str(), a.note, a.code), ("[]\n", true, 1)),
        Reply::Kill => panic!("nothing to kill"),
    }
}

fn shown(a: &Args, rows: &[Entry]) -> (String, bool, u8) {
    let starts = vec![None; rows.len()];
    match respond_at(a, rows, &starts, Style::plain(), 80, 60) {
        Reply::Show(s) => (s.out, s.note, s.code),
        Reply::Kill => panic!("kills"),
    }
}

#[test]
fn one_port_with_few_rows_is_shown_in_detail() {
    let row = || entry(1, 80, Some(TcpState::Listen));
    let four: Vec<Entry> = (0..4).map(|_| row()).collect();
    let five: Vec<Entry> = (0..5).map(|_| row()).collect();
    let (out, note, code) = shown(&args(&[80]), &four);
    assert!(out.starts_with("80 tcp LISTEN\n"));
    assert_eq!((note, code), (false, 0));
    assert!(shown(&args(&[80]), &five).0.starts_with("PORT  PROTO  PID"));
    assert!(shown(&args(&[80, 81]), &four).0.starts_with("PORT  PROTO  PID"));
    let (out, note, code) = shown(&args(&[]), &four);
    assert!(out.starts_with("PORT  PROTO  PID"));
    assert_eq!((note, code), (true, 0));
    let mut all = args(&[]);
    all.all = true;
    assert!(shown(&all, &four).0.starts_with("PORT  PROTO  STATE"));
    all.json = true;
    assert!(shown(&all, &four).0.starts_with("[\n  {\"port\":80,"));
}

#[test]
fn only_details_take_the_start_of_processes() {
    let rows = [entry(1, 80, Some(TcpState::Listen))];
    let one = args(&[80]);
    assert!(in_detail(&one, &rows));
    assert!(!in_detail(&one, &[]));
    let five: Vec<Entry> = (0..5).map(|pid| entry(pid, 80, None)).collect();
    assert!(in_detail(&one, &five[..4]));
    assert!(!in_detail(&one, &five));
    let mut json = args(&[80]);
    json.json = true;
    let mut kill = args(&[80]);
    kill.kill = true;
    assert!(!in_detail(&kill, &rows));
    assert!(matches!(respond_at(&kill, &rows, &[], Style::plain(), 80, 60), Reply::Kill));
    for (a, head) in [(args(&[]), "PORT  PROTO"), (args(&[80, 81]), "PORT  PROTO"), (json, "[\n")] {
        assert!(!in_detail(&a, &rows));
        match respond_at(&a, &rows, &[], Style::plain(), 80, 60) {
            Reply::Show(s) => assert!(s.out.starts_with(head), "{}", s.out),
            Reply::Kill => panic!("kills"),
        }
    }
}

#[test]
fn killing_goes_before_showing() {
    let mut a = args(&[80]);
    a.kill = true;
    a.json = true;
    let rows = [entry(1, 80, None)];
    assert!(matches!(respond(&a, &rows, &[None], Style::plain(), 80), Reply::Kill));
}

#[test]
fn the_note_is_for_users_who_see_less_than_all() {
    let plain = Style::plain();
    assert_eq!(warn_if_partial(0, 501, plain), None);
    assert_eq!(warn_if_partial(3, 0, plain), None);
    assert_eq!(
        warn_if_partial(3, 501, plain).unwrap(),
        "note: 3 个进程无权查看（多为其他用户/系统进程），需要完整结果请用 sudo ports\n"
    );
}

#[test]
fn colours_are_off_for_json_and_on_request() {
    let mut a = args(&[]);
    assert_eq!(style(&a, false, true).red("x"), "\x1b[31mx\x1b[0m");
    assert_eq!(style(&a, true, true).red("x"), "x");
    assert_eq!(style(&a, false, false).red("x"), "x");
    a.json = true;
    assert_eq!(style(&a, false, true).red("x"), "x");
    a.json = false;
    a.no_color = true;
    assert_eq!(style(&a, false, true).red("x"), "x");
}
