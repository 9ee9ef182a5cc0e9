use ports::fmt::{width, CalendarTime, Style};
use ports::model::{Entry, Proto, TcpState};
use ports::render::detail::detail_at;
use ports::render::json::{json_at, jstr};
use ports::render::table::table_at;
use ports::render::{addr_port, collapse, detail, json, table};

fn entry(pid: i32, port: u16, addr: &str) -> Entry {
    Entry {
        proto: Proto::Tcp,
        state: Some(TcpState::Listen),
        local_addr: addr.to_string(),
        local_port: port,
        remote_addr: None,
        remote_port: 0,
        pid,
        proc_name: "node".into(),
        exe: Some("/usr/bin/node".into()),
        cmdline: Some("node server.js".into()),
        user: "kirk".into(),
        uid: 501,
        ppid: 1,
        start_time: 1_700_000_000,
    }
}

#[test]
fn collapse_merges_v4_and_v6_rows_of_same_process() {
    let v = collapse(vec![entry(10, 3000, "127.0.0.1"), entry(10, 3000, "::1")]);
    assert_eq!(v.len(), 1);
    assert_eq!(v[0].local_addr, "127.0.0.1,::1");
}

#[test]
fn collapse_prefers_wildcard_over_listing_addresses() {
    let v = collapse(vec![entry(10, 3000, "*"), entry(10, 3000, "127.0.0.1")]);
    assert_eq!(v.len(), 1);
    assert_eq!(v[0].local_addr, "*");
}

#[test]
fn collapse_merges_across_an_interleaving_established_row() {
    let mut est = entry(10, 3000, "127.0.0.1");
    est.state = Some(TcpState::Established);
    est.remote_addr = Some("127.0.0.1".into());
    est.remote_port = 55000;

    let v = collapse(vec![
        entry(10, 3000, "127.0.0.1"),
        est,
        entry(10, 3000, "::1"),
    ]);
    assert_eq!(v.len(), 2, "两条 LISTEN 应合并为一条，另加那条 ESTABLISHED: {v:?}");
    let listen = v.iter().find(|e| e.state == Some(TcpState::Listen)).unwrap();
    assert_eq!(listen.local_addr, "127.0.0.1,::1");
}

#[test]
fn collapse_dedups_identical_rows_separated_by_another() {
    let mut est = entry(10, 3000, "127.0.0.1");
    est.state = Some(TcpState::Established);
    est.remote_addr = Some("10.0.0.1".into());

    let v = collapse(vec![
        entry(10, 3000, "*"),
        est,
        entry(10, 3000, "*"),
    ]);
    assert_eq!(v.len(), 2, "两条完全相同的 LISTEN 应去重: {v:?}");
}

#[test]
fn ipv6_gets_brackets_before_the_port() {
    assert_eq!(addr_port("::1", 8080), "[::1]:8080");
    assert_eq!(addr_port("127.0.0.1", 8080), "127.0.0.1:8080");
    assert_eq!(addr_port("*", 80), "*:80");
    assert_eq!(addr_port("127.0.0.1,::1", 80), "[127.0.0.1,::1]:80");
}

#[test]
fn detail_brackets_ipv6_address() {
    let mut e = entry(1, 8080, "::1");
    e.remote_addr = Some("::2".into());
    e.remote_port = 999;
    let out = detail(8080, &[e], &[None], Style::plain(), 120);
    assert!(out.contains("[::1]:8080"), "{out}");
    assert!(out.contains("[::2]:999"), "{out}");
}

#[test]
fn collapse_keeps_distinct_processes_apart() {
    let v = collapse(vec![entry(10, 3000, "*"), entry(11, 3000, "*")]);
    assert_eq!(v.len(), 2);
}

#[test]
fn collapse_sorts_by_port() {
    let v = collapse(vec![entry(1, 8080, "*"), entry(2, 80, "*")]);
    assert_eq!(v[0].local_port, 80);
    assert_eq!(v[1].local_port, 8080);
}

#[test]
fn json_escapes_quotes_and_control_chars() {
    let mut e = entry(1, 80, "*");
    e.cmdline = Some("say \"hi\"\n\tbye".into());
    let j = json(&[e]);
    assert!(j.contains(r#""command":"say \"hi\"\n\tbye""#), "{j}");
}

#[test]
fn json_emits_null_not_empty_string_for_missing_fields() {
    let mut e = entry(1, 80, "*");
    e.exe = None;
    e.cmdline = None;
    let j = json(&[e]);
    assert!(j.contains(r#""exe":null"#));
    assert!(j.contains(r#""command":null"#));
}

#[test]
fn collapse_orders_by_protocol_process_state_and_peer() {
    let mut udp = entry(1, 53, "*");
    udp.proto = Proto::Udp;
    udp.state = None;
    let mut est = entry(2, 53, "a");
    est.state = Some(TcpState::Established);
    est.remote_addr = Some("b".into());
    let mut open = entry(2, 53, "z");
    open.state = Some(TcpState::Established);
    let v = collapse(vec![udp, entry(3, 53, "*"), est, entry(2, 53, "*"), open]);
    let seen: Vec<(Proto, i32, &str)> =
        v.iter().map(|e| (e.proto, e.pid, e.local_addr.as_str())).collect();
    assert_eq!(
        seen,
        vec![
            (Proto::Tcp, 2, "z"),
            (Proto::Tcp, 2, "a"),
            (Proto::Tcp, 2, "*"),
            (Proto::Tcp, 3, "*"),
            (Proto::Udp, 1, "*"),
        ]
    );
}

#[test]
fn collapse_orders_rows_with_peers_by_their_address() {
    let peer = |addr: &str| {
        let mut e = entry(1, 80, addr);
        e.remote_addr = Some("p".into());
        e
    };
    let v = collapse(vec![peer("c"), peer("a"), entry(1, 80, "z"), peer("b")]);
    let seen: Vec<&str> = v.iter().map(|e| e.local_addr.as_str()).collect();
    assert_eq!(seen, vec!["z", "a", "b", "c"]);
}

#[test]
fn collapse_keeps_rows_with_peers_in_their_order() {
    let mut first = entry(1, 80, "x");
    first.remote_addr = Some("p".into());
    first.remote_port = 2;
    let mut second = entry(1, 80, "x");
    second.remote_addr = Some("p".into());
    second.remote_port = 1;
    let v = collapse(vec![first, second]);
    assert_eq!(v.len(), 2);
    assert_eq!((v[0].remote_port, v[1].remote_port), (2, 1));
}

#[test]
fn collapse_twice_is_collapse_once() {
    let rows = vec![
        entry(2, 80, "b"),
        entry(1, 80, "c"),
        entry(2, 80, "a"),
        entry(2, 80, "b"),
        entry(1, 79, "*"),
    ];
    let once = collapse(rows);
    let before = format!("{once:?}");
    let twice = collapse(once);
    assert_eq!(format!("{twice:?}"), before);
    assert_eq!(twice.len(), 3);
    assert_eq!(twice[2].local_addr, "a,b");
}

#[test]
fn collapse_lists_each_address_once() {
    let v = collapse(vec![
        entry(10, 3000, "127.0.0.1"),
        entry(10, 3000, "::1"),
        entry(10, 3000, "::1"),
    ]);
    assert_eq!(v.len(), 1);
    assert_eq!(v[0].local_addr, "127.0.0.1,::1");
    let v = collapse(vec![
        entry(10, 3000, "::1"),
        entry(10, 3000, "10.0.0.1"),
        entry(10, 3000, "10.0.0.10"),
        entry(10, 3000, "10.0.0.1"),
        entry(10, 3000, "::1"),
    ]);
    assert_eq!(v.len(), 1);
    let mut addrs: Vec<&str> = v[0].local_addr.split(',').collect();
    addrs.sort();
    assert_eq!(addrs, vec!["10.0.0.1", "10.0.0.10", "::1"]);
}

/// `s` with every escape sequence that sets a colour taken out.
fn without_colours(s: &str) -> String {
    let mut out = String::new();
    let mut rest = s;
    while let Some(at) = rest.find("\u{1b}[") {
        out.push_str(&rest[..at]);
        let code = &rest[at + 2..];
        let end = code.find('m').unwrap();
        assert!(end > 0 && code[..end].chars().all(|c| c.is_ascii_digit()), "{code:?}");
        rest = &code[end + 1..];
    }
    out.push_str(rest);
    out
}

#[test]
fn colours_change_nothing_but_escape_sequences() {
    let mut other = entry(43421, 8080, "::1");
    other.state = Some(TcpState::Established);
    other.remote_addr = Some("::1".into());
    other.remote_port = 55000;
    other.proc_name = "\u{1b}[31mred\u{1b}[0m".into();
    other.cmdline = Some("中文 ".repeat(60));
    let rows = vec![entry(10, 3000, "127.0.0.1"), other];
    let on = Style::detect(false, true);
    let off = Style::plain();
    let now = 1_700_000_100;
    for show_state in [false, true] {
        let coloured = table_at(&rows, show_state, on, 100, now);
        let plain = table_at(&rows, show_state, off, 100, now);
        assert!(coloured.contains('\u{1b}'));
        assert!(!plain.contains('\u{1b}'));
        assert_eq!(without_colours(&coloured), plain);
    }
    let starts = vec![None, None];
    let coloured = detail_at(3000, &rows, &starts, on, 80, now);
    let plain = detail_at(3000, &rows, &starts, off, 80, now);
    assert!(coloured.contains('\u{1b}'));
    assert!(!plain.contains('\u{1b}'));
    assert_eq!(without_colours(&coloured), plain);
}

#[test]
fn table_aligns_its_columns() {
    let mut other = entry(43421, 3000, "127.0.0.1");
    other.user = "云云".into();
    other.proc_name = "a process with a very long name".into();
    let rows = [entry(7, 80, "*"), other];
    let out = table_at(&rows, false, Style::plain(), 80, 1_700_000_100);
    let want = "\
PORT  PROTO  PID    PROCESS                 USER  UPTIME  ADDRESS    COMMAND
80    tcp    7      node                    kirk  1m 40s  *          node server…
3000  tcp    43421  a process with a very…  云云  1m 40s  127.0.0.1  node server…
";
    assert_eq!(out, want);
    for l in out.lines() {
        assert_eq!(width(&l[..l.find("node s").unwrap_or(l.find("COMMAND").unwrap_or(0))]), 69);
    }
}

#[test]
fn table_lines_fit_the_terminal() {
    let mut e = entry(7, 80, "fe80::1234:5678:9abc:def0,10.0.0.1");
    e.cmdline = Some("x".repeat(300));
    for term in [70, 85, 200] {
        let out = table_at(&[e.clone()], true, Style::plain(), term, 1_700_000_000);
        let widths: Vec<usize> = out.lines().map(width).collect();
        if term == 70 {
            assert_eq!(widths[1], 72 + 12, "{out}");
        } else {
            assert_eq!(widths[1], term, "{out}");
            assert!(widths[0] <= term);
        }
    }
}

#[test]
fn table_shows_states_where_asked_for() {
    let mut udp = entry(9, 53, "*");
    udp.proto = Proto::Udp;
    udp.state = None;
    let mut est = entry(8, 80, "*");
    est.state = Some(TcpState::Established);
    let rows = [entry(7, 80, "*"), est, udp];
    let out = table_at(&rows, true, Style::plain(), 100, 1_700_000_000);
    let want = "\
PORT  PROTO  STATE        PID  PROCESS  USER  UPTIME  ADDRESS  COMMAND
80    tcp    LISTEN       7    node     kirk  0s      *        node server.js
80    tcp    ESTABLISHED  8    node     kirk  0s      *        node server.js
53    udp    -            9    node     kirk  0s      *        node server.js
";
    assert_eq!(out, want);
}

#[test]
fn table_colours_do_not_take_room() {
    let rows = [entry(7, 80, "*")];
    let out = table_at(&rows, true, Style::detect(false, true), 100, 1_700_000_000);
    let want = "\x1b[2mPORT  PROTO  STATE   PID  PROCESS  USER  UPTIME  ADDRESS  COMMAND\x1b[0m
\x1b[1m\x1b[36m80\x1b[0m\x1b[0m    tcp    \x1b[32mLISTEN\x1b[0m  \x1b[33m7\x1b[0m    node     kirk  0s      *        \x1b[2mnode server.js\x1b[0m
";
    assert_eq!(out, want);
}

#[test]
fn table_keeps_nasty_names_on_their_line() {
    let mut e = entry(7, 80, "*");
    e.cmdline = Some("sh -c \x1b[31mEVIL\x1b[0m\nsecond line".into());
    e.proc_name = "a\rb".into();
    e.user = "\u{9b}x".into();
    let out = table(&[e.clone(), e], false, Style::plain(), 200);
    assert_eq!(out.lines().count(), 3);
    assert!(out.chars().all(|c| c == '\n' || !c.is_control()));
    assert!(out.contains("sh -c [31mEVIL [0m second line"), "{out}");
}

#[test]
fn a_narrow_terminal_leaves_the_command_twelve_columns() {
    let mut e = entry(7, 80, "*");
    e.cmdline = Some("abcdefghijklmnopqrstuvwxyz".into());
    let out = table_at(&[e], false, Style::plain(), 10, 1_700_000_000);
    assert!(out.ends_with("abcdefghijk…\n"), "{out}");
}

#[test]
fn detail_is_laid_out_line_by_line() {
    let mut e = entry(43421, 3000, "*");
    e.ppid = 43415;
    let t = CalendarTime { year: 123, mon: 10, mday: 14, hour: 22, min: 13, sec: 20 };
    let out = detail_at(3000, &[e], &[Some(t)], Style::plain(), 100, 1_700_000_060);
    let want = "\
3000 tcp LISTEN

  PID        43421
  Process    node
  User       kirk (501)
  Started    2023-11-14 22:13:20  (1m ago)
  Address    *:3000
  Binary     /usr/bin/node
  Command    node server.js
  Parent     43415

  kill it:  ports 3000 -k
";
    assert_eq!(out, want);
}

#[test]
fn detail_divides_several_sockets_and_gives_no_hint() {
    let mut udp = entry(2, 53, "*");
    udp.proto = Proto::Udp;
    udp.state = None;
    udp.exe = None;
    udp.cmdline = None;
    let mut est = entry(1, 53, "*");
    est.state = Some(TcpState::TimeWait);
    let out = detail_at(53, &[est, udp], &[None, None], Style::plain(), 100, 0);
    assert!(out.starts_with("53 tcp TIME_WAIT\n\n"), "{out}");
    assert!(out.contains("  Parent     1\n  ───\n\n53 udp\n\n"), "{out}");
    assert!(out.contains("  Started    1700000000  (0s ago)\n"), "{out}");
    assert!(!out.contains("kill it:"));
    assert_eq!(out.matches("Binary").count(), 1);
}

#[test]
fn detail_keeps_nasty_names_from_the_terminal() {
    let mut e = entry(7, 80, "*");
    e.cmdline = Some("sh -c \x1b[31mEVIL\x1b[0m\nsecond line".into());
    e.exe = Some("/bin/\u{9b}sh".into());
    e.proc_name = "a\rb".into();
    e.user = "\x07x".into();
    let out = detail(80, &[e], &[None], Style::plain(), 200);
    assert!(out.chars().all(|c| c == '\n' || !c.is_control()), "{out:?}");
    assert!(out.contains("  Command    sh -c [31mEVIL [0m second line\n"), "{out}");
    assert!(out.contains("  User       x (501)\n"), "{out}");
}

#[test]
fn detail_wraps_long_commands_below_their_value() {
    let mut e = entry(1, 80, "*");
    e.exe = None;
    e.cmdline = Some("aaaaaaaaaa bbbbbbbbbb cccccccccc dddddddddd".into());
    let out = detail_at(80, &[e], &[None], Style::detect(false, true), 0, 0);
    let key = "\x1b[2mCommand  \x1b[0m";
    assert!(
        out.contains(&format!(
            "  {key}  aaaaaaaaaa bbbbbbbbbb\n             \x1b[2mcccccccccc dddddddddd\x1b[0m\n"
        )),
        "{out}"
    );
}

#[test]
fn json_is_one_object_to_a_line() {
    let mut e = entry(7, 80, "a\"b");
    e.remote_addr = Some("c\\d".into());
    e.remote_port = 9;
    e.cmdline = Some("\u{1}\u{1f}\u{7f}中".into());
    e.exe = None;
    e.start_time = 40;
    let mut udp = entry(-1, 53, "*");
    udp.proto = Proto::Udp;
    udp.state = None;
    let out = json_at(&[e, udp], 100);
    let want = [
        "[\n",
        "  {\"port\":80,\"proto\":\"tcp\",\"state\":\"LISTEN\",\"address\":\"a\\\"b\",",
        "\"peer\":\"c\\\\d\",\"peer_port\":9,\"pid\":7,\"process\":\"node\",\"user\":\"kirk\",",
        "\"uid\":501,\"ppid\":1,\"started\":40,\"uptime_secs\":60,\"exe\":null,",
        "\"command\":\"\\u0001\\u001f\u{7f}中\"},\n",
        "  {\"port\":53,\"proto\":\"udp\",\"state\":null,\"address\":\"*\",",
        "\"peer\":null,\"peer_port\":null,\"pid\":-1,\"process\":\"node\",\"user\":\"kirk\",",
        "\"uid\":501,\"ppid\":1,\"started\":1700000000,\"uptime_secs\":0,",
        "\"exe\":\"/usr/bin/node\",\"command\":\"node server.js\"}\n",
        "]\n",
    ]
    .concat();
    assert_eq!(out, want);
    assert_eq!(json_at(&[], 0), "[\n\n]\n");
    assert_eq!(jstr("\r\n\t"), "\"\\r\\n\\t\"");
}
