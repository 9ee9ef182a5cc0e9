use ports::model::{Entry, Proto, TcpState};
use ports::num::{push_digits, push_zero_padded, read_signed, read_unsigned, to_dec, to_signed};
use ports::text::{chars_of, lines_of, precedes, split_chars, string_of, trim_chars, words_of, Sep};

fn strings(v: Vec<Vec<char>>) -> Vec<String> {
    v.iter().map(|c| string_of(c)).collect()
}

#[test]
fn lines_end_as_in_files() {
    let lines = |s: &str| strings(lines_of(&chars_of(s)));
    assert_eq!(lines("a\r\nb\n\nc"), vec!["a", "b", "", "c"]);
    assert_eq!(lines("a\n"), vec!["a"]);
    assert_eq!(lines(""), Vec::<String>::new());
    assert_eq!(lines("\r"), vec!["\r"]);
    assert_eq!(lines("a\r\r\n"), vec!["a\r"]);
    for s in ["a\r\nb\n\nc", "x", "\n", "\r\n\r", "中\n文\r\n"] {
        assert_eq!(lines(s), s.lines().collect::<Vec<_>>());
    }
}

#[test]
fn white_space_is_that_of_unicode() {
    let all: String = (0..0x1_1000).filter_map(char::from_u32).collect();
    let words = strings(words_of(&chars_of(&all), Sep::White));
    assert_eq!(words, all.split_whitespace().collect::<Vec<_>>());
    assert_eq!(string_of(&trim_chars(&chars_of("\u{3000} a b\u{a0}\n"))), "a b");
    assert_eq!(string_of(&trim_chars(&chars_of(" \t"))), "");
}

#[test]
fn pieces_join_to_the_text_again() {
    for s in ["", ",", "a,,b", ",a,", "中,文"] {
        let pieces = strings(split_chars(&chars_of(s), Sep::Char(',')));
        assert_eq!(pieces, s.split(',').collect::<Vec<_>>());
        assert_eq!(pieces.join(","), s);
    }
}

#[test]
fn order_is_that_of_strings() {
    let all = ["", "*", "0", "10", "1a", "a", "a,b", "ab", "中", "文"];
    for a in all {
        for b in all {
            assert_eq!(precedes(&chars_of(a), &chars_of(b)), a < b, "{a} {b}");
        }
    }
}

#[test]
fn numbers_are_read_as_they_are_written() {
    for n in [0u64, 9, 10, 99, 100, 65535, u64::MAX] {
        assert_eq!(to_dec(n), n.to_string());
        assert_eq!(read_unsigned(&chars_of(&to_dec(n)), 10, u64::MAX), Some(n));
        let mut hex = String::new();
        push_digits(&mut hex, n, 16);
        assert_eq!(hex, format!("{n:x}"));
        assert_eq!(read_unsigned(&chars_of(&hex), 16, u64::MAX), Some(n));
    }
    for n in [0i32, -1, 1, i32::MIN, i32::MAX] {
        assert_eq!(to_signed(n), n.to_string());
        assert_eq!(read_signed(&chars_of(&to_signed(n))), Some(n));
    }
}

#[test]
fn what_is_no_number_is_refused() {
    for s in ["", "+", "-", "+-1", "-+1", "--1", "1 ", " 1", "1_0", "２", "0x1", "a", "1.0"] {
        assert_eq!(read_unsigned(&chars_of(s), 10, u64::MAX), s.parse::<u64>().ok(), "{s}");
        assert_eq!(read_signed(&chars_of(s)), s.parse::<i32>().ok(), "{s}");
    }
    for s in ["+7", "-0", "007", "2147483648", "-2147483649", "99999999999999999999"] {
        assert_eq!(read_unsigned(&chars_of(s), 10, u64::MAX), s.parse::<u64>().ok(), "{s}");
        assert_eq!(read_signed(&chars_of(s)), s.parse::<i32>().ok(), "{s}");
    }
    assert_eq!(read_unsigned(&chars_of("65536"), 10, 65535), None);
    assert_eq!(read_unsigned(&chars_of("fF"), 16, 255), Some(255));
}

#[test]
fn zeros_stand_behind_the_sign() {
    for (n, w) in [(5, 2), (-5, 4), (12345, 4), (-12345, 4), (0, 0), (i32::MIN, 20)] {
        let mut s = String::new();
        push_zero_padded(&mut s, n, w);
        assert_eq!(s, format!("{n:0w$}"));
    }
}

#[test]
fn names_of_protocols_and_states() {
    assert_eq!(Proto::Tcp.as_str(), "tcp");
    assert_eq!(Proto::Udp.as_str(), "udp");
    assert_eq!(TcpState::Listen.as_str(), "LISTEN");
    assert_eq!(TcpState::FinWait1.as_str(), "FIN_WAIT_1");
    assert_eq!(TcpState::Unknown.as_str(), "UNKNOWN");
}

#[test]
fn a_process_is_shown_by_what_is_known_of_it() {
    let mut e = Entry {
        proto: Proto::Tcp,
        state: Some(TcpState::Established),
        local_addr: "*".into(),
        local_port: 1,
        remote_addr: None,
        remote_port: 0,
        pid: 1,
        proc_name: "name".into(),
        exe: Some("exe".into()),
        cmdline: Some("cmd".into()),
        user: "u".into(),
        uid: 0,
        ppid: 0,
        start_time: 0,
    };
    assert_eq!(e.display_command(), "cmd");
    e.cmdline = None;
    assert_eq!(e.display_command(), "exe");
    e.exe = None;
    assert_eq!(e.display_command(), "name");
    assert!(!e.is_listening());
    e.state = None;
    assert!(!e.is_listening());
    e.state = Some(TcpState::Listen);
    assert!(e.is_listening());
    e.proto = Proto::Udp;
    e.state = None;
    assert!(e.is_listening());
}
