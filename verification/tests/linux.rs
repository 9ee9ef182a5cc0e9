use ports::model::{Proto, TcpState};
use ports::sys::linux::holders::{link_inode, map_inodes_to_pids, pid_of, ProcDir};
use ports::sys::linux::net::{
    hex_v4, hex_v4_in, hex_v6, hex_v6_in, parse_net, split_addr, tcp_state,
};
use ports::sys::linux::process::{
    boot_time, clock_ticks, name_of, parse_stat, proc_meta, start_fits, ProcFiles,
};
use ports::sys::linux::{holding, scan, scan_in, Context, NetFiles, Process};
use ports::sys::user::{username, User};
use std::collections::HashSet;

#[test]
fn hex_v4_reverses_word_byte_order() {
    assert_eq!(hex_v4("0100007F").unwrap(), "127.0.0.1");
    assert_eq!(hex_v4("00000000").unwrap(), "*");
    assert_eq!(hex_v4("0101A8C0").unwrap(), "192.168.1.1");
    assert!(hex_v4("XY").is_none());
}

#[test]
fn hex_v6_handles_mapped_and_unspecified() {
    assert_eq!(hex_v6(&"0".repeat(32)).unwrap(), "*");
    assert_eq!(
        hex_v6("0000000000000000FFFF00000100007F").unwrap(),
        "127.0.0.1"
    );
    assert_eq!(
        hex_v6("00000000000000000000000001000000").unwrap(),
        "::1"
    );
    assert!(hex_v6("00").is_none());
}

#[test]
fn split_addr_parses_hex_port() {
    let (a, p) = split_addr("0100007F:1F90", false).unwrap();
    assert_eq!((a.as_str(), p), ("127.0.0.1", 8080));
    let (a, p) = split_addr("00000000:0050", false).unwrap();
    assert_eq!((a.as_str(), p), ("*", 80));
}

#[test]
fn parse_net_reads_a_real_proc_line() {
    let text = "\
  sl  local_address rem_address   st tx_queue rx_queue tr tm->when retrnsmt   uid  timeout inode
   0: 0100007F:1F90 00000000:0000 0A 00000000:00000000 00:00000000 00000000  1000        0 54321 1 0000 100 0 0 10 0
   1: 0100007F:C350 0100007F:1F90 01 00000000:00000000 00:00000000 00000000  1000        0 54322 1 0000 100 0 0 10 0
";
    let mut v = Vec::new();
    parse_net(text, Proto::Tcp, false, &mut v);
    assert_eq!(v.len(), 2);

    assert_eq!(v[0].local_port, 8080);
    assert_eq!(v[0].local_addr, "127.0.0.1");
    assert_eq!(v[0].state, Some(TcpState::Listen));
    assert_eq!(v[0].inode, 54321);
    assert!(v[0].remote_addr.is_none(), "LISTEN 不该有对端");

    assert_eq!(v[1].state, Some(TcpState::Established));
    assert_eq!(v[1].remote_port, 8080);
    assert_eq!(v[1].remote_addr.as_deref(), Some("127.0.0.1"));
}

#[test]
fn parse_net_skips_malformed_lines() {
    let text = "header\nbroken line\n   0: zz:zz 00000000:0000 0A x x x x x 1\n";
    let mut v = Vec::new();
    parse_net(text, Proto::Tcp, false, &mut v);
    assert!(v.is_empty());
}

#[test]
fn udp_rows_carry_no_tcp_state() {
    let text = "\
  sl  local_address rem_address   st tx_queue rx_queue tr tm->when retrnsmt   uid  timeout inode
   0: 00000000:14E9 00000000:0000 07 00000000:00000000 00:00000000 00000000  1000        0 99 2 0 0
";
    let mut v = Vec::new();
    parse_net(text, Proto::Udp, false, &mut v);
    assert_eq!(v.len(), 1);
    assert_eq!(v[0].local_port, 5353);
    assert_eq!(v[0].state, None);
}

fn chars(s: &str) -> Vec<char> {
    s.chars().collect()
}

#[test]
fn words_are_read_in_either_order() {
    assert_eq!(hex_v4_in(&chars("7F000001"), true).unwrap(), "127.0.0.1");
    assert_eq!(hex_v4_in(&chars("7F000001"), false).unwrap(), "1.0.0.127");
    assert_eq!(
        hex_v6_in(&chars("00000000000000000000FFFF7F000001"), true).unwrap(),
        "127.0.0.1"
    );
    assert_eq!(
        hex_v6_in(&chars("00000000000000000000FFFF00000000"), true).unwrap(),
        "*"
    );
    assert!(hex_v4_in(&chars("7F00000"), true).is_none());
    assert!(hex_v4_in(&chars("7F00000G"), true).is_none());
    assert!(hex_v6_in(&chars("0000000000000000000000000000000中"), true).is_none());
}

#[test]
fn ipv6_shortens_the_first_longest_run_of_zeros() {
    let show = |s: &str| hex_v6_in(&chars(s), true).unwrap();
    assert_eq!(show("20010DB8000000000000000000000001"), "2001:db8::1");
    assert_eq!(show("20010DB8000000010001000100010001"), "2001:db8:0:1:1:1:1:1");
    assert_eq!(show("20010000000000010000000000000001"), "2001:0:0:1::1");
    assert_eq!(show("20010000000000010001000000000001"), "2001::1:1:0:0:1");
    assert_eq!(show("FE800000000000000000000000000000"), "fe80::");
    assert_eq!(show("0000000000000000000000007F000001"), "::7f00:1");
    assert_eq!(show("ABCDEF01234567890ABCDEF012345678"), "abcd:ef01:2345:6789:abc:def0:1234:5678");
}

#[test]
fn states_have_the_numbers_of_linux() {
    let all: Vec<TcpState> = (0u8..13).map(tcp_state).collect();
    assert_eq!(
        all,
        vec![
            TcpState::Unknown,
            TcpState::Established,
            TcpState::SynSent,
            TcpState::SynRecv,
            TcpState::FinWait1,
            TcpState::FinWait2,
            TcpState::TimeWait,
            TcpState::Closed,
            TcpState::CloseWait,
            TcpState::LastAck,
            TcpState::Listen,
            TcpState::Closing,
            TcpState::Unknown,
        ]
    );
}

#[test]
fn fields_without_a_port_are_refused() {
    assert!(split_addr("0100007F", false).is_none());
    assert!(split_addr("0100007F:", false).is_none());
    assert!(split_addr("0100007F:10000", false).is_none());
    assert!(split_addr("0100007F:1F90", true).is_none());
}

fn dir(name: &str, links: Option<&[&str]>) -> ProcDir {
    ProcDir {
        name: name.as_bytes().to_vec(),
        links: links.map(|l| l.iter().map(|s| s.as_bytes().to_vec()).collect()),
    }
}

#[test]
fn links_to_sockets_name_an_inode() {
    assert_eq!(link_inode("socket:[12345]"), Some(12345));
    assert_eq!(link_inode("socket:[18446744073709551615]"), Some(u64::MAX));
    assert_eq!(link_inode("socket:[18446744073709551616]"), None);
    assert_eq!(link_inode("socket:[]"), None);
    assert_eq!(link_inode("socket:["), None);
    assert_eq!(link_inode("socket:[1"), None);
    assert_eq!(link_inode("pipe:[1]"), None);
    assert_eq!(link_inode("/dev/null"), None);
}

#[test]
fn directories_of_processes_have_numbers_for_names() {
    assert_eq!(pid_of(b"42"), Some(42));
    assert_eq!(pid_of(b"self"), None);
    assert_eq!(pid_of(b"4\xff"), None);
    assert_eq!(pid_of(b"2147483648"), None);
}

#[test]
fn every_process_that_shares_a_socket_is_found_once() {
    let dirs = [
        dir("30", Some(&["socket:[7]", "/dev/null", "socket:[7]"])),
        dir("sys", Some(&["socket:[7]"])),
        dir("10", Some(&["socket:[7]", "socket:[8]", "socket:[9]"])),
        dir("20", None),
        dir("20", Some(&["socket:[7]"])),
        dir("self", None),
    ];
    let wanted: HashSet<u64> = [7, 8, 11].into_iter().collect();
    let (map, skipped) = map_inodes_to_pids(&wanted, &dirs);
    assert_eq!(skipped, 1);
    assert_eq!(map.len(), 2);
    assert_eq!(map[&7], vec![10, 20, 30]);
    assert_eq!(map[&8], vec![10]);
}

const STAT: &str = "10 (a) b) S 1 10 10 0 -1 4194560 1 0 0 0 5 6 0 0 20 0 1 0 250 1000 10 0";

fn files() -> ProcFiles {
    ProcFiles {
        stat: Some(STAT.to_string()),
        uid: Some(1000),
        comm: Some(" node \n".to_string()),
        exe: Some(b"/usr/bin/n\xffode".to_vec()),
        cmdline: Some(b"\0node\0\0 a b\0\xff \0".to_vec()),
    }
}

#[test]
fn stat_is_read_from_behind_the_name() {
    assert_eq!(parse_stat(STAT), Some((1, 250)));
    assert_eq!(parse_stat("10 a S 1"), None);
    assert_eq!(parse_stat("10 (a) S 1 2 3"), None);
    assert_eq!(parse_stat(&STAT.replace(" 250 ", " x ")), None);
}

#[test]
fn a_process_is_read_from_its_files() {
    let m = proc_meta(&files(), 100, 100).unwrap();
    assert_eq!(m.name, "node");
    assert_eq!(m.exe.as_deref(), Some("/usr/bin/n\u{fffd}ode"));
    assert_eq!(m.cmdline.as_deref(), Some("node  a b \u{fffd}"));
    assert_eq!((m.uid, m.ppid, m.start_time), (1000, 1, 102));
    assert_eq!(proc_meta(&files(), 100, 0).unwrap().start_time, 350);
}

#[test]
fn a_process_without_a_stat_or_an_owner_is_unknown() {
    let mut f = files();
    f.stat = None;
    assert!(proc_meta(&f, 0, 100).is_none());
    let mut f = files();
    f.uid = None;
    assert!(proc_meta(&f, 0, 100).is_none());
    let mut f = files();
    f.cmdline = Some(b"\0 \0".to_vec());
    f.exe = None;
    let m = proc_meta(&f, 0, 100).unwrap();
    assert_eq!((m.exe, m.cmdline), (None, None));
}

#[test]
fn a_start_beyond_all_counting_is_noticed() {
    assert!(start_fits(&files(), u64::MAX - 2, 100));
    assert!(!start_fits(&files(), u64::MAX - 1, 100));
    let mut f = files();
    f.uid = None;
    assert!(start_fits(&f, u64::MAX, 1));
}

#[test]
fn a_name_falls_back_on_the_executable() {
    let some = |s: &str| Some(s.to_string());
    assert_eq!(name_of(&some("  \n"), &some("/usr/bin/node")), "node");
    assert_eq!(name_of(&None, &some("node")), "node");
    assert_eq!(name_of(&None, &some("/usr/bin/")), "");
    assert_eq!(name_of(&None, &None), "?");
}

#[test]
fn boot_time_is_the_first_that_is_given() {
    let some = |s: &str| Some(s.to_string());
    assert_eq!(boot_time(&some("cpu 1 2\nbtime 1700000000\nbtime 5\n")), 1_700_000_000);
    assert_eq!(boot_time(&some("btime  12 \r\n")), 12);
    assert_eq!(boot_time(&some("btime x\nbtime 5\n")), 0);
    assert_eq!(boot_time(&some("btimes 5")), 0);
    assert_eq!(boot_time(&None), 0);
    assert_eq!(clock_ticks(250), 250);
    assert_eq!(clock_ticks(0), 100);
    assert_eq!(clock_ticks(-1), 100);
}

#[test]
fn users_without_an_entry_are_numbers() {
    assert_eq!(username(501, &Some(b"kirk\xff".to_vec())), "kirk\u{fffd}");
    assert_eq!(username(501, &None), "501");
}

fn net(tcp: Option<&str>, udp6: Option<&str>, exists: bool) -> NetFiles {
    NetFiles {
        tcp: tcp.map(String::from),
        tcp6: None,
        udp: None,
        udp6: udp6.map(String::from),
        tcp_exists: exists,
    }
}

/// A table whose only line lacks a field.
const TCP: &str = "header
 0: 0100007F:1F90 00000000:0000 0A 0 0 0 1000 7
";

const SOCKS: &str = "header
 0: 0100007F:1F90 00000000:0000 0A 0:0 0:0 0 1000 0 7
 1: 0100007F:0000 00000000:0000 0A 0:0 0:0 0 1000 0 8
 2: 0100007F:1F91 00000000:0000 0A 0:0 0:0 0 1000 0 9
";

#[test]
fn a_scan_lists_each_holder_of_each_socket() {
    let v6 = "h\n 0: 00000000000000000000000001000000:0035 00000000000000000000000000000000:0000 07 0:0 0:0 0 0 0 8\n";
    let dirs = [
        dir("20", Some(&["socket:[7]", "socket:[8]"])),
        dir("10", Some(&["socket:[7]"])),
        dir("30", Some(&["socket:[7]"])),
        dir("40", None),
    ];
    let mut unknown = files();
    unknown.stat = None;
    let mut root = files();
    root.uid = Some(0);
    let procs = [
        Process { pid: 10, files: files() },
        Process { pid: 20, files: root },
        Process { pid: 30, files: unknown },
    ];
    let users = [User { uid: 1000, name: Some(b"kirk".to_vec()) }];
    let c = Context { dirs: &dirs, procs: &procs, users: &users, btime: 100, hz: 100 };
    let f = net(Some(SOCKS), Some(v6), true);
    let s = scan_in(&f, &c, false).unwrap();
    assert_eq!(s.skipped, 1);
    let seen: Vec<(u16, i32, &str, &str, Proto)> = s
        .entries
        .iter()
        .map(|e| (e.local_port, e.pid, e.local_addr.as_str(), e.user.as_str(), e.proto))
        .collect();
    assert_eq!(
        seen,
        vec![
            (8080, 10, "127.0.0.1", "kirk", Proto::Tcp),
            (8080, 20, "127.0.0.1", "0", Proto::Tcp),
            (53, 20, "::1", "0", Proto::Udp),
        ]
    );
    assert_eq!(s.entries[0].state, Some(TcpState::Listen));
    assert_eq!(s.entries[0].start_time, 102);
    assert_eq!(scan(&f, &c).unwrap().entries.len(), 3);
    assert_eq!(holding(&f, &dirs), vec![10, 20, 30]);
}

#[test]
fn a_system_without_procfs_is_an_error() {
    let c = Context { dirs: &[], procs: &[], users: &[], btime: 0, hz: 100 };
    assert_eq!(
        scan(&net(None, None, false), &c).err().unwrap(),
        "/proc/net/tcp 不存在，这个系统看起来没挂载 procfs"
    );
    assert!(scan(&net(None, None, true), &c).unwrap().entries.is_empty());
    assert!(scan(&net(Some(TCP), None, false), &c).is_err());
    assert!(scan(&net(Some(SOCKS), None, false), &c).is_ok());
}

#[test]
fn other_platforms_are_an_error() {
    assert_eq!(ports::sys::scan().err().unwrap(), "ports 目前只支持 macOS 和 Linux");
}
