use ports::model::{Proto, TcpState};
use ports::sys::macos::layout;
use ports::sys::macos::process::{
    cstr_field, kern_argmax, proc_cmdline, proc_meta, proc_path, ProcReplies,
};
use ports::sys::macos::socket::{
    addrs, fmt_addr, ntohs, ntohs_in, socket_fds, socket_info, tcp_state, InSockInfo,
};
use ports::sys::macos::{scan, scan_in, Process, SockReply};
use ports::sys::user::User;

#[test]
fn struct_layout_matches_kernel() {
    assert_eq!(layout::FD_INFO_SIZE, 8);
    assert_eq!(layout::FD_INFO_FD, 0);
    assert_eq!(layout::FD_INFO_TYPE, 4);

    assert_eq!(layout::IN_INFO_SIZE, 80);
    assert_eq!(layout::IN_INFO_FPORT, 0);
    assert_eq!(layout::IN_INFO_LPORT, 4);
    assert_eq!(layout::IN_INFO_GENCNT, 8);
    assert_eq!(layout::IN_INFO_FLAGS, 16);
    assert_eq!(layout::IN_INFO_VFLAG, 24);
    assert_eq!(layout::IN_INFO_TTL, 25);
    assert_eq!(layout::IN_INFO_FADDR, 32);
    assert_eq!(layout::IN_INFO_LADDR, 48);

    assert_eq!(layout::TCP_INFO_SIZE, 120);
    assert_eq!(layout::TCP_INFO_INI, 0);
    assert_eq!(layout::TCP_INFO_STATE, 80);

    assert_eq!(layout::SOCKET_INFO_SIZE, 768);
    assert_eq!(layout::SOCKET_INFO_ALIGN, 8);
    assert_eq!(layout::SOCKET_INFO_KIND, 232);
    assert_eq!(layout::SOCKET_INFO_PROTO, 240);

    assert_eq!(layout::SOCKET_FD_INFO_SIZE, 792);
    assert_eq!(layout::SOCKET_FD_INFO_PSI, 24);

    assert_eq!(layout::BSD_INFO_SIZE, 136);
    assert_eq!(layout::BSD_INFO_PID, 12);
    assert_eq!(layout::BSD_INFO_PPID, 16);
    assert_eq!(layout::BSD_INFO_UID, 20);
    assert_eq!(layout::BSD_INFO_COMM, 48);
    assert_eq!(layout::BSD_INFO_NAME, 64);
    assert_eq!(layout::BSD_INFO_START, 120);
}

#[test]
fn ntohs_reads_network_order() {
    assert_eq!(ntohs(0xB80B), 3000);
    assert_eq!(ntohs(0), 0);
}

#[test]
fn v4_addr_lives_in_last_four_bytes() {
    let mut raw = [0u8; 16];
    raw[12..].copy_from_slice(&[127, 0, 0, 1]);
    assert_eq!(fmt_addr(&raw, false), "127.0.0.1");
    assert_eq!(fmt_addr(&[0u8; 16], false), "*");
}

#[test]
fn v4_mapped_v6_renders_as_v4() {
    let mut raw = [0u8; 16];
    raw[10] = 0xff;
    raw[11] = 0xff;
    raw[12..].copy_from_slice(&[10, 0, 0, 7]);
    assert_eq!(fmt_addr(&raw, true), "10.0.0.7");
    assert_eq!(fmt_addr(&[0u8; 16], true), "*");
}

#[test]
fn ports_are_read_on_machines_of_either_order() {
    assert_eq!(ntohs_in(0xB80B, false), 3000);
    assert_eq!(ntohs_in(3000, true), 3000);
    assert_eq!(ntohs_in(-1, false), 65535);
    assert_eq!(ntohs_in(0x7fff_0100, false), 1);
}

#[test]
fn states_have_the_numbers_of_macos() {
    let all: Vec<TcpState> = (-1..12).map(tcp_state).collect();
    assert_eq!(
        all,
        vec![
            TcpState::Unknown,
            TcpState::Closed,
            TcpState::Listen,
            TcpState::SynSent,
            TcpState::SynRecv,
            TcpState::Established,
            TcpState::CloseWait,
            TcpState::FinWait1,
            TcpState::Closing,
            TcpState::LastAck,
            TcpState::FinWait2,
            TcpState::TimeWait,
            TcpState::Unknown,
        ]
    );
}

#[test]
fn a_socket_of_both_families_has_ipv4_addresses() {
    let mut laddr = [0u8; 16];
    laddr[0] = 0xfe;
    laddr[1] = 0x80;
    laddr[15] = 9;
    let mut ini = InSockInfo { fport: 0, lport: 1, vflag: 2, faddr: [0; 16], laddr };
    let (local, remote) = addrs(&ini);
    assert_eq!((local.as_str(), remote), ("fe80::9", None));
    ini.vflag = 3;
    ini.fport = 1;
    let (local, remote) = addrs(&ini);
    assert_eq!((local.as_str(), remote.as_deref()), ("0.0.0.9", Some("*")));
}

fn put(b: &mut [u8], at: usize, bytes: &[u8]) {
    b[at..at + bytes.len()].copy_from_slice(bytes);
}

/// What the kernel of a little-endian machine writes of a socket.
fn sock(kind: i32, state: i32, lport: u16, fport: u16, laddr: [u8; 4]) -> Vec<u8> {
    let mut b = vec![0u8; layout::SOCKET_FD_INFO_SIZE];
    let psi = layout::SOCKET_FD_INFO_PSI;
    put(&mut b, psi + layout::SOCKET_INFO_KIND, &kind.to_le_bytes());
    let ini = psi + layout::SOCKET_INFO_PROTO;
    put(&mut b, ini + layout::IN_INFO_LPORT, &lport.to_be_bytes());
    put(&mut b, ini + layout::IN_INFO_FPORT, &fport.to_be_bytes());
    b[ini + layout::IN_INFO_VFLAG] = 1;
    put(&mut b, ini + layout::IN_INFO_LADDR + 12, &laddr);
    put(&mut b, ini + layout::IN_INFO_FADDR + 12, &[10, 0, 0, 1]);
    put(&mut b, ini + layout::TCP_INFO_STATE, &state.to_le_bytes());
    b
}

#[test]
fn sockets_are_read_by_their_kind() {
    let b = sock(2, 4, 8080, 443, [127, 0, 0, 1]);
    let s = socket_info(&b, 792, false).unwrap();
    assert_eq!((s.proto, s.state), (Proto::Tcp, Some(TcpState::Established)));
    assert_eq!((s.local_addr.as_str(), s.local_port), ("127.0.0.1", 8080));
    assert_eq!((s.remote_addr.as_deref(), s.remote_port), (Some("10.0.0.1"), 443));

    let b = sock(1, 4, 53, 0, [0, 0, 0, 0]);
    let s = socket_info(&b, 792, false).unwrap();
    assert_eq!((s.proto, s.state), (Proto::Udp, None));
    assert_eq!((s.local_addr.as_str(), s.local_port), ("*", 53));
    assert_eq!((s.remote_addr, s.remote_port), (None, 0));

    assert!(socket_info(&sock(3, 0, 53, 0, [0; 4]), 792, false).is_none());
    assert!(socket_info(&b, 791, false).is_none());
    assert!(socket_info(&b[..791], 792, false).is_none());
}

#[test]
fn descriptors_that_are_sockets_are_picked() {
    let mut b = Vec::new();
    for (fd, kind) in [(0i32, 1u32), (3, 2), (4, 2), (5, 7)] {
        b.extend(fd.to_le_bytes());
        b.extend(kind.to_le_bytes());
    }
    assert_eq!(socket_fds(&b, 4, false), vec![3, 4]);
    assert_eq!(socket_fds(&b, 2, false), vec![3]);
    assert_eq!(layout::read_pids(&b, 3, false), vec![0, 1, 3]);
    assert_eq!(layout::read_pids(&[0, 0, 1, 2, 255, 255, 255, 255], 2, true), vec![258, -1]);
    assert_eq!(layout::capacity(0, 8, 16), None);
    assert_eq!(layout::capacity(17, 8, 16), Some(18));
    assert_eq!(layout::written(-1, 8, 4), None);
    assert_eq!(layout::written(17, 8, 4), Some(2));
    assert_eq!(layout::written(400, 8, 4), Some(4));
}

#[test]
fn fields_end_at_a_zero_byte() {
    assert_eq!(cstr_field(b"node\0junk"), "node");
    assert_eq!(cstr_field(b"n\xffde"), "n\u{fffd}de");
    assert_eq!(cstr_field(b"\0"), "");
}

#[test]
fn paths_have_to_be_utf8() {
    assert_eq!(proc_path(b"/bin/sh\0\0", 7).as_deref(), Some("/bin/sh"));
    assert_eq!(proc_path(b"/bin/sh", 90).as_deref(), Some("/bin/sh"));
    assert_eq!(proc_path(b"/bin/\xff", 6), None);
    assert_eq!(proc_path(b"/bin/sh", 0), None);
    assert_eq!(proc_path(b"/bin/sh", -1), None);
}

fn args_of(argc: u32, rest: &[u8]) -> Vec<u8> {
    let mut b = argc.to_le_bytes().to_vec();
    b.extend(rest);
    b
}

#[test]
fn arguments_are_read_behind_the_path() {
    let b = args_of(2, b"/bin/sh\0\0\0\0sh\0-c  \0HOME=/\0");
    assert_eq!(proc_cmdline(&b, 0, b.len(), false).as_deref(), Some("sh -c"));
    let b = args_of(3, b"/bin/sh\0sh\0\0\xff\0HOME=/\0");
    assert_eq!(proc_cmdline(&b, 0, b.len(), false).as_deref(), Some("sh  \u{fffd}"));
    let b = args_of(9, b"/bin/sh\0sh\0");
    assert_eq!(proc_cmdline(&b, 0, b.len(), false).as_deref(), Some("sh"));
    let b = args_of(9, b"/bin/sh\0sh\0open");
    assert_eq!(proc_cmdline(&b, 0, b.len(), false), None);
    let b = args_of(1, b"/bin/sh");
    assert_eq!(proc_cmdline(&b, 0, b.len(), false), None);
    let b = args_of(1, b"/bin/sh\0 \0");
    assert_eq!(proc_cmdline(&b, 0, b.len(), false), None);
    let b = args_of(1, b"/bin/sh\0sh\0");
    assert_eq!(proc_cmdline(&b, 1, b.len(), false), None);
    assert_eq!(proc_cmdline(&b, 0, 3, false), None);
    assert_eq!(kern_argmax(0, 1 << 20), 1 << 20);
    assert_eq!(kern_argmax(1, 1 << 20), 0);
    assert_eq!(kern_argmax(0, 0), 0);
}

fn replies(name: &[u8]) -> ProcReplies {
    let mut bsd = vec![0u8; layout::BSD_INFO_SIZE];
    put(&mut bsd, layout::BSD_INFO_PPID, &7u32.to_le_bytes());
    put(&mut bsd, layout::BSD_INFO_UID, &501u32.to_le_bytes());
    put(&mut bsd, layout::BSD_INFO_NAME, name);
    put(&mut bsd, layout::BSD_INFO_START, &(1u64 << 40).to_le_bytes());
    let args = args_of(1, b"/bin/sh\0sh\0");
    ProcReplies {
        bsd,
        bsd_got: 136,
        path: b"/bin/sh".to_vec(),
        path_got: 7,
        args_len: args.len(),
        args,
        args_rc: 0,
    }
}

#[test]
fn a_process_is_read_from_the_replies_of_the_kernel() {
    let m = proc_meta(&replies(b"node"), false).unwrap();
    assert_eq!(m.name, "node");
    assert_eq!(m.exe.as_deref(), Some("/bin/sh"));
    assert_eq!(m.cmdline.as_deref(), Some("sh"));
    assert_eq!((m.uid, m.ppid, m.start_time), (501, 7, 1 << 40));
    assert_eq!(proc_meta(&replies(b""), false).unwrap().name, "sh");
    let mut r = replies(b"");
    r.path_got = 0;
    assert_eq!(proc_meta(&r, false).unwrap().name, "?");
    r.bsd_got = 135;
    assert!(proc_meta(&r, false).is_none());
}

#[test]
fn a_scan_lists_the_sockets_of_each_process() {
    let reply = |b: Vec<u8>| SockReply { bytes: b, got: 792 };
    let mut unknown = replies(b"x");
    unknown.bsd_got = 0;
    let procs = [
        Process { pid: 0, sockets: None, replies: replies(b"kernel") },
        Process { pid: 5, sockets: None, replies: replies(b"other") },
        Process {
            pid: 6,
            sockets: Some(vec![
                reply(sock(2, 1, 8080, 0, [127, 0, 0, 1])),
                reply(sock(2, 1, 0, 0, [127, 0, 0, 1])),
                reply(sock(9, 1, 1, 0, [127, 0, 0, 1])),
                reply(sock(1, 0, 53, 0, [0, 0, 0, 0])),
            ]),
            replies: replies(b"node"),
        },
        Process {
            pid: 7,
            sockets: Some(vec![reply(sock(2, 1, 80, 0, [0, 0, 0, 0]))]),
            replies: unknown,
        },
    ];
    let users = [User { uid: 501, name: Some(b"kirk".to_vec()) }];
    let s = scan_in(&procs, &users, false);
    assert_eq!(s.skipped, 1);
    let seen: Vec<(u16, i32, &str, &str)> = s
        .entries
        .iter()
        .map(|e| (e.local_port, e.pid, e.local_addr.as_str(), e.user.as_str()))
        .collect();
    assert_eq!(seen, vec![(8080, 6, "127.0.0.1", "kirk"), (53, 6, "*", "kirk")]);
    assert_eq!(scan(&procs, &users).skipped, 1);
}
