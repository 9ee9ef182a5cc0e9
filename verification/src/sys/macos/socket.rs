//! What the kernel says of a socket.

use crate::model::{Proto, TcpState};
use crate::sys::addr;
use crate::sys::macos::layout;
use crate::text;
use vstd::prelude::*;

verus! {

/// The type of a descriptor that is a socket.
pub const FDTYPE_SOCKET: u32 = 2;

/// The kind of an internet socket that is not one of TCP.
pub const SOCKINFO_IN: i32 = 1;

/// The kind of a TCP socket.
pub const SOCKINFO_TCP: i32 = 2;

/// The flag of an IPv4 socket.
pub const INI_IPV4: u8 = 1;

/// The flag of an IPv6 socket.
pub const INI_IPV6: u8 = 2;

/// What `struct in_sockinfo` says, as far as it is of use.
pub struct InSockInfo {
    /// In network order.
    pub fport: i32,
    /// In network order.
    pub lport: i32,
    pub vflag: u8,
    pub faddr: [u8; 16],
    pub laddr: [u8; 16],
}

/// What `struct in_sockinfo` says, with addresses as sequences.
#[verifier::ext_equal]
pub struct InSockInfoView {
    pub fport: i32,
    pub lport: i32,
    pub vflag: u8,
    pub faddr: Seq<u8>,
    pub laddr: Seq<u8>,
}

impl View for InSockInfo {
    type V = InSockInfoView;

    open spec fn view(&self) -> InSockInfoView {
        InSockInfoView {
            fport: self.fport,
            lport: self.lport,
            vflag: self.vflag,
            faddr: self.faddr@,
            laddr: self.laddr@,
        }
    }
}

/// A socket.
pub struct Sock {
    pub proto: Proto,
    pub state: Option<TcpState>,
    pub local_addr: String,
    pub local_port: u16,
    pub remote_addr: Option<String>,
    pub remote_port: u16,
}

/// A socket, with its addresses as sequences.
#[verifier::ext_equal]
pub struct SockView {
    pub proto: Proto,
    pub state: Option<TcpState>,
    pub local_addr: Seq<char>,
    pub local_port: u16,
    pub remote_addr: Option<Seq<char>>,
    pub remote_port: u16,
}

impl View for Sock {
    type V = SockView;

    open spec fn view(&self) -> SockView {
        SockView {
            proto: self.proto,
            state: self.state,
            local_addr: self.local_addr@,
            local_port: self.local_port,
            remote_addr: text::opt_view(self.remote_addr),
            remote_port: self.remote_port,
        }
    }
}

/// The port that the low half of a number stands for in network order, on a machine of the given
/// order.
pub open spec fn port_of(v: i32, big: bool) -> u16 {
    let low = (v as u32) % 0x1_0000;
    if big {
        low as u16
    } else {
        ((low % 0x100) * 0x100 + low / 0x100) as u16
    }
}

/// The state that a number stands for.
pub open spec fn state_of(v: i32) -> TcpState {
    if v == 0 {
        TcpState::Closed
    } else if v == 1 {
        TcpState::Listen
    } else if v == 2 {
        TcpState::SynSent
    } else if v == 3 {
        TcpState::SynRecv
    } else if v == 4 {
        TcpState::Established
    } else if v == 5 {
        TcpState::CloseWait
    } else if v == 6 {
        TcpState::FinWait1
    } else if v == 7 {
        TcpState::Closing
    } else if v == 8 {
        TcpState::LastAck
    } else if v == 9 {
        TcpState::FinWait2
    } else if v == 10 {
        TcpState::TimeWait
    } else {
        TcpState::Unknown
    }
}

/// An address: sixteen bytes, of which an IPv4 address takes the last four.
pub open spec fn addr_text(raw: Seq<u8>, v6: bool) -> Seq<char> {
    if v6 {
        addr::v6_text(raw)
    } else {
        addr::v4_text(raw.skip(12))
    }
}

/// Whether the addresses of a socket are IPv6 addresses.
pub open spec fn is_v6(vflag: u8) -> bool {
    vflag & INI_IPV6 != 0 && vflag & INI_IPV4 == 0
}

/// The address of the peer, where there is one.
pub open spec fn peer_text(i: InSockInfoView) -> Option<Seq<char>> {
    if i.fport != 0 {
        Some(addr_text(i.faddr, is_v6(i.vflag)))
    } else {
        None
    }
}

/// What the `struct in_sockinfo` from `at` on says.
pub open spec fn in_info(b: Seq<u8>, at: int, big: bool) -> InSockInfoView {
    InSockInfoView {
        fport: layout::u32_at(b, at + layout::IN_INFO_FPORT, big) as i32,
        lport: layout::u32_at(b, at + layout::IN_INFO_LPORT, big) as i32,
        vflag: b[at + layout::IN_INFO_VFLAG],
        faddr: b.subrange(at + layout::IN_INFO_FADDR, at + layout::IN_INFO_FADDR + 16),
        laddr: b.subrange(at + layout::IN_INFO_LADDR, at + layout::IN_INFO_LADDR + 16),
    }
}

/// A socket with the given addresses and ports.
pub open spec fn sock_with(
    proto: Proto,
    state: Option<TcpState>,
    i: InSockInfoView,
    big: bool,
) -> SockView {
    SockView {
        proto,
        state,
        local_addr: addr_text(i.laddr, is_v6(i.vflag)),
        local_port: port_of(i.lport, big),
        remote_addr: peer_text(i),
        remote_port: port_of(i.fport, big),
    }
}

/// Where the part of a `struct socket_fdinfo` stands that depends on the kind of socket.
pub open spec fn proto_at() -> int {
    layout::SOCKET_FD_INFO_PSI + layout::SOCKET_INFO_PROTO
}

/// The socket that a `struct socket_fdinfo` describes, where it is one of the internet. The
/// kernel has to have filled the whole of it: one that it filled in part is of another version.
pub open spec fn sock_of(b: Seq<u8>, got: i32, big: bool) -> Option<SockView> {
    if got != layout::SOCKET_FD_INFO_SIZE || b.len() != layout::SOCKET_FD_INFO_SIZE {
        None
    } else {
        let kind = layout::u32_at(
            b,
            layout::SOCKET_FD_INFO_PSI + layout::SOCKET_INFO_KIND,
            big,
        ) as i32;
        let ini = in_info(b, proto_at(), big);
        if kind == SOCKINFO_TCP {
            let state = layout::u32_at(b, proto_at() + layout::TCP_INFO_STATE, big) as i32;
            Some(sock_with(Proto::Tcp, Some(state_of(state)), ini, big))
        } else if kind == SOCKINFO_IN {
            Some(sock_with(Proto::Udp, None, ini, big))
        } else {
            None
        }
    }
}

/// The descriptors that are sockets, among the first `n` that are described.
pub open spec fn sockets_among(b: Seq<u8>, n: nat, big: bool) -> Seq<i32>
    decreases n,
{
    if n == 0 {
        Seq::<i32>::empty()
    } else {
        let before = sockets_among(b, (n - 1) as nat, big);
        let at = (n - 1) * layout::FD_INFO_SIZE;
        if layout::u32_at(b, at + layout::FD_INFO_TYPE, big) == FDTYPE_SOCKET {
            before.push(layout::u32_at(b, at + layout::FD_INFO_FD, big) as i32)
        } else {
            before
        }
    }
}

/// The port that a number stands for in network order.
pub fn ntohs_in(v: i32, big: bool) -> (r: u16)
    ensures
        r == port_of(v, big),
{
    let low: u32 = (v as u32) % 0x1_0000;
    if big {
        low as u16
    } else {
        ((low % 0x100) * 0x100 + low / 0x100) as u16
    }
}

/// The port that a number of the kernel stands for: its low half is in network order.
pub fn ntohs(v: i32) -> (r: u16)
    ensures
        exists|big: bool| addr::host_order(big) && r == #[trigger] port_of(v, big),
{
    let big = addr::host_is_big();
    let r: u16 = ntohs_in(v, big);
    assert(r == port_of(v, big));
    r
}

/// The state that a number stands for.
pub fn tcp_state(v: i32) -> (r: TcpState)
    ensures
        r == state_of(v),
{
    match v {
        0 => TcpState::Closed,
        1 => TcpState::Listen,
        2 => TcpState::SynSent,
        3 => TcpState::SynRecv,
        4 => TcpState::Established,
        5 => TcpState::CloseWait,
        6 => TcpState::FinWait1,
        7 => TcpState::Closing,
        8 => TcpState::LastAck,
        9 => TcpState::FinWait2,
        10 => TcpState::TimeWait,
        _ => TcpState::Unknown,
    }
}

/// An address as it is shown.
pub fn fmt_addr(raw: &[u8; 16], v6: bool) -> (r: String)
    ensures
        r@ == addr_text(raw@, v6),
{
    if v6 {
        addr::fmt_v6(raw)
    } else {
        let last = [raw[12], raw[13], raw[14], raw[15]];
        assert(last@ =~= raw@.skip(12));
        addr::fmt_v4(&last)
    }
}

/// The addresses of a socket and of its peer.
pub fn addrs(ini: &InSockInfo) -> (r: (String, Option<String>))
    ensures
        r.0@ == addr_text(ini@.laddr, is_v6(ini@.vflag)),
        text::opt_view(r.1) == peer_text(ini@),
{
    let v6 = ini.vflag & INI_IPV6 != 0 && ini.vflag & INI_IPV4 == 0;
    let local = fmt_addr(&ini.laddr, v6);
    let remote = if ini.fport != 0 {
        Some(fmt_addr(&ini.faddr, v6))
    } else {
        None
    };
    (local, remote)
}

/// Sixteen bytes from `at` on.
fn sixteen(b: &[u8], at: usize) -> (r: [u8; 16])
    requires
        at + 16 <= b@.len(),
    ensures
        r@ == b@.subrange(at as int, at + 16),
{
    let len: usize = b.len();
    assert(at + 16 <= len);
    let r = [
        b[at],
        b[at + 1],
        b[at + 2],
        b[at + 3],
        b[at + 4],
        b[at + 5],
        b[at + 6],
        b[at + 7],
        b[at + 8],
        b[at + 9],
        b[at + 10],
        b[at + 11],
        b[at + 12],
        b[at + 13],
        b[at + 14],
        b[at + 15],
    ];
    assert(r@ =~= b@.subrange(at as int, at + 16));
    r
}

/// What the `struct in_sockinfo` from `at` on says.
fn read_in_info(b: &[u8], at: usize, big: bool) -> (r: InSockInfo)
    requires
        at + layout::IN_INFO_SIZE <= b@.len(),
    ensures
        r@ == in_info(b@, at as int, big),
{
    let len: usize = b.len();
    assert(at + layout::IN_INFO_SIZE <= len);
    InSockInfo {
        fport: layout::read_i32(b, at + layout::IN_INFO_FPORT, big),
        lport: layout::read_i32(b, at + layout::IN_INFO_LPORT, big),
        vflag: b[at + layout::IN_INFO_VFLAG],
        faddr: sixteen(b, at + layout::IN_INFO_FADDR),
        laddr: sixteen(b, at + layout::IN_INFO_LADDR),
    }
}

/// A socket with the given addresses and ports.
fn make_sock(proto: Proto, state: Option<TcpState>, ini: &InSockInfo, big: bool) -> (r: Sock)
    ensures
        r@ == sock_with(proto, state, ini@, big),
{
    let (local_addr, remote_addr) = addrs(ini);
    Sock {
        proto,
        state,
        local_addr,
        local_port: ntohs_in(ini.lport, big),
        remote_addr,
        remote_port: ntohs_in(ini.fport, big),
    }
}

/// What is described, as a value.
pub open spec fn sock_view(r: Option<Sock>) -> Option<SockView> {
    match r {
        Some(s) => Some(s@),
        None => None,
    }
}

/// The socket that a `struct socket_fdinfo` describes, of which the kernel has filled `got`
/// bytes. Sockets that are not of the internet are passed over.
pub fn socket_info(b: &[u8], got: i32, big: bool) -> (r: Option<Sock>)
    ensures
        sock_view(r) == sock_of(b@, got, big),
{
    if got as i64 != layout::SOCKET_FD_INFO_SIZE as i64 || b.len() != layout::SOCKET_FD_INFO_SIZE {
        return None;
    }
    let kind: i32 = layout::read_i32(
        b,
        layout::SOCKET_FD_INFO_PSI + layout::SOCKET_INFO_KIND,
        big,
    );
    let at: usize = layout::SOCKET_FD_INFO_PSI + layout::SOCKET_INFO_PROTO;
    let ini = read_in_info(b, at, big);
    if kind == SOCKINFO_TCP {
        let state: i32 = layout::read_i32(b, at + layout::TCP_INFO_STATE, big);
        Some(make_sock(Proto::Tcp, Some(tcp_state(state)), &ini, big))
    } else if kind == SOCKINFO_IN {
        Some(make_sock(Proto::Udp, None, &ini, big))
    } else {
        None
    }
}

/// The descriptors that are sockets, among the first `n` that the kernel has described.
pub fn socket_fds(b: &[u8], n: usize, big: bool) -> (r: Vec<i32>)
    requires
        n * layout::FD_INFO_SIZE <= b@.len(),
    ensures
        r@ == sockets_among(b@, n as nat, big),
{
    let len: usize = b.len();
    let mut r: Vec<i32> = Vec::new();
    for i in 0..n
        invariant
            len == b@.len(),
            n * layout::FD_INFO_SIZE <= len,
            r@ == sockets_among(b@, i as nat, big),
    {
        let at: usize = i * layout::FD_INFO_SIZE;
        if layout::read_u32(b, at + layout::FD_INFO_TYPE, big) == FDTYPE_SOCKET {
            r.push(layout::read_i32(b, at + layout::FD_INFO_FD, big));
        }
    }
    r
}

} // verus!
