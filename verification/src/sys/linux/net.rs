//! The tables of sockets under `/proc/net`. Addresses stand there as hexadecimal numbers of 32
//! bits in the order of the machine, not as addresses are read.

use crate::model::{Proto, TcpState};
use crate::num;
use crate::sys::addr;
use crate::text;
use crate::text::Sep;
use vstd::prelude::*;

verus! {

/// A line of a table.
pub struct RawSock {
    pub proto: Proto,
    pub local_addr: String,
    pub local_port: u16,
    pub remote_addr: Option<String>,
    pub remote_port: u16,
    pub state: Option<TcpState>,
    pub inode: u64,
}

/// A line of a table, with its addresses as sequences.
#[verifier::ext_equal]
pub struct RawSockView {
    pub proto: Proto,
    pub local_addr: Seq<char>,
    pub local_port: u16,
    pub remote_addr: Option<Seq<char>>,
    pub remote_port: u16,
    pub state: Option<TcpState>,
    pub inode: u64,
}

impl View for RawSock {
    type V = RawSockView;

    open spec fn view(&self) -> RawSockView {
        RawSockView {
            proto: self.proto,
            local_addr: self.local_addr@,
            local_port: self.local_port,
            remote_addr: text::opt_view(self.remote_addr),
            remote_port: self.remote_port,
            state: self.state,
            inode: self.inode,
        }
    }
}

/// The lines of a table.
pub open spec fn sock_views(s: Seq<RawSock>) -> Seq<RawSockView> {
    s.map_values(|e: RawSock| e@)
}

/// The state that a number stands for in the tables.
pub open spec fn state_of(v: nat) -> TcpState {
    if v == 0x01 {
        TcpState::Established
    } else if v == 0x02 {
        TcpState::SynSent
    } else if v == 0x03 {
        TcpState::SynRecv
    } else if v == 0x04 {
        TcpState::FinWait1
    } else if v == 0x05 {
        TcpState::FinWait2
    } else if v == 0x06 {
        TcpState::TimeWait
    } else if v == 0x07 {
        TcpState::Closed
    } else if v == 0x08 {
        TcpState::CloseWait
    } else if v == 0x09 {
        TcpState::LastAck
    } else if v == 0x0a {
        TcpState::Listen
    } else if v == 0x0b {
        TcpState::Closing
    } else {
        TcpState::Unknown
    }
}

/// The word that a hexadecimal number stands for.
pub open spec fn hex_word(s: Seq<char>) -> Option<u32> {
    match num::parse_unsigned(s, 16, 0xffff_ffff) {
        Some(w) => Some(w as u32),
        None => None,
    }
}

/// The IPv4 address that eight hexadecimal digits stand for on a machine of the given order.
pub open spec fn v4_of_hex(s: Seq<char>, big: bool) -> Option<Seq<char>> {
    if s.len() != 8 {
        None
    } else {
        match hex_word(s) {
            Some(w) => Some(addr::v4_text(addr::word_bytes(w, big))),
            None => None,
        }
    }
}

/// The IPv6 address that four words of eight hexadecimal digits stand for.
pub open spec fn v6_of_hex(s: Seq<char>, big: bool) -> Option<Seq<char>> {
    if s.len() != 32 {
        None
    } else {
        match (
            hex_word(s.subrange(0, 8)),
            hex_word(s.subrange(8, 16)),
            hex_word(s.subrange(16, 24)),
            hex_word(s.subrange(24, 32)),
        ) {
            (Some(a), Some(b), Some(c), Some(d)) => Some(
                addr::v6_text(
                    addr::word_bytes(a, big) + addr::word_bytes(b, big) + addr::word_bytes(c, big)
                        + addr::word_bytes(d, big),
                ),
            ),
            _ => None,
        }
    }
}

/// The address and the port that a field stands for, such as `0100007F:1F90`.
pub open spec fn addr_of(s: Seq<char>, v6: bool, big: bool) -> Option<(Seq<char>, u16)> {
    match text::split_once(s, ':') {
        Some((a, p)) => match (
            num::parse_unsigned(p, 16, 0xffff),
            if v6 {
                v6_of_hex(a, big)
            } else {
                v4_of_hex(a, big)
            },
        ) {
            (Some(port), Some(addr)) => Some((addr, port as u16)),
            _ => None,
        },
        None => None,
    }
}

/// The socket of a line, where the line is well formed. The fields are: slot, local address,
/// remote address, state, queues, timer, retransmissions, user, timeout, inode. A socket without
/// a remote port has no peer, and the state of a UDP socket is not a state of TCP.
pub open spec fn sock_of(line: Seq<char>, proto: Proto, v6: bool, big: bool) -> Option<
    RawSockView,
> {
    let f = text::words(line, Sep::White);
    if f.len() < 10 {
        None
    } else {
        match (
            addr_of(f[1], v6, big),
            addr_of(f[2], v6, big),
            num::parse_unsigned(f[3], 16, 0xff),
            num::parse_unsigned(f[9], 10, 0xffff_ffff_ffff_ffff),
        ) {
            (Some((la, lp)), Some((ra, rp)), Some(st), Some(inode)) => Some(
                RawSockView {
                    proto,
                    local_addr: la,
                    local_port: lp,
                    remote_addr: if rp != 0 {
                        Some(ra)
                    } else {
                        None
                    },
                    remote_port: rp,
                    state: match proto {
                        Proto::Tcp => Some(state_of(st)),
                        Proto::Udp => None,
                    },
                    inode: inode as u64,
                },
            ),
            _ => None,
        }
    }
}

/// The sockets of the lines that are well formed.
pub open spec fn socks_of(
    lines: Seq<Seq<char>>,
    proto: Proto,
    v6: bool,
    big: bool,
) -> Seq<RawSockView>
    decreases lines.len(),
{
    if lines.len() == 0 {
        Seq::<RawSockView>::empty()
    } else {
        let before = socks_of(lines.drop_last(), proto, v6, big);
        match sock_of(lines.last(), proto, v6, big) {
            Some(s) => before.push(s),
            None => before,
        }
    }
}

/// The lines of a table behind its header.
pub open spec fn body(table: Seq<char>) -> Seq<Seq<char>> {
    let lines = text::lines(table);
    if lines.len() == 0 {
        lines
    } else {
        lines.drop_first()
    }
}

/// The sockets of a table.
pub open spec fn table_socks(table: Seq<char>, proto: Proto, v6: bool, big: bool) -> Seq<
    RawSockView,
> {
    socks_of(body(table), proto, v6, big)
}

/// The state that a number stands for in the tables. The kernel of macOS counts otherwise.
pub fn tcp_state(v: u8) -> (r: TcpState)
    ensures
        r == state_of(v as nat),
{
    match v {
        0x01 => TcpState::Established,
        0x02 => TcpState::SynSent,
        0x03 => TcpState::SynRecv,
        0x04 => TcpState::FinWait1,
        0x05 => TcpState::FinWait2,
        0x06 => TcpState::TimeWait,
        0x07 => TcpState::Closed,
        0x08 => TcpState::CloseWait,
        0x09 => TcpState::LastAck,
        0x0A => TcpState::Listen,
        0x0B => TcpState::Closing,
        _ => TcpState::Unknown,
    }
}

/// The word that a hexadecimal number stands for.
fn read_word(s: &[char]) -> (r: Option<u32>)
    ensures
        r == hex_word(s@),
{
    match num::read_unsigned(s, 16, 0xffff_ffff) {
        Some(w) => Some(w as u32),
        None => None,
    }
}

/// The IPv4 address that eight hexadecimal digits stand for on a machine of the given order.
pub fn hex_v4_in(s: &[char], big: bool) -> (r: Option<String>)
    ensures
        text::opt_view(r) == v4_of_hex(s@, big),
{
    if s.len() != 8 {
        return None;
    }
    match read_word(s) {
        Some(w) => Some(addr::fmt_v4(&addr::bytes_of(w, big))),
        None => None,
    }
}

/// The IPv4 address that eight hexadecimal digits stand for. The kernel writes the number in the
/// order of the machine: read the wrong way round, 127.0.0.1 would be 1.0.0.127.
pub fn hex_v4(s: &str) -> (r: Option<String>)
    ensures
        exists|big: bool|
            addr::host_order(big) && text::opt_view(r) == #[trigger] v4_of_hex(s@, big),
{
    let big = addr::host_is_big();
    hex_v4_in(text::chars_of(s).as_slice(), big)
}

/// The IPv6 address that four words of eight hexadecimal digits stand for on a machine of the
/// given order.
pub fn hex_v6_in(s: &[char], big: bool) -> (r: Option<String>)
    ensures
        text::opt_view(r) == v6_of_hex(s@, big),
{
    if s.len() != 32 {
        return None;
    }
    let w0 = read_word(text::copy_range(s, 0, 8).as_slice());
    let w1 = read_word(text::copy_range(s, 8, 16).as_slice());
    let w2 = read_word(text::copy_range(s, 16, 24).as_slice());
    let w3 = read_word(text::copy_range(s, 24, 32).as_slice());
    match (w0, w1, w2, w3) {
        (Some(w0), Some(w1), Some(w2), Some(w3)) => {
            let a = addr::bytes_of(w0, big);
            let b = addr::bytes_of(w1, big);
            let c = addr::bytes_of(w2, big);
            let d = addr::bytes_of(w3, big);
            let all = [
                a[0],
                a[1],
                a[2],
                a[3],
                b[0],
                b[1],
                b[2],
                b[3],
                c[0],
                c[1],
                c[2],
                c[3],
                d[0],
                d[1],
                d[2],
                d[3],
            ];
            assert(all@ =~= a@ + b@ + c@ + d@);
            Some(addr::fmt_v6(&all))
        },
        _ => None,
    }
}

/// The IPv6 address that four words of eight hexadecimal digits stand for, each in the order of
/// the machine.
pub fn hex_v6(s: &str) -> (r: Option<String>)
    ensures
        exists|big: bool|
            addr::host_order(big) && text::opt_view(r) == #[trigger] v6_of_hex(s@, big),
{
    let big = addr::host_is_big();
    hex_v6_in(text::chars_of(s).as_slice(), big)
}

/// What a field says, as a value.
pub open spec fn addr_view(r: Option<(String, u16)>) -> Option<(Seq<char>, u16)> {
    match r {
        Some((a, p)) => Some((a@, p)),
        None => None,
    }
}

/// The address and the port that a field stands for on a machine of the given order.
pub fn split_addr_in(s: &[char], v6: bool, big: bool) -> (r: Option<(String, u16)>)
    ensures
        addr_view(r) == addr_of(s@, v6, big),
{
    match text::split_once_chars(s, ':') {
        Some((a, p)) => {
            let addr = if v6 {
                hex_v6_in(a.as_slice(), big)
            } else {
                hex_v4_in(a.as_slice(), big)
            };
            match (num::read_unsigned(p.as_slice(), 16, 0xffff), addr) {
                (Some(port), Some(addr)) => Some((addr, port as u16)),
                _ => None,
            }
        },
        None => None,
    }
}

/// The address and the port that a field stands for.
pub fn split_addr(s: &str, v6: bool) -> (r: Option<(String, u16)>)
    ensures
        exists|big: bool|
            addr::host_order(big) && addr_view(r) == #[trigger] addr_of(s@, v6, big),
{
    let big = addr::host_is_big();
    split_addr_in(text::chars_of(s).as_slice(), v6, big)
}

/// What a line says, as a value.
pub open spec fn sock_view(r: Option<RawSock>) -> Option<RawSockView> {
    match r {
        Some(s) => Some(s@),
        None => None,
    }
}

/// The socket of a line.
fn parse_line(line: &[char], proto: Proto, v6: bool, big: bool) -> (r: Option<RawSock>)
    ensures
        sock_view(r) == sock_of(line@, proto, v6, big),
{
    let f = text::words_of(line, Sep::White);
    let ghost words = text::char_views(f@);
    if f.len() < 10 {
        return None;
    }
    assert(words[1] == f@[1]@ && words[2] == f@[2]@ && words[3] == f@[3]@ && words[9] == f@[9]@);
    let local = split_addr_in(f[1].as_slice(), v6, big);
    let remote = split_addr_in(f[2].as_slice(), v6, big);
    let state = num::read_unsigned(f[3].as_slice(), 16, 0xff);
    let inode = num::read_unsigned(f[9].as_slice(), 10, 0xffff_ffff_ffff_ffff);
    match (local, remote, state, inode) {
        (Some((la, lp)), Some((ra, rp)), Some(st), Some(inode)) => {
            let s = RawSock {
                proto,
                local_addr: la,
                local_port: lp,
                remote_addr: if rp != 0 {
                    Some(ra)
                } else {
                    None
                },
                remote_port: rp,
                state: match proto {
                    Proto::Tcp => Some(tcp_state(st as u8)),
                    Proto::Udp => None,
                },
                inode,
            };
            Some(s)
        },
        _ => None,
    }
}

/// Adds the sockets of a table on a machine of the given order.
pub fn parse_net_in(text: &str, proto: Proto, v6: bool, big: bool, out: &mut Vec<RawSock>)
    ensures
        sock_views(final(out)@) == sock_views(old(out)@) + table_socks(text@, proto, v6, big),
{
    let lines = text::lines_of(text::chars_of(text).as_slice());
    let ghost all = text::char_views(lines@);
    let ghost rest = body(text@);
    let ghost start = sock_views(out@);
    assert(rest.take(0) =~= Seq::<Seq<char>>::empty());
    assert(sock_views(out@) =~= start + socks_of(rest.take(0), proto, v6, big));
    if lines.len() == 0 {
        assert(rest =~= rest.take(0));
        return;
    }
    for i in 1..lines.len()
        invariant
            lines@.len() > 0,
            all == text::char_views(lines@),
            rest == body(text@),
            all == text::lines(text@),
            sock_views(out@) == start + socks_of(rest.take(i - 1), proto, v6, big),
    {
        assert(rest[i - 1] == all[i as int]);
        assert(rest.take(i as int).drop_last() =~= rest.take(i - 1));
        assert(rest.take(i as int).last() == lines@[i as int]@);
        match parse_line(lines[i].as_slice(), proto, v6, big) {
            Some(s) => {
                let ghost before = out@;
                out.push(s);
                assert(sock_views(out@) =~= sock_views(before).push(s@));
                assert(sock_views(out@) =~= start + socks_of(
                    rest.take(i as int),
                    proto,
                    v6,
                    big,
                ));
            },
            None => {},
        }
    }
    assert(rest.take(all.len() - 1) =~= rest);
}

/// Adds the sockets of a table. Lines that are not well formed are passed over.
pub fn parse_net(text: &str, proto: Proto, v6: bool, out: &mut Vec<RawSock>)
    ensures
        exists|big: bool|
            addr::host_order(big) && sock_views(final(out)@) == sock_views(old(out)@)
                + #[trigger] table_socks(text@, proto, v6, big),
{
    let big = addr::host_is_big();
    parse_net_in(text, proto, v6, big, out);
}

} // verus!
