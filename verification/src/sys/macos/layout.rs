//! The structures of the kernel, as `sys/proc_info.h` lays them out: where fields stand, in
//! bytes, and how large the structures are. A field that is read from the wrong place gives
//! wrong ports rather than an error.

use vstd::prelude::*;

verus! {

/// The number of a process.
pub const PID_SIZE: usize = 4;

/// `struct proc_fdinfo`.
pub const FD_INFO_SIZE: usize = 8;

pub const FD_INFO_FD: usize = 0;

pub const FD_INFO_TYPE: usize = 4;

/// `struct in_sockinfo`.
pub const IN_INFO_SIZE: usize = 80;

pub const IN_INFO_FPORT: usize = 0;

pub const IN_INFO_LPORT: usize = 4;

pub const IN_INFO_GENCNT: usize = 8;

pub const IN_INFO_FLAGS: usize = 16;

pub const IN_INFO_VFLAG: usize = 24;

pub const IN_INFO_TTL: usize = 25;

pub const IN_INFO_FADDR: usize = 32;

pub const IN_INFO_LADDR: usize = 48;

/// `struct tcp_sockinfo`.
pub const TCP_INFO_SIZE: usize = 120;

pub const TCP_INFO_INI: usize = 0;

pub const TCP_INFO_STATE: usize = 80;

/// `struct socket_info`.
pub const SOCKET_INFO_SIZE: usize = 768;

pub const SOCKET_INFO_ALIGN: usize = 8;

pub const SOCKET_INFO_KIND: usize = 232;

pub const SOCKET_INFO_PROTO: usize = 240;

/// `struct socket_fdinfo`.
pub const SOCKET_FD_INFO_SIZE: usize = 792;

pub const SOCKET_FD_INFO_PSI: usize = 24;

/// `struct proc_bsdinfo`.
pub const BSD_INFO_SIZE: usize = 136;

pub const BSD_INFO_PID: usize = 12;

pub const BSD_INFO_PPID: usize = 16;

pub const BSD_INFO_UID: usize = 20;

pub const BSD_INFO_COMM: usize = 48;

pub const BSD_INFO_NAME: usize = 64;

/// How many bytes the name takes.
pub const BSD_INFO_NAME_LEN: usize = 32;

pub const BSD_INFO_START: usize = 120;

/// The number that four bytes from `at` on stand for in the given order.
pub open spec fn u32_at(b: Seq<u8>, at: int, big: bool) -> u32 {
    if big {
        (b[at] * 0x100_0000 + b[at + 1] * 0x1_0000 + b[at + 2] * 0x100 + b[at + 3]) as u32
    } else {
        (b[at + 3] * 0x100_0000 + b[at + 2] * 0x1_0000 + b[at + 1] * 0x100 + b[at]) as u32
    }
}

/// The number that eight bytes from `at` on stand for in the given order.
pub open spec fn u64_at(b: Seq<u8>, at: int, big: bool) -> u64 {
    if big {
        (u32_at(b, at, big) * 0x1_0000_0000 + u32_at(b, at + 4, big)) as u64
    } else {
        (u32_at(b, at + 4, big) * 0x1_0000_0000 + u32_at(b, at, big)) as u64
    }
}

/// The number that four bytes from `at` on stand for.
pub fn read_u32(b: &[u8], at: usize, big: bool) -> (r: u32)
    requires
        at + 4 <= b@.len(),
    ensures
        r == u32_at(b@, at as int, big),
{
    let len: usize = b.len();
    assert(at + 4 <= len);
    let (b3, b2, b1, b0) = if big {
        (b[at], b[at + 1], b[at + 2], b[at + 3])
    } else {
        (b[at + 3], b[at + 2], b[at + 1], b[at])
    };
    b3 as u32 * 0x100_0000 + b2 as u32 * 0x1_0000 + b1 as u32 * 0x100 + b0 as u32
}

/// The signed number that four bytes from `at` on stand for.
pub fn read_i32(b: &[u8], at: usize, big: bool) -> (r: i32)
    requires
        at + 4 <= b@.len(),
    ensures
        r == u32_at(b@, at as int, big) as i32,
{
    read_u32(b, at, big) as i32
}

/// The number that eight bytes from `at` on stand for.
pub fn read_u64(b: &[u8], at: usize, big: bool) -> (r: u64)
    requires
        at + 8 <= b@.len(),
    ensures
        r == u64_at(b@, at as int, big),
{
    let len: usize = b.len();
    assert(at + 8 <= len);
    let first: u64 = read_u32(b, at, big) as u64;
    let second: u64 = read_u32(b, at + 4, big) as u64;
    if big {
        first * 0x1_0000_0000 + second
    } else {
        second * 0x1_0000_0000 + first
    }
}

/// The first `n` signed numbers that bytes stand for.
pub open spec fn numbers_in(b: Seq<u8>, n: nat, big: bool) -> Seq<i32> {
    Seq::new(n, |i: int| u32_at(b, PID_SIZE * i, big) as i32)
}

/// The numbers of processes that the kernel has listed, of which there are `n`.
pub fn read_pids(b: &[u8], n: usize, big: bool) -> (r: Vec<i32>)
    requires
        PID_SIZE * n <= b@.len(),
    ensures
        r@ == numbers_in(b@, n as nat, big),
{
    let len: usize = b.len();
    let mut r: Vec<i32> = Vec::new();
    for i in 0..n
        invariant
            len == b@.len(),
            PID_SIZE * n <= len,
            r@ == numbers_in(b@, i as nat, big),
    {
        r.push(read_i32(b, PID_SIZE * i, big));
        assert(r@ =~= numbers_in(b@, (i + 1) as nat, big));
    }
    r
}

/// How many elements to make room for, from how many bytes the kernel says it has: some more, for
/// what comes up in between. It says nothing where it fails.
pub fn capacity(need: i32, size: usize, slack: usize) -> (r: Option<usize>)
    requires
        size > 0,
        slack <= 0xffff,
    ensures
        r == (if need <= 0 {
            None
        } else {
            Some((need as nat / size as nat + slack as nat) as usize)
        }),
{
    if need <= 0 {
        return None;
    }
    let count: usize = need as usize / size;
    assert(count <= need) by (nonlinear_arith)
        requires
            count == need as usize / size,
            need > 0,
            size > 0,
    ;
    Some(count + slack)
}

/// How many elements the kernel has written, from how many bytes it says: never more than there
/// is room for. It says nothing where it fails.
pub fn written(got: i32, size: usize, room: usize) -> (r: Option<usize>)
    requires
        size > 0,
    ensures
        match r {
            None => got <= 0,
            Some(n) => got > 0 && n == (if got as nat / size as nat <= room {
                got as nat / size as nat
            } else {
                room as nat
            }),
        },
{
    if got <= 0 {
        return None;
    }
    let n: usize = got as usize / size;
    if n <= room {
        Some(n)
    } else {
        Some(room)
    }
}

} // verus!
