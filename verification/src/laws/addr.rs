//! Laws of addresses: what the kernel writes reads back as what it meant, on machines of either
//! order.

use crate::laws;
use crate::model::Proto;
use crate::num;
use crate::sys::addr;
use crate::sys::linux::net;
use crate::sys::linux::net::RawSockView;
use crate::sys::macos::socket;
use crate::text;
use crate::text::Sep;
use vstd::prelude::*;

verus! {

/// A digit in upper case.
pub open spec fn upper_digit(d: nat) -> char {
    if d < 10 {
        (0x30 + d) as char
    } else {
        (0x41 + d - 10) as char
    }
}

/// `n` in hexadecimal, in upper case and with `k` digits.
pub open spec fn upper_hex(n: nat, k: nat) -> Seq<char>
    decreases k,
{
    if k == 0 {
        Seq::<char>::empty()
    } else {
        upper_hex(n / 16, (k - 1) as nat).push(upper_digit(n % 16))
    }
}

/// How many numbers `k` hexadecimal digits can hold.
pub open spec fn sixteens(k: nat) -> nat
    decreases k,
{
    if k == 0 {
        1
    } else {
        16 * sixteens((k - 1) as nat)
    }
}

/// The number that a machine of the given order takes four bytes in memory for.
pub open spec fn word(b: Seq<u8>, big: bool) -> nat {
    if big {
        (b[0] * 0x100_0000 + b[1] * 0x1_0000 + b[2] * 0x100 + b[3]) as nat
    } else {
        (b[3] * 0x100_0000 + b[2] * 0x1_0000 + b[1] * 0x100 + b[0]) as nat
    }
}

/// How the kernel writes four bytes of an address: as the number that the machine takes them for.
pub open spec fn kernel_word(b: Seq<u8>, big: bool) -> Seq<char> {
    upper_hex(word(b, big), 8)
}

/// How the kernel writes an IPv6 address: four words.
pub open spec fn kernel_v6(b: Seq<u8>, big: bool) -> Seq<char> {
    kernel_word(b.subrange(0, 4), big) + kernel_word(b.subrange(4, 8), big) + kernel_word(
        b.subrange(8, 12),
        big,
    ) + kernel_word(b.subrange(12, 16), big)
}

proof fn lemma_upper_hex(n: nat, k: nat)
    requires
        n < sixteens(k),
    ensures
        num::run_value(upper_hex(n, k), 16) == Some(n),
        upper_hex(n, k).len() == k,
        forall|i: int|
            0 <= i < k ==> (#[trigger] upper_hex(n, k)[i]) != '+' && upper_hex(n, k)[i] != ':',
    decreases k,
{
    if k > 0 {
        lemma_upper_hex(n / 16, (k - 1) as nat);
        let front = upper_hex(n / 16, (k - 1) as nat);
        let s = upper_hex(n, k);
        assert(s.drop_last() =~= front);
        lemma_upper_digit(n % 16);
        assert forall|i: int| 0 <= i < k implies (#[trigger] s[i]) != '+' && s[i] != ':' by {
            if i < front.len() {
                assert(s[i] == front[i]);
            }
        }
    }
}

proof fn lemma_upper_digit(d: nat)
    requires
        d < 16,
    ensures
        num::digit_value(upper_digit(d), 16) == Some(d),
        upper_digit(d) != '+',
        upper_digit(d) != ':',
{
}

/// The bytes of the number that four bytes make up, from the highest to the lowest.
proof fn lemma_number_of_bytes(a: u8, b: u8, c: u8, d: u8)
    ensures
        ({
            let n = a * 0x100_0000 + b * 0x1_0000 + c * 0x100 + d;
            let w = n as u32;
            &&& 0 <= n < 0x1_0000_0000
            &&& (w / 0x100_0000) as u8 == a
            &&& ((w / 0x1_0000) % 0x100) as u8 == b
            &&& ((w / 0x100) % 0x100) as u8 == c
            &&& (w % 0x100) as u8 == d
        }),
{
    let n = a * 0x100_0000 + b * 0x1_0000 + c * 0x100 + d;
    assert(n / 0x100 == a * 0x1_0000 + b * 0x100 + c);
    assert(n / 0x1_0000 == a * 0x100 + b);
    assert(n / 0x100_0000 == a);
    assert(n % 0x100 == d);
    assert((a * 0x1_0000 + b * 0x100 + c) % 0x100 == c);
    assert((a * 0x100 + b) % 0x100 == b);
}

proof fn lemma_word_back(b: Seq<u8>, big: bool)
    requires
        b.len() == 4,
    ensures
        word(b, big) < 0x1_0000_0000,
        addr::word_bytes(word(b, big) as u32, big) == b,
{
    if big {
        lemma_number_of_bytes(b[0], b[1], b[2], b[3]);
    } else {
        lemma_number_of_bytes(b[3], b[2], b[1], b[0]);
    }
    assert(addr::word_bytes(word(b, big) as u32, big) =~= b);
}

proof fn lemma_kernel_word(b: Seq<u8>, big: bool)
    requires
        b.len() == 4,
    ensures
        kernel_word(b, big).len() == 8,
        net::hex_word(kernel_word(b, big)) == Some(word(b, big) as u32),
        addr::word_bytes(word(b, big) as u32, big) == b,
        forall|i: int| 0 <= i < 8 ==> (#[trigger] kernel_word(b, big)[i]) != ':',
{
    lemma_word_back(b, big);
    reveal_with_fuel(sixteens, 9);
    lemma_upper_hex(word(b, big), 8);
    assert(kernel_word(b, big)[0] != '+');
}

/// An IPv4 address that the kernel wrote reads back as itself, whatever the order of the machine.
pub proof fn law_kernel_v4_reads_back(b: Seq<u8>, big: bool)
    requires
        b.len() == 4,
    ensures
        net::v4_of_hex(kernel_word(b, big), big) == Some(addr::v4_text(b)),
{
    lemma_kernel_word(b, big);
}

/// An IPv6 address that the kernel wrote reads back as itself, whatever the order of the machine.
pub proof fn law_kernel_v6_reads_back(b: Seq<u8>, big: bool)
    requires
        b.len() == 16,
    ensures
        net::v6_of_hex(kernel_v6(b, big), big) == Some(addr::v6_text(b)),
{
    let b0 = b.subrange(0, 4);
    let b1 = b.subrange(4, 8);
    let b2 = b.subrange(8, 12);
    let b3 = b.subrange(12, 16);
    lemma_kernel_word(b0, big);
    lemma_kernel_word(b1, big);
    lemma_kernel_word(b2, big);
    lemma_kernel_word(b3, big);
    let s = kernel_v6(b, big);
    assert(s.subrange(0, 8) =~= kernel_word(b0, big));
    assert(s.subrange(8, 16) =~= kernel_word(b1, big));
    assert(s.subrange(16, 24) =~= kernel_word(b2, big));
    assert(s.subrange(24, 32) =~= kernel_word(b3, big));
    assert(b0 + b1 + b2 + b3 =~= b);
}

/// How the kernel writes an address of four or sixteen bytes.
pub open spec fn kernel_addr(b: Seq<u8>, big: bool) -> Seq<char> {
    if b.len() == 16 {
        kernel_v6(b, big)
    } else {
        kernel_word(b, big)
    }
}

/// How an address of four or sixteen bytes is shown.
pub open spec fn shown_addr(b: Seq<u8>) -> Seq<char> {
    if b.len() == 16 {
        addr::v6_text(b)
    } else {
        addr::v4_text(b)
    }
}

/// How the kernel writes an address and a port.
pub open spec fn kernel_field(b: Seq<u8>, port: u16, big: bool) -> Seq<char> {
    kernel_addr(b, big) + seq![':'] + upper_hex(port as nat, 4)
}

/// An address and a port that the kernel wrote with a colon between them read back as themselves.
pub proof fn law_kernel_fields_read_back(b: Seq<u8>, port: u16, big: bool)
    requires
        b.len() == 4 || b.len() == 16,
    ensures
        net::addr_of(kernel_field(b, port, big), b.len() == 16, big) == Some(
            (shown_addr(b), port),
        ),
{
    let written = kernel_addr(b, big);
    let p = upper_hex(port as nat, 4);
    let s = kernel_field(b, port, big);
    if b.len() == 16 {
        law_kernel_v6_reads_back(b, big);
        lemma_kernel_word(b.subrange(0, 4), big);
        lemma_kernel_word(b.subrange(4, 8), big);
        lemma_kernel_word(b.subrange(8, 12), big);
        lemma_kernel_word(b.subrange(12, 16), big);
        assert forall|j: int| 0 <= j < written.len() implies s[j] != ':' by {
            assert(s[j] == written[j]);
            if j < 8 {
                assert(written[j] == kernel_word(b.subrange(0, 4), big)[j]);
            } else if j < 16 {
                assert(written[j] == kernel_word(b.subrange(4, 8), big)[j - 8]);
            } else if j < 24 {
                assert(written[j] == kernel_word(b.subrange(8, 12), big)[j - 16]);
            } else {
                assert(written[j] == kernel_word(b.subrange(12, 16), big)[j - 24]);
            }
        }
    } else {
        law_kernel_v4_reads_back(b, big);
        lemma_kernel_word(b, big);
        assert forall|j: int| 0 <= j < written.len() implies s[j] != ':' by {
            assert(s[j] == kernel_word(b, big)[j]);
        }
    }
    reveal_with_fuel(sixteens, 5);
    lemma_upper_hex(port as nat, 4);
    assert(p[0] != '+');
    text::lemma_find_at(s, ':', written.len() as int);
    assert(s.take(written.len() as int) =~= written);
    assert(s.skip(written.len() as int + 1) =~= p);
}

/// A line of a table that holds the fields that the kernel writes reads back as the socket that
/// it was written for.
pub proof fn law_kernel_lines_read_back(
    f: Seq<Seq<char>>,
    local: Seq<u8>,
    lport: u16,
    remote: Seq<u8>,
    rport: u16,
    state: u8,
    inode: u64,
    proto: Proto,
    big: bool,
)
    requires
        f.len() >= 10,
        laws::fmt::solid(f, Sep::White),
        local.len() == remote.len(),
        local.len() == 4 || local.len() == 16,
        f[1] == kernel_field(local, lport, big),
        f[2] == kernel_field(remote, rport, big),
        f[3] == upper_hex(state as nat, 2),
        f[9] == num::dec(inode as nat),
    ensures
        net::sock_of(text::join(f, seq![' ']), proto, local.len() == 16, big) == Some(
            RawSockView {
                proto,
                local_addr: shown_addr(local),
                local_port: lport,
                remote_addr: if rport != 0 {
                    Some(shown_addr(remote))
                } else {
                    None
                },
                remote_port: rport,
                state: match proto {
                    Proto::Tcp => Some(net::state_of(state as nat)),
                    Proto::Udp => None,
                },
                inode,
            },
        ),
{
    laws::fmt::lemma_split_joined(f, Sep::White);
    laws::fmt::lemma_nonempty_all(f);
    law_kernel_fields_read_back(local, lport, big);
    law_kernel_fields_read_back(remote, rport, big);
    reveal_with_fuel(sixteens, 3);
    lemma_upper_hex(state as nat, 2);
    assert(f[3][0] != '+');
    num::law_written_numbers_read_back(inode as nat, 10, 0xffff_ffff_ffff_ffff);
}

/// The number in which the kernel of macOS hands out a port: in network order, as the machine
/// reads it.
pub open spec fn network_order(port: u16, big: bool) -> i32 {
    if big {
        port as i32
    } else {
        ((port % 0x100) * 0x100 + port / 0x100) as i32
    }
}

/// A port that the kernel handed out in network order reads back as itself.
pub proof fn law_network_ports_read_back(port: u16, big: bool)
    ensures
        socket::port_of(network_order(port, big), big) == port,
{
}

/// The group of index `i` of an IPv6 address: two bytes, the higher first.
pub open spec fn group(b: Seq<u8>, i: int) -> nat {
    (b[2 * i] * 256 + b[2 * i + 1]) as nat
}

/// The groups from `from` up to `to` in hexadecimal, with a colon between any two.
pub open spec fn groups(b: Seq<u8>, from: int, to: int) -> Seq<char> {
    text::join(
        Seq::new((to - from) as nat, |i: int| num::digits(group(b, from + i), 16)),
        seq![':'],
    )
}

/// Whether the `r` groups from the one of index `s` on are zero.
pub open spec fn zero_groups(b: Seq<u8>, s: int, r: int) -> bool {
    &&& 0 <= s && 0 <= r && s + r <= 8
    &&& forall|i: int| s <= i < s + r ==> #[trigger] group(b, i) == 0
}

/// Whether a text is an address in which two colons stand for `r` zero groups from the one of
/// index `s` on: the longest such run, and the first of those.
pub open spec fn shortened(b: Seq<u8>, s: int, r: int, t: Seq<char>) -> bool {
    &&& r >= 2
    &&& zero_groups(b, s, r)
    &&& forall|x: int, y: int| #[trigger]
        zero_groups(b, x, y) ==> y < r || (y == r && s <= x)
    &&& t == groups(b, 0, s) + seq![':', ':'] + groups(b, s + r, 8)
}

proof fn lemma_zero_run(b: Seq<u8>, i: int)
    requires
        0 <= i <= 8,
    ensures
        i + addr::zero_run(b, i) <= 8,
        forall|k: int| i <= k < i + addr::zero_run(b, i) ==> #[trigger] group(b, k) == 0,
        i + addr::zero_run(b, i) < 8 ==> group(b, i + addr::zero_run(b, i)) != 0,
    decreases 8 - i,
{
    if i < 8 {
        assert(group(b, i) == addr::segment(b, i));
        if group(b, i) == 0 {
            lemma_zero_run(b, i + 1);
        }
    }
}

proof fn lemma_zero_groups(b: Seq<u8>, s: int, r: int)
    requires
        zero_groups(b, s, r),
    ensures
        addr::zero_run(b, s) >= r,
{
    lemma_zero_run(b, s);
    let n = addr::zero_run(b, s);
    if n < r {
        assert(group(b, s + n) == 0);
    }
}

proof fn lemma_longest_run(b: Seq<u8>, n: int)
    requires
        1 <= n <= 8,
    ensures
        0 <= addr::longest_run(b, n) < n,
        forall|k: int|
            0 <= k < n ==> #[trigger] addr::zero_run(b, k) <= addr::zero_run(
                b,
                addr::longest_run(b, n),
            ),
        forall|k: int|
            0 <= k < addr::longest_run(b, n) ==> #[trigger] addr::zero_run(b, k) < addr::zero_run(
                b,
                addr::longest_run(b, n),
            ),
    decreases n,
{
    if n > 1 {
        lemma_longest_run(b, n - 1);
    }
}

proof fn lemma_groups(b: Seq<u8>, from: int, to: int)
    requires
        0 <= from <= to <= 8,
    ensures
        addr::segments_text(b, from, to) == groups(b, from, to),
    decreases to - from,
{
    let parts = Seq::new((to - from) as nat, |i: int| num::digits(group(b, from + i), 16));
    reveal_strlit(":");
    assert(":"@ =~= seq![':']);
    if to == from {
        assert(groups(b, from, to) =~= addr::segments_text(b, from, to));
    } else if to == from + 1 {
        assert(parts[0] == num::digits(group(b, from), 16));
        assert(group(b, from) == addr::segment(b, from));
    } else {
        lemma_groups(b, from, to - 1);
        assert(parts.drop_last() =~= Seq::new(
            (to - 1 - from) as nat,
            |i: int| num::digits(group(b, from + i), 16),
        ));
        assert(parts.last() == num::digits(group(b, to - 1), 16));
        assert(group(b, to - 1) == addr::segment(b, to - 1));
    }
}

/// How an IPv6 address is shown. One that stands for an IPv4 address is shown as that, and the one
/// for all addresses as a star. Else it is its groups in hexadecimal, with two colons for the
/// longest run of at least two zero groups, the first of several; where there is no such run, it
/// is all eight.
pub proof fn law_how_ipv6_is_shown(b: Seq<u8>)
    requires
        b.len() == 16,
    ensures
        ({
            let v4 = (forall|i: int| 0 <= i < 10 ==> #[trigger] b[i] == 0) && b[10] == 255 && b[11]
                == 255;
            let any = forall|i: int| 0 <= i < 16 ==> #[trigger] b[i] == 0;
            let t = addr::v6_text(b);
            &&& v4 ==> t == addr::v4_text(b.subrange(12, 16))
            &&& any ==> t == seq!['*']
            &&& !v4 && !any ==> {
                ||| exists|s: int, r: int| #[trigger] shortened(b, s, r, t)
                ||| t == groups(b, 0, 8) && forall|x: int, y: int| #[trigger]
                    zero_groups(b, x, y) ==> y < 2
            }
        }),
{
    reveal_strlit("*");
    assert("*"@ =~= seq!['*']);
    let head = b.take(10);
    assert(b.skip(12) =~= b.subrange(12, 16));
    if addr::all_zero(head) {
        assert forall|i: int| 0 <= i < 10 implies #[trigger] b[i] == 0 by {
            assert(head[i] == b[i]);
        }
    }
    let t = addr::v6_text(b);
    let s = addr::longest_run(b, 8);
    lemma_longest_run(b, 8);
    let r = addr::zero_run(b, s) as int;
    lemma_zero_run(b, s);
    if !addr::mapped(b) && !addr::all_zero(b) {
        if r >= 2 {
            lemma_groups(b, 0, s);
            lemma_groups(b, s + r, 8);
            reveal_strlit("::");
            assert("::"@ =~= seq![':', ':']);
            assert forall|x: int, y: int| #[trigger] zero_groups(b, x, y) implies y < r || (y == r
                && s <= x) by {
                lemma_zero_groups(b, x, y);
                if x < 8 {
                    assert(addr::zero_run(b, x) <= addr::zero_run(b, s));
                    if x < s {
                        assert(addr::zero_run(b, x) < addr::zero_run(b, s));
                    }
                }
            }
            assert(shortened(b, s, r, t));
        } else {
            lemma_groups(b, 0, 8);
            assert forall|x: int, y: int| #[trigger] zero_groups(b, x, y) implies y < 2 by {
                lemma_zero_groups(b, x, y);
                if x < 8 {
                    assert(addr::zero_run(b, x) <= addr::zero_run(b, s));
                }
            }
        }
    }
}

} // verus!
