//! Internet addresses as text.

use crate::num;
use crate::text;
use vstd::prelude::*;

verus! {

/// `u32::to_ne_bytes` gives the bytes of a number in the order of the machine: from the lowest
/// to the highest, or the other way round. Which of the two is a property of the machine.
#[verifier::external_body]
fn ne_bytes(w: u32) -> (r: [u8; 4])
    ensures
        r@ == word_bytes(w, false) || r@ == word_bytes(w, true),
{
    w.to_ne_bytes()
}

/// The bytes of a word from the lowest to the highest, or the other way round where `big` holds.
pub open spec fn word_bytes(w: u32, big: bool) -> Seq<u8> {
    let b0 = (w % 0x100) as u8;
    let b1 = ((w / 0x100) % 0x100) as u8;
    let b2 = ((w / 0x1_0000) % 0x100) as u8;
    let b3 = (w / 0x100_0000) as u8;
    if big {
        seq![b3, b2, b1, b0]
    } else {
        seq![b0, b1, b2, b3]
    }
}

/// Whether all bytes are zero.
pub open spec fn all_zero(b: Seq<u8>) -> bool {
    forall|i: int| 0 <= i < b.len() ==> (#[trigger] b[i]) == 0
}

/// An IPv4 address: four numbers with dots between them, or a star for the one that stands for
/// all addresses.
pub open spec fn v4_text(b: Seq<u8>) -> Seq<char> {
    if all_zero(b) {
        "*"@
    } else {
        num::dec(b[0] as nat) + "."@ + num::dec(b[1] as nat) + "."@ + num::dec(b[2] as nat) + "."@
            + num::dec(b[3] as nat)
    }
}

/// The segment of index `i` of an IPv6 address.
pub open spec fn segment(b: Seq<u8>, i: int) -> nat {
    (b[2 * i] as nat) * 0x100 + b[2 * i + 1] as nat
}

/// How many segments are zero from the one of index `i` on.
pub open spec fn zero_run(b: Seq<u8>, i: int) -> nat
    decreases 8 - i,
{
    if 0 <= i < 8 && segment(b, i) == 0 {
        1 + zero_run(b, i + 1)
    } else {
        0
    }
}

/// Where the longest run of zero segments starts, among the first `n` segments; the first of
/// several.
pub open spec fn longest_run(b: Seq<u8>, n: int) -> int
    decreases n,
{
    if n <= 1 {
        0
    } else {
        let before = longest_run(b, n - 1);
        if zero_run(b, n - 1) > zero_run(b, before) {
            n - 1
        } else {
            before
        }
    }
}

/// The segments from `from` up to `to` in hexadecimal, with colons between them.
pub open spec fn segments_text(b: Seq<u8>, from: int, to: int) -> Seq<char>
    decreases to - from,
{
    if to <= from {
        Seq::<char>::empty()
    } else if to == from + 1 {
        num::digits(segment(b, from), 16)
    } else {
        segments_text(b, from, to - 1) + ":"@ + num::digits(segment(b, to - 1), 16)
    }
}

/// An IPv6 address: two colons stand for the longest run of at least two zero segments.
pub open spec fn v6_plain(b: Seq<u8>) -> Seq<char> {
    let start = longest_run(b, 8);
    let run = zero_run(b, start);
    if run >= 2 {
        segments_text(b, 0, start) + "::"@ + segments_text(b, start + run, 8)
    } else {
        segments_text(b, 0, 8)
    }
}

/// Whether an IPv6 address stands for an IPv4 address: ten zero bytes and two of all ones.
pub open spec fn mapped(b: Seq<u8>) -> bool {
    all_zero(b.take(10)) && b[10] == 0xff && b[11] == 0xff
}

/// An IPv6 address as it is shown: as the IPv4 address that it stands for, as a star where it
/// stands for all addresses, else as itself.
pub open spec fn v6_text(b: Seq<u8>) -> Seq<char> {
    if mapped(b) {
        v4_text(b.skip(12))
    } else if all_zero(b) {
        "*"@
    } else {
        v6_plain(b)
    }
}

/// Whether the machine gave these bytes for the number.
pub closed spec fn bytes_given(w: u32, b: [u8; 4]) -> bool {
    call_ensures(ne_bytes, (w,), b)
}

/// Whether the machine gives the bytes of a number in the given order: those of the number one,
/// as it gave them, stand in that order.
pub closed spec fn host_order(big: bool) -> bool {
    exists|b: [u8; 4]| #[trigger] bytes_given(1u32, b) && b@ == word_bytes(1, big)
}

/// The machine keeps the highest byte first exactly where it gives the one of the number one last.
pub proof fn law_the_order_is_that_of_the_machine(big: bool)
    ensures
        host_order(big) <==> exists|b: [u8; 4]| #[trigger]
            bytes_given(1u32, b) && b@ == if big {
                seq![0u8, 0, 0, 1]
            } else {
                seq![1u8, 0, 0, 0]
            },
{
    assert(word_bytes(1, true) =~= seq![0u8, 0, 0, 1]);
    assert(word_bytes(1, false) =~= seq![1u8, 0, 0, 0]);
}

/// Whether the machine keeps the highest byte of a number first.
pub fn host_is_big() -> (r: bool)
    ensures
        host_order(r),
{
    let b = ne_bytes(1);
    assert(bytes_given(1u32, b));
    b[0] == 0
}

/// The bytes of a word in the given order.
pub fn bytes_of(w: u32, big: bool) -> (r: [u8; 4])
    ensures
        r@ == word_bytes(w, big),
{
    let b0: u8 = (w % 0x100) as u8;
    let b1: u8 = ((w / 0x100) % 0x100) as u8;
    let b2: u8 = ((w / 0x1_0000) % 0x100) as u8;
    let b3: u8 = (w / 0x100_0000) as u8;
    let r = if big {
        [b3, b2, b1, b0]
    } else {
        [b0, b1, b2, b3]
    };
    assert(r@ =~= word_bytes(w, big));
    r
}

/// An IPv4 address as it is shown.
pub fn fmt_v4(b: &[u8; 4]) -> (r: String)
    ensures
        r@ == v4_text(b@),
{
    let mut r = String::new();
    if b[0] == 0 && b[1] == 0 && b[2] == 0 && b[3] == 0 {
        assert(all_zero(b@));
        r.append("*");
        assert(r@ =~= "*"@);
        return r;
    }
    assert(!all_zero(b@)) by {
        assert(b@[0] != 0 || b@[1] != 0 || b@[2] != 0 || b@[3] != 0);
    }
    num::push_dec(&mut r, b[0] as u64);
    r.append(".");
    num::push_dec(&mut r, b[1] as u64);
    r.append(".");
    num::push_dec(&mut r, b[2] as u64);
    r.append(".");
    num::push_dec(&mut r, b[3] as u64);
    assert(Seq::<char>::empty() + num::dec(b@[0] as nat) =~= num::dec(b@[0] as nat));
    r
}

/// The segment of index `i`.
fn segment_of(b: &[u8; 16], i: usize) -> (r: u64)
    requires
        i < 8,
    ensures
        r == segment(b@, i as int),
{
    (b[2 * i] as u64) * 0x100 + b[2 * i + 1] as u64
}

/// How many segments are zero from the one of index `i` on.
fn zeros_from(b: &[u8; 16], i: usize) -> (r: usize)
    requires
        i <= 8,
    ensures
        r == zero_run(b@, i as int),
        i + r <= 8,
    decreases 8 - i,
{
    if i < 8 && segment_of(b, i) == 0 {
        1 + zeros_from(b, i + 1)
    } else {
        0
    }
}

/// Appends the segments from `from` up to `to`.
fn push_segments(out: &mut String, b: &[u8; 16], from: usize, to: usize)
    requires
        from <= to <= 8,
    ensures
        final(out)@ == old(out)@ + segments_text(b@, from as int, to as int),
{
    let ghost start = out@;
    assert(out@ =~= start + segments_text(b@, from as int, from as int));
    for i in from..to
        invariant
            from <= to <= 8,
            out@ == start + segments_text(b@, from as int, i as int),
    {
        if i > from {
            out.append(":");
        }
        num::push_digits(out, segment_of(b, i), 16);
        assert(out@ =~= start + segments_text(b@, from as int, i + 1));
    }
}

/// An IPv6 address as it is shown. One that stands for an IPv4 address is shown as that.
pub fn fmt_v6(b: &[u8; 16]) -> (r: String)
    ensures
        r@ == v6_text(b@),
{
    let mut zeros: usize = 0;
    while zeros < 16 && b[zeros] == 0
        invariant
            zeros <= 16,
            forall|k: int| 0 <= k < zeros ==> (#[trigger] b@[k]) == 0,
        ensures
            zeros <= 16,
            forall|k: int| 0 <= k < zeros ==> (#[trigger] b@[k]) == 0,
            zeros < 16 ==> b@[zeros as int] != 0,
        decreases 16 - zeros,
    {
        zeros = zeros + 1;
    }
    let is_mapped = zeros >= 10 && b[10] == 0xff && b[11] == 0xff;
    assert(is_mapped == mapped(b@)) by {
        if zeros >= 10 {
            assert forall|k: int| 0 <= k < 10 implies (#[trigger] b@.take(10)[k]) == 0 by {
                assert(b@[k] == 0);
            }
        } else {
            assert(b@.take(10)[zeros as int] != 0);
        }
    }
    if is_mapped {
        let last = [b[12], b[13], b[14], b[15]];
        assert(last@ =~= b@.skip(12));
        return fmt_v4(&last);
    }
    let mut r = String::new();
    if zeros == 16 {
        assert(all_zero(b@));
        r.append("*");
        assert(r@ =~= "*"@);
        return r;
    }
    assert(!all_zero(b@)) by {
        assert(b@[zeros as int] != 0);
    }
    let mut start: usize = 0;
    let mut run: usize = zeros_from(b, 0);
    for i in 1..8usize
        invariant
            start < 8,
            start == longest_run(b@, i as int),
            run == zero_run(b@, start as int),
            start + run <= 8,
    {
        let here: usize = zeros_from(b, i);
        if here > run {
            start = i;
            run = here;
        }
    }
    if run >= 2 {
        push_segments(&mut r, b, 0, start);
        r.append("::");
        push_segments(&mut r, b, start + run, 8);
    } else {
        push_segments(&mut r, b, 0, 8);
    }
    assert(r@ =~= v6_plain(b@));
    r
}

} // verus!
