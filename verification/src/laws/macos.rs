//! Laws of a scan on macOS: what it tells of a socket and of its process stands in what the
//! kernel handed out, byte by byte, and it tells of nothing else.

use crate::laws::process as read;
use crate::laws::scan;
use crate::model::{EntryView, Proto, Scan, TcpState};
use crate::sys::addr;
use crate::sys::bytes;
use crate::sys::macos;
use crate::sys::macos::layout;
use crate::sys::macos::process;
use crate::sys::macos::process::ProcRepliesView;
use crate::sys::macos::socket;
use crate::sys::macos::{Process, SockReply};
use crate::sys::user::User;
use crate::text;
use vstd::prelude::*;

verus! {

/// The number that four bytes from `at` on make up: the highest comes first where `big` holds,
/// else last.
pub open spec fn four(b: Seq<u8>, at: int, big: bool) -> int {
    if big {
        b[at] * 0x100_0000 + b[at + 1] * 0x1_0000 + b[at + 2] * 0x100 + b[at + 3]
    } else {
        b[at] + b[at + 1] * 0x100 + b[at + 2] * 0x1_0000 + b[at + 3] * 0x100_0000
    }
}

/// The number with a sign that a number without one stands for.
pub open spec fn with_sign(n: int) -> int {
    if n >= 0x8000_0000 {
        n - 0x1_0000_0000
    } else {
        n
    }
}

/// The port that four bytes from `at` on hold: its two bytes are in network order, the higher
/// first, wherever the machine keeps the low half of the number.
pub open spec fn port_at(b: Seq<u8>, at: int, big: bool) -> int {
    if big {
        b[at + 2] * 0x100 + b[at + 3]
    } else {
        b[at] * 0x100 + b[at + 1]
    }
}

/// The state that a number of the kernel stands for.
pub open spec fn numbered_state(n: int) -> TcpState {
    if 0 <= n <= 10 {
        seq![
            TcpState::Closed,
            TcpState::Listen,
            TcpState::SynSent,
            TcpState::SynRecv,
            TcpState::Established,
            TcpState::CloseWait,
            TcpState::FinWait1,
            TcpState::Closing,
            TcpState::LastAck,
            TcpState::FinWait2,
            TcpState::TimeWait,
        ][n]
    } else {
        TcpState::Unknown
    }
}

/// How the sixteen bytes of an address from `at` on are shown: an IPv4 address takes the last
/// four.
pub open spec fn addr_at(b: Seq<u8>, at: int) -> Seq<char> {
    if b[288] & 2 != 0 && b[288] & 1 == 0 {
        addr::v6_text(b.subrange(at, at + 16))
    } else {
        scan::dotted(b.subrange(at + 12, at + 16))
    }
}

/// Whether an entry tells of the socket that a `struct socket_fdinfo` describes.
pub open spec fn tells_socket(e: EntryView, b: Seq<u8>, big: bool) -> bool {
    &&& four(b, 256, big) == 2 ==> e.proto == Proto::Tcp && e.state == Some(
        numbered_state(with_sign(four(b, 344, big))),
    )
    &&& four(b, 256, big) == 1 ==> e.proto == Proto::Udp && e.state is None
    &&& e.local_addr == addr_at(b, 312)
    &&& e.local_port == port_at(b, 268, big)
    &&& e.remote_port == port_at(b, 264, big)
    &&& four(b, 264, big) == 0 ==> e.remote_addr is None
    &&& four(b, 264, big) != 0 ==> e.remote_addr == Some(addr_at(b, 296))
}

/// Whether a reply describes a socket of the internet, and the whole of it.
pub open spec fn describes(s: SockReply, big: bool) -> bool {
    &&& s.got == 792
    &&& s.bytes@.len() == 792
    &&& four(s.bytes@, 256, big) == 1 || four(s.bytes@, 256, big) == 2
}

/// Whether a text is that of the bytes in front of the first zero byte.
pub open spec fn tells_field(name: Seq<char>, b: Seq<u8>) -> bool {
    &&& forall|n: int|
        0 <= n < b.len() && #[trigger] b[n] == 0 && read::zero_free(b.take(n)) ==> name
            == bytes::utf8_lossy(b.take(n))
    &&& read::zero_free(b) ==> name == bytes::utf8_lossy(b)
}

/// Whether a name is that of a process: what it calls itself, else the last part of the path of
/// its executable, else a question mark.
pub open spec fn tells_name(name: Seq<char>, b: Seq<u8>, exe: Option<Seq<char>>) -> bool {
    exists|own: Seq<char>| #[trigger]
        tells_field(own, b) && (own.len() > 0 ==> name == own) && (own.len() == 0
            ==> scan::tells_fallback(name, exe))
}

/// Whether a path is what the kernel wrote of it, where that is UTF-8.
pub open spec fn tells_path(exe: Option<Seq<char>>, b: Seq<u8>, got: i32) -> bool {
    let used = if got < b.len() {
        b.take(got as int)
    } else {
        b
    };
    if got > 0 && vstd::utf8::valid_utf8(used) {
        exe == Some(vstd::utf8::decode_utf8(used))
    } else {
        exe is None
    }
}

/// Whether a command line is made of the arguments that the kernel handed out, and of nothing in
/// front of them or behind.
pub open spec fn tells_arguments(cmdline: Option<Seq<char>>, f: ProcRepliesView, big: bool) -> bool {
    &&& f.args_rc != 0 || f.args_len < 4 ==> cmdline is None
    &&& forall|
        count: Seq<u8>,
        path: Seq<u8>,
        padding: nat,
        args: Seq<Seq<u8>>,
        environment: Seq<u8>,
    |
        {
            &&& f.args_rc == 0
            &&& f.args_len >= 4
            &&& f.args.take(f.args_len as int) == #[trigger] read::handed_out(
                count,
                path,
                padding,
                args,
                environment,
            )
            &&& count.len() == 4
            &&& four(count, 0, big) == args.len()
            &&& read::zero_free(path)
            &&& forall|i: int| 0 <= i < args.len() ==> read::zero_free(#[trigger] args[i])
            &&& args.len() > 0 ==> args[0].len() > 0
        } ==> {
            let line = text::trim(
                text::join(args.map_values(|p: Seq<u8>| bytes::utf8_lossy(p)), seq![' ']),
            );
            cmdline == if line.len() == 0 {
                None
            } else {
                Some(line)
            }
        }
}

/// Whether an entry tells of a process what the kernel says of it.
pub open spec fn tells_process(e: EntryView, p: Process, users: Seq<User>, big: bool) -> bool {
    let f = p.replies@;
    &&& e.pid == p.pid
    &&& e.uid == four(f.bsd, 20, big)
    &&& e.ppid == with_sign(four(f.bsd, 16, big))
    &&& e.start_time == if big {
        four(f.bsd, 120, big) * 0x1_0000_0000 + four(f.bsd, 124, big)
    } else {
        four(f.bsd, 124, big) * 0x1_0000_0000 + four(f.bsd, 120, big)
    }
    &&& tells_path(e.exe, f.path, f.path_got)
    &&& tells_name(e.proc_name, f.bsd.subrange(64, 96), e.exe)
    &&& tells_arguments(e.cmdline, f, big)
    &&& scan::tells_user(e.user, users, e.uid)
}

/// Whether the kernel said who a process is.
pub open spec fn is_known(p: Process) -> bool {
    p.replies@.bsd_got == 136 && p.replies@.bsd.len() == 136
}

proof fn lemma_four(b: Seq<u8>, at: int, big: bool)
    ensures
        0 <= four(b, at, big) < 0x1_0000_0000,
        layout::u32_at(b, at, big) == four(b, at, big),
        layout::u32_at(b, at, big) as i32 == with_sign(four(b, at, big)),
{
    let w = layout::u32_at(b, at, big);
    lemma_sign(w);
}

proof fn lemma_sign(w: u32)
    ensures
        w as i32 == with_sign(w as int),
{
    assert(w < 0x8000_0000 ==> w as i32 as i64 == w as i64) by (bit_vector);
    assert(w >= 0x8000_0000 ==> w as i32 as i64 == w as i64 - 0x1_0000_0000) by (bit_vector);
}

proof fn lemma_port(b: Seq<u8>, at: int, big: bool)
    ensures
        socket::port_of(layout::u32_at(b, at, big) as i32, big) == port_at(b, at, big),
{
    let w = layout::u32_at(b, at, big);
    assert((w as i32) as u32 == w) by (bit_vector);
    let low = w % 0x1_0000;
    lemma_four(b, at, big);
    if big {
        assert(low == b[at + 2] * 0x100 + b[at + 3]);
    } else {
        assert(low == b[at] + b[at + 1] * 0x100);
        assert(low % 0x100 == b[at]);
        assert(low / 0x100 == b[at + 1]);
    }
}

proof fn lemma_sock_told(b: Seq<u8>, got: i32, big: bool)
    requires
        got == 792,
        b.len() == 792,
    ensures
        (socket::sock_of(b, got, big) is Some) == (four(b, 256, big) == 1 || four(b, 256, big)
            == 2),
        socket::sock_of(b, got, big) matches Some(s) ==> {
            &&& four(b, 256, big) == 2 ==> s.proto == Proto::Tcp && s.state == Some(
                numbered_state(with_sign(four(b, 344, big))),
            )
            &&& four(b, 256, big) == 1 ==> s.proto == Proto::Udp && s.state is None
            &&& s.local_addr == addr_at(b, 312)
            &&& s.local_port == port_at(b, 268, big)
            &&& s.remote_port == port_at(b, 264, big)
            &&& four(b, 264, big) == 0 ==> s.remote_addr is None
            &&& four(b, 264, big) != 0 ==> s.remote_addr == Some(addr_at(b, 296))
        },
{
    lemma_four(b, 256, big);
    lemma_four(b, 344, big);
    lemma_four(b, 264, big);
    lemma_port(b, 264, big);
    lemma_port(b, 268, big);
    let local = b.subrange(312, 328);
    let remote = b.subrange(296, 312);
    assert(local.skip(12) =~= b.subrange(324, 328));
    assert(remote.skip(12) =~= b.subrange(308, 312));
    scan::lemma_dotted(b.subrange(324, 328));
    scan::lemma_dotted(b.subrange(308, 312));
    assert(socket::state_of(with_sign(four(b, 344, big)) as i32) == numbered_state(
        with_sign(four(b, 344, big)),
    ));
}

proof fn lemma_field(b: Seq<u8>)
    ensures
        tells_field(process::field_text(b), b),
{
    assert forall|n: int|
        0 <= n < b.len() && #[trigger] b[n] == 0 && read::zero_free(
            b.take(n),
        ) implies process::field_text(b) == bytes::utf8_lossy(b.take(n)) by {
        assert forall|i: int| 0 <= i < n implies (#[trigger] b[i]) != 0 by {
            assert(b.take(n)[i] == b[i]);
        }
        read::lemma_zero_at(b, 0, n);
    }
    if read::zero_free(b) {
        lemma_no_zero(b, 0);
    }
}

proof fn lemma_no_zero(b: Seq<u8>, from: int)
    requires
        read::zero_free(b),
        0 <= from <= b.len(),
    ensures
        bytes::zero_at(b, from) is None,
    decreases b.len() - from,
{
    if from < b.len() {
        assert(b[from] != 0);
        lemma_no_zero(b, from + 1);
    }
}

proof fn lemma_arguments_told(f: ProcRepliesView, big: bool)
    ensures
        tells_arguments(process::cmdline_text(f, big), f, big),
{
    assert forall|
        count: Seq<u8>,
        path: Seq<u8>,
        padding: nat,
        args: Seq<Seq<u8>>,
        environment: Seq<u8>,
    |
        {
            &&& f.args_rc == 0
            &&& f.args_len >= 4
            &&& f.args.take(f.args_len as int) == #[trigger] read::handed_out(
                count,
                path,
                padding,
                args,
                environment,
            )
            &&& count.len() == 4
            &&& four(count, 0, big) == args.len()
            &&& read::zero_free(path)
            &&& forall|i: int| 0 <= i < args.len() ==> read::zero_free(#[trigger] args[i])
            &&& args.len() > 0 ==> args[0].len() > 0
        } implies {
        let line = text::trim(
            text::join(args.map_values(|p: Seq<u8>| bytes::utf8_lossy(p)), seq![' ']),
        );
        process::cmdline_text(f, big) == if line.len() == 0 {
            None
        } else {
            Some(line)
        }
    } by {
        lemma_four(count, 0, big);
        read::law_macos_arguments_read_back(count, path, padding, args, environment, big);
        assert(bytes::texts(args) =~= args.map_values(|p: Seq<u8>| bytes::utf8_lossy(p)));
    }
}

proof fn lemma_process_told(
    s: socket::SockView,
    p: Process,
    users: Seq<User>,
    big: bool,
)
    requires
        is_known(p),
    ensures
        process::meta_of(p.replies@, big) matches Some(m) && tells_process(
            macos::entry_for(s, p.pid, m, users),
            p,
            users,
            big,
        ),
{
    let f = p.replies@;
    let m = process::meta_of(f, big)->0;
    let e = macos::entry_for(s, p.pid, m, users);
    lemma_four(f.bsd, 20, big);
    lemma_four(f.bsd, 16, big);
    lemma_four(f.bsd, 120, big);
    lemma_four(f.bsd, 124, big);
    lemma_arguments_told(f, big);
    scan::lemma_tells_user(users, m.uid);
    scan::lemma_tells_fallback(e.exe);
    let b = f.bsd.subrange(64, 96);
    lemma_field(b);
    assert(tells_field(process::field_text(b), b));
    assert(tells_name(e.proc_name, b, e.exe));
}

proof fn lemma_reply_listed(
    replies: Seq<SockReply>,
    pid: i32,
    m: crate::sys::meta::ProcMetaView,
    users: Seq<User>,
    big: bool,
    k: int,
)
    requires
        0 <= k < replies.len(),
        socket::sock_of(replies[k].bytes@, replies[k].got, big) matches Some(s) && s.local_port
            != 0,
    ensures
        macos::sock_entries(replies, pid, Some(m), users, big).contains(
            macos::entry_for(
                socket::sock_of(replies[k].bytes@, replies[k].got, big)->0,
                pid,
                m,
                users,
            ),
        ),
    decreases replies.len(),
{
    let front = replies.drop_last();
    let before = macos::sock_entries(front, pid, Some(m), users, big);
    let all = macos::sock_entries(replies, pid, Some(m), users, big);
    let s = socket::sock_of(replies[k].bytes@, replies[k].got, big)->0;
    let e = macos::entry_for(s, pid, m, users);
    if k < front.len() {
        assert(front[k] == replies[k]);
        lemma_reply_listed(front, pid, m, users, big, k);
        let j = choose|j: int| 0 <= j < before.len() && before[j] == e;
        assert(all[j] == e);
    } else {
        assert(all[before.len() as int] == e);
    }
}

proof fn lemma_process_listed(
    procs: Seq<Process>,
    users: Seq<User>,
    big: bool,
    i: int,
    e: EntryView,
)
    requires
        0 <= i < procs.len(),
        macos::proc_entries(procs[i], users, big).contains(e),
    ensures
        macos::scan_entries(procs, users, big).contains(e),
    decreases procs.len(),
{
    let front = procs.drop_last();
    let before = macos::scan_entries(front, users, big);
    let own = macos::proc_entries(procs.last(), users, big);
    let all = macos::scan_entries(procs, users, big);
    if i < front.len() {
        assert(front[i] == procs[i]);
        lemma_process_listed(front, users, big, i, e);
        let j = choose|j: int| 0 <= j < before.len() && before[j] == e;
        assert(all[j] == e);
    } else {
        let j = choose|j: int| 0 <= j < own.len() && own[j] == e;
        assert(all[before.len() + j] == e);
    }
}

/// For every socket of the internet that has a port, of every process that is known, a scan has
/// an entry. It tells of the socket and of the process what the kernel says of them.
pub proof fn law_scan_tells_of_every_socket(
    r: Scan,
    procs: Seq<Process>,
    users: Seq<User>,
    big: bool,
    i: int,
    k: int,
)
    requires
        macos::scan_result(r, procs, users, big),
        0 <= i < procs.len(),
        procs[i].pid > 0,
        is_known(procs[i]),
        procs[i].sockets matches Some(replies) && 0 <= k < replies@.len() && describes(
            replies@[k],
            big,
        ) && port_at(replies@[k].bytes@, 268, big) != 0,
    ensures
        exists|j: int|
            {
                &&& 0 <= j < r.entries@.len()
                &&& tells_socket(
                    (#[trigger] r.entries@[j])@,
                    procs[i].sockets->0@[k].bytes@,
                    big,
                )
                &&& tells_process(r.entries@[j]@, procs[i], users, big)
            },
{
    let p = procs[i];
    let replies = p.sockets->0@;
    let b = replies[k].bytes@;
    lemma_sock_told(b, replies[k].got, big);
    let s = socket::sock_of(b, replies[k].got, big)->0;
    lemma_process_told(s, p, users, big);
    let m = process::meta_of(p.replies@, big)->0;
    let e = macos::entry_for(s, p.pid, m, users);
    lemma_reply_listed(replies, p.pid, m, users, big, k);
    lemma_process_listed(procs, users, big, i, e);
    let all = macos::scan_entries(procs, users, big);
    let j = choose|j: int| 0 <= j < all.len() && all[j] == e;
    assert(r.entries@[j]@ == e);
}

proof fn lemma_entry_of_reply(
    replies: Seq<SockReply>,
    pid: i32,
    m: Option<crate::sys::meta::ProcMetaView>,
    users: Seq<User>,
    big: bool,
    e: EntryView,
)
    requires
        macos::sock_entries(replies, pid, m, users, big).contains(e),
    ensures
        m is Some,
        exists|k: int|
            {
                &&& 0 <= k < replies.len()
                &&& socket::sock_of((#[trigger] replies[k]).bytes@, replies[k].got, big) matches Some(s)
                    && s.local_port != 0 && e == macos::entry_for(s, pid, m->0, users)
            },
    decreases replies.len(),
{
    if replies.len() > 0 {
        let front = replies.drop_last();
        let before = macos::sock_entries(front, pid, m, users, big);
        let all = macos::sock_entries(replies, pid, m, users, big);
        let j = choose|j: int| 0 <= j < all.len() && all[j] == e;
        if j < before.len() {
            assert(before[j] == e);
            lemma_entry_of_reply(front, pid, m, users, big, e);
            let k = choose|k: int|
                {
                    &&& 0 <= k < front.len()
                    &&& socket::sock_of((#[trigger] front[k]).bytes@, front[k].got, big) matches Some(s)
                        && s.local_port != 0 && e == macos::entry_for(s, pid, m->0, users)
                };
            assert(replies[k] == front[k]);
        } else {
            assert(replies[replies.len() - 1] == replies.last());
        }
    }
}

proof fn lemma_entry_of_process(procs: Seq<Process>, users: Seq<User>, big: bool, e: EntryView)
    requires
        macos::scan_entries(procs, users, big).contains(e),
    ensures
        exists|i: int|
            0 <= i < procs.len() && macos::proc_entries(#[trigger] procs[i], users, big).contains(
                e,
            ),
    decreases procs.len(),
{
    if procs.len() > 0 {
        let front = procs.drop_last();
        let before = macos::scan_entries(front, users, big);
        let own = macos::proc_entries(procs.last(), users, big);
        let all = macos::scan_entries(procs, users, big);
        let j = choose|j: int| 0 <= j < all.len() && all[j] == e;
        if j < before.len() {
            assert(before[j] == e);
            lemma_entry_of_process(front, users, big, e);
            let i = choose|i: int|
                0 <= i < front.len() && macos::proc_entries(
                    #[trigger] front[i],
                    users,
                    big,
                ).contains(e);
            assert(procs[i] == front[i]);
        } else {
            assert(own[j - before.len()] == e);
            assert(procs[procs.len() - 1] == procs.last());
        }
    }
}

/// Whether an entry tells of the socket of index `k` of the process.
pub open spec fn told_of(e: EntryView, p: Process, k: int, users: Seq<User>, big: bool) -> bool {
    &&& p.pid > 0
    &&& is_known(p)
    &&& p.sockets matches Some(replies) && 0 <= k < replies@.len() && describes(replies@[k], big)
        && port_at(replies@[k].bytes@, 268, big) != 0 && tells_socket(e, replies@[k].bytes@, big)
    &&& tells_process(e, p, users, big)
}

/// A scan tells of nothing else: each of its entries is that of a socket of a process.
pub proof fn law_scan_invents_nothing(
    r: Scan,
    procs: Seq<Process>,
    users: Seq<User>,
    big: bool,
    j: int,
)
    requires
        macos::scan_result(r, procs, users, big),
        0 <= j < r.entries@.len(),
    ensures
        exists|i: int, k: int|
            0 <= i < procs.len() && #[trigger] told_of(r.entries@[j]@, procs[i], k, users, big),
{
    let e = r.entries@[j]@;
    let all = macos::scan_entries(procs, users, big);
    assert(all[j] == e);
    lemma_entry_of_process(procs, users, big, e);
    let i = choose|i: int|
        0 <= i < procs.len() && macos::proc_entries(#[trigger] procs[i], users, big).contains(e);
    let p = procs[i];
    let replies = p.sockets->0@;
    let m = process::meta_of(p.replies@, big);
    lemma_entry_of_reply(replies, p.pid, m, users, big, e);
    let k = choose|k: int|
        {
            &&& 0 <= k < replies.len()
            &&& socket::sock_of((#[trigger] replies[k]).bytes@, replies[k].got, big) matches Some(s)
                && s.local_port != 0 && e == macos::entry_for(s, p.pid, m->0, users)
        };
    let s = socket::sock_of(replies[k].bytes@, replies[k].got, big)->0;
    lemma_sock_told(replies[k].bytes@, replies[k].got, big);
    lemma_process_told(s, p, users, big);
    assert(told_of(e, procs[i], k, users, big));
}

/// A scan counts the processes whose descriptors could not be listed, and no others.
pub proof fn law_scan_counts_what_it_cannot_see(
    r: Scan,
    procs: Seq<Process>,
    users: Seq<User>,
    big: bool,
)
    requires
        macos::scan_result(r, procs, users, big),
    ensures
        r.skipped == procs.filter(|p: Process| p.pid > 0 && p.sockets is None).len(),
{
    lemma_unreadable(procs);
}

proof fn lemma_unreadable(procs: Seq<Process>)
    ensures
        macos::unreadable_count(procs) == procs.filter(
            |p: Process| p.pid > 0 && p.sockets is None,
        ).len(),
    decreases procs.len(),
{
    reveal(Seq::filter);
    if procs.len() > 0 {
        lemma_unreadable(procs.drop_last());
    }
}

/// Each process has as many entries as it has sockets with a port, one behind the other.
pub proof fn law_one_entry_for_each_socket(
    a: Seq<SockReply>,
    s: SockReply,
    p: Process,
    users: Seq<User>,
    big: bool,
)
    requires
        is_known(p),
    ensures
        macos::sock_entries(
            a.push(s),
            p.pid,
            process::meta_of(p.replies@, big),
            users,
            big,
        ).len() == macos::sock_entries(
            a,
            p.pid,
            process::meta_of(p.replies@, big),
            users,
            big,
        ).len() + (if describes(s, big) && port_at(s.bytes@, 268, big) != 0 {
            1int
        } else {
            0int
        }),
{
    assert(a.push(s).drop_last() =~= a);
    if s.got == 792 && s.bytes@.len() == 792 {
        lemma_sock_told(s.bytes@, s.got, big);
    }
}

/// Whether the descriptor of index `i` is the given one and a socket.
pub open spec fn is_socket(b: Seq<u8>, i: int, big: bool, fd: i32) -> bool {
    four(b, 8 * i + 4, big) == 2 && with_sign(four(b, 8 * i, big)) == fd
}

/// The descriptors that are taken for sockets are exactly those of that type.
pub proof fn law_socket_descriptors(b: Seq<u8>, n: nat, big: bool, fd: i32)
    ensures
        socket::sockets_among(b, n, big).contains(fd) <==> exists|i: int|
            0 <= i < n && #[trigger] is_socket(b, i, big, fd),
    decreases n,
{
    if n > 0 {
        let m = n - 1;
        law_socket_descriptors(b, m as nat, big, fd);
        let before = socket::sockets_among(b, m as nat, big);
        let all = socket::sockets_among(b, n, big);
        lemma_four(b, 8 * m + 4, big);
        lemma_four(b, 8 * m, big);
        if before.contains(fd) {
            let k = choose|k: int| 0 <= k < before.len() && before[k] == fd;
            assert(all[k] == fd);
        }
        if all.contains(fd) {
            let k = choose|k: int| 0 <= k < all.len() && all[k] == fd;
            if k < before.len() {
                assert(before[k] == fd);
            } else {
                assert(is_socket(b, m, big, fd));
            }
        }
        if is_socket(b, m, big, fd) {
            assert(all[before.len() as int] == fd);
        }
    }
}

} // verus!
