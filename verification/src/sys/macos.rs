//! Sockets and processes on macOS, from what `libproc` and `sysctl` hand out.

pub mod layout;
pub mod process;
pub mod socket;

use crate::model;
use crate::model::{Entry, EntryView, Scan};
use crate::sys::addr;
use crate::sys::macos::process::ProcReplies;
use crate::sys::macos::socket::{Sock, SockView};
use crate::sys::meta::{ProcMeta, ProcMetaView};
use crate::sys::user;
use crate::sys::user::User;
use vstd::prelude::*;

verus! {

/// What the kernel wrote of a socket: a `struct socket_fdinfo`, and how many bytes of it the
/// kernel says it filled.
pub struct SockReply {
    pub bytes: Vec<u8>,
    pub got: i32,
}

/// A process: what the kernel says of its sockets, unless its descriptors could not be listed,
/// and of itself.
pub struct Process {
    pub pid: i32,
    pub sockets: Option<Vec<SockReply>>,
    pub replies: ProcReplies,
}

/// The entry for a socket of a process.
pub open spec fn entry_for(s: SockView, pid: i32, m: ProcMetaView, users: Seq<User>) -> EntryView {
    EntryView {
        proto: s.proto,
        state: s.state,
        local_addr: s.local_addr,
        local_port: s.local_port,
        remote_addr: s.remote_addr,
        remote_port: s.remote_port,
        pid,
        proc_name: m.name,
        exe: m.exe,
        cmdline: m.cmdline,
        user: user::user_for(users, m.uid),
        uid: m.uid,
        ppid: m.ppid,
        start_time: m.start_time as u64,
    }
}

/// The entries for the sockets of a process that have a port.
pub open spec fn sock_entries(
    replies: Seq<SockReply>,
    pid: i32,
    m: Option<ProcMetaView>,
    users: Seq<User>,
    big: bool,
) -> Seq<EntryView>
    decreases replies.len(),
{
    if replies.len() == 0 {
        Seq::<EntryView>::empty()
    } else {
        let before = sock_entries(replies.drop_last(), pid, m, users, big);
        match (socket::sock_of(replies.last().bytes@, replies.last().got, big), m) {
            (Some(s), Some(m)) => if s.local_port != 0 {
                before.push(entry_for(s, pid, m, users))
            } else {
                before
            },
            _ => before,
        }
    }
}

/// The entries of a process. The kernel itself and slots without a process have none.
pub open spec fn proc_entries(p: Process, users: Seq<User>, big: bool) -> Seq<EntryView> {
    match p.sockets {
        Some(replies) => if p.pid > 0 {
            sock_entries(replies@, p.pid, process::meta_of(p.replies@, big), users, big)
        } else {
            Seq::<EntryView>::empty()
        },
        None => Seq::<EntryView>::empty(),
    }
}

/// The entries of the given processes.
pub open spec fn scan_entries(procs: Seq<Process>, users: Seq<User>, big: bool) -> Seq<EntryView>
    decreases procs.len(),
{
    if procs.len() == 0 {
        Seq::<EntryView>::empty()
    } else {
        scan_entries(procs.drop_last(), users, big) + proc_entries(procs.last(), users, big)
    }
}

/// How many processes there are whose descriptors could not be listed.
pub open spec fn unreadable_count(procs: Seq<Process>) -> nat
    decreases procs.len(),
{
    if procs.len() == 0 {
        0
    } else {
        unreadable_count(procs.drop_last()) + if procs.last().pid > 0 && procs.last().sockets is None {
            1nat
        } else {
            0nat
        }
    }
}

/// Whether a result is what a scan finds on a machine of the given order.
pub open spec fn scan_result(r: Scan, procs: Seq<Process>, users: Seq<User>, big: bool) -> bool {
    &&& model::entry_views(r.entries@) == scan_entries(procs, users, big)
    &&& r.skipped == unreadable_count(procs)
}

/// Whether the arguments of all processes are no longer than what was written of them.
pub open spec fn within(procs: Seq<Process>) -> bool {
    forall|i: int| 0 <= i < procs.len() ==> process::within((#[trigger] procs[i]).replies@)
}

/// The entry for a socket of a process.
fn make_entry(s: Sock, pid: i32, m: &ProcMeta, users: &[User]) -> (r: Entry)
    ensures
        r@ == entry_for(s@, pid, m@, users@),
{
    Entry {
        proto: s.proto,
        state: s.state,
        local_addr: s.local_addr,
        local_port: s.local_port,
        remote_addr: s.remote_addr,
        remote_port: s.remote_port,
        pid,
        proc_name: m.name.clone(),
        exe: model::copy_opt(&m.exe),
        cmdline: model::copy_opt(&m.cmdline),
        user: user::user_name(users, m.uid),
        uid: m.uid,
        ppid: m.ppid,
        start_time: m.start_time,
    }
}

/// Adds the entries of a process that is known.
fn push_entries(
    out: &mut Vec<Entry>,
    replies: &Vec<SockReply>,
    pid: i32,
    m: &ProcMeta,
    users: &[User],
    big: bool,
)
    ensures
        model::entry_views(final(out)@) == model::entry_views(old(out)@) + sock_entries(
            replies@,
            pid,
            Some(m@),
            users@,
            big,
        ),
{
    let ghost start = model::entry_views(out@);
    assert(model::entry_views(out@) =~= start + sock_entries(
        replies@.take(0),
        pid,
        Some(m@),
        users@,
        big,
    ));
    for i in 0..replies.len()
        invariant
            model::entry_views(out@) == start + sock_entries(
                replies@.take(i as int),
                pid,
                Some(m@),
                users@,
                big,
            ),
    {
        let ghost before = out@;
        assert(replies@.take(i + 1).drop_last() =~= replies@.take(i as int));
        assert(replies@.take(i + 1).last() == replies@[i as int]);
        let sock = socket::socket_info(replies[i].bytes.as_slice(), replies[i].got, big);
        if let Some(s) = sock {
            if s.local_port != 0 {
                let e = make_entry(s, pid, m, users);
                out.push(e);
                assert(model::entry_views(out@) =~= model::entry_views(before).push(e@));
            }
        }
        assert(model::entry_views(out@) =~= start + sock_entries(
            replies@.take(i + 1),
            pid,
            Some(m@),
            users@,
            big,
        ));
    }
    assert(replies@.take(replies@.len() as int) =~= replies@);
}

/// A process of which nothing is known has no entries.
proof fn lemma_unknown(replies: Seq<SockReply>, pid: i32, users: Seq<User>, big: bool)
    ensures
        sock_entries(replies, pid, None, users, big).len() == 0,
    decreases replies.len(),
{
    if replies.len() > 0 {
        lemma_unknown(replies.drop_last(), pid, users, big);
    }
}

/// What a scan finds on a machine of the given order.
pub fn scan_in(procs: &[Process], users: &[User], big: bool) -> (r: Scan)
    requires
        within(procs@),
    ensures
        scan_result(r, procs@, users@, big),
{
    let mut entries: Vec<Entry> = Vec::new();
    let mut skipped: usize = 0;
    assert(model::entry_views(entries@) =~= scan_entries(procs@.take(0), users@, big));
    for i in 0..procs.len()
        invariant
            within(procs@),
            model::entry_views(entries@) == scan_entries(procs@.take(i as int), users@, big),
            skipped == unreadable_count(procs@.take(i as int)),
            skipped <= i,
    {
        let p = &procs[i];
        assert(procs@.take(i + 1).drop_last() =~= procs@.take(i as int));
        assert(procs@.take(i + 1).last() == *p);
        assert(process::within(procs@[i as int].replies@));
        let ghost before = model::entry_views(entries@);
        if p.pid > 0 {
            match &p.sockets {
                Some(replies) => match process::proc_meta(&p.replies, big) {
                    Some(m) => push_entries(&mut entries, replies, p.pid, &m, users, big),
                    None => {
                        proof {
                            lemma_unknown(replies@, p.pid, users@, big);
                        }
                    },
                },
                None => {
                    skipped = skipped + 1;
                },
            }
        }
        assert(model::entry_views(entries@) =~= before + proc_entries(*p, users@, big));
    }
    assert(procs@.take(procs@.len() as int) =~= procs@);
    Scan { entries, skipped }
}

/// What a scan finds, read in the byte order of the machine.
pub fn scan(procs: &[Process], users: &[User]) -> (r: Scan)
    requires
        within(procs@),
    ensures
        exists|big: bool|
            addr::host_order(big) && #[trigger] scan_result(r, procs@, users@, big),
{
    let big = addr::host_is_big();
    let r = scan_in(procs, users, big);
    assert(scan_result(r, procs@, users@, big));
    r
}

} // verus!
