//! Sockets and processes on Linux, from what `procfs` holds. The tables under `/proc/net` name
//! the sockets by their inodes, and the links under `/proc/<pid>/fd` say who holds which.

pub mod holders;
pub mod net;
pub mod process;

use crate::model;
use crate::model::{Entry, EntryView, Proto, Scan};
use crate::sys::addr;
use crate::sys::linux::holders::{ProcDir, ProcDirView};
use crate::sys::linux::net::{RawSock, RawSockView};
use crate::sys::linux::process::{ProcFiles, ProcFilesView};
use crate::sys::meta;
use crate::sys::meta::{ProcMeta, ProcMetaView};
use crate::sys::user;
use crate::sys::user::User;
use std::collections::HashSet;
use vstd::prelude::*;

verus! {

broadcast use vstd::std_specs::hash::group_hash_axioms;

/// The tables under `/proc/net`. One that is not there belongs to a protocol that the kernel
/// does not have.
pub struct NetFiles {
    pub tcp: Option<String>,
    pub tcp6: Option<String>,
    pub udp: Option<String>,
    pub udp6: Option<String>,
    /// Whether `/proc/net/tcp` is there.
    pub tcp_exists: bool,
}

/// What was read of the process `pid`.
pub struct Process {
    pub pid: i32,
    pub files: ProcFiles,
}

/// The sockets of a table that may not be there.
pub open spec fn socks_in(
    table: Option<String>,
    proto: Proto,
    v6: bool,
    big: bool,
) -> Seq<RawSockView> {
    match table {
        Some(t) => net::table_socks(t@, proto, v6, big),
        None => Seq::<RawSockView>::empty(),
    }
}

/// The sockets of all tables.
pub open spec fn all_socks(f: NetFiles, big: bool) -> Seq<RawSockView> {
    socks_in(f.tcp, Proto::Tcp, false, big) + socks_in(f.tcp6, Proto::Tcp, true, big) + socks_in(
        f.udp,
        Proto::Udp,
        false,
        big,
    ) + socks_in(f.udp6, Proto::Udp, true, big)
}

/// What was read of a process, if anything was.
pub open spec fn files_of(procs: Seq<Process>, pid: i32) -> Option<ProcFilesView>
    decreases procs.len(),
{
    if procs.len() == 0 {
        None
    } else if procs[0].pid == pid {
        Some(procs[0].files@)
    } else {
        files_of(procs.drop_first(), pid)
    }
}

/// What is known of a process, where enough was read of it.
pub open spec fn meta_for(procs: Seq<Process>, pid: i32, btime: nat, hz: nat) -> Option<
    ProcMetaView,
> {
    match files_of(procs, pid) {
        Some(f) => process::meta_of(f, btime, hz),
        None => None,
    }
}

/// The entry for a socket and one of the processes that hold it.
pub open spec fn entry_for(
    s: RawSockView,
    pid: i32,
    m: ProcMetaView,
    users: Seq<User>,
) -> EntryView {
    EntryView {
        proto: s.proto,
        state: s.state,
        local_addr: s.local_addr,
        local_port: s.local_port,
        remote_addr: s.remote_addr,
        remote_port: s.remote_port,
        pid,
        proc_name: m.name,
        exe: m.exe,
        cmdline: m.cmdline,
        user: user::user_for(users, m.uid),
        uid: m.uid,
        ppid: m.ppid,
        start_time: m.start_time as u64,
    }
}

/// What was read apart from the tables.
pub struct Context<'a> {
    /// The directories under `/proc`.
    pub dirs: &'a [ProcDir],
    pub procs: &'a [Process],
    pub users: &'a [User],
    /// When the system started.
    pub btime: u64,
    /// How many ticks a second has.
    pub hz: u64,
}

/// The entries for a socket and the given processes: one for each that enough is known of.
pub open spec fn entries_for(s: RawSockView, pids: Seq<i32>, c: Context) -> Seq<EntryView>
    decreases pids.len(),
{
    if pids.len() == 0 {
        Seq::<EntryView>::empty()
    } else {
        let before = entries_for(s, pids.drop_last(), c);
        match meta_for(c.procs@, pids.last(), c.btime as nat, c.hz as nat) {
            Some(m) => before.push(entry_for(s, pids.last(), m, c.users@)),
            None => before,
        }
    }
}

/// The entries for a socket: one for each process that holds it. A socket without a port has
/// none.
pub open spec fn sock_entries(s: RawSockView, c: Context) -> Seq<EntryView> {
    if s.local_port == 0 {
        Seq::<EntryView>::empty()
    } else {
        entries_for(s, holders::holders(holders::dir_views(c.dirs@), s.inode), c)
    }
}

/// The entries for the given sockets.
pub open spec fn scan_entries(socks: Seq<RawSockView>, c: Context) -> Seq<EntryView>
    decreases socks.len(),
{
    if socks.len() == 0 {
        Seq::<EntryView>::empty()
    } else {
        scan_entries(socks.drop_last(), c) + sock_entries(socks.last(), c)
    }
}

/// Whether all moments at which processes started can be counted in 64 bits.
pub open spec fn countable(c: Context) -> bool {
    forall|i: int|
        0 <= i < c.procs@.len() ==> process::countable(
            (#[trigger] c.procs@[i]).files@,
            c.btime as nat,
            c.hz as nat,
        )
}

/// What is said where there is no `procfs`.
pub open spec fn no_procfs() -> Seq<char> {
    "/proc/net/tcp 不存在，这个系统看起来没挂载 procfs"@
}

/// Whether a result is what a scan finds on a machine of the given order.
pub open spec fn scan_result(r: Result<Scan, String>, f: NetFiles, c: Context, big: bool) -> bool {
    let socks = all_socks(f, big);
    if socks.len() == 0 && !f.tcp_exists {
        r matches Err(e) && e@ == no_procfs()
    } else {
        &&& r matches Ok(s)
        &&& model::entry_views(s.entries@) == scan_entries(socks, c)
        &&& s.skipped == holders::unreadable_count(holders::dir_views(c.dirs@))
    }
}

/// Adds the sockets of a table that may not be there.
fn push_socks(table: &Option<String>, proto: Proto, v6: bool, big: bool, out: &mut Vec<RawSock>)
    ensures
        net::sock_views(final(out)@) == net::sock_views(old(out)@) + socks_in(
            *table,
            proto,
            v6,
            big,
        ),
{
    match table {
        Some(t) => net::parse_net_in(t.as_str(), proto, v6, big, out),
        None => {
            assert(net::sock_views(out@) + Seq::<RawSockView>::empty() =~= net::sock_views(out@));
        },
    }
}

/// The sockets of all tables on a machine of the given order.
pub fn sockets(f: &NetFiles, big: bool) -> (r: Vec<RawSock>)
    ensures
        net::sock_views(r@) == all_socks(*f, big),
{
    let mut socks: Vec<RawSock> = Vec::new();
    push_socks(&f.tcp, Proto::Tcp, false, big, &mut socks);
    push_socks(&f.tcp6, Proto::Tcp, true, big, &mut socks);
    push_socks(&f.udp, Proto::Udp, false, big, &mut socks);
    push_socks(&f.udp6, Proto::Udp, true, big, &mut socks);
    assert(net::sock_views(socks@) =~= all_socks(*f, big));
    socks
}

/// The inodes of the sockets.
fn inodes(socks: &Vec<RawSock>) -> (r: HashSet<u64>)
    ensures
        forall|i: int| 0 <= i < socks@.len() ==> r@.contains((#[trigger] socks@[i]).inode),
{
    let mut r: HashSet<u64> = HashSet::new();
    for i in 0..socks.len()
        invariant
            forall|k: int| 0 <= k < i ==> r@.contains((#[trigger] socks@[k]).inode),
    {
        r.insert(socks[i].inode);
    }
    r
}

/// What is known of each process.
fn metas(procs: &[Process], btime: u64, hz: u64) -> (r: Vec<Option<ProcMeta>>)
    requires
        forall|i: int|
            0 <= i < procs@.len() ==> process::countable(
                (#[trigger] procs@[i]).files@,
                btime as nat,
                hz as nat,
            ),
    ensures
        r@.len() == procs@.len(),
        forall|i: int|
            0 <= i < procs@.len() ==> meta::meta_view(#[trigger] r@[i]) == process::meta_of(
                procs@[i].files@,
                btime as nat,
                hz as nat,
            ),
{
    let mut r: Vec<Option<ProcMeta>> = Vec::new();
    for i in 0..procs.len()
        invariant
            forall|k: int|
                0 <= k < procs@.len() ==> process::countable(
                    (#[trigger] procs@[k]).files@,
                    btime as nat,
                    hz as nat,
                ),
            r@.len() == i,
            forall|k: int|
                0 <= k < i ==> meta::meta_view(#[trigger] r@[k]) == process::meta_of(
                    procs@[k].files@,
                    btime as nat,
                    hz as nat,
                ),
    {
        assert(process::countable(procs@[i as int].files@, btime as nat, hz as nat));
        r.push(process::proc_meta(&procs[i].files, btime, hz));
    }
    r
}

/// Where a process stands among those that were read.
fn find_process(procs: &[Process], pid: i32) -> (r: Option<usize>)
    ensures
        match r {
            Some(i) => i < procs@.len() && files_of(procs@, pid) == Some(procs@[i as int].files@),
            None => files_of(procs@, pid) is None,
        },
{
    assert(procs@.skip(0) =~= procs@);
    for i in 0..procs.len()
        invariant
            files_of(procs@, pid) == files_of(procs@.skip(i as int), pid),
    {
        let ghost rest = procs@.skip(i as int);
        assert(rest[0] == procs@[i as int]);
        assert(rest.drop_first() =~= procs@.skip(i + 1));
        if procs[i].pid == pid {
            return Some(i);
        }
    }
    None
}

/// The entry for a socket and one of the processes that hold it.
fn make_entry(s: &RawSock, pid: i32, m: &ProcMeta, users: &[User]) -> (r: Entry)
    ensures
        r@ == entry_for(s@, pid, m@, users@),
{
    Entry {
        proto: s.proto,
        state: s.state,
        local_addr: s.local_addr.clone(),
        local_port: s.local_port,
        remote_addr: model::copy_opt(&s.remote_addr),
        remote_port: s.remote_port,
        pid,
        proc_name: m.name.clone(),
        exe: model::copy_opt(&m.exe),
        cmdline: model::copy_opt(&m.cmdline),
        user: user::user_name(users, m.uid),
        uid: m.uid,
        ppid: m.ppid,
        start_time: m.start_time,
    }
}

/// Adds the entries for a socket and the processes that hold it.
fn push_entries(
    out: &mut Vec<Entry>,
    s: &RawSock,
    pids: &Vec<i32>,
    known: &Vec<Option<ProcMeta>>,
    c: &Context,
)
    requires
        known@.len() == c.procs@.len(),
        forall|i: int|
            0 <= i < c.procs@.len() ==> meta::meta_view(#[trigger] known@[i])
                == process::meta_of(c.procs@[i].files@, c.btime as nat, c.hz as nat),
    ensures
        model::entry_views(final(out)@) == model::entry_views(old(out)@) + entries_for(
            s@,
            pids@,
            *c,
        ),
{
    let ghost start = model::entry_views(out@);
    assert(model::entry_views(out@) =~= start + entries_for(s@, pids@.take(0), *c));
    for i in 0..pids.len()
        invariant
            known@.len() == c.procs@.len(),
            forall|k: int|
                0 <= k < c.procs@.len() ==> meta::meta_view(#[trigger] known@[k])
                    == process::meta_of(c.procs@[k].files@, c.btime as nat, c.hz as nat),
            model::entry_views(out@) == start + entries_for(s@, pids@.take(i as int), *c),
    {
        let ghost before = out@;
        let pid: i32 = pids[i];
        assert(pids@.take(i + 1).drop_last() =~= pids@.take(i as int));
        assert(pids@.take(i + 1).last() == pid);
        let at = find_process(c.procs, pid);
        if let Some(k) = at {
            assert(meta::meta_view(known@[k as int]) == meta_for(
                c.procs@,
                pid,
                c.btime as nat,
                c.hz as nat,
            ));
            if let Some(m) = &known[k] {
                let e = make_entry(s, pid, m, c.users);
                out.push(e);
                assert(model::entry_views(out@) =~= model::entry_views(before).push(e@));
            }
        }
        assert(model::entry_views(out@) =~= start + entries_for(s@, pids@.take(i + 1), *c));
    }
    assert(pids@.take(pids@.len() as int) =~= pids@);
}

/// What a scan finds on a machine of the given order.
pub fn scan_in(f: &NetFiles, c: &Context, big: bool) -> (r: Result<Scan, String>)
    requires
        countable(*c),
    ensures
        scan_result(r, *f, *c, big),
{
    let socks = sockets(f, big);
    if socks.len() == 0 && !f.tcp_exists {
        let mut e = String::new();
        e.append("/proc/net/tcp 不存在，这个系统看起来没挂载 procfs");
        assert(e@ =~= no_procfs());
        return Err(e);
    }
    let ghost all = net::sock_views(socks@);
    let ghost dirs = holders::dir_views(c.dirs@);
    let wanted = inodes(&socks);
    let (map, skipped) = holders::map_inodes_to_pids(&wanted, c.dirs);
    let known = metas(c.procs, c.btime, c.hz);
    let mut entries: Vec<Entry> = Vec::new();
    assert(model::entry_views(entries@) =~= scan_entries(all.take(0), *c));
    for i in 0..socks.len()
        invariant
            all == net::sock_views(socks@),
            dirs == holders::dir_views(c.dirs@),
            forall|k: int| 0 <= k < socks@.len() ==> wanted@.contains((#[trigger] socks@[k]).inode),
            forall|k: u64|
                #![trigger map@.contains_key(k)]
                map@.contains_key(k) == (wanted@.contains(k) && holders::holders(dirs, k).len() > 0)
                    && (map@.contains_key(k) ==> map@[k]@ == holders::holders(dirs, k)),
            known@.len() == c.procs@.len(),
            forall|k: int|
                0 <= k < c.procs@.len() ==> meta::meta_view(#[trigger] known@[k])
                    == process::meta_of(c.procs@[k].files@, c.btime as nat, c.hz as nat),
            model::entry_views(entries@) == scan_entries(all.take(i as int), *c),
    {
        let s = &socks[i];
        assert(all.take(i + 1).drop_last() =~= all.take(i as int));
        assert(all.take(i + 1).last() == s@);
        let ghost before = model::entry_views(entries@);
        if s.local_port != 0 {
            match map.get(&s.inode) {
                Some(pids) => {
                    assert(map@.contains_key(s.inode));
                    push_entries(&mut entries, s, pids, &known, c);
                },
                None => {
                    assert(!map@.contains_key(s.inode));
                    assert(holders::holders(dirs, s.inode).len() == 0);
                },
            }
        }
        assert(model::entry_views(entries@) =~= before + sock_entries(s@, *c));
    }
    assert(all.take(all.len() as int) =~= all);
    Ok(Scan { entries, skipped })
}

/// What a scan finds, read in the byte order of the machine. A socket may have several holders,
/// such as a server and its workers: there is an entry for each.
pub fn scan(f: &NetFiles, c: &Context) -> (r: Result<Scan, String>)
    requires
        countable(*c),
    ensures
        exists|big: bool| addr::host_order(big) && #[trigger] scan_result(r, *f, *c, big),
{
    let big = addr::host_is_big();
    let r = scan_in(f, c, big);
    assert(scan_result(r, *f, *c, big));
    r
}

/// Whether a process holds one of the sockets that have a port.
pub open spec fn holds_any(socks: Seq<RawSockView>, dirs: Seq<ProcDirView>, pid: i32) -> bool {
    exists|i: int|
        0 <= i < socks.len() && (#[trigger] socks[i]).local_port != 0 && holders::holders(
            dirs,
            socks[i].inode,
        ).contains(pid)
}

/// Whether the list holds exactly the processes that hold one of the sockets that have a port.
pub open spec fn lists_holders(r: Seq<i32>, f: NetFiles, dirs: Seq<ProcDirView>, big: bool) -> bool {
    &&& holders::ascending(r)
    &&& forall|p: i32| #[trigger] r.contains(p) == holds_any(all_socks(f, big), dirs, p)
}

proof fn lemma_holds_any_next(socks: Seq<RawSockView>, dirs: Seq<ProcDirView>, n: int, p: i32)
    requires
        0 <= n < socks.len(),
    ensures
        holds_any(socks.take(n + 1), dirs, p) == (holds_any(socks.take(n), dirs, p) || (
        socks[n].local_port != 0 && holders::holders(dirs, socks[n].inode).contains(p))),
{
    let a = socks.take(n);
    let b = socks.take(n + 1);
    assert(b[n] == socks[n]);
    if holds_any(a, dirs, p) {
        let k = choose|k: int|
            0 <= k < a.len() && (#[trigger] a[k]).local_port != 0 && holders::holders(
                dirs,
                a[k].inode,
            ).contains(p);
        assert(b[k] == a[k]);
    }
    if holds_any(b, dirs, p) {
        let k = choose|k: int|
            0 <= k < b.len() && (#[trigger] b[k]).local_port != 0 && holders::holders(
                dirs,
                b[k].inode,
            ).contains(p);
        if k < n {
            assert(a[k] == b[k]);
        }
    }
}

/// Adds processes to those in ascending order.
fn add_all(list: Vec<i32>, pids: &Vec<i32>) -> (r: Vec<i32>)
    requires
        holders::ascending(list@),
    ensures
        holders::ascending(r@),
        forall|p: i32| #[trigger] r@.contains(p) == (list@.contains(p) || pids@.contains(p)),
{
    let ghost start = list@;
    let mut list = list;
    for i in 0..pids.len()
        invariant
            holders::ascending(list@),
            forall|p: i32| #[trigger]
                list@.contains(p) == (start.contains(p) || pids@.take(i as int).contains(p)),
    {
        let ghost before = list@;
        let p: i32 = pids[i];
        proof {
            holders::lemma_with_pid(before, p);
        }
        list = holders::add_pid(&list, p);
        let ghost a = pids@.take(i as int);
        let ghost b = pids@.take(i + 1);
        assert forall|q: i32| #[trigger] list@.contains(q) == (start.contains(q) || b.contains(
            q,
        )) by {
            assert(before.contains(q) == (start.contains(q) || a.contains(q)));
            assert(b[i as int] == p);
            if a.contains(q) {
                let k = choose|k: int| 0 <= k < a.len() && a[k] == q;
                assert(b[k] == q);
            }
            if b.contains(q) {
                let k = choose|k: int| 0 <= k < b.len() && b[k] == q;
                if k < i {
                    assert(a[k] == q);
                }
            }
        }
    }
    assert(pids@.take(pids@.len() as int) =~= pids@);
    list
}

/// The processes that are worth reading: those that hold one of the sockets that have a port.
pub fn holding(f: &NetFiles, dirs: &[ProcDir]) -> (r: Vec<i32>)
    ensures
        exists|big: bool|
            addr::host_order(big) && #[trigger] lists_holders(
                r@,
                *f,
                holders::dir_views(dirs@),
                big,
            ),
{
    let big = addr::host_is_big();
    let socks = sockets(f, big);
    let ghost all = net::sock_views(socks@);
    let ghost seen = holders::dir_views(dirs@);
    let wanted = inodes(&socks);
    let (map, _) = holders::map_inodes_to_pids(&wanted, dirs);
    let mut list: Vec<i32> = Vec::new();
    assert forall|p: i32| #[trigger] list@.contains(p) == holds_any(all.take(0), seen, p) by {}
    for i in 0..socks.len()
        invariant
            all == net::sock_views(socks@),
            seen == holders::dir_views(dirs@),
            forall|k: int| 0 <= k < socks@.len() ==> wanted@.contains((#[trigger] socks@[k]).inode),
            forall|k: u64|
                #![trigger map@.contains_key(k)]
                map@.contains_key(k) == (wanted@.contains(k) && holders::holders(seen, k).len() > 0)
                    && (map@.contains_key(k) ==> map@[k]@ == holders::holders(seen, k)),
            holders::ascending(list@),
            forall|p: i32| #[trigger]
                list@.contains(p) == holds_any(all.take(i as int), seen, p),
    {
        let s = &socks[i];
        assert(all[i as int] == s@);
        let ghost before = list@;
        if s.local_port != 0 {
            match map.get(&s.inode) {
                Some(pids) => {
                    assert(map@.contains_key(s.inode));
                    list = add_all(list, pids);
                },
                None => {
                    assert(!map@.contains_key(s.inode));
                    assert(holders::holders(seen, s.inode).len() == 0);
                },
            }
        }
        assert forall|p: i32| #[trigger] list@.contains(p) == holds_any(
            all.take(i + 1),
            seen,
            p,
        ) by {
            assert(before.contains(p) == holds_any(all.take(i as int), seen, p));
            lemma_holds_any_next(all, seen, i as int, p);
        }
    }
    assert(all.take(all.len() as int) =~= all);
    assert(lists_holders(list@, *f, seen, big));
    list
}

} // verus!
