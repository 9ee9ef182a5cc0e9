//! Laws of who holds which socket.

use crate::model::EntryView;
use crate::sys::linux;
use crate::sys::linux::holders;
use crate::sys::linux::holders::ProcDirView;
use crate::sys::linux::net::RawSockView;
use crate::sys::linux::Context;
use vstd::prelude::*;

verus! {

/// Whether some directory says that the process holds the socket.
pub open spec fn is_holder(dirs: Seq<ProcDirView>, inode: u64, pid: i32) -> bool {
    exists|i: int|
        0 <= i < dirs.len() && holders::holds(#[trigger] dirs[i], inode) && holders::dir_pid(
            dirs[i],
        ) == Some(pid as int)
}

/// The processes listed for a socket are exactly those that hold it, in ascending order and each
/// once, however the directories are ordered and however many descriptors a process has for it.
pub proof fn law_holders_are_all_and_each_once(dirs: Seq<ProcDirView>, inode: u64)
    ensures
        holders::ascending(holders::holders(dirs, inode)),
        forall|pid: i32| #[trigger]
            holders::holders(dirs, inode).contains(pid) == is_holder(dirs, inode, pid),
    decreases dirs.len(),
{
    holders::lemma_holders_ascending(dirs, inode);
    if dirs.len() > 0 {
        let front = dirs.drop_last();
        let d = dirs.last();
        law_holders_are_all_and_each_once(front, inode);
        let before = holders::holders(front, inode);
        let all = holders::holders(dirs, inode);
        lemma_pid_in_range(d);
        if holders::holds(d, inode) {
            holders::lemma_with_pid(before, holders::dir_pid(d)->0 as i32);
        }
        assert forall|pid: i32| #[trigger] all.contains(pid) == is_holder(dirs, inode, pid) by {
            assert(before.contains(pid) == is_holder(front, inode, pid));
            if is_holder(front, inode, pid) {
                let k = choose|k: int|
                    0 <= k < front.len() && holders::holds(#[trigger] front[k], inode)
                        && holders::dir_pid(front[k]) == Some(pid as int);
                assert(dirs[k] == front[k]);
            }
            assert(dirs[dirs.len() - 1] == d);
            if is_holder(dirs, inode, pid) {
                let k = choose|k: int|
                    0 <= k < dirs.len() && holders::holds(#[trigger] dirs[k], inode)
                        && holders::dir_pid(dirs[k]) == Some(pid as int);
                if k < front.len() {
                    assert(front[k] == dirs[k]);
                }
            }
        }
    }
}

proof fn lemma_pid_in_range(d: ProcDirView)
    ensures
        holders::dir_pid(d) matches Some(p) ==> i32::MIN <= p <= i32::MAX,
{
}

proof fn lemma_entry_listed(s: RawSockView, pids: Seq<i32>, c: Context, k: int)
    requires
        0 <= k < pids.len(),
        linux::meta_for(c.procs@, pids[k], c.btime as nat, c.hz as nat) is Some,
    ensures
        linux::entries_for(s, pids, c).contains(
            linux::entry_for(
                s,
                pids[k],
                linux::meta_for(c.procs@, pids[k], c.btime as nat, c.hz as nat)->0,
                c.users@,
            ),
        ),
    decreases pids.len(),
{
    let front = pids.drop_last();
    let before = linux::entries_for(s, front, c);
    let all = linux::entries_for(s, pids, c);
    let m = linux::meta_for(c.procs@, pids[k], c.btime as nat, c.hz as nat)->0;
    let e = linux::entry_for(s, pids[k], m, c.users@);
    if k < front.len() {
        assert(front[k] == pids[k]);
        lemma_entry_listed(s, front, c, k);
        let j = choose|j: int| 0 <= j < before.len() && before[j] == e;
        assert(all[j] == e);
    } else {
        assert(all[before.len() as int] == e);
    }
}

proof fn lemma_sock_listed(socks: Seq<RawSockView>, c: Context, i: int, e: EntryView)
    requires
        0 <= i < socks.len(),
        linux::sock_entries(socks[i], c).contains(e),
    ensures
        linux::scan_entries(socks, c).contains(e),
    decreases socks.len(),
{
    let front = socks.drop_last();
    let before = linux::scan_entries(front, c);
    let own = linux::sock_entries(socks.last(), c);
    let all = linux::scan_entries(socks, c);
    if i < front.len() {
        assert(front[i] == socks[i]);
        lemma_sock_listed(front, c, i, e);
        let j = choose|j: int| 0 <= j < before.len() && before[j] == e;
        assert(all[j] == e);
    } else {
        let j = choose|j: int| 0 <= j < own.len() && own[j] == e;
        assert(all[before.len() + j] == e);
    }
}

/// Every process that shares a socket is listed for it, not just one of them: a server and all
/// of its workers.
pub proof fn law_every_holder_is_listed(socks: Seq<RawSockView>, c: Context, i: int, pid: i32)
    requires
        0 <= i < socks.len(),
        socks[i].local_port != 0,
        is_holder(holders::dir_views(c.dirs@), socks[i].inode, pid),
        linux::meta_for(c.procs@, pid, c.btime as nat, c.hz as nat) is Some,
    ensures
        linux::scan_entries(socks, c).contains(
            linux::entry_for(
                socks[i],
                pid,
                linux::meta_for(c.procs@, pid, c.btime as nat, c.hz as nat)->0,
                c.users@,
            ),
        ),
{
    let dirs = holders::dir_views(c.dirs@);
    law_holders_are_all_and_each_once(dirs, socks[i].inode);
    let pids = holders::holders(dirs, socks[i].inode);
    assert(pids.contains(pid));
    let k = choose|k: int| 0 <= k < pids.len() && pids[k] == pid;
    lemma_entry_listed(socks[i], pids, c, k);
    let e = linux::entry_for(
        socks[i],
        pid,
        linux::meta_for(c.procs@, pid, c.btime as nat, c.hz as nat)->0,
        c.users@,
    );
    lemma_sock_listed(socks, c, i, e);
}

} // verus!
