//! Laws of a scan on Linux: what it tells of a socket and of each process that holds it is what
//! was read of them, field by field, and it tells of nothing else.

use crate::laws::addr as written;
use crate::laws::holders as held;
use crate::laws::process as read;
use crate::model::{EntryView, Proto, Scan, TcpState};
use crate::num;
use crate::sys::addr;
use crate::sys::bytes;
use crate::sys::linux;
use crate::sys::linux::holders;
use crate::sys::linux::net;
use crate::sys::linux::net::RawSockView;
use crate::sys::linux::process;
use crate::sys::linux::process::ProcFilesView;
use crate::sys::linux::{Context, NetFiles, Process};
use crate::sys::user;
use crate::sys::user::User;
use crate::text;
use crate::text::Sep;
use vstd::prelude::*;

verus! {

/// Whether an entry tells of the socket: its protocol, state, addresses and ports.
pub open spec fn tells_socket(e: EntryView, s: RawSockView) -> bool {
    &&& e.proto == s.proto
    &&& e.state == s.state
    &&& e.local_addr == s.local_addr
    &&& e.local_port == s.local_port
    &&& e.remote_addr == s.remote_addr
    &&& e.remote_port == s.remote_port
}

/// Pieces with a zero byte between any two.
pub open spec fn zero_joined(pieces: Seq<Seq<u8>>) -> Seq<u8>
    recommends
        pieces.len() > 0,
{
    read::ended(pieces.drop_last()) + pieces.last()
}

/// The texts of the pieces that are not empty.
pub open spec fn argument_texts(pieces: Seq<Seq<u8>>) -> Seq<Seq<char>>
    decreases pieces.len(),
{
    if pieces.len() == 0 {
        Seq::<Seq<char>>::empty()
    } else if pieces.last().len() == 0 {
        argument_texts(pieces.drop_last())
    } else {
        argument_texts(pieces.drop_last()).push(bytes::utf8_lossy(pieces.last()))
    }
}

/// Whether a command line is that of the bytes: the arguments between zero bytes, empty ones
/// passed over, with a space between any two and no white space around them. Where that leaves
/// nothing, or nothing was read, there is none.
pub open spec fn tells_arguments(cmdline: Option<Seq<char>>, read: Option<Seq<u8>>) -> bool {
    &&& read is None ==> cmdline is None
    &&& forall|pieces: Seq<Seq<u8>>|
        {
            &&& pieces.len() > 0
            &&& forall|i: int| 0 <= i < pieces.len() ==> read::zero_free(#[trigger] pieces[i])
            &&& read == Some(#[trigger] zero_joined(pieces))
        } ==> {
            let line = text::trim(text::join(argument_texts(pieces), seq![' ']));
            cmdline == if line.len() == 0 {
                None
            } else {
                Some(line)
            }
        }
}

/// Whether a path is that of the bytes.
pub open spec fn tells_path(exe: Option<Seq<char>>, read: Option<Seq<u8>>) -> bool {
    match read {
        Some(b) => exe == Some(bytes::utf8_lossy(b)),
        None => exe is None,
    }
}

/// Whether a text is what stands behind the last slash of a path.
pub open spec fn ends_path(name: Seq<char>, path: Seq<char>) -> bool {
    &&& !name.contains('/')
    &&& name.len() <= path.len()
    &&& path.skip(path.len() - name.len()) == name
    &&& name.len() < path.len() ==> path[path.len() - name.len() - 1] == '/'
}

/// Whether a name is that of a process: what it calls itself, else the last part of the path of
/// its executable, else a question mark.
pub open spec fn tells_name(name: Seq<char>, own: Option<Seq<char>>, exe: Option<Seq<char>>) -> bool {
    match own {
        Some(c) => if text::trim(c).len() > 0 {
            name == text::trim(c)
        } else {
            tells_fallback(name, exe)
        },
        None => tells_fallback(name, exe),
    }
}

/// Whether a name is that of a process that does not say what it is called.
pub open spec fn tells_fallback(name: Seq<char>, exe: Option<Seq<char>>) -> bool {
    match exe {
        Some(x) => ends_path(name, x),
        None => name == seq!['?'],
    }
}

/// Whether a user is called by the first entry for its number, and by the number itself where
/// there is no name.
pub open spec fn tells_user(name: Seq<char>, users: Seq<User>, uid: u32) -> bool {
    &&& forall|k: int|
        {
            &&& 0 <= k < users.len()
            &&& (#[trigger] users[k]).uid == uid
            &&& forall|m: int| 0 <= m < k ==> (#[trigger] users[m]).uid != uid
        } ==> match users[k].name {
            Some(b) => name == bytes::utf8_lossy(b@),
            None => name == num::dec(uid as nat),
        }
    &&& (forall|k: int| 0 <= k < users.len() ==> (#[trigger] users[k]).uid != uid) ==> name
        == num::dec(uid as nat)
}

/// Whether the fields behind the last closing parenthesis say who the parent is and when the
/// process started: the second and the twentieth.
pub open spec fn tells_stat(stat: Seq<char>, ppid: int, ticks: nat) -> bool {
    exists|at: int|
        {
            &&& 0 <= at < stat.len()
            &&& #[trigger] stat[at] == ')'
            &&& !stat.skip(at + 1).contains(')')
            &&& text::words(stat.skip(at + 1), Sep::White).len() >= 20
            &&& num::parse_signed(text::words(stat.skip(at + 1), Sep::White)[1]) == Some(ppid)
            &&& num::parse_unsigned(
                text::words(stat.skip(at + 1), Sep::White)[19],
                10,
                0xffff_ffff_ffff_ffff,
            ) == Some(ticks)
        }
}

/// Whether an entry tells of a process what was read of it.
pub open spec fn tells_process(e: EntryView, f: ProcFilesView, c: Context) -> bool {
    &&& f.uid == Some(e.uid)
    &&& tells_user(e.user, c.users@, e.uid)
    &&& tells_path(e.exe, f.exe)
    &&& tells_arguments(e.cmdline, f.cmdline)
    &&& tells_name(e.proc_name, f.comm, e.exe)
    &&& f.stat is Some
    &&& exists|ticks: nat|
        {
            &&& #[trigger] tells_stat(f.stat->0, e.ppid as int, ticks)
            &&& e.start_time == c.btime + ticks / (if c.hz == 0 {
                1
            } else {
                c.hz as nat
            })
        }
}

/// Whether the directory of index `d` under `/proc` is that of the process and has a link to the
/// socket.
pub open spec fn links_to(c: Context, d: int, pid: i32, inode: u64) -> bool {
    &&& 0 <= d < c.dirs@.len()
    &&& num::parse_signed(bytes::utf8_lossy(c.dirs@[d].name@)) == Some(pid as int)
    &&& c.dirs@[d].links matches Some(links) && exists|k: int|
        0 <= k < links@.len() && bytes::utf8_lossy((#[trigger] links@[k])@) == seq![
            's',
            'o',
            'c',
            'k',
            'e',
            't',
            ':',
            '[',
        ] + num::dec(inode as nat) + seq![']']
}

/// Whether the process of index `q` is the first that was read under its number.
pub open spec fn first_read(procs: Seq<Process>, q: int, pid: i32) -> bool {
    &&& 0 <= q < procs.len()
    &&& procs[q].pid == pid
    &&& forall|m: int| 0 <= m < q ==> (#[trigger] procs[m]).pid != pid
}

proof fn lemma_files_of(procs: Seq<Process>, q: int, pid: i32)
    requires
        first_read(procs, q, pid),
    ensures
        linux::files_of(procs, pid) == Some(procs[q].files@),
    decreases procs.len(),
{
    if q > 0 {
        let rest = procs.drop_first();
        assert(procs[0].pid != pid);
        assert forall|m: int| 0 <= m < q - 1 implies (#[trigger] rest[m]).pid != pid by {
            assert(procs[m + 1].pid != pid);
        }
        lemma_files_of(rest, q - 1, pid);
    }
}

proof fn lemma_files_from(procs: Seq<Process>, pid: i32)
    requires
        linux::files_of(procs, pid) is Some,
    ensures
        exists|q: int| #[trigger] first_read(procs, q, pid),
    decreases procs.len(),
{
    if procs[0].pid == pid {
        assert(first_read(procs, 0, pid));
    } else {
        let rest = procs.drop_first();
        lemma_files_from(rest, pid);
        let q = choose|q: int| #[trigger] first_read(rest, q, pid);
        assert forall|m: int| 0 <= m < q + 1 implies (#[trigger] procs[m]).pid != pid by {
            if m > 0 {
                assert(rest[m - 1].pid != pid);
            }
        }
        assert(first_read(procs, q + 1, pid));
    }
}

proof fn lemma_runs_ended(pieces: Seq<Seq<u8>>)
    requires
        forall|i: int| 0 <= i < pieces.len() ==> read::zero_free(#[trigger] pieces[i]),
    ensures
        bytes::texts(bytes::runs(read::ended(pieces))) == argument_texts(pieces),
        read::ended(pieces).len() == 0 || read::ended(pieces).last() == 0,
    decreases pieces.len(),
{
    if pieces.len() == 0 {
        assert(bytes::texts(bytes::runs(read::ended(pieces))) =~= argument_texts(pieces));
    } else {
        let front = pieces.drop_last();
        let last = pieces[pieces.len() - 1];
        assert forall|i: int| 0 <= i < front.len() implies read::zero_free(#[trigger] front[i]) by {
            assert(front[i] == pieces[i]);
        }
        lemma_runs_ended(front);
        let b = read::ended(front);
        let whole = read::ended(pieces);
        assert(whole.drop_last() =~= b + last);
        assert(whole.last() == 0);
        lemma_runs_then(b, last);
        assert(bytes::runs(whole) == bytes::runs(b + last));
    }
}

/// What stands behind the last zero byte is one more argument, unless it is empty.
proof fn lemma_runs_then(b: Seq<u8>, last: Seq<u8>)
    requires
        b.len() == 0 || b.last() == 0,
        read::zero_free(last),
    ensures
        bytes::texts(bytes::runs(b + last)) == if last.len() == 0 {
            bytes::texts(bytes::runs(b))
        } else {
            bytes::texts(bytes::runs(b)).push(bytes::utf8_lossy(last))
        },
{
    if last.len() == 0 {
        assert(b + last =~= b);
    } else {
        read::lemma_runs_behind_zero(b, last);
        assert(bytes::texts(bytes::runs(b).push(last)) =~= bytes::texts(bytes::runs(b)).push(
            bytes::utf8_lossy(last),
        ));
    }
}

proof fn lemma_tells_arguments(read: Option<Seq<u8>>)
    ensures
        tells_arguments(process::cmdline_text(read), read),
{
    assert forall|pieces: Seq<Seq<u8>>|
        {
            &&& pieces.len() > 0
            &&& forall|i: int| 0 <= i < pieces.len() ==> read::zero_free(#[trigger] pieces[i])
            &&& read == Some(#[trigger] zero_joined(pieces))
        } implies {
        let line = text::trim(text::join(argument_texts(pieces), seq![' ']));
        process::cmdline_text(read) == if line.len() == 0 {
            None
        } else {
            Some(line)
        }
    } by {
        let front = pieces.drop_last();
        let last = pieces[pieces.len() - 1];
        assert forall|i: int| 0 <= i < front.len() implies read::zero_free(#[trigger] front[i]) by {
            assert(front[i] == pieces[i]);
        }
        lemma_runs_ended(front);
        lemma_runs_then(read::ended(front), last);
        assert(bytes::texts(bytes::runs(zero_joined(pieces))) == argument_texts(pieces));
    }
}

pub proof fn lemma_tells_user(users: Seq<User>, uid: u32)
    ensures
        tells_user(user::user_for(users, uid), users, uid),
    decreases users.len(),
{
    let name = user::user_for(users, uid);
    if users.len() > 0 && users[0].uid != uid {
        let rest = users.drop_first();
        lemma_tells_user(rest, uid);
        assert forall|k: int|
            {
                &&& 0 <= k < users.len()
                &&& (#[trigger] users[k]).uid == uid
                &&& forall|m: int| 0 <= m < k ==> (#[trigger] users[m]).uid != uid
            } implies match users[k].name {
            Some(b) => name == bytes::utf8_lossy(b@),
            None => name == num::dec(uid as nat),
        } by {
            assert(rest[k - 1] == users[k]);
            assert forall|m: int| 0 <= m < k - 1 implies (#[trigger] rest[m]).uid != uid by {
                assert(users[m + 1].uid != uid);
            }
        }
        if forall|k: int| 0 <= k < users.len() ==> (#[trigger] users[k]).uid != uid {
            assert forall|k: int| 0 <= k < rest.len() implies (#[trigger] rest[k]).uid != uid by {
                assert(users[k + 1].uid != uid);
            }
        }
    } else if users.len() > 0 {
        assert forall|k: int|
            {
                &&& 0 <= k < users.len()
                &&& (#[trigger] users[k]).uid == uid
                &&& forall|m: int| 0 <= m < k ==> (#[trigger] users[m]).uid != uid
            } implies k == 0 by {
            if k > 0 {
                assert(users[0].uid != uid);
            }
        }
        assert(users[0].uid == uid);
    }
}

/// The last piece between separators holds none, and stands behind the last of them.
pub proof fn lemma_last_piece(s: Seq<char>, c: char)
    ensures
        ({
            let last = text::split(s, Sep::Char(c)).last();
            &&& !last.contains(c)
            &&& last.len() <= s.len()
            &&& s.skip(s.len() - last.len()) == last
            &&& last.len() < s.len() ==> s[s.len() - last.len() - 1] == c
        }),
    decreases s.len(),
{
    let sep = Sep::Char(c);
    let last = text::split(s, sep).last();
    if s.len() == 0 {
        assert(last =~= s);
        assert(s.skip(0) =~= last);
    } else {
        let front = s.drop_last();
        lemma_last_piece(front, c);
        text::lemma_split_len(front, sep);
        let before = text::split(front, sep).last();
        if s.last() == c {
            assert(last.len() == 0);
            assert(s.skip(s.len() as int) =~= last);
        } else {
            assert(last == before.push(s.last()));
            assert forall|i: int| 0 <= i < last.len() implies last[i] != c by {
                if i < before.len() {
                    assert(last[i] == before[i]);
                    assert(!before.contains(c));
                }
            }
            assert(s.skip(s.len() - last.len()) =~= last) by {
                assert forall|i: int| 0 <= i < before.len() implies s[s.len() - last.len() + i]
                    == before[i] by {
                    assert(front.skip(front.len() - before.len())[i] == before[i]);
                }
            }
        }
    }
}

pub proof fn lemma_tells_fallback(exe: Option<Seq<char>>)
    ensures
        tells_fallback(crate::sys::meta::process_name(None, exe), exe),
{
    match exe {
        Some(x) => lemma_last_piece(x, '/'),
        None => {
            reveal_strlit("?");
            assert("?"@ =~= seq!['?']);
        },
    }
}

proof fn lemma_rfind_is(s: Seq<char>, c: char)
    ensures
        match text::rfind(s, c) {
            Some(i) => 0 <= i < s.len() && s[i] == c && !s.skip(i + 1).contains(c),
            None => !s.contains(c),
        },
    decreases s.len(),
{
    if s.len() > 0 {
        let front = s.drop_last();
        lemma_rfind_is(front, c);
        if s.last() == c {
            assert(s.skip(s.len() as int) =~= Seq::<char>::empty());
        } else {
            match text::rfind(front, c) {
                Some(i) => {
                    let tail = s.skip(i + 1);
                    assert forall|k: int| 0 <= k < tail.len() implies tail[k] != c by {
                        if k < tail.len() - 1 {
                            assert(front.skip(i + 1)[k] == tail[k]);
                            assert(front.skip(i + 1).contains(front.skip(i + 1)[k]));
                        }
                    }
                },
                None => {
                    assert forall|k: int| 0 <= k < s.len() implies s[k] != c by {
                        if k < front.len() {
                            assert(front[k] == s[k]);
                            assert(front.contains(front[k]));
                        }
                    }
                },
            }
        }
    }
}

proof fn lemma_tells_stat(stat: Seq<char>)
    ensures
        process::stat_fields(stat) matches Some((ppid, ticks)) ==> tells_stat(stat, ppid, ticks),
        forall|ppid: int, ticks: nat| #[trigger]
            tells_stat(stat, ppid, ticks) ==> process::stat_fields(stat) == Some((ppid, ticks)),
{
    lemma_rfind_is(stat, ')');
    match text::rfind(stat, ')') {
        Some(i) => {
            assert(stat[i] == ')');
            assert forall|ppid: int, ticks: nat| #[trigger]
                tells_stat(stat, ppid, ticks) implies process::stat_fields(stat) == Some(
                (ppid, ticks),
            ) by {
                let at = choose|at: int|
                    {
                        &&& 0 <= at < stat.len()
                        &&& #[trigger] stat[at] == ')'
                        &&& !stat.skip(at + 1).contains(')')
                        &&& text::words(stat.skip(at + 1), Sep::White).len() >= 20
                        &&& num::parse_signed(text::words(stat.skip(at + 1), Sep::White)[1])
                            == Some(ppid)
                        &&& num::parse_unsigned(
                            text::words(stat.skip(at + 1), Sep::White)[19],
                            10,
                            0xffff_ffff_ffff_ffff,
                        ) == Some(ticks)
                    };
                if at < i {
                    assert(stat.skip(at + 1)[i - at - 1] == ')');
                } else if i < at {
                    assert(stat.skip(i + 1)[at - i - 1] == ')');
                }
            }
        },
        None => {
            assert forall|ppid: int, ticks: nat| #[trigger]
                tells_stat(stat, ppid, ticks) implies false by {
                let at = choose|at: int| 0 <= at < stat.len() && #[trigger] stat[at] == ')';
                assert(stat.contains(')'));
            }
        },
    }
}

/// What an entry tells of a process is what was read of it.
proof fn lemma_entry_tells(s: RawSockView, pid: i32, q: int, c: Context)
    requires
        linux::countable(c),
        0 <= q < c.procs@.len(),
        process::meta_of(c.procs@[q].files@, c.btime as nat, c.hz as nat) is Some,
    ensures
        ({
            let m = process::meta_of(c.procs@[q].files@, c.btime as nat, c.hz as nat)->0;
            let e = linux::entry_for(s, pid, m, c.users@);
            &&& tells_socket(e, s)
            &&& e.pid == pid
            &&& tells_process(e, c.procs@[q].files@, c)
        }),
{
    let f = c.procs@[q].files@;
    let m = process::meta_of(f, c.btime as nat, c.hz as nat)->0;
    let e = linux::entry_for(s, pid, m, c.users@);
    assert(process::countable(c.procs@[q].files@, c.btime as nat, c.hz as nat));
    lemma_tells_arguments(f.cmdline);
    lemma_tells_user(c.users@, m.uid);
    lemma_tells_fallback(e.exe);
    lemma_tells_stat(f.stat->0);
    let (ppid, ticks) = process::stat_fields(f.stat->0)->0;
    lemma_signed_in_range(text::words(
        f.stat->0.skip(text::rfind(f.stat->0, ')')->0 + 1),
        Sep::White,
    )[1]);
    assert(tells_stat(f.stat->0, e.ppid as int, ticks));
}

proof fn lemma_signed_in_range(s: Seq<char>)
    ensures
        num::parse_signed(s) matches Some(n) ==> i32::MIN <= n <= i32::MAX,
{
}

proof fn lemma_link_read(inode: u64, link: Seq<char>)
    requires
        link == seq!['s', 'o', 'c', 'k', 'e', 't', ':', '['] + num::dec(inode as nat) + seq![']'],
    ensures
        holders::link_socket(link) == Some(inode as nat),
{
    reveal_strlit("socket:[");
    let prefix = "socket:["@;
    assert(prefix =~= seq!['s', 'o', 'c', 'k', 'e', 't', ':', '[']);
    assert(link.take(prefix.len() as int) =~= prefix);
    assert(link.subrange(prefix.len() as int, link.len() - 1) =~= num::dec(inode as nat));
    num::law_written_numbers_read_back(inode as nat, 10, 0xffff_ffff_ffff_ffff);
}

/// For every socket with a port and every process that has a link to it and is known, a scan has
/// an entry. It tells of the socket what its table says, and of the process what was read of it:
/// its path, its arguments, its name, its owner, its parent and when it started.
pub proof fn law_scan_tells_of_every_holder(
    r: Result<Scan, String>,
    f: NetFiles,
    c: Context,
    big: bool,
    i: int,
    d: int,
    q: int,
    pid: i32,
    ppid: int,
    ticks: nat,
)
    requires
        linux::scan_result(r, f, c, big),
        linux::countable(c),
        0 <= i < linux::all_socks(f, big).len(),
        linux::all_socks(f, big)[i].local_port != 0,
        links_to(c, d, pid, linux::all_socks(f, big)[i].inode),
        first_read(c.procs@, q, pid),
        c.procs@[q].files@.uid is Some,
        c.procs@[q].files@.stat matches Some(stat) && tells_stat(stat, ppid, ticks),
    ensures
        r matches Ok(found) && exists|j: int|
            {
                &&& 0 <= j < found.entries@.len()
                &&& tells_socket((#[trigger] found.entries@[j])@, linux::all_socks(f, big)[i])
                &&& found.entries@[j].pid == pid
                &&& found.entries@[j].ppid == ppid
                &&& tells_process(found.entries@[j]@, c.procs@[q].files@, c)
            },
{
    let socks = linux::all_socks(f, big);
    let s = socks[i];
    let files = c.procs@[q].files@;
    lemma_files_of(c.procs@, q, pid);
    lemma_tells_stat(files.stat->0);
    lemma_entry_tells(s, pid, q, c);
    let dirs = holders::dir_views(c.dirs@);
    let links = c.dirs@[d].links->0;
    let k = choose|k: int|
        0 <= k < links@.len() && bytes::utf8_lossy((#[trigger] links@[k])@) == seq![
            's',
            'o',
            'c',
            'k',
            'e',
            't',
            ':',
            '[',
        ] + num::dec(s.inode as nat) + seq![']'];
    lemma_link_read(s.inode, bytes::utf8_lossy(links@[k]@));
    assert(bytes::byte_views(links@)[k] == links@[k]@);
    assert(dirs[d] == c.dirs@[d]@);
    assert(holders::leads_to(bytes::byte_views(links@), s.inode));
    assert(holders::holds(dirs[d], s.inode));
    assert(held::is_holder(dirs, s.inode, pid));
    held::law_every_holder_is_listed(socks, c, i, pid);
    let m = linux::meta_for(c.procs@, pid, c.btime as nat, c.hz as nat)->0;
    let e = linux::entry_for(s, pid, m, c.users@);
    let all = linux::scan_entries(socks, c);
    let found = r->Ok_0;
    let j = choose|j: int| 0 <= j < all.len() && all[j] == e;
    assert(found.entries@[j]@ == e);
}

proof fn lemma_entry_of_pids(s: RawSockView, pids: Seq<i32>, c: Context, e: EntryView)
    requires
        linux::entries_for(s, pids, c).contains(e),
    ensures
        exists|k: int|
            {
                &&& 0 <= k < pids.len()
                &&& linux::meta_for(c.procs@, #[trigger] pids[k], c.btime as nat, c.hz as nat)
                    is Some
                &&& e == linux::entry_for(
                    s,
                    pids[k],
                    linux::meta_for(c.procs@, pids[k], c.btime as nat, c.hz as nat)->0,
                    c.users@,
                )
            },
    decreases pids.len(),
{
    if pids.len() > 0 {
        let front = pids.drop_last();
        let before = linux::entries_for(s, front, c);
        let all = linux::entries_for(s, pids, c);
        let j = choose|j: int| 0 <= j < all.len() && all[j] == e;
        if j < before.len() {
            assert(before[j] == e);
            lemma_entry_of_pids(s, front, c, e);
            let k = choose|k: int|
                {
                    &&& 0 <= k < front.len()
                    &&& linux::meta_for(c.procs@, #[trigger] front[k], c.btime as nat, c.hz as nat)
                        is Some
                    &&& e == linux::entry_for(
                        s,
                        front[k],
                        linux::meta_for(c.procs@, front[k], c.btime as nat, c.hz as nat)->0,
                        c.users@,
                    )
                };
            assert(pids[k] == front[k]);
        } else {
            assert(pids[pids.len() - 1] == pids.last());
        }
    }
}

proof fn lemma_entry_of_socks(socks: Seq<RawSockView>, c: Context, e: EntryView)
    requires
        linux::scan_entries(socks, c).contains(e),
    ensures
        exists|i: int|
            0 <= i < socks.len() && linux::sock_entries(#[trigger] socks[i], c).contains(e),
    decreases socks.len(),
{
    if socks.len() > 0 {
        let front = socks.drop_last();
        let before = linux::scan_entries(front, c);
        let own = linux::sock_entries(socks.last(), c);
        let all = linux::scan_entries(socks, c);
        let j = choose|j: int| 0 <= j < all.len() && all[j] == e;
        if j < before.len() {
            assert(before[j] == e);
            lemma_entry_of_socks(front, c, e);
            let i = choose|i: int|
                0 <= i < front.len() && linux::sock_entries(#[trigger] front[i], c).contains(e);
            assert(socks[i] == front[i]);
        } else {
            assert(own[j - before.len()] == e);
            assert(socks[socks.len() - 1] == socks.last());
        }
    }
}

/// Whether a directory is that of the process and one of its links names the socket.
pub open spec fn names_socket(c: Context, d: int, pid: i32, inode: u64) -> bool {
    &&& 0 <= d < c.dirs@.len()
    &&& num::parse_signed(bytes::utf8_lossy(c.dirs@[d].name@)) == Some(pid as int)
    &&& c.dirs@[d].links matches Some(links) && exists|k: int|
        0 <= k < links@.len() && link_names(bytes::utf8_lossy((#[trigger] links@[k])@), inode)
}

/// Whether a link is the number of the socket in square brackets behind `socket:`.
pub open spec fn link_names(link: Seq<char>, inode: u64) -> bool {
    exists|n: Seq<char>|
        link == seq!['s', 'o', 'c', 'k', 'e', 't', ':', '['] + n + seq![']']
            && #[trigger] num::parse_unsigned(n, 10, 0xffff_ffff_ffff_ffff) == Some(inode as nat)
}

proof fn lemma_link_names(link: Seq<char>, inode: u64)
    requires
        holders::link_socket(link) == Some(inode as nat),
    ensures
        link_names(link, inode),
{
    reveal_strlit("socket:[");
    let prefix = "socket:["@;
    assert(prefix =~= seq!['s', 'o', 'c', 'k', 'e', 't', ':', '[']);
    let n = link.subrange(prefix.len() as int, link.len() - 1);
    assert(link =~= link.take(prefix.len() as int) + n + seq![']']);
    assert(num::parse_unsigned(n, 10, 0xffff_ffff_ffff_ffff) == Some(inode as nat));
}

/// Whether an entry tells of the socket of index `i` and of the process that was read as the one
/// of index `q`, which has a link to the socket in the directory of index `d`.
pub open spec fn told_of(
    e: EntryView,
    f: NetFiles,
    c: Context,
    big: bool,
    i: int,
    d: int,
    q: int,
) -> bool {
    &&& 0 <= i < linux::all_socks(f, big).len()
    &&& linux::all_socks(f, big)[i].local_port != 0
    &&& tells_socket(e, linux::all_socks(f, big)[i])
    &&& names_socket(c, d, e.pid, linux::all_socks(f, big)[i].inode)
    &&& first_read(c.procs@, q, e.pid)
    &&& tells_process(e, c.procs@[q].files@, c)
}

/// A scan tells of nothing else: each of its entries is that of a socket with a port and of a
/// process that has a link to it, with what was read of both.
pub proof fn law_scan_invents_nothing(
    r: Result<Scan, String>,
    f: NetFiles,
    c: Context,
    big: bool,
    j: int,
)
    requires
        linux::scan_result(r, f, c, big),
        linux::countable(c),
        r is Ok,
        0 <= j < r->Ok_0.entries@.len(),
    ensures
        exists|i: int, d: int, q: int| #[trigger]
            told_of(r->Ok_0.entries@[j]@, f, c, big, i, d, q),
{
    let socks = linux::all_socks(f, big);
    let all = linux::scan_entries(socks, c);
    let e = r->Ok_0.entries@[j]@;
    assert(all[j] == e);
    lemma_entry_of_socks(socks, c, e);
    let i = choose|i: int|
        0 <= i < socks.len() && linux::sock_entries(#[trigger] socks[i], c).contains(e);
    let s = socks[i];
    let dirs = holders::dir_views(c.dirs@);
    let pids = holders::holders(dirs, s.inode);
    lemma_entry_of_pids(s, pids, c, e);
    let k = choose|k: int|
        {
            &&& 0 <= k < pids.len()
            &&& linux::meta_for(c.procs@, #[trigger] pids[k], c.btime as nat, c.hz as nat) is Some
            &&& e == linux::entry_for(
                s,
                pids[k],
                linux::meta_for(c.procs@, pids[k], c.btime as nat, c.hz as nat)->0,
                c.users@,
            )
        };
    let pid = pids[k];
    lemma_files_from(c.procs@, pid);
    let q = choose|q: int| #[trigger] first_read(c.procs@, q, pid);
    lemma_files_of(c.procs@, q, pid);
    lemma_entry_tells(s, pid, q, c);
    held::law_holders_are_all_and_each_once(dirs, s.inode);
    assert(pids.contains(pid));
    let d = choose|d: int|
        0 <= d < dirs.len() && holders::holds(#[trigger] dirs[d], s.inode) && holders::dir_pid(
            dirs[d],
        ) == Some(pid as int);
    assert(dirs[d] == c.dirs@[d]@);
    let links = c.dirs@[d].links->0;
    let views = bytes::byte_views(links@);
    let n = choose|n: int|
        0 <= n < views.len() && holders::link_socket(bytes::utf8_lossy(#[trigger] views[n]))
            == Some(s.inode as nat);
    assert(views[n] == links@[n]@);
    lemma_link_names(bytes::utf8_lossy(links@[n]@), s.inode);
    assert(names_socket(c, d, pid, s.inode));
    assert(told_of(e, f, c, big, i, d, q));
}

proof fn lemma_entries_ascend(s: RawSockView, pids: Seq<i32>, c: Context)
    requires
        holders::ascending(pids),
    ensures
        forall|i: int, j: int|
            #![trigger linux::entries_for(s, pids, c)[i], linux::entries_for(s, pids, c)[j]]
            0 <= i < j < linux::entries_for(s, pids, c).len() ==> linux::entries_for(
                s,
                pids,
                c,
            )[i].pid < linux::entries_for(s, pids, c)[j].pid,
        forall|i: int|
            0 <= i < linux::entries_for(s, pids, c).len() ==> (#[trigger] linux::entries_for(
                s,
                pids,
                c,
            )[i]).pid <= pids.last(),
    decreases pids.len(),
{
    if pids.len() > 0 {
        let front = pids.drop_last();
        assert forall|i: int, j: int|
            #![trigger front[i], front[j]]
            0 <= i < j < front.len() implies front[i] < front[j] by {
            assert(pids[i] < pids[j]);
        }
        lemma_entries_ascend(s, front, c);
        let before = linux::entries_for(s, front, c);
        let all = linux::entries_for(s, pids, c);
        if front.len() > 0 {
            assert(pids[front.len() - 1] < pids[front.len() as int]);
        }
        assert forall|i: int| 0 <= i < all.len() implies (#[trigger] all[i]).pid <= pids.last() by {
            if i < before.len() {
                assert(all[i] == before[i]);
            }
        }
        assert forall|i: int, j: int|
            #![trigger all[i], all[j]]
            0 <= i < j < all.len() implies all[i].pid < all[j].pid by {
            assert(all[i] == before[i]);
            if j < before.len() {
                assert(all[j] == before[j]);
            }
        }
    }
}

/// A socket has one entry for each of its holders, in ascending order of their numbers, however
/// many descriptors they have for it.
pub proof fn law_one_entry_for_each_holder(s: RawSockView, c: Context)
    ensures
        forall|i: int, j: int|
            #![trigger
                linux::scan_entries(seq![s], c)[i],
                linux::scan_entries(seq![s], c)[j]]
            0 <= i < j < linux::scan_entries(seq![s], c).len() ==> linux::scan_entries(
                seq![s],
                c,
            )[i].pid < linux::scan_entries(seq![s], c)[j].pid,
{
    let dirs = holders::dir_views(c.dirs@);
    let pids = holders::holders(dirs, s.inode);
    let own = linux::sock_entries(s, c);
    let all = linux::scan_entries(seq![s], c);
    assert(seq![s].drop_last() =~= Seq::<RawSockView>::empty());
    assert(linux::scan_entries(seq![s].drop_last(), c) =~= Seq::<EntryView>::empty());
    assert(all =~= own);
    holders::lemma_holders_ascending(dirs, s.inode);
    lemma_entries_ascend(s, pids, c);
}

/// Entries come socket by socket, in the order of the sockets.
pub proof fn law_entries_follow_the_sockets(a: Seq<RawSockView>, b: Seq<RawSockView>, c: Context)
    ensures
        linux::scan_entries(a + b, c) == linux::scan_entries(a, c) + linux::scan_entries(b, c),
    decreases b.len(),
{
    if b.len() == 0 {
        assert(a + b =~= a);
        assert(linux::scan_entries(a, c) + linux::scan_entries(b, c) =~= linux::scan_entries(a, c));
    } else {
        law_entries_follow_the_sockets(a, b.drop_last(), c);
        assert((a + b).drop_last() =~= a + b.drop_last());
        assert((a + b).last() == b.last());
        assert(linux::scan_entries(a + b, c) =~= linux::scan_entries(a, c) + linux::scan_entries(
            b,
            c,
        ));
    }
}

/// A scan fails exactly where there is no table for TCP and no socket in any table. Else it
/// counts the directories of processes whose links could not be read, and no others.
pub proof fn law_when_a_scan_fails(r: Result<Scan, String>, f: NetFiles, c: Context, big: bool)
    requires
        linux::scan_result(r, f, c, big),
    ensures
        r is Err <==> !f.tcp_exists && linux::all_socks(f, big).len() == 0,
        r matches Err(e) ==> e@ == "/proc/net/tcp 不存在，这个系统看起来没挂载 procfs"@,
        r matches Ok(found) ==> found.skipped == c.dirs@.filter(
            |d: holders::ProcDir|
                num::parse_signed(bytes::utf8_lossy(d.name@)) is Some && d.links is None,
        ).len(),
{
    if r is Ok {
        lemma_unreadable(c.dirs@);
    }
}

proof fn lemma_unreadable(dirs: Seq<holders::ProcDir>)
    ensures
        holders::unreadable_count(holders::dir_views(dirs)) == dirs.filter(
            |d: holders::ProcDir|
                num::parse_signed(bytes::utf8_lossy(d.name@)) is Some && d.links is None,
        ).len(),
    decreases dirs.len(),
{
    reveal(Seq::filter);
    if dirs.len() > 0 {
        lemma_unreadable(dirs.drop_last());
        let views = holders::dir_views(dirs);
        assert(views.drop_last() =~= holders::dir_views(dirs.drop_last()));
        assert(views.last() == dirs.last()@);
    }
}

/// The table of a protocol and a kind of addresses.
pub open spec fn table_for(f: NetFiles, proto: Proto, v6: bool) -> Option<String> {
    if proto == Proto::Tcp {
        if v6 {
            f.tcp6
        } else {
            f.tcp
        }
    } else if v6 {
        f.udp6
    } else {
        f.udp
    }
}

/// The state that a number of the kernel stands for.
pub open spec fn numbered_state(n: u8) -> TcpState {
    if n == 0 || n > 11 {
        TcpState::Unknown
    } else {
        seq![
            TcpState::Established,
            TcpState::SynSent,
            TcpState::SynRecv,
            TcpState::FinWait1,
            TcpState::FinWait2,
            TcpState::TimeWait,
            TcpState::Closed,
            TcpState::CloseWait,
            TcpState::LastAck,
            TcpState::Listen,
            TcpState::Closing,
        ][n - 1]
    }
}

/// How an IPv4 address is shown: four numbers with dots between them, or a star where all are
/// zero.
pub open spec fn dotted(b: Seq<u8>) -> Seq<char> {
    if b[0] == 0 && b[1] == 0 && b[2] == 0 && b[3] == 0 {
        seq!['*']
    } else {
        num::dec(b[0] as nat) + seq!['.'] + num::dec(b[1] as nat) + seq!['.'] + num::dec(
            b[2] as nat,
        ) + seq!['.'] + num::dec(b[3] as nat)
    }
}

pub proof fn lemma_dotted(b: Seq<u8>)
    requires
        b.len() == 4,
    ensures
        addr::v4_text(b) == dotted(b),
{
    reveal_strlit("*");
    reveal_strlit(".");
    assert("*"@ =~= seq!['*']);
    assert("."@ =~= seq!['.']);
    if b[0] == 0 && b[1] == 0 && b[2] == 0 && b[3] == 0 {
        assert(addr::all_zero(b));
    }
}

proof fn lemma_line_listed(
    lines: Seq<Seq<char>>,
    proto: Proto,
    v6: bool,
    big: bool,
    n: int,
    s: RawSockView,
)
    requires
        0 <= n < lines.len(),
        net::sock_of(lines[n], proto, v6, big) == Some(s),
    ensures
        net::socks_of(lines, proto, v6, big).contains(s),
    decreases lines.len(),
{
    let front = lines.drop_last();
    let before = net::socks_of(front, proto, v6, big);
    let all = net::socks_of(lines, proto, v6, big);
    if n < front.len() {
        assert(front[n] == lines[n]);
        lemma_line_listed(front, proto, v6, big, n, s);
        let k = choose|k: int| 0 <= k < before.len() && before[k] == s;
        assert(all[k] == s);
    } else {
        assert(all[before.len() as int] == s);
    }
}

proof fn lemma_table_listed(f: NetFiles, proto: Proto, v6: bool, big: bool, s: RawSockView)
    requires
        linux::socks_in(table_for(f, proto, v6), proto, v6, big).contains(s),
    ensures
        linux::all_socks(f, big).contains(s),
{
    let a = linux::socks_in(f.tcp, Proto::Tcp, false, big);
    let b = linux::socks_in(f.tcp6, Proto::Tcp, true, big);
    let c = linux::socks_in(f.udp, Proto::Udp, false, big);
    let d = linux::socks_in(f.udp6, Proto::Udp, true, big);
    let all = linux::all_socks(f, big);
    let own = linux::socks_in(table_for(f, proto, v6), proto, v6, big);
    let k = choose|k: int| 0 <= k < own.len() && own[k] == s;
    if proto == Proto::Tcp && !v6 {
        assert(all[k] == s);
    } else if proto == Proto::Tcp {
        assert(all[a.len() + k] == s);
    } else if !v6 {
        assert(all[a.len() + b.len() + k] == s);
    } else {
        assert(all[a.len() + b.len() + c.len() + k] == s);
    }
}

/// Every line that the kernel wrote for a socket, in any of the four tables, is read as that
/// socket: of the protocol of the table, with its addresses, ports, state and inode. A socket
/// without a remote port has no peer, and one of UDP no state.
#[verifier::rlimit(40)]
pub proof fn law_every_line_is_a_socket(
    f: NetFiles,
    proto: Proto,
    big: bool,
    n: int,
    fields: Seq<Seq<char>>,
    local: Seq<u8>,
    lport: u16,
    remote: Seq<u8>,
    rport: u16,
    state: u8,
    inode: u64,
)
    requires
        local.len() == 4 || local.len() == 16,
        local.len() == remote.len(),
        table_for(f, proto, local.len() == 16) matches Some(t) && 0 < n < text::lines(t@).len()
            && text::lines(t@)[n] == text::join(fields, seq![' ']),
        fields.len() >= 10,
        crate::laws::fmt::solid(fields, Sep::White),
        fields[1] == written::kernel_field(local, lport, big),
        fields[2] == written::kernel_field(remote, rport, big),
        fields[3] == written::upper_hex(state as nat, 2),
        fields[9] == num::dec(inode as nat),
    ensures
        exists|i: int|
            {
                let s = linux::all_socks(f, big)[i];
                &&& 0 <= i < linux::all_socks(f, big).len()
                &&& (#[trigger] linux::all_socks(f, big)[i]).inode == inode
                &&& s.proto == proto
                &&& s.local_addr == written::shown_addr(local)
                &&& local.len() == 4 ==> s.local_addr == dotted(local)
                &&& s.local_port == lport
                &&& rport == 0 ==> s.remote_addr is None
                &&& rport != 0 ==> s.remote_addr == Some(written::shown_addr(remote))
                &&& rport != 0 && local.len() == 4 ==> s.remote_addr == Some(dotted(remote))
                &&& s.remote_port == rport
                &&& proto == Proto::Tcp ==> s.state == Some(numbered_state(state))
                &&& proto == Proto::Udp ==> s.state is None
            },
{
    let v6 = local.len() == 16;
    let t = table_for(f, proto, v6)->0;
    written::law_kernel_lines_read_back(
        fields,
        local,
        lport,
        remote,
        rport,
        state,
        inode,
        proto,
        big,
    );
    let s = net::sock_of(text::join(fields, seq![' ']), proto, v6, big)->0;
    let lines = net::body(t@);
    assert(lines[n - 1] == text::lines(t@)[n]);
    lemma_line_listed(lines, proto, v6, big, n - 1, s);
    lemma_table_listed(f, proto, v6, big, s);
    let all = linux::all_socks(f, big);
    let i = choose|i: int| 0 <= i < all.len() && all[i] == s;
    if !v6 {
        lemma_dotted(local);
        lemma_dotted(remote);
    }
    assert(net::state_of(state as nat) == numbered_state(state));
    assert(linux::all_socks(f, big)[i].inode == inode);
}

/// The last line is where a socket comes from that the lines in front of it do not give.
proof fn lemma_sock_of_last(
    lines: Seq<Seq<char>>,
    proto: Proto,
    v6: bool,
    big: bool,
    s: RawSockView,
)
    requires
        lines.len() > 0,
        net::socks_of(lines, proto, v6, big).contains(s),
        !net::socks_of(lines.drop_last(), proto, v6, big).contains(s),
    ensures
        net::sock_of(lines.last(), proto, v6, big) == Some(s),
{
    let before = net::socks_of(lines.drop_last(), proto, v6, big);
    let all = net::socks_of(lines, proto, v6, big);
    let k = choose|k: int| 0 <= k < all.len() && all[k] == s;
    if k < before.len() {
        assert(before[k] == s);
    }
}

proof fn lemma_sock_of_line(
    lines: Seq<Seq<char>>,
    proto: Proto,
    v6: bool,
    big: bool,
    s: RawSockView,
) -> (n: int)
    requires
        net::socks_of(lines, proto, v6, big).contains(s),
    ensures
        0 <= n < lines.len(),
        net::sock_of(lines[n], proto, v6, big) == Some(s),
    decreases lines.len(),
{
    let front = lines.drop_last();
    if lines.len() == 0 {
        assert(false);
        0
    } else if net::socks_of(front, proto, v6, big).contains(s) {
        let n = lemma_sock_of_line(front, proto, v6, big, s);
        assert(lines[n] == front[n]);
        n
    } else {
        lemma_sock_of_last(lines, proto, v6, big, s);
        lines.len() - 1
    }
}

/// Whether a line of a table, behind its header, says what the socket is: ten fields and more, of
/// which the second and the third are addresses with ports, the fourth is the state and the tenth
/// the inode.
pub open spec fn line_says(line: Seq<char>, v6: bool, big: bool, s: RawSockView) -> bool {
    let w = text::words(line, Sep::White);
    &&& w.len() >= 10
    &&& net::addr_of(w[1], v6, big) == Some((s.local_addr, s.local_port))
    &&& net::addr_of(w[2], v6, big) matches Some((peer, port)) && port == s.remote_port && (
    s.remote_addr == if port == 0 {
        None
    } else {
        Some(peer)
    })
    &&& num::parse_unsigned(w[3], 16, 255) matches Some(st) && (s.proto == Proto::Tcp ==> s.state
        == Some(numbered_state(st as u8)))
    &&& s.proto == Proto::Udp ==> s.state is None
    &&& num::parse_unsigned(w[9], 10, 0xffff_ffff_ffff_ffff) == Some(s.inode as nat)
}

/// Every socket is that of a line of the table of its protocol, and no header is taken for one.
pub proof fn law_sockets_come_from_lines(f: NetFiles, big: bool, i: int)
    requires
        0 <= i < linux::all_socks(f, big).len(),
    ensures
        exists|v6: bool, n: int| #[trigger]
            from_line(f, linux::all_socks(f, big)[i], v6, n, big),
{
    let s = linux::all_socks(f, big)[i];
    let a = linux::socks_in(f.tcp, Proto::Tcp, false, big);
    let b = linux::socks_in(f.tcp6, Proto::Tcp, true, big);
    let c = linux::socks_in(f.udp, Proto::Udp, false, big);
    let d = linux::socks_in(f.udp6, Proto::Udp, true, big);
    if i < a.len() {
        assert(a[i] == s);
        lemma_from_line(f, Proto::Tcp, false, big, s);
    } else if i < a.len() + b.len() {
        assert(b[i - a.len()] == s);
        lemma_from_line(f, Proto::Tcp, true, big, s);
    } else if i < a.len() + b.len() + c.len() {
        assert(c[i - a.len() - b.len()] == s);
        lemma_from_line(f, Proto::Udp, false, big, s);
    } else {
        assert(d[i - a.len() - b.len() - c.len()] == s);
        lemma_from_line(f, Proto::Udp, true, big, s);
    }
}

/// Whether a socket is that of the line of index `n` of the table of its protocol.
pub open spec fn from_line(f: NetFiles, s: RawSockView, v6: bool, n: int, big: bool) -> bool {
    table_for(f, s.proto, v6) matches Some(t) && 0 < n < text::lines(t@).len() && line_says(
        text::lines(t@)[n],
        v6,
        big,
        s,
    )
}

proof fn lemma_from_line(f: NetFiles, proto: Proto, v6: bool, big: bool, s: RawSockView)
    requires
        linux::socks_in(table_for(f, proto, v6), proto, v6, big).contains(s),
    ensures
        exists|n: int| #[trigger] from_line(f, s, v6, n, big),
{
    let t = table_for(f, proto, v6)->0;
    let lines = net::body(t@);
    let n = lemma_sock_of_line(lines, proto, v6, big, s);
    assert(lines[n] == text::lines(t@)[n + 1]);
    let w = text::words(lines[n], Sep::White);
    lemma_state_number(w[3]);
    assert(from_line(f, s, v6, n + 1, big));
}

proof fn lemma_state_number(w: Seq<char>)
    ensures
        num::parse_unsigned(w, 16, 0xff) matches Some(st) ==> st <= 255 && net::state_of(st)
            == numbered_state(st as u8),
{
}

/// The processes that are worth reading are exactly those with a link to a socket that has a port,
/// each named once.
pub proof fn law_who_is_worth_reading(
    list: Seq<i32>,
    f: NetFiles,
    c: Context,
    big: bool,
    pid: i32,
)
    requires
        linux::lists_holders(list, f, holders::dir_views(c.dirs@), big),
    ensures
        list.contains(pid) <==> exists|i: int, d: int| #[trigger] reads_for(f, c, big, i, d, pid),
        forall|i: int, j: int|
            #![trigger list[i], list[j]]
            0 <= i < j < list.len() ==> list[i] < list[j],
{
    let socks = linux::all_socks(f, big);
    let dirs = holders::dir_views(c.dirs@);
    assert(list.contains(pid) == linux::holds_any(socks, dirs, pid));
    if linux::holds_any(socks, dirs, pid) {
        let i = choose|i: int|
            0 <= i < socks.len() && (#[trigger] socks[i]).local_port != 0 && holders::holders(
                dirs,
                socks[i].inode,
            ).contains(pid);
        let inode = socks[i].inode;
        held::law_holders_are_all_and_each_once(dirs, inode);
        assert(holders::holders(dirs, inode).contains(pid));
        let d = choose|d: int|
            0 <= d < dirs.len() && holders::holds(#[trigger] dirs[d], inode) && holders::dir_pid(
                dirs[d],
            ) == Some(pid as int);
        assert(dirs[d] == c.dirs@[d]@);
        let links = c.dirs@[d].links->0;
        let views = bytes::byte_views(links@);
        let n = choose|n: int|
            0 <= n < views.len() && holders::link_socket(bytes::utf8_lossy(#[trigger] views[n]))
                == Some(inode as nat);
        assert(views[n] == links@[n]@);
        lemma_link_names(bytes::utf8_lossy(links@[n]@), inode);
        assert(reads_for(f, c, big, i, d, pid));
    }
    if exists|i: int, d: int| #[trigger] reads_for(f, c, big, i, d, pid) {
        let (i, d): (int, int) = choose|i: int, d: int| #[trigger]
            reads_for(f, c, big, i, d, pid);
        let inode = socks[i].inode;
        let links = c.dirs@[d].links->0;
        let views = bytes::byte_views(links@);
        let n = choose|n: int|
            0 <= n < links@.len() && link_names(bytes::utf8_lossy((#[trigger] links@[n])@), inode);
        lemma_named_link(bytes::utf8_lossy(links@[n]@), inode);
        assert(views[n] == links@[n]@);
        assert(holders::leads_to(views, inode));
        assert(dirs[d] == c.dirs@[d]@);
        assert(holders::holds(dirs[d], inode));
        held::law_holders_are_all_and_each_once(dirs, inode);
        assert(held::is_holder(dirs, inode, pid));
        assert(holders::holders(dirs, inode).contains(pid));
        assert(socks[i].local_port != 0);
    }
}

/// Whether the directory of index `d` gives the process a link to the socket of index `i`, which
/// has a port.
pub open spec fn reads_for(f: NetFiles, c: Context, big: bool, i: int, d: int, pid: i32) -> bool {
    &&& 0 <= i < linux::all_socks(f, big).len()
    &&& linux::all_socks(f, big)[i].local_port != 0
    &&& names_socket(c, d, pid, linux::all_socks(f, big)[i].inode)
}

proof fn lemma_named_link(link: Seq<char>, inode: u64)
    requires
        link_names(link, inode),
    ensures
        holders::link_socket(link) == Some(inode as nat),
{
    let n = choose|n: Seq<char>|
        link == seq!['s', 'o', 'c', 'k', 'e', 't', ':', '['] + n + seq![']']
            && #[trigger] num::parse_unsigned(n, 10, 0xffff_ffff_ffff_ffff) == Some(inode as nat);
    reveal_strlit("socket:[");
    let prefix = "socket:["@;
    assert(prefix =~= seq!['s', 'o', 'c', 'k', 'e', 't', ':', '[']);
    assert(link.take(prefix.len() as int) =~= prefix);
    assert(link.subrange(prefix.len() as int, link.len() - 1) =~= n);
}

} // verus!
