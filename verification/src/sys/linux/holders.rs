//! Who holds which socket.

use crate::num;
use crate::sys::bytes;
use crate::text;
use std::collections::{HashMap, HashSet};
use vstd::prelude::*;

verus! {

broadcast use vstd::std_specs::hash::group_hash_axioms;

/// A directory under `/proc`: its name, and where the links under its `fd` lead, unless that
/// could not be read.
pub struct ProcDir {
    pub name: Vec<u8>,
    pub links: Option<Vec<Vec<u8>>>,
}

/// A directory under `/proc`, with its bytes as sequences.
#[verifier::ext_equal]
pub struct ProcDirView {
    pub name: Seq<u8>,
    pub links: Option<Seq<Seq<u8>>>,
}

impl View for ProcDir {
    type V = ProcDirView;

    open spec fn view(&self) -> ProcDirView {
        ProcDirView {
            name: self.name@,
            links: match self.links {
                Some(l) => Some(bytes::byte_views(l@)),
                None => None,
            },
        }
    }
}

/// The directories.
pub open spec fn dir_views(dirs: Seq<ProcDir>) -> Seq<ProcDirView> {
    dirs.map_values(|d: ProcDir| d@)
}

/// The process that a directory belongs to.
pub open spec fn dir_pid(d: ProcDirView) -> Option<int> {
    num::parse_signed(bytes::utf8_lossy(d.name))
}

/// The inode of the socket that a link leads to, such as `socket:[12345]`.
pub open spec fn link_socket(link: Seq<char>) -> Option<nat> {
    let prefix = "socket:["@;
    if text::starts_with(link, prefix) && link.len() > prefix.len() && link.last() == ']' {
        num::parse_unsigned(
            link.subrange(prefix.len() as int, link.len() - 1),
            10,
            0xffff_ffff_ffff_ffff,
        )
    } else {
        None
    }
}

/// Whether one of the links leads to the socket.
pub open spec fn leads_to(links: Seq<Seq<u8>>, inode: u64) -> bool {
    exists|i: int|
        0 <= i < links.len() && link_socket(bytes::utf8_lossy(#[trigger] links[i])) == Some(
            inode as nat,
        )
}

/// Whether the directory belongs to a process that holds the socket.
pub open spec fn holds(d: ProcDirView, inode: u64) -> bool {
    dir_pid(d) is Some && (d.links matches Some(links) && leads_to(links, inode))
}

/// `p` added to processes in ascending order; one that is there stays.
pub open spec fn with_pid(s: Seq<i32>, p: i32) -> Seq<i32>
    decreases s.len(),
{
    if s.len() == 0 {
        seq![p]
    } else if s[0] == p {
        s
    } else if p < s[0] {
        seq![p] + s
    } else {
        seq![s[0]] + with_pid(s.drop_first(), p)
    }
}

/// The processes that hold the socket, in ascending order and each once.
pub open spec fn holders(dirs: Seq<ProcDirView>, inode: u64) -> Seq<i32>
    decreases dirs.len(),
{
    if dirs.len() == 0 {
        Seq::<i32>::empty()
    } else {
        let before = holders(dirs.drop_last(), inode);
        let d = dirs.last();
        if holds(d, inode) {
            with_pid(before, dir_pid(d)->0 as i32)
        } else {
            before
        }
    }
}

/// Whether a directory belongs to a process whose links could not be read.
pub open spec fn unreadable(d: ProcDirView) -> bool {
    dir_pid(d) is Some && d.links is None
}

/// How many processes there are whose links could not be read.
pub open spec fn unreadable_count(dirs: Seq<ProcDirView>) -> nat
    decreases dirs.len(),
{
    if dirs.len() == 0 {
        0
    } else {
        unreadable_count(dirs.drop_last()) + if unreadable(dirs.last()) {
            1nat
        } else {
            0nat
        }
    }
}

/// Whether processes are in ascending order and none occurs twice.
pub open spec fn ascending(s: Seq<i32>) -> bool {
    forall|i: int, j: int| #![trigger s[i], s[j]] 0 <= i < j < s.len() ==> s[i] < s[j]
}

/// Adding a process keeps the order and adds that process alone.
pub proof fn lemma_with_pid(s: Seq<i32>, p: i32)
    requires
        ascending(s),
    ensures
        ascending(with_pid(s, p)),
        forall|q: i32| #[trigger] with_pid(s, p).contains(q) == (q == p || s.contains(q)),
        with_pid(s, p).len() > 0,
        with_pid(s, p)[0] == p || (s.len() > 0 && with_pid(s, p)[0] == s[0]),
    decreases s.len(),
{
    let r = with_pid(s, p);
    if s.len() == 0 {
        assert(r[0] == p);
    } else if s[0] == p {
        assert(s.contains(s[0]));
    } else if p < s[0] {
        assert forall|q: i32| #[trigger] r.contains(q) == (q == p || s.contains(q)) by {
            if s.contains(q) {
                let k = choose|k: int| 0 <= k < s.len() && s[k] == q;
                assert(r[k + 1] == q);
            }
            if r.contains(q) {
                let k = choose|k: int| 0 <= k < r.len() && r[k] == q;
                if k > 0 {
                    assert(s[k - 1] == q);
                }
            }
            assert(r[0] == p);
        }
        assert forall|i: int, j: int|
            #![trigger r[i], r[j]]
            0 <= i < j < r.len() implies r[i] < r[j] by {
            assert(r[j] == s[j - 1]);
            assert(s[0] <= s[j - 1]);
            if i > 0 {
                assert(r[i] == s[i - 1]);
            }
        }
    } else {
        let rest = s.drop_first();
        assert forall|i: int, j: int|
            #![trigger rest[i], rest[j]]
            0 <= i < j < rest.len() implies rest[i] < rest[j] by {
            assert(rest[i] == s[i + 1] && rest[j] == s[j + 1]);
        }
        lemma_with_pid(rest, p);
        let q0 = with_pid(rest, p);
        assert forall|q: i32| #[trigger] r.contains(q) == (q == p || s.contains(q)) by {
            if q0.contains(q) {
                let k = choose|k: int| 0 <= k < q0.len() && q0[k] == q;
                assert(r[k + 1] == q);
            }
            if r.contains(q) {
                let k = choose|k: int| 0 <= k < r.len() && r[k] == q;
                if k > 0 {
                    assert(q0[k - 1] == q);
                }
            }
            if s.contains(q) {
                let k = choose|k: int| 0 <= k < s.len() && s[k] == q;
                if k > 0 {
                    assert(rest[k - 1] == q);
                }
            }
            if rest.contains(q) {
                let k = choose|k: int| 0 <= k < rest.len() && rest[k] == q;
                assert(s[k + 1] == q);
            }
            assert(r[0] == s[0]);
            assert(s.contains(s[0]));
        }
        assert forall|i: int, j: int|
            #![trigger r[i], r[j]]
            0 <= i < j < r.len() implies r[i] < r[j] by {
            assert(r[j] == q0[j - 1]);
            if i > 0 {
                assert(r[i] == q0[i - 1]);
            } else {
                assert(q0.contains(q0[j - 1]));
                let v = q0[j - 1];
                if v != p {
                    assert(rest.contains(v));
                    let k = choose|k: int| 0 <= k < rest.len() && rest[k] == v;
                    assert(s[0] < s[k + 1]);
                }
            }
        }
    }
}

/// The holders of a socket are in ascending order.
pub proof fn lemma_holders_ascending(dirs: Seq<ProcDirView>, inode: u64)
    ensures
        ascending(holders(dirs, inode)),
    decreases dirs.len(),
{
    if dirs.len() > 0 {
        lemma_holders_ascending(dirs.drop_last(), inode);
        lemma_with_pid(holders(dirs.drop_last(), inode), dir_pid(dirs.last())->0 as i32);
    }
}

/// A process that was added is not added again.
proof fn lemma_with_pid_twice(s: Seq<i32>, p: i32)
    ensures
        with_pid(with_pid(s, p), p) == with_pid(s, p),
        with_pid(s, p).len() > 0,
    decreases s.len(),
{
    let r = with_pid(s, p);
    if s.len() > 0 && s[0] != p && !(p < s[0]) {
        lemma_with_pid_twice(s.drop_first(), p);
        assert(r.drop_first() =~= with_pid(s.drop_first(), p));
    }
}

/// The inode of the socket that a link leads to.
pub fn link_inode(link: &str) -> (r: Option<u64>)
    ensures
        match r {
            Some(i) => link_socket(link@) == Some(i as nat),
            None => link_socket(link@) is None,
        },
{
    let v = text::chars_of(link);
    let prefix: usize = 8;
    proof {
        reveal_strlit("socket:[");
    }
    if !text::begins(v.as_slice(), "socket:[") || v.len() <= prefix || v[v.len() - 1] != ']' {
        return None;
    }
    num::read_unsigned(
        text::copy_range(v.as_slice(), prefix, v.len() - 1).as_slice(),
        10,
        0xffff_ffff_ffff_ffff,
    )
}

/// The process that the name of a directory stands for.
pub fn pid_of(name: &[u8]) -> (r: Option<i32>)
    ensures
        match r {
            Some(p) => num::parse_signed(bytes::utf8_lossy(name@)) == Some(p as int),
            None => num::parse_signed(bytes::utf8_lossy(name@)) is None,
        },
{
    num::read_signed(text::chars_of(bytes::lossy(name).as_str()).as_slice())
}

/// Adds a process to those in ascending order.
pub fn add_pid(pids: &Vec<i32>, p: i32) -> (r: Vec<i32>)
    ensures
        r@ == with_pid(pids@, p),
{
    let mut r: Vec<i32> = Vec::new();
    let n: usize = pids.len();
    let mut i: usize = 0;
    assert(pids@.skip(0) =~= pids@);
    assert(r@ + with_pid(pids@.skip(0), p) =~= with_pid(pids@, p));
    while i < n && pids[i] < p
        invariant
            n == pids@.len(),
            i <= n,
            r@ + with_pid(pids@.skip(i as int), p) == with_pid(pids@, p),
        decreases n - i,
    {
        let ghost rest = pids@.skip(i as int);
        assert(rest[0] == pids@[i as int]);
        assert(rest.drop_first() =~= pids@.skip(i + 1));
        let ghost before = r@;
        r.push(pids[i]);
        assert(before + (seq![rest[0]] + with_pid(rest.drop_first(), p)) =~= r@ + with_pid(
            pids@.skip(i + 1),
            p,
        ));
        i = i + 1;
    }
    let ghost rest = pids@.skip(i as int);
    let ghost before = r@;
    if i < n {
        assert(rest[0] == pids@[i as int]);
    }
    if i == n || pids[i] != p {
        r.push(p);
    }
    let ghost tail = if i == n || pids@[i as int] != p {
        seq![p]
    } else {
        Seq::<i32>::empty()
    };
    assert(r@ =~= before + tail + rest.take(0));
    for k in i..n
        invariant
            n == pids@.len(),
            i <= n,
            rest == pids@.skip(i as int),
            r@ == before + tail + rest.take(k - i),
    {
        r.push(pids[k]);
        assert(r@ =~= before + tail + rest.take(k + 1 - i));
    }
    assert(rest.take(n - i) =~= rest);
    assert(tail + rest =~= with_pid(rest, p));
    assert(before + tail + rest =~= before + (tail + rest));
    r
}

/// The processes that hold the socket once the first `n` links of the directory behind `dirs`
/// were followed.
spec fn partly(dirs: Seq<ProcDirView>, p: i32, links: Seq<Seq<u8>>, n: int, inode: u64) -> Seq<
    i32,
> {
    if leads_to(links.take(n), inode) {
        with_pid(holders(dirs, inode), p)
    } else {
        holders(dirs, inode)
    }
}

proof fn lemma_leads_to_next(links: Seq<Seq<u8>>, n: int, inode: u64)
    requires
        0 <= n < links.len(),
    ensures
        leads_to(links.take(n + 1), inode) == (leads_to(links.take(n), inode) || link_socket(
            bytes::utf8_lossy(links[n]),
        ) == Some(inode as nat)),
{
    let a = links.take(n);
    let b = links.take(n + 1);
    if leads_to(a, inode) {
        let k = choose|k: int|
            0 <= k < a.len() && link_socket(bytes::utf8_lossy(#[trigger] a[k])) == Some(
                inode as nat,
            );
        assert(b[k] == a[k]);
    }
    assert(b[n] == links[n]);
    if leads_to(b, inode) {
        let k = choose|k: int|
            0 <= k < b.len() && link_socket(bytes::utf8_lossy(#[trigger] b[k])) == Some(
                inode as nat,
            );
        if k < n {
            assert(a[k] == b[k]);
        }
    }
}

/// Whether the map says of each wanted socket who holds it, by the given function.
spec fn maps_to(
    map: Map<u64, Vec<i32>>,
    wanted: Set<u64>,
    f: spec_fn(u64) -> Seq<i32>,
) -> bool {
    forall|i: u64|
        #![trigger map.contains_key(i)]
        map.contains_key(i) == (wanted.contains(i) && f(i).len() > 0) && (map.contains_key(i)
            ==> map[i]@ == f(i))
}

/// Adds the process to the holders of the sockets that its links lead to.
fn follow(
    map: &mut HashMap<u64, Vec<i32>>,
    wanted: &HashSet<u64>,
    p: i32,
    links: &Vec<Vec<u8>>,
    Ghost(dirs): Ghost<Seq<ProcDirView>>,
)
    requires
        maps_to(old(map)@, wanted@, |i: u64| holders(dirs, i)),
    ensures
        maps_to(
            final(map)@,
            wanted@,
            |i: u64|
                partly(dirs, p, bytes::byte_views(links@), links@.len() as int, i),
        ),
{
    let ghost all = bytes::byte_views(links@);
    assert forall|i: u64| #[trigger] partly(dirs, p, all, 0, i) == holders(dirs, i) by {
        assert(!leads_to(all.take(0), i));
    }
    for n in 0..links.len()
        invariant
            all == bytes::byte_views(links@),
            maps_to(map@, wanted@, |i: u64| partly(dirs, p, all, n as int, i)),
    {
        let ghost f = |i: u64| partly(dirs, p, all, n as int, i);
        let ghost g = |i: u64| partly(dirs, p, all, n + 1, i);
        let ghost before = map@;
        let link = bytes::lossy(links[n].as_slice());
        assert(link@ == bytes::utf8_lossy(all[n as int]));
        let target = link_inode(link.as_str());
        if let Some(inode) = target {
            proof {
                lemma_leads_to_next(all, n as int, inode);
                lemma_with_pid_twice(holders(dirs, inode), p);
            }
            assert(g(inode) == with_pid(f(inode), p));
            assert(g(inode).len() > 0);
            if wanted.contains(&inode) {
                let pids = match map.get(&inode) {
                    Some(pids) => add_pid(pids, p),
                    None => {
                        let none: Vec<i32> = Vec::new();
                        assert(!before.contains_key(inode));
                        assert(f(inode) =~= none@);
                        add_pid(&none, p)
                    },
                };
                assert(pids@ == g(inode));
                map.insert(inode, pids);
            }
        }
        assert(maps_to(map@, wanted@, g)) by {
            assert forall|i: u64| #![trigger map@.contains_key(i)]
                map@.contains_key(i) == (wanted@.contains(i) && g(i).len() > 0) && (
                map@.contains_key(i) ==> map@[i]@ == g(i)) by {
                lemma_leads_to_next(all, n as int, i);
                assert(before.contains_key(i) == (wanted@.contains(i) && f(i).len() > 0));
            }
        }
    }
}

/// Who holds each of the wanted sockets, and how many processes could not be looked into.
///
/// A socket may have several holders: what a process opened, its children inherit.
pub fn map_inodes_to_pids(wanted: &HashSet<u64>, dirs: &[ProcDir]) -> (r: (
    HashMap<u64, Vec<i32>>,
    usize,
))
    ensures
        forall|i: u64|
            #![trigger r.0@.contains_key(i)]
            r.0@.contains_key(i) == (wanted@.contains(i) && holders(dir_views(dirs@), i).len() > 0)
                && (r.0@.contains_key(i) ==> r.0@[i]@ == holders(dir_views(dirs@), i)),
        r.1 == unreadable_count(dir_views(dirs@)),
{
    let ghost all = dir_views(dirs@);
    let mut map: HashMap<u64, Vec<i32>> = HashMap::new();
    let mut skipped: usize = 0;
    assert(maps_to(map@, wanted@, |i: u64| holders(all.take(0), i)));
    for n in 0..dirs.len()
        invariant
            all == dir_views(dirs@),
            maps_to(map@, wanted@, |i: u64| holders(all.take(n as int), i)),
            skipped == unreadable_count(all.take(n as int)),
            skipped <= n,
    {
        let ghost done = all.take(n as int);
        let ghost next = all.take(n + 1);
        let d = &dirs[n];
        assert(next.drop_last() =~= done);
        assert(next.last() == d@);
        let ghost before = map@;
        let ghost f = |i: u64| holders(done, i);
        let ghost g = |i: u64| holders(next, i);
        match (pid_of(d.name.as_slice()), &d.links) {
            (Some(p), Some(links)) => {
                assert(maps_to(map@, wanted@, |i: u64| holders(done, i)));
                follow(&mut map, wanted, p, links, Ghost(done));
                let ghost h = |i: u64|
                    partly(done, p, bytes::byte_views(links@), links@.len() as int, i);
                proof {
                    let all_links = bytes::byte_views(links@);
                    assert(all_links.take(links@.len() as int) =~= all_links);
                    assert(maps_to(map@, wanted@, h));
                    assert(maps_to(map@, wanted@, g)) by {
                        assert forall|i: u64| #![trigger map@.contains_key(i)]
                            map@.contains_key(i) == (wanted@.contains(i) && g(i).len() > 0) && (
                            map@.contains_key(i) ==> map@[i]@ == g(i)) by {
                            assert(g(i) == h(i));
                        }
                    }
                }
            },
            (Some(_), None) => {
                skipped = skipped + 1;
                assert(maps_to(map@, wanted@, g)) by {
                    assert forall|i: u64| #![trigger map@.contains_key(i)]
                        map@.contains_key(i) == (wanted@.contains(i) && g(i).len() > 0) && (
                        map@.contains_key(i) ==> map@[i]@ == g(i)) by {
                        assert(g(i) == f(i));
                    }
                }
            },
            _ => {
                assert(maps_to(map@, wanted@, g)) by {
                    assert forall|i: u64| #![trigger map@.contains_key(i)]
                        map@.contains_key(i) == (wanted@.contains(i) && g(i).len() > 0) && (
                        map@.contains_key(i) ==> map@[i]@ == g(i)) by {
                        assert(g(i) == f(i));
                    }
                }
            },
        }
    }
    assert(all.take(all.len() as int) =~= all);
    (map, skipped)
}

} // verus!
