//! One row for the sockets of a process that differ only in the address they are bound to.

use crate::model;
use crate::model::{Entry, EntryView, Proto, TcpState};
use crate::text;
use crate::text::Sep;
use vstd::prelude::*;

verus! {

/// TCP comes before UDP.
pub open spec fn proto_rank(p: Proto) -> int {
    match p {
        Proto::Tcp => 0,
        Proto::Udp => 1,
    }
}

/// What states are ordered by: the name of the state, and nothing where there is none.
pub open spec fn state_key(s: Option<TcpState>) -> Seq<char> {
    match s {
        Some(s) => model::state_name(s),
        None => Seq::<char>::empty(),
    }
}

/// The order of rows but for their addresses: by port, protocol, process and state, and those
/// without a peer first.
pub open spec fn group_before(a: EntryView, b: EntryView) -> bool {
    if a.local_port != b.local_port {
        a.local_port < b.local_port
    } else if a.proto != b.proto {
        proto_rank(a.proto) < proto_rank(b.proto)
    } else if a.pid != b.pid {
        a.pid < b.pid
    } else if state_key(a.state) != state_key(b.state) {
        text::lex_less(state_key(a.state), state_key(b.state))
    } else {
        a.remote_addr is None && b.remote_addr is Some
    }
}

/// Whether the order of rows tells two rows apart only by their addresses.
pub open spec fn same_group(a: EntryView, b: EntryView) -> bool {
    &&& a.local_port == b.local_port
    &&& a.proto == b.proto
    &&& a.pid == b.pid
    &&& state_key(a.state) == state_key(b.state)
    &&& (a.remote_addr is Some) == (b.remote_addr is Some)
}

/// The order of rows.
pub open spec fn before(a: EntryView, b: EntryView) -> bool {
    if same_group(a, b) {
        text::lex_less(a.local_addr, b.local_addr)
    } else {
        group_before(a, b)
    }
}

/// `e` in front of the first row that does not come before it.
pub open spec fn insert(e: EntryView, s: Seq<EntryView>) -> Seq<EntryView>
    decreases s.len(),
{
    if s.len() == 0 || !before(s[0], e) {
        seq![e] + s
    } else {
        seq![s[0]] + insert(e, s.drop_first())
    }
}

/// The rows in order; rows that the order does not tell apart stay as they were.
pub open spec fn sorted(s: Seq<EntryView>) -> Seq<EntryView>
    decreases s.len(),
{
    if s.len() == 0 {
        s
    } else {
        insert(s[0], sorted(s.drop_first()))
    }
}

/// Whether two rows are one: the same process on the same port in the same state, and no peer.
pub open spec fn mergeable(a: EntryView, b: EntryView) -> bool {
    &&& a.pid == b.pid
    &&& a.proto == b.proto
    &&& a.local_port == b.local_port
    &&& a.state == b.state
    &&& a.remote_addr is None
    &&& b.remote_addr is None
}

/// The address of two rows that are one. An address that stands for all addresses takes in any
/// other; other addresses are listed, each of them once.
pub open spec fn both_addrs(a: Seq<char>, b: Seq<char>) -> Seq<char> {
    if a == b {
        a
    } else if a == "*"@ || b == "*"@ {
        "*"@
    } else if text::split(a, Sep::Char(',')).contains(b) {
        a
    } else {
        a + ","@ + b
    }
}

/// The first row with the address of both.
pub open spec fn joined(a: EntryView, b: EntryView) -> EntryView {
    EntryView { local_addr: both_addrs(a.local_addr, b.local_addr), ..a }
}

/// Neighbours that are one row, merged.
pub open spec fn merged(s: Seq<EntryView>) -> Seq<EntryView>
    decreases s.len(),
{
    if s.len() == 0 {
        s
    } else {
        let done = merged(s.drop_last());
        if done.len() > 0 && mergeable(done.last(), s.last()) {
            done.drop_last().push(joined(done.last(), s.last()))
        } else {
            done.push(s.last())
        }
    }
}

/// The rows in order, with those that are one merged.
pub open spec fn collapsed(s: Seq<EntryView>) -> Seq<EntryView> {
    merged(sorted(s))
}

/// Two sequences in order made into one; where neither row comes first, the left one does.
pub open spec fn merge(l: Seq<EntryView>, r: Seq<EntryView>) -> Seq<EntryView>
    decreases l.len() + r.len(),
{
    if l.len() == 0 {
        r
    } else if r.len() == 0 {
        l
    } else if before(r[0], l[0]) {
        seq![r[0]] + merge(l, r.drop_first())
    } else {
        seq![l[0]] + merge(l.drop_first(), r)
    }
}

/// No text comes before itself.
pub proof fn lemma_lex_irreflexive(a: Seq<char>)
    ensures
        !text::lex_less(a, a),
    decreases a.len(),
{
    if a.len() > 0 {
        lemma_lex_irreflexive(a.drop_first());
    }
}

/// Lexicographic order is total and transitive.
pub proof fn lemma_lex_order(a: Seq<char>, b: Seq<char>, c: Seq<char>)
    ensures
        text::lex_less(a, b) ==> !text::lex_less(b, a),
        text::lex_less(a, b) && text::lex_less(b, c) ==> text::lex_less(a, c),
        a == b || text::lex_less(a, b) || text::lex_less(b, a),
    decreases a.len() + b.len() + c.len(),
{
    if a.len() == 0 && b.len() == 0 {
        assert(a =~= b);
    }
    if a.len() > 0 && b.len() > 0 {
        let a1 = a.drop_first();
        let b1 = b.drop_first();
        if c.len() > 0 {
            lemma_lex_order(a1, b1, c.drop_first());
        } else {
            lemma_lex_order(a1, b1, c);
        }
        assert(a =~= seq![a[0]] + a1);
        assert(b =~= seq![b[0]] + b1);
    }
}

/// The order of rows is a strict weak order.
pub proof fn lemma_order(a: EntryView, b: EntryView, c: EntryView)
    ensures
        !before(a, a),
        before(a, b) ==> !before(b, a),
        before(a, b) && before(b, c) ==> before(a, c),
        before(a, b) && !before(c, b) ==> before(a, c),
        !before(b, a) && before(b, c) ==> before(a, c),
        !before(b, a) && !before(c, b) ==> !before(c, a),
{
    lemma_lex_irreflexive(a.local_addr);
    lemma_lex_order(a.local_addr, b.local_addr, c.local_addr);
    lemma_lex_order(b.local_addr, c.local_addr, a.local_addr);
    lemma_lex_order(c.local_addr, a.local_addr, b.local_addr);
    lemma_lex_order(a.local_addr, c.local_addr, b.local_addr);
    lemma_lex_order(c.local_addr, b.local_addr, a.local_addr);
    lemma_lex_order(b.local_addr, a.local_addr, c.local_addr);
    let x = state_key(a.state);
    let y = state_key(b.state);
    let z = state_key(c.state);
    lemma_lex_order(x, y, z);
    lemma_lex_order(y, z, x);
    lemma_lex_order(z, x, y);
    lemma_lex_order(x, z, y);
    lemma_lex_order(z, y, x);
    lemma_lex_order(y, x, z);
}

/// Inserting into the left of two sequences is inserting into what they merge to.
proof fn lemma_merge_insert(x: EntryView, l: Seq<EntryView>, r: Seq<EntryView>)
    ensures
        merge(insert(x, l), r) == insert(x, merge(l, r)),
    decreases l.len() + r.len(),
{
    let left = insert(x, l);
    if r.len() == 0 {
        assert(left.len() > 0);
        assert(merge(l, r) =~= l);
    } else if l.len() == 0 || !before(l[0], x) {
        assert(left.drop_first() =~= l);
        if before(r[0], x) {
            if l.len() > 0 {
                lemma_order(r[0], x, l[0]);
            }
            lemma_merge_insert(x, l, r.drop_first());
            let m = merge(l, r);
            assert(m =~= seq![r[0]] + merge(l, r.drop_first()));
            assert(m.drop_first() =~= merge(l, r.drop_first()));
        }
    } else {
        assert(left.drop_first() =~= insert(x, l.drop_first()));
        if before(r[0], l[0]) {
            lemma_order(r[0], l[0], x);
            lemma_merge_insert(x, l, r.drop_first());
            let m = merge(l, r);
            assert(m.drop_first() =~= merge(l, r.drop_first()));
        } else {
            lemma_merge_insert(x, l.drop_first(), r);
            let m = merge(l, r);
            assert(m.drop_first() =~= merge(l.drop_first(), r));
        }
    }
}

/// Sorting two halves and merging them sorts the whole.
proof fn lemma_sorted_halves(a: Seq<EntryView>, b: Seq<EntryView>)
    ensures
        sorted(a + b) == merge(sorted(a), sorted(b)),
    decreases a.len(),
{
    if a.len() == 0 {
        assert(a + b =~= b);
    } else {
        lemma_sorted_halves(a.drop_first(), b);
        assert((a + b).drop_first() =~= a.drop_first() + b);
        lemma_merge_insert(a[0], sorted(a.drop_first()), sorted(b));
    }
}

impl Entry {
    fn proto_rank(&self) -> (r: u8)
        ensures
            r == proto_rank(self.proto),
    {
        match self.proto {
            Proto::Tcp => 0,
            Proto::Udp => 1,
        }
    }

    /// What rows are ordered by for their state, so that equal states stand together.
    fn state_key(&self) -> (r: &'static str)
        ensures
            r@ == state_key(self.state),
    {
        match self.state {
            Some(s) => s.as_str(),
            None => {
                proof {
                    reveal_strlit("");
                    assert(""@ =~= Seq::<char>::empty());
                }
                ""
            },
        }
    }
}

/// Whether row `a` comes before row `b`.
fn comes_before(a: &Entry, b: &Entry) -> (r: bool)
    ensures
        r == before(a@, b@),
{
    if a.local_port != b.local_port {
        return a.local_port < b.local_port;
    }
    if a.proto_rank() != b.proto_rank() {
        return a.proto_rank() < b.proto_rank();
    }
    if a.pid != b.pid {
        return a.pid < b.pid;
    }
    let x = text::chars_of(a.state_key());
    let y = text::chars_of(b.state_key());
    if !text::same_chars(x.as_slice(), y.as_slice()) {
        return text::precedes(x.as_slice(), y.as_slice());
    }
    if a.remote_addr.is_some() != b.remote_addr.is_some() {
        return b.remote_addr.is_some();
    }
    text::precedes(
        text::chars_of(a.local_addr.as_str()).as_slice(),
        text::chars_of(b.local_addr.as_str()).as_slice(),
    )
}

/// The entries at the given places.
pub open spec fn picked(entries: Seq<Entry>, places: Seq<usize>) -> Seq<EntryView> {
    places.map_values(|i: usize| entries[i as int]@)
}

/// Whether all places lie within the entries.
pub open spec fn within(places: Seq<usize>, n: nat) -> bool {
    forall|i: int| 0 <= i < places.len() ==> (#[trigger] places[i]) < n
}

/// Merges two sequences of places that are in order.
fn merge_places(entries: &Vec<Entry>, l: &Vec<usize>, r: &Vec<usize>) -> (out: Vec<usize>)
    requires
        within(l@, entries@.len()),
        within(r@, entries@.len()),
    ensures
        within(out@, entries@.len()),
        picked(entries@, out@) == merge(picked(entries@, l@), picked(entries@, r@)),
{
    let ghost left = picked(entries@, l@);
    let ghost right = picked(entries@, r@);
    let mut out: Vec<usize> = Vec::new();
    let mut i: usize = 0;
    let mut j: usize = 0;
    assert(left.skip(0) =~= left);
    assert(right.skip(0) =~= right);
    assert(picked(entries@, out@) + merge(left, right) =~= merge(left, right));
    while i < l.len() || j < r.len()
        invariant
            i <= l@.len(),
            j <= r@.len(),
            left == picked(entries@, l@),
            right == picked(entries@, r@),
            within(l@, entries@.len()),
            within(r@, entries@.len()),
            within(out@, entries@.len()),
            picked(entries@, out@) + merge(left.skip(i as int), right.skip(j as int)) == merge(
                left,
                right,
            ),
        decreases l@.len() - i + r@.len() - j,
    {
        let ghost a = left.skip(i as int);
        let ghost b = right.skip(j as int);
        let ghost done = out@;
        if i < l.len() {
            assert(l@[i as int] < entries@.len());
            assert(a[0] == entries@[l@[i as int] as int]@);
        }
        if j < r.len() {
            assert(r@[j as int] < entries@.len());
            assert(b[0] == entries@[r@[j as int] as int]@);
        }
        let take_right = i >= l.len() || (j < r.len() && comes_before(
            &entries[r[j]],
            &entries[l[i]],
        ));
        if take_right {
            out.push(r[j]);
            assert(b.drop_first() =~= right.skip(j + 1));
            assert(picked(entries@, out@) =~= picked(entries@, done).push(b[0]));
            assert(merge(a, b) =~= seq![b[0]] + merge(a, b.drop_first())) by {
                if a.len() == 0 {
                    assert(b =~= seq![b[0]] + b.drop_first());
                }
            }
            j = j + 1;
        } else {
            out.push(l[i]);
            assert(a.drop_first() =~= left.skip(i + 1));
            assert(picked(entries@, out@) =~= picked(entries@, done).push(a[0]));
            assert(merge(a, b) =~= seq![a[0]] + merge(a.drop_first(), b)) by {
                if b.len() == 0 {
                    assert(a =~= seq![a[0]] + a.drop_first());
                    assert(merge(a.drop_first(), b) =~= a.drop_first());
                }
            }
            i = i + 1;
        }
        assert(picked(entries@, out@) + merge(left.skip(i as int), right.skip(j as int))
            =~= picked(entries@, done) + merge(a, b));
    }
    assert(merge(left.skip(i as int), right.skip(j as int)) =~= Seq::<EntryView>::empty());
    assert(picked(entries@, out@) =~= merge(left, right));
    out
}

/// The places from `from` up to `to` in the order of their rows.
fn sort_places(entries: &Vec<Entry>, from: usize, to: usize) -> (out: Vec<usize>)
    requires
        from <= to <= entries@.len(),
    ensures
        within(out@, entries@.len()),
        picked(entries@, out@) == sorted(
            model::entry_views(entries@).subrange(from as int, to as int),
        ),
    decreases to - from,
{
    let ghost rows = model::entry_views(entries@).subrange(from as int, to as int);
    if to - from <= 1 {
        let mut out: Vec<usize> = Vec::new();
        if from < to {
            out.push(from);
            assert(rows.drop_first() =~= Seq::<EntryView>::empty());
            assert(sorted(rows.drop_first()) =~= Seq::<EntryView>::empty());
            assert(sorted(rows) =~= seq![rows[0]]);
        }
        assert(picked(entries@, out@) =~= sorted(rows));
        return out;
    }
    let mid: usize = from + (to - from) / 2;
    let l = sort_places(entries, from, mid);
    let r = sort_places(entries, mid, to);
    proof {
        let a = model::entry_views(entries@).subrange(from as int, mid as int);
        let b = model::entry_views(entries@).subrange(mid as int, to as int);
        assert(a + b =~= rows);
        lemma_sorted_halves(a, b);
    }
    merge_places(entries, &l, &r)
}

/// Whether two rows are one.
fn are_one(a: &Entry, b: &Entry) -> (r: bool)
    ensures
        r == mergeable(a@, b@),
{
    let same_state = match (a.state, b.state) {
        (Some(x), Some(y)) => x == y,
        (None, None) => true,
        _ => false,
    };
    a.pid == b.pid && a.proto == b.proto && a.local_port == b.local_port && same_state
        && a.remote_addr.is_none() && b.remote_addr.is_none()
}

/// Whether a list of addresses holds the address `a`.
fn lists(list: &str, a: &str) -> (r: bool)
    ensures
        r == text::split(list@, Sep::Char(',')).contains(a@),
{
    let pieces = text::split_chars(text::chars_of(list).as_slice(), Sep::Char(','));
    let addr = text::chars_of(a);
    let ghost all = text::char_views(pieces@);
    for i in 0..pieces.len()
        invariant
            all == text::char_views(pieces@),
            all == text::split(list@, Sep::Char(',')),
            addr@ == a@,
            forall|k: int| 0 <= k < i ==> #[trigger] all[k] != a@,
    {
        assert(all[i as int] == pieces@[i as int]@);
        if text::same_chars(pieces[i].as_slice(), addr.as_slice()) {
            return true;
        }
    }
    false
}

/// Merges the rows of one process that listen on the same port through different addresses,
/// such as an IPv4 and an IPv6 one, and puts the rows in order.
pub fn collapse(entries: Vec<Entry>) -> (r: Vec<Entry>)
    ensures
        model::entry_views(r@) == collapsed(model::entry_views(entries@)),
{
    let ghost rows = model::entry_views(entries@);
    let places = sort_places(&entries, 0, entries.len());
    assert(rows.subrange(0, rows.len() as int) =~= rows);
    let ghost order = picked(entries@, places@);
    let mut out: Vec<Entry> = Vec::new();
    assert(model::entry_views(out@) =~= merged(order.take(0)));
    for i in 0..places.len()
        invariant
            within(places@, entries@.len()),
            order == picked(entries@, places@),
            model::entry_views(out@) == merged(order.take(i as int)),
    {
        assert(places@[i as int] < entries@.len());
        let e = entries[places[i]].clone();
        let ghost done = model::entry_views(out@);
        assert(order.take(i + 1).drop_last() =~= order.take(i as int));
        assert(order.take(i + 1).last() == e@);
        let one = out.len() > 0 && are_one(&out[out.len() - 1], &e);
        assert(out@.len() > 0 ==> done.last() == out@[out@.len() - 1]@);
        if one {
            match out.pop() {
                Some(mut prev) => {
                    let ghost was = prev@;
                    let ghost rest = out@;
                    assert(model::entry_views(rest) =~= done.drop_last());
                    if !text::same(prev.local_addr.as_str(), e.local_addr.as_str()) {
                        if text::same(prev.local_addr.as_str(), "*") || text::same(
                            e.local_addr.as_str(),
                            "*",
                        ) {
                            let mut any = String::new();
                            any.append("*");
                            assert(any@ =~= "*"@);
                            prev.local_addr = any;
                        } else if !lists(prev.local_addr.as_str(), e.local_addr.as_str()) {
                            let mut list = prev.local_addr.clone();
                            list.append(",");
                            list.append(e.local_addr.as_str());
                            prev.local_addr = list;
                        }
                    }
                    assert(prev@ =~= joined(was, e@));
                    out.push(prev);
                    assert(model::entry_views(out@) =~= done.drop_last().push(prev@));
                },
                None => {},
            }
        } else {
            let ghost rest = out@;
            out.push(e);
            assert(model::entry_views(out@) =~= done.push(e@));
        }
    }
    assert(order.take(order.len() as int) =~= order);
    out
}

} // verus!
