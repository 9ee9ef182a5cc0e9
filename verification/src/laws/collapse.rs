//! Laws of collapsing rows: their order, and that no socket is lost and no address listed twice.

use crate::laws;
use crate::model;
use crate::model::{EntryView, Proto, TcpState};
use crate::render::collapse;
use crate::text;
use crate::text::Sep;
use vstd::prelude::*;

verus! {

/// No row comes before one that stands in front of it.
pub open spec fn in_order(s: Seq<EntryView>) -> bool {
    forall|i: int, j: int|
        #![trigger s[i], s[j]]
        0 <= i < j < s.len() ==> !collapse::before(s[j], s[i])
}

/// The rows of `s` that the order does not tell apart from `x`.
pub open spec fn alike(s: Seq<EntryView>, x: EntryView) -> Seq<EntryView>
    decreases s.len(),
{
    if s.len() == 0 {
        s
    } else {
        let rest = alike(s.drop_first(), x);
        if collapse::before(s[0], x) || collapse::before(x, s[0]) {
            rest
        } else {
            seq![s[0]] + rest
        }
    }
}

/// What an insertion holds.
proof fn lemma_insert_members(e: EntryView, s: Seq<EntryView>)
    ensures
        collapse::insert(e, s).len() == s.len() + 1,
        forall|i: int|
            0 <= i < collapse::insert(e, s).len() ==> (#[trigger] collapse::insert(e, s)[i] == e
                || s.contains(collapse::insert(e, s)[i])),
    decreases s.len(),
{
    let r = collapse::insert(e, s);
    if s.len() == 0 || !collapse::before(s[0], e) {
        assert forall|i: int| 0 <= i < r.len() implies (#[trigger] r[i] == e || s.contains(r[i])) by {
            if i > 0 {
                assert(r[i] == s[i - 1]);
            }
        }
    } else {
        let rest = s.drop_first();
        lemma_insert_members(e, rest);
        let q = collapse::insert(e, rest);
        assert forall|i: int| 0 <= i < r.len() implies (#[trigger] r[i] == e || s.contains(r[i])) by {
            if i == 0 {
                assert(r[0] == s[0]);
            } else {
                assert(r[i] == q[i - 1]);
                if q[i - 1] != e {
                    let k = choose|k: int| 0 <= k < rest.len() && rest[k] == q[i - 1];
                    assert(s[k + 1] == rest[k]);
                }
            }
        }
    }
}

proof fn lemma_insert_in_order(e: EntryView, s: Seq<EntryView>)
    requires
        in_order(s),
    ensures
        in_order(collapse::insert(e, s)),
    decreases s.len(),
{
    let r = collapse::insert(e, s);
    lemma_insert_members(e, s);
    if s.len() == 0 || !collapse::before(s[0], e) {
        assert forall|i: int, j: int|
            #![trigger r[i], r[j]]
            0 <= i < j < r.len() implies !collapse::before(r[j], r[i]) by {
            assert(r[j] == s[j - 1]);
            if i == 0 {
                if j > 1 {
                    assert(!collapse::before(s[j - 1], s[0]));
                    collapse::lemma_order(e, s[0], s[j - 1]);
                }
            } else {
                assert(r[i] == s[i - 1]);
            }
        }
    } else {
        let rest = s.drop_first();
        assert forall|i: int, j: int|
            #![trigger rest[i], rest[j]]
            0 <= i < j < rest.len() implies !collapse::before(rest[j], rest[i]) by {
            assert(rest[i] == s[i + 1]);
            assert(rest[j] == s[j + 1]);
        }
        lemma_insert_in_order(e, rest);
        lemma_insert_members(e, rest);
        let q = collapse::insert(e, rest);
        assert forall|i: int, j: int|
            #![trigger r[i], r[j]]
            0 <= i < j < r.len() implies !collapse::before(r[j], r[i]) by {
            assert(r[j] == q[j - 1]);
            if i == 0 {
                assert(r[0] == s[0]);
                if q[j - 1] == e {
                    collapse::lemma_order(s[0], e, e);
                } else {
                    let k = choose|k: int| 0 <= k < rest.len() && rest[k] == q[j - 1];
                    assert(s[k + 1] == rest[k]);
                    assert(!collapse::before(s[k + 1], s[0]));
                }
            } else {
                assert(r[i] == q[i - 1]);
            }
        }
    }
}

/// Sorting puts the rows in order.
pub proof fn law_sorted_is_in_order(s: Seq<EntryView>)
    ensures
        in_order(collapse::sorted(s)),
    decreases s.len(),
{
    if s.len() > 0 {
        law_sorted_is_in_order(s.drop_first());
        lemma_insert_in_order(s[0], collapse::sorted(s.drop_first()));
    }
}

proof fn lemma_insert_alike(e: EntryView, s: Seq<EntryView>, x: EntryView)
    ensures
        alike(collapse::insert(e, s), x) == if collapse::before(e, x) || collapse::before(x, e) {
            alike(s, x)
        } else {
            seq![e] + alike(s, x)
        },
    decreases s.len(),
{
    let r = collapse::insert(e, s);
    if s.len() == 0 || !collapse::before(s[0], e) {
        assert(r.drop_first() =~= s);
    } else {
        let rest = s.drop_first();
        assert(r.drop_first() =~= collapse::insert(e, rest));
        lemma_insert_alike(e, rest, x);
        collapse::lemma_order(s[0], e, x);
        collapse::lemma_order(x, s[0], e);
        collapse::lemma_order(s[0], x, e);
        collapse::lemma_order(e, x, s[0]);
    }
}

/// Sorting keeps the rows that the order does not tell apart, and their order among themselves.
pub proof fn law_sorting_is_stable(s: Seq<EntryView>, x: EntryView)
    ensures
        alike(collapse::sorted(s), x) == alike(s, x),
    decreases s.len(),
{
    if s.len() > 0 {
        law_sorting_is_stable(s.drop_first(), x);
        lemma_insert_alike(s[0], collapse::sorted(s.drop_first()), x);
    }
}

proof fn lemma_insert_multiset(e: EntryView, s: Seq<EntryView>)
    ensures
        collapse::insert(e, s).to_multiset() == s.to_multiset().insert(e),
    decreases s.len(),
{
    broadcast use vstd::seq_lib::group_to_multiset_ensures;

    let r = collapse::insert(e, s);
    if s.len() == 0 || !collapse::before(s[0], e) {
        assert(r =~= s.insert(0, e));
        vstd::seq_lib::lemma_multiset_commutative(seq![e], s);
        assert(seq![e] =~= Seq::<EntryView>::empty().push(e));
        assert(r.to_multiset() =~= s.to_multiset().insert(e));
    } else {
        let rest = s.drop_first();
        lemma_insert_multiset(e, rest);
        let head = seq![s[0]];
        assert(head =~= Seq::<EntryView>::empty().push(s[0]));
        vstd::seq_lib::lemma_multiset_commutative(head, collapse::insert(e, rest));
        vstd::seq_lib::lemma_multiset_commutative(head, rest);
        assert(s =~= head + rest);
        assert(r.to_multiset() =~= s.to_multiset().insert(e));
    }
}

/// Sorting adds no row and loses none.
pub proof fn law_sorting_keeps_the_rows(s: Seq<EntryView>)
    ensures
        collapse::sorted(s).to_multiset() == s.to_multiset(),
    decreases s.len(),
{
    broadcast use vstd::seq_lib::group_to_multiset_ensures;

    if s.len() > 0 {
        let rest = s.drop_first();
        law_sorting_keeps_the_rows(rest);
        lemma_insert_multiset(s[0], collapse::sorted(rest));
        let head = seq![s[0]];
        assert(head =~= Seq::<EntryView>::empty().push(s[0]));
        vstd::seq_lib::lemma_multiset_commutative(head, rest);
        assert(s =~= head + rest);
        assert(collapse::sorted(s).to_multiset() =~= s.to_multiset());
    }
}

proof fn lemma_group_order(a: EntryView, b: EntryView, c: EntryView)
    ensures
        !collapse::group_before(b, a) && !collapse::group_before(c, b) ==> !collapse::group_before(
            c,
            a,
        ),
        !collapse::group_before(a, b) && !collapse::group_before(b, a) ==> collapse::same_group(
            a,
            b,
        ),
        collapse::same_group(a, b) ==> !collapse::group_before(a, b),
        collapse::same_group(a, b) ==> collapse::group_before(a, c) == collapse::group_before(b, c),
        collapse::same_group(a, b) ==> collapse::group_before(c, a) == collapse::group_before(c, b),
{
    let x = collapse::state_key(a.state);
    let y = collapse::state_key(b.state);
    let z = collapse::state_key(c.state);
    collapse::lemma_lex_order(x, y, z);
    collapse::lemma_lex_order(y, z, x);
    collapse::lemma_lex_order(z, x, y);
    collapse::lemma_lex_order(x, z, y);
    collapse::lemma_lex_order(z, y, x);
    collapse::lemma_lex_order(y, x, z);
}

/// No row belongs to a group in front of the group of an earlier row.
pub open spec fn grouped(s: Seq<EntryView>) -> bool {
    forall|i: int, j: int|
        #![trigger s[i], s[j]]
        0 <= i < j < s.len() ==> !collapse::group_before(s[j], s[i])
}

/// No two neighbours are one row.
pub open spec fn neighbours_apart(s: Seq<EntryView>) -> bool {
    forall|i: int| 0 < i < s.len() ==> !collapse::mergeable(s[i - 1], #[trigger] s[i])
}

proof fn lemma_merged_grouped(s: Seq<EntryView>)
    requires
        grouped(s),
    ensures
        grouped(collapse::merged(s)),
        neighbours_apart(collapse::merged(s)),
        s.len() > 0 ==> collapse::merged(s).len() > 0 && collapse::same_group(
            collapse::merged(s).last(),
            s.last(),
        ),
    decreases s.len(),
{
    if s.len() > 0 {
        let front = s.drop_last();
        let e = s.last();
        assert forall|i: int, j: int|
            #![trigger front[i], front[j]]
            0 <= i < j < front.len() implies !collapse::group_before(front[j], front[i]) by {
            assert(front[i] == s[i]);
            assert(front[j] == s[j]);
        }
        lemma_merged_grouped(front);
        let done = collapse::merged(front);
        let all = collapse::merged(s);
        let n = all.len() - 1;
        assert(collapse::same_group(all[n], e));
        assert forall|i: int, j: int|
            #![trigger all[i], all[j]]
            0 <= i < j < all.len() implies !collapse::group_before(all[j], all[i]) by {
            assert(all[i] == done[i]);
            if j < n {
                assert(all[j] == done[j]);
            } else {
                let m = done.len() - 1;
                let f = front.len() - 1;
                assert(front[f] == s[f]);
                assert(!collapse::group_before(s[s.len() - 1], s[f]));
                lemma_group_order(done[m], front[f], e);
                if i < m {
                    assert(!collapse::group_before(done[m], done[i]));
                } else {
                    lemma_group_order(done[i], done[i], done[i]);
                }
                lemma_group_order(done[i], done[m], e);
                lemma_group_order(all[n], e, done[i]);
            }
        }
        assert forall|i: int| 0 < i < all.len() implies !collapse::mergeable(
            all[i - 1],
            #[trigger] all[i],
        ) by {
            assert(all[i - 1] == done[i - 1]);
            if i < done.len() {
                assert(!collapse::mergeable(done[i - 1], done[i]));
            }
        }
    }
}

proof fn lemma_in_order_grouped(s: Seq<EntryView>)
    requires
        in_order(s),
    ensures
        grouped(s),
{
    assert forall|i: int, j: int|
        #![trigger s[i], s[j]]
        0 <= i < j < s.len() implies !collapse::group_before(s[j], s[i]) by {
        lemma_group_order(s[j], s[i], s[i]);
    }
}

/// Rows that are one belong to one group, and in a group without peers all rows are one.
proof fn lemma_group_without_peers(a: EntryView, b: EntryView)
    ensures
        collapse::mergeable(a, b) ==> collapse::same_group(a, b),
        collapse::same_group(a, b) && a.remote_addr is None ==> collapse::mergeable(a, b),
{
    model::lemma_state_names();
    if collapse::same_group(a, b) {
        match (a.state, b.state) {
            (Some(x), Some(y)) => {
                assert(model::state_name(x) == model::state_name(y));
            },
            (Some(x), None) => {
                assert(model::state_name(x).len() > 0);
            },
            (None, Some(y)) => {
                assert(model::state_name(y).len() > 0);
            },
            (None, None) => {},
        }
    }
}

/// Whatever stands between two rows of the input, no two rows of the result are of one process,
/// protocol, port and state, unless they have a peer.
pub proof fn law_no_two_rows_are_one(s: Seq<EntryView>)
    ensures
        forall|i: int, j: int|
            #![trigger collapse::collapsed(s)[i], collapse::collapsed(s)[j]]
            0 <= i < j < collapse::collapsed(s).len() ==> {
                let a = collapse::collapsed(s)[i];
                let b = collapse::collapsed(s)[j];
                ||| a.pid != b.pid || a.proto != b.proto
                ||| a.local_port != b.local_port || a.state != b.state
                ||| a.remote_addr is Some || b.remote_addr is Some
            },
{
    let m = collapse::collapsed(s);
    law_sorted_is_in_order(s);
    lemma_in_order_grouped(collapse::sorted(s));
    lemma_merged_grouped(collapse::sorted(s));
    assert forall|i: int, j: int|
        #![trigger m[i], m[j]]
        0 <= i < j < m.len() implies !collapse::mergeable(m[i], m[j]) by {
        if collapse::mergeable(m[i], m[j]) {
            let k = i + 1;
            lemma_group_without_peers(m[i], m[j]);
            assert(!collapse::group_before(m[k], m[i]));
            if k < j {
                assert(!collapse::group_before(m[j], m[k]));
            } else {
                lemma_group_order(m[j], m[j], m[j]);
            }
            lemma_group_order(m[j], m[i], m[k]);
            lemma_group_order(m[i], m[k], m[k]);
            lemma_group_without_peers(m[i], m[k]);
            assert(!collapse::mergeable(m[k - 1], m[k]));
        }
    }
}

/// The result is in order: by port, protocol, process and name of the state, those without a
/// peer first, and rows that all of these leave together by their addresses. In particular, ports
/// ascend.
pub proof fn law_collapsed_is_in_order(s: Seq<EntryView>)
    ensures
        grouped(collapse::collapsed(s)),
        in_order(collapse::collapsed(s)),
        forall|i: int, j: int|
            #![trigger collapse::collapsed(s)[i], collapse::collapsed(s)[j]]
            0 <= i < j < collapse::collapsed(s).len() ==> collapse::collapsed(s)[i].local_port
                <= collapse::collapsed(s)[j].local_port,
{
    law_sorted_is_in_order(s);
    lemma_merged_in_order(collapse::sorted(s));
    lemma_in_order_grouped(collapse::collapsed(s));
    let m = collapse::collapsed(s);
    assert forall|i: int, j: int|
        #![trigger m[i], m[j]]
        0 <= i < j < m.len() implies m[i].local_port <= m[j].local_port by {
        assert(!collapse::group_before(m[j], m[i]));
    }
}

/// Whether the address `list` of a row stands for the address `a`: it is it, it lists it, or it
/// stands for all addresses.
pub open spec fn covers(list: Seq<char>, a: Seq<char>) -> bool {
    list == "*"@ || text::split(list, Sep::Char(',')).contains(a)
}

/// Whether row `r` shows what row `e` shows.
pub open spec fn shows(r: EntryView, e: EntryView) -> bool {
    &&& r.pid == e.pid
    &&& r.proto == e.proto
    &&& r.local_port == e.local_port
    &&& r.state == e.state
    &&& (e.remote_addr is Some ==> r == e)
    &&& (e.remote_addr is None ==> r.remote_addr is None)
    &&& covers(r.local_addr, e.local_addr)
}

/// Whether an address is a single one.
pub open spec fn single(a: Seq<char>) -> bool {
    forall|i: int| 0 <= i < a.len() ==> #[trigger] a[i] != ','
}

proof fn lemma_single_covers_itself(a: Seq<char>)
    requires
        single(a),
    ensures
        covers(a, a),
{
    text::lemma_split_solid(a, Sep::Char(','));
    assert(seq![a][0] == a);
}

proof fn lemma_split_listed(a: Seq<char>, b: Seq<char>)
    requires
        single(b),
    ensures
        text::split(a + ","@ + b, Sep::Char(',')) == text::split(a, Sep::Char(',')).push(b),
{
    reveal_strlit(",");
    assert(a + ","@ + b =~= a.push(',') + b);
    text::lemma_split_behind(a, ',', b, Sep::Char(','));
}

proof fn lemma_both_addrs_cover(a: Seq<char>, b: Seq<char>, x: Seq<char>)
    requires
        single(b),
        covers(a, x) || x == b,
    ensures
        covers(collapse::both_addrs(a, b), x),
{
    lemma_single_covers_itself(b);
    let pieces = text::split(a, Sep::Char(','));
    if a != b && a != "*"@ && b != "*"@ && !pieces.contains(b) {
        lemma_split_listed(a, b);
        let all = pieces.push(b);
        if x == b {
            assert(all[pieces.len() as int] == x);
        } else {
            let k = choose|k: int| 0 <= k < pieces.len() && pieces[k] == x;
            assert(all[k] == x);
        }
    }
}

proof fn lemma_merged_shows(s: Seq<EntryView>, i: int)
    requires
        0 <= i < s.len(),
        forall|k: int| 0 <= k < s.len() ==> single((#[trigger] s[k]).local_addr),
    ensures
        exists|j: int|
            0 <= j < collapse::merged(s).len() && shows(#[trigger] collapse::merged(s)[j], s[i]),
    decreases s.len(),
{
    let front = s.drop_last();
    let e = s.last();
    let done = collapse::merged(front);
    let all = collapse::merged(s);
    let n = all.len() - 1;
    assert forall|k: int| 0 <= k < front.len() implies single((#[trigger] front[k]).local_addr) by {
        assert(front[k] == s[k]);
    }
    assert(single(s[s.len() - 1].local_addr));
    let one = done.len() > 0 && collapse::mergeable(done.last(), e);
    if i == s.len() - 1 {
        lemma_single_covers_itself(e.local_addr);
        if one {
            lemma_both_addrs_cover(done.last().local_addr, e.local_addr, e.local_addr);
        }
        assert(shows(all[n], s[i]));
    } else {
        assert(front[i] == s[i]);
        lemma_merged_shows(front, i);
        let j = choose|j: int| 0 <= j < done.len() && shows(#[trigger] done[j], front[i]);
        if one && j == done.len() - 1 {
            lemma_both_addrs_cover(done.last().local_addr, e.local_addr, s[i].local_addr);
            assert(shows(all[n], s[i]));
        } else {
            assert(all[j] == done[j]);
        }
    }
}

/// Sorting rows of single addresses gives such rows.
proof fn lemma_sorted_single(s: Seq<EntryView>)
    requires
        forall|k: int| 0 <= k < s.len() ==> single((#[trigger] s[k]).local_addr),
    ensures
        forall|k: int|
            0 <= k < collapse::sorted(s).len() ==> single(
                (#[trigger] collapse::sorted(s)[k]).local_addr,
            ),
{
    broadcast use vstd::seq_lib::group_to_multiset_ensures;

    let t = collapse::sorted(s);
    law_sorting_keeps_the_rows(s);
    assert forall|m: int| 0 <= m < t.len() implies single((#[trigger] t[m]).local_addr) by {
        assert(t.contains(t[m]));
        assert(t.to_multiset().count(t[m]) > 0);
        assert(s.contains(t[m]));
        let q = choose|q: int| 0 <= q < s.len() && s[q] == t[m];
        assert(single(s[q].local_addr));
    }
}

/// Every socket of the input is shown: a row with a peer as it is, any other by a row of the
/// same process, protocol, port and state whose address stands for its address.
pub proof fn law_collapse_shows_every_socket(s: Seq<EntryView>, i: int)
    requires
        0 <= i < s.len(),
        forall|k: int| 0 <= k < s.len() ==> single((#[trigger] s[k]).local_addr),
    ensures
        exists|j: int|
            0 <= j < collapse::collapsed(s).len() && shows(
                #[trigger] collapse::collapsed(s)[j],
                s[i],
            ),
{
    broadcast use vstd::seq_lib::group_to_multiset_ensures;

    let t = collapse::sorted(s);
    law_sorting_keeps_the_rows(s);
    assert(s.contains(s[i]));
    assert(s.to_multiset().count(s[i]) > 0);
    assert(t.contains(s[i]));
    let k = choose|k: int| 0 <= k < t.len() && t[k] == s[i];
    lemma_sorted_single(s);
    lemma_merged_shows(t, k);
    let j = choose|j: int|
        0 <= j < collapse::merged(t).len() && shows(#[trigger] collapse::merged(t)[j], t[k]);
    assert(shows(collapse::collapsed(s)[j], s[i]));
}

/// Whether the address of a row names no address twice.
pub open spec fn names_once(list: Seq<char>) -> bool {
    text::split(list, Sep::Char(',')).no_duplicates()
}

proof fn lemma_single_names_once(a: Seq<char>)
    requires
        single(a),
    ensures
        names_once(a),
{
    text::lemma_split_solid(a, Sep::Char(','));
}

proof fn lemma_both_addrs_name_once(a: Seq<char>, b: Seq<char>)
    requires
        names_once(a),
        single(b),
    ensures
        names_once(collapse::both_addrs(a, b)),
{
    let pieces = text::split(a, Sep::Char(','));
    reveal_strlit("*");
    lemma_single_names_once("*"@);
    if a != b && a != "*"@ && b != "*"@ && !pieces.contains(b) {
        lemma_split_listed(a, b);
        assert forall|i: int, j: int|
            0 <= i < j < pieces.push(b).len() implies pieces.push(b)[i] != pieces.push(b)[j] by {
            assert(pieces.contains(pieces[i]));
        }
    }
}

proof fn lemma_merged_names_once(s: Seq<EntryView>, j: int)
    requires
        0 <= j < collapse::merged(s).len(),
        forall|k: int| 0 <= k < s.len() ==> single((#[trigger] s[k]).local_addr),
    ensures
        names_once(collapse::merged(s)[j].local_addr),
    decreases s.len(),
{
    let front = s.drop_last();
    let e = s[s.len() - 1];
    let done = collapse::merged(front);
    assert forall|k: int| 0 <= k < front.len() implies single((#[trigger] front[k]).local_addr) by {
        assert(front[k] == s[k]);
    }
    if j < done.len() {
        lemma_merged_names_once(front, j);
        if j == done.len() - 1 {
            lemma_both_addrs_name_once(done[j].local_addr, e.local_addr);
        }
    } else {
        lemma_single_names_once(e.local_addr);
    }
}

/// No address stands twice in a row of the result, however often it stands in the input.
pub proof fn law_collapse_lists_no_address_twice(s: Seq<EntryView>, j: int)
    requires
        0 <= j < collapse::collapsed(s).len(),
        forall|k: int| 0 <= k < s.len() ==> single((#[trigger] s[k]).local_addr),
    ensures
        text::split(collapse::collapsed(s)[j].local_addr, Sep::Char(',')).no_duplicates(),
{
    lemma_sorted_single(s);
    lemma_merged_names_once(collapse::sorted(s), j);
}

/// Whether row `r` is row `e` but for its address.
pub open spec fn but_for_address(r: EntryView, e: EntryView) -> bool {
    r == (EntryView { local_addr: r.local_addr, ..e })
}

proof fn lemma_merged_from(s: Seq<EntryView>, j: int)
    requires
        0 <= j < collapse::merged(s).len(),
    ensures
        exists|i: int|
            0 <= i < s.len() && but_for_address(collapse::merged(s)[j], #[trigger] s[i]),
    decreases s.len(),
{
    let front = s.drop_last();
    let done = collapse::merged(front);
    let all = collapse::merged(s);
    let one = done.len() > 0 && collapse::mergeable(done.last(), s.last());
    if j < done.len() {
        lemma_merged_from(front, j);
        let i = choose|i: int| 0 <= i < front.len() && but_for_address(done[j], #[trigger] front[i]);
        assert(front[i] == s[i]);
        assert(but_for_address(all[j], s[i]));
    } else {
        assert(all[j] == s[s.len() - 1]);
        assert(but_for_address(all[j], s[s.len() - 1]));
    }
}

/// Every row of the result is a row of the input but for its address.
pub proof fn law_collapse_invents_no_row(s: Seq<EntryView>, j: int)
    requires
        0 <= j < collapse::collapsed(s).len(),
    ensures
        exists|i: int|
            0 <= i < s.len() && but_for_address(collapse::collapsed(s)[j], #[trigger] s[i]),
{
    broadcast use vstd::seq_lib::group_to_multiset_ensures;

    let t = collapse::sorted(s);
    lemma_merged_from(t, j);
    let k = choose|k: int|
        0 <= k < t.len() && but_for_address(collapse::collapsed(s)[j], #[trigger] t[k]);
    law_sorting_keeps_the_rows(s);
    assert(t.contains(t[k]));
    assert(t.to_multiset().count(t[k]) > 0);
    assert(s.contains(t[k]));
    let i = choose|i: int| 0 <= i < s.len() && s[i] == t[k];
    assert(but_for_address(collapse::collapsed(s)[j], s[i]));
}

proof fn lemma_sorted_stays(s: Seq<EntryView>)
    requires
        in_order(s),
    ensures
        collapse::sorted(s) == s,
    decreases s.len(),
{
    if s.len() > 0 {
        let rest = s.drop_first();
        assert forall|i: int, j: int|
            #![trigger rest[i], rest[j]]
            0 <= i < j < rest.len() implies !collapse::before(rest[j], rest[i]) by {
            assert(rest[i] == s[i + 1]);
            assert(rest[j] == s[j + 1]);
        }
        lemma_sorted_stays(rest);
        if rest.len() > 0 {
            assert(rest[0] == s[1]);
            assert(!collapse::before(s[1], s[0]));
        }
        assert(seq![s[0]] + rest =~= s);
    }
}

proof fn lemma_merged_stays(s: Seq<EntryView>)
    requires
        neighbours_apart(s),
    ensures
        collapse::merged(s) == s,
    decreases s.len(),
{
    if s.len() > 0 {
        let front = s.drop_last();
        assert forall|i: int| 0 < i < front.len() implies !collapse::mergeable(
            front[i - 1],
            #[trigger] front[i],
        ) by {
            assert(!collapse::mergeable(s[i - 1], s[i]));
        }
        lemma_merged_stays(front);
        if front.len() > 0 {
            let n = s.len() - 1;
            assert(!collapse::mergeable(s[n - 1], s[n]));
        }
        assert(front.push(s.last()) =~= s);
    }
}

/// In an ordered sequence, merging keeps rows with peers as they are and in order.
proof fn lemma_merged_in_order(s: Seq<EntryView>)
    requires
        in_order(s),
    ensures
        in_order(collapse::merged(s)),
        s.len() > 0 && s.last().remote_addr is Some ==> collapse::merged(s).len() > 0
            && collapse::merged(s).last() == s.last(),
    decreases s.len(),
{
    if s.len() > 0 {
        let front = s.drop_last();
        let e = s.last();
        assert forall|i: int, j: int|
            #![trigger front[i], front[j]]
            0 <= i < j < front.len() implies !collapse::before(front[j], front[i]) by {
            assert(front[i] == s[i]);
            assert(front[j] == s[j]);
        }
        lemma_merged_in_order(front);
        lemma_in_order_grouped(s);
        lemma_in_order_grouped(front);
        lemma_merged_grouped(front);
        lemma_merged_grouped(s);
        let done = collapse::merged(front);
        let all = collapse::merged(s);
        let n = all.len() - 1;
        assert forall|i: int, j: int|
            #![trigger all[i], all[j]]
            0 <= i < j < all.len() implies !collapse::before(all[j], all[i]) by {
            assert(all[i] == done[i]);
            if j < n {
                assert(all[j] == done[j]);
            } else {
                assert(!collapse::group_before(all[j], all[i]));
                if collapse::same_group(all[j], all[i]) {
                    lemma_same_group_rows(all, i, j);
                    lemma_last_of_group(s, front, done, all, i);
                }
            }
        }
    }
}

/// Two rows of one group in a grouped sequence without neighbours that are one have peers.
proof fn lemma_same_group_rows(m: Seq<EntryView>, i: int, j: int)
    requires
        grouped(m),
        neighbours_apart(m),
        0 <= i < j < m.len(),
        collapse::same_group(m[j], m[i]),
    ensures
        m[i].remote_addr is Some,
        m[j].remote_addr is Some,
{
    let k = i + 1;
    assert(!collapse::group_before(m[k], m[i]));
    if k < j {
        assert(!collapse::group_before(m[j], m[k]));
    } else {
        lemma_group_order(m[j], m[j], m[j]);
    }
    lemma_group_order(m[j], m[i], m[k]);
    lemma_group_order(m[i], m[k], m[k]);
    lemma_group_without_peers(m[i], m[k]);
    assert(!collapse::mergeable(m[k - 1], m[k]));
}

/// A row with a peer that stands last in order does not come before any row of its group.
proof fn lemma_last_of_group(
    s: Seq<EntryView>,
    front: Seq<EntryView>,
    done: Seq<EntryView>,
    all: Seq<EntryView>,
    i: int,
)
    requires
        in_order(s),
        s.len() > 0,
        front == s.drop_last(),
        done == collapse::merged(front),
        all == collapse::merged(s),
        in_order(done),
        front.len() > 0 && front.last().remote_addr is Some ==> done.len() > 0 && done.last()
            == front.last(),
        front.len() > 0 ==> done.len() > 0 && collapse::same_group(done.last(), front.last()),
        grouped(done),
        0 <= i < all.len() - 1,
        all[i] == done[i],
        all.last().remote_addr is Some,
        done[i].remote_addr is Some,
        collapse::same_group(all.last(), done[i]),
    ensures
        !collapse::before(all.last(), all[i]),
{
    let e = s.last();
    let one = done.len() > 0 && collapse::mergeable(done.last(), e);
    if one {
        assert(all.last().remote_addr is None);
    }
    assert(all.last() == e);
    assert(i < done.len());
    assert(front.len() > 0) by {
        if front.len() == 0 {
            assert(done.len() == 0);
        }
    }
    let m = done.len() - 1;
    let f = front.len() - 1;
    assert(front[f] == s[f]);
    assert(!collapse::before(s[s.len() - 1], s[f]));
    lemma_in_order_grouped(s);
    assert(!collapse::group_before(s[s.len() - 1], s[f]));
    if i < m {
        assert(!collapse::group_before(done[m], done[i]));
    } else {
        lemma_group_order(done[i], done[i], done[i]);
    }
    lemma_group_order(done[m], front[f], e);
    lemma_group_order(e, done[i], done[m]);
    lemma_group_order(done[m], e, e);
    assert(collapse::same_group(done[m], e));
    assert(front[f].remote_addr is Some);
    assert(done[m] == front[f]);
    if i < m {
        assert(!collapse::before(done[m], done[i]));
    } else {
        collapse::lemma_order(done[m], done[m], done[m]);
    }
    collapse::lemma_order(done[i], done[m], e);
}

/// Collapsing rows that were collapsed changes nothing.
pub proof fn law_collapse_is_idempotent(s: Seq<EntryView>)
    ensures
        collapse::collapsed(collapse::collapsed(s)) == collapse::collapsed(s),
{
    let t = collapse::sorted(s);
    law_sorted_is_in_order(s);
    lemma_in_order_grouped(t);
    lemma_merged_grouped(t);
    lemma_merged_in_order(t);
    lemma_sorted_stays(collapse::merged(t));
    lemma_merged_stays(collapse::merged(t));
}

/// Whether row `e` is of the same process, protocol, port and state as row `r`, and neither has a
/// peer unless both rows are one.
pub open spec fn akin(r: EntryView, e: EntryView) -> bool {
    &&& r.pid == e.pid
    &&& r.proto == e.proto
    &&& r.local_port == e.local_port
    &&& r.state == e.state
    &&& (r.remote_addr is None) == (e.remote_addr is None)
    &&& (r.remote_addr is Some ==> r == e)
}

/// Whether one of the rows that are akin to `r` has the address.
pub open spec fn comes_from(s: Seq<EntryView>, r: EntryView, addr: Seq<char>) -> bool {
    exists|i: int| 0 <= i < s.len() && akin(r, #[trigger] s[i]) && s[i].local_addr == addr
}

proof fn lemma_comes_from_more(s: Seq<EntryView>, t: Seq<EntryView>, r: EntryView, addr: Seq<char>)
    requires
        comes_from(s, r, addr),
        forall|e: EntryView| s.contains(e) ==> #[trigger] t.contains(e),
    ensures
        comes_from(t, r, addr),
{
    let i = choose|i: int| 0 <= i < s.len() && akin(r, #[trigger] s[i]) && s[i].local_addr == addr;
    assert(s.contains(s[i]));
    assert(t.contains(s[i]));
    let k = choose|k: int| 0 <= k < t.len() && t[k] == s[i];
    assert(akin(r, t[k]));
}

/// Two akin rows without a peer are akin to the same rows.
proof fn lemma_comes_from_akin(s: Seq<EntryView>, q: EntryView, r: EntryView, addr: Seq<char>)
    requires
        comes_from(s, q, addr),
        q.remote_addr is None,
        akin(r, q),
    ensures
        comes_from(s, r, addr),
{
    let i = choose|i: int| 0 <= i < s.len() && akin(q, #[trigger] s[i]) && s[i].local_addr == addr;
    assert(akin(r, s[i]));
}

proof fn lemma_merged_addrs(s: Seq<EntryView>, j: int, addr: Seq<char>)
    requires
        0 <= j < collapse::merged(s).len(),
        forall|k: int| 0 <= k < s.len() ==> single((#[trigger] s[k]).local_addr),
        text::split(collapse::merged(s)[j].local_addr, Sep::Char(',')).contains(addr),
    ensures
        comes_from(s, collapse::merged(s)[j], addr),
    decreases s.len(),
{
    let front = s.drop_last();
    let e = s[s.len() - 1];
    let done = collapse::merged(front);
    let all = collapse::merged(s);
    assert forall|k: int| 0 <= k < front.len() implies single((#[trigger] front[k]).local_addr) by {
        assert(front[k] == s[k]);
    }
    assert forall|x: EntryView| front.contains(x) implies #[trigger] s.contains(x) by {
        let k = choose|k: int| 0 <= k < front.len() && front[k] == x;
        assert(s[k] == x);
    }
    text::lemma_split_solid(e.local_addr, Sep::Char(','));
    assert(seq![e.local_addr][0] == e.local_addr);
    let one = done.len() > 0 && collapse::mergeable(done.last(), e);
    if one && j == done.len() - 1 {
        let q = done[j];
        let r = all[j];
        assert(akin(r, q) && akin(r, e));
        let listed = text::split(q.local_addr, Sep::Char(','));
        reveal_strlit("*");
        text::lemma_split_solid("*"@, Sep::Char(','));
        if addr == e.local_addr {
            assert(akin(r, s[s.len() - 1]));
        } else if r.local_addr == "*"@ {
            assert(addr == "*"@);
            assert(q.local_addr == "*"@ || e.local_addr == "*"@);
            if q.local_addr == "*"@ {
                assert(listed[0] == addr);
                assert(listed.contains(addr));
            }
        } else if q.local_addr != e.local_addr && !listed.contains(e.local_addr) {
            lemma_split_listed(q.local_addr, e.local_addr);
            let k = choose|k: int|
                0 <= k < listed.push(e.local_addr).len() && listed.push(e.local_addr)[k] == addr;
            assert(listed[k] == addr);
        }
        if addr != e.local_addr {
            assert(listed.contains(addr));
            lemma_merged_addrs(front, j, addr);
            lemma_comes_from_more(front, s, q, addr);
            lemma_comes_from_akin(s, q, r, addr);
        }
    } else if j < done.len() {
        assert(all[j] == done[j]);
        lemma_merged_addrs(front, j, addr);
        lemma_comes_from_more(front, s, done[j], addr);
    } else {
        assert(all[j] == e);
        assert(akin(e, s[s.len() - 1]));
        let k = choose|k: int| 0 <= k < seq![e.local_addr].len() && seq![e.local_addr][k] == addr;
        assert(addr == e.local_addr);
    }
}

/// No address is made up: each that a row of the result lists, the one for all addresses too, is
/// the address of a row of the input of the same process, protocol, port and state.
pub proof fn law_collapse_invents_no_address(s: Seq<EntryView>, j: int, addr: Seq<char>)
    requires
        0 <= j < collapse::collapsed(s).len(),
        forall|k: int| 0 <= k < s.len() ==> single((#[trigger] s[k]).local_addr),
        text::split(collapse::collapsed(s)[j].local_addr, Sep::Char(',')).contains(addr),
    ensures
        exists|i: int|
            {
                let r = collapse::collapsed(s)[j];
                &&& 0 <= i < s.len()
                &&& (#[trigger] s[i]).local_addr == addr
                &&& s[i].pid == r.pid && s[i].proto == r.proto
                &&& s[i].local_port == r.local_port && s[i].state == r.state
            },
{
    broadcast use vstd::seq_lib::group_to_multiset_ensures;

    let t = collapse::sorted(s);
    lemma_sorted_single(s);
    law_sorting_keeps_the_rows(s);
    let r = collapse::collapsed(s)[j];
    lemma_merged_addrs(t, j, addr);
    assert forall|x: EntryView| t.contains(x) implies #[trigger] s.contains(x) by {
        assert(t.to_multiset().count(x) > 0);
    }
    lemma_comes_from_more(t, s, r, addr);
    let i = choose|i: int| 0 <= i < s.len() && akin(r, #[trigger] s[i]) && s[i].local_addr == addr;
    assert(akin(r, s[i]));
}

/// What is listed for all addresses takes in the others: a process that listens through it has
/// it as the whole address of its row.
pub proof fn law_collapse_prefers_all_addresses(s: Seq<EntryView>, i: int)
    requires
        0 <= i < s.len(),
        s[i].remote_addr is None,
        s[i].local_addr == "*"@,
        forall|k: int| 0 <= k < s.len() ==> single((#[trigger] s[k]).local_addr),
    ensures
        exists|j: int|
            {
                &&& 0 <= j < collapse::collapsed(s).len()
                &&& (#[trigger] collapse::collapsed(s)[j]).local_addr == "*"@
                &&& collapse::collapsed(s)[j].pid == s[i].pid
                &&& collapse::collapsed(s)[j].proto == s[i].proto
                &&& collapse::collapsed(s)[j].local_port == s[i].local_port
                &&& collapse::collapsed(s)[j].state == s[i].state
                &&& collapse::collapsed(s)[j].remote_addr is None
            },
{
    broadcast use vstd::seq_lib::group_to_multiset_ensures;

    let t = collapse::sorted(s);
    law_sorting_keeps_the_rows(s);
    assert(s.contains(s[i]));
    assert(s.to_multiset().count(s[i]) > 0);
    assert(t.contains(s[i]));
    let k = choose|k: int| 0 <= k < t.len() && t[k] == s[i];
    lemma_sorted_single(s);
    lemma_merged_star(t, k);
    let j = choose|j: int|
        0 <= j < collapse::merged(t).len() && akin(#[trigger] collapse::merged(t)[j], t[k])
            && collapse::merged(t)[j].local_addr == "*"@;
    assert(collapse::collapsed(s)[j].local_addr == "*"@);
}

proof fn lemma_merged_star(s: Seq<EntryView>, i: int)
    requires
        0 <= i < s.len(),
        s[i].remote_addr is None,
        s[i].local_addr == "*"@,
    ensures
        exists|j: int|
            0 <= j < collapse::merged(s).len() && akin(#[trigger] collapse::merged(s)[j], s[i])
                && collapse::merged(s)[j].local_addr == "*"@,
    decreases s.len(),
{
    let front = s.drop_last();
    let e = s[s.len() - 1];
    let done = collapse::merged(front);
    let all = collapse::merged(s);
    let n = all.len() - 1;
    let one = done.len() > 0 && collapse::mergeable(done.last(), e);
    if i == s.len() - 1 {
        assert(akin(all[n], s[i]));
    } else {
        assert(front[i] == s[i]);
        lemma_merged_star(front, i);
        let j = choose|j: int|
            0 <= j < done.len() && akin(#[trigger] done[j], front[i]) && done[j].local_addr
                == "*"@;
        if one && j == done.len() - 1 {
            assert(akin(all[n], s[i]));
        } else {
            assert(all[j] == done[j]);
        }
    }
}

/// The word that a state is ordered by; nothing where there is none.
pub open spec fn order_word(s: Option<TcpState>) -> Seq<char> {
    match s {
        Some(s) => laws::json::state_word(s),
        None => Seq::<char>::empty(),
    }
}

/// The order of the result, key by key: ports ascend; on one port, TCP comes before UDP; then
/// processes ascend, then the words for the states, then come those without a peer, and at last
/// the addresses.
pub proof fn law_how_rows_are_ordered(s: Seq<EntryView>, i: int, j: int)
    requires
        0 <= i < j < collapse::collapsed(s).len(),
    ensures
        ({
            let a = collapse::collapsed(s)[i];
            let b = collapse::collapsed(s)[j];
            let port = a.local_port == b.local_port;
            let proto = port && a.proto == b.proto;
            let pid = proto && a.pid == b.pid;
            let state = pid && order_word(a.state) == order_word(b.state);
            let peer = state && (a.remote_addr is Some) == (b.remote_addr is Some);
            &&& a.local_port <= b.local_port
            &&& port ==> a.proto == Proto::Tcp || b.proto == Proto::Udp
            &&& proto ==> a.pid <= b.pid
            &&& pid ==> !text::lex_less(order_word(b.state), order_word(a.state))
            &&& state ==> a.remote_addr is None || b.remote_addr is Some
            &&& peer ==> !text::lex_less(b.local_addr, a.local_addr)
        }),
{
    law_collapsed_is_in_order(s);
    let a = collapse::collapsed(s)[i];
    let b = collapse::collapsed(s)[j];
    assert(!collapse::before(b, a));
    assert(!collapse::group_before(b, a));
    assert(order_word(a.state) == collapse::state_key(a.state));
    assert(order_word(b.state) == collapse::state_key(b.state));
    collapse::lemma_lex_irreflexive(order_word(a.state));
}

} // verus!
