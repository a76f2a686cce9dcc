use vstd::prelude::*;

use crate::link::{link_lt, Link};

verus! {

/// Some link of `s` points to node `v`.
pub open spec fn has_index(s: Seq<Link>, v: int) -> bool {
    exists|k: int| 0 <= k < s.len() && #[trigger] s[k].node_index == v
}

/// The nodes that the links of `s` point to.
pub open spec fn targets(s: Seq<Link>) -> Set<int> {
    Set::new(|v: int| has_index(s, v))
}

/// `x` is the least link of `s`.
pub open spec fn is_least(s: Seq<Link>, x: Link) -> bool {
    &&& s.contains(x)
    &&& forall|k: int| 0 <= k < s.len() ==> x == #[trigger] s[k] || link_lt(x, s[k])
}

/// A non-empty sequence has a least link.
pub proof fn lemma_least_exists(s: Seq<Link>)
    requires
        s.len() > 0,
    ensures
        exists|x: Link| #[trigger] is_least(s, x),
    decreases s.len(),
{
    if s.len() == 1 {
        assert(is_least(s, s[0]));
    } else {
        let r = s.drop_last();
        lemma_least_exists(r);
        let x = choose|x: Link| #[trigger] is_least(r, x);
        let y = s.last();
        let k = choose|k: int| 0 <= k < r.len() && r[k] == x;
        assert(s[k] == x);
        if link_lt(y, x) {
            assert forall|j: int| 0 <= j < s.len() implies y == #[trigger] s[j] || link_lt(y, s[j]) by {
                if j < s.len() - 1 {
                    assert(s[j] == r[j]);
                }
            }
            assert(is_least(s, y));
        } else {
            assert forall|j: int| 0 <= j < s.len() implies x == #[trigger] s[j] || link_lt(x, s[j]) by {
                if j < s.len() - 1 {
                    assert(s[j] == r[j]);
                }
            }
            assert(is_least(s, x));
        }
    }
}

/// No two links of `s` point to the same node.
pub open spec fn distinct_targets(s: Seq<Link>) -> bool {
    forall|i: int, j: int|
        0 <= i < s.len() && 0 <= j < s.len() && i != j ==> #[trigger] s[i].node_index
            != #[trigger] s[j].node_index
}

/// `s` is in strictly increasing order of links.
pub open spec fn ascending(s: Seq<Link>) -> bool {
    forall|i: int, j: int| 0 <= i < j < s.len() ==> link_lt(#[trigger] s[i], #[trigger] s[j])
}

/// `s` is in strictly decreasing order of links.
pub open spec fn descending(s: Seq<Link>) -> bool {
    forall|i: int, j: int| 0 <= i < j < s.len() ==> link_lt(#[trigger] s[j], #[trigger] s[i])
}

/// The links of `st` in increasing order (there is one such sequence for a
/// finite set: see `lemma_ascending_unique`).
pub open spec fn sorted_asc(st: Set<Link>) -> Seq<Link> {
    choose|s: Seq<Link>| ascending(s) && s.to_set() == st
}

/// The links of `st` in decreasing order.
pub open spec fn sorted_desc(st: Set<Link>) -> Seq<Link> {
    choose|s: Seq<Link>| descending(s) && s.to_set() == st
}

/// `s` with `x` inserted where it keeps a decreasing order.
pub open spec fn insert_desc(s: Seq<Link>, x: Link) -> Seq<Link>
    decreases s.len(),
{
    if s.len() == 0 {
        seq![x]
    } else if link_lt(s[0], x) {
        seq![x] + s
    } else {
        seq![s[0]] + insert_desc(s.drop_first(), x)
    }
}

proof fn lemma_insert_desc(s: Seq<Link>, x: Link)
    requires
        descending(s),
        !s.contains(x),
    ensures
        descending(insert_desc(s, x)),
        insert_desc(s, x).len() == s.len() + 1,
        forall|y: Link| #[trigger] insert_desc(s, x).contains(y) <==> (s.contains(y) || y == x),
    decreases s.len(),
{
    let t = insert_desc(s, x);
    if s.len() == 0 {
        assert(t =~= seq![x]);
        assert forall|y: Link| #[trigger] t.contains(y) <==> (s.contains(y) || y == x) by {
            if t.contains(y) {
                let k = choose|k: int| 0 <= k < t.len() && t[k] == y;
            }
            if y == x {
                assert(t[0] == x);
            }
        }
    } else if link_lt(s[0], x) {
        assert forall|i: int, j: int| 0 <= i < j < t.len() implies link_lt(#[trigger] t[j], #[trigger] t[i]) by {
            if i == 0 {
                assert(t[j] == s[j - 1]);
                if j - 1 > 0 {
                    assert(link_lt(s[j - 1], s[0]));
                }
            } else {
                assert(t[i] == s[i - 1] && t[j] == s[j - 1]);
            }
        }
        assert forall|y: Link| #[trigger] t.contains(y) <==> (s.contains(y) || y == x) by {
            if t.contains(y) {
                let k = choose|k: int| 0 <= k < t.len() && t[k] == y;
                if k > 0 {
                    assert(s[k - 1] == y);
                }
            }
            if s.contains(y) {
                let k = choose|k: int| 0 <= k < s.len() && s[k] == y;
                assert(t[k + 1] == y);
            }
            if y == x {
                assert(t[0] == x);
            }
        }
    } else {
        let r = s.drop_first();
        assert(descending(r)) by {
            assert forall|i: int, j: int| 0 <= i < j < r.len() implies link_lt(#[trigger] r[j], #[trigger] r[i]) by {
                assert(r[i] == s[i + 1] && r[j] == s[j + 1]);
            }
        }
        assert(!r.contains(x)) by {
            if r.contains(x) {
                let k = choose|k: int| 0 <= k < r.len() && r[k] == x;
                assert(s[k + 1] == x);
            }
        }
        lemma_insert_desc(r, x);
        let u = insert_desc(r, x);
        assert(x != s[0]) by {
            assert(s[0] != x);
        }
        assert(link_lt(x, s[0]));
        assert forall|i: int, j: int| 0 <= i < j < t.len() implies link_lt(#[trigger] t[j], #[trigger] t[i]) by {
            if i == 0 {
                assert(t[j] == u[j - 1]);
                assert(u.contains(u[j - 1]));
                if u[j - 1] != x {
                    let k = choose|k: int| 0 <= k < r.len() && r[k] == u[j - 1];
                    assert(s[k + 1] == r[k]);
                }
            } else {
                assert(t[i] == u[i - 1] && t[j] == u[j - 1]);
            }
        }
        assert forall|y: Link| #[trigger] t.contains(y) <==> (s.contains(y) || y == x) by {
            if t.contains(y) {
                let k = choose|k: int| 0 <= k < t.len() && t[k] == y;
                if k > 0 {
                    assert(u[k - 1] == y);
                    assert(u.contains(y));
                    if r.contains(y) {
                        let m = choose|m: int| 0 <= m < r.len() && r[m] == y;
                        assert(s[m + 1] == y);
                    }
                }
            }
            if s.contains(y) {
                let k = choose|k: int| 0 <= k < s.len() && s[k] == y;
                if k > 0 {
                    assert(r[k - 1] == y);
                    assert(u.contains(y));
                    let m = choose|m: int| 0 <= m < u.len() && u[m] == y;
                    assert(t[m + 1] == y);
                } else {
                    assert(t[0] == y);
                }
            }
            if y == x {
                assert(u.contains(x));
                let m = choose|m: int| 0 <= m < u.len() && u[m] == x;
                assert(t[m + 1] == x);
            }
        }
    }
}

/// Inserting a new link into a decreasing sequence: the decreasing sequence
/// of the links and `x` exists, is one longer, and holds just those.
pub proof fn lemma_sorted_desc_insert(s: Seq<Link>, x: Link)
    requires
        descending(s),
        !s.contains(x),
    ensures
        descending(sorted_desc(s.to_set().insert(x))),
        sorted_desc(s.to_set().insert(x)).len() == s.len() + 1,
        forall|y: Link| #[trigger] sorted_desc(s.to_set().insert(x)).contains(y) <==> (s.contains(y) || y == x),
{
    lemma_insert_desc(s, x);
    let t = insert_desc(s, x);
    assert(t.to_set() =~= s.to_set().insert(x));
    let c = sorted_desc(s.to_set().insert(x));
    assert(descending(c) && c.to_set() == s.to_set().insert(x));
    lemma_descending_unique(c, t);
}

/// Two increasing sequences of the same links are equal.
pub proof fn lemma_ascending_unique(a: Seq<Link>, b: Seq<Link>)
    requires
        ascending(a),
        ascending(b),
        a.to_set() == b.to_set(),
    ensures
        a == b,
    decreases a.len(),
{
    if a.len() == 0 {
        if b.len() > 0 {
            assert(b.to_set().contains(b[0]));
        }
        assert(a =~= b);
    } else {
        assert(a.to_set().contains(a[0]));
        assert(b.len() > 0);
        assert(b.to_set().contains(b[0]));
        let j = choose|j: int| 0 <= j < b.len() && b[j] == a[0];
        let i = choose|i: int| 0 <= i < a.len() && a[i] == b[0];
        if a[0] != b[0] {
            assert(link_lt(b[0], b[j]));
            assert(link_lt(a[0], a[i]));
        }
        let a1 = a.drop_first();
        let b1 = b.drop_first();
        assert forall|x: Link| a1.to_set().contains(x) <==> b1.to_set().contains(x) by {
            if a1.contains(x) {
                let k = choose|k: int| 0 <= k < a1.len() && a1[k] == x;
                assert(a[k + 1] == x);
                assert(link_lt(a[0], a[k + 1]));
                assert(a.to_set().contains(x));
                let m = choose|m: int| 0 <= m < b.len() && b[m] == x;
                assert(m != 0);
                assert(b1[m - 1] == x);
            }
            if b1.contains(x) {
                let k = choose|k: int| 0 <= k < b1.len() && b1[k] == x;
                assert(b[k + 1] == x);
                assert(link_lt(b[0], b[k + 1]));
                assert(b.to_set().contains(x));
                let m = choose|m: int| 0 <= m < a.len() && a[m] == x;
                assert(m != 0);
                assert(a1[m - 1] == x);
            }
        }
        assert(a1.to_set() =~= b1.to_set());
        lemma_ascending_unique(a1, b1);
        assert(a =~= b) by {
            assert forall|k: int| 0 <= k < a.len() implies a[k] == b[k] by {
                if k > 0 {
                    assert(a[k] == a1[k - 1]);
                    assert(b[k] == b1[k - 1]);
                }
            }
        }
    }
}

/// Two decreasing sequences of the same links are equal.
pub proof fn lemma_descending_unique(a: Seq<Link>, b: Seq<Link>)
    requires
        descending(a),
        descending(b),
        a.to_set() == b.to_set(),
    ensures
        a == b,
    decreases a.len(),
{
    if a.len() == 0 {
        if b.len() > 0 {
            assert(b.to_set().contains(b[0]));
        }
        assert(a =~= b);
    } else {
        assert(a.to_set().contains(a[0]));
        assert(b.len() > 0);
        assert(b.to_set().contains(b[0]));
        let j = choose|j: int| 0 <= j < b.len() && b[j] == a[0];
        let i = choose|i: int| 0 <= i < a.len() && a[i] == b[0];
        if a[0] != b[0] {
            assert(link_lt(b[j], b[0]));
            assert(link_lt(a[i], a[0]));
        }
        let a1 = a.drop_first();
        let b1 = b.drop_first();
        assert forall|x: Link| a1.to_set().contains(x) <==> b1.to_set().contains(x) by {
            if a1.contains(x) {
                let k = choose|k: int| 0 <= k < a1.len() && a1[k] == x;
                assert(a[k + 1] == x);
                assert(link_lt(a[k + 1], a[0]));
                assert(a.to_set().contains(x));
                let m = choose|m: int| 0 <= m < b.len() && b[m] == x;
                assert(m != 0);
                assert(b1[m - 1] == x);
            }
            if b1.contains(x) {
                let k = choose|k: int| 0 <= k < b1.len() && b1[k] == x;
                assert(b[k + 1] == x);
                assert(link_lt(b[k + 1], b[0]));
                assert(b.to_set().contains(x));
                let m = choose|m: int| 0 <= m < a.len() && a[m] == x;
                assert(m != 0);
                assert(a1[m - 1] == x);
            }
        }
        assert(a1.to_set() =~= b1.to_set());
        lemma_descending_unique(a1, b1);
        assert(a =~= b) by {
            assert forall|k: int| 0 <= k < a.len() implies a[k] == b[k] by {
                if k > 0 {
                    assert(a[k] == a1[k - 1]);
                    assert(b[k] == b1[k - 1]);
                }
            }
        }
    }
}

/// Inserts `x` where it keeps `v` in increasing order.
pub fn insert_ascending(v: &mut Vec<Link>, x: Link)
    requires
        ascending(old(v)@),
        !has_index(old(v)@, x.node_index as int),
    ensures
        ascending(final(v)@),
        final(v)@.len() == old(v)@.len() + 1,
        forall|k: int| 0 <= k < final(v)@.len() ==> #[trigger] final(v)@[k] == x || old(v)@.contains(final(v)@[k]),
        forall|k: int| 0 <= k < old(v)@.len() ==> final(v)@.contains(#[trigger] old(v)@[k]),
        final(v)@.contains(x),
        forall|u: int| #[trigger] has_index(final(v)@, u) <==> (has_index(old(v)@, u) || u == x.node_index),
{
    let mut i: usize = 0;
    while i < v.len() && v[i].precedes(&x)
        invariant
            0 <= i <= v@.len(),
            v@ == old(v)@,
            forall|k: int| 0 <= k < i ==> link_lt(#[trigger] v@[k], x),
        decreases v@.len() - i,
    {
        i += 1;
    }
    let ghost o = v@;
    proof {
        if i < o.len() {
            assert(o[i as int].node_index != x.node_index);
        }
    }
    v.insert(i, x);
    proof {
        let f = v@;
        assert(f == o.insert(i as int, x));
        assert forall|k: int| 0 <= k < f.len() implies #[trigger] f[k] == x || o.contains(f[k]) by {
            if k < i {
                assert(f[k] == o[k]);
            } else if k > i {
                assert(f[k] == o[k - 1]);
            }
        }
        assert forall|k: int| 0 <= k < o.len() implies f.contains(#[trigger] o[k]) by {
            if k < i {
                assert(f[k] == o[k]);
            } else {
                assert(f[k + 1] == o[k]);
            }
        }
        assert(f[i as int] == x);
        assert forall|a: int, b: int| 0 <= a < b < f.len() implies link_lt(
            #[trigger] f[a],
            #[trigger] f[b],
        ) by {
            if b < i {
                assert(f[a] == o[a] && f[b] == o[b]);
            } else if b == i {
                assert(f[a] == o[a]);
            } else if a < i {
                assert(f[a] == o[a] && f[b] == o[b - 1]);
            } else if a == i {
                assert(f[b] == o[b - 1]);
                assert(link_lt(x, o[i as int]) || b - 1 == i);
                if b - 1 > i {
                    assert(link_lt(o[i as int], o[b - 1]));
                }
            } else {
                assert(f[a] == o[a - 1] && f[b] == o[b - 1]);
            }
        }
        assert forall|u: int| #[trigger] has_index(f, u) <==> (has_index(o, u) || u == x.node_index) by {
            if has_index(f, u) {
                let k = choose|k: int| 0 <= k < f.len() && #[trigger] f[k].node_index == u;
                if f[k] != x {
                    let k2 = choose|k2: int| 0 <= k2 < o.len() && o[k2] == f[k];
                    assert(o[k2].node_index == u);
                }
            }
            if has_index(o, u) {
                let k = choose|k: int| 0 <= k < o.len() && #[trigger] o[k].node_index == u;
                let k2 = choose|k2: int| 0 <= k2 < f.len() && f[k2] == o[k];
                assert(f[k2].node_index == u);
            }
            if u == x.node_index {
                assert(f[i as int].node_index == u);
            }
        }
    }
}

/// Inserts `x` where it keeps `v` in decreasing order.
pub fn insert_descending(v: &mut Vec<Link>, x: Link)
    requires
        descending(old(v)@),
        !has_index(old(v)@, x.node_index as int),
    ensures
        descending(final(v)@),
        final(v)@.len() == old(v)@.len() + 1,
        forall|k: int| 0 <= k < final(v)@.len() ==> #[trigger] final(v)@[k] == x || old(v)@.contains(final(v)@[k]),
        forall|k: int| 0 <= k < old(v)@.len() ==> final(v)@.contains(#[trigger] old(v)@[k]),
        final(v)@.contains(x),
        forall|u: int| #[trigger] has_index(final(v)@, u) <==> (has_index(old(v)@, u) || u == x.node_index),
{
    let mut i: usize = 0;
    while i < v.len() && x.precedes(&v[i])
        invariant
            0 <= i <= v@.len(),
            v@ == old(v)@,
            forall|k: int| 0 <= k < i ==> link_lt(x, #[trigger] v@[k]),
        decreases v@.len() - i,
    {
        i += 1;
    }
    let ghost o = v@;
    proof {
        if i < o.len() {
            assert(o[i as int].node_index != x.node_index);
        }
    }
    v.insert(i, x);
    proof {
        let f = v@;
        assert(f == o.insert(i as int, x));
        assert forall|k: int| 0 <= k < f.len() implies #[trigger] f[k] == x || o.contains(f[k]) by {
            if k < i {
                assert(f[k] == o[k]);
            } else if k > i {
                assert(f[k] == o[k - 1]);
            }
        }
        assert forall|k: int| 0 <= k < o.len() implies f.contains(#[trigger] o[k]) by {
            if k < i {
                assert(f[k] == o[k]);
            } else {
                assert(f[k + 1] == o[k]);
            }
        }
        assert(f[i as int] == x);
        assert forall|a: int, b: int| 0 <= a < b < f.len() implies link_lt(
            #[trigger] f[b],
            #[trigger] f[a],
        ) by {
            if b < i {
                assert(f[a] == o[a] && f[b] == o[b]);
            } else if b == i {
                assert(f[a] == o[a]);
            } else if a < i {
                assert(f[a] == o[a] && f[b] == o[b - 1]);
            } else if a == i {
                assert(f[b] == o[b - 1]);
                assert(link_lt(o[i as int], x) || b - 1 == i);
                if b - 1 > i {
                    assert(link_lt(o[b - 1], o[i as int]));
                }
            } else {
                assert(f[a] == o[a - 1] && f[b] == o[b - 1]);
            }
        }
        assert forall|u: int| #[trigger] has_index(f, u) <==> (has_index(o, u) || u == x.node_index) by {
            if has_index(f, u) {
                let k = choose|k: int| 0 <= k < f.len() && #[trigger] f[k].node_index == u;
                if f[k] != x {
                    let k2 = choose|k2: int| 0 <= k2 < o.len() && o[k2] == f[k];
                    assert(o[k2].node_index == u);
                }
            }
            if has_index(o, u) {
                let k = choose|k: int| 0 <= k < o.len() && #[trigger] o[k].node_index == u;
                let k2 = choose|k2: int| 0 <= k2 < f.len() && f[k2] == o[k];
                assert(f[k2].node_index == u);
            }
            if u == x.node_index {
                assert(f[i as int].node_index == u);
            }
        }
    }
}


/// What offering `x` to a bounded buffer of the `ef` closest links does:
/// when the buffer is full and its furthest link is further than `x`, that
/// link leaves; then `x` enters the buffer, and the frontier, if there is room.
pub open spec fn offered(
    best0: Seq<Link>,
    frontier0: Seq<Link>,
    ef: int,
    x: Link,
    best1: Seq<Link>,
    frontier1: Seq<Link>,
) -> bool {
    &&& ascending(best1)
    &&& descending(frontier1)
    &&& 1 <= best1.len() <= ef
    &&& frontier1.len() <= frontier0.len() + 1
    &&& forall|k: int| 0 <= k < best1.len() ==> #[trigger] best1[k] == x || best0.contains(best1[k])
    &&& forall|k: int|
        0 <= k < frontier1.len() ==> #[trigger] frontier1[k] == x || frontier0.contains(frontier1[k])
    &&& forall|u: int| #[trigger] has_index(frontier1, u) ==> has_index(frontier0, u) || u == x.node_index
    &&& forall|u: int| #[trigger] has_index(frontier0, u) ==> has_index(frontier1, u)
    &&& forall|u: int| #[trigger] has_index(best1, u) ==> has_index(best0, u) || u == x.node_index
    &&& has_index(best1, x.node_index as int) == has_index(frontier1, x.node_index as int)
    &&& !has_index(best1, x.node_index as int) ==> {
        &&& best1 == best0
        &&& best0.len() == ef
        &&& best0.last().distance <= x.distance
    }
    &&& best0.len() == ef ==> best1.len() == ef && best1.last().distance <= best0.last().distance
    &&& forall|k: int|
        0 <= k < best0.len() && !has_index(best1, #[trigger] best0[k].node_index as int) ==> {
            &&& best1.len() == ef
            &&& best1.last().distance <= best0[k].distance
        }
    &&& offer_result(best0, frontier0, ef, x) == (best1, frontier1)
}

/// What offering `x` makes of `best` and `frontier`: the furthest kept link
/// leaves when `best` is full and it is further than `x`; then, if there is
/// room, `x` joins both, in order.
pub open spec fn offer_result(best: Seq<Link>, frontier: Seq<Link>, ef: int, x: Link) -> (Seq<Link>, Seq<Link>) {
    let b1 = if best.len() == ef && best.last().distance > x.distance {
        best.drop_last()
    } else {
        best
    };
    if b1.len() < ef {
        (sorted_asc(b1.to_set().insert(x)), sorted_desc(frontier.to_set().insert(x)))
    } else {
        (b1, frontier)
    }
}

/// Offers `x` to `best`, the `ef` closest links found so far, and when it is
/// kept, to `frontier`, the links still to expand.
pub fn offer(best: &mut Vec<Link>, frontier: &mut Vec<Link>, ef: usize, x: Link)
    requires
        ascending(old(best)@),
        descending(old(frontier)@),
        1 <= old(best)@.len() <= ef,
        !has_index(old(best)@, x.node_index as int),
        !has_index(old(frontier)@, x.node_index as int),
    ensures
        offered(old(best)@, old(frontier)@, ef as int, x, final(best)@, final(frontier)@),
{
    let ghost b0 = best@;
    let ghost f0 = frontier@;
    if best.len() == ef && best[best.len() - 1].distance > x.distance {
        best.pop();
        proof {
            assert forall|u: int| #[trigger] has_index(best@, u) implies has_index(b0, u) by {
                let k = choose|k: int| 0 <= k < best@.len() && #[trigger] best@[k].node_index == u;
                assert(b0[k] == best@[k]);
            }
        }
    }
    let ghost b1 = best@;
    if best.len() < ef {
        insert_ascending(best, x);
        insert_descending(frontier, x);
        proof {
            assert(has_index(best@, x.node_index as int)) by {
                let k = choose|k: int| 0 <= k < best@.len() && best@[k] == x;
            }
            assert(has_index(frontier@, x.node_index as int)) by {
                let k = choose|k: int| 0 <= k < frontier@.len() && frontier@[k] == x;
            }
        }
    }
    proof {
        let b2 = best@;
        if b1.len() < ef {
            assert(b2.to_set() =~= b1.to_set().insert(x)) by {
                assert forall|y: Link| b2.contains(y) implies b1.to_set().insert(x).contains(y) by {
                    let k = choose|k: int| 0 <= k < b2.len() && b2[k] == y;
                }
                assert forall|y: Link| b1.to_set().insert(x).contains(y) implies b2.contains(y) by {
                    if y != x {
                        let k = choose|k: int| 0 <= k < b1.len() && b1[k] == y;
                    }
                }
            }
            let s1 = sorted_asc(b1.to_set().insert(x));
            assert(ascending(s1) && s1.to_set() == b1.to_set().insert(x));
            lemma_ascending_unique(b2, s1);
            let f2 = frontier@;
            assert(f2.to_set() =~= f0.to_set().insert(x)) by {
                assert forall|y: Link| f2.contains(y) implies f0.to_set().insert(x).contains(y) by {
                    let k = choose|k: int| 0 <= k < f2.len() && f2[k] == y;
                }
                assert forall|y: Link| f0.to_set().insert(x).contains(y) implies f2.contains(y) by {
                    if y != x {
                        let k = choose|k: int| 0 <= k < f0.len() && f0[k] == y;
                    }
                }
            }
            let s2 = sorted_desc(f0.to_set().insert(x));
            assert(descending(s2) && s2.to_set() == f0.to_set().insert(x));
            lemma_descending_unique(f2, s2);
        }
        if b0.len() == ef && b0.last().distance > x.distance {
            assert(b1 == b0.drop_last());
            assert forall|k: int| 0 <= k < b2.len() implies #[trigger] b2[k] == x || b0.contains(b2[k]) by {
                if b2[k] != x {
                    let k1 = choose|k1: int| 0 <= k1 < b1.len() && b1[k1] == b2[k];
                    assert(b0[k1] == b1[k1]);
                }
            }
            assert(b2.len() == ef);
            assert forall|k: int| 0 <= k < b2.len() implies #[trigger] b2[k].distance <= b0.last().distance by {
                if b2[k] != x {
                    let k1 = choose|k1: int| 0 <= k1 < b1.len() && b1[k1] == b2[k];
                    assert(b0[k1] == b1[k1]);
                    assert(link_lt(b0[k1], b0[b0.len() - 1]));
                }
            }
            assert(b2.last().distance <= b0.last().distance) by {
                assert(b2[b2.len() - 1].distance <= b0.last().distance);
            }
            assert forall|k: int|
                0 <= k < b0.len() && !has_index(b2, #[trigger] b0[k].node_index as int) implies {
                    &&& b2.len() == ef
                    &&& b2.last().distance <= b0[k].distance
                } by {
                if k < b0.len() - 1 {
                    assert(b1[k] == b0[k]);
                    assert(has_index(b1, b0[k].node_index as int));
                }
            }
        } else {
            assert(b1 == b0);
            if b0.len() == ef {
                assert(b2 == b0);
            }
            assert forall|k: int| 0 <= k < b2.len() implies #[trigger] b2[k] == x || b0.contains(b2[k]) by {
                if b2[k] != x {
                    let k1 = choose|k1: int| 0 <= k1 < b1.len() && b1[k1] == b2[k];
                }
            }
            assert forall|k: int|
                0 <= k < b0.len() && !has_index(b2, #[trigger] b0[k].node_index as int) implies {
                    &&& b2.len() == ef
                    &&& b2.last().distance <= b0[k].distance
                } by {
                assert(has_index(b0, b0[k].node_index as int));
            }
        }
    }
}

} // verus!
