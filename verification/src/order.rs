//! The mathematics of dependency ordering.
//!
//! A graph is a number of nodes `n` (handles `0 .. n`) and a flat sequence
//! of directed edges `(producer, consumer)`, each meaning "producer must
//! execute before consumer".  This module defines what a valid
//! linearization of such a graph is, what the deterministic
//! lowest-handle-first tie-break pins down, and proves the laws the
//! executable graph relies on: a graph is linearizable exactly when a
//! run of the worklist algorithm places every node, and the tie-broken
//! order is unique.

use vstd::prelude::*;
use vstd::set_lib::lemma_int_range;
use vstd::set_lib::set_int_range;

verus! {

/// Every edge endpoint names an existing node handle.
pub open spec fn edges_in_range(n: int, es: Seq<(usize, usize)>) -> bool {
    forall|k: int| 0 <= k < es.len() ==> (#[trigger] es[k]).0 < n && es[k].1 < n
}

/// Node `v` may run once everything in `done` has run: every edge into
/// `v` has its producer in `done`.
pub open spec fn eligible(es: Seq<(usize, usize)>, done: Seq<usize>, v: usize) -> bool {
    forall|k: int| 0 <= k < es.len() && (#[trigger] es[k]).1 == v ==> done.contains(es[k].0)
}

/// `order` is a valid execution order for the whole graph: a permutation
/// of all handles `0 .. n` in which every node appears only after all of
/// its producers.
pub open spec fn is_linearization(n: int, es: Seq<(usize, usize)>, order: Seq<usize>) -> bool {
    &&& order.len() == n
    &&& forall|i: int| 0 <= i < order.len() ==> (#[trigger] order[i]) < n
    &&& order.no_duplicates()
    &&& forall|v: usize| v < n ==> order.contains(v)
    &&& forall|i: int| 0 <= i < order.len() ==> #[trigger] eligible(es, order.take(i), order[i])
}

/// The plain reading of a linearization: for every edge, the producer
/// appears at a strictly earlier position than the consumer.
pub proof fn lemma_producer_precedes_consumer(
    n: int,
    es: Seq<(usize, usize)>,
    order: Seq<usize>,
    k: int,
    j: int,
)
    requires
        is_linearization(n, es, order),
        0 <= k < es.len(),
        0 <= j < order.len(),
        order[j] == es[k].1,
    ensures
        exists|i: int| 0 <= i < j && order[i] == es[k].0,
{
    assert(eligible(es, order.take(j), order[j]));
    assert(order.take(j).contains(es[k].0));
    let i = choose|i: int| 0 <= i < order.take(j).len() && order.take(j)[i] == es[k].0;
    assert(order[i] == es[k].0);
}

/// The deterministic tie-break: at every position the order holds the
/// lowest handle that was eligible and not yet placed.
pub open spec fn is_min_first(n: int, es: Seq<(usize, usize)>, order: Seq<usize>) -> bool {
    forall|i: int, v: usize|
        0 <= i < order.len() && v < order[i] && eligible(es, order.take(i), v)
            ==> #[trigger] order.take(i).contains(v)
}

/// Some valid execution order exists; equivalently, the edge set is
/// acyclic over the `n` nodes.
pub open spec fn linearizable(n: int, es: Seq<(usize, usize)>) -> bool {
    exists|order: Seq<usize>| #[trigger] is_linearization(n, es, order)
}

/// The one order that the lowest-handle-first tie-break selects.
pub open spec fn greedy_order(n: int, es: Seq<(usize, usize)>) -> Seq<usize> {
    choose|order: Seq<usize>| is_linearization(n, es, order) && is_min_first(n, es, order)
}

/// A sequence of distinct values below `n` has at most `n` elements.
pub proof fn lemma_bounded_distinct_len(s: Seq<usize>, n: int)
    requires
        0 <= n,
        s.no_duplicates(),
        forall|i: int| 0 <= i < s.len() ==> (#[trigger] s[i]) < n,
    ensures
        s.len() <= n,
{
    let t = s.map_values(|v: usize| v as int);
    assert(t.no_duplicates()) by {
        s.lemma_no_duplicates_injective(|v: usize| v as int);
    }
    t.unique_seq_to_set();
    assert forall|w: int| t.to_set().contains(w) implies set_int_range(0, n).contains(w) by {
        let i = choose|i: int| 0 <= i < t.len() && t[i] == w;
        assert(s[i] < n);
    }
    lemma_int_range(0, n);
    vstd::set_lib::lemma_len_subset(t.to_set(), set_int_range(0, n));
}

/// A sequence of values below `n` that is shorter than `n` misses some
/// value below `n`.
pub proof fn lemma_bounded_missing(s: Seq<usize>, n: int)
    requires
        n <= usize::MAX,
        forall|i: int| 0 <= i < s.len() ==> (#[trigger] s[i]) < n,
        s.len() < n,
    ensures
        exists|v: usize| v < n && !s.contains(v),
{
    if !(exists|v: usize| v < n && !s.contains(v)) {
        let t = s.map_values(|v: usize| v as int);
        assert forall|w: int| set_int_range(0, n).contains(w) implies t.to_set().contains(w) by {
            let v = w as usize;
            assert(v < n);
            assert(s.contains(v));
            let i = choose|i: int| 0 <= i < s.len() && s[i] == v;
            assert(t[i] == w);
            assert(t.contains(w));
        }
        lemma_int_range(0, n);
        assert(t.to_set().finite()) by {
            broadcast use vstd::seq_lib::seq_to_set_is_finite;
        }
        vstd::set_lib::lemma_len_subset(set_int_range(0, n), t.to_set());
        t.lemma_cardinality_of_set();
        assert(false);
    }
}

/// Growing the set of finished nodes never revokes eligibility.
pub proof fn lemma_eligible_superset(
    es: Seq<(usize, usize)>,
    d1: Seq<usize>,
    d2: Seq<usize>,
    v: usize,
)
    requires
        eligible(es, d1, v),
        forall|x: usize| d1.contains(x) ==> d2.contains(x),
    ensures
        eligible(es, d2, v),
{
    assert forall|k: int| 0 <= k < es.len() && (#[trigger] es[k]).1 == v implies d2.contains(
        es[k].0,
    ) by {
        assert(d1.contains(es[k].0));
    }
}

/// Walks a full linearization `l` backwards: when every unfinished node
/// waits on an unfinished producer, each node of `l` must in fact be
/// finished, because an unfinished one would need an unfinished
/// producer strictly earlier in `l`, without end.
proof fn lemma_stuck_descend(
    n: int,
    es: Seq<(usize, usize)>,
    done: Seq<usize>,
    l: Seq<usize>,
    i: int,
)
    requires
        forall|v: usize| v < n && !done.contains(v) ==> !eligible(es, done, v),
        is_linearization(n, es, l),
        0 <= i < l.len(),
    ensures
        done.contains(l[i]),
    decreases i,
{
    let v = l[i];
    assert(v < n);
    if !done.contains(v) {
        assert(!eligible(es, done, v));
        let k = choose|k: int|
            0 <= k < es.len() && (#[trigger] es[k]).1 == v && !done.contains(es[k].0);
        let p = es[k].0;
        assert(eligible(es, l.take(i), l[i]));
        assert(l.take(i).contains(p));
        let j = choose|j: int| 0 <= j < l.take(i).len() && l.take(i)[j] == p;
        assert(l[j] == p);
        lemma_stuck_descend(n, es, done, l, j);
        assert(false);
    }
}

/// When the worklist is stuck — some node is unfinished, and every
/// unfinished node waits on an unfinished producer — the graph has no
/// full linearization: the unfinished nodes form at least one cycle.
pub proof fn lemma_stuck_no_linearization(n: int, es: Seq<(usize, usize)>, done: Seq<usize>)
    requires
        n <= usize::MAX,
        forall|i: int| 0 <= i < done.len() ==> (#[trigger] done[i]) < n,
        done.len() < n,
        forall|v: usize| v < n && !done.contains(v) ==> !eligible(es, done, v),
    ensures
        !linearizable(n, es),
{
    if linearizable(n, es) {
        let l = choose|l: Seq<usize>| is_linearization(n, es, l);
        lemma_bounded_missing(done, n);
        let v = choose|v: usize| v < n && !done.contains(v);
        assert(l.contains(v));
        let i = choose|i: int| 0 <= i < l.len() && l[i] == v;
        lemma_stuck_descend(n, es, done, l, i);
        assert(false);
    }
}

/// The lowest-handle-first tie-break pins the order completely: two
/// linearizations that both always pick the lowest eligible unplaced
/// handle agree position by position.  This is why `topological_order`
/// is idempotent: repeated calls on an unmodified graph return the
/// identical sequence.
pub proof fn lemma_min_first_unique(
    n: int,
    es: Seq<(usize, usize)>,
    o1: Seq<usize>,
    o2: Seq<usize>,
)
    requires
        is_linearization(n, es, o1),
        is_min_first(n, es, o1),
        is_linearization(n, es, o2),
        is_min_first(n, es, o2),
    ensures
        o1 == o2,
{
    lemma_min_first_prefix(n, es, o1, o2, n);
    assert(o1 =~= o1.take(n));
    assert(o2 =~= o2.take(n));
}

/// Both tie-broken orders agree on their first `i` positions.
proof fn lemma_min_first_prefix(
    n: int,
    es: Seq<(usize, usize)>,
    o1: Seq<usize>,
    o2: Seq<usize>,
    i: int,
)
    requires
        is_linearization(n, es, o1),
        is_min_first(n, es, o1),
        is_linearization(n, es, o2),
        is_min_first(n, es, o2),
        0 <= i <= n,
    ensures
        o1.take(i) == o2.take(i),
    decreases i,
{
    if i > 0 {
        lemma_min_first_prefix(n, es, o1, o2, i - 1);
        let d = o1.take(i - 1);
        assert(o2.take(i - 1) == d);
        let a = o1[i - 1];
        let b = o2[i - 1];
        assert(eligible(es, d, a));
        assert(eligible(es, o2.take(i - 1), b));
        assert(!d.contains(a)) by {
            if d.contains(a) {
                let j = choose|j: int| 0 <= j < d.len() && d[j] == a;
                assert(o1[j] == o1[i - 1] && j != i - 1);
            }
        }
        assert(!o2.take(i - 1).contains(b)) by {
            if o2.take(i - 1).contains(b) {
                let j = choose|j: int| 0 <= j < i - 1 && #[trigger] o2.take(i - 1)[j] == b;
                assert(o2[j] == o2[i - 1] && j != i - 1);
            }
        }
        if b < a {
            assert(d.contains(b));
        } else if a < b {
            assert(o2.take(i - 1).contains(a));
        }
        assert(a == b);
        assert(o1.take(i) =~= d.push(a));
        assert(o2.take(i) =~= o2.take(i - 1).push(b));
    } else {
        assert(o1.take(0) =~= o2.take(0));
    }
}

/// Whatever order satisfies the linearization and tie-break predicates
/// is the one `greedy_order` names.
pub proof fn lemma_greedy_order_is(n: int, es: Seq<(usize, usize)>, o: Seq<usize>)
    requires
        is_linearization(n, es, o),
        is_min_first(n, es, o),
    ensures
        o == greedy_order(n, es),
{
    let w = greedy_order(n, es);
    assert(is_linearization(n, es, w) && is_min_first(n, es, w)) by {
        assert(is_linearization(n, es, o) && is_min_first(n, es, o));
    }
    lemma_min_first_unique(n, es, o, w);
}

/// A freshly appended node with no dependencies may run first: no edge
/// reaches it, and prefixing it to any linearization of the first `n`
/// nodes linearizes all `n + 1`.
pub proof fn lemma_fresh_node_first(n: usize, es: Seq<(usize, usize)>, l: Seq<usize>)
    requires
        n < usize::MAX,
        edges_in_range(n as int, es),
        is_linearization(n as int, es, l),
    ensures
        eligible(es, Seq::<usize>::empty(), n),
        is_linearization(n + 1, es, seq![n] + l),
        (seq![n] + l)[0] == n,
{
    let l2 = seq![n] + l;
    assert(l2.len() == n + 1);
    assert(l2[0] == n);
    assert(forall|i: int| 0 < i < l2.len() ==> l2[i] == l[i - 1]);
    assert forall|i: int| 0 <= i < l2.len() implies (#[trigger] l2[i]) < n + 1 by {
        if i > 0 {
            assert(l[i - 1] < n);
        }
    }
    assert(l2.no_duplicates()) by {
        assert forall|i: int, j: int|
            0 <= i < l2.len() && 0 <= j < l2.len() && i != j implies l2[i] != l2[j] by {
            if i > 0 && j > 0 {
                assert(l[i - 1] != l[j - 1]);
            } else if i == 0 {
                assert(l[j - 1] < n);
            } else {
                assert(l[i - 1] < n);
            }
        }
    }
    assert forall|v: usize| v < n + 1 implies l2.contains(v) by {
        if v == n {
            assert(l2[0] == v);
        } else {
            assert(l.contains(v));
            let i = choose|i: int| 0 <= i < l.len() && l[i] == v;
            assert(l2[i + 1] == v);
        }
    }
    assert forall|i: int| 0 <= i < l2.len() implies #[trigger] eligible(es, l2.take(i), l2[i]) by {
        if i == 0 {
            assert forall|k: int|
                0 <= k < es.len() && (#[trigger] es[k]).1 == l2[0] implies l2.take(
                0,
            ).contains(es[k].0) by {
                assert(es[k].1 < n);
            }
        } else {
            assert(eligible(es, l.take(i - 1), l[i - 1]));
            assert forall|x: usize| l.take(i - 1).contains(x) implies l2.take(i).contains(x) by {
                let j = choose|j: int| 0 <= j < i - 1 && #[trigger] l.take(i - 1)[j] == x;
                assert(l2.take(i)[j + 1] == x);
            }
            lemma_eligible_superset(es, l.take(i - 1), l2.take(i), l2[i]);
        }
    }
}

/// The law behind adding a node with an empty dependency set: if the
/// graph was linearizable before, the grown graph has a valid order
/// that starts with the fresh handle `n`.
pub proof fn lemma_fresh_node_first_exists(n: usize, es: Seq<(usize, usize)>)
    requires
        n < usize::MAX,
        edges_in_range(n as int, es),
        linearizable(n as int, es),
    ensures
        exists|o: Seq<usize>|
            #[trigger] is_linearization(n + 1, es, o) && o.len() > 0 && o[0] == n,
{
    let l = choose|l: Seq<usize>| is_linearization(n as int, es, l);
    lemma_fresh_node_first(n, es, l);
    assert(is_linearization(n + 1, es, seq![n] + l) && (seq![n] + l).len() > 0 && (seq![n] + l)[0]
        == n);
}

/// A sequence of `n` distinct values below `n` contains every value
/// below `n`.
pub proof fn lemma_bounded_distinct_full(s: Seq<usize>, n: int)
    requires
        s.no_duplicates(),
        forall|i: int| 0 <= i < s.len() ==> (#[trigger] s[i]) < n,
        s.len() == n,
    ensures
        forall|v: usize| v < n ==> s.contains(v),
{
    assert forall|v: usize| v < n implies s.contains(v) by {
        if !s.contains(v) {
            let s2 = s.push(v);
            assert(s2.no_duplicates()) by {
                assert forall|i: int, j: int|
                    0 <= i < s2.len() && 0 <= j < s2.len() && i != j implies s2[i] != s2[j] by {
                    if i < s.len() && j < s.len() {
                        assert(s[i] != s[j]);
                    } else if i < s.len() {
                        assert(!s.contains(s[i]) ==> false);
                    } else {
                        assert(j < s.len() && s2[i] == v);
                    }
                }
            }
            assert(forall|i: int| 0 <= i < s2.len() ==> (#[trigger] s2[i]) < n);
            lemma_bounded_distinct_len(s2, n);
            assert(false);
        }
    }
}

} // verus!
