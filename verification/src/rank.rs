//! The two ranking orders kept over the node arena: comparison predicates,
//! their order lemmas, and the sorted-insert / remove primitives that keep an
//! order consistent while node statistics change.

use vstd::prelude::*;
use crate::node::Node;
use crate::strutil::{lex_le, str_le, lemma_lex_le_total, lemma_lex_le_trans};

verus! {

/// Ranking precedence for "by popularity": higher score first, ties broken
/// by `date_modified` descending, then by name, for full determinism.
pub open spec fn pop_precedes(a: Node, b: Node) -> bool {
    ||| a.score() > b.score()
    ||| (a.score() == b.score() && a.date_modified > b.date_modified)
    ||| (a.score() == b.score() && a.date_modified == b.date_modified && lex_le(
        a.name@,
        b.name@,
    ))
}

/// Ranking precedence for "by recency": `date_modified` descending, ties
/// broken by name.
pub open spec fn rec_precedes(a: Node, b: Node) -> bool {
    ||| a.date_modified > b.date_modified
    ||| (a.date_modified == b.date_modified && lex_le(a.name@, b.name@))
}

/// Popularity precedence is total.
pub proof fn lemma_pop_total(a: Node, b: Node)
    ensures
        pop_precedes(a, b) || pop_precedes(b, a),
{
    lemma_lex_le_total(a.name@, b.name@);
}

/// Popularity precedence is transitive.
pub proof fn lemma_pop_trans(a: Node, b: Node, c: Node)
    requires
        pop_precedes(a, b),
        pop_precedes(b, c),
    ensures
        pop_precedes(a, c),
{
    if a.score() == b.score() && b.score() == c.score() && a.date_modified == b.date_modified
        && b.date_modified == c.date_modified {
        lemma_lex_le_trans(a.name@, b.name@, c.name@);
    }
}

/// Recency precedence is total.
pub proof fn lemma_rec_total(a: Node, b: Node)
    ensures
        rec_precedes(a, b) || rec_precedes(b, a),
{
    lemma_lex_le_total(a.name@, b.name@);
}

/// Recency precedence is transitive.
pub proof fn lemma_rec_trans(a: Node, b: Node, c: Node)
    requires
        rec_precedes(a, b),
        rec_precedes(b, c),
    ensures
        rec_precedes(a, c),
{
    if a.date_modified == b.date_modified && b.date_modified == c.date_modified {
        lemma_lex_le_trans(a.name@, b.name@, c.name@);
    }
}

/// No arena index occurs twice.
pub open spec fn no_dup(s: Seq<usize>) -> bool {
    forall|a: int, b: int| 0 <= a < b < s.len() ==> s[a] != s[b]
}

/// `s` lists each of the arena indices `0 .. n` exactly once.
pub open spec fn covers(s: Seq<usize>, n: int) -> bool {
    &&& s.len() == n
    &&& (forall|k: int| 0 <= k < s.len() ==> (#[trigger] s[k] as int) < n)
    &&& no_dup(s)
    &&& (forall|id: int| 0 <= id < n ==> #[trigger] s.contains(id as usize))
}

/// `s` is in descending popularity order over `nodes`.
pub open spec fn sorted_pop(nodes: Seq<Node>, s: Seq<usize>) -> bool {
    forall|k1: int, k2: int|
        0 <= k1 < k2 < s.len() ==> pop_precedes(nodes[s[k1] as int], nodes[s[k2] as int])
}

/// `s` is in descending recency order over `nodes`.
pub open spec fn sorted_rec(nodes: Seq<Node>, s: Seq<usize>) -> bool {
    forall|k1: int, k2: int|
        0 <= k1 < k2 < s.len() ==> rec_precedes(nodes[s[k1] as int], nodes[s[k2] as int])
}

/// Executable popularity comparison; matches `pop_precedes`.
pub fn pop_before(a: &Node, b: &Node) -> (r: bool)
    requires
        a.wf(),
        b.wf(),
    ensures
        r == pop_precedes(*a, *b),
{
    let sa = a.popularity();
    let sb = b.popularity();
    if sa > sb {
        true
    } else if sa < sb {
        false
    } else if a.date_modified > b.date_modified {
        true
    } else if a.date_modified < b.date_modified {
        false
    } else {
        str_le(a.name.as_str(), b.name.as_str())
    }
}

/// Executable recency comparison; matches `rec_precedes`.
pub fn rec_before(a: &Node, b: &Node) -> (r: bool)
    requires
        a.wf(),
        b.wf(),
    ensures
        r == rec_precedes(*a, *b),
{
    if a.date_modified > b.date_modified {
        true
    } else if a.date_modified < b.date_modified {
        false
    } else {
        str_le(a.name.as_str(), b.name.as_str())
    }
}

/// Inserts `id` into the popularity order at its sorted position.
pub fn insert_pop(nodes: &Vec<Node>, order: &mut Vec<usize>, id: usize)
    requires
        forall|i: int| 0 <= i < nodes@.len() ==> (#[trigger] nodes@[i]).wf(),
        (id as int) < nodes@.len(),
        forall|k: int| 0 <= k < old(order)@.len() ==> (#[trigger] old(order)@[k] as int)
            < nodes@.len(),
        no_dup(old(order)@),
        !old(order)@.contains(id),
        sorted_pop(nodes@, old(order)@),
    ensures
        final(order)@.len() == old(order)@.len() + 1,
        forall|v: usize|
            #[trigger] final(order)@.contains(v) <==> (old(order)@.contains(v) || v == id),
        no_dup(final(order)@),
        forall|k: int| 0 <= k < final(order)@.len() ==> (#[trigger] final(order)@[k] as int)
            < nodes@.len(),
        sorted_pop(nodes@, final(order)@),
{
    let n = order.len();
    let mut k: usize = 0;
    while k < n && pop_before(&nodes[order[k]], &nodes[id])
        invariant
            n == order@.len(),
            k <= n,
            (id as int) < nodes@.len(),
            forall|i: int| 0 <= i < nodes@.len() ==> (#[trigger] nodes@[i]).wf(),
            forall|m: int| 0 <= m < n ==> (#[trigger] order@[m] as int) < nodes@.len(),
            forall|j: int|
                0 <= j < k ==> pop_precedes(nodes@[#[trigger] order@[j] as int], nodes@[id as int]),
        decreases n - k,
    {
        k = k + 1;
    }
    proof {
        if k < n {
            lemma_pop_total(nodes@[order@[k as int] as int], nodes@[id as int]);
        }
    }
    let ghost pre = order@;
    order.insert(k, id);
    proof {
        lemma_insert_keeps_set(pre, k as int, id);
        assert forall|a: int, b: int| 0 <= a < b < order@.len() implies order@[a] != order@[b] by {
            if b < k {
            } else if a < k && b == k {
                assert(pre.contains(pre[a]));
            } else if a < k && b > k {
            } else if a == k {
                assert(pre.contains(pre[b - 1]));
            }
        }
        assert forall|k1: int, k2: int| 0 <= k1 < k2 < order@.len() implies pop_precedes(
            nodes@[order@[k1] as int],
            nodes@[order@[k2] as int],
        ) by {
            let a = order@[k1];
            let b = order@[k2];
            if k2 < k as int {
            } else if k1 < k as int && k2 == k as int {
                // a precedes the inserted id by the scan invariant
            } else if k1 == k as int {
                // id precedes order[k] (scan exit), which precedes the rest
                if k2 == k + 1 {
                    assert(pop_precedes(nodes@[id as int], nodes@[pre[k as int] as int]));
                } else {
                    lemma_pop_trans(
                        nodes@[id as int],
                        nodes@[pre[k as int] as int],
                        nodes@[pre[k2 - 1] as int],
                    );
                }
            } else if k1 > k as int {
            } else if k1 < k as int && k2 > k as int {
                // a precedes the inserted id, and id precedes b
                if k2 > k + 1 {
                    lemma_pop_trans(
                        nodes@[id as int],
                        nodes@[pre[k as int] as int],
                        nodes@[pre[k2 - 1] as int],
                    );
                }
                lemma_pop_trans(nodes@[a as int], nodes@[id as int], nodes@[b as int]);
            }
        }
    }
}

/// Inserts `id` into the recency order at its sorted position.
pub fn insert_rec(nodes: &Vec<Node>, order: &mut Vec<usize>, id: usize)
    requires
        forall|i: int| 0 <= i < nodes@.len() ==> (#[trigger] nodes@[i]).wf(),
        (id as int) < nodes@.len(),
        forall|k: int| 0 <= k < old(order)@.len() ==> (#[trigger] old(order)@[k] as int)
            < nodes@.len(),
        no_dup(old(order)@),
        !old(order)@.contains(id),
        sorted_rec(nodes@, old(order)@),
    ensures
        final(order)@.len() == old(order)@.len() + 1,
        forall|v: usize|
            #[trigger] final(order)@.contains(v) <==> (old(order)@.contains(v) || v == id),
        no_dup(final(order)@),
        forall|k: int| 0 <= k < final(order)@.len() ==> (#[trigger] final(order)@[k] as int)
            < nodes@.len(),
        sorted_rec(nodes@, final(order)@),
{
    let n = order.len();
    let mut k: usize = 0;
    while k < n && rec_before(&nodes[order[k]], &nodes[id])
        invariant
            n == order@.len(),
            k <= n,
            (id as int) < nodes@.len(),
            forall|i: int| 0 <= i < nodes@.len() ==> (#[trigger] nodes@[i]).wf(),
            forall|m: int| 0 <= m < n ==> (#[trigger] order@[m] as int) < nodes@.len(),
            forall|j: int|
                0 <= j < k ==> rec_precedes(nodes@[#[trigger] order@[j] as int], nodes@[id as int]),
        decreases n - k,
    {
        k = k + 1;
    }
    proof {
        if k < n {
            lemma_rec_total(nodes@[order@[k as int] as int], nodes@[id as int]);
        }
    }
    let ghost pre = order@;
    order.insert(k, id);
    proof {
        lemma_insert_keeps_set(pre, k as int, id);
        assert forall|a: int, b: int| 0 <= a < b < order@.len() implies order@[a] != order@[b] by {
            if b < k {
            } else if a < k && b == k {
                assert(pre.contains(pre[a]));
            } else if a < k && b > k {
            } else if a == k {
                assert(pre.contains(pre[b - 1]));
            }
        }
        assert forall|k1: int, k2: int| 0 <= k1 < k2 < order@.len() implies rec_precedes(
            nodes@[order@[k1] as int],
            nodes@[order@[k2] as int],
        ) by {
            let a = order@[k1];
            let b = order@[k2];
            if k2 < k as int {
            } else if k1 < k as int && k2 == k as int {
            } else if k1 == k as int {
                if k2 == k + 1 {
                    assert(rec_precedes(nodes@[id as int], nodes@[pre[k as int] as int]));
                } else {
                    lemma_rec_trans(
                        nodes@[id as int],
                        nodes@[pre[k as int] as int],
                        nodes@[pre[k2 - 1] as int],
                    );
                }
            } else if k1 > k as int {
            } else if k1 < k as int && k2 > k as int {
                if k2 > k + 1 {
                    lemma_rec_trans(
                        nodes@[id as int],
                        nodes@[pre[k as int] as int],
                        nodes@[pre[k2 - 1] as int],
                    );
                }
                lemma_rec_trans(nodes@[a as int], nodes@[id as int], nodes@[b as int]);
            }
        }
    }
}

/// Inserting `v` into a sequence extends the set of members by exactly `v`.
pub proof fn lemma_insert_keeps_set(s: Seq<usize>, p: int, v: usize)
    requires
        0 <= p <= s.len(),
    ensures
        forall|x: usize| #[trigger] s.insert(p, v).contains(x) <==> (s.contains(x) || x == v),
{
    let t = s.insert(p, v);
    assert forall|x: usize| #[trigger] t.contains(x) implies (s.contains(x) || x == v) by {
        let m = choose|m: int| 0 <= m < t.len() && t[m] == x;
        if m < p {
            assert(s[m] == x);
        } else if m == p {
        } else {
            assert(s[m - 1] == x);
        }
    }
    assert forall|x: usize| (s.contains(x) || x == v) implies #[trigger] t.contains(x) by {
        if x == v {
            assert(t[p] == x);
        } else {
            let m = choose|m: int| 0 <= m < s.len() && s[m] == x;
            if m < p {
                assert(t[m] == x);
            } else {
                assert(t[m + 1] == x);
            }
        }
    }
}

/// Removes the (single) occurrence of `id` from an order.
pub fn remove_id(order: &mut Vec<usize>, id: usize)
    requires
        old(order)@.contains(id),
        no_dup(old(order)@),
    ensures
        final(order)@.len() == old(order)@.len() - 1,
        forall|v: usize|
            #[trigger] final(order)@.contains(v) <==> (old(order)@.contains(v) && v != id),
        no_dup(final(order)@),
        exists|p: int|
            0 <= p < old(order)@.len() && old(order)@[p] == id && final(order)@ == old(
                order,
            )@.remove(p),
{
    let n = order.len();
    let mut k: usize = 0;
    while k < n && order[k] != id
        invariant
            n == order@.len(),
            k <= n,
            order@.contains(id),
            forall|j: int| 0 <= j < k ==> order@[j] != id,
        decreases n - k,
    {
        k = k + 1;
    }
    proof {
        let m = choose|m: int| 0 <= m < order@.len() && order@[m] == id;
        assert(k < n);
    }
    let ghost pre = order@;
    order.remove(k);
    proof {
        assert(pre[k as int] == id);
        assert forall|v: usize| #[trigger] order@.contains(v) implies (pre.contains(v) && v != id) by {
            let m = choose|m: int| 0 <= m < order@.len() && order@[m] == v;
            if m < k {
                assert(pre[m] == v);
            } else {
                assert(pre[m + 1] == v);
            }
        }
        assert forall|v: usize| (pre.contains(v) && v != id) implies #[trigger] order@.contains(
            v,
        ) by {
            let m = choose|m: int| 0 <= m < pre.len() && pre[m] == v;
            if m < k {
                assert(order@[m] == v);
            } else if m > k {
                assert(order@[m - 1] == v);
            }
        }
        assert forall|a: int, b: int| 0 <= a < b < order@.len() implies order@[a] != order@[b] by {
            if a < k && b < k {
            } else if a < k {
                assert(order@[b] == pre[b + 1]);
            } else {
                assert(order@[a] == pre[a + 1]);
                assert(order@[b] == pre[b + 1]);
            }
        }
    }
}

/// Removing an index from a sorted order keeps it sorted (popularity).
pub proof fn lemma_sorted_pop_remove(nodes: Seq<Node>, s: Seq<usize>, p: int)
    requires
        sorted_pop(nodes, s),
        0 <= p < s.len(),
    ensures
        sorted_pop(nodes, s.remove(p)),
{
    let t = s.remove(p);
    assert forall|k1: int, k2: int| 0 <= k1 < k2 < t.len() implies pop_precedes(
        nodes[t[k1] as int],
        nodes[t[k2] as int],
    ) by {
        let a1 = if k1 < p { k1 } else { k1 + 1 };
        let a2 = if k2 < p { k2 } else { k2 + 1 };
        assert(t[k1] == s[a1]);
        assert(t[k2] == s[a2]);
    }
}

/// Removing an index from a sorted order keeps it sorted (recency).
pub proof fn lemma_sorted_rec_remove(nodes: Seq<Node>, s: Seq<usize>, p: int)
    requires
        sorted_rec(nodes, s),
        0 <= p < s.len(),
    ensures
        sorted_rec(nodes, s.remove(p)),
{
    let t = s.remove(p);
    assert forall|k1: int, k2: int| 0 <= k1 < k2 < t.len() implies rec_precedes(
        nodes[t[k1] as int],
        nodes[t[k2] as int],
    ) by {
        let a1 = if k1 < p { k1 } else { k1 + 1 };
        let a2 = if k2 < p { k2 } else { k2 + 1 };
        assert(t[k1] == s[a1]);
        assert(t[k2] == s[a2]);
    }
}

/// Orders over unchanged ranking fields stay sorted when the arena is
/// updated at an index the order does not contain (popularity).
pub proof fn lemma_sorted_pop_frame(nodes1: Seq<Node>, nodes2: Seq<Node>, s: Seq<usize>, id: int)
    requires
        sorted_pop(nodes1, s),
        0 <= id < nodes1.len(),
        nodes2 == nodes1.update(id, nodes2[id]),
        forall|k: int| 0 <= k < s.len() ==> 0 <= (#[trigger] s[k] as int) < nodes1.len(),
        forall|k: int| 0 <= k < s.len() ==> (#[trigger] s[k] as int) != id,
    ensures
        sorted_pop(nodes2, s),
{
    assert forall|k1: int, k2: int| 0 <= k1 < k2 < s.len() implies pop_precedes(
        nodes2[s[k1] as int],
        nodes2[s[k2] as int],
    ) by {
        assert(nodes2[s[k1] as int] == nodes1[s[k1] as int]);
        assert(nodes2[s[k2] as int] == nodes1[s[k2] as int]);
    }
}

/// A recency order stays sorted when node updates leave every node's
/// `date_modified` and name unchanged (for example a view-bucket change).
pub proof fn lemma_sorted_rec_stable(n1: Seq<Node>, n2: Seq<Node>, s: Seq<usize>)
    requires
        sorted_rec(n1, s),
        n1.len() == n2.len(),
        forall|i: int|
            0 <= i < n1.len() ==> (#[trigger] n2[i]).date_modified == n1[i].date_modified
                && n2[i].name == n1[i].name,
        forall|k: int| 0 <= k < s.len() ==> (#[trigger] s[k] as int) < n1.len(),
    ensures
        sorted_rec(n2, s),
{
    assert forall|k1: int, k2: int| 0 <= k1 < k2 < s.len() implies rec_precedes(
        n2[s[k1] as int],
        n2[s[k2] as int],
    ) by {
        assert(rec_precedes(n1[s[k1] as int], n1[s[k2] as int]));
    }
}

/// The same frame property for the recency order.
pub proof fn lemma_sorted_rec_frame(nodes1: Seq<Node>, nodes2: Seq<Node>, s: Seq<usize>, id: int)
    requires
        sorted_rec(nodes1, s),
        0 <= id < nodes1.len(),
        nodes2 == nodes1.update(id, nodes2[id]),
        forall|k: int| 0 <= k < s.len() ==> 0 <= (#[trigger] s[k] as int) < nodes1.len(),
        forall|k: int| 0 <= k < s.len() ==> (#[trigger] s[k] as int) != id,
    ensures
        sorted_rec(nodes2, s),
{
    assert forall|k1: int, k2: int| 0 <= k1 < k2 < s.len() implies rec_precedes(
        nodes2[s[k1] as int],
        nodes2[s[k2] as int],
    ) by {
        assert(nodes2[s[k1] as int] == nodes1[s[k1] as int]);
        assert(nodes2[s[k2] as int] == nodes1[s[k2] as int]);
    }
}

} // verus!
