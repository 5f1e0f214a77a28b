//! The library-wide laws: statements relating the public operations and the
//! tree invariant, each proved once and for all inputs.

use vstd::prelude::*;
use crate::node::{Node, lookup_in, lemma_lookup_unique, sum_views};
use crate::strutil::{is_ws, valid_name};
use crate::tree::{
    FileTree, parented, resolve_spec, resolve_rest, seg_len, lemma_seg_len_of,
    trim_front, trim_back, strip_lead_slash, stats_bump_view,
};
use crate::rank::{no_dup, pop_precedes};
use crate::builder::{ScanEntry, entry_ok, entry_name, from_ok_entry};

verus! {

/// Tree shape: every non-root node of a well-formed tree has a parent
/// strictly closer to the root, and looking the node's own name up in that
/// parent's children mapping finds exactly this node.
pub proof fn lemma_tree_shape(t: FileTree, i: int)
    requires
        t.wf(),
        1 <= i < t.nodes@.len(),
    ensures
        t.nodes@[i].parent is Some,
        0 <= (t.nodes@[i].parent->0 as int) < i,
        lookup_in(
            t.nodes@[t.nodes@[i].parent->0 as int].children@,
            t.nodes@[i].name@,
        ) == Some(i as usize),
{
    assert(t.nodes.len() == t.nodes@.len());
    assert(parented(t.nodes@, i));
    let p = t.nodes@[i].parent->0 as int;
    let j = choose|j: int|
        {
            &&& 0 <= j < t.nodes@[t.nodes@[i].parent->0 as int].children@.len()
            &&& (#[trigger] t.nodes@[t.nodes@[i].parent->0 as int].children@[j]).id
                == i as usize
            &&& t.nodes@[t.nodes@[i].parent->0 as int].children@[j].name@ == t.nodes@[i].name@
        };
    lemma_lookup_unique(t.nodes@[p].children@, t.nodes@[i].name@, j);
}

/// The node reached after `k` parent steps from `i` (the walk stays put at
/// a node without a parent).
pub open spec fn walk_up(nodes: Seq<Node>, i: int, k: nat) -> int
    decreases k,
{
    if k == 0 {
        i
    } else {
        let j = walk_up(nodes, i, (k - 1) as nat);
        if 0 <= j < nodes.len() && nodes[j].parent is Some {
            nodes[j].parent->0 as int
        } else {
            j
        }
    }
}

/// How many parent steps from `i` reach the root.
pub open spec fn depth_of(nodes: Seq<Node>, i: int) -> nat
    decreases i,
{
    if 0 < i < nodes.len() && nodes[i].parent is Some && 0 <= (nodes[i].parent->0 as int) < i {
        1 + depth_of(nodes, nodes[i].parent->0 as int)
    } else {
        0
    }
}

/// Walking from `i` and then stepping is walking from `i`'s parent.
proof fn lemma_walk_shift(nodes: Seq<Node>, i: int, k: nat)
    requires
        0 < i < nodes.len(),
        nodes[i].parent is Some,
        0 <= (nodes[i].parent->0 as int) < i,
    ensures
        walk_up(nodes, i, (k + 1) as nat) == walk_up(nodes, nodes[i].parent->0 as int, k),
    decreases k,
{
    let p = nodes[i].parent->0 as int;
    assert(walk_up(nodes, i, 0) == i);
    if k == 0 {
        assert(walk_up(nodes, i, 1nat) == p);
        assert(walk_up(nodes, p, 0) == p);
    } else {
        lemma_walk_shift(nodes, i, (k - 1) as nat);
        let j = walk_up(nodes, i, k);
        assert(j == walk_up(nodes, p, (k - 1) as nat));
        assert(walk_up(nodes, i, (k + 1) as nat) == (if 0 <= j < nodes.len() && nodes[j].parent
            is Some {
            nodes[j].parent->0 as int
        } else {
            j
        }));
        assert(walk_up(nodes, p, k) == (if 0 <= j < nodes.len() && nodes[j].parent is Some {
            nodes[j].parent->0 as int
        } else {
            j
        }));
    }
}

/// No cycles: from any node of a well-formed tree, walking parent
/// references reaches the root in exactly `depth_of` steps — a number
/// bounded by the node's own arena index — and not earlier, so the walk
/// reaches the root exactly once.
pub proof fn lemma_no_cycles(t: FileTree, i: int)
    requires
        t.wf(),
        0 <= i < t.nodes@.len(),
    ensures
        depth_of(t.nodes@, i) <= i,
        walk_up(t.nodes@, i, depth_of(t.nodes@, i)) == 0,
        forall|k: nat| k < depth_of(t.nodes@, i) ==> walk_up(t.nodes@, i, k) != 0,
    decreases i,
{
    let nodes = t.nodes@;
    if i == 0 {
    } else {
        assert(parented(nodes, i));
        let p = nodes[i].parent->0 as int;
        lemma_no_cycles(t, p);
        let d = depth_of(nodes, i);
        lemma_walk_shift(nodes, i, (d - 1) as nat);
        assert(walk_up(nodes, i, d) == walk_up(nodes, p, (d - 1) as nat));
        assert forall|k: nat| k < d implies walk_up(nodes, i, k) != 0 by {
            if k > 0 {
                lemma_walk_shift(nodes, i, (k - 1) as nat);
                assert(walk_up(nodes, i, k) == walk_up(nodes, p, (k - 1) as nat));
            }
        }
    }
}

/// Once the walk has reached the root it stays there: the root has no
/// parent, so longer walks never leave it — the root is reached exactly
/// once and the walk is stable from then on.
pub proof fn lemma_walk_stays_at_root(nodes: Seq<Node>, i: int, k: nat, d: nat)
    requires
        nodes.len() > 0,
        nodes[0].parent is None,
        walk_up(nodes, i, d) == 0,
        d <= k,
    ensures
        walk_up(nodes, i, k) == 0,
    decreases k - d,
{
    if k > d {
        lemma_walk_stays_at_root(nodes, i, (k - 1) as nat, d);
        assert(walk_up(nodes, i, k) == walk_up(nodes, i, (k - 1) as nat));
    }
}

/// The slash-joined names from the root (exclusive) down to `i`.
pub open spec fn path_to(nodes: Seq<Node>, i: int) -> Seq<char>
    decreases i,
{
    if !(0 < i < nodes.len()) || !(nodes[i].parent is Some) || !(0 <= (nodes[i].parent->0 as int)
        < i) {
        Seq::empty()
    } else {
        if nodes[i].parent->0 as int == 0 {
            nodes[i].name@
        } else {
            path_to(nodes, nodes[i].parent->0 as int) + seq!['/'] + nodes[i].name@
        }
    }
}

/// A name fit for a round trip through the resolver: usable, and without
/// surrounding whitespace that the resolver would trim away.
pub open spec fn clean_name(s: Seq<char>) -> bool {
    &&& valid_name(s)
    &&& !is_ws(s[0])
    &&& !is_ws(s[s.len() - 1])
}

/// The first segment of a name (no separators) is the whole of it.
proof fn lemma_seg_len_name(s: Seq<char>)
    requires
        valid_name(s),
    ensures
        seg_len(s) == s.len(),
{
    assert forall|j: int| 0 <= j < s.len() implies s[j] != '/' by {
        if s[j] == '/' {
            assert(s.contains('/'));
        }
    }
    lemma_seg_len_of(s, s.len() as int);
}

/// Resolving `a` + "/" + `b` first resolves `a`, then resolves `b` from
/// there.
proof fn lemma_resolve_append(nodes: Seq<Node>, cur: int, a: Seq<char>, b: Seq<char>)
    requires
        resolve_rest(nodes, cur, a) is Some,
    ensures
        resolve_rest(nodes, cur, a + seq!['/'] + b) == resolve_rest(
            nodes,
            resolve_rest(nodes, cur, a)->0 as int,
            b,
        ),
    decreases a.len(),
{
    let s = a + seq!['/'] + b;
    let m = seg_len(a) as int;
    assert(m >= 1);
    crate::tree::lemma_seg_len(a);
    assert forall|j: int| 0 <= j < m implies s[j] != '/' by {
        assert(s[j] == a[j]);
    }
    if m == a.len() {
        assert(s[m] == '/');
        lemma_seg_len_of(s, m);
        assert(s.subrange(0, m) =~= a);
        assert(s.subrange(0, m) =~= a.subrange(0, m));
        let c = resolve_rest(nodes, cur, a)->0;
        assert(lookup_in(nodes[cur].children@, a) == Some(c));
        assert(s.subrange(m + 1, s.len() as int) =~= b);
    } else {
        assert(a[m] == '/');
        assert(s[m] == '/');
        lemma_seg_len_of(s, m);
        assert(s.subrange(0, m) =~= a.subrange(0, m));
        match lookup_in(nodes[cur].children@, a.subrange(0, m)) {
            None => {
                assert(false);
            },
            Some(c) => {
                assert(s.subrange(m + 1, s.len() as int) =~= a.subrange(m + 1, a.len() as int)
                    + seq!['/'] + b);
                lemma_resolve_append(nodes, c as int, a.subrange(m + 1, a.len() as int), b);
            },
        }
    }
}

/// The joined path down to a node is non-empty, starts with the first
/// ancestor's name, and ends with the node's own name.
proof fn lemma_path_to_edges(t: FileTree, i: int)
    requires
        t.wf(),
        1 <= i < t.nodes@.len(),
        forall|j: int| 1 <= j < t.nodes@.len() ==> clean_name(#[trigger] t.nodes@[j].name@),
    ensures
        path_to(t.nodes@, i).len() > 0,
        !is_ws(path_to(t.nodes@, i)[0]),
        path_to(t.nodes@, i)[0] != '/',
        !is_ws(path_to(t.nodes@, i).last()),
    decreases i,
{
    let nodes = t.nodes@;
    assert(parented(nodes, i));
    let p = nodes[i].parent->0 as int;
    assert(clean_name(nodes[i].name@));
    if nodes[i].name@[0] == '/' {
        assert(nodes[i].name@.contains('/'));
    }
    if p == 0 {
    } else {
        lemma_path_to_edges(t, p);
        let full = path_to(nodes, p) + seq!['/'] + nodes[i].name@;
        assert(full[0] == path_to(nodes, p)[0]);
        assert(full.last() == nodes[i].name@.last());
    }
}

/// Path resolution round trip: for every node of a well-formed tree whose
/// names carry no surrounding whitespace, resolving the slash-joined names
/// from the root down to the node returns exactly that node.
pub proof fn lemma_resolve_round_trip(t: FileTree, i: int)
    requires
        t.wf(),
        1 <= i < t.nodes@.len(),
        forall|j: int| 1 <= j < t.nodes@.len() ==> clean_name(#[trigger] t.nodes@[j].name@),
    ensures
        resolve_spec(t.nodes@, path_to(t.nodes@, i)) == Some(i as usize),
    decreases i,
{
    let nodes = t.nodes@;
    let path = path_to(nodes, i);
    lemma_path_to_edges(t, i);
    assert(trim_front(path) == path);
    assert(trim_back(path) == path);
    assert(strip_lead_slash(path) == path);
    lemma_rest_round_trip(t, i);
}

/// The segment walk itself: `resolve_rest` from the root over the joined
/// names reaches `i`.
proof fn lemma_rest_round_trip(t: FileTree, i: int)
    requires
        t.wf(),
        1 <= i < t.nodes@.len(),
        forall|j: int| 1 <= j < t.nodes@.len() ==> clean_name(#[trigger] t.nodes@[j].name@),
    ensures
        resolve_rest(t.nodes@, 0, path_to(t.nodes@, i)) == Some(i as usize),
    decreases i,
{
    let nodes = t.nodes@;
    assert(parented(nodes, i));
    let p = nodes[i].parent->0 as int;
    let nm = nodes[i].name@;
    assert(clean_name(nm));
    lemma_tree_shape(t, i);
    lemma_seg_len_name(nm);
    if p == 0 {
        assert(path_to(nodes, i) == nm);
        assert(resolve_rest(nodes, 0, nm) == lookup_in(nodes[0].children@, nm));
    } else {
        lemma_rest_round_trip(t, p);
        lemma_resolve_append(nodes, 0, path_to(nodes, p), nm);
        assert(resolve_rest(nodes, p, nm) == lookup_in(nodes[p].children@, nm));
    }
}

/// First position of `v` in an order.
pub open spec fn pos_of(s: Seq<usize>, v: usize) -> int
    decreases s.len(),
{
    if s.len() == 0 {
        0
    } else if s[0] == v {
        0
    } else {
        1 + pos_of(s.drop_first(), v)
    }
}

/// A contained value sits at its `pos_of`.
pub proof fn lemma_pos_of(s: Seq<usize>, v: usize)
    requires
        s.contains(v),
    ensures
        0 <= pos_of(s, v) < s.len(),
        s[pos_of(s, v)] == v,
    decreases s.len(),
{
    if s[0] == v {
    } else {
        let j = choose|j: int| 0 <= j < s.len() && s[j] == v;
        assert(s.drop_first()[j - 1] == v);
        lemma_pos_of(s.drop_first(), v);
    }
}

/// Rank monotonicity: in a well-formed tree, a node with the strictly
/// higher popularity score sits strictly earlier in `by_popularity`. In
/// particular, recording a view for a node that tied with another can never
/// leave it ranked strictly worse.
pub proof fn lemma_rank_monotonic(t: FileTree, x: usize, y: usize)
    requires
        t.wf(),
        (x as int) < t.nodes@.len(),
        (y as int) < t.nodes@.len(),
        x != y,
        t.nodes@[x as int].score() > t.nodes@[y as int].score(),
    ensures
        pos_of(t.by_popularity@, x) < pos_of(t.by_popularity@, y),
{
    let s = t.by_popularity@;
    assert(s.contains((x as int) as usize));
    assert(s.contains((y as int) as usize));
    lemma_pos_of(s, x);
    lemma_pos_of(s, y);
    let px = pos_of(s, x);
    let py = pos_of(s, y);
    if px > py {
        assert(pop_precedes(t.nodes@[s[py] as int], t.nodes@[s[px] as int]));
        assert(false);
    }
    if px == py {
        assert(false);
    }
}

/// After `record_view` bumps `x` out of a tie with an untouched `y` (with
/// room left in the current week's bucket), `x` ranks strictly ahead of
/// `y`.
pub proof fn lemma_view_improves_rank(pre: FileTree, post: FileTree, x: usize, y: usize)
    requires
        pre.wf(),
        post.wf(),
        (x as int) < pre.nodes@.len(),
        (y as int) < pre.nodes@.len(),
        post.nodes@.len() == pre.nodes@.len(),
        x != y,
        pre.nodes@[x as int].score() == pre.nodes@[y as int].score(),
        pre.nodes@[x as int].views_by_week@[0] < u32::MAX,
        pre.nodes@[x as int].views_by_week@.len() > 0,
        stats_bump_view(pre.nodes@[x as int], post.nodes@[x as int]),
        post.nodes@[y as int] == pre.nodes@[y as int],
    ensures
        pos_of(post.by_popularity@, x) < pos_of(post.by_popularity@, y),
{
    let a = pre.nodes@[x as int];
    let b = post.nodes@[x as int];
    assert(b.views_by_week@.drop_first() =~= a.views_by_week@.drop_first());
    assert(sum_views(b.views_by_week@) == sum_views(a.views_by_week@) + 1);
    assert(b.score() == a.score() + 1);
    lemma_rank_monotonic(post, x, y);
}

/// Index completeness: in a well-formed tree both ranking orders list
/// exactly the live nodes — every node appears, nothing appears twice, and
/// no entry dangles outside the arena.
pub proof fn lemma_index_completeness(t: FileTree)
    requires
        t.wf(),
    ensures
        t.by_popularity@.len() == t.nodes@.len(),
        t.by_recency@.len() == t.nodes@.len(),
        forall|id: int|
            0 <= id < t.nodes@.len() ==> #[trigger] t.by_popularity@.contains(id as usize)
                && t.by_recency@.contains(id as usize),
        no_dup(t.by_popularity@),
        no_dup(t.by_recency@),
        forall|k: int|
            0 <= k < t.by_popularity@.len() ==> (#[trigger] t.by_popularity@[k] as int)
                < t.nodes@.len(),
        forall|k: int|
            0 <= k < t.by_recency@.len() ==> (#[trigger] t.by_recency@[k] as int)
                < t.nodes@.len(),
{
}

/// Symlink exclusion: a symbolic link entry's name is never among the
/// accepted names of its listing (when no sibling entry reuses the name),
/// so — by `build`'s guarantee that every child stems from an accepted
/// entry — it never appears among the built children.
pub proof fn lemma_symlink_excluded(entries: Seq<ScanEntry>, k: int)
    requires
        0 <= k < entries.len(),
        entries[k] matches ScanEntry::Item { is_symlink: true, .. },
        forall|k2: int|
            0 <= k2 < entries.len() && k2 != k ==> entry_name(#[trigger] entries[k2])
                != entry_name(entries[k]),
    ensures
        !from_ok_entry(entries, entry_name(entries[k])),
{
    if from_ok_entry(entries, entry_name(entries[k])) {
        let w = choose|w: int|
            0 <= w < entries.len() && entry_ok(#[trigger] entries[w]) && entry_name(entries[w])
                == entry_name(entries[k]);
        assert(!entry_ok(entries[k]));
        assert(w != k);
        assert(false);
    }
}

} // verus!
