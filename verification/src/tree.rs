//! The owning tree structure: the node arena, the two ranking orders, path
//! resolution, statistics updates and the catalogue view.

use vstd::prelude::*;
use vstd::pervasive::VecAdditionalExecFns;
use crate::node::{Node, lookup_in, sum_views, lemma_lookup_some, WEEK_BUCKETS, LIKE_WEIGHT};
use crate::rank::{
    pop_precedes, no_dup, covers, sorted_pop, sorted_rec, insert_pop, insert_rec,
    remove_id, lemma_sorted_pop_remove, lemma_sorted_rec_remove, lemma_sorted_pop_frame,
    lemma_sorted_rec_frame,
};
use crate::strutil::is_ws;

verus! {

/// One child link is consistent: it points strictly further down the arena,
/// the child points back, and the link carries the child's own name.
pub open spec fn link_ok(nodes: Seq<Node>, i: int, j: int) -> bool {
    let l = nodes[i].children@[j];
    &&& i < l.id < nodes.len()
    &&& nodes[l.id as int].parent == Some(i as usize)
    &&& l.name@ == nodes[l.id as int].name@
}

/// A non-root node has a parent strictly earlier in the arena whose children
/// mapping contains it under its own name.
pub open spec fn parented(nodes: Seq<Node>, i: int) -> bool {
    &&& nodes[i].parent is Some
    &&& 0 <= (nodes[i].parent->0 as int) < i
    &&& exists|j: int|
        {
            &&& 0 <= j < nodes[nodes[i].parent->0 as int].children@.len()
            &&& (#[trigger] nodes[nodes[i].parent->0 as int].children@[j]).id == i as usize
            &&& nodes[nodes[i].parent->0 as int].children@[j].name@ == nodes[i].name@
        }
}

/// The arena forms a tree: the root at index zero has no parent, every other
/// node is owned by exactly one earlier parent under its own name, links and
/// back-references agree, sibling names are unique, and files have no
/// children. Parent indices strictly decrease, so no node is its own
/// ancestor.
pub open spec fn shape_ok(nodes: Seq<Node>) -> bool {
    &&& 1 <= nodes.len()
    &&& nodes[0].parent is None
    &&& (forall|i: int| 0 <= i < nodes.len() ==> (#[trigger] nodes[i]).wf())
    &&& (forall|i: int| 1 <= i < nodes.len() ==> #[trigger] parented(nodes, i))
    &&& (forall|i: int, j: int|
        0 <= i < nodes.len() && 0 <= j < nodes[i].children@.len() ==> #[trigger] link_ok(
            nodes,
            i,
            j,
        ))
    &&& (forall|i: int, j1: int, j2: int|
        0 <= i < nodes.len() && 0 <= j1 < j2 < nodes[i].children@.len()
            ==> (#[trigger] nodes[i].children@[j1]).name@ != (#[trigger] nodes[i].children@[j2]).name@)
    &&& (forall|i: int|
        0 <= i < nodes.len() && (#[trigger] nodes[i]).is_file ==> nodes[i].children@.len() == 0)
}

/// The tree: the root node at arena index zero, every node reachable from
/// it, and the two ranking orders over exactly the live node set.
pub struct FileTree {
    pub nodes: Vec<Node>,
    pub by_popularity: Vec<usize>,
    pub by_recency: Vec<usize>,
}

/// Updating one node's statistics (view buckets, likes, `date_modified`)
/// while keeping its name, kind, parent and children leaves the tree shape
/// intact.
pub proof fn lemma_shape_update_stats(n1: Seq<Node>, n2: Seq<Node>, id: int)
    requires
        shape_ok(n1),
        0 <= id < n1.len(),
        n2 == n1.update(id, n2[id]),
        n2[id].name == n1[id].name,
        n2[id].is_file == n1[id].is_file,
        n2[id].parent == n1[id].parent,
        n2[id].children == n1[id].children,
        n2[id].wf(),
    ensures
        shape_ok(n2),
{
    assert forall|i: int| 0 <= i < n2.len() implies (#[trigger] n2[i]).wf() by {
        if i != id {
            assert(n2[i] == n1[i]);
        }
    }
    assert forall|i: int| 1 <= i < n2.len() implies #[trigger] parented(n2, i) by {
        assert(parented(n1, i));
        assert(n2[i].parent == n1[i].parent);
        assert(n2[i].name@ == n1[i].name@);
        let p = n1[i].parent->0 as int;
        assert(n2[p].children == n1[p].children);
        let j = choose|j: int|
            {
                &&& 0 <= j < n1[p].children@.len()
                &&& (#[trigger] n1[p].children@[j]).id == i as usize
                &&& n1[p].children@[j].name@ == n1[i].name@
            };
        assert((n2[p].children@[j]).id == i as usize);
    }
    assert forall|i: int, j: int|
        0 <= i < n2.len() && 0 <= j < n2[i].children@.len() implies #[trigger] link_ok(
        n2,
        i,
        j,
    ) by {
        assert(n2[i].children == n1[i].children);
        assert(link_ok(n1, i, j));
        let l = n1[i].children@[j];
        assert(n2[l.id as int].parent == n1[l.id as int].parent);
        assert(n2[l.id as int].name@ == n1[l.id as int].name@);
    }
    assert forall|i: int, j1: int, j2: int|
        0 <= i < n2.len() && 0 <= j1 < j2 < n2[i].children@.len() implies (
    #[trigger] n2[i].children@[j1]).name@ != (#[trigger] n2[i].children@[j2]).name@ by {
        assert(n2[i].children == n1[i].children);
    }
    assert forall|i: int|
        0 <= i < n2.len() && (#[trigger] n2[i]).is_file implies n2[i].children@.len() == 0 by {
        if i != id {
            assert(n2[i] == n1[i]);
        }
    }
}

impl FileTree {
    /// Full well-formedness: tree shape, and each ranking order lists every
    /// live node exactly once, in its sorted order.
    pub open spec fn wf(self) -> bool {
        &&& shape_ok(self.nodes@)
        &&& covers(self.by_popularity@, self.nodes@.len() as int)
        &&& covers(self.by_recency@, self.nodes@.len() as int)
        &&& sorted_pop(self.nodes@, self.by_popularity@)
        &&& sorted_rec(self.nodes@, self.by_recency@)
    }

    /// Number of nodes in the tree.
    pub fn len(&self) -> (r: usize)
        ensures
            r == self.nodes@.len(),
    {
        self.nodes.len()
    }

    /// Records one view of the node at arena index `id`: the current week's
    /// bucket rises by one (saturating), and the node is re-positioned in
    /// the popularity order. The recency order is untouched.
    pub fn record_view_at(&mut self, id: usize)
        requires
            old(self).wf(),
            (id as int) < old(self).nodes@.len(),
        ensures
            final(self).wf(),
            final(self).nodes@.len() == old(self).nodes@.len(),
            forall|i: int|
                0 <= i < old(self).nodes@.len() && i != id
                    ==> final(self).nodes@[i] == old(self).nodes@[i],
            stats_bump_view(old(self).nodes@[id as int], final(self).nodes@[id as int]),
            final(self).by_recency == old(self).by_recency,
            ({
                let a = old(self).nodes@[id as int];
                let b = final(self).nodes@[id as int];
                &&& a.views_by_week@[0] < u32::MAX ==> b.score() == a.score() + 1
                &&& a.views_by_week@[0] == u32::MAX ==> b.score() == a.score()
            }),
    {
        let ghost n1 = self.nodes@;
        let v0 = self.nodes[id].views_by_week[0];
        let nv: u32 = if v0 < u32::MAX {
            v0 + 1
        } else {
            v0
        };
        let node = &mut self.nodes[id];
        node.views_by_week.set(0, nv);
        proof {
            let n2 = self.nodes@;
            assert(n2 == n1.update(id as int, n2[id as int]));
            lemma_shape_update_stats(n1, n2, id as int);
            assert(n2[id as int].views_by_week@.drop_first() =~= n1[
                id as int
            ].views_by_week@.drop_first());
        }
        self.refresh_pop(id, Ghost(n1));
        proof {
            crate::rank::lemma_sorted_rec_stable(n1, self.nodes@, self.by_recency@);
        }
    }

    /// Records one like for the node at `id`: the like counter rises by one
    /// (saturating), and the node is re-positioned in the popularity order.
    pub fn record_like_at(&mut self, id: usize)
        requires
            old(self).wf(),
            (id as int) < old(self).nodes@.len(),
        ensures
            final(self).wf(),
            final(self).nodes@.len() == old(self).nodes@.len(),
            forall|i: int|
                0 <= i < old(self).nodes@.len() && i != id
                    ==> final(self).nodes@[i] == old(self).nodes@[i],
            stats_bump_like(old(self).nodes@[id as int], final(self).nodes@[id as int]),
            final(self).by_recency == old(self).by_recency,
            ({
                let a = old(self).nodes@[id as int];
                let b = final(self).nodes@[id as int];
                &&& a.likes < u32::MAX ==> b.score() == a.score() + LIKE_WEIGHT
                &&& a.likes == u32::MAX ==> b.score() == a.score()
            }),
    {
        let ghost n1 = self.nodes@;
        let l0 = self.nodes[id].likes;
        let nl: u32 = if l0 < u32::MAX {
            l0 + 1
        } else {
            l0
        };
        let node = &mut self.nodes[id];
        node.likes = nl;
        proof {
            let n2 = self.nodes@;
            assert(n2 == n1.update(id as int, n2[id as int]));
            lemma_shape_update_stats(n1, n2, id as int);
        }
        self.refresh_pop(id, Ghost(n1));
        proof {
            crate::rank::lemma_sorted_rec_stable(n1, self.nodes@, self.by_recency@);
        }
    }

    /// Sets the node's `date_modified` and re-positions it in both ranking
    /// orders (recency orders by the new time; the popularity tie-break also
    /// reads it).
    pub fn touch_at(&mut self, id: usize, new_modified: u64)
        requires
            old(self).wf(),
            (id as int) < old(self).nodes@.len(),
        ensures
            final(self).wf(),
            final(self).nodes@.len() == old(self).nodes@.len(),
            forall|i: int|
                0 <= i < old(self).nodes@.len() && i != id
                    ==> final(self).nodes@[i] == old(self).nodes@[i],
            stats_touch(old(self).nodes@[id as int], final(self).nodes@[id as int], new_modified),
    {
        let ghost n1 = self.nodes@;
        let node = &mut self.nodes[id];
        node.date_modified = new_modified;
        proof {
            let n2 = self.nodes@;
            assert(n2 == n1.update(id as int, n2[id as int]));
            lemma_shape_update_stats(n1, n2, id as int);
        }
        self.refresh_pop(id, Ghost(n1));
        self.refresh_rec(id, Ghost(n1));
    }

    /// Takes `id` out of the popularity order and re-inserts it at its
    /// sorted position, after a change to that node alone.
    fn refresh_pop(&mut self, id: usize, Ghost(n1): Ghost<Seq<Node>>)
        requires
            shape_ok(old(self).nodes@),
            (id as int) < old(self).nodes@.len(),
            old(self).nodes@.len() == n1.len(),
            old(self).nodes@ == n1.update(id as int, old(self).nodes@[id as int]),
            covers(old(self).by_popularity@, old(self).nodes@.len() as int),
            sorted_pop(n1, old(self).by_popularity@),
        ensures
            final(self).nodes == old(self).nodes,
            final(self).by_recency == old(self).by_recency,
            covers(final(self).by_popularity@, final(self).nodes@.len() as int),
            sorted_pop(final(self).nodes@, final(self).by_popularity@),
    {
        let ghost len = self.nodes@.len() as int;
        proof {
            assert(self.by_popularity@.contains((id as int) as usize));
        }
        remove_id(&mut self.by_popularity, id);
        proof {
            let p = choose|p: int|
                0 <= p < old(self).by_popularity@.len() && old(self).by_popularity@[p] == id
                    && self.by_popularity@ == old(self).by_popularity@.remove(p);
            lemma_sorted_pop_remove(n1, old(self).by_popularity@, p);
            assert forall|k: int| 0 <= k < self.by_popularity@.len() implies (
            #[trigger] self.by_popularity@[k] as int) < len && self.by_popularity@[k] != id by {
                assert(self.by_popularity@.contains(self.by_popularity@[k]));
            }
            lemma_sorted_pop_frame(n1, self.nodes@, self.by_popularity@, id as int);
        }
        insert_pop(&self.nodes, &mut self.by_popularity, id);
        proof {
            assert forall|v: int| 0 <= v < len implies #[trigger] self.by_popularity@.contains(
                v as usize,
            ) by {
                if v != id {
                    assert(old(self).by_popularity@.contains(v as usize));
                }
            }
        }
    }

    /// Takes `id` out of the recency order and re-inserts it at its sorted
    /// position, after a change to that node alone.
    fn refresh_rec(&mut self, id: usize, Ghost(n1): Ghost<Seq<Node>>)
        requires
            shape_ok(old(self).nodes@),
            (id as int) < old(self).nodes@.len(),
            old(self).nodes@.len() == n1.len(),
            old(self).nodes@ == n1.update(id as int, old(self).nodes@[id as int]),
            covers(old(self).by_recency@, old(self).nodes@.len() as int),
            sorted_rec(n1, old(self).by_recency@),
        ensures
            final(self).nodes == old(self).nodes,
            final(self).by_popularity == old(self).by_popularity,
            covers(final(self).by_recency@, final(self).nodes@.len() as int),
            sorted_rec(final(self).nodes@, final(self).by_recency@),
    {
        let ghost len = self.nodes@.len() as int;
        proof {
            assert(self.by_recency@.contains((id as int) as usize));
        }
        remove_id(&mut self.by_recency, id);
        proof {
            let p = choose|p: int|
                0 <= p < old(self).by_recency@.len() && old(self).by_recency@[p] == id && self
                    .by_recency@ == old(self).by_recency@.remove(p);
            lemma_sorted_rec_remove(n1, old(self).by_recency@, p);
            assert forall|k: int| 0 <= k < self.by_recency@.len() implies (
            #[trigger] self.by_recency@[k] as int) < len && self.by_recency@[k] != id by {
                assert(self.by_recency@.contains(self.by_recency@[k]));
            }
            lemma_sorted_rec_frame(n1, self.nodes@, self.by_recency@, id as int);
        }
        insert_rec(&self.nodes, &mut self.by_recency, id);
        proof {
            assert forall|v: int| 0 <= v < len implies #[trigger] self.by_recency@.contains(
                v as usize,
            ) by {
                if v != id {
                    assert(old(self).by_recency@.contains(v as usize));
                }
            }
        }
    }
}

/// The node after `record_view_at`: the current week's bucket rose by one
/// (saturating at the counter's maximum); everything else is unchanged.
pub open spec fn stats_bump_view(a: Node, b: Node) -> bool {
    let v0 = a.views_by_week@[0];
    let nv: u32 = if v0 < u32::MAX {
        (v0 + 1) as u32
    } else {
        v0
    };
    &&& b.views_by_week@ == a.views_by_week@.update(0, nv)
    &&& b.name == a.name
    &&& b.is_file == a.is_file
    &&& b.size == a.size
    &&& b.date_created == a.date_created
    &&& b.date_modified == a.date_modified
    &&& b.likes == a.likes
    &&& b.parent == a.parent
    &&& b.children == a.children
}

/// The node after `record_like_at`: one more like (saturating); everything
/// else unchanged.
pub open spec fn stats_bump_like(a: Node, b: Node) -> bool {
    let nl: u32 = if a.likes < u32::MAX {
        (a.likes + 1) as u32
    } else {
        a.likes
    };
    &&& b.likes == nl
    &&& b.name == a.name
    &&& b.is_file == a.is_file
    &&& b.size == a.size
    &&& b.date_created == a.date_created
    &&& b.date_modified == a.date_modified
    &&& b.views_by_week == a.views_by_week
    &&& b.parent == a.parent
    &&& b.children == a.children
}

/// The node after `touch_at`: `date_modified` set to the given time;
/// everything else unchanged.
pub open spec fn stats_touch(a: Node, b: Node, t: u64) -> bool {
    &&& b.date_modified == t
    &&& b.name == a.name
    &&& b.is_file == a.is_file
    &&& b.size == a.size
    &&& b.date_created == a.date_created
    &&& b.likes == a.likes
    &&& b.views_by_week == a.views_by_week
    &&& b.parent == a.parent
    &&& b.children == a.children
}


/// Length of the first path segment: the characters before the first
/// separator (zero if the path starts with one or is empty).
pub open spec fn seg_len(s: Seq<char>) -> nat
    decreases s.len(),
{
    if s.len() == 0 || s[0] == '/' {
        0
    } else {
        1 + seg_len(s.drop_first())
    }
}

/// The first segment runs up to the first separator or the end.
pub proof fn lemma_seg_len(s: Seq<char>)
    ensures
        seg_len(s) <= s.len(),
        forall|j: int| 0 <= j < seg_len(s) ==> s[j] != '/',
        seg_len(s) < s.len() ==> s[seg_len(s) as int] == '/',
    decreases s.len(),
{
    if s.len() == 0 || s[0] == '/' {
    } else {
        lemma_seg_len(s.drop_first());
        assert forall|j: int| 0 <= j < seg_len(s) implies s[j] != '/' by {
            if j > 0 {
                assert(s.drop_first()[j - 1] != '/');
            }
        }
    }
}

/// Computes `seg_len` from a scan: `m` characters without a separator,
/// followed by a separator or the end.
pub proof fn lemma_seg_len_of(s: Seq<char>, m: int)
    requires
        0 <= m <= s.len(),
        forall|j: int| 0 <= j < m ==> s[j] != '/',
        m == s.len() || s[m] == '/',
    ensures
        seg_len(s) == m,
    decreases m,
{
    if s.len() == 0 {
    } else if s[0] == '/' {
        assert(m == 0);
    } else {
        assert(m > 0);
        lemma_seg_len_of(s.drop_first(), m - 1);
    }
}

/// Resolution of the remaining path `s` starting at node `cur`: the leading
/// segment is looked up among `cur`'s children (an empty segment fails), and
/// the walk continues past the separator.
pub open spec fn resolve_rest(nodes: Seq<Node>, cur: int, s: Seq<char>) -> Option<usize>
    decreases s.len(),
{
    let m = seg_len(s) as int;
    if m == 0 {
        None
    } else if m >= s.len() {
        lookup_in(nodes[cur].children@, s)
    } else {
        match lookup_in(nodes[cur].children@, s.subrange(0, m)) {
            None => None,
            Some(c) => resolve_rest(nodes, c as int, s.subrange(m + 1, s.len() as int)),
        }
    }
}

/// Leading ASCII whitespace removed.
pub open spec fn trim_front(s: Seq<char>) -> Seq<char>
    decreases s.len(),
{
    if s.len() > 0 && is_ws(s[0]) {
        trim_front(s.drop_first())
    } else {
        s
    }
}

/// Trailing ASCII whitespace removed.
pub open spec fn trim_back(s: Seq<char>) -> Seq<char>
    decreases s.len(),
{
    if s.len() > 0 && is_ws(s.last()) {
        trim_back(s.drop_last())
    } else {
        s
    }
}

/// One leading separator removed, if present.
pub open spec fn strip_lead_slash(s: Seq<char>) -> Seq<char> {
    if s.len() > 0 && s[0] == '/' {
        s.drop_first()
    } else {
        s
    }
}

/// What `resolve` / `get_file` returns: the path is trimmed of surrounding
/// whitespace and of a single leading separator, then walked from the root
/// segment by segment. Empty segments (including an empty path) fail the
/// lookup rather than being skipped.
pub open spec fn resolve_spec(nodes: Seq<Node>, path: Seq<char>) -> Option<usize> {
    let s = strip_lead_slash(trim_back(trim_front(path)));
    if s.len() == 0 {
        None
    } else {
        resolve_rest(nodes, 0, s)
    }
}

/// `trim_front` keeps the suffix from the first non-whitespace character.
pub proof fn lemma_trim_front_at(s: Seq<char>, lo: int)
    requires
        0 <= lo <= s.len(),
        forall|j: int| 0 <= j < lo ==> is_ws(s[j]),
        lo == s.len() || !is_ws(s[lo]),
    ensures
        trim_front(s) == s.subrange(lo, s.len() as int),
    decreases lo,
{
    if s.len() > 0 && is_ws(s[0]) {
        assert(lo > 0);
        lemma_trim_front_at(s.drop_first(), lo - 1);
        assert(s.drop_first().subrange(lo - 1, s.drop_first().len() as int) =~= s.subrange(
            lo,
            s.len() as int,
        ));
    } else {
        assert(lo == 0);
        assert(s.subrange(0, s.len() as int) =~= s);
    }
}

/// `trim_back` keeps the prefix up to the last non-whitespace character.
pub proof fn lemma_trim_back_at(s: Seq<char>, hi: int)
    requires
        0 <= hi <= s.len(),
        forall|j: int| hi <= j < s.len() ==> is_ws(s[j]),
        hi == 0 || !is_ws(s[hi - 1]),
    ensures
        trim_back(s) == s.subrange(0, hi),
    decreases s.len() - hi,
{
    if hi == s.len() {
        if s.len() > 0 {
            assert(!is_ws(s.last()));
        }
        assert(s.subrange(0, s.len() as int) =~= s);
    } else {
        assert(is_ws(s.last()));
        lemma_trim_back_at(s.drop_last(), hi);
        assert(s.drop_last().subrange(0, hi) =~= s.subrange(0, hi));
    }
}

/// Executable ASCII whitespace test; matches `is_ws`.
pub fn ws(c: char) -> (r: bool)
    ensures
        r == is_ws(c),
{
    c == ' ' || c == '\t' || c == '\n' || c == '\r'
}

impl FileTree {
    /// Resolves a slash-delimited logical path to the arena index of the
    /// node it names, or `None` if any segment is empty or unresolved. The
    /// path is trimmed of surrounding ASCII whitespace and of one leading
    /// separator; the empty remainder resolves to nothing.
    pub fn get_file(&self, path: &str) -> (r: Option<usize>)
        requires
            self.wf(),
        ensures
            r == resolve_spec(self.nodes@, path@),
            r is Some ==> (r->0 as int) < self.nodes@.len(),
    {
        let len = path.unicode_len();
        let mut lo: usize = 0;
        while lo < len && ws(path.get_char(lo))
            invariant
                len == path@.len(),
                lo <= len,
                forall|j: int| 0 <= j < lo ==> is_ws(path@[j]),
            decreases len - lo,
        {
            lo = lo + 1;
        }
        let mut hi: usize = len;
        while hi > lo && ws(path.get_char(hi - 1))
            invariant
                len == path@.len(),
                lo <= hi <= len,
                forall|j: int| 0 <= j < lo ==> is_ws(path@[j]),
                forall|j: int| hi <= j < len ==> is_ws(path@[j]),
            decreases hi,
        {
            hi = hi - 1;
        }
        proof {
            lemma_trim_front_at(path@, lo as int);
            let t = path@.subrange(lo as int, len as int);
            lemma_trim_back_at(t, hi - lo);
            assert(t.subrange(0, hi - lo) =~= path@.subrange(lo as int, hi as int));
        }
        if lo < hi && path.get_char(lo) == '/' {
            proof {
                let u = path@.subrange(lo as int, hi as int);
                assert(u.drop_first() =~= path@.subrange(lo + 1, hi as int));
            }
            lo = lo + 1;
        }
        let ghost stripped = path@.subrange(lo as int, hi as int);
        proof {
            assert(stripped == strip_lead_slash(trim_back(trim_front(path@))));
        }
        if lo == hi {
            return None;
        }
        let mut cur: usize = 0;
        let mut i: usize = lo;
        loop
            invariant
                self.wf(),
                len == path@.len(),
                lo <= i <= hi <= len,
                (cur as int) < self.nodes@.len(),
                resolve_spec(self.nodes@, path@) == resolve_rest(
                    self.nodes@,
                    cur as int,
                    path@.subrange(i as int, hi as int),
                ),
            decreases hi - i,
        {
            let mut j: usize = i;
            while j < hi && path.get_char(j) != '/'
                invariant
                    len == path@.len(),
                    i <= j <= hi <= len,
                    forall|m: int| i <= m < j ==> path@[m] != '/',
                decreases hi - j,
            {
                j = j + 1;
            }
            let ghost rest = path@.subrange(i as int, hi as int);
            proof {
                assert forall|m: int| 0 <= m < j - i implies rest[m] != '/' by {
                    assert(path@[i + m] != '/');
                }
                lemma_seg_len_of(rest, j - i);
            }
            if j == i {
                return None;
            }
            let seg = path.substring_char(i, j);
            proof {
                assert(seg@ =~= rest.subrange(0, j - i));
            }
            match self.nodes[cur].get_child(seg) {
                None => {
                    return None;
                },
                Some(c) => {
                    proof {
                        lemma_lookup_some(self.nodes@[cur as int].children@, seg@);
                        let jj = choose|jj: int|
                            0 <= jj < self.nodes@[cur as int].children@.len()
                                && self.nodes@[cur as int].children@[jj].name@ == seg@
                                && lookup_in(self.nodes@[cur as int].children@, seg@) == Some(
                                self.nodes@[cur as int].children@[jj].id,
                            );
                        assert(link_ok(self.nodes@, cur as int, jj));
                    }
                    if j == hi {
                        proof {
                            assert(seg_len(rest) == rest.len());
                        }
                        return Some(c);
                    }
                    proof {
                        assert(rest.subrange(j - i + 1, rest.len() as int) =~= path@.subrange(
                            j + 1,
                            hi as int,
                        ));
                    }
                    cur = c;
                    i = j + 1;
                },
            }
        }
    }

    /// Resolves `path` and returns a snapshot of the resolved directory's
    /// children (their arena indices), or `None` if the path is unresolved
    /// or names a file.
    pub fn get_children(&self, path: &str) -> (r: Option<Vec<usize>>)
        requires
            self.wf(),
        ensures
            match r {
                None => resolve_spec(self.nodes@, path@) is None || self.nodes@[resolve_spec(
                    self.nodes@,
                    path@,
                )->0 as int].is_file,
                Some(v) => {
                    &&& resolve_spec(self.nodes@, path@) is Some
                    &&& !self.nodes@[resolve_spec(self.nodes@, path@)->0 as int].is_file
                    &&& v@.len() == self.nodes@[resolve_spec(self.nodes@, path@)->0 as int].children@.len()
                    &&& forall|k: int|
                        0 <= k < v@.len() ==> v@[k] == self.nodes@[resolve_spec(
                            self.nodes@,
                            path@,
                        )->0 as int].children@[k].id
                },
            },
    {
        match self.get_file(path) {
            None => None,
            Some(id) => {
                if self.nodes[id].is_file {
                    None
                } else {
                    Some(self.nodes[id].get_children())
                }
            },
        }
    }
}


/// The node after a weekly rotation: a fresh current-week bucket at the
/// front, the previous buckets shifted back by one, the oldest dropped;
/// everything else unchanged.
pub open spec fn rotated(a: Node, b: Node) -> bool {
    &&& b.views_by_week@.len() == a.views_by_week@.len()
    &&& b.views_by_week@[0] == 0u32
    &&& (forall|k: int|
        1 <= k < b.views_by_week@.len() ==> b.views_by_week@[k] == a.views_by_week@[k - 1])
    &&& b.name == a.name
    &&& b.is_file == a.is_file
    &&& b.size == a.size
    &&& b.date_created == a.date_created
    &&& b.date_modified == a.date_modified
    &&& b.likes == a.likes
    &&& b.parent == a.parent
    &&& b.children == a.children
}

/// `x` lies strictly below `a` in the tree: following parent references from
/// `x` reaches `a`.
pub open spec fn descends(nodes: Seq<Node>, x: int, a: int) -> bool
    decreases x,
{
    if !(0 <= x < nodes.len()) {
        false
    } else {
        match nodes[x].parent {
            None => false,
            Some(p) => if !(0 <= p < x) {
                false
            } else if p == a {
                true
            } else {
                descends(nodes, p as int, a)
            },
        }
    }
}

/// A node the catalogue of `a` keeps: a live file strictly below `a`.
pub open spec fn cat_keep(nodes: Seq<Node>, v: int, a: int) -> bool {
    &&& 0 <= v < nodes.len()
    &&& nodes[v].is_file
    &&& descends(nodes, v, a)
}

/// The catalogue of `a` read off an order: the kept indices, in order.
pub open spec fn cat_spec(nodes: Seq<Node>, order: Seq<usize>, a: int) -> Seq<usize>
    decreases order.len(),
{
    if order.len() == 0 {
        Seq::empty()
    } else if cat_keep(nodes, order[0] as int, a) {
        seq![order[0]] + cat_spec(nodes, order.drop_first(), a)
    } else {
        cat_spec(nodes, order.drop_first(), a)
    }
}

/// The read-only projection of one node handed to presentation layers: its
/// metadata, aggregate counters and child count, without the parent
/// back-reference.
pub struct NodeView {
    pub name: String,
    pub is_file: bool,
    pub size: u64,
    pub date_created: u64,
    pub date_modified: u64,
    pub total_views: u64,
    pub likes: u32,
    pub popularity: u64,
    pub child_count: usize,
}

/// `v` is the projection of the node at `i`.
pub open spec fn view_matches(nodes: Seq<Node>, i: int, v: NodeView) -> bool {
    &&& v.name@ == nodes[i].name@
    &&& v.is_file == nodes[i].is_file
    &&& v.size == nodes[i].size
    &&& v.date_created == nodes[i].date_created
    &&& v.date_modified == nodes[i].date_modified
    &&& v.total_views == sum_views(nodes[i].views_by_week@)
    &&& v.likes == nodes[i].likes
    &&& v.popularity == nodes[i].score()
    &&& v.child_count == nodes[i].children@.len()
}

impl FileTree {
    /// Walks parent references from `x`; true iff it passes through `a`.
    pub fn is_descendant(&self, x: usize, a: usize) -> (r: bool)
        requires
            self.wf(),
            (x as int) < self.nodes@.len(),
        ensures
            r == descends(self.nodes@, x as int, a as int),
    {
        let mut cur = x;
        loop
            invariant
                self.wf(),
                (cur as int) < self.nodes@.len(),
                descends(self.nodes@, x as int, a as int) == descends(
                    self.nodes@,
                    cur as int,
                    a as int,
                ),
            decreases cur,
        {
            match self.nodes[cur].parent {
                None => {
                    proof {
                        if cur != 0 {
                            assert(parented(self.nodes@, cur as int));
                        }
                    }
                    return false;
                },
                Some(p) => {
                    proof {
                        assert(cur != 0);
                        assert(parented(self.nodes@, cur as int));
                    }
                    if p == a {
                        return true;
                    }
                    cur = p;
                },
            }
        }
    }

    /// The catalogue of the subtree under `id`: every live file strictly
    /// below `id`, most popular first (directories act as namespace scopes,
    /// not as catalogue entries). Read-only: the tree is not touched.
    pub fn build_catalogue(&self, id: usize) -> (r: Vec<usize>)
        requires
            self.wf(),
            (id as int) < self.nodes@.len(),
        ensures
            r@ == cat_spec(self.nodes@, self.by_popularity@, id as int),
            sorted_pop(self.nodes@, r@),
            no_dup(r@),
            forall|k: int| 0 <= k < r@.len() ==> cat_keep(self.nodes@, r@[k] as int, id as int),
            forall|v: int| cat_keep(self.nodes@, v, id as int) ==> r@.contains(v as usize),
    {
        let n = self.by_popularity.len();
        let mut out: Vec<usize> = Vec::new();
        proof {
            assert(self.by_popularity@.skip(0) =~= self.by_popularity@);
            assert(cat_spec(self.nodes@, self.by_popularity@, id as int) =~= out@ + cat_spec(
                self.nodes@,
                self.by_popularity@.skip(0),
                id as int,
            ));
        }
        let mut k: usize = 0;
        while k < n
            invariant
                self.wf(),
                (id as int) < self.nodes@.len(),
                n == self.by_popularity@.len(),
                k <= n,
                cat_spec(self.nodes@, self.by_popularity@, id as int) == out@ + cat_spec(
                    self.nodes@,
                    self.by_popularity@.skip(k as int),
                    id as int,
                ),
                forall|j: int|
                    0 <= j < k && cat_keep(
                        self.nodes@,
                        #[trigger] self.by_popularity@[j] as int,
                        id as int,
                    ) ==> out@.contains(self.by_popularity@[j]),
                forall|m: int|
                    0 <= m < out@.len() ==> cat_keep(
                        self.nodes@,
                        #[trigger] out@[m] as int,
                        id as int,
                    ) && exists|j: int| 0 <= j < k && self.by_popularity@[j] == out@[m],
                sorted_pop(self.nodes@, out@),
                no_dup(out@),
            decreases n - k,
        {
            let ghost bp = self.by_popularity@;
            proof {
                assert(bp.skip(k as int)[0] == bp[k as int]);
                assert(bp.skip(k as int).drop_first() =~= bp.skip(k + 1));
            }
            let v = self.by_popularity[k];
            let ghost pre = out@;
            if self.nodes[v].is_file && self.is_descendant(v, id) {
                out.push(v);
                proof {
                    assert(out@ =~= pre + seq![v]);
                    assert forall|j: int|
                        0 <= j < k + 1 && cat_keep(
                            self.nodes@,
                            #[trigger] bp[j] as int,
                            id as int,
                        ) implies out@.contains(bp[j]) by {
                        if j < k {
                            let m = choose|m: int| 0 <= m < pre.len() && pre[m] == bp[j];
                            assert(out@[m] == bp[j]);
                        } else {
                            assert(out@[pre.len() as int] == v);
                        }
                    }
                    assert(pre + (seq![v] + cat_spec(self.nodes@, bp.skip(k + 1), id as int))
                        =~= (pre + seq![v]) + cat_spec(self.nodes@, bp.skip(k + 1), id as int));
                    assert forall|m: int| 0 <= m < pre.len() implies pop_precedes(
                        self.nodes@[pre[m] as int],
                        self.nodes@[v as int],
                    ) && pre[m] != v by {
                        let j = choose|j: int| 0 <= j < k && bp[j] == pre[m];
                        assert(pop_precedes(
                            self.nodes@[bp[j] as int],
                            self.nodes@[bp[k as int] as int],
                        ));
                    }
                    assert forall|m: int| 0 <= m < out@.len() implies cat_keep(
                        self.nodes@,
                        #[trigger] out@[m] as int,
                        id as int,
                    ) && exists|j: int| 0 <= j < k + 1 && bp[j] == out@[m] by {
                        if m < pre.len() {
                            let j = choose|j: int| 0 <= j < k && bp[j] == pre[m];
                            assert(0 <= j < k + 1 && bp[j] == out@[m]);
                        } else {
                            assert(out@[m] == v);
                            assert(bp[k as int] == out@[m]);
                        }
                    }
                }
            } else {
                proof {
                    assert(!cat_keep(self.nodes@, bp[k as int] as int, id as int));
                    assert forall|m: int| 0 <= m < out@.len() implies cat_keep(
                        self.nodes@,
                        #[trigger] out@[m] as int,
                        id as int,
                    ) && exists|j: int| 0 <= j < k + 1 && bp[j] == out@[m] by {
                        let j = choose|j: int| 0 <= j < k && bp[j] == out@[m];
                        assert(0 <= j < k + 1 && bp[j] == out@[m]);
                    }
                }
            }
            k = k + 1;
        }
        proof {
            assert(self.by_popularity@.skip(n as int).len() == 0);
            assert(out@ + Seq::<usize>::empty() =~= out@);
            assert forall|v: int|
                cat_keep(self.nodes@, v, id as int) implies out@.contains(v as usize) by {
                assert(self.by_popularity@.contains(v as usize));
                let j = choose|j: int|
                    0 <= j < self.by_popularity@.len() && self.by_popularity@[j] == (v as usize);
                assert(cat_keep(self.nodes@, self.by_popularity@[j] as int, id as int));
            }
        }
        out
    }

    /// The projection of the node at `id`.
    pub fn node_view(&self, id: usize) -> (r: NodeView)
        requires
            self.wf(),
            (id as int) < self.nodes@.len(),
        ensures
            view_matches(self.nodes@, id as int, r),
    {
        let nd = &self.nodes[id];
        let total = nd.total_views();
        let pop = nd.popularity();
        NodeView {
            name: nd.name.clone(),
            is_file: nd.is_file,
            size: nd.size,
            date_created: nd.date_created,
            date_modified: nd.date_modified,
            total_views: total,
            likes: nd.likes,
            popularity: pop,
            child_count: nd.children.len(),
        }
    }

    /// Resolves `path` and projects it, or `None` if unresolved.
    pub fn resolve(&self, path: &str) -> (r: Option<NodeView>)
        requires
            self.wf(),
        ensures
            match r {
                None => resolve_spec(self.nodes@, path@) is None,
                Some(v) => {
                    &&& resolve_spec(self.nodes@, path@) is Some
                    &&& view_matches(self.nodes@, resolve_spec(self.nodes@, path@)->0 as int, v)
                },
            },
    {
        match self.get_file(path) {
            None => None,
            Some(id) => Some(self.node_view(id)),
        }
    }

    /// Resolves `path` and projects the resolved directory's children, or
    /// `None` if the path is unresolved or names a file.
    pub fn children_of(&self, path: &str) -> (r: Option<Vec<NodeView>>)
        requires
            self.wf(),
        ensures
            match r {
                None => resolve_spec(self.nodes@, path@) is None || self.nodes@[resolve_spec(
                    self.nodes@,
                    path@,
                )->0 as int].is_file,
                Some(v) => {
                    &&& resolve_spec(self.nodes@, path@) is Some
                    &&& !self.nodes@[resolve_spec(self.nodes@, path@)->0 as int].is_file
                    &&& v@.len() == self.nodes@[resolve_spec(self.nodes@, path@)->0 as int].children@.len()
                    &&& forall|k: int|
                        0 <= k < v@.len() ==> view_matches(
                            self.nodes@,
                            self.nodes@[resolve_spec(self.nodes@, path@)->0 as int].children@[k].id as int,
                            v@[k],
                        )
                },
            },
    {
        match self.get_file(path) {
            None => None,
            Some(id) => {
                if self.nodes[id].is_file {
                    None
                } else {
                    let n = self.nodes[id].children.len();
                    let mut out: Vec<NodeView> = Vec::new();
                    let mut k: usize = 0;
                    while k < n
                        invariant
                            self.wf(),
                            (id as int) < self.nodes@.len(),
                            n == self.nodes@[id as int].children@.len(),
                            k <= n,
                            out@.len() == k,
                            forall|m: int|
                                0 <= m < k ==> view_matches(
                                    self.nodes@,
                                    self.nodes@[id as int].children@[m].id as int,
                                    out@[m],
                                ),
                        decreases n - k,
                    {
                        proof {
                            assert(link_ok(self.nodes@, id as int, k as int));
                        }
                        let c = self.nodes[id].children[k].id;
                        out.push(self.node_view(c));
                        k = k + 1;
                    }
                    Some(out)
                }
            },
        }
    }

    /// Resolves `path` and returns the catalogue of the subtree under it,
    /// most popular first, cut to `limit` entries if one is given; an
    /// unresolved path yields an empty catalogue. Read-only.
    pub fn catalogue(&self, path: &str, limit: Option<usize>) -> (r: Vec<NodeView>)
        requires
            self.wf(),
        ensures
            ({
                let res = resolve_spec(self.nodes@, path@);
                match res {
                    None => r@.len() == 0,
                    Some(id) => {
                        let full = cat_spec(self.nodes@, self.by_popularity@, id as int);
                        let cnt: int = match limit {
                            None => full.len() as int,
                            Some(l) => if (l as int) < full.len() {
                                l as int
                            } else {
                                full.len() as int
                            },
                        };
                        &&& r@.len() == cnt
                        &&& forall|m: int|
                            0 <= m < cnt ==> view_matches(self.nodes@, full[m] as int, r@[m])
                    },
                }
            }),
    {
        match self.get_file(path) {
            None => Vec::new(),
            Some(id) => {
                let ids = self.build_catalogue(id);
                let cnt: usize = match limit {
                    None => ids.len(),
                    Some(l) => if l < ids.len() {
                        l
                    } else {
                        ids.len()
                    },
                };
                let mut out: Vec<NodeView> = Vec::new();
                let mut m: usize = 0;
                while m < cnt
                    invariant
                        self.wf(),
                        cnt <= ids@.len(),
                        m <= cnt,
                        out@.len() == m,
                        forall|j: int|
                            0 <= j < ids@.len() ==> cat_keep(
                                self.nodes@,
                                #[trigger] ids@[j] as int,
                                id as int,
                            ),
                        forall|j: int|
                            0 <= j < m ==> view_matches(self.nodes@, ids@[j] as int, out@[j]),
                    decreases cnt - m,
                {
                    out.push(self.node_view(ids[m]));
                    m = m + 1;
                }
                out
            },
        }
    }

    /// Records one view of the node `path` resolves to; does nothing if the
    /// path does not resolve (updating an entry that no longer exists is a
    /// silent no-op).
    pub fn record_view(&mut self, path: &str)
        requires
            old(self).wf(),
        ensures
            final(self).wf(),
            match resolve_spec(old(self).nodes@, path@) {
                None => *final(self) == *old(self),
                Some(id) => {
                    &&& final(self).nodes@.len() == old(self).nodes@.len()
                    &&& (forall|i: int|
                        0 <= i < old(self).nodes@.len() && i != id
                            ==> final(self).nodes@[i] == old(self).nodes@[i])
                    &&& stats_bump_view(old(self).nodes@[id as int], final(self).nodes@[id as int])
                    &&& final(self).by_recency == old(self).by_recency
                },
            },
    {
        match self.get_file(path) {
            None => {},
            Some(id) => {
                self.record_view_at(id);
            },
        }
    }

    /// Records one like for the node `path` resolves to; a silent no-op if
    /// the path does not resolve.
    pub fn record_like(&mut self, path: &str)
        requires
            old(self).wf(),
        ensures
            final(self).wf(),
            match resolve_spec(old(self).nodes@, path@) {
                None => *final(self) == *old(self),
                Some(id) => {
                    &&& final(self).nodes@.len() == old(self).nodes@.len()
                    &&& (forall|i: int|
                        0 <= i < old(self).nodes@.len() && i != id
                            ==> final(self).nodes@[i] == old(self).nodes@[i])
                    &&& stats_bump_like(old(self).nodes@[id as int], final(self).nodes@[id as int])
                    &&& final(self).by_recency == old(self).by_recency
                },
            },
    {
        match self.get_file(path) {
            None => {},
            Some(id) => {
                self.record_like_at(id);
            },
        }
    }

    /// The week-boundary rotation: in every node the oldest bucket rotates
    /// out and a fresh zeroed current-week bucket begins; the popularity
    /// order is rebuilt for the shifted scores, the recency order is
    /// untouched.
    pub fn rotate_weeks(&mut self)
        requires
            old(self).wf(),
        ensures
            final(self).wf(),
            final(self).nodes@.len() == old(self).nodes@.len(),
            forall|i: int|
                0 <= i < old(self).nodes@.len() ==> rotated(
                    old(self).nodes@[i],
                    final(self).nodes@[i],
                ),
            final(self).by_recency == old(self).by_recency,
    {
        let n = self.nodes.len();
        let mut i: usize = 0;
        while i < n
            invariant
                n == self.nodes@.len(),
                n == old(self).nodes@.len(),
                i <= n,
                shape_ok(self.nodes@),
                self.by_popularity == old(self).by_popularity,
                self.by_recency == old(self).by_recency,
                covers(old(self).by_popularity@, n as int),
                covers(old(self).by_recency@, n as int),
                forall|k: int| 0 <= k < i ==> rotated(old(self).nodes@[k], self.nodes@[k]),
                forall|k: int| i <= k < n ==> self.nodes@[k] == old(self).nodes@[k],
            decreases n - i,
        {
            let ghost n1 = self.nodes@;
            let mut nv: Vec<u32> = Vec::new();
            nv.push(0u32);
            let mut k: usize = 0;
            while k < WEEK_BUCKETS - 1
                invariant
                    n == self.nodes@.len(),
                    i < n,
                    shape_ok(self.nodes@),
                    k <= WEEK_BUCKETS - 1,
                    nv@.len() == k + 1,
                    nv@[0] == 0u32,
                    forall|m: int| 1 <= m < nv@.len() ==> nv@[m] == self.nodes@[i as int].views_by_week@[m - 1],
                decreases WEEK_BUCKETS - k,
            {
                let b = self.nodes[i].views_by_week[k];
                nv.push(b);
                k = k + 1;
            }
            let node = &mut self.nodes[i];
            node.views_by_week = nv;
            proof {
                let n2 = self.nodes@;
                assert(n2 == n1.update(i as int, n2[i as int]));
                lemma_shape_update_stats(n1, n2, i as int);
                assert forall|m: int| 0 <= m < i implies rotated(old(self).nodes@[m], n2[m]) by {
                    assert(n2[m] == n1[m]);
                }
            }
            i = i + 1;
        }
        self.by_popularity = Vec::new();
        let mut id: usize = 0;
        while id < n
            invariant
                n == self.nodes@.len(),
                n == old(self).nodes@.len(),
                id <= n,
                shape_ok(self.nodes@),
                self.by_recency == old(self).by_recency,
                covers(old(self).by_recency@, n as int),
                forall|k: int| 0 <= k < n ==> rotated(old(self).nodes@[k], self.nodes@[k]),
                self.by_popularity@.len() == id,
                no_dup(self.by_popularity@),
                forall|k: int| 0 <= k < self.by_popularity@.len() ==> (
                #[trigger] self.by_popularity@[k] as int) < id,
                forall|v: int|
                    0 <= v < id ==> #[trigger] self.by_popularity@.contains(v as usize),
                sorted_pop(self.nodes@, self.by_popularity@),
            decreases n - id,
        {
            let ghost pre = self.by_popularity@;
            proof {
                if pre.contains(id) {
                    let j = choose|j: int| 0 <= j < pre.len() && pre[j] == id;
                    assert((pre[j] as int) < id);
                }
            }
            insert_pop(&self.nodes, &mut self.by_popularity, id);
            proof {
                assert forall|v: int|
                    0 <= v < id + 1 implies #[trigger] self.by_popularity@.contains(
                    v as usize,
                ) by {
                    if v < id {
                        assert(pre.contains(v as usize));
                    }
                }
                assert forall|k: int|
                    0 <= k < self.by_popularity@.len() implies (
                #[trigger] self.by_popularity@[k] as int) < id + 1 by {
                    assert(self.by_popularity@.contains(self.by_popularity@[k]));
                    if self.by_popularity@[k] != id {
                        let m = choose|m: int|
                            0 <= m < pre.len() && pre[m] == self.by_popularity@[k];
                        assert((pre[m] as int) < id);
                    }
                }
            }
            id = id + 1;
        }
        proof {
            crate::rank::lemma_sorted_rec_stable(
                old(self).nodes@,
                self.nodes@,
                self.by_recency@,
            );
        }
    }
}

} // verus!
