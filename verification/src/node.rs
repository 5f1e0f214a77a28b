//! A single file-or-directory entry: metadata, weekly view counters, likes,
//! and links to its parent and children by arena index.

use vstd::prelude::*;
use crate::errors::BuildErr;
use crate::strutil::str_eq;

verus! {

/// How many weekly view buckets a node keeps (a rolling window).
pub const WEEK_BUCKETS: usize = 7;

/// Weight of one like against one view in the popularity score. A tunable
/// policy, not a correctness invariant: rank assertions rely only on
/// monotonicity.
pub const LIKE_WEIGHT: u64 = 10;

/// One entry of a directory's children mapping: the child's name and the
/// child's index in the tree's node arena. The tree invariant ties `name` to
/// the linked node's own name.
pub struct ChildLink {
    pub name: String,
    pub id: usize,
}

/// The first child link carrying `name`, if any. Sibling names are unique in
/// a well-formed tree, so the first match is the only one.
pub open spec fn lookup_in(links: Seq<ChildLink>, name: Seq<char>) -> Option<usize>
    decreases links.len(),
{
    if links.len() == 0 {
        None
    } else if links[0].name@ == name {
        Some(links[0].id)
    } else {
        lookup_in(links.drop_first(), name)
    }
}

/// If the link at `j` carries `name` and sibling names are unique, the
/// lookup finds exactly that link.
pub proof fn lemma_lookup_unique(links: Seq<ChildLink>, name: Seq<char>, j: int)
    requires
        0 <= j < links.len(),
        links[j].name@ == name,
        forall|a: int, b: int|
            0 <= a < b < links.len() ==> links[a].name@ != links[b].name@,
    ensures
        lookup_in(links, name) == Some(links[j].id),
    decreases links.len(),
{
    if j == 0 {
    } else {
        assert(links[0].name@ != name);
        assert(links.drop_first()[j - 1] == links[j]);
        lemma_lookup_unique(links.drop_first(), name, j - 1);
    }
}

/// A successful lookup returns the id of some link carrying `name`.
pub proof fn lemma_lookup_some(links: Seq<ChildLink>, name: Seq<char>)
    requires
        lookup_in(links, name) is Some,
    ensures
        exists|j: int|
            0 <= j < links.len() && links[j].name@ == name && lookup_in(links, name) == Some(
                links[j].id,
            ),
    decreases links.len(),
{
    if links.len() == 0 {
    } else if links[0].name@ == name {
        assert(links[0].name@ == name && lookup_in(links, name) == Some(links[0].id));
    } else {
        lemma_lookup_some(links.drop_first(), name);
        let j = choose|j: int|
            0 <= j < links.drop_first().len() && links.drop_first()[j].name@ == name
                && lookup_in(links.drop_first(), name) == Some(links.drop_first()[j].id);
        assert(links[j + 1] == links.drop_first()[j]);
        assert(links[j + 1].name@ == name && lookup_in(links, name) == Some(links[j + 1].id));
    }
}

/// A failed lookup means no link carries `name`.
pub proof fn lemma_lookup_none(links: Seq<ChildLink>, name: Seq<char>)
    requires
        lookup_in(links, name) is None,
    ensures
        forall|j: int| 0 <= j < links.len() ==> (#[trigger] links[j]).name@ != name,
    decreases links.len(),
{
    if links.len() > 0 {
        lemma_lookup_none(links.drop_first(), name);
        assert forall|j: int| 0 <= j < links.len() implies (#[trigger] links[j]).name@ != name by {
            if j > 0 {
                assert(links.drop_first()[j - 1] == links[j]);
            }
        }
    }
}

/// Appending a link can only add a name: an earlier match is kept, and a
/// missing name is found exactly when the new link carries it.
pub proof fn lemma_lookup_push(links: Seq<ChildLink>, l: ChildLink, name: Seq<char>)
    ensures
        lookup_in(links.push(l), name) == (match lookup_in(links, name) {
            Some(id) => Some(id),
            None => if l.name@ == name {
                Some(l.id)
            } else {
                None::<usize>
            },
        }),
    decreases links.len(),
{
    let t = links.push(l);
    if links.len() == 0 {
        assert(t[0] == l);
        assert(t.drop_first() =~= Seq::<ChildLink>::empty());
        if l.name@ == name {
            assert(lookup_in(t, name) == Some(l.id));
        } else {
            assert(lookup_in(t, name) == lookup_in(t.drop_first(), name));
            assert(lookup_in(t.drop_first(), name) is None);
        }
    } else {
        assert(t[0] == links[0]);
        assert(t.drop_first() =~= links.drop_first().push(l));
        lemma_lookup_push(links.drop_first(), l, name);
        if links[0].name@ == name {
            assert(lookup_in(t, name) == Some(t[0].id));
            assert(lookup_in(links, name) == Some(links[0].id));
        } else {
            assert(lookup_in(t, name) == lookup_in(links.drop_first().push(l), name));
            assert(lookup_in(links, name) == lookup_in(links.drop_first(), name));
        }
    }
}

/// Sum of the weekly view buckets.
pub open spec fn sum_views(s: Seq<u32>) -> int
    decreases s.len(),
{
    if s.len() == 0 {
        0
    } else {
        s[0] + sum_views(s.drop_first())
    }
}

/// One filesystem entry mirrored in memory.
///
/// `size` is the byte length the filesystem metadata reported at build time,
/// for directories as well as files (no recursive aggregation is kept live).
/// `parent` is a non-owning back-reference: the arena index of the enclosing
/// directory, or `None` for the root.
pub struct Node {
    pub name: String,
    pub is_file: bool,
    pub size: u64,
    pub date_created: u64,
    pub date_modified: u64,
    pub views_by_week: Vec<u32>,
    pub likes: u32,
    pub parent: Option<usize>,
    pub children: Vec<ChildLink>,
}

impl Node {
    /// Local well-formedness: seven view buckets, and a name that is
    /// non-empty and free of the path separator.
    pub open spec fn wf(self) -> bool {
        &&& self.views_by_week@.len() == WEEK_BUCKETS
        &&& crate::strutil::valid_name(self.name@)
    }

    /// Popularity score: all weekly views plus `LIKE_WEIGHT` per like.
    pub open spec fn score(self) -> int {
        sum_views(self.views_by_week@) + LIKE_WEIGHT * self.likes
    }

    /// A fresh node with the given metadata, zeroed counters, and no links.
    pub fn new(
        name: String,
        is_file: bool,
        size: u64,
        date_created: u64,
        date_modified: u64,
        parent: Option<usize>,
    ) -> (r: Node)
        ensures
            r.name == name,
            r.is_file == is_file,
            r.size == size,
            r.date_created == date_created,
            r.date_modified == date_modified,
            r.views_by_week@ =~= Seq::<u32>::new(WEEK_BUCKETS as nat, |k: int| 0u32),
            r.likes == 0,
            r.parent == parent,
            r.children@.len() == 0,
            r.score() == 0,
    {
        let mut views: Vec<u32> = Vec::new();
        let mut k: usize = 0;
        while k < WEEK_BUCKETS
            invariant
                k <= WEEK_BUCKETS,
                views@.len() == k,
                forall|j: int| 0 <= j < k ==> views@[j] == 0u32,
            decreases WEEK_BUCKETS - k,
        {
            views.push(0u32);
            k = k + 1;
        }
        proof {
            lemma_sum_views_zero(views@);
        }
        Node {
            name,
            is_file,
            size,
            date_created,
            date_modified,
            views_by_week: views,
            likes: 0,
            parent,
            children: Vec::new(),
        }
    }

    /// Inserts a link to the child named `name` at arena index `id`;
    /// refuses a duplicate name, leaving the node unchanged, so that a
    /// sibling still referenced by a ranking order is never silently lost.
    pub fn add_child(&mut self, name: String, id: usize) -> (r: Result<(), BuildErr>)
        ensures
            match r {
                Ok(()) => {
                    &&& lookup_in(old(self).children@, name@) is None
                    &&& final(self).children@ == old(self).children@.push(
                        ChildLink { name, id },
                    )
                    &&& final(self).name == old(self).name
                    &&& final(self).is_file == old(self).is_file
                    &&& final(self).size == old(self).size
                    &&& final(self).date_created == old(self).date_created
                    &&& final(self).date_modified == old(self).date_modified
                    &&& final(self).views_by_week == old(self).views_by_week
                    &&& final(self).likes == old(self).likes
                    &&& final(self).parent == old(self).parent
                },
                Err(e) => {
                    &&& lookup_in(old(self).children@, name@) is Some
                    &&& *final(self) == *old(self)
                    &&& e is DuplicateNameErr
                },
            },
    {
        let n = self.children.len();
        proof {
            assert(self.children@.skip(0) =~= self.children@);
        }
        let mut j: usize = 0;
        while j < n
            invariant
                n == self.children@.len(),
                j <= n,
                lookup_in(self.children@, name@) == lookup_in(
                    self.children@.skip(j as int),
                    name@,
                ),
            decreases n - j,
        {
            proof {
                assert(self.children@.skip(j as int)[0] == self.children@[j as int]);
                assert(self.children@.skip(j as int).drop_first() =~= self.children@.skip(
                    j + 1,
                ));
            }
            if str_eq(self.children[j].name.as_str(), name.as_str()) {
                return Err(BuildErr::DuplicateNameErr(name));
            }
            j = j + 1;
        }
        proof {
            assert(self.children@.skip(n as int).len() == 0);
        }
        self.children.push(ChildLink { name, id });
        Ok(())
    }

    /// Looks the child named `name` up in this node's children mapping and
    /// returns its arena index, or `None` if absent.
    pub fn get_child(&self, name: &str) -> (r: Option<usize>)
        ensures
            r == lookup_in(self.children@, name@),
    {
        let n = self.children.len();
        proof {
            assert(self.children@.skip(0) =~= self.children@);
        }
        let mut j: usize = 0;
        while j < n
            invariant
                n == self.children@.len(),
                j <= n,
                lookup_in(self.children@, name@) == lookup_in(
                    self.children@.skip(j as int),
                    name@,
                ),
            decreases n - j,
        {
            proof {
                assert(self.children@.skip(j as int)[0] == self.children@[j as int]);
                assert(self.children@.skip(j as int).drop_first() =~= self.children@.skip(
                    j + 1,
                ));
            }
            if str_eq(self.children[j].name.as_str(), name) {
                return Some(self.children[j].id);
            }
            j = j + 1;
        }
        proof {
            assert(self.children@.skip(n as int).len() == 0);
        }
        None
    }

    /// A snapshot of the current children: their arena indices, in mapping
    /// order.
    pub fn get_children(&self) -> (r: Vec<usize>)
        ensures
            r@.len() == self.children@.len(),
            forall|j: int| 0 <= j < r@.len() ==> r@[j] == self.children@[j].id,
    {
        let n = self.children.len();
        let mut out: Vec<usize> = Vec::new();
        let mut j: usize = 0;
        while j < n
            invariant
                n == self.children@.len(),
                j <= n,
                out@.len() == j,
                forall|k: int| 0 <= k < j ==> out@[k] == self.children@[k].id,
            decreases n - j,
        {
            out.push(self.children[j].id);
            j = j + 1;
        }
        out
    }

    /// True iff this node is a file or has no children.
    pub fn is_leaf(&self) -> (r: bool)
        ensures
            r == (self.is_file || self.children@.len() == 0),
    {
        self.is_file || self.children.len() == 0
    }

    /// Sum of the seven weekly view buckets.
    pub fn total_views(&self) -> (r: u64)
        requires
            self.views_by_week@.len() == WEEK_BUCKETS,
        ensures
            r == sum_views(self.views_by_week@),
            r <= 7 * (u32::MAX as u64),
    {
        let n = self.views_by_week.len();
        proof {
            assert(self.views_by_week@.skip(0) =~= self.views_by_week@);
        }
        let mut sum: u64 = 0;
        let mut j: usize = 0;
        while j < n
            invariant
                n == self.views_by_week@.len(),
                n == WEEK_BUCKETS,
                j <= n,
                sum + sum_views(self.views_by_week@.skip(j as int)) == sum_views(
                    self.views_by_week@,
                ),
                sum <= j * (u32::MAX as u64),
            decreases n - j,
        {
            proof {
                assert(self.views_by_week@.skip(j as int)[0] == self.views_by_week@[j as int]);
                assert(self.views_by_week@.skip(j as int).drop_first()
                    =~= self.views_by_week@.skip(j + 1));
            }
            sum = sum + (self.views_by_week[j] as u64);
            j = j + 1;
        }
        proof {
            assert(self.views_by_week@.skip(n as int).len() == 0);
            lemma_sum_views_nonneg(self.views_by_week@);
        }
        sum
    }

    /// Executable popularity score; matches `score`.
    pub fn popularity(&self) -> (r: u64)
        requires
            self.views_by_week@.len() == WEEK_BUCKETS,
        ensures
            r == self.score(),
    {
        let views = self.total_views();
        views + LIKE_WEIGHT * (self.likes as u64)
    }
}

/// A sequence of zeroed buckets sums to zero.
pub proof fn lemma_sum_views_zero(s: Seq<u32>)
    requires
        forall|j: int| 0 <= j < s.len() ==> s[j] == 0u32,
    ensures
        sum_views(s) == 0,
    decreases s.len(),
{
    if s.len() > 0 {
        lemma_sum_views_zero(s.drop_first());
    }
}

/// Bucket sums are non-negative.
pub proof fn lemma_sum_views_nonneg(s: Seq<u32>)
    ensures
        sum_views(s) >= 0,
    decreases s.len(),
{
    if s.len() > 0 {
        lemma_sum_views_nonneg(s.drop_first());
    }
}

} // verus!
