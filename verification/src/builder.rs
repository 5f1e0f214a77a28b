//! Building a tree from a scanned snapshot of a directory subtree.
//!
//! The filesystem walk itself (metadata reads, directory listings, symlink
//! detection) happens outside this crate; it hands the builder a `ScanEntry`
//! snapshot of plain values. The builder applies the construction policy:
//! per-entry failures become warnings and the build goes on with the
//! remaining siblings (partial success); symbolic links are excluded
//! entirely; an unusable root fails the build wholesale.

use vstd::prelude::*;
use crate::errors::{BuildErr, BuildWarning};
use crate::node::{Node, lookup_in, lemma_lookup_none};
use crate::strutil::{valid_name, name_ok};
use crate::tree::{FileTree, shape_ok, link_ok, parented};
use crate::rank::{no_dup, sorted_pop, sorted_rec, insert_pop, insert_rec};

verus! {

/// Failure classes the filesystem scan reports for one entry.
pub enum IoErrKind {
    Permission,
    NotFound,
    Other,
}

/// One scanned filesystem entry: either its metadata (with the scanned
/// entries of a directory), or the failure met while reading it. `name` is
/// the resolvable final path segment, if there is one; `listing_err` is set
/// on a directory whose listing could not be read.
pub enum ScanEntry {
    Item {
        path: String,
        name: Option<String>,
        is_file: bool,
        is_symlink: bool,
        size: u64,
        created: u64,
        modified: u64,
        entries: Vec<ScanEntry>,
        listing_err: Option<IoErrKind>,
    },
    Failed { path: String, kind: IoErrKind },
}

/// The entry becomes a node: it was readable, has a usable name, and is not
/// a symbolic link.
pub open spec fn entry_ok(e: ScanEntry) -> bool {
    match e {
        ScanEntry::Item { name, is_symlink, .. } => match name {
            Some(n) => valid_name(n@) && !is_symlink,
            None => false,
        },
        ScanEntry::Failed { .. } => false,
    }
}

/// The entry's name, for accepted entries.
pub open spec fn entry_name(e: ScanEntry) -> Seq<char> {
    match e {
        ScanEntry::Item { name, .. } => match name {
            Some(n) => n@,
            None => Seq::empty(),
        },
        ScanEntry::Failed { .. } => Seq::empty(),
    }
}

/// The entry's path, for warnings.
pub open spec fn entry_path(e: ScanEntry) -> Seq<char> {
    match e {
        ScanEntry::Item { path, .. } => path@,
        ScanEntry::Failed { path, .. } => path@,
    }
}

/// `nm` is the name of some accepted entry of the listing: only such names
/// can appear among a built directory's children, so a symbolic link (or any
/// failed entry) never does.
pub open spec fn from_ok_entry(entries: Seq<ScanEntry>, nm: Seq<char>) -> bool {
    exists|k: int| 0 <= k < entries.len() && entry_ok(#[trigger] entries[k]) && entry_name(entries[k]) == nm
}

/// The node mirrors the entry: same name, kind, size and timestamps.
pub open spec fn entry_matches(e: ScanEntry, n: Node) -> bool {
    match e {
        ScanEntry::Item { name, is_file, size, created, modified, .. } => match name {
            Some(nm) => {
                &&& nm@ == n.name@
                &&& is_file == n.is_file
                &&& size == n.size
                &&& created == n.date_created
                &&& modified == n.date_modified
            },
            None => false,
        },
        ScanEntry::Failed { .. } => false,
    }
}

/// The node at `id` was built from an accepted entry of the listing, and
/// still carries that entry's metadata.
pub open spec fn child_from_entry(entries: Seq<ScanEntry>, nodes: Seq<Node>, id: int) -> bool {
    exists|k: int|
        0 <= k < entries.len() && entry_ok(#[trigger] entries[k]) && entry_matches(
            entries[k],
            nodes[id],
        )
}

/// `b` is `a` with possibly different children links, all else equal.
pub open spec fn same_but_children(a: Node, b: Node) -> bool {
    &&& b.name == a.name
    &&& b.is_file == a.is_file
    &&& b.size == a.size
    &&& b.date_created == a.date_created
    &&& b.date_modified == a.date_modified
    &&& b.views_by_week == a.views_by_week
    &&& b.likes == a.likes
    &&& b.parent == a.parent
}

/// The scan failure classes map to the error taxonomy.
pub open spec fn classify_spec(kind: IoErrKind, path: Seq<char>, e: BuildErr) -> bool {
    match kind {
        IoErrKind::Permission => e matches BuildErr::PermissionErr(p) && p@ == path,
        IoErrKind::NotFound => e matches BuildErr::NotFoundErr(p) && p@ == path,
        IoErrKind::Other => e matches BuildErr::IoErr(p) && p@ == path,
    }
}

/// Turns a scan failure into the corresponding build error.
pub fn classify(kind: &IoErrKind, path: String) -> (r: BuildErr)
    ensures
        classify_spec(*kind, path@, r),
        r.path_spec() == path@,
{
    match kind {
        IoErrKind::Permission => BuildErr::PermissionErr(path),
        IoErrKind::NotFound => BuildErr::NotFoundErr(path),
        IoErrKind::Other => BuildErr::IoErr(path),
    }
}

/// Appending a fresh leaf under `parent` (the node pushed at the arena's
/// end, the link pushed onto the parent's children) keeps the tree shape.
pub proof fn lemma_shape_attach(n1: Seq<Node>, n2: Seq<Node>, parent: int, nm: Seq<char>)
    requires
        shape_ok(n1),
        n1.len() < usize::MAX,
        0 <= parent < n1.len(),
        !n1[parent].is_file,
        n2.len() == n1.len() + 1,
        forall|i: int| 0 <= i < n1.len() && i != parent ==> n2[i] == n1[i],
        same_but_children(n1[parent], n2[parent]),
        n2[parent].children@.len() == n1[parent].children@.len() + 1,
        forall|j: int|
            0 <= j < n1[parent].children@.len() ==> n2[parent].children@[j] == n1[
                parent
            ].children@[j],
        n2[parent].children@.last().id == n1.len() as usize,
        n2[parent].children@.last().name@ == nm,
        forall|j: int|
            0 <= j < n1[parent].children@.len() ==> (#[trigger] n1[parent].children@[j]).name@
                != nm,
        n2[n1.len() as int].wf(),
        n2[n1.len() as int].name@ == nm,
        n2[n1.len() as int].parent == Some(parent as usize),
        n2[n1.len() as int].children@.len() == 0,
    ensures
        shape_ok(n2),
{
    let newid = n1.len() as int;
    assert forall|i: int| 0 <= i < n2.len() implies (#[trigger] n2[i]).wf() by {
        if i < n1.len() && i != parent {
            assert(n2[i] == n1[i]);
        } else if i == parent {
            assert(n1[parent].wf());
        }
    }
    assert forall|i: int| 1 <= i < n2.len() implies #[trigger] parented(n2, i) by {
        if i < n1.len() {
            assert(parented(n1, i));
            let p = n1[i].parent->0 as int;
            let j = choose|j: int|
                {
                    &&& 0 <= j < n1[n1[i].parent->0 as int].children@.len()
                    &&& (#[trigger] n1[n1[i].parent->0 as int].children@[j]).id == i as usize
                    &&& n1[n1[i].parent->0 as int].children@[j].name@ == n1[i].name@
                };
            assert(n2[i].parent == n1[i].parent);
            assert(n2[i].name@ == n1[i].name@);
            if p == parent {
                assert(n2[p].children@[j] == n1[p].children@[j]);
            } else {
                assert(n2[p] == n1[p]);
            }
            assert((n2[n2[i].parent->0 as int].children@[j]).id == i as usize);
            assert(n2[n2[i].parent->0 as int].children@[j].name@ == n2[i].name@);
        } else {
            assert(i == newid);
            assert(n2[i].parent == Some(parent as usize));
            assert(n2[i].parent->0 as int == parent);
            let j = n1[parent].children@.len() as int;
            assert(n2[parent].children@[j] == n2[parent].children@.last());
            assert((n2[n2[i].parent->0 as int].children@[j]).id == i as usize);
            assert(n2[n2[i].parent->0 as int].children@[j].name@ == n2[i].name@);
        }
    }
    assert forall|i: int, j: int|
        0 <= i < n2.len() && 0 <= j < n2[i].children@.len() implies #[trigger] link_ok(
        n2,
        i,
        j,
    ) by {
        if i == newid {
        } else if i == parent && j == n1[parent].children@.len() {
            assert(n2[i].children@[j] == n2[parent].children@.last());
            assert(n2[i].children@[j].id == n1.len() as usize);
            assert((n2[i].children@[j].id as int) == newid);
            assert(n2[newid].parent == Some(parent as usize));
            assert(n2[n2[i].children@[j].id as int].parent == Some(i as usize));
            assert(n2[n2[i].children@[j].id as int].name@ == n2[i].children@[j].name@);
        } else {
            assert(n2[i].children@[j] == n1[i].children@[j]);
            assert(link_ok(n1, i, j));
            let l = n1[i].children@[j];
            assert(n2[l.id as int].parent == n1[l.id as int].parent);
            assert(n2[l.id as int].name@ == n1[l.id as int].name@);
        }
    }
    assert forall|i: int, j1: int, j2: int|
        0 <= i < n2.len() && 0 <= j1 < j2 < n2[i].children@.len() implies (
    #[trigger] n2[i].children@[j1]).name@ != (#[trigger] n2[i].children@[j2]).name@ by {
        if i == parent {
            if j2 == n1[parent].children@.len() {
                assert(n1[parent].children@[j1].name@ != nm);
            }
        } else if i < n1.len() {
            assert(n2[i].children == n1[i].children);
        }
    }
    assert forall|i: int|
        0 <= i < n2.len() && (#[trigger] n2[i]).is_file implies n2[i].children@.len() == 0 by {
        if i < n1.len() && i != parent {
            assert(n2[i] == n1[i]);
        }
    }
}

/// Walks one directory listing: accepted entries become children of
/// `parent` (recursing into directories), every rejected entry is recorded
/// as a warning and skipped, and the build goes on with its siblings.
fn attach_entries(
    nodes: &mut Vec<Node>,
    warnings: &mut Vec<BuildWarning>,
    parent: usize,
    entries: &Vec<ScanEntry>,
)
    requires
        shape_ok(old(nodes)@),
        (parent as int) < old(nodes)@.len(),
        !old(nodes)@[parent as int].is_file,
        old(nodes)@[parent as int].children@.len() == 0,
    ensures
        shape_ok(final(nodes)@),
        old(nodes)@.len() <= final(nodes)@.len(),
        forall|i: int|
            0 <= i < old(nodes)@.len() && i != parent ==> final(nodes)@[i] == old(nodes)@[i],
        same_but_children(old(nodes)@[parent as int], final(nodes)@[parent as int]),
        forall|i: int|
            old(nodes)@.len() <= i < final(nodes)@.len() ==> (#[trigger] final(nodes)@[i]).score() == 0,
        forall|j: int|
            0 <= j < final(nodes)@[parent as int].children@.len() ==> from_ok_entry(
                entries@,
                (#[trigger] final(nodes)@[parent as int].children@[j]).name@,
            ),
        forall|j: int|
            0 <= j < final(nodes)@[parent as int].children@.len() ==> child_from_entry(
                entries@,
                final(nodes)@,
                (#[trigger] final(nodes)@[parent as int].children@[j]).id as int,
            ),
        forall|k: int|
            0 <= k < entries@.len() && entry_ok(#[trigger] entries@[k]) ==> lookup_in(
                final(nodes)@[parent as int].children@,
                entry_name(entries@[k]),
            ) is Some,
        old(warnings)@.len() <= final(warnings)@.len(),
        forall|w: int|
            0 <= w < old(warnings)@.len() ==> final(warnings)@[w] == old(warnings)@[w],
        forall|k: int|
            0 <= k < entries@.len() && !entry_ok(#[trigger] entries@[k]) ==> exists|w: int|
                old(warnings)@.len() <= w < final(warnings)@.len() && (#[trigger] final(warnings)@[w]).path_spec() == entry_path(entries@[k]),
    decreases entries@,
{
    let n = entries.len();
    let ghost base_nodes = nodes@;
    let ghost base_w = warnings@.len() as int;
    let mut idx: usize = 0;
    while idx < n
        invariant
            n == entries@.len(),
            idx <= n,
            shape_ok(nodes@),
            (parent as int) < nodes@.len(),
            base_nodes.len() <= nodes@.len(),
            !nodes@[parent as int].is_file,
            forall|i: int|
                0 <= i < base_nodes.len() && i != parent ==> nodes@[i] == base_nodes[i],
            same_but_children(base_nodes[parent as int], nodes@[parent as int]),
            forall|i: int|
                base_nodes.len() <= i < nodes@.len() ==> (#[trigger] nodes@[i]).score() == 0,
            forall|j: int|
                0 <= j < nodes@[parent as int].children@.len() ==> from_ok_entry(
                    entries@,
                    (#[trigger] nodes@[parent as int].children@[j]).name@,
                ),
            forall|j: int|
                0 <= j < nodes@[parent as int].children@.len() ==> child_from_entry(
                    entries@,
                    nodes@,
                    (#[trigger] nodes@[parent as int].children@[j]).id as int,
                ),
            forall|k: int|
                0 <= k < idx && entry_ok(#[trigger] entries@[k]) ==> lookup_in(
                    nodes@[parent as int].children@,
                    entry_name(entries@[k]),
                ) is Some,
            base_w <= warnings@.len(),
            forall|w: int| 0 <= w < base_w ==> warnings@[w] == old(warnings)@[w],
            base_w == old(warnings)@.len(),
            forall|k: int|
                0 <= k < idx && !entry_ok(#[trigger] entries@[k]) ==> exists|w: int|
                    base_w <= w < warnings@.len() && (#[trigger] warnings@[w]).path_spec()
                        == entry_path(entries@[k]),
        decreases n - idx,
    {
        let ghost loop_w = warnings@;
        let ghost loop_children = nodes@[parent as int].children@;
        match &entries[idx] {
            ScanEntry::Failed { path, kind } => {
                warnings.push(classify(kind, path.clone()));
                proof {
                    assert(warnings@.last().path_spec() == entry_path(entries@[idx as int]));
                }
            },
            ScanEntry::Item {
                path,
                name,
                is_file,
                is_symlink,
                size,
                created,
                modified,
                entries: sub_entries,
                listing_err,
            } => {
                match name {
                    None => {
                        warnings.push(BuildErr::InvalidPathErr(path.clone()));
                        proof {
                            assert(warnings@.last().path_spec() == entry_path(
                                entries@[idx as int],
                            ));
                        }
                    },
                    Some(nm) => {
                        if !name_ok(nm.as_str()) {
                            warnings.push(BuildErr::InvalidPathErr(path.clone()));
                            proof {
                                assert(!entry_ok(entries@[idx as int]));
                                assert(warnings@.last().path_spec() == entry_path(
                                    entries@[idx as int],
                                ));
                            }
                        } else if *is_symlink {
                            warnings.push(BuildErr::IsSymlinkErr(path.clone()));
                            proof {
                                assert(warnings@.last().path_spec() == entry_path(
                                    entries@[idx as int],
                                ));
                            }
                        } else {
                            proof {
                                assert(entry_ok(entries@[idx as int]));
                                assert(entry_name(entries@[idx as int]) == nm@);
                            }
                            let dup = self_get_child(nodes, parent, nm.as_str());
                            if dup {
                                warnings.push(BuildErr::DuplicateNameErr(path.clone()));
                            } else {
                                let id = nodes.len();
                                let ghost n1 = nodes@;
                                let child = Node::new(
                                    nm.clone(),
                                    *is_file,
                                    *size,
                                    *created,
                                    *modified,
                                    Some(parent),
                                );
                                nodes.push(child);
                                let pnode = &mut nodes[parent];
                                let added = pnode.add_child(nm.clone(), id);
                                proof {
                                    assert(added is Ok);
                                    assert(nodes.len() == nodes@.len());
                                    assert(n1.len() < usize::MAX);
                                    let n2 = nodes@;
                                    assert(n2[parent as int].children@.last().id == id);
                                    assert(forall|i: int|
                                        0 <= i < n1.len() && i != parent ==> n2[i] == n1[i]);
                                    lemma_lookup_none(n1[parent as int].children@, nm@);
                                    lemma_shape_attach(n1, n2, parent as int, nm@);
                                    assert(from_ok_entry(entries@, nm@));
                                    assert(entry_ok(entries@[idx as int]) && entry_matches(
                                        entries@[idx as int],
                                        n2[id as int],
                                    ));
                                    crate::node::lemma_lookup_push(
                                        n1[parent as int].children@,
                                        n2[parent as int].children@.last(),
                                        nm@,
                                    );
                                    assert(n2[parent as int].children@ =~= n1[
                                        parent as int
                                    ].children@.push(n2[parent as int].children@.last()));
                                    assert(lookup_in(n2[parent as int].children@, nm@) is Some);
                                    assert forall|j: int|
                                        0 <= j < n2[parent as int].children@.len() implies from_ok_entry(
                                        entries@,
                                        (#[trigger] n2[parent as int].children@[j]).name@,
                                    ) && child_from_entry(
                                        entries@,
                                        n2,
                                        n2[parent as int].children@[j].id as int,
                                    ) by {
                                        if j < n1[parent as int].children@.len() {
                                            assert(n2[parent as int].children@[j] == n1[
                                                parent as int
                                            ].children@[j]);
                                            let c = n1[parent as int].children@[j].id as int;
                                            assert(link_ok(n1, parent as int, j));
                                            let k = choose|k: int|
                                                0 <= k < entries@.len() && entry_ok(
                                                    #[trigger] entries@[k],
                                                ) && entry_matches(entries@[k], n1[c]);
                                            assert(n2[c] == n1[c]);
                                        }
                                    }
                                }
                                if !*is_file {
                                    proof {
                                        let ghost whole = entries@[idx as int];
                                        assert(decreases_to!(entries@ => whole));
                                        assert(whole->Item_entries == *sub_entries);
                                        assert(decreases_to!(whole => whole->Item_entries));
                                        assert(decreases_to!(entries@ => sub_entries@));
                                    }
                                    let ghost n_pre = nodes@;
                                    attach_entries(nodes, warnings, id, sub_entries);
                                    proof {
                                        assert(nodes@[parent as int] == n_pre[parent as int]);
                                        assert forall|j: int|
                                            0 <= j < nodes@[parent as int].children@.len()
                                                implies child_from_entry(
                                            entries@,
                                            nodes@,
                                            (#[trigger] nodes@[parent as int].children@[j]).id
                                                as int,
                                        ) by {
                                            let c = nodes@[parent as int].children@[j].id as int;
                                            assert(link_ok(n_pre, parent as int, j));
                                            let k = choose|k: int|
                                                0 <= k < entries@.len() && entry_ok(
                                                    #[trigger] entries@[k],
                                                ) && entry_matches(entries@[k], n_pre[c]);
                                            if c == id {
                                                assert(same_but_children(
                                                    n_pre[id as int],
                                                    nodes@[id as int],
                                                ));
                                                assert(entry_matches(entries@[k], nodes@[c]));
                                            } else {
                                                assert(nodes@[c] == n_pre[c]);
                                            }
                                        }
                                        assert forall|i: int|
                                            base_nodes.len() <= i < nodes@.len() implies (
                                        #[trigger] nodes@[i]).score() == 0 by {
                                            if i < n_pre.len() && i != id {
                                                assert(nodes@[i] == n_pre[i]);
                                            } else if i == id {
                                                assert(same_but_children(
                                                    n_pre[id as int],
                                                    nodes@[id as int],
                                                ));
                                            }
                                        }
                                    }
                                    match listing_err {
                                        None => {},
                                        Some(k) => {
                                            warnings.push(classify(k, path.clone()));
                                        },
                                    }
                                }
                            }
                        }
                    },
                }
            },
        }
        proof {
            assert forall|k: int|
                0 <= k < idx + 1 && !entry_ok(#[trigger] entries@[k]) implies exists|w: int|
                base_w <= w < warnings@.len() && (#[trigger] warnings@[w]).path_spec()
                    == entry_path(entries@[k]) by {
                if k < idx {
                    let w = choose|w: int|
                        base_w <= w < loop_w.len() && (#[trigger] loop_w[w]).path_spec()
                            == entry_path(entries@[k]);
                    assert(warnings@[w] == loop_w[w]);
                }
            }
            assert forall|k: int|
                0 <= k < idx + 1 && entry_ok(#[trigger] entries@[k]) implies lookup_in(
                nodes@[parent as int].children@,
                entry_name(entries@[k]),
            ) is Some by {
                if k < idx {
                    assert(lookup_in(loop_children, entry_name(entries@[k])) is Some);
                    if nodes@[parent as int].children@ != loop_children {
                        crate::node::lemma_lookup_push(
                            loop_children,
                            nodes@[parent as int].children@.last(),
                            entry_name(entries@[k]),
                        );
                        assert(nodes@[parent as int].children@ =~= loop_children.push(
                            nodes@[parent as int].children@.last(),
                        ));
                    }
                }
            }
        }
        idx = idx + 1;
    }
}

/// Whether `parent` already has a child named `nm`.
fn self_get_child(nodes: &Vec<Node>, parent: usize, nm: &str) -> (r: bool)
    requires
        (parent as int) < nodes@.len(),
    ensures
        r == (lookup_in(nodes@[parent as int].children@, nm@) is Some),
{
    match nodes[parent].get_child(nm) {
        Some(_) => true,
        None => false,
    }
}

/// Everything `build` guarantees of a successful result: a well-formed
/// tree whose root carries the scanned metadata with zeroed counters, whose
/// root children all stem from accepted entries of the root's listing, and
/// a warning naming the path of every rejected entry of that listing.
pub open spec fn build_result_ok(root: ScanEntry, t: FileTree, warnings: Seq<BuildWarning>) -> bool {
    &&& t.wf()
    &&& t.nodes.len() >= 1
    &&& t.nodes[0].name@ == entry_name(root)
    &&& t.nodes[0].parent is None
    &&& (forall|i: int| 0 <= i < t.nodes.len() ==> (#[trigger] t.nodes[i]).score() == 0)
    &&& (root matches ScanEntry::Item { is_file, size, created, modified, .. }
        ==> t.nodes[0].is_file == is_file && t.nodes[0].size == size
        && t.nodes[0].date_created == created && t.nodes[0].date_modified == modified)
    &&& (root matches ScanEntry::Item { entries, .. } ==> forall|j: int|
        0 <= j < t.nodes[0].children@.len() ==> from_ok_entry(
            entries@,
            (#[trigger] t.nodes[0].children@[j]).name@,
        ))
    &&& (root matches ScanEntry::Item { entries, .. } ==> forall|j: int|
        0 <= j < t.nodes[0].children@.len() ==> child_from_entry(
            entries@,
            t.nodes@,
            (#[trigger] t.nodes[0].children@[j]).id as int,
        ))
    &&& (root matches ScanEntry::Item { entries, is_file, .. } ==> is_file == false
        ==> forall|k: int|
        0 <= k < entries@.len() && entry_ok(#[trigger] entries@[k]) ==> lookup_in(
            t.nodes[0].children@,
            entry_name(entries@[k]),
        ) is Some)
    &&& (root matches ScanEntry::Item { entries, is_file, .. } ==> is_file == false
        ==> forall|k: int|
        0 <= k < entries@.len() && !entry_ok(#[trigger] entries@[k]) ==> exists|w: int|
            0 <= w < warnings.len() && (#[trigger] warnings[w]).path_spec() == entry_path(
                entries@[k],
            ))
}

/// Builds a tree from a scanned snapshot.
///
/// The build succeeds exactly when the root entry itself is usable (it was
/// readable, has a resolvable name, and is not a symbolic link); a bad root
/// fails wholesale with the corresponding error. On success the tree is
/// well-formed, carries the root's metadata with zeroed counters, every
/// child of the root stems from an accepted entry of the root's listing
/// (symbolic links and failed entries never appear), and every rejected
/// entry of the root's listing left a warning naming its path.
#[verifier::rlimit(60)]
pub fn build(root: &ScanEntry) -> (r: Result<(FileTree, Vec<BuildWarning>), BuildErr>)
    ensures
        r is Ok <==> entry_ok(*root),
        match r {
            Ok((t, warnings)) => build_result_ok(*root, t, warnings@),
            Err(e) => match root {
                ScanEntry::Failed { path, kind } => classify_spec(*kind, path@, e),
                ScanEntry::Item { path, name, is_symlink, .. } => {
                    &&& e.path_spec() == path@
                    &&& (match name {
                        None => e is InvalidPathErr,
                        Some(n) => if !valid_name(n@) {
                            e is InvalidPathErr
                        } else {
                            e is IsSymlinkErr && *is_symlink
                        },
                    })
                },
            },
        },
{
    match root {
        ScanEntry::Failed { path, kind } => Err(classify(kind, path.clone())),
        ScanEntry::Item {
            path,
            name,
            is_file,
            is_symlink,
            size,
            created,
            modified,
            entries,
            listing_err,
        } => {
            let nm = match name {
                None => {
                    return Err(BuildErr::InvalidPathErr(path.clone()));
                },
                Some(nm) => nm,
            };
            if !name_ok(nm.as_str()) {
                return Err(BuildErr::InvalidPathErr(path.clone()));
            }
            if *is_symlink {
                return Err(BuildErr::IsSymlinkErr(path.clone()));
            }
            let mut nodes: Vec<Node> = Vec::new();
            let rootnode = Node::new(nm.clone(), *is_file, *size, *created, *modified, None);
            nodes.push(rootnode);
            let mut warnings: Vec<BuildWarning> = Vec::new();
            proof {
                assert(shape_ok(nodes@));
            }
            if !*is_file {
                attach_entries(&mut nodes, &mut warnings, 0, entries);
                let ghost w_attach = warnings@;
                match listing_err {
                    None => {},
                    Some(k) => {
                        warnings.push(classify(k, path.clone()));
                    },
                }
                proof {
                    assert forall|k: int|
                        0 <= k < entries@.len() && !entry_ok(#[trigger] entries@[k])
                            implies exists|w: int|
                        0 <= w < warnings@.len() && (#[trigger] warnings@[w]).path_spec()
                            == entry_path(entries@[k]) by {
                        let w = choose|w: int|
                            0 <= w < w_attach.len() && (#[trigger] w_attach[w]).path_spec()
                                == entry_path(entries@[k]);
                        assert(warnings@[w] == w_attach[w]);
                    }
                }
            }
            let n = nodes.len();
            let mut by_popularity: Vec<usize> = Vec::new();
            let mut by_recency: Vec<usize> = Vec::new();
            let mut id: usize = 0;
            while id < n
                invariant
                    n == nodes@.len(),
                    id <= n,
                    shape_ok(nodes@),
                    by_popularity@.len() == id,
                    by_recency@.len() == id,
                    no_dup(by_popularity@),
                    no_dup(by_recency@),
                    forall|k: int|
                        0 <= k < by_popularity@.len() ==> (#[trigger] by_popularity@[k] as int)
                            < id,
                    forall|k: int|
                        0 <= k < by_recency@.len() ==> (#[trigger] by_recency@[k] as int) < id,
                    forall|v: int| 0 <= v < id ==> #[trigger] by_popularity@.contains(v as usize),
                    forall|v: int| 0 <= v < id ==> #[trigger] by_recency@.contains(v as usize),
                    sorted_pop(nodes@, by_popularity@),
                    sorted_rec(nodes@, by_recency@),
                decreases n - id,
            {
                let ghost pre_p = by_popularity@;
                let ghost pre_r = by_recency@;
                proof {
                    if pre_p.contains(id) {
                        let j = choose|j: int| 0 <= j < pre_p.len() && pre_p[j] == id;
                        assert((pre_p[j] as int) < id);
                    }
                    if pre_r.contains(id) {
                        let j = choose|j: int| 0 <= j < pre_r.len() && pre_r[j] == id;
                        assert((pre_r[j] as int) < id);
                    }
                }
                insert_pop(&nodes, &mut by_popularity, id);
                insert_rec(&nodes, &mut by_recency, id);
                proof {
                    assert forall|v: int|
                        0 <= v < id + 1 implies #[trigger] by_popularity@.contains(v as usize)
                            && by_recency@.contains(v as usize) by {
                        if v < id {
                            assert(pre_p.contains(v as usize));
                            assert(pre_r.contains(v as usize));
                        }
                    }
                    assert forall|k: int|
                        0 <= k < by_popularity@.len() implies (
                    #[trigger] by_popularity@[k] as int) < id + 1 by {
                        assert(by_popularity@.contains(by_popularity@[k]));
                        if by_popularity@[k] != id {
                            let m = choose|m: int|
                                0 <= m < pre_p.len() && pre_p[m] == by_popularity@[k];
                            assert((pre_p[m] as int) < id);
                        }
                    }
                    assert forall|k: int|
                        0 <= k < by_recency@.len() implies (#[trigger] by_recency@[k] as int) < id
                            + 1 by {
                        assert(by_recency@.contains(by_recency@[k]));
                        if by_recency@[k] != id {
                            let m = choose|m: int|
                                0 <= m < pre_r.len() && pre_r[m] == by_recency@[k];
                            assert((pre_r[m] as int) < id);
                        }
                    }
                }
                id = id + 1;
            }
            let t = FileTree { nodes, by_popularity, by_recency };
            proof {
                assert(build_result_ok(*root, t, warnings@));
            }
            Ok((t, warnings))
        },
    }
}

} // verus!
