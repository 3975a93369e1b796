//! Building a volume's tree from flat filesystem records, and searching a
//! snapshot of such trees.
//!
//! A volume's records arrive as a flat run of ids: each allocated, named
//! record carries its display name and its parent's absolute id. One linear
//! pass buckets every record under its parent (or into the root list when
//! its parent is the root sentinel); a depth-first pass then materializes
//! the ownership tree from the root list. A record whose ancestor chain
//! never reaches the sentinel ends up in a bucket nothing visits and is
//! silently left out, as tombstoned filesystem entries must be.

use vstd::prelude::*;

use crate::error::CaverError;
use crate::error::CaverResult;
use crate::file::entries_view;
use crate::file::file_model;
use crate::file::files_model;
use crate::file::lemma_files_model;
use crate::file::spec_preorder_forest;
use crate::file::EntryModel;
use crate::file::File;
use crate::file::FileEntry;
use crate::file::FileModel;
use crate::search::spec_params_match;
use crate::search::ParamsModel;
use crate::search::SearchParams;
use crate::text::str_eq;

verus! {

/// A tree node before its children were unwrapped from the shared,
/// lock-guarded scaffolding an indexing pass may build it under. Here the
/// scaffolding is gone, so the node already owns its children; unguarding
/// only converts the shape.
#[derive(Debug, PartialEq)]
pub struct GuardedFile {
    pub name: String,
    pub children: Vec<GuardedFile>,
}

pub open spec fn guardeds_model(s: Seq<GuardedFile>) -> Seq<FileModel>
    decreases s,
{
    if s.len() == 0 {
        Seq::empty()
    } else {
        seq![guarded_model(s[0])] + guardeds_model(s.drop_first())
    }
}

pub open spec fn guarded_model(f: GuardedFile) -> FileModel
    decreases f,
{
    FileModel { name: f.name@, children: guardeds_model(f.children@) }
}

impl View for GuardedFile {
    type V = FileModel;

    open spec fn view(&self) -> FileModel {
        guarded_model(*self)
    }
}

proof fn lemma_guardeds_model(s: Seq<GuardedFile>)
    ensures
        guardeds_model(s).len() == s.len(),
        forall|i: int| 0 <= i < s.len() ==> guardeds_model(s)[i] == guarded_model(s[i]),
    decreases s.len(),
{
    if s.len() > 0 {
        lemma_guardeds_model(s.drop_first());
        assert forall|i: int| 0 <= i < s.len() implies guardeds_model(s)[i] == guarded_model(
            s[i],
        ) by {
            if i > 0 {
                assert(s.drop_first()[i - 1] == s[i]);
            }
        }
    }
}

impl GuardedFile {
    fn unguard_ref(&self) -> (r: File)
        ensures
            file_model(r) == guarded_model(*self),
        decreases *self,
    {
        let mut children: Vec<File> = Vec::new();
        proof {
            lemma_guardeds_model(self.children@);
            assert(files_model(children@) =~= Seq::<FileModel>::empty());
            assert(self@.children.take(0) =~= Seq::<FileModel>::empty());
        }
        let mut i: usize = 0;
        while i < self.children.len()
            invariant
                0 <= i <= self.children@.len(),
                files_model(children@) == self@.children.take(i as int),
                self@ == guarded_model(*self),
                forall|j: int| 0 <= j < self.children@.len() ==> self@.children[j]
                    == guarded_model(self.children@[j]),
            decreases self.children@.len() - i,
        {
            let ghost before = children@;
            children.push(self.children[i].unguard_ref());
            proof {
                lemma_guardeds_model(self.children@);
                lemma_files_model_push(before, children@[children@.len() - 1]);
                assert(self@.children.take(i + 1) =~= self@.children.take(i as int).push(
                    self@.children[i as int],
                ));
            }
            i += 1;
        }
        proof {
            assert(self@.children.take(self.children@.len() as int) =~= self@.children);
        }
        File { name: self.name.clone(), children }
    }

    /// Converts this node and everything below it into the plain owned
    /// tree, keeping every name and the order of every child list.
    pub fn unguard(self) -> (r: File)
        ensures
            r@ == self@,
    {
        self.unguard_ref()
    }
}

proof fn lemma_files_model_push(s: Seq<File>, f: File)
    ensures
        files_model(s.push(f)) == files_model(s).push(file_model(f)),
{
    lemma_files_model(s.push(f));
    lemma_files_model(s);
    assert(files_model(s.push(f)) =~= files_model(s).push(file_model(f)));
}

/// One allocated, named filesystem record: its display name and the
/// absolute id of its parent record.
#[derive(Debug, PartialEq)]
pub struct FileRecord {
    pub name: String,
    pub parent: u64,
}

/// The mathematical form of a record.
pub struct RecordModel {
    pub name: Seq<char>,
    pub parent: int,
}

impl View for FileRecord {
    type V = RecordModel;

    open spec fn view(&self) -> RecordModel {
        RecordModel { name: self.name@, parent: self.parent as int }
    }
}

pub open spec fn opt_record_model(r: Option<FileRecord>) -> Option<RecordModel> {
    match r {
        Some(x) => Some(x@),
        None => None,
    }
}

pub open spec fn records_view(rs: Seq<Option<FileRecord>>) -> Seq<Option<RecordModel>> {
    rs.map_values(|r: Option<FileRecord>| opt_record_model(r))
}

pub open spec fn ids_view(s: Seq<usize>) -> Seq<int> {
    s.map_values(|x: usize| x as int)
}

pub open spec fn buckets_model(b: Seq<Vec<usize>>) -> Seq<Seq<int>> {
    b.map_values(|v: Vec<usize>| ids_view(v@))
}

/// The relative ids below `n` whose record exists and names `parent` as
/// its parent, in ascending order.
pub open spec fn spec_ids_upto(rs: Seq<Option<RecordModel>>, parent: int, n: int) -> Seq<int>
    decreases n,
{
    if n <= 0 {
        Seq::empty()
    } else {
        spec_ids_upto(rs, parent, n - 1) + match rs[n - 1] {
            Some(r) => if r.parent == parent {
                seq![n - 1]
            } else {
                Seq::empty()
            },
            None => Seq::empty(),
        }
    }
}

pub open spec fn spec_ids_with_parent(rs: Seq<Option<RecordModel>>, parent: int) -> Seq<int> {
    spec_ids_upto(rs, parent, rs.len() as int)
}

/// Every id such a list holds denotes an existing record with that parent,
/// each id occurs at most once, and the list is ascending.
pub proof fn lemma_ids_upto_elements(rs: Seq<Option<RecordModel>>, parent: int, n: int)
    requires
        0 <= n <= rs.len(),
    ensures
        forall|j: int|
            0 <= j < spec_ids_upto(rs, parent, n).len() ==> {
                let k = #[trigger] spec_ids_upto(rs, parent, n)[j];
                &&& 0 <= k < n
                &&& rs[k] is Some
                &&& rs[k].unwrap().parent == parent
            },
        forall|j1: int, j2: int|
            0 <= j1 < j2 < spec_ids_upto(rs, parent, n).len() ==> #[trigger] spec_ids_upto(
                rs,
                parent,
                n,
            )[j1] < #[trigger] spec_ids_upto(rs, parent, n)[j2],
    decreases n,
{
    if n > 0 {
        lemma_ids_upto_elements(rs, parent, n - 1);
    }
}

/// A record belongs to the child list of its parent and of nothing else,
/// so no id can stand in two different lists.
pub proof fn lemma_ids_disjoint(rs: Seq<Option<RecordModel>>, p1: int, p2: int, k: int)
    requires
        p1 != p2,
        spec_ids_with_parent(rs, p1).contains(k),
    ensures
        !spec_ids_with_parent(rs, p2).contains(k),
{
    lemma_ids_upto_elements(rs, p1, rs.len() as int);
    lemma_ids_upto_elements(rs, p2, rs.len() as int);
    let j = choose|j: int|
        0 <= j < spec_ids_with_parent(rs, p1).len() && spec_ids_with_parent(rs, p1)[j] == k;
    assert(rs[k].unwrap().parent == p1);
    if spec_ids_with_parent(rs, p2).contains(k) {
        let j2 = choose|j2: int|
            0 <= j2 < spec_ids_with_parent(rs, p2).len() && spec_ids_with_parent(rs, p2)[j2] == k;
        assert(rs[k].unwrap().parent == p2);
    }
}

/// Every id in the list denotes an existing record.
pub open spec fn spec_good_ids(rs: Seq<Option<RecordModel>>, ids: Seq<int>) -> bool {
    forall|j: int| 0 <= j < ids.len() ==> 0 <= #[trigger] ids[j] < rs.len() && rs[ids[j]] is Some
}

pub open spec fn spec_buckets_ok(rs: Seq<Option<RecordModel>>, b: Seq<Seq<int>>) -> bool {
    forall|p: int| 0 <= p < b.len() ==> spec_good_ids(rs, #[trigger] b[p])
}

/// How many child slots all buckets together still hold.
pub open spec fn spec_bucket_sum(b: Seq<Seq<int>>) -> nat
    decreases b.len(),
{
    if b.len() == 0 {
        0
    } else {
        b[0].len() + spec_bucket_sum(b.drop_first())
    }
}

proof fn lemma_bucket_sum_update(b: Seq<Seq<int>>, k: int)
    requires
        0 <= k < b.len(),
    ensures
        spec_bucket_sum(b.update(k, Seq::empty())) + b[k].len() == spec_bucket_sum(b),
    decreases b.len(),
{
    if k == 0 {
        assert(b.update(0, Seq::<int>::empty()).drop_first() =~= b.drop_first());
        assert(b.update(0, Seq::<int>::empty())[0] =~= Seq::<int>::empty());
    } else {
        lemma_bucket_sum_update(b.drop_first(), k - 1);
        assert(b.update(k, Seq::<int>::empty()).drop_first() =~= b.drop_first().update(
            k - 1,
            Seq::empty(),
        ));
        assert(b.update(k, Seq::<int>::empty())[0] == b[0]);
    }
}

/// The subtree grown from record `k`: its children come from `k`'s
/// bucket, which is consumed before the walk descends, so no bucket feeds
/// the tree twice and the walk is finite whatever the buckets hold. On the
/// bucket maps the linear pass builds — where every record stands in at
/// most one bucket — nothing is ever consumed twice anyway, and the walk
/// is the plain depth-first materialization.
pub open spec fn spec_sub_node(rs: Seq<Option<RecordModel>>, b: Seq<Seq<int>>, k: int) -> (
    FileModel,
    Seq<Seq<int>>,
)
    decreases spec_bucket_sum(b), 0int, 0int,
    via spec_sub_node_decreases
{
    let name = if 0 <= k < rs.len() && rs[k] is Some {
        rs[k].unwrap().name
    } else {
        Seq::empty()
    };
    let kids = if 0 <= k < b.len() {
        b[k]
    } else {
        Seq::empty()
    };
    if kids.len() == 0 {
        (FileModel { name, children: Seq::empty() }, b)
    } else {
        let b1 = b.update(k, Seq::empty());
        let (children, b2) = spec_sub_forest(rs, b1, kids);
        (FileModel { name, children }, b2)
    }
}

#[via_fn]
proof fn spec_sub_node_decreases(rs: Seq<Option<RecordModel>>, b: Seq<Seq<int>>, k: int) {
    let kids = if 0 <= k < b.len() {
        b[k]
    } else {
        Seq::empty()
    };
    if kids.len() > 0 {
        lemma_bucket_sum_update(b, k);
    }
}

/// The subtrees grown from a run of sibling ids, left to right, each
/// drawing on what the ones before it left of the buckets.
pub open spec fn spec_sub_forest(
    rs: Seq<Option<RecordModel>>,
    b: Seq<Seq<int>>,
    ks: Seq<int>,
) -> (Seq<FileModel>, Seq<Seq<int>>)
    decreases spec_bucket_sum(b), ks.len(), 1int,
{
    if ks.len() == 0 {
        (Seq::empty(), b)
    } else {
        let (n0, b1) = spec_sub_node(rs, b, ks[0]);
        if spec_bucket_sum(b1) > spec_bucket_sum(b) {
            (seq![n0], b1)
        } else {
            let (rest, b2) = spec_sub_forest(rs, b1, ks.drop_first());
            (seq![n0] + rest, b2)
        }
    }
}

/// The id trace of the walk: the record ids the builder materializes, one
/// per emitted node, in traversal order, with the same bucket consumption
/// as [`spec_sub_node`].
pub open spec fn spec_sub_ids_node(b: Seq<Seq<int>>, k: int) -> (Seq<int>, Seq<Seq<int>>)
    decreases spec_bucket_sum(b), 0int, 0int,
    via spec_sub_ids_node_decreases
{
    let kids = if 0 <= k < b.len() {
        b[k]
    } else {
        Seq::empty()
    };
    if kids.len() == 0 {
        (seq![k], b)
    } else {
        let b1 = b.update(k, Seq::empty());
        let (ids, b2) = spec_sub_ids_forest(b1, kids);
        (seq![k] + ids, b2)
    }
}

#[via_fn]
proof fn spec_sub_ids_node_decreases(b: Seq<Seq<int>>, k: int) {
    let kids = if 0 <= k < b.len() {
        b[k]
    } else {
        Seq::empty()
    };
    if kids.len() > 0 {
        lemma_bucket_sum_update(b, k);
    }
}

pub open spec fn spec_sub_ids_forest(b: Seq<Seq<int>>, ks: Seq<int>) -> (Seq<int>, Seq<Seq<int>>)
    decreases spec_bucket_sum(b), ks.len(), 1int,
{
    if ks.len() == 0 {
        (Seq::empty(), b)
    } else {
        let (ids0, b1) = spec_sub_ids_node(b, ks[0]);
        if spec_bucket_sum(b1) > spec_bucket_sum(b) {
            (ids0, b1)
        } else {
            let (rest, b2) = spec_sub_ids_forest(b1, ks.drop_first());
            (ids0 + rest, b2)
        }
    }
}

/// `x` stands in some bucket as a child.
pub open spec fn spec_in_buckets(b: Seq<Seq<int>>, x: int) -> bool {
    exists|p: int| 0 <= p < b.len() && #[trigger] b[p].contains(x)
}

/// Buckets as the linear pass leaves them: no id twice in one bucket, no
/// id in two buckets.
pub open spec fn spec_buckets_tidy(b: Seq<Seq<int>>) -> bool {
    &&& forall|p: int| 0 <= p < b.len() ==> (#[trigger] b[p]).no_duplicates()
    &&& forall|p: int, q: int, x: int|
        0 <= p < b.len() && 0 <= q < b.len() && p != q && #[trigger] b[p].contains(x)
            ==> !#[trigger] b[q].contains(x)
}

proof fn lemma_tidy_after_consume(b: Seq<Seq<int>>, k: int)
    requires
        spec_buckets_tidy(b),
        0 <= k < b.len(),
    ensures
        spec_buckets_tidy(b.update(k, Seq::empty())),
        forall|x: int| spec_in_buckets(b.update(k, Seq::empty()), x) ==> spec_in_buckets(b, x)
            && !b[k].contains(x),
{
    let b1 = b.update(k, Seq::empty());
    assert forall|x: int| spec_in_buckets(b1, x) implies spec_in_buckets(b, x) && !b[k].contains(
        x,
    ) by {
        let p = choose|p: int| 0 <= p < b1.len() && #[trigger] b1[p].contains(x);
        assert(p != k);
        assert(b[p].contains(x));
    }
}

/// The builder's id trace repeats no record: growing a run of sibling
/// subtrees from tidy buckets, starting at ids that stand in no bucket,
/// touches each record id at most once.
proof fn lemma_sub_ids_forest_distinct(b: Seq<Seq<int>>, ks: Seq<int>)
    requires
        spec_buckets_tidy(b),
        ks.no_duplicates(),
        forall|x: int| ks.contains(x) ==> !spec_in_buckets(b, x),
    ensures
        ({
            let (ids, b2) = spec_sub_ids_forest(b, ks);
            &&& ids.no_duplicates()
            &&& forall|x: int| ids.contains(x) ==> ks.contains(x) || spec_in_buckets(b, x)
            &&& forall|x: int| ids.contains(x) ==> !spec_in_buckets(b2, x)
            &&& forall|x: int| spec_in_buckets(b2, x) ==> spec_in_buckets(b, x)
            &&& spec_buckets_tidy(b2)
            &&& b2.len() == b.len()
        }),
    decreases spec_bucket_sum(b), ks.len(), 1int,
{
    if ks.len() == 0 {
    } else {
        let k0 = ks[0];
        lemma_sub_ids_node_distinct(b, k0);
        let (ids0, b1) = spec_sub_ids_node(b, k0);
        assert(spec_bucket_sum(b1) <= spec_bucket_sum(b)) by {
            lemma_sub_ids_sum(b, k0);
        }
        assert(ks.drop_first().no_duplicates()) by {
            assert forall|i: int, j: int|
                0 <= i < j < ks.drop_first().len() implies ks.drop_first()[i]
                != ks.drop_first()[j] by {
                assert(ks.drop_first()[i] == ks[i + 1]);
                assert(ks.drop_first()[j] == ks[j + 1]);
            }
        }
        assert forall|x: int| ks.drop_first().contains(x) implies !spec_in_buckets(b1, x) by {
            let i = choose|i: int| 0 <= i < ks.drop_first().len() && ks.drop_first()[i] == x;
            assert(ks[i + 1] == x);
            assert(ks.contains(x));
        }
        lemma_sub_ids_forest_distinct(b1, ks.drop_first());
        let (rest, b2) = spec_sub_ids_forest(b1, ks.drop_first());
        let ids = ids0 + rest;
        assert forall|x: int| rest.contains(x) implies !ids0.contains(x) by {
            if ids0.contains(x) {
                assert(!spec_in_buckets(b1, x));
                assert(ks.drop_first().contains(x) || spec_in_buckets(b1, x));
                let i = choose|i: int|
                    0 <= i < ks.drop_first().len() && ks.drop_first()[i] == x;
                assert(ks[i + 1] == x);
                assert(ks.contains(x));
                assert(x == k0 || spec_in_buckets(b, x));
                if x == k0 {
                    assert(ks[0] == ks[i + 1]);
                    assert(false);
                } else {
                    assert(false);
                }
            }
        }
        assert(ids.no_duplicates()) by {
            assert forall|i: int, j: int| 0 <= i < j < ids.len() implies ids[i] != ids[j] by {
                if j < ids0.len() {
                } else if i >= ids0.len() {
                    assert(ids[i] == rest[i - ids0.len()]);
                    assert(ids[j] == rest[j - ids0.len()]);
                } else {
                    assert(ids0.contains(ids[i]));
                    assert(rest.contains(ids[j]));
                    if ids[i] == ids[j] {
                        assert(!ids0.contains(ids[j]));
                    }
                }
            }
        }
        assert forall|x: int| ids.contains(x) implies ks.contains(x) || spec_in_buckets(
            b,
            x,
        ) by {
            let i = choose|i: int| 0 <= i < ids.len() && ids[i] == x;
            if i < ids0.len() {
                assert(ids0.contains(x));
            } else {
                assert(rest[i - ids0.len()] == x);
                assert(rest.contains(x));
                if ks.drop_first().contains(x) {
                    let m = choose|m: int|
                        0 <= m < ks.drop_first().len() && ks.drop_first()[m] == x;
                    assert(ks[m + 1] == x);
                    assert(ks.contains(x));
                }
            }
        }
        assert forall|x: int| ids.contains(x) implies !spec_in_buckets(b2, x) by {
            let i = choose|i: int| 0 <= i < ids.len() && ids[i] == x;
            if i < ids0.len() {
                assert(ids0.contains(x));
                assert(!spec_in_buckets(b1, x));
            } else {
                assert(rest[i - ids0.len()] == x);
                assert(rest.contains(x));
            }
        }
    }
}

/// The subtree grown from one id that stands in no bucket touches each
/// record id at most once.
proof fn lemma_sub_ids_node_distinct(b: Seq<Seq<int>>, k: int)
    requires
        spec_buckets_tidy(b),
        !spec_in_buckets(b, k),
    ensures
        ({
            let (ids, b2) = spec_sub_ids_node(b, k);
            &&& ids.no_duplicates()
            &&& forall|x: int| ids.contains(x) ==> x == k || spec_in_buckets(b, x)
            &&& forall|x: int| ids.contains(x) ==> !spec_in_buckets(b2, x)
            &&& forall|x: int| spec_in_buckets(b2, x) ==> spec_in_buckets(b, x)
            &&& spec_buckets_tidy(b2)
            &&& b2.len() == b.len()
        }),
    decreases spec_bucket_sum(b), 0int, 0int,
{
    let kids = if 0 <= k < b.len() {
        b[k]
    } else {
        Seq::empty()
    };
    if kids.len() == 0 {
        assert(seq![k].no_duplicates());
        assert forall|x: int| seq![k].contains(x) implies x == k by {}
    } else {
        let b1 = b.update(k, Seq::empty());
        lemma_bucket_sum_update(b, k);
        lemma_tidy_after_consume(b, k);
        assert forall|x: int| kids.contains(x) implies !spec_in_buckets(b1, x) by {
            if spec_in_buckets(b1, x) {
                let p = choose|p: int| 0 <= p < b1.len() && #[trigger] b1[p].contains(x);
                assert(p != k);
                assert(b[p].contains(x));
                assert(b[k].contains(x));
            }
        }
        lemma_sub_ids_forest_distinct(b1, kids);
        let (ids, b2) = spec_sub_ids_forest(b1, kids);
        assert forall|x: int| ids.contains(x) implies x == k || spec_in_buckets(b, x) by {
            assert(kids.contains(x) || spec_in_buckets(b1, x));
            if kids.contains(x) {
                assert(b[k].contains(x));
                assert(spec_in_buckets(b, x));
            }
        }
        assert(!ids.contains(k)) by {
            if ids.contains(k) {
                assert(k == k || spec_in_buckets(b, k));
                assert(kids.contains(k) || spec_in_buckets(b1, k));
                if kids.contains(k) {
                    assert(b[k].contains(k));
                    assert(spec_in_buckets(b, k));
                }
            }
        }
        let all = seq![k] + ids;
        assert(all.no_duplicates()) by {
            assert forall|i: int, j: int| 0 <= i < j < all.len() implies all[i] != all[j] by {
                if i == 0 {
                    assert(all[j] == ids[j - 1]);
                    assert(ids.contains(ids[j - 1]));
                } else {
                    assert(all[i] == ids[i - 1]);
                    assert(all[j] == ids[j - 1]);
                }
            }
        }
        assert forall|x: int| all.contains(x) implies x == k || spec_in_buckets(b, x) by {
            let i = choose|i: int| 0 <= i < all.len() && all[i] == x;
            if i > 0 {
                assert(ids[i - 1] == x);
                assert(ids.contains(x));
            }
        }
        assert forall|x: int| all.contains(x) implies !spec_in_buckets(b2, x) by {
            let i = choose|i: int| 0 <= i < all.len() && all[i] == x;
            if i > 0 {
                assert(ids[i - 1] == x);
                assert(ids.contains(x));
            } else {
                if spec_in_buckets(b2, x) {
                    assert(spec_in_buckets(b1, x));
                    assert(spec_in_buckets(b, x));
                }
            }
        }
    }
}

/// Bucket consumption never grows the buckets.
proof fn lemma_sub_ids_sum(b: Seq<Seq<int>>, k: int)
    ensures
        spec_bucket_sum(spec_sub_ids_node(b, k).1) <= spec_bucket_sum(b),
    decreases spec_bucket_sum(b), 0int, 0int,
{
    let kids = if 0 <= k < b.len() {
        b[k]
    } else {
        Seq::empty()
    };
    if kids.len() > 0 {
        let b1 = b.update(k, Seq::empty());
        lemma_bucket_sum_update(b, k);
        lemma_sub_ids_sum_forest(b1, kids);
    }
}

proof fn lemma_sub_ids_sum_forest(b: Seq<Seq<int>>, ks: Seq<int>)
    ensures
        spec_bucket_sum(spec_sub_ids_forest(b, ks).1) <= spec_bucket_sum(b),
    decreases spec_bucket_sum(b), ks.len(), 1int,
{
    if ks.len() > 0 {
        lemma_sub_ids_sum(b, ks[0]);
        let (ids0, b1) = spec_sub_ids_node(b, ks[0]);
        if !(spec_bucket_sum(b1) > spec_bucket_sum(b)) {
            lemma_sub_ids_sum_forest(b1, ks.drop_first());
        }
    }
}

pub open spec fn spec_count_node(m: FileModel) -> nat
    decreases m, 0int,
{
    1 + spec_count_forest(m.children)
}

pub open spec fn spec_count_forest(s: Seq<FileModel>) -> nat
    decreases s, 1int,
{
    if s.len() == 0 {
        0
    } else {
        spec_count_node(s[0]) + spec_count_forest(s.drop_first())
    }
}

/// The id trace walks the buckets exactly as the tree builder does: both
/// leave the buckets in the same state, and the trace holds one id per
/// node of the built tree.
proof fn lemma_ids_mirror_node(rs: Seq<Option<RecordModel>>, b: Seq<Seq<int>>, k: int)
    ensures
        spec_sub_ids_node(b, k).1 == spec_sub_node(rs, b, k).1,
        spec_sub_ids_node(b, k).0.len() == spec_count_node(spec_sub_node(rs, b, k).0),
    decreases spec_bucket_sum(b), 0int, 0int,
{
    let kids = if 0 <= k < b.len() {
        b[k]
    } else {
        Seq::empty()
    };
    if kids.len() == 0 {
        assert(spec_count_forest(Seq::<FileModel>::empty()) == 0);
    } else {
        lemma_bucket_sum_update(b, k);
        lemma_ids_mirror_forest(rs, b.update(k, Seq::empty()), kids);
    }
}

proof fn lemma_ids_mirror_forest(rs: Seq<Option<RecordModel>>, b: Seq<Seq<int>>, ks: Seq<int>)
    ensures
        spec_sub_ids_forest(b, ks).1 == spec_sub_forest(rs, b, ks).1,
        spec_sub_ids_forest(b, ks).0.len() == spec_count_forest(spec_sub_forest(rs, b, ks).0),
    decreases spec_bucket_sum(b), ks.len(), 1int,
{
    if ks.len() == 0 {
    } else {
        lemma_ids_mirror_node(rs, b, ks[0]);
        let (n0, b1) = spec_sub_node(rs, b, ks[0]);
        let (ids0, _) = spec_sub_ids_node(b, ks[0]);
        if spec_bucket_sum(b1) > spec_bucket_sum(b) {
            assert(spec_count_forest(seq![n0]) == spec_count_node(n0)) by {
                assert(seq![n0].drop_first() =~= Seq::<FileModel>::empty());
                assert(spec_count_forest(Seq::<FileModel>::empty()) == 0);
                assert(seq![n0][0] == n0);
            }
        } else {
            lemma_ids_mirror_forest(rs, b1, ks.drop_first());
            let (rest, _) = spec_sub_forest(rs, b1, ks.drop_first());
            assert(spec_count_forest(seq![n0] + rest) == spec_count_node(n0)
                + spec_count_forest(rest)) by {
                assert((seq![n0] + rest).drop_first() =~= rest);
                assert((seq![n0] + rest)[0] == n0);
            }
        }
    }
}

/// Tree invariants of a built volume. On the buckets the linear pass
/// produces, the builder's id trace repeats no record id, and the built
/// tree holds exactly one node per traced id: no record appears in two
/// parents' child lists, none is reachable twice, and no chain of records
/// can close into a cycle.
pub proof fn lemma_build_volume_no_duplicates(
    rs: Seq<Option<RecordModel>>,
    root_name: Seq<char>,
    first: int,
    root_parent: int,
)
    ensures
        ({
            let b = spec_volume_buckets(rs, first, root_parent);
            let roots = spec_ids_with_parent(rs, root_parent);
            &&& spec_sub_ids_forest(b, roots).0.no_duplicates()
            &&& spec_count_forest(spec_volume_tree(rs, root_name, first, root_parent).children)
                == spec_sub_ids_forest(b, roots).0.len()
        }),
{
    let b = spec_volume_buckets(rs, first, root_parent);
    let roots = spec_ids_with_parent(rs, root_parent);
    lemma_ids_upto_elements(rs, root_parent, rs.len() as int);
    assert forall|p: int| 0 <= p < b.len() implies (#[trigger] b[p]).no_duplicates() by {
        if first + p != root_parent {
            lemma_ids_upto_elements(rs, first + p, rs.len() as int);
        }
    }
    assert forall|p: int, q: int, x: int|
        0 <= p < b.len() && 0 <= q < b.len() && p != q && #[trigger] b[p].contains(x) implies !
    #[trigger] b[q].contains(x) by {
        lemma_ids_upto_elements(rs, first + p, rs.len() as int);
        lemma_ids_upto_elements(rs, first + q, rs.len() as int);
        if b[q].contains(x) {
            let i = choose|i: int| 0 <= i < b[p].len() && b[p][i] == x;
            let j = choose|j: int| 0 <= j < b[q].len() && b[q][j] == x;
            assert(rs[x].unwrap().parent == first + p);
            assert(rs[x].unwrap().parent == first + q);
        }
    }
    assert forall|x: int| roots.contains(x) implies !spec_in_buckets(b, x) by {
        let i = choose|i: int| 0 <= i < roots.len() && roots[i] == x;
        assert(rs[x].unwrap().parent == root_parent);
        if spec_in_buckets(b, x) {
            let p = choose|p: int| 0 <= p < b.len() && #[trigger] b[p].contains(x);
            lemma_ids_upto_elements(rs, first + p, rs.len() as int);
            let j = choose|j: int| 0 <= j < b[p].len() && b[p][j] == x;
            assert(first + p != root_parent);
            assert(rs[x].unwrap().parent == first + p);
        }
    }
    lemma_sub_ids_forest_distinct(b, roots);
    lemma_ids_mirror_forest(rs, b, roots);
}

/// Every present record carries a display name, never a path: non-empty
/// and free of path separators (and of the other characters Windows
/// forbids in file names).
pub open spec fn spec_records_named_ok(rs: Seq<Option<RecordModel>>) -> bool {
    forall|k: int|
        0 <= k < rs.len() ==> match #[trigger] rs[k] {
            Some(r) => crate::file::spec_valid_name(r.name),
            None => true,
        }
}

/// When every record's name is a display name, so is the name of every
/// node the builder grows from an existing record.
proof fn lemma_names_node(rs: Seq<Option<RecordModel>>, b: Seq<Seq<int>>, k: int)
    requires
        spec_records_named_ok(rs),
        spec_buckets_ok(rs, b),
        0 <= k < rs.len(),
        rs[k] is Some,
    ensures
        crate::file::spec_node_names_ok(spec_sub_node(rs, b, k).0),
        spec_buckets_ok(rs, spec_sub_node(rs, b, k).1),
    decreases spec_bucket_sum(b), 0int, 0int,
{
    let kids = if 0 <= k < b.len() {
        b[k]
    } else {
        Seq::empty()
    };
    if kids.len() == 0 {
        assert(crate::file::spec_forest_names_ok(Seq::<FileModel>::empty()));
    } else {
        lemma_bucket_sum_update(b, k);
        let b1 = b.update(k, Seq::empty());
        assert forall|p: int| 0 <= p < b1.len() implies spec_good_ids(rs, #[trigger] b1[p]) by {
            if p != k {
                assert(b1[p] == b[p]);
            }
        }
        lemma_names_forest(rs, b1, kids);
    }
}

proof fn lemma_names_forest(rs: Seq<Option<RecordModel>>, b: Seq<Seq<int>>, ks: Seq<int>)
    requires
        spec_records_named_ok(rs),
        spec_buckets_ok(rs, b),
        spec_good_ids(rs, ks),
    ensures
        crate::file::spec_forest_names_ok(spec_sub_forest(rs, b, ks).0),
        spec_buckets_ok(rs, spec_sub_forest(rs, b, ks).1),
    decreases spec_bucket_sum(b), ks.len(), 1int,
{
    if ks.len() == 0 {
        assert(crate::file::spec_forest_names_ok(Seq::<FileModel>::empty()));
    } else {
        assert(0 <= ks[0] < rs.len() && rs[ks[0]] is Some);
        lemma_names_node(rs, b, ks[0]);
        let (n0, b1) = spec_sub_node(rs, b, ks[0]);
        if spec_bucket_sum(b1) > spec_bucket_sum(b) {
            assert forall|i: int|
                0 <= i < seq![n0].len() implies crate::file::spec_node_names_ok(
                #[trigger] seq![n0][i],
            ) by {
                assert(seq![n0][i] == n0);
            }
        } else {
            assert forall|j: int|
                0 <= j < ks.drop_first().len() implies 0 <= #[trigger] ks.drop_first()[j]
                < rs.len() && rs[ks.drop_first()[j]] is Some by {
                assert(ks.drop_first()[j] == ks[j + 1]);
            }
            lemma_names_forest(rs, b1, ks.drop_first());
            let (rest, _) = spec_sub_forest(rs, b1, ks.drop_first());
            assert forall|i: int|
                0 <= i < (seq![n0] + rest).len() implies crate::file::spec_node_names_ok(
                #[trigger] (seq![n0] + rest)[i],
            ) by {
                if i == 0 {
                    assert((seq![n0] + rest)[i] == n0);
                } else {
                    assert((seq![n0] + rest)[i] == rest[i - 1]);
                }
            }
        }
    }
}

fn copy_ids(v: &Vec<usize>) -> (r: Vec<usize>)
    ensures
        r@ == v@,
{
    let mut r: Vec<usize> = Vec::new();
    let mut i: usize = 0;
    while i < v.len()
        invariant
            0 <= i <= v@.len(),
            r@ == v@.take(i as int),
        decreases v@.len() - i,
    {
        r.push(v[i]);
        proof {
            assert(v@.take(i + 1) =~= v@.take(i as int).push(v@[i as int]));
        }
        i += 1;
    }
    proof {
        assert(v@.take(v@.len() as int) =~= v@);
    }
    r
}

#[verifier::loop_isolation(false)]
fn build_node(records: &Vec<Option<FileRecord>>, buckets: &mut Vec<Vec<usize>>, k: usize) -> (r:
    File)
    requires
        spec_buckets_ok(records_view(records@), buckets_model(old(buckets)@)),
        k < records@.len(),
        records@[k as int] is Some,
    ensures
        file_model(r) == spec_sub_node(
            records_view(records@),
            buckets_model(old(buckets)@),
            k as int,
        ).0,
        buckets_model(final(buckets)@) == spec_sub_node(
            records_view(records@),
            buckets_model(old(buckets)@),
            k as int,
        ).1,
        final(buckets)@.len() == old(buckets)@.len(),
        spec_buckets_ok(records_view(records@), buckets_model(final(buckets)@)),
        spec_bucket_sum(buckets_model(final(buckets)@)) <= spec_bucket_sum(
            buckets_model(old(buckets)@),
        ),
    decreases spec_bucket_sum(buckets_model(old(buckets)@)), 0int, 0int,
{
    let ghost rv = records_view(records@);
    let ghost b0 = buckets_model(buckets@);
    proof {
        assert(rv[k as int] == opt_record_model(records@[k as int]));
    }
    let name = match &records[k] {
        Some(rec) => rec.name.clone(),
        None => {
            proof {
                assert(false);
            }
            String::new()
        },
    };
    if k >= buckets.len() || buckets[k].len() == 0 {
        proof {
            if k < b0.len() {
                assert(b0[k as int] == ids_view(buckets@[k as int]@));
            }
        }
        return File { name, children: Vec::new() };
    }
    let kids = copy_ids(&buckets[k]);
    buckets[k] = Vec::new();
    let ghost b1 = buckets_model(buckets@);
    proof {
        assert(ids_view(Seq::<usize>::empty()) =~= Seq::<int>::empty());
        assert(b1 =~~= b0.update(k as int, Seq::<int>::empty()));
        assert(ids_view(kids@) == b0[k as int]);
        lemma_bucket_sum_update(b0, k as int);
    }
    let children = build_forest(records, buckets, &kids, 0);
    proof {
        assert(ids_view(kids@).skip(0) =~= ids_view(kids@));
    }
    File { name, children }
}

#[verifier::loop_isolation(false)]
fn build_forest(
    records: &Vec<Option<FileRecord>>,
    buckets: &mut Vec<Vec<usize>>,
    kids: &Vec<usize>,
    from: usize,
) -> (r: Vec<File>)
    requires
        spec_buckets_ok(records_view(records@), buckets_model(old(buckets)@)),
        from <= kids@.len(),
        spec_good_ids(records_view(records@), ids_view(kids@)),
    ensures
        files_model(r@) == spec_sub_forest(
            records_view(records@),
            buckets_model(old(buckets)@),
            ids_view(kids@).skip(from as int),
        ).0,
        buckets_model(final(buckets)@) == spec_sub_forest(
            records_view(records@),
            buckets_model(old(buckets)@),
            ids_view(kids@).skip(from as int),
        ).1,
        final(buckets)@.len() == old(buckets)@.len(),
        spec_buckets_ok(records_view(records@), buckets_model(final(buckets)@)),
        spec_bucket_sum(buckets_model(final(buckets)@)) <= spec_bucket_sum(
            buckets_model(old(buckets)@),
        ),
    decreases spec_bucket_sum(buckets_model(old(buckets)@)), kids@.len() - from, 1int,
{
    let ghost rv = records_view(records@);
    let ghost b0 = buckets_model(buckets@);
    let ghost ks = ids_view(kids@).skip(from as int);
    if from == kids.len() {
        proof {
            assert(ks =~= Seq::<int>::empty());
            assert(files_model(Seq::<File>::empty()) =~= Seq::<FileModel>::empty());
        }
        return Vec::new();
    }
    let kid = kids[from];
    proof {
        assert(ids_view(kids@)[from as int] == kid as int);
        assert(ks[0] == kid as int);
        assert(ks.drop_first() =~= ids_view(kids@).skip(from as int + 1));
    }
    let node = build_node(records, buckets, kid);
    let mut rest = build_forest(records, buckets, kids, from + 1);
    let ghost rest0 = rest@;
    rest.insert(0, node);
    proof {
        lemma_files_model(rest@);
        lemma_files_model(rest0);
        assert(rest@ =~= seq![node] + rest0);
        assert forall|i: int| 0 <= i < rest@.len() implies files_model(rest@)[i]
            == (seq![file_model(node)] + files_model(rest0))[i] by {
            if i > 0 {
                assert(rest@[i] == rest0[i - 1]);
            }
        }
        assert(files_model(rest@) =~= seq![file_model(node)] + files_model(rest0));
    }
    rest
}

/// The buckets the linear pass produces: for each in-range id, the ids of
/// its children; the slot whose absolute id is the root sentinel stays
/// empty, those children are the roots.
pub open spec fn spec_volume_buckets(
    rs: Seq<Option<RecordModel>>,
    first: int,
    root_parent: int,
) -> Seq<Seq<int>> {
    Seq::new(
        rs.len(),
        |p: int|
            if first + p == root_parent {
                Seq::empty()
            } else {
                spec_ids_with_parent(rs, first + p)
            },
    )
}

/// The whole volume: the given root name over the trees grown from every
/// record whose parent is the root sentinel.
pub open spec fn spec_volume_tree(
    rs: Seq<Option<RecordModel>>,
    root_name: Seq<char>,
    first: int,
    root_parent: int,
) -> FileModel {
    FileModel {
        name: root_name,
        children: spec_sub_forest(
            rs,
            spec_volume_buckets(rs, first, root_parent),
            spec_ids_with_parent(rs, root_parent),
        ).0,
    }
}

/// One linear pass: each allocated, named record is pushed into exactly
/// one place — the root list when its parent is the sentinel, its
/// parent's bucket when that parent lies in this volume's id range, and
/// nowhere when it does not.
#[verifier::loop_isolation(false)]
fn bucket_records(records: &Vec<Option<FileRecord>>, first_id: u64, root_parent: u64) -> (r: (
    Vec<Vec<usize>>,
    Vec<usize>,
))
    requires
        first_id as int + records@.len() <= u64::MAX as int,
    ensures
        r.0@.len() == records@.len(),
        forall|p: int|
            0 <= p < records@.len() ==> ids_view(#[trigger] r.0@[p]@) == (
            if first_id as int + p == root_parent as int {
                Seq::<int>::empty()
            } else {
                spec_ids_with_parent(records_view(records@), first_id as int + p)
            }),
        ids_view(r.1@) == spec_ids_with_parent(records_view(records@), root_parent as int),
{
    let ghost rv = records_view(records@);
    let n = records.len();
    let mut buckets: Vec<Vec<usize>> = Vec::new();
    while buckets.len() < n
        invariant
            buckets@.len() <= n,
            forall|p: int| 0 <= p < buckets@.len() ==> ids_view(#[trigger] buckets@[p]@)
                == Seq::<int>::empty(),
        decreases n - buckets@.len(),
    {
        buckets.push(Vec::new());
        proof {
            assert(ids_view(buckets@.last()@) =~= Seq::<int>::empty());
        }
    }
    let mut roots: Vec<usize> = Vec::new();
    proof {
        assert(ids_view(roots@) =~= Seq::<int>::empty());
    }
    let mut k: usize = 0;
    while k < n
        invariant
            0 <= k <= n,
            buckets@.len() == n,
            forall|p: int|
                0 <= p < n ==> ids_view(#[trigger] buckets@[p]@) == (
                if first_id as int + p == root_parent as int {
                    Seq::<int>::empty()
                } else {
                    spec_ids_upto(rv, first_id as int + p, k as int)
                }),
            ids_view(roots@) == spec_ids_upto(rv, root_parent as int, k as int),
        decreases n - k,
    {
        let ghost roots0 = roots@;
        let ghost bks0 = buckets@;
        proof {
            assert(rv[k as int] == opt_record_model(records@[k as int]));
        }
        match &records[k] {
            Some(rec) => {
                if rec.parent == root_parent {
                    roots.push(k);
                    proof {
                        assert(ids_view(roots@) =~= ids_view(roots0).push(k as int));
                    }
                } else if rec.parent >= first_id && rec.parent - first_id < n as u64 {
                    let idx = (rec.parent - first_id) as usize;
                    buckets[idx].push(k);
                    proof {
                        assert(ids_view(buckets@[idx as int]@) =~= ids_view(
                            bks0[idx as int]@,
                        ).push(k as int));
                    }
                }
            },
            None => {},
        }
        k += 1;
        proof {
            assert forall|p: int| 0 <= p < n implies ids_view(#[trigger] buckets@[p]@) == (
            if first_id as int + p == root_parent as int {
                Seq::<int>::empty()
            } else {
                spec_ids_upto(rv, first_id as int + p, k as int)
            }) by {
                let par = first_id as int + p;
                assert(spec_ids_upto(rv, par, k as int) == spec_ids_upto(rv, par, k - 1) + (
                match rv[k - 1] {
                    Some(r) => if r.parent == par {
                        seq![k - 1]
                    } else {
                        Seq::<int>::empty()
                    },
                    None => Seq::<int>::empty(),
                }));
                if par != root_parent as int {
                    match rv[k - 1] {
                        Some(rm) => {
                            if rm.parent == par {
                                assert(spec_ids_upto(rv, par, k as int) =~= spec_ids_upto(
                                    rv,
                                    par,
                                    k - 1,
                                ).push(k - 1));
                            } else {
                                assert(spec_ids_upto(rv, par, k as int) =~= spec_ids_upto(
                                    rv,
                                    par,
                                    k - 1,
                                ));
                            }
                        },
                        None => {
                            assert(spec_ids_upto(rv, par, k as int) =~= spec_ids_upto(
                                rv,
                                par,
                                k - 1,
                            ));
                        },
                    }
                }
            }
            assert(spec_ids_upto(rv, root_parent as int, k as int) == spec_ids_upto(
                rv,
                root_parent as int,
                k - 1,
            ) + (match rv[k - 1] {
                Some(r) => if r.parent == root_parent as int {
                    seq![k - 1]
                } else {
                    Seq::<int>::empty()
                },
                None => Seq::<int>::empty(),
            }));
            match rv[k - 1] {
                Some(rm) => {
                    if rm.parent == root_parent as int {
                        assert(spec_ids_upto(rv, root_parent as int, k as int) =~= spec_ids_upto(
                            rv,
                            root_parent as int,
                            k - 1,
                        ).push(k - 1));
                    } else {
                        assert(spec_ids_upto(rv, root_parent as int, k as int) =~= spec_ids_upto(
                            rv,
                            root_parent as int,
                            k - 1,
                        ));
                    }
                },
                None => {
                    assert(spec_ids_upto(rv, root_parent as int, k as int) =~= spec_ids_upto(
                        rv,
                        root_parent as int,
                        k - 1,
                    ));
                },
            }
        }
    }
    (buckets, roots)
}

/// One file's text, as read from the live filesystem, keyed by the path
/// the traversal gives that file.
#[derive(Debug, PartialEq)]
pub struct FileContent {
    pub path: String,
    pub text: String,
}

/// The mathematical form of a [`FileContent`].
pub struct ContentModel {
    pub path: Seq<char>,
    pub text: Seq<char>,
}

impl View for FileContent {
    type V = ContentModel;

    open spec fn view(&self) -> ContentModel {
        ContentModel { path: self.path@, text: self.text@ }
    }
}

pub open spec fn contents_view(s: Seq<FileContent>) -> Seq<ContentModel> {
    s.map_values(|c: FileContent| c@)
}

/// The text recorded for a path: the first entry with that path wins;
/// a path with no entry could not be read.
pub open spec fn spec_lookup(cs: Seq<ContentModel>, path: Seq<char>) -> Option<Seq<char>>
    decreases cs.len(),
{
    if cs.len() == 0 {
        None
    } else if cs[0].path == path {
        Some(cs[0].text)
    } else {
        spec_lookup(cs.drop_first(), path)
    }
}

#[verifier::loop_isolation(false)]
fn lookup_content<'a>(contents: &'a Vec<FileContent>, path: &String) -> (r: Option<&'a String>)
    ensures
        match r {
            Some(s) => spec_lookup(contents_view(contents@), path@) == Some(s@),
            None => spec_lookup(contents_view(contents@), path@) is None,
        },
{
    let ghost cv = contents_view(contents@);
    proof {
        assert(cv.skip(0) =~= cv);
    }
    let mut i: usize = 0;
    while i < contents.len()
        invariant
            0 <= i <= contents@.len(),
            spec_lookup(cv.skip(i as int), path@) == spec_lookup(cv, path@),
        decreases contents@.len() - i,
    {
        proof {
            assert(cv.skip(i as int)[0] == cv[i as int]);
            assert(cv.skip(i as int).drop_first() =~= cv.skip(i as int + 1));
        }
        if str_eq(contents[i].path.as_str(), path.as_str()) {
            return Some(&contents[i].text);
        }
        i += 1;
    }
    proof {
        assert(cv.skip(contents@.len() as int) =~= Seq::<ContentModel>::empty());
    }
    None
}

/// The matches among a run of visited nodes, in visit order: a node's
/// content, when a leaf under a content constraint needs it, is whatever
/// the content table records for the node's path.
pub open spec fn spec_search_entries(
    p: ParamsModel,
    es: Seq<EntryModel>,
    cs: Seq<ContentModel>,
) -> Seq<(Seq<char>, Seq<char>)>
    decreases es.len(),
{
    if es.len() == 0 {
        Seq::empty()
    } else {
        (if spec_params_match(p, es[0].name, es[0].path, es[0].leaf, spec_lookup(cs, es[0].path)) {
            seq![(es[0].name, es[0].path)]
        } else {
            Seq::empty()
        }) + spec_search_entries(p, es.drop_first(), cs)
    }
}

pub proof fn lemma_search_entries_concat(
    p: ParamsModel,
    a: Seq<EntryModel>,
    b: Seq<EntryModel>,
    cs: Seq<ContentModel>,
)
    ensures
        spec_search_entries(p, a + b, cs) == spec_search_entries(p, a, cs) + spec_search_entries(
            p,
            b,
            cs,
        ),
    decreases a.len(),
{
    if a.len() == 0 {
        assert(a + b =~= b);
        assert(spec_search_entries(p, a, cs) =~= Seq::empty());
        assert(spec_search_entries(p, a + b, cs) =~= spec_search_entries(p, a, cs)
            + spec_search_entries(p, b, cs));
    } else {
        lemma_search_entries_concat(p, a.drop_first(), b, cs);
        assert((a + b).drop_first() =~= a.drop_first() + b);
        assert((a + b)[0] == a[0]);
        assert(spec_search_entries(p, a + b, cs) =~= spec_search_entries(p, a, cs)
            + spec_search_entries(p, b, cs));
    }
}

/// The matches over a whole snapshot: each volume walked in stored order,
/// one volume after the other.
pub open spec fn spec_search_index(
    p: ParamsModel,
    disks: Seq<FileModel>,
    cs: Seq<ContentModel>,
) -> Seq<(Seq<char>, Seq<char>)>
    decreases disks.len(),
{
    if disks.len() == 0 {
        Seq::empty()
    } else {
        spec_search_entries(p, spec_preorder_forest(disks[0].children, disks[0].name), cs)
            + spec_search_index(p, disks.drop_first(), cs)
    }
}

pub open spec fn hits_view(v: Seq<(String, String)>) -> Seq<(Seq<char>, Seq<char>)> {
    v.map_values(|h: (String, String)| (h.0@, h.1@))
}

pub open spec fn strings_view(v: Seq<String>) -> Seq<Seq<char>> {
    v.map_values(|s: String| s@)
}

/// The paths whose content the query still needs before it can be
/// decided: leaves that pass the name and path constraints while a
/// content constraint is present.
pub open spec fn spec_pending_entries(p: ParamsModel, es: Seq<EntryModel>) -> Seq<Seq<char>>
    decreases es.len(),
{
    if es.len() == 0 {
        Seq::empty()
    } else {
        (if p.content is Some && es[0].leaf && crate::search::spec_field_ok(p.name, es[0].name)
            && crate::search::spec_field_ok(p.path, es[0].path) {
            seq![es[0].path]
        } else {
            Seq::empty()
        }) + spec_pending_entries(p, es.drop_first())
    }
}

pub proof fn lemma_pending_entries_concat(p: ParamsModel, a: Seq<EntryModel>, b: Seq<EntryModel>)
    ensures
        spec_pending_entries(p, a + b) == spec_pending_entries(p, a) + spec_pending_entries(p, b),
    decreases a.len(),
{
    if a.len() == 0 {
        assert(a + b =~= b);
        assert(spec_pending_entries(p, a) =~= Seq::empty());
        assert(spec_pending_entries(p, a + b) =~= spec_pending_entries(p, a)
            + spec_pending_entries(p, b));
    } else {
        lemma_pending_entries_concat(p, a.drop_first(), b);
        assert((a + b).drop_first() =~= a.drop_first() + b);
        assert((a + b)[0] == a[0]);
        assert(spec_pending_entries(p, a + b) =~= spec_pending_entries(p, a)
            + spec_pending_entries(p, b));
    }
}

pub open spec fn spec_pending_index(p: ParamsModel, disks: Seq<FileModel>) -> Seq<Seq<char>>
    decreases disks.len(),
{
    if disks.len() == 0 {
        Seq::empty()
    } else {
        spec_pending_entries(p, spec_preorder_forest(disks[0].children, disks[0].name))
            + spec_pending_index(p, disks.drop_first())
    }
}

/// A whole snapshot: one tree per indexed volume, in the order the
/// volumes were indexed.
#[derive(Debug, PartialEq)]
pub struct FileIndex {
    pub disks: Vec<File>,
}

impl View for FileIndex {
    type V = Seq<FileModel>;

    open spec fn view(&self) -> Seq<FileModel> {
        files_model(self.disks@)
    }
}

impl FileIndex {
    /// Grows one volume's tree from its flat records. `first_id` is the
    /// absolute id of the first record handed in, `root_parent` the
    /// sentinel id that marks a record as sitting directly under the
    /// volume root, and `root_name` becomes the root's name. Records must
    /// carry display names, never paths; every node below the root then
    /// carries one too.
    pub fn build_volume(
        root_name: String,
        first_id: u64,
        root_parent: u64,
        records: &Vec<Option<FileRecord>>,
    ) -> (r: File)
        requires
            first_id as int + records@.len() <= u64::MAX as int,
            spec_records_named_ok(records_view(records@)),
        ensures
            r@ == spec_volume_tree(
                records_view(records@),
                root_name@,
                first_id as int,
                root_parent as int,
            ),
            crate::file::spec_forest_names_ok(r@.children),
    {
        let ghost rv = records_view(records@);
        let (mut buckets, roots) = bucket_records(records, first_id, root_parent);
        proof {
            assert(buckets_model(buckets@) =~~= spec_volume_buckets(
                rv,
                first_id as int,
                root_parent as int,
            ));
            assert forall|p: int|
                0 <= p < buckets_model(buckets@).len() implies spec_good_ids(
                rv,
                #[trigger] buckets_model(buckets@)[p],
            ) by {
                lemma_ids_upto_elements(rv, first_id as int + p, rv.len() as int);
            }
            lemma_ids_upto_elements(rv, root_parent as int, rv.len() as int);
        }
        let ghost b0 = buckets_model(buckets@);
        let children = build_forest(records, &mut buckets, &roots, 0);
        proof {
            assert(ids_view(roots@).skip(0) =~= ids_view(roots@));
            lemma_names_forest(rv, b0, ids_view(roots@));
        }
        File { name: root_name, children }
    }

    /// All matches of `params` over this snapshot, in traversal order,
    /// with file contents taken from the given table.
    #[verifier::loop_isolation(false)]
    pub fn search(&self, params: &SearchParams, contents: &Vec<FileContent>) -> (r: Vec<
        (String, String),
    >)
        ensures
            hits_view(r@) == spec_search_index(params@, self@, contents_view(contents@)),
    {
        let ghost cs = contents_view(contents@);
        let mut out: Vec<(String, String)> = Vec::new();
        proof {
            lemma_files_model(self.disks@);
            assert(hits_view(out@) =~= Seq::<(Seq<char>, Seq<char>)>::empty());
            assert(self@.take(0) =~= Seq::<FileModel>::empty());
            assert(spec_search_index(params@, Seq::<FileModel>::empty(), cs) =~= Seq::<
                (Seq<char>, Seq<char>),
            >::empty());
        }
        let mut d: usize = 0;
        while d < self.disks.len()
            invariant
                0 <= d <= self.disks@.len(),
                hits_view(out@) == spec_search_index(params@, self@.take(d as int), cs),
            decreases self.disks@.len() - d,
        {
            let entries = self.disks[d].iter().into_entries();
            let ghost ev = entries_view(entries@);
            let ghost disk = self@[d as int];
            proof {
                assert(file_model(self.disks@[d as int]) == disk);
                assert(ev == spec_preorder_forest(disk.children, disk.name));
            }
            let ghost out_d = out@;
            let mut j: usize = 0;
            while j < entries.len()
                invariant
                    0 <= j <= entries@.len(),
                    hits_view(out@) == hits_view(out_d) + spec_search_entries(
                        params@,
                        ev.take(j as int),
                        cs,
                    ),
                decreases entries@.len() - j,
            {
                let ghost out_j = out@;
                let e = &entries[j];
                let looked = lookup_content(contents, &e.path);
                let copt: Option<&str> = match looked {
                    Some(s) => Some(s.as_str()),
                    None => None,
                };
                if params.process(e.name.as_str(), e.path.as_str(), e.is_leaf, copt) {
                    out.push((e.name.clone(), e.path.clone()));
                    proof {
                        assert(hits_view(out@) =~= hits_view(out_j).push(
                            (e.name@, e.path@),
                        ));
                    }
                }
                proof {
                    assert(ev[j as int] == entries@[j as int]@);
                    assert(ev.take(j + 1) =~= ev.take(j as int).push(ev[j as int]));
                    lemma_search_entries_concat(
                        params@,
                        ev.take(j as int),
                        seq![ev[j as int]],
                        cs,
                    );
                    assert(seq![ev[j as int]].drop_first() =~= Seq::<EntryModel>::empty());
                    assert(spec_search_entries(params@, Seq::<EntryModel>::empty(), cs)
                        =~= Seq::<(Seq<char>, Seq<char>)>::empty());
                    assert(ev.take(j as int).push(ev[j as int]) =~= ev.take(j as int) + seq![
                        ev[j as int],
                    ]);
                    assert(hits_view(out@) =~= hits_view(out_d) + spec_search_entries(
                        params@,
                        ev.take(j + 1),
                        cs,
                    ));
                }
                j += 1;
            }
            proof {
                assert(ev.take(entries@.len() as int) =~= ev);
                assert(self@.take(d + 1) =~= self@.take(d as int).push(disk));
                lemma_search_index_push(params@, self@.take(d as int), disk, cs);
            }
            d += 1;
        }
        proof {
            assert(self@.take(self.disks@.len() as int) =~= self@);
        }
        out
    }

    /// The paths the query cannot be decided without: leaves that pass
    /// the name and path constraints while a content constraint is
    /// present. A caller reads these files and hands their text to
    /// [`Self::search`].
    #[verifier::loop_isolation(false)]
    pub fn search_pending(&self, params: &SearchParams) -> (r: Vec<String>)
        ensures
            strings_view(r@) == spec_pending_index(params@, self@),
    {
        let mut out: Vec<String> = Vec::new();
        proof {
            lemma_files_model(self.disks@);
            assert(strings_view(out@) =~= Seq::<Seq<char>>::empty());
            assert(self@.take(0) =~= Seq::<FileModel>::empty());
            assert(spec_pending_index(params@, Seq::<FileModel>::empty()) =~= Seq::<
                Seq<char>,
            >::empty());
        }
        let has_content = params.content.is_some();
        let mut d: usize = 0;
        while d < self.disks.len()
            invariant
                0 <= d <= self.disks@.len(),
                strings_view(out@) == spec_pending_index(params@, self@.take(d as int)),
            decreases self.disks@.len() - d,
        {
            let entries = self.disks[d].iter().into_entries();
            let ghost ev = entries_view(entries@);
            let ghost disk = self@[d as int];
            proof {
                assert(file_model(self.disks@[d as int]) == disk);
                assert(ev == spec_preorder_forest(disk.children, disk.name));
            }
            let ghost out_d = out@;
            let mut j: usize = 0;
            while j < entries.len()
                invariant
                    0 <= j <= entries@.len(),
                    strings_view(out@) == strings_view(out_d) + spec_pending_entries(
                        params@,
                        ev.take(j as int),
                    ),
                decreases entries@.len() - j,
            {
                let ghost out_j = out@;
                let e = &entries[j];
                if has_content && e.is_leaf {
                    let name_ok = match &params.name {
                        Some(x) => x.process(e.name.as_str()),
                        None => true,
                    };
                    let path_ok = match &params.path {
                        Some(x) => x.process(e.path.as_str()),
                        None => true,
                    };
                    if name_ok && path_ok {
                        out.push(e.path.clone());
                        proof {
                            assert(strings_view(out@) =~= strings_view(out_j).push(e.path@));
                        }
                    }
                }
                proof {
                    assert(ev[j as int] == entries@[j as int]@);
                    assert(ev.take(j + 1) =~= ev.take(j as int).push(ev[j as int]));
                    lemma_pending_entries_concat(params@, ev.take(j as int), seq![ev[j as int]]);
                    assert(seq![ev[j as int]].drop_first() =~= Seq::<EntryModel>::empty());
                    assert(spec_pending_entries(params@, Seq::<EntryModel>::empty()) =~= Seq::<
                        Seq<char>,
                    >::empty());
                    assert(ev.take(j as int).push(ev[j as int]) =~= ev.take(j as int) + seq![
                        ev[j as int],
                    ]);
                    assert(strings_view(out@) =~= strings_view(out_d) + spec_pending_entries(
                        params@,
                        ev.take(j + 1),
                    ));
                }
                j += 1;
            }
            proof {
                assert(ev.take(entries@.len() as int) =~= ev);
                assert(self@.take(d + 1) =~= self@.take(d as int).push(disk));
                lemma_pending_index_push(params@, self@.take(d as int), disk);
            }
            d += 1;
        }
        proof {
            assert(self@.take(self.disks@.len() as int) =~= self@);
        }
        out
    }

    /// Parses query text and searches the snapshot with it in one step.
    pub fn search_str(&self, s: &str, contents: &Vec<FileContent>) -> (r: CaverResult<
        Vec<(String, String)>,
    >)
        ensures
            match r {
                Ok(hits) => {
                    &&& crate::search::parse::spec_parse_params(
                        crate::search::token::spec_tokenize(s@),
                    ) matches Some(pm)
                    &&& hits_view(hits@) == spec_search_index(pm, self@, contents_view(contents@))
                },
                Err(e) => {
                    &&& crate::search::parse::spec_parse_params(
                        crate::search::token::spec_tokenize(s@),
                    ) is None
                    &&& e is ParseError
                },
            },
    {
        match SearchParams::from_str(s) {
            Ok(params) => Ok(self.search(&params, contents)),
            Err(e) => Err(e),
        }
    }
}

pub proof fn lemma_search_index_push(
    p: ParamsModel,
    s: Seq<FileModel>,
    x: FileModel,
    cs: Seq<ContentModel>,
)
    ensures
        spec_search_index(p, s.push(x), cs) == spec_search_index(p, s, cs) + spec_search_entries(
            p,
            spec_preorder_forest(x.children, x.name),
            cs,
        ),
    decreases s.len(),
{
    if s.len() == 0 {
        assert(s.push(x).drop_first() =~= Seq::<FileModel>::empty());
        assert(s.push(x)[0] == x);
        assert(spec_search_index(p, Seq::<FileModel>::empty(), cs) =~= Seq::<
            (Seq<char>, Seq<char>),
        >::empty());
        assert(spec_search_index(p, s.push(x), cs) =~= spec_search_index(p, s, cs)
            + spec_search_entries(p, spec_preorder_forest(x.children, x.name), cs));
    } else {
        lemma_search_index_push(p, s.drop_first(), x, cs);
        assert(s.push(x).drop_first() =~= s.drop_first().push(x));
        assert(s.push(x)[0] == s[0]);
        assert(spec_search_index(p, s.push(x), cs) =~= spec_search_index(p, s, cs)
            + spec_search_entries(p, spec_preorder_forest(x.children, x.name), cs));
    }
}

pub proof fn lemma_pending_index_push(p: ParamsModel, s: Seq<FileModel>, x: FileModel)
    ensures
        spec_pending_index(p, s.push(x)) == spec_pending_index(p, s) + spec_pending_entries(
            p,
            spec_preorder_forest(x.children, x.name),
        ),
    decreases s.len(),
{
    if s.len() == 0 {
        assert(s.push(x).drop_first() =~= Seq::<FileModel>::empty());
        assert(s.push(x)[0] == x);
        assert(spec_pending_index(p, Seq::<FileModel>::empty()) =~= Seq::<Seq<char>>::empty());
        assert(spec_pending_index(p, s.push(x)) =~= spec_pending_index(p, s)
            + spec_pending_entries(p, spec_preorder_forest(x.children, x.name)));
    } else {
        lemma_pending_index_push(p, s.drop_first(), x);
        assert(s.push(x).drop_first() =~= s.drop_first().push(x));
        assert(s.push(x)[0] == s[0]);
        assert(spec_pending_index(p, s.push(x)) =~= spec_pending_index(p, s)
            + spec_pending_entries(p, spec_preorder_forest(x.children, x.name)));
    }
}

} // verus!
