//! Assembly of a version's files into a tree keyed by path segments.
//!
//! The tree is held as its files: each has a non-empty path of segments, a
//! content id and a mode. Directories are what the paths imply: a path that
//! is a proper prefix of a file's path names a directory. No file may stand
//! where a directory is, so no file's path is a proper prefix of another's.
use vstd::prelude::*;
use vstd::seq_lib::to_multiset_contains;

use crate::keyed::{
    copy_bytes, equal_bytes, lemma_find_key, lemma_find_key_result, lemma_upsert_contains,
    unique_keys, upsert,
};

verus! {

/// Mode of a regular, non-executable file.
pub const REGULAR_FILE_MODE: u32 = 0o100644;

/// Mode of a directory entry.
pub const DIRECTORY_MODE: u32 = 0o040000;

pub type PathView = Seq<Seq<u8>>;

/// A file of the tree as values: its path, then its content id and mode.
pub type EntryView = (PathView, (Seq<u8>, u32));

pub open spec fn segments_view(v: Seq<Vec<u8>>) -> PathView {
    v.map_values(|s: Vec<u8>| s@)
}

/// `p` is a proper prefix of `q`: `q` lies inside the directory `p`.
pub open spec fn is_proper_prefix(p: PathView, q: PathView) -> bool {
    p.len() < q.len() && q.subrange(0, p.len() as int) == p
}

/// One path is a directory of the other.
pub open spec fn conflicts(a: PathView, b: PathView) -> bool {
    is_proper_prefix(a, b) || is_proper_prefix(b, a)
}

/// Paths non-empty, each once, none inside another.
pub open spec fn tree_wf(s: Seq<EntryView>) -> bool {
    &&& forall|i: int| 0 <= i < s.len() ==> #[trigger] s[i].0.len() > 0
    &&& forall|i: int, j: int|
        0 <= i < s.len() && 0 <= j < s.len() && i != j ==> #[trigger] s[i].0 != #[trigger] s[j].0
    &&& forall|i: int, j: int|
        0 <= i < s.len() && 0 <= j < s.len() ==> !conflicts(#[trigger] s[i].0, #[trigger] s[j].0)
}

/// Whether `e` can be inserted into `s`.
pub open spec fn fits(s: Seq<EntryView>, e: EntryView) -> bool {
    e.0.len() > 0 && forall|i: int| 0 <= i < s.len() ==> !conflicts(#[trigger] s[i].0, e.0)
}

/// The files after inserting `e` into `s`, or `None` where it does not fit.
pub open spec fn insert_spec(s: Seq<EntryView>, e: EntryView) -> Option<Seq<EntryView>> {
    if fits(s, e) {
        Some(upsert(s, e))
    } else {
        None
    }
}

/// Inserting a file that fits keeps the tree well formed; the file is then
/// in it, with every file of another path that was there.
pub proof fn lemma_insert_keeps_wf(s: Seq<EntryView>, e: EntryView)
    requires
        tree_wf(s),
        fits(s, e),
    ensures
        tree_wf(upsert(s, e)),
        forall|x: EntryView| #[trigger] upsert(s, e).contains(x) <==> (x == e || (s.contains(x) && x.0 != e.0)),
{
    assert(unique_keys(s));
    lemma_upsert_contains(s, e);
    lemma_find_key_result(s, e.0);
    let u = upsert(s, e);
    assert forall|i: int| 0 <= i < u.len() implies #[trigger] u[i].0.len() > 0 && (u[i] == e
        || s.contains(u[i])) by {
        assert(u.contains(u[i]));
    }
    assert forall|i: int, j: int| 0 <= i < u.len() && 0 <= j < u.len() implies !conflicts(
        #[trigger] u[i].0,
        #[trigger] u[j].0,
    ) by {
        assert(u.contains(u[i]));
        assert(u.contains(u[j]));
        if u[i] != e {
            let a = choose|a: int| 0 <= a < s.len() && s[a] == u[i];
            if u[j] != e {
                let b = choose|b: int| 0 <= b < s.len() && s[b] == u[j];
                assert(!conflicts(s[a].0, s[b].0));
            } else {
                assert(!conflicts(s[a].0, e.0));
            }
        } else if u[j] != e {
            let b = choose|b: int| 0 <= b < s.len() && s[b] == u[j];
            assert(!conflicts(s[b].0, e.0));
        }
    }
}

/// The files of a tree do not depend on the order in which two files of
/// different paths, neither inside the other, were inserted: both orders
/// succeed and give the same files.
pub proof fn lemma_insert_order_irrelevant(s: Seq<EntryView>, e1: EntryView, e2: EntryView)
    requires
        tree_wf(s),
        insert_spec(s, e1) is Some,
        insert_spec(s, e2) is Some,
        e1.0 != e2.0,
        !conflicts(e1.0, e2.0),
    ensures
        insert_spec(insert_spec(s, e1)->0, e2) is Some,
        insert_spec(insert_spec(s, e2)->0, e1) is Some,
        insert_spec(insert_spec(s, e1)->0, e2)->0.to_set() == insert_spec(
            insert_spec(s, e2)->0,
            e1,
        )->0.to_set(),
{
    let s1 = upsert(s, e1);
    let s2 = upsert(s, e2);
    lemma_insert_keeps_wf(s, e1);
    lemma_insert_keeps_wf(s, e2);
    assert forall|i: int| 0 <= i < s1.len() implies !conflicts(#[trigger] s1[i].0, e2.0) by {
        assert(s1.contains(s1[i]));
        if s1[i] != e1 {
            let a = choose|a: int| 0 <= a < s.len() && s[a] == s1[i];
            assert(!conflicts(s[a].0, e2.0));
        }
    }
    assert forall|i: int| 0 <= i < s2.len() implies !conflicts(#[trigger] s2[i].0, e1.0) by {
        assert(s2.contains(s2[i]));
        if s2[i] != e2 {
            let a = choose|a: int| 0 <= a < s.len() && s[a] == s2[i];
            assert(!conflicts(s[a].0, e1.0));
        }
    }
    lemma_insert_keeps_wf(s1, e2);
    lemma_insert_keeps_wf(s2, e1);
    assert(upsert(s1, e2).to_set() =~= upsert(s2, e1).to_set());
}

/// The files after inserting each of `es` in order into `s`, or `None`
/// where one does not fit.
pub open spec fn insert_all(s: Seq<EntryView>, es: Seq<EntryView>) -> Option<Seq<EntryView>>
    decreases es.len(),
{
    if es.len() == 0 {
        Some(s)
    } else {
        match insert_all(s, es.drop_last()) {
            Some(t) => insert_spec(t, es.last()),
            None => None,
        }
    }
}

/// Inserting, one by one into an empty tree, files whose paths are
/// non-empty, distinct and none inside another succeeds, and the tree then
/// holds exactly those files.
pub proof fn lemma_insert_all(es: Seq<EntryView>)
    requires
        tree_wf(es),
    ensures
        insert_all(Seq::empty(), es) == Some(es),
    decreases es.len(),
{
    if es.len() > 0 {
        let init = es.drop_last();
        let e = es.last();
        let n = init.len() as int;
        assert forall|i: int, j: int|
            0 <= i < init.len() && 0 <= j < init.len() && i != j implies #[trigger] init[i].0
            != #[trigger] init[j].0 by {
            assert(es[i].0 != es[j].0);
        }
        assert forall|i: int, j: int| 0 <= i < init.len() && 0 <= j < init.len() implies !conflicts(
            #[trigger] init[i].0,
            #[trigger] init[j].0,
        ) by {
            assert(!conflicts(es[i].0, es[j].0));
        }
        assert forall|i: int| 0 <= i < init.len() implies #[trigger] init[i].0.len() > 0 by {
            assert(es[i].0.len() > 0);
        }
        lemma_insert_all(init);
        assert(es[n] == e);
        assert forall|i: int| 0 <= i < init.len() implies !conflicts(#[trigger] init[i].0, e.0) by {
            assert(!conflicts(es[i].0, es[n].0));
        }
        assert forall|t: int| 0 <= t < n implies #[trigger] init[t].0 != e.0 by {
            assert(es[t].0 != es[n].0);
        }
        lemma_find_key(init, e.0, n);
        assert(init.push(e) =~= es);
    }
}

/// The files of a tree do not depend on the order of insertion: two orders
/// of the same files both succeed and give the same set of files.
pub proof fn lemma_insert_order_irrelevant_all(es1: Seq<EntryView>, es2: Seq<EntryView>)
    requires
        tree_wf(es1),
        tree_wf(es2),
        es1.to_multiset() == es2.to_multiset(),
    ensures
        insert_all(Seq::empty(), es1) is Some,
        insert_all(Seq::empty(), es2) is Some,
        insert_all(Seq::empty(), es1)->0.to_set() == insert_all(Seq::empty(), es2)->0.to_set(),
{
    lemma_insert_all(es1);
    lemma_insert_all(es2);
    assert forall|x: EntryView| es1.contains(x) <==> es2.contains(x) by {
        to_multiset_contains(es1, x);
        to_multiset_contains(es2, x);
    }
    assert(es1.to_set() =~= es2.to_set());
}

/// A file cannot be inserted inside another file, nor can a file be
/// inserted where a directory holds an earlier file.
pub proof fn lemma_file_inside_file_fails(s: Seq<EntryView>, e1: EntryView, e2: EntryView)
    requires
        tree_wf(s),
        insert_spec(s, e1) is Some,
        conflicts(e1.0, e2.0),
    ensures
        insert_spec(insert_spec(s, e1)->0, e2) is None,
{
    lemma_insert_keeps_wf(s, e1);
    let u = upsert(s, e1);
    assert(u.contains(e1));
    let i = choose|i: int| 0 <= i < u.len() && u[i] == e1;
    assert(conflicts(u[i].0, e2.0));
}

/// Where a planned tree entry points: a stored file with its content id and
/// mode, or the tree written by an earlier job.
pub ghost enum PlannedRef {
    File(Seq<u8>, u32),
    Tree(int),
}

pub type PlannedView = (Seq<u8>, PlannedRef);

/// The longest path among the files.
pub open spec fn max_depth(s: Seq<EntryView>) -> nat
    decreases s.len(),
{
    if s.len() == 0 {
        0
    } else {
        let m = max_depth(s.drop_last());
        if s.last().0.len() > m {
            s.last().0.len()
        } else {
            m
        }
    }
}

pub proof fn lemma_max_depth(s: Seq<EntryView>)
    ensures
        forall|i: int| 0 <= i < s.len() ==> #[trigger] s[i].0.len() <= max_depth(s),
    decreases s.len(),
{
    if s.len() > 0 {
        lemma_max_depth(s.drop_last());
        assert forall|i: int| 0 <= i < s.len() implies #[trigger] s[i].0.len() <= max_depth(s) by {
            if i < s.len() - 1 {
                assert(s[i] == s.drop_last()[i]);
            }
        }
    }
}

/// Job `k` of `jobs` writes the directory `dir` of the files `s`: it lists
/// each entry of `dir` once, a file with its content id and mode, a
/// directory as the tree of an earlier job that writes that directory.
pub open spec fn job_ok(s: Seq<EntryView>, jobs: Seq<Seq<PlannedView>>, k: int, dir: PathView) -> bool
    decreases k,
{
    &&& 0 <= k < jobs.len()
    &&& forall|a: int, b: int|
        0 <= a < jobs[k].len() && 0 <= b < jobs[k].len() && a != b ==> #[trigger] jobs[k][a].0
            != #[trigger] jobs[k][b].0
    &&& forall|t: int|
        0 <= t < s.len() && is_proper_prefix(dir, #[trigger] s[t].0) ==> exists|a: int|
            0 <= a < jobs[k].len() && jobs[k][a].0 == s[t].0[dir.len() as int]
    &&& forall|a: int|
        #![trigger jobs[k][a]]
        0 <= a < jobs[k].len() ==> match jobs[k][a].1 {
            PlannedRef::File(id, mode) => exists|t: int|
                0 <= t < s.len() && s[t] == (dir.push(jobs[k][a].0), (id, mode)),
            PlannedRef::Tree(j) => 0 <= j < k && (exists|t: int|
                0 <= t < s.len() && is_proper_prefix(dir.push(jobs[k][a].0), s[t].0)) && job_ok(
                s,
                jobs,
                j,
                dir.push(jobs[k][a].0),
            ),
        }
}

/// A job keeps its meaning when more jobs are appended.
pub proof fn lemma_job_ok_extends(
    s: Seq<EntryView>,
    jobs: Seq<Seq<PlannedView>>,
    more: Seq<Seq<PlannedView>>,
    k: int,
    dir: PathView,
)
    requires
        job_ok(s, jobs, k, dir),
        jobs.len() <= more.len(),
        forall|i: int| 0 <= i < jobs.len() ==> #[trigger] more[i] == jobs[i],
    ensures
        job_ok(s, more, k, dir),
    decreases k,
{
    assert(more[k] == jobs[k]);
    assert forall|a: int| #![trigger more[k][a]] 0 <= a < more[k].len() implies match more[k][a].1 {
        PlannedRef::File(id, mode) => exists|t: int|
            0 <= t < s.len() && s[t] == (dir.push(more[k][a].0), (id, mode)),
        PlannedRef::Tree(j) => 0 <= j < k && (exists|t: int|
            0 <= t < s.len() && is_proper_prefix(dir.push(more[k][a].0), s[t].0)) && job_ok(
            s,
            more,
            j,
            dir.push(more[k][a].0),
        ),
    } by {
        assert(jobs[k][a] == more[k][a]);
        match more[k][a].1 {
            PlannedRef::Tree(j) => {
                lemma_job_ok_extends(s, jobs, more, j, dir.push(more[k][a].0));
            },
            _ => {},
        }
    }
}

/// The file `x` is reached from job `k`, which writes directory `dir`.
pub open spec fn in_plan(jobs: Seq<Seq<PlannedView>>, k: int, dir: PathView, x: EntryView) -> bool
    decreases k,
{
    0 <= k < jobs.len() && exists|a: int|
        #![trigger jobs[k][a]]
        0 <= a < jobs[k].len() && match jobs[k][a].1 {
            PlannedRef::File(id, mode) => x == (dir.push(jobs[k][a].0), (id, mode)),
            PlannedRef::Tree(j) => 0 <= j < k && in_plan(jobs, j, dir.push(jobs[k][a].0), x),
        }
}

proof fn lemma_push_prefix(dir: PathView, n: Seq<u8>, q: PathView)
    requires
        q.len() >= dir.len() + 1,
        q.subrange(0, dir.len() + 1 as int) == dir.push(n),
    ensures
        is_proper_prefix(dir, q),
{
    assert(q.subrange(0, dir.len() as int) =~= dir.push(n).subrange(0, dir.len() as int));
    assert(dir.push(n).subrange(0, dir.len() as int) =~= dir);
}

proof fn lemma_split_prefix(dir: PathView, q: PathView)
    requires
        is_proper_prefix(dir, q),
    ensures
        q.subrange(0, dir.len() + 1 as int) == dir.push(q[dir.len() as int]),
        q.len() == dir.len() + 1 ==> q == dir.push(q[dir.len() as int]),
        q.len() > dir.len() + 1 ==> is_proper_prefix(dir.push(q[dir.len() as int]), q),
{
    assert(q.subrange(0, dir.len() + 1 as int) =~= dir.push(q[dir.len() as int])) by {
        assert forall|i: int| 0 <= i < dir.len() implies q[i] == dir[i] by {
            assert(q.subrange(0, dir.len() as int)[i] == q[i]);
        }
    }
    if q.len() == dir.len() + 1 {
        assert(q =~= q.subrange(0, dir.len() + 1 as int));
    }
}

/// Job `k` reaches exactly the files under its directory.
pub proof fn lemma_job_files(s: Seq<EntryView>, jobs: Seq<Seq<PlannedView>>, k: int, dir: PathView)
    requires
        tree_wf(s),
        job_ok(s, jobs, k, dir),
    ensures
        forall|x: EntryView|
            #[trigger] in_plan(jobs, k, dir, x) <==> (s.contains(x) && is_proper_prefix(dir, x.0)),
    decreases k,
{
    assert forall|x: EntryView|
        #[trigger] in_plan(jobs, k, dir, x) <==> (s.contains(x) && is_proper_prefix(dir, x.0)) by {
        if in_plan(jobs, k, dir, x) {
            let a = choose|a: int|
                #![trigger jobs[k][a]]
                0 <= a < jobs[k].len() && match jobs[k][a].1 {
                    PlannedRef::File(id, mode) => x == (dir.push(jobs[k][a].0), (id, mode)),
                    PlannedRef::Tree(j) => 0 <= j < k && in_plan(jobs, j, dir.push(jobs[k][a].0), x),
                };
            let p = dir.push(jobs[k][a].0);
            match jobs[k][a].1 {
                PlannedRef::File(id, mode) => {
                    let t = choose|t: int| 0 <= t < s.len() && s[t] == (p, (id, mode));
                    assert(s[t] == x);
                    assert(x.0.subrange(0, dir.len() + 1 as int) =~= p);
                    lemma_push_prefix(dir, jobs[k][a].0, x.0);
                },
                PlannedRef::Tree(j) => {
                    lemma_job_files(s, jobs, j, p);
                    assert(x.0.subrange(0, dir.len() + 1 as int) =~= p);
                    lemma_push_prefix(dir, jobs[k][a].0, x.0);
                },
            }
        }
        if s.contains(x) && is_proper_prefix(dir, x.0) {
            let t = choose|t: int| 0 <= t < s.len() && s[t] == x;
            assert(is_proper_prefix(dir, s[t].0));
            let a = choose|a: int| 0 <= a < jobs[k].len() && jobs[k][a].0 == s[t].0[dir.len() as int];
            let n = jobs[k][a].0;
            let p = dir.push(n);
            lemma_split_prefix(dir, x.0);
            match jobs[k][a].1 {
                PlannedRef::File(id, mode) => {
                    let t2 = choose|t2: int| 0 <= t2 < s.len() && s[t2] == (p, (id, mode));
                    if x.0.len() > dir.len() + 1 {
                        assert(conflicts(s[t2].0, s[t].0));
                    } else {
                        assert(s[t].0 == s[t2].0);
                        assert(t == t2);
                    }
                },
                PlannedRef::Tree(j) => {
                    let t3 = choose|t3: int| 0 <= t3 < s.len() && is_proper_prefix(p, s[t3].0);
                    if x.0.len() > dir.len() + 1 {
                        lemma_job_files(s, jobs, j, p);
                        assert(in_plan(jobs, j, p, x));
                    } else {
                        assert(conflicts(s[t].0, s[t3].0));
                    }
                },
            }
        }
    }
}

/// Persisting a tree and reading the written trees back from the last job
/// gives exactly the tree's files.
pub proof fn lemma_persist_round_trip(s: Seq<EntryView>, jobs: Seq<Seq<PlannedView>>)
    requires
        tree_wf(s),
        jobs.len() > 0,
        job_ok(s, jobs, jobs.len() - 1, Seq::empty()),
    ensures
        forall|x: EntryView| #[trigger] in_plan(jobs, jobs.len() - 1, Seq::empty(), x) <==> s.contains(x),
{
    lemma_job_files(s, jobs, jobs.len() - 1, Seq::empty());
    assert forall|x: EntryView| s.contains(x) implies is_proper_prefix(Seq::<Seq<u8>>::empty(), x.0) by {
        let t = choose|t: int| 0 <= t < s.len() && s[t] == x;
        assert(s[t].0.len() > 0);
        assert(x.0.subrange(0, 0) =~= Seq::<Seq<u8>>::empty());
    }
}

#[derive(Debug, Clone, Copy, PartialEq, Eq, Structural)]
pub enum TreeError {
    /// A file was given an empty path.
    EmptyPath,
    /// A file's path lies inside another file, or a file would stand where a
    /// directory is.
    Collision,
}

/// What to do with one entry of a version's archive stream.
#[derive(Debug, Clone, Copy, PartialEq, Eq, Structural)]
pub enum EntryAction {
    /// A directory: implied by the paths of its files, not stored.
    Skip,
    /// A file with data: store its data, then add it to the tree.
    Store,
    /// A file without data: the stream is broken.
    MissingData,
}

pub fn entry_action(is_dir: bool, has_data: bool) -> (r: EntryAction)
    ensures
        is_dir ==> r == EntryAction::Skip,
        !is_dir && has_data ==> r == EntryAction::Store,
        !is_dir && !has_data ==> r == EntryAction::MissingData,
{
    if is_dir {
        EntryAction::Skip
    } else if has_data {
        EntryAction::Store
    } else {
        EntryAction::MissingData
    }
}

/// The id under which the destination store keeps an object.
pub struct ObjectId {
    pub bytes: Vec<u8>,
}

impl View for ObjectId {
    type V = Seq<u8>;

    open spec fn view(&self) -> Seq<u8> {
        self.bytes@
    }
}

impl ObjectId {
    pub fn copy(&self) -> (r: ObjectId)
        ensures
            r@ == self@,
    {
        ObjectId { bytes: copy_bytes(&self.bytes) }
    }
}

pub struct TreeEntry {
    pub path: Vec<Vec<u8>>,
    pub id: ObjectId,
    pub mode: u32,
}

impl View for TreeEntry {
    type V = EntryView;

    open spec fn view(&self) -> EntryView {
        (segments_view(self.path@), (self.id@, self.mode))
    }
}

pub open spec fn entries_view(v: Seq<TreeEntry>) -> Seq<EntryView> {
    v.map_values(|e: TreeEntry| e@)
}

/// The files of one version, being assembled.
pub struct FileTree {
    entries: Vec<TreeEntry>,
}

impl View for FileTree {
    type V = Seq<EntryView>;

    closed spec fn view(&self) -> Seq<EntryView> {
        entries_view(self.entries@)
    }
}

/// An entry of one directory, as values: its name, and its content id and
/// mode where it is a file (`None` for a directory).
pub type ChildView = (Seq<u8>, Option<(Seq<u8>, u32)>);

/// `c` is an entry of directory `dir` in the files `s`.
pub open spec fn is_child(s: Seq<EntryView>, dir: PathView, c: ChildView) -> bool {
    match c.1 {
        Some(leaf) => exists|i: int| 0 <= i < s.len() && s[i] == (dir.push(c.0), leaf),
        None => exists|i: int| 0 <= i < s.len() && is_proper_prefix(dir.push(c.0), s[i].0),
    }
}

/// An entry of one directory.
pub struct Child {
    pub name: Vec<u8>,
    /// The content id and mode of a file; `None` for a directory.
    pub file: Option<(ObjectId, u32)>,
}

impl View for Child {
    type V = ChildView;

    open spec fn view(&self) -> ChildView {
        (
            self.name@,
            match self.file {
                Some((id, mode)) => Some((id@, mode)),
                None => None,
            },
        )
    }
}

pub open spec fn children_view(v: Seq<Child>) -> Seq<ChildView> {
    v.map_values(|c: Child| c@)
}

/// Where a planned tree entry points.
pub enum PlannedTarget {
    /// A stored file, with its content id and mode.
    File(ObjectId, u32),
    /// The tree written by the job of this index.
    Tree(usize),
}

/// One entry of a tree to write.
pub struct PlannedEntry {
    pub name: Vec<u8>,
    pub target: PlannedTarget,
}

impl View for PlannedEntry {
    type V = PlannedView;

    open spec fn view(&self) -> PlannedView {
        (
            self.name@,
            match self.target {
                PlannedTarget::File(id, mode) => PlannedRef::File(id@, mode),
                PlannedTarget::Tree(j) => PlannedRef::Tree(j as int),
            },
        )
    }
}

/// One tree to write: its entries.
pub struct TreeJob {
    pub entries: Vec<PlannedEntry>,
}

pub open spec fn planned_view(v: Seq<PlannedEntry>) -> Seq<PlannedView> {
    v.map_values(|e: PlannedEntry| e@)
}

pub open spec fn jobs_view(v: Seq<TreeJob>) -> Seq<Seq<PlannedView>> {
    v.map_values(|j: TreeJob| planned_view(j.entries@))
}

fn find_child(r: &Vec<Child>, name: &Vec<u8>) -> (found: bool)
    ensures
        found <==> exists|i: int| 0 <= i < r.len() && #[trigger] r@[i].name@ == name@,
{
    let mut i: usize = 0;
    while i < r.len()
        invariant
            i <= r.len(),
            forall|t: int| 0 <= t < i ==> #[trigger] r@[t].name@ != name@,
        decreases r.len() - i,
    {
        if equal_bytes(&r[i].name, name) {
            return true;
        }
        i += 1;
    }
    false
}

fn same_path(a: &Vec<Vec<u8>>, b: &Vec<Vec<u8>>) -> (r: bool)
    ensures
        r == (segments_view(a@) == segments_view(b@)),
{
    if a.len() != b.len() {
        proof {
            assert(segments_view(a@).len() != segments_view(b@).len());
        }
        return false;
    }
    let mut i: usize = 0;
    while i < a.len()
        invariant
            i <= a.len() == b.len(),
            forall|t: int| 0 <= t < i ==> a@[t]@ == b@[t]@,
        decreases a.len() - i,
    {
        if !equal_bytes(&a[i], &b[i]) {
            proof {
                assert(segments_view(a@)[i as int] != segments_view(b@)[i as int]);
            }
            return false;
        }
        i += 1;
    }
    proof {
        assert(segments_view(a@) =~= segments_view(b@));
    }
    true
}

/// Whether `p` is a proper prefix of `q`.
fn proper_prefix(p: &Vec<Vec<u8>>, q: &Vec<Vec<u8>>) -> (r: bool)
    ensures
        r == is_proper_prefix(segments_view(p@), segments_view(q@)),
{
    let ghost pv = segments_view(p@);
    let ghost qv = segments_view(q@);
    if p.len() >= q.len() {
        return false;
    }
    let mut i: usize = 0;
    while i < p.len()
        invariant
            i <= p.len() < q.len(),
            pv == segments_view(p@),
            qv == segments_view(q@),
            forall|t: int| 0 <= t < i ==> pv[t] == qv[t],
        decreases p.len() - i,
    {
        if !equal_bytes(&p[i], &q[i]) {
            proof {
                assert(qv.subrange(0, pv.len() as int)[i as int] == qv[i as int]);
            }
            return false;
        }
        i += 1;
    }
    proof {
        assert(qv.subrange(0, pv.len() as int) =~= pv);
    }
    true
}

impl FileTree {
    pub closed spec fn wf(&self) -> bool {
        tree_wf(self@)
    }

    pub fn new() -> (r: FileTree)
        ensures
            r.wf(),
            r@ == Seq::<EntryView>::empty(),
    {
        let r = FileTree { entries: Vec::new() };
        proof {
            assert(r@ =~= Seq::<EntryView>::empty());
        }
        r
    }

    pub fn len(&self) -> (r: usize)
        ensures
            r == self@.len(),
    {
        self.entries.len()
    }

    /// The entries of directory `dir`, each name once. Persisting the tree
    /// bottom-up writes the directories among them before `dir` itself.
    pub fn children(&self, dir: &Vec<Vec<u8>>) -> (r: Vec<Child>)
        requires
            self.wf(),
        ensures
            forall|i: int, j: int|
                0 <= i < r.len() && 0 <= j < r.len() && i != j ==> #[trigger] r@[i].name@
                    != #[trigger] r@[j].name@,
            forall|i: int|
                0 <= i < r.len() ==> is_child(self@, segments_view(dir@), #[trigger] r@[i]@),
            forall|t: int|
                0 <= t < self@.len() && is_proper_prefix(segments_view(dir@), #[trigger] self@[t].0)
                    ==> exists|i: int|
                    0 <= i < r.len() && r@[i].name@ == self@[t].0[dir@.len() as int],
    {
        let ghost s = self@;
        let ghost d = segments_view(dir@);
        let mut r: Vec<Child> = Vec::new();
        let mut t: usize = 0;
        while t < self.entries.len()
            invariant
                t <= self.entries.len(),
                s == self@,
                d == segments_view(dir@),
                forall|i: int, j: int|
                    0 <= i < r.len() && 0 <= j < r.len() && i != j ==> #[trigger] r@[i].name@
                        != #[trigger] r@[j].name@,
                forall|i: int| 0 <= i < r.len() ==> is_child(s, d, #[trigger] r@[i]@),
                forall|u: int|
                    0 <= u < t && is_proper_prefix(d, #[trigger] s[u].0) ==> exists|i: int|
                        0 <= i < r.len() && r@[i].name@ == s[u].0[d.len() as int],
            decreases self.entries.len() - t,
        {
            let e = &self.entries[t];
            assert(s[t as int] == e@);
            if proper_prefix(dir, &e.path) {
                let seg = &e.path[dir.len()];
                assert(seg@ == s[t as int].0[d.len() as int]);
                if !find_child(&r, seg) {
                    let file = if e.path.len() == dir.len() + 1 {
                        proof {
                            assert(s[t as int].0 =~= d.push(seg@));
                        }
                        Some((e.id.copy(), e.mode))
                    } else {
                        proof {
                            assert(s[t as int].0.subrange(0, d.len() + 1 as int) =~= d.push(seg@));
                        }
                        None
                    };
                    let c = Child { name: copy_bytes(seg), file };
                    let ghost old_r = r@;
                    r.push(c);
                    proof {
                        assert(r@[old_r.len() as int]@.0 == seg@);
                        assert forall|i: int| 0 <= i < r.len() implies is_child(
                            s,
                            d,
                            #[trigger] r@[i]@,
                        ) by {
                            if i < old_r.len() {
                                assert(r@[i] == old_r[i]);
                            }
                        }
                        assert forall|u: int|
                            0 <= u < t + 1 && is_proper_prefix(d, #[trigger] s[u].0) implies exists|
                            i: int,
                        | 0 <= i < r.len() && r@[i].name@ == s[u].0[d.len() as int] by {
                            if u < t {
                                let i = choose|i: int|
                                    0 <= i < old_r.len() && old_r[i].name@ == s[u].0[d.len() as int];
                                assert(r@[i] == old_r[i]);
                            } else {
                                assert(r@[old_r.len() as int].name@ == s[u].0[d.len() as int]);
                            }
                        }
                    }
                }
            }
            t += 1;
        }
        r
    }

    /// The trees to write to persist this tree, subdirectories before the
    /// directories that hold them; the last job writes the root.
    pub fn persist_plan(&self) -> (r: Vec<TreeJob>)
        requires
            self.wf(),
        ensures
            r.len() > 0,
            job_ok(self@, jobs_view(r@), r.len() - 1, Seq::empty()),
    {
        let mut jobs: Vec<TreeJob> = Vec::new();
        let mut root: Vec<Vec<u8>> = Vec::new();
        proof {
            lemma_max_depth(self@);
            assert(segments_view(root@) =~= Seq::<Seq<u8>>::empty());
        }
        self.plan_dir(&mut root, &mut jobs);
        jobs
    }

    fn plan_dir(&self, dir: &mut Vec<Vec<u8>>, jobs: &mut Vec<TreeJob>) -> (k: usize)
        requires
            self.wf(),
            old(dir)@.len() <= max_depth(self@),
            forall|i: int| 0 <= i < self@.len() ==> #[trigger] self@[i].0.len() <= max_depth(self@),
        ensures
            segments_view(final(dir)@) == segments_view(old(dir)@),
            final(jobs)@.len() > old(jobs)@.len(),
            k == final(jobs)@.len() - 1,
            forall|i: int|
                0 <= i < old(jobs)@.len() ==> #[trigger] jobs_view(final(jobs)@)[i] == jobs_view(
                    old(jobs)@,
                )[i],
            job_ok(self@, jobs_view(final(jobs)@), k as int, segments_view(old(dir)@)),
        decreases max_depth(self@) - old(dir)@.len(),
    {
        let ghost s = self@;
        let ghost d = segments_view(dir@);
        let ghost start = jobs_view(jobs@);
        let children = self.children(dir);
        let mut entries: Vec<PlannedEntry> = Vec::new();
        let mut a: usize = 0;
        while a < children.len()
            invariant
                a <= children.len(),
                s == self@,
                self.wf(),
                d == segments_view(dir@),
                d.len() == old(dir)@.len(),
                d.len() <= max_depth(s),
                forall|i: int| 0 <= i < s.len() ==> #[trigger] s[i].0.len() <= max_depth(s),
                entries.len() == a,
                jobs@.len() >= start.len(),
                forall|i: int| 0 <= i < start.len() ==> #[trigger] jobs_view(jobs@)[i] == start[i],
                forall|i: int, j: int|
                    0 <= i < children.len() && 0 <= j < children.len() && i != j
                        ==> #[trigger] children@[i].name@ != #[trigger] children@[j].name@,
                forall|i: int| 0 <= i < children.len() ==> is_child(s, d, #[trigger] children@[i]@),
                forall|t: int|
                    0 <= t < s.len() && is_proper_prefix(d, #[trigger] s[t].0) ==> exists|i: int|
                        0 <= i < children.len() && children@[i].name@ == s[t].0[d.len() as int],
                forall|b: int|
                    #![trigger entries@[b]]
                    0 <= b < a ==> entries@[b].name@ == children@[b].name@ && match entries@[b]@.1 {
                        PlannedRef::File(id, mode) => children@[b]@.1 == Some((id, mode)),
                        PlannedRef::Tree(j) => children@[b]@.1 is None && 0 <= j < jobs@.len()
                            && job_ok(s, jobs_view(jobs@), j, d.push(children@[b].name@)),
                    },
            decreases children.len() - a,
        {
            let c = &children[a];
            let ghost before = jobs_view(jobs@);
            let ghost old_entries = entries@;
            match &c.file {
                Some((id, mode)) => {
                    entries.push(PlannedEntry { name: copy_bytes(&c.name), target: PlannedTarget::File(id.copy(), *mode) });
                    proof {
                        assert forall|b: int|
                            #![trigger entries@[b]]
                            0 <= b < a + 1 implies entries@[b].name@ == children@[b].name@ && match entries@[b]@.1 {
                            PlannedRef::File(id, mode) => children@[b]@.1 == Some((id, mode)),
                            PlannedRef::Tree(j) => children@[b]@.1 is None && 0 <= j < jobs@.len()
                                && job_ok(s, jobs_view(jobs@), j, d.push(children@[b].name@)),
                        } by {
                            if b < a {
                                assert(entries@[b] == old_entries[b]);
                            }
                        }
                    }
                },
                None => {
                    proof {
                        assert(is_child(s, d, children@[a as int]@));
                        let t = choose|t: int|
                            0 <= t < s.len() && is_proper_prefix(d.push(c.name@), s[t].0);
                        assert(s[t].0.len() <= max_depth(s));
                    }
                    dir.push(copy_bytes(&c.name));
                    proof {
                        assert(segments_view(dir@) =~= d.push(c.name@));
                        assert(dir@.len() == old(dir)@.len() + 1);
                        assert(dir@.len() <= max_depth(self@));
                    }
                    let j = self.plan_dir(dir, jobs);
                    let ghost after_inner = dir@;
                    dir.pop();
                    proof {
                        assert(segments_view(after_inner) =~= d.push(c.name@));
                        assert(segments_view(dir@) =~= segments_view(after_inner).drop_last());
                        assert(segments_view(dir@) =~= d);
                    }
                    entries.push(PlannedEntry { name: copy_bytes(&c.name), target: PlannedTarget::Tree(j) });
                    proof {
                        assert forall|b: int|
                            #![trigger entries@[b]]
                            0 <= b < a + 1 implies entries@[b].name@ == children@[b].name@ && match entries@[b]@.1 {
                            PlannedRef::File(id, mode) => children@[b]@.1 == Some((id, mode)),
                            PlannedRef::Tree(j2) => children@[b]@.1 is None && 0 <= j2 < jobs@.len()
                                && job_ok(s, jobs_view(jobs@), j2, d.push(children@[b].name@)),
                        } by {
                            if b < a {
                                assert(entries@[b] == old_entries[b]);
                                match entries@[b]@.1 {
                                    PlannedRef::Tree(j2) => {
                                        lemma_job_ok_extends(s, before, jobs_view(jobs@), j2, d.push(children@[b].name@));
                                    },
                                    _ => {},
                                }
                            }
                        }
                    }
                },
            }
            a += 1;
        }
        let ghost before = jobs_view(jobs@);
        let ghost pv = planned_view(entries@);
        jobs.push(TreeJob { entries });
        let k = jobs.len() - 1;
        proof {
            let after = jobs_view(jobs@);
            assert(after =~= before.push(pv));
            assert(after[k as int] == pv);
            assert forall|i: int| 0 <= i < before.len() implies #[trigger] after[i] == before[i] by {}
            assert forall|a: int, b: int|
                0 <= a < pv.len() && 0 <= b < pv.len() && a != b implies #[trigger] pv[a].0
                != #[trigger] pv[b].0 by {
                assert(children@[a].name@ != children@[b].name@);
            }
            assert forall|t: int|
                0 <= t < s.len() && is_proper_prefix(d, #[trigger] s[t].0) implies exists|a: int|
                0 <= a < pv.len() && pv[a].0 == s[t].0[d.len() as int] by {
                let i = choose|i: int|
                    0 <= i < children.len() && children@[i].name@ == s[t].0[d.len() as int];
                assert(pv[i].0 == children@[i].name@);
            }
            assert forall|a: int| #![trigger after[k as int][a]] 0 <= a < after[k as int].len() implies match after[k as int][a].1 {
                PlannedRef::File(id, mode) => exists|t: int|
                    0 <= t < s.len() && s[t] == (d.push(after[k as int][a].0), (id, mode)),
                PlannedRef::Tree(j) => 0 <= j < k && (exists|t: int|
                    0 <= t < s.len() && is_proper_prefix(d.push(after[k as int][a].0), s[t].0)) && job_ok(
                    s,
                    after,
                    j,
                    d.push(after[k as int][a].0),
                ),
            } by {
                assert(pv[a] == entries@[a]@);
                assert(is_child(s, d, children@[a]@));
                match pv[a].1 {
                    PlannedRef::Tree(j) => {
                        lemma_job_ok_extends(s, before, after, j, d.push(pv[a].0));
                    },
                    _ => {},
                }
            }
            assert(job_ok(s, after, k as int, d));
        }
        k
    }

    /// Adds a file of the stream: every file is stored as a regular,
    /// non-executable file.
    pub fn add_file(&mut self, path: Vec<Vec<u8>>, id: ObjectId) -> (r: Result<(), TreeError>)
        requires
            old(self).wf(),
        ensures
            final(self).wf(),
            r is Ok ==> final(self)@ == upsert(
                old(self)@,
                (segments_view(path@), (id@, REGULAR_FILE_MODE)),
            ),
            r is Ok <==> fits(old(self)@, (segments_view(path@), (id@, REGULAR_FILE_MODE))),
            segments_view(path@).len() == 0 ==> r == Err::<(), TreeError>(TreeError::EmptyPath),
            segments_view(path@).len() > 0 && !fits(
                old(self)@,
                (segments_view(path@), (id@, REGULAR_FILE_MODE)),
            ) ==> r == Err::<(), TreeError>(TreeError::Collision),
            r is Err ==> final(self)@ == old(self)@,
    {
        self.insert(path, id, REGULAR_FILE_MODE)
    }

    /// Records the file `path` with its content id and mode. A file already
    /// at `path` is replaced; a path inside a file, or a file where a
    /// directory is, fails and leaves the tree as it was.
    pub fn insert(&mut self, path: Vec<Vec<u8>>, id: ObjectId, mode: u32) -> (r: Result<(), TreeError>)
        requires
            old(self).wf(),
        ensures
            final(self).wf(),
            segments_view(path@).len() == 0 ==> r == Err::<(), TreeError>(TreeError::EmptyPath),
            segments_view(path@).len() > 0 && !fits(old(self)@, (segments_view(path@), (id@, mode)))
                ==> r == Err::<(), TreeError>(TreeError::Collision),
            r is Ok <==> fits(old(self)@, (segments_view(path@), (id@, mode))),
            r is Ok ==> final(self)@ == upsert(old(self)@, (segments_view(path@), (id@, mode))),
            r is Err ==> final(self)@ == old(self)@,
    {
        let ghost e: EntryView = (segments_view(path@), (id@, mode));
        let ghost s = self@;
        if path.len() == 0 {
            return Err(TreeError::EmptyPath);
        }
        let mut found: Option<usize> = None;
        let mut i: usize = 0;
        while i < self.entries.len()
            invariant
                i <= self.entries.len(),
                s == self@,
                s == old(self)@,
                self.wf(),
                e == (segments_view(path@), (id@, mode)),
                e.0.len() > 0,
                forall|t: int| 0 <= t < i ==> !conflicts(#[trigger] s[t].0, e.0),
                found matches Some(x) ==> x < i && s[x as int].0 == e.0,
                found is None ==> forall|t: int| 0 <= t < i ==> #[trigger] s[t].0 != e.0,
            decreases self.entries.len() - i,
        {
            assert(s[i as int] == self.entries@[i as int]@);
            if proper_prefix(&self.entries[i].path, &path) || proper_prefix(
                &path,
                &self.entries[i].path,
            ) {
                proof {
                    assert(conflicts(s[i as int].0, e.0));
                }
                return Err(TreeError::Collision);
            }
            if found.is_none() && same_path(&self.entries[i].path, &path) {
                found = Some(i);
            }
            i += 1;
        }
        let entry = TreeEntry { path, id, mode };
        assert(entry@ == e);
        match found {
            Some(x) => {
                proof {
                    assert forall|t: int| 0 <= t < x implies s[t].0 != e.0 by {
                        assert(s[t].0 != s[x as int].0);
                    }
                    lemma_find_key(s, e.0, x as int);
                }
                self.entries.set(x, entry);
                proof {
                    assert(self@ =~= s.update(x as int, e));
                }
            },
            None => {
                proof {
                    lemma_find_key(s, e.0, s.len() as int);
                }
                self.entries.push(entry);
                proof {
                    assert(self@ =~= s.push(e));
                    assert(self@[s.len() as int] == e);
                }
            },
        }
        Ok(())
    }
}

} // verus!
