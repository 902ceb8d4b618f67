//! Grouping of finished hashing jobs by digest.
//!
//! Records are taken in the order in which their jobs completed. A canonical
//! path names one filesystem object, so a record whose path was already
//! recorded is the same file reached twice (through a symbolic link, say): it
//! is collapsed into the first record and counted once.
use vstd::prelude::*;
use crate::digest::FileDigest;

verus! {

/// What kind of operation failed for one entry of the scan.
#[derive(Clone, Copy, Debug, PartialEq, Eq, Structural)]
pub enum ErrorKind {
    DirectoryRead,
    Metadata,
    Open,
    Read,
    Canonicalize,
}

/// A failure local to one directory or file; the scan goes on without it.
#[derive(Debug)]
pub struct ScanError {
    pub kind: ErrorKind,
    pub path: String,
}

/// A scan error as a mathematical value.
pub struct ErrorView {
    pub kind: ErrorKind,
    pub path: Seq<char>,
}

impl View for ScanError {
    type V = ErrorView;

    open spec fn view(&self) -> ErrorView {
        ErrorView { kind: self.kind, path: self.path@ }
    }
}

impl ScanError {
    /// A copy of this error.
    pub fn copy(&self) -> (r: ScanError)
        ensures
            r@ == self@,
    {
        ScanError { kind: self.kind, path: self.path.clone() }
    }
}

/// The result of one successful hashing job.
#[derive(Debug)]
pub struct FileRecord {
    pub path: String,
    pub digest: FileDigest,
}

/// A file record as a mathematical value.
pub struct RecordView {
    pub path: Seq<char>,
    pub digest: Seq<u8>,
}

impl View for FileRecord {
    type V = RecordView;

    open spec fn view(&self) -> RecordView {
        RecordView { path: self.path@, digest: self.digest@ }
    }
}

/// Paths that share one digest.
#[derive(Debug)]
pub struct DuplicateGroup {
    pub digest: FileDigest,
    pub paths: Vec<String>,
}

/// The contents of a sequence of strings.
pub open spec fn strs(v: Seq<String>) -> Seq<Seq<char>> {
    v.map_values(|s: String| s@)
}

/// The records of the successful jobs, in order.
pub open spec fn hashed(outs: Seq<Result<FileRecord, ScanError>>) -> Seq<RecordView>
    decreases outs.len(),
{
    if outs.len() == 0 {
        Seq::empty()
    } else {
        let prev = hashed(outs.drop_last());
        match outs.last() {
            Ok(r) => prev.push(r@),
            Err(_) => prev,
        }
    }
}

/// The errors of the failed jobs, in order.
pub open spec fn failed(outs: Seq<Result<FileRecord, ScanError>>) -> Seq<ErrorView>
    decreases outs.len(),
{
    if outs.len() == 0 {
        Seq::empty()
    } else {
        let prev = failed(outs.drop_last());
        match outs.last() {
            Ok(_) => prev,
            Err(e) => prev.push(e@),
        }
    }
}

/// Whether some record has path `p`.
pub open spec fn path_seen(recs: Seq<RecordView>, p: Seq<char>) -> bool {
    exists|i: int| 0 <= i < recs.len() && #[trigger] recs[i].path == p
}

/// The records left once each later record of an already seen path is dropped.
pub open spec fn kept(recs: Seq<RecordView>) -> Seq<RecordView>
    decreases recs.len(),
{
    if recs.len() == 0 {
        Seq::empty()
    } else {
        let prev = kept(recs.drop_last());
        if path_seen(prev, recs.last().path) {
            prev
        } else {
            prev.push(recs.last())
        }
    }
}

/// The paths of the records with digest `d`, in order.
pub open spec fn paths_for(recs: Seq<RecordView>, d: Seq<u8>) -> Seq<Seq<char>>
    decreases recs.len(),
{
    if recs.len() == 0 {
        Seq::empty()
    } else {
        let prev = paths_for(recs.drop_last(), d);
        if recs.last().digest == d {
            prev.push(recs.last().path)
        } else {
            prev
        }
    }
}

/// Every path of one file has one digest.
pub open spec fn consistent(recs: Seq<RecordView>) -> bool {
    forall|i: int, j: int|
        0 <= i < recs.len() && 0 <= j < recs.len() && #[trigger] recs[i].path == #[trigger] recs[j].path
            ==> recs[i].digest == recs[j].digest
}

proof fn lemma_kept_seen(recs: Seq<RecordView>, p: Seq<char>)
    ensures
        path_seen(kept(recs), p) <==> path_seen(recs, p),
    decreases recs.len(),
{
    if recs.len() > 0 {
        let init = recs.drop_last();
        lemma_kept_seen(init, p);
        if path_seen(init, p) {
            let i = choose|i: int| 0 <= i < init.len() && #[trigger] init[i].path == p;
            assert(recs[i].path == p);
        }
        if path_seen(recs, p) && recs.last().path != p {
            let i = choose|i: int| 0 <= i < recs.len() && #[trigger] recs[i].path == p;
            assert(init[i].path == p);
        }
        if recs.last().path == p {
            assert(recs[recs.len() - 1].path == p);
        }
        let prev = kept(init);
        if !path_seen(prev, recs.last().path) {
            let k = prev.push(recs.last());
            if path_seen(prev, p) {
                let i = choose|i: int| 0 <= i < prev.len() && #[trigger] prev[i].path == p;
                assert(k[i].path == p);
            }
            if path_seen(k, p) && recs.last().path != p {
                let i = choose|i: int| 0 <= i < k.len() && #[trigger] k[i].path == p;
                assert(prev[i].path == p);
            }
            if recs.last().path == p {
                assert(k[k.len() - 1].path == p);
            }
        }
    }
}

proof fn lemma_paths_for_seen(recs: Seq<RecordView>, d: Seq<u8>, i: int)
    requires
        0 <= i < paths_for(recs, d).len(),
    ensures
        path_seen(recs, paths_for(recs, d)[i]),
    decreases recs.len(),
{
    let init = recs.drop_last();
    let p = paths_for(recs, d)[i];
    if i < paths_for(init, d).len() {
        lemma_paths_for_seen(init, d, i);
        let j = choose|j: int| 0 <= j < init.len() && #[trigger] init[j].path == p;
        assert(recs[j].path == p);
    } else {
        assert(recs[recs.len() - 1].path == p);
    }
}

/// A duplicate group never lists one canonical path twice.
pub proof fn lemma_group_paths_distinct(recs: Seq<RecordView>, d: Seq<u8>)
    ensures
        paths_for(kept(recs), d).no_duplicates(),
    decreases recs.len(),
{
    if recs.len() > 0 {
        let init = recs.drop_last();
        lemma_group_paths_distinct(init, d);
        let prev = kept(init);
        if !path_seen(prev, recs.last().path) {
            let k = prev.push(recs.last());
            assert(k.drop_last() =~= prev);
            let ps = paths_for(prev, d);
            if recs.last().digest == d {
                assert forall|i: int| 0 <= i < ps.len() implies ps[i] != recs.last().path by {
                    lemma_paths_for_seen(prev, d, i);
                }
            }
        }
    }
}

/// `gs` is exactly the set of duplicate groups of the records `k`: one
/// group per digest that two or more records share, listing their paths in
/// record order.
pub open spec fn groups_exact(gs: Seq<DuplicateGroup>, k: Seq<RecordView>) -> bool {
    &&& forall|i: int|
        0 <= i < gs.len() ==> strs(#[trigger] gs[i].paths@) == paths_for(k, gs[i].digest@)
            && gs[i].paths@.len() >= 2
    &&& forall|i: int, j: int| 0 <= i < j < gs.len() ==> gs[i].digest@ != gs[j].digest@
    &&& forall|d: Seq<u8>|
        #[trigger] paths_for(k, d).len() >= 2 ==> exists|i: int| 0 <= i < gs.len() && #[trigger] gs[i].digest@ == d
}

fn find_path(v: &Vec<String>, p: &String) -> (r: Option<usize>)
    ensures
        match r {
            Some(i) => i < v@.len() && v@[i as int]@ == p@,
            None => forall|i: int| 0 <= i < v@.len() ==> v@[i]@ != p@,
        },
{
    let mut i: usize = 0;
    while i < v.len()
        invariant
            i <= v@.len(),
            forall|j: int| 0 <= j < i ==> v@[j]@ != p@,
        decreases v@.len() - i,
    {
        if v[i] == *p {
            return Some(i);
        }
        i = i + 1;
    }
    None
}

fn find_digest(v: &Vec<FileDigest>, d: &FileDigest) -> (r: Option<usize>)
    ensures
        match r {
            Some(i) => i < v@.len() && v@[i as int]@ == d@,
            None => forall|i: int| 0 <= i < v@.len() ==> v@[i]@ != d@,
        },
{
    let mut i: usize = 0;
    while i < v.len()
        invariant
            i <= v@.len(),
            forall|j: int| 0 <= j < i ==> v@[j]@ != d@,
        decreases v@.len() - i,
    {
        if v[i].same_as(d) {
            return Some(i);
        }
        i = i + 1;
    }
    None
}

fn copy_strings(v: &Vec<String>) -> (r: Vec<String>)
    ensures
        strs(r@) == strs(v@),
{
    let mut r: Vec<String> = Vec::new();
    let mut i: usize = 0;
    while i < v.len()
        invariant
            i <= v@.len(),
            r@.len() == i,
            forall|j: int| 0 <= j < i ==> r@[j]@ == v@[j]@,
        decreases v@.len() - i,
    {
        r.push(v[i].clone());
        i = i + 1;
    }
    assert(strs(r@) =~= strs(v@));
    r
}

/// The digest-to-paths mapping, filled one finished job at a time after
/// all jobs have joined.
pub struct Grouping {
    seen: Vec<String>,
    digests: Vec<FileDigest>,
    lists: Vec<Vec<String>>,
    added: Ghost<Seq<RecordView>>,
}

impl Grouping {
    /// The records added so far, in order.
    pub closed spec fn records(&self) -> Seq<RecordView> {
        self.added@
    }

    /// Paths seen, digests and lists agree with the records added.
    pub closed spec fn wf(&self) -> bool {
        let k = kept(self.added@);
        &&& strs(self.seen@) == k.map_values(|r: RecordView| r.path)
        &&& self.digests@.len() == self.lists@.len()
        &&& forall|i: int, j: int|
            0 <= i < j < self.digests@.len() ==> self.digests@[i]@ != self.digests@[j]@
        &&& forall|i: int|
            0 <= i < self.lists@.len() ==> strs(#[trigger] self.lists@[i]@) == paths_for(
                k,
                self.digests@[i]@,
            ) && self.lists@[i]@.len() > 0
        &&& forall|d: Seq<u8>|
            #[trigger] paths_for(k, d).len() > 0 ==> exists|i: int|
                0 <= i < self.digests@.len() && #[trigger] self.digests@[i]@ == d
    }

    /// An empty mapping.
    pub fn new() -> (r: Grouping)
        ensures
            r.wf(),
            r.records() == Seq::<RecordView>::empty(),
    {
        let r = Grouping { seen: Vec::new(), digests: Vec::new(), lists: Vec::new(), added: Ghost(Seq::empty()) };
        proof {
            let k = kept(r.added@);
            assert(k =~= Seq::<RecordView>::empty());
            assert(strs(r.seen@) =~= k.map_values(|r: RecordView| r.path));
            assert forall|d: Seq<u8>| #[trigger] paths_for(k, d).len() == 0 by {}
        }
        r
    }

    /// Adds one finished record: its path joins the list of its digest,
    /// unless that path was recorded before.
    pub fn add(&mut self, rec: &FileRecord)
        requires
            old(self).wf(),
        ensures
            final(self).wf(),
            final(self).records() == old(self).records().push(rec@),
    {
        let ghost k = kept(self.added@);
        let ghost recs = self.added@.push(rec@);
        assert(recs.drop_last() =~= self.added@);
        match find_path(&self.seen, &rec.path) {
            Some(i) => {
                proof {
                    let ps = k.map_values(|r: RecordView| r.path);
                    assert(strs(self.seen@)[i as int] == rec.path@);
                    assert(ps.len() == k.len());
                    assert(ps[i as int] == k[i as int].path);
                    assert(k[i as int].path == rec.path@);
                    assert(kept(recs) == k);
                }
                self.added = Ghost(recs);
            },
            None => {
                proof {
                    if path_seen(k, rec.path@) {
                        let i = choose|i: int| 0 <= i < k.len() && #[trigger] k[i].path == rec.path@;
                        let ps = k.map_values(|r: RecordView| r.path);
                        assert(ps.len() == k.len());
                        assert(ps[i] == rec.path@);
                        assert(strs(self.seen@).len() == self.seen@.len());
                        assert(strs(self.seen@)[i] == self.seen@[i]@);
                        assert(self.seen@[i]@ == rec.path@);
                    }
                    assert(!path_seen(k, rec.path@));
                    assert(recs.last() == rec@);
                }
                let ghost k2 = k.push(rec@);
                assert(kept(recs) == k2);
                assert(k2.drop_last() =~= k);
                let ghost old_seen = self.seen@;
                self.seen.push(rec.path.clone());
                proof {
                    let ps = k.map_values(|r: RecordView| r.path);
                    assert forall|i: int| 0 <= i < old_seen.len() implies #[trigger] self.seen@[i]@ == k2[i].path by {
                        assert(self.seen@[i] == old_seen[i]);
                        assert(ps.len() == k.len());
                        assert(strs(old_seen).len() == old_seen.len());
                        assert(strs(old_seen)[i] == old_seen[i]@);
                        assert(strs(old_seen)[i] == ps[i]);
                        assert(ps[i] == k[i].path);
                        assert(k2[i] == k[i]);
                    }
                    assert(ps.len() == k.len());
                    assert(strs(old_seen).len() == old_seen.len());
                    assert(old_seen.len() == k.len());
                    assert(self.seen@[old_seen.len() as int]@ == k2[old_seen.len() as int].path);
                    assert(strs(self.seen@) =~= k2.map_values(|r: RecordView| r.path));
                }
                let ghost mut at: int = 0;
                match find_digest(&self.digests, &rec.digest) {
                    Some(j) => {
                        proof {
                            at = j as int;
                        }
                        let mut l: Vec<String> = Vec::new();
                        self.lists.set_and_swap(j, &mut l);
                        l.push(rec.path.clone());
                        assert(strs(l@) =~= strs(old(self).lists@[j as int]@).push(rec.path@));
                        self.lists.set_and_swap(j, &mut l);
                    },
                    None => {
                        proof {
                            at = self.digests@.len() as int;
                        }
                        self.digests.push(rec.digest.copy());
                        let mut l: Vec<String> = Vec::new();
                        l.push(rec.path.clone());
                        assert(strs(l@) =~= seq![rec.path@]);
                        assert(paths_for(k, rec.digest@) =~= Seq::empty());
                        self.lists.push(l);
                    },
                }
                self.added = Ghost(recs);
                assert(0 <= at < self.digests@.len() && self.digests@[at]@ == rec.digest@);
                proof {
                    assert forall|d: Seq<u8>| #[trigger] paths_for(k2, d).len() > 0 implies exists|i: int|
                        0 <= i < self.digests@.len() && #[trigger] self.digests@[i]@ == d by {
                        if d == rec.digest@ {
                            assert(self.digests@[at]@ == d);
                        } else {
                            assert(paths_for(k2, d) == paths_for(k, d));
                            let i = choose|i: int|
                                0 <= i < old(self).digests@.len() && #[trigger] old(self).digests@[i]@ == d;
                            assert(self.digests@[i]@ == d);
                        }
                    }
                }
            },
        }
    }

    /// The groups of two or more paths that share a digest.
    pub fn duplicate_groups(&self) -> (r: Vec<DuplicateGroup>)
        requires
            self.wf(),
        ensures
            groups_exact(r@, kept(self.records())),
    {
        let ghost k = kept(self.added@);
        let mut r: Vec<DuplicateGroup> = Vec::new();
        let mut i: usize = 0;
        while i < self.digests.len()
            invariant
                self.wf(),
                k == kept(self.added@),
                i <= self.digests@.len(),
                forall|m: int|
                    0 <= m < r@.len() ==> strs(#[trigger] r@[m].paths@) == paths_for(k, r@[m].digest@)
                        && r@[m].paths@.len() >= 2,
                forall|m: int|
                    0 <= m < r@.len() ==> exists|x: int|
                        0 <= x < i && #[trigger] self.digests@[x]@ == (#[trigger] r@[m]).digest@,
                forall|m: int, n: int| 0 <= m < n < r@.len() ==> r@[m].digest@ != r@[n].digest@,
                forall|x: int|
                    0 <= x < i && paths_for(k, #[trigger] self.digests@[x]@).len() >= 2 ==> exists|m: int|
                        0 <= m < r@.len() && #[trigger] r@[m].digest@ == self.digests@[x]@,
            decreases self.digests@.len() - i,
        {
            if self.lists[i].len() >= 2 {
                let g = DuplicateGroup { digest: self.digests[i].copy(), paths: copy_strings(&self.lists[i]) };
                proof {
                    assert(strs(self.lists@[i as int]@) == paths_for(k, self.digests@[i as int]@));
                    assert(strs(self.lists@[i as int]@).len() == self.lists@[i as int]@.len());
                    assert(strs(g.paths@).len() == g.paths@.len());
                    assert forall|m: int| 0 <= m < r@.len() implies r@[m].digest@ != g.digest@ by {
                        let x = choose|x: int| 0 <= x < i && #[trigger] self.digests@[x]@ == r@[m].digest@;
                    }
                }
                let ghost old_r = r@;
                r.push(g);
                proof {
                    assert forall|m: int| 0 <= m < r@.len() implies exists|x: int|
                        0 <= x < i + 1 && #[trigger] self.digests@[x]@ == (#[trigger] r@[m]).digest@ by {
                        if m < old_r.len() {
                            assert(r@[m] == old_r[m]);
                            let x = choose|x: int| 0 <= x < i && #[trigger] self.digests@[x]@ == old_r[m].digest@;
                            assert(self.digests@[x]@ == r@[m].digest@);
                        } else {
                            assert(self.digests@[i as int]@ == r@[m].digest@);
                        }
                    }
                    assert forall|x: int|
                        0 <= x < i + 1 && paths_for(k, #[trigger] self.digests@[x]@).len() >= 2 implies exists|m: int|
                        0 <= m < r@.len() && #[trigger] r@[m].digest@ == self.digests@[x]@ by {
                        if x < i {
                            let m = choose|m: int| 0 <= m < old_r.len() && #[trigger] old_r[m].digest@ == self.digests@[x]@;
                            assert(r@[m] == old_r[m]);
                        } else {
                            assert(r@[old_r.len() as int].digest@ == self.digests@[x]@);
                        }
                    }
                }
            } else {
                proof {
                    assert(strs(self.lists@[i as int]@).len() == self.lists@[i as int]@.len());
                }
            }
            i = i + 1;
        }
        proof {
            assert forall|d: Seq<u8>| #[trigger] paths_for(k, d).len() >= 2 implies exists|m: int|
                0 <= m < r@.len() && #[trigger] r@[m].digest@ == d by {
                let x = choose|x: int| 0 <= x < self.digests@.len() && #[trigger] self.digests@[x]@ == d;
                assert(paths_for(k, self.digests@[x]@).len() >= 2);
            }
        }
        r
    }

    /// The number of distinct files recorded.
    pub fn total_files(&self) -> (r: usize)
        requires
            self.wf(),
        ensures
            r == kept(self.records()).len(),
    {
        proof {
            assert(strs(self.seen@).len() == self.seen@.len());
        }
        self.seen.len()
    }
}

/// Every reported group holds at least two distinct canonical paths, all of
/// files whose content has the group's digest.
pub proof fn lemma_groups_distinct_paths(gs: Seq<DuplicateGroup>, recs: Seq<RecordView>, i: int)
    requires
        groups_exact(gs, kept(recs)),
        0 <= i < gs.len(),
    ensures
        strs(gs[i].paths@).no_duplicates(),
        strs(gs[i].paths@).len() >= 2,
        forall|p: Seq<char>|
            #[trigger] strs(gs[i].paths@).contains(p) ==> exists|j: int|
                0 <= j < recs.len() && recs[j].path == p && #[trigger] recs[j].digest == gs[i].digest@,
{
    lemma_group_paths_distinct(recs, gs[i].digest@);
    assert(strs(gs[i].paths@).len() == gs[i].paths@.len());
    let d = gs[i].digest@;
    assert forall|p: Seq<char>| #[trigger] strs(gs[i].paths@).contains(p) implies exists|j: int|
        0 <= j < recs.len() && recs[j].path == p && #[trigger] recs[j].digest == d by {
        lemma_paths_for_origin(recs, d, p);
    }
}

proof fn lemma_paths_for_origin(recs: Seq<RecordView>, d: Seq<u8>, p: Seq<char>)
    requires
        paths_for(kept(recs), d).contains(p),
    ensures
        exists|j: int| 0 <= j < recs.len() && recs[j].path == p && #[trigger] recs[j].digest == d,
    decreases recs.len(),
{
    let init = recs.drop_last();
    let prev = kept(init);
    if path_seen(prev, recs.last().path) {
        lemma_paths_for_origin(init, d, p);
        let j = choose|j: int| 0 <= j < init.len() && init[j].path == p && #[trigger] init[j].digest == d;
        assert(recs[j] == init[j]);
    } else {
        let k = prev.push(recs.last());
        assert(k.drop_last() =~= prev);
        if paths_for(prev, d).contains(p) {
            lemma_paths_for_origin(init, d, p);
            let j = choose|j: int| 0 <= j < init.len() && init[j].path == p && #[trigger] init[j].digest == d;
            assert(recs[j] == init[j]);
        } else {
            assert(recs[recs.len() - 1].digest == d);
        }
    }
}

proof fn lemma_membership(recs: Seq<RecordView>, d: Seq<u8>, p: Seq<char>)
    requires
        consistent(recs),
    ensures
        paths_for(kept(recs), d).contains(p) <==> recs.contains(RecordView { path: p, digest: d }),
    decreases recs.len(),
{
    let q = RecordView { path: p, digest: d };
    if recs.len() == 0 {
        assert(!paths_for(kept(recs), d).contains(p));
    } else {
        let init = recs.drop_last();
        let r = recs.last();
        assert(consistent(init)) by {
            assert forall|i: int, j: int|
                0 <= i < init.len() && 0 <= j < init.len() && #[trigger] init[i].path == #[trigger] init[j].path
                    implies init[i].digest == init[j].digest by {
                assert(recs[i] == init[i] && recs[j] == init[j]);
            }
        }
        lemma_membership(init, d, p);
        let prev = kept(init);
        if init.contains(q) {
            let j = choose|j: int| 0 <= j < init.len() && init[j] == q;
            assert(recs[j] == q);
        }
        if recs.contains(q) && r != q {
            let j = choose|j: int| 0 <= j < recs.len() && recs[j] == q;
            assert(init[j] == q);
        }
        if path_seen(prev, r.path) {
            if r == q {
                lemma_kept_seen(init, r.path);
                let j = choose|j: int| 0 <= j < init.len() && #[trigger] init[j].path == r.path;
                let n = recs.len() - 1;
                assert(recs[j].path == recs[n].path);
                assert(recs[j].digest == recs[n].digest);
                assert(init[j] == q);
            }
        } else {
            let k = prev.push(r);
            assert(k.drop_last() =~= prev);
            let ps = paths_for(prev, d);
            if r.digest == d {
                assert(paths_for(k, d) == ps.push(r.path));
                if ps.contains(p) {
                    let j = choose|j: int| 0 <= j < ps.len() && ps[j] == p;
                    assert(ps.push(r.path)[j] == p);
                }
                if ps.push(r.path).contains(p) && r.path != p {
                    let j = choose|j: int| 0 <= j < ps.len() + 1 && ps.push(r.path)[j] == p;
                    assert(ps[j] == p);
                }
                if r.path == p {
                    assert(ps.push(r.path)[ps.len() as int] == p);
                }
            }
        }
    }
}

proof fn lemma_kept_paths_unique(recs: Seq<RecordView>)
    ensures
        kept(recs).map_values(|r: RecordView| r.path).no_duplicates(),
    decreases recs.len(),
{
    if recs.len() > 0 {
        let init = recs.drop_last();
        lemma_kept_paths_unique(init);
        let prev = kept(init);
        if !path_seen(prev, recs.last().path) {
            let k = prev.push(recs.last());
            let ps = prev.map_values(|r: RecordView| r.path);
            let ks = k.map_values(|r: RecordView| r.path);
            assert(ks =~= ps.push(recs.last().path));
            assert forall|i: int| 0 <= i < ps.len() implies ps[i] != recs.last().path by {
                if ps[i] == recs.last().path {
                    assert(prev[i].path == recs.last().path);
                }
            }
        }
    }
}

/// The distinct canonical paths among the records.
pub open spec fn distinct_paths(recs: Seq<RecordView>) -> Set<Seq<char>> {
    Set::new(|p: Seq<char>| path_seen(recs, p))
}

/// The count of files is the number of distinct canonical paths that were
/// hashed successfully.
pub proof fn lemma_total_counts_distinct_paths(recs: Seq<RecordView>)
    ensures
        distinct_paths(recs).finite(),
        kept(recs).len() == distinct_paths(recs).len(),
{
    let ks = kept(recs).map_values(|r: RecordView| r.path);
    lemma_kept_paths_unique(recs);
    ks.unique_seq_to_set();
    assert forall|p: Seq<char>| ks.to_set().contains(p) <==> distinct_paths(recs).contains(p) by {
        lemma_kept_seen(recs, p);
        if ks.contains(p) {
            let i = choose|i: int| 0 <= i < ks.len() && ks[i] == p;
            assert(kept(recs)[i].path == p);
        }
        if path_seen(kept(recs), p) {
            let i = choose|i: int| 0 <= i < kept(recs).len() && #[trigger] kept(recs)[i].path == p;
            assert(ks[i] == p);
        }
    }
    assert(ks.to_set() =~= distinct_paths(recs));
}

/// Scanning an unchanged tree twice gives the same groups, as sets of paths,
/// and the same count, whatever order the jobs finished in: the records of
/// the two runs are the same set, each path with one digest.
pub proof fn lemma_scan_idempotent(a: Seq<RecordView>, b: Seq<RecordView>, d: Seq<u8>)
    requires
        consistent(a),
        a.to_set() == b.to_set(),
    ensures
        paths_for(kept(a), d).to_set() == paths_for(kept(b), d).to_set(),
        paths_for(kept(a), d).len() == paths_for(kept(b), d).len(),
        kept(a).len() == kept(b).len(),
{
    assert(consistent(b)) by {
        assert forall|i: int, j: int|
            0 <= i < b.len() && 0 <= j < b.len() && #[trigger] b[i].path == #[trigger] b[j].path
                implies b[i].digest == b[j].digest by {
            assert(b.to_set().contains(b[i]) && b.to_set().contains(b[j]));
            let x = choose|x: int| 0 <= x < a.len() && a[x] == b[i];
            let y = choose|y: int| 0 <= y < a.len() && a[y] == b[j];
            assert(a[x].path == a[y].path);
        }
    }
    assert forall|p: Seq<char>| paths_for(kept(a), d).to_set().contains(p) <==> paths_for(kept(b), d).to_set().contains(p) by {
        lemma_membership(a, d, p);
        lemma_membership(b, d, p);
        assert(paths_for(kept(a), d).to_set().contains(p) == paths_for(kept(a), d).contains(p));
        assert(paths_for(kept(b), d).to_set().contains(p) == paths_for(kept(b), d).contains(p));
        assert(a.to_set().contains(RecordView { path: p, digest: d }) == a.contains(RecordView { path: p, digest: d }));
        assert(b.to_set().contains(RecordView { path: p, digest: d }) == b.contains(RecordView { path: p, digest: d }));
        assert(a.to_set().contains(RecordView { path: p, digest: d }) == b.to_set().contains(
            RecordView { path: p, digest: d },
        ));
    }
    assert(paths_for(kept(a), d).to_set() =~= paths_for(kept(b), d).to_set());
    lemma_group_paths_distinct(a, d);
    lemma_group_paths_distinct(b, d);
    paths_for(kept(a), d).unique_seq_to_set();
    paths_for(kept(b), d).unique_seq_to_set();
    assert forall|p: Seq<char>| distinct_paths(a).contains(p) <==> distinct_paths(b).contains(p) by {
        if path_seen(a, p) {
            let i = choose|i: int| 0 <= i < a.len() && #[trigger] a[i].path == p;
            assert(a.to_set().contains(a[i]));
            assert(b.contains(a[i]));
            let j = choose|j: int| 0 <= j < b.len() && b[j] == a[i];
            assert(b[j].path == p);
        }
        if path_seen(b, p) {
            let i = choose|i: int| 0 <= i < b.len() && #[trigger] b[i].path == p;
            assert(b.to_set().contains(b[i]));
            assert(a.contains(b[i]));
            let j = choose|j: int| 0 <= j < a.len() && a[j] == b[i];
            assert(a[j].path == p);
        }
    }
    assert(distinct_paths(a) =~= distinct_paths(b));
    lemma_total_counts_distinct_paths(a);
    lemma_total_counts_distinct_paths(b);
}

/// What a scan reports once every job has finished.
#[derive(Debug)]
pub struct Report {
    pub groups: Vec<DuplicateGroup>,
    pub total_files: usize,
    pub errors: Vec<ScanError>,
}

/// The values of a sequence of errors.
pub open spec fn errs(v: Seq<ScanError>) -> Seq<ErrorView> {
    v.map_values(|e: ScanError| e@)
}

/// Exit status of a run that finished with every file read.
pub const EXIT_OK: u8 = 0;

/// Exit status of a run that could not start: the root is missing or unusable.
pub const EXIT_FATAL: u8 = 1;

/// Exit status of a run that finished but skipped entries it could not read.
pub const EXIT_PARTIAL: u8 = 2;

impl Report {
    /// The exit status for this report: partial when any error was recorded.
    pub fn exit_status(&self) -> (r: u8)
        ensures
            r == (if self.errors@.len() == 0 {
                EXIT_OK
            } else {
                EXIT_PARTIAL
            }),
    {
        if self.errors.len() == 0 {
            EXIT_OK
        } else {
            EXIT_PARTIAL
        }
    }
}

/// Builds the report from the outcomes of all hashing jobs, in the order in
/// which they finished: the duplicate groups, the number of distinct files
/// hashed, and the errors met while walking followed by those of the jobs
/// that failed.
pub fn aggregate(walk_errors: Vec<ScanError>, outcomes: &Vec<Result<FileRecord, ScanError>>) -> (r: Report)
    ensures
        groups_exact(r.groups@, kept(hashed(outcomes@))),
        r.total_files == kept(hashed(outcomes@)).len(),
        errs(r.errors@) == errs(walk_errors@) + failed(outcomes@),
{
    let ghost we = errs(walk_errors@);
    let mut g = Grouping::new();
    let mut errors: Vec<ScanError> = walk_errors;
    assert(errs(errors@) =~= we + failed(outcomes@.take(0)));
    let mut i: usize = 0;
    while i < outcomes.len()
        invariant
            i <= outcomes@.len(),
            g.wf(),
            g.records() == hashed(outcomes@.take(i as int)),
            errs(errors@) == we + failed(outcomes@.take(i as int)),
        decreases outcomes@.len() - i,
    {
        proof {
            assert(outcomes@.take(i + 1).drop_last() =~= outcomes@.take(i as int));
        }
        match &outcomes[i] {
            Ok(rec) => {
                g.add(rec);
            },
            Err(e) => {
                let ghost before = errors@;
                errors.push(e.copy());
                assert(errs(errors@) =~= errs(before).push(e@));
                assert(errs(errors@) =~= we + failed(outcomes@.take(i + 1)));
            },
        }
        i = i + 1;
    }
    proof {
        assert(outcomes@.take(i as int) =~= outcomes@);
    }
    Report { groups: g.duplicate_groups(), total_files: g.total_files(), errors }
}

} // verus!
