use vstd::prelude::*;
use vstd::string::*;
use std::collections::HashMap;
use crate::buckets::{bucket_day_changes, buckets_wf, day_has_name, DayChange};
use crate::text::{
    base_name, is_note_name, lemma_lex_irrefl, lemma_lex_trans, lemma_lex_trichotomy, lex_lt,
    str_lex_lt, strict_sorted, views_of,
};

verus! {

/// One file of the note corpus: its path relative to the corpus root and
/// its full contents.
pub struct FileEntry {
    pub path: String,
    pub content: Vec<u8>,
}

/// A tree snapshot: a content-addressed mapping from relative file path to
/// file contents, representing the whole corpus at one instant. Entries are
/// kept strictly sorted by path, so that two snapshots hold the same mapping
/// exactly when they are structurally equal: structural equality is content
/// identity.
pub struct TreeSnapshot {
    pub entries: Vec<FileEntry>,
}

/// The paths of a sequence of entries.
pub open spec fn entry_keys(entries: Seq<FileEntry>) -> Seq<Seq<char>> {
    entries.map_values(|e: FileEntry| e.path@)
}

/// A snapshot is well formed when its paths are strictly sorted, which also
/// makes them pairwise distinct and the entry list canonical.
pub open spec fn tree_wf(t: TreeSnapshot) -> bool {
    strict_sorted(entry_keys(t.entries@))
}

/// The path-to-contents pairs a snapshot holds.
pub open spec fn tree_pairs(t: TreeSnapshot) -> Seq<(Seq<char>, Seq<u8>)> {
    t.entries@.map_values(|e: FileEntry| (e.path@, e.content@))
}

/// Content identity of two snapshots: for well-formed snapshots the entry
/// lists are canonical, so identity of the pairs is identity of the mapping.
pub open spec fn tree_same(a: TreeSnapshot, b: TreeSnapshot) -> bool {
    tree_pairs(a) == tree_pairs(b)
}

/// A snapshot holds the pair (path `p`, contents `c`).
pub open spec fn tree_has(t: TreeSnapshot, p: Seq<char>, c: Seq<u8>) -> bool {
    exists|k: int|
        0 <= k < t.entries@.len() && (#[trigger] t.entries@[k]).path@ == p && t.entries@[k].content@
            == c
}

/// The index of the entry holding path `p`, when one exists.
pub open spec fn tree_index_of(t: TreeSnapshot, p: Seq<char>) -> int {
    choose|k: int| 0 <= k < t.entries@.len() && (#[trigger] t.entries@[k]).path@ == p
}

/// The contents a snapshot stores under path `p`, if any.
pub open spec fn tree_lookup(t: TreeSnapshot, p: Seq<char>) -> Option<Seq<u8>> {
    if exists|k: int| 0 <= k < t.entries@.len() && (#[trigger] t.entries@[k]).path@ == p {
        Some(t.entries@[tree_index_of(t, p)].content@)
    } else {
        None
    }
}

/// In a well-formed snapshot paths are pairwise distinct.
pub proof fn lemma_wf_paths_distinct(t: TreeSnapshot, k1: int, k2: int)
    requires
        tree_wf(t),
        0 <= k1 < t.entries@.len(),
        0 <= k2 < t.entries@.len(),
        k1 != k2,
    ensures
        t.entries@[k1].path@ != t.entries@[k2].path@,
{
    if k1 < k2 {
        assert(lex_lt(entry_keys(t.entries@)[k1], entry_keys(t.entries@)[k2]));
        lemma_lex_irrefl(t.entries@[k1].path@);
    } else {
        assert(lex_lt(entry_keys(t.entries@)[k2], entry_keys(t.entries@)[k1]));
        lemma_lex_irrefl(t.entries@[k1].path@);
    }
}

/// In a well-formed snapshot, an entry with path `p` pins down `tree_lookup`.
pub proof fn lemma_lookup_at(t: TreeSnapshot, k: int)
    requires
        tree_wf(t),
        0 <= k < t.entries@.len(),
    ensures
        tree_lookup(t, t.entries@[k].path@) == Some(t.entries@[k].content@),
{
    let p = t.entries@[k].path@;
    assert(exists|j: int| 0 <= j < t.entries@.len() && (#[trigger] t.entries@[j]).path@ == p);
    let j = tree_index_of(t, p);
    assert(0 <= j < t.entries@.len() && t.entries@[j].path@ == p);
    if j != k {
        lemma_wf_paths_distinct(t, j, k);
    }
    assert(tree_lookup(t, p) == Some(t.entries@[j].content@));
}

/// Compares two byte strings.
pub fn bytes_eq(a: &Vec<u8>, b: &Vec<u8>) -> (r: bool)
    ensures
        r == (a@ == b@),
{
    if a.len() != b.len() {
        return false;
    }
    let mut i: usize = 0;
    while i < a.len()
        invariant
            0 <= i <= a@.len(),
            a@.len() == b@.len(),
            forall|k: int| 0 <= k < i ==> a@[k] == b@[k],
        decreases a@.len() - i,
    {
        if a[i] != b[i] {
            return false;
        }
        i = i + 1;
    }
    proof {
        assert(a@ =~= b@);
    }
    true
}

/// Decides content identity of two well-formed snapshots. This is the
/// authoritative "did anything change" test.
pub fn trees_equal(a: &TreeSnapshot, b: &TreeSnapshot) -> (r: bool)
    ensures
        r == tree_same(*a, *b),
{
    if a.entries.len() != b.entries.len() {
        return false;
    }
    let mut i: usize = 0;
    while i < a.entries.len()
        invariant
            0 <= i <= a.entries@.len(),
            a.entries@.len() == b.entries@.len(),
            forall|k: int| 0 <= k < i ==> tree_pairs(*a)[k] == tree_pairs(*b)[k],
        decreases a.entries@.len() - i,
    {
        let pe: bool = a.entries[i].path == b.entries[i].path;
        if !pe {
            proof {
                assert(tree_pairs(*a)[i as int].0 == a.entries@[i as int].path@);
                assert(tree_pairs(*b)[i as int].0 == b.entries@[i as int].path@);
            }
            return false;
        }
        if !bytes_eq(&a.entries[i].content, &b.entries[i].content) {
            proof {
                assert(tree_pairs(*a)[i as int].1 == a.entries@[i as int].content@);
                assert(tree_pairs(*b)[i as int].1 == b.entries@[i as int].content@);
            }
            return false;
        }
        proof {
            assert(tree_pairs(*a)[i as int] == tree_pairs(*b)[i as int]);
        }
        i = i + 1;
    }
    proof {
        assert(tree_pairs(*a) =~= tree_pairs(*b));
    }
    true
}

/// Inserts a file under a fresh path into a sorted entry list, keeping it
/// sorted.
fn sorted_insert_entry(v: &mut Vec<FileEntry>, e: FileEntry)
    requires
        strict_sorted(entry_keys(old(v)@)),
        forall|k: int| 0 <= k < old(v)@.len() ==> (#[trigger] old(v)@[k]).path@ != e.path@,
    ensures
        strict_sorted(entry_keys(final(v)@)),
        final(v)@.len() == old(v)@.len() + 1,
        forall|p: Seq<char>, c: Seq<u8>|
            #![trigger entry_in(final(v)@, p, c)]
            entry_in(final(v)@, p, c) <==> (entry_in(old(v)@, p, c) || (p == e.path@ && c
                == e.content@)),
{
    let ghost orig = v@;
    let mut i: usize = 0;
    while i < v.len() && str_lex_lt(v[i].path.as_str(), e.path.as_str())
        invariant
            0 <= i <= v.len(),
            v@ == orig,
            strict_sorted(entry_keys(orig)),
            forall|k: int| 0 <= k < i ==> lex_lt(orig[k].path@, e.path@),
        decreases v.len() - i,
    {
        i = i + 1;
    }
    proof {
        if i < orig.len() {
            lemma_lex_trichotomy(orig[i as int].path@, e.path@);
            assert(lex_lt(e.path@, orig[i as int].path@));
        }
    }
    v.insert(i, e);
    proof {
        let fin = v@;
        assert(fin == orig.insert(i as int, e));
        let fk = entry_keys(fin);
        let ok = entry_keys(orig);
        assert(forall|q: int| 0 <= q < fin.len() ==> fk[q] == (#[trigger] fin[q]).path@);
        assert(forall|q: int| 0 <= q < orig.len() ==> ok[q] == (#[trigger] orig[q]).path@);
        assert forall|x: int, y: int| 0 <= x < y < fk.len() implies lex_lt(fk[x], fk[y]) by {
            let ox: int = if x < i { x } else { x - 1 };
            let oy: int = if y <= i { y } else { y - 1 };
            if x == i {
                assert(fk[y] == ok[oy]);
                assert(fin[x].path@ == e.path@);
                if oy == i {
                    assert(lex_lt(fin[x].path@, orig[i as int].path@));
                } else {
                    assert(lex_lt(ok[i as int], ok[oy]));
                    assert(lex_lt(orig[i as int].path@, orig[oy].path@));
                    lemma_lex_trans(fin[x].path@, orig[i as int].path@, orig[oy].path@);
                }
            } else if y == i {
                assert(fk[x] == ok[ox]);
                if ox < i {
                    assert(lex_lt(orig[ox].path@, fin[y].path@));
                }
            } else {
                assert(fk[x] == ok[ox]);
                assert(fk[y] == ok[oy]);
                if ox < i && oy >= i {
                    if lex_lt(ok[ox], ok[oy]) {
                    } else {
                        assert(ox < oy);
                    }
                }
            }
        }
        assert forall|p: Seq<char>, c: Seq<u8>|
            entry_in(fin, p, c) <==> (entry_in(orig, p, c) || (p == e.path@ && c
                == e.content@)) by {
            if entry_in(fin, p, c) {
                let k = choose|k: int|
                    0 <= k < fin.len() && (#[trigger] fin[k]).path@ == p && fin[k].content@ == c;
                if k == i {
                    assert(p == e.path@ && c == e.content@);
                } else {
                    let ok2: int = if k < i {
                        k
                    } else {
                        k - 1
                    };
                    assert(orig[ok2].path@ == p && orig[ok2].content@ == c);
                    assert(entry_in(orig, p, c));
                }
            }
            if entry_in(orig, p, c) {
                let k = choose|k: int|
                    0 <= k < orig.len() && (#[trigger] orig[k]).path@ == p && orig[k].content@ == c;
                let nk: int = if k < i {
                    k
                } else {
                    k + 1
                };
                assert(fin[nk].path@ == p && fin[nk].content@ == c);
                assert(entry_in(fin, p, c));
            }
            if p == e.path@ && c == e.content@ {
                assert(fin[i as int].path@ == p && fin[i as int].content@ == c);
                assert(entry_in(fin, p, c));
            }
        }
    }
}

/// A sequence of entries holds the pair (path `p`, contents `c`).
pub open spec fn entry_in(entries: Seq<FileEntry>, p: Seq<char>, c: Seq<u8>) -> bool {
    exists|k: int|
        0 <= k < entries.len() && (#[trigger] entries[k]).path@ == p && entries[k].content@ == c
}

/// Stages a set of files, with pairwise distinct paths, into a well-formed
/// tree snapshot that holds exactly those files.
pub fn build_tree(files: Vec<FileEntry>) -> (t: TreeSnapshot)
    requires
        forall|x: int, y: int|
            0 <= x < y < files@.len() ==> (#[trigger] files@[x]).path@ != (
            #[trigger] files@[y]).path@,
    ensures
        tree_wf(t),
        forall|p: Seq<char>, c: Seq<u8>|
            #![trigger tree_has(t, p, c)]
            tree_has(t, p, c) <==> entry_in(files@, p, c),
{
    let ghost fv = files@;
    let mut entries: Vec<FileEntry> = Vec::new();
    let mut i: usize = 0;
    proof {
        assert(entry_keys(entries@) =~= Seq::<Seq<char>>::empty());
    }
    while i < files.len()
        invariant
            0 <= i <= files@.len(),
            fv == files@,
            strict_sorted(entry_keys(entries@)),
            forall|x: int, y: int|
                0 <= x < y < fv.len() ==> (#[trigger] fv[x]).path@ != (#[trigger] fv[y]).path@,
            forall|p: Seq<char>, c: Seq<u8>|
                #![trigger entry_in(entries@, p, c)]
                entry_in(entries@, p, c) <==> entry_in(fv.take(i as int), p, c),
            forall|k: int|
                0 <= k < entries@.len() ==> exists|x: int|
                    0 <= x < i && (#[trigger] entries@[k]).path@ == fv[x].path@,
        decreases files@.len() - i,
    {
        let e = FileEntry {
            path: files[i].path.clone(),
            content: clone_bytes(&files[i].content),
        };
        proof {
            assert forall|k: int| 0 <= k < entries@.len() implies (#[trigger] entries@[k]).path@
                != e.path@ by {
                let x = choose|x: int|
                    0 <= x < i && (#[trigger] entries@[k]).path@ == fv[x].path@;
                assert(fv[x].path@ != fv[i as int].path@);
            }
        }
        let ghost pre = entries@;
        sorted_insert_entry(&mut entries, e);
        proof {
            assert forall|p: Seq<char>, c: Seq<u8>|
                entry_in(entries@, p, c) <==> entry_in(fv.take(i + 1), p, c) by {
                assert(fv.take(i + 1) =~= fv.take(i as int).push(fv[i as int]));
                if entry_in(entries@, p, c) {
                    if entry_in(pre, p, c) {
                        let k = choose|k: int|
                            0 <= k < fv.take(i as int).len() && (#[trigger] fv.take(
                                i as int,
                            )[k]).path@ == p && fv.take(i as int)[k].content@ == c;
                        assert(fv.take(i + 1)[k] == fv.take(i as int)[k]);
                        assert(entry_in(fv.take(i + 1), p, c));
                    } else {
                        assert(p == fv[i as int].path@ && c == fv[i as int].content@);
                        assert(fv.take(i + 1)[i as int] == fv[i as int]);
                        assert(entry_in(fv.take(i + 1), p, c));
                    }
                }
                if entry_in(fv.take(i + 1), p, c) {
                    let k = choose|k: int|
                        0 <= k < fv.take(i + 1).len() && (#[trigger] fv.take(i + 1)[k]).path@ == p
                            && fv.take(i + 1)[k].content@ == c;
                    if k == i as int {
                        assert(p == e.path@ && c == e.content@);
                        assert(entry_in(entries@, p, c));
                    } else {
                        assert(fv.take(i as int)[k] == fv.take(i + 1)[k]);
                        assert(entry_in(fv.take(i as int), p, c));
                        assert(entry_in(pre, p, c));
                        assert(entry_in(entries@, p, c));
                    }
                }
            }
            assert forall|k: int| 0 <= k < entries@.len() implies exists|x: int|
                0 <= x < i + 1 && (#[trigger] entries@[k]).path@ == fv[x].path@ by {
                let p = entries@[k].path@;
                let c = entries@[k].content@;
                assert(entry_in(entries@, p, c));
                assert(entry_in(fv.take(i + 1), p, c));
                let q = choose|q: int|
                    0 <= q < fv.take(i + 1).len() && (#[trigger] fv.take(i + 1)[q]).path@ == p
                        && fv.take(i + 1)[q].content@ == c;
                assert(fv[q].path@ == p);
            }
        }
        i = i + 1;
    }
    let ghost done = entries@;
    let t = TreeSnapshot { entries };
    proof {
        assert(fv.take(fv.len() as int) =~= fv);
        assert(t.entries@ == done);
        assert forall|p: Seq<char>, c: Seq<u8>| #![trigger tree_has(t, p, c)] tree_has(t, p, c)
            <==> entry_in(fv, p, c) by {
            assert(entry_in(done, p, c) <==> entry_in(fv, p, c));
            if tree_has(t, p, c) {
                let k = choose|k: int|
                    0 <= k < t.entries@.len() && (#[trigger] t.entries@[k]).path@ == p
                        && t.entries@[k].content@ == c;
                assert(done[k].path@ == p && done[k].content@ == c);
                assert(entry_in(done, p, c));
            }
            if entry_in(done, p, c) {
                let k = choose|k: int|
                    0 <= k < done.len() && (#[trigger] done[k]).path@ == p && done[k].content@
                        == c;
                assert(t.entries@[k].path@ == p && t.entries@[k].content@ == c);
                assert(tree_has(t, p, c));
            }
        }
    }
    t
}

/// Copies a byte string.
fn clone_bytes(b: &Vec<u8>) -> (r: Vec<u8>)
    ensures
        r@ == b@,
{
    let mut r: Vec<u8> = Vec::new();
    let mut i: usize = 0;
    while i < b.len()
        invariant
            0 <= i <= b@.len(),
            r@ == b@.take(i as int),
        decreases b@.len() - i,
    {
        r.push(b[i]);
        proof {
            assert(b@.take(i + 1) =~= b@.take(i as int).push(b@[i as int]));
        }
        i = i + 1;
    }
    proof {
        assert(b@.take(b@.len() as int) =~= b@);
    }
    r
}


/// A calendar date, as the committer recorded it.
pub struct CalendarDay {
    pub year: i32,
    pub month: u32,
    pub day: u32,
}

/// A year has a February 29th exactly when the Gregorian rules say so.
pub open spec fn leap_year(y: int) -> bool {
    y % 4 == 0 && (y % 100 != 0 || y % 400 == 0)
}

/// The number of days of a calendar month.
pub open spec fn days_in_month(y: int, m: int) -> int {
    if m == 2 {
        if leap_year(y) {
            29
        } else {
            28
        }
    } else if m == 4 || m == 6 || m == 9 || m == 11 {
        30
    } else {
        31
    }
}

/// A calendar date is well formed when its month and day lie in the range
/// the calendar gives them.
pub open spec fn date_wf(d: CalendarDay) -> bool {
    1 <= d.month <= 12 && 1 <= d.day <= days_in_month(d.year as int, d.month as int)
}

/// One immutable node of the history: its parent (none only for the root),
/// the tree snapshot it committed, its date, and its metadata.
pub struct CommitRecord {
    pub parent: Option<usize>,
    pub tree: TreeSnapshot,
    pub date: CalendarDay,
    pub author_name: String,
    pub author_email: String,
    pub message: String,
}

/// The durable history of one note corpus: a single parent chain of
/// commits, oldest first. The head is the newest commit; it is absent only
/// while the history has never been committed to.
pub struct LocalHistory {
    pub commits: Vec<CommitRecord>,
}

/// A history is well formed when it is one chain: commit `k` has parent
/// `k - 1`, only the first commit is parentless, every tree and date is
/// well formed, and no commit repeats its parent's tree.
pub open spec fn history_wf(h: LocalHistory) -> bool {
    forall|k: int|
        0 <= k < h.commits@.len() ==> {
            &&& (k == 0 ==> (#[trigger] h.commits@[k]).parent is None)
            &&& (k > 0 ==> (h.commits@[k].parent matches Some(pp) && pp as int == k - 1))
            &&& tree_wf(h.commits@[k].tree)
            &&& date_wf(h.commits@[k].date)
            &&& (k > 0 ==> !tree_same(h.commits@[k].tree, h.commits@[k - 1].tree))
        }
}

/// Whether a snapshot of tree `t` over the history `commits` creates a
/// commit: always for the very first commit, else exactly when the
/// candidate's content identity differs from the head commit's tree.
pub open spec fn snap_commits(commits: Seq<CommitRecord>, t: TreeSnapshot) -> bool {
    commits.len() == 0 || !tree_same(commits.last().tree, t)
}

impl LocalHistory {
    /// An empty history: repository initialization creates it once; it
    /// destroys nothing that exists.
    pub fn initialize() -> (h: LocalHistory)
        ensures
            history_wf(h),
            h.commits@.len() == 0,
    {
        LocalHistory { commits: Vec::new() }
    }

    /// The number of commits made so far.
    pub fn commit_count(&self) -> (n: usize)
        ensures
            n == self.commits@.len(),
    {
        self.commits.len()
    }

    /// The tree snapshot of the head commit, absent while no commit exists.
    pub fn head_tree(&self) -> (r: Option<&TreeSnapshot>)
        ensures
            match r {
                Some(t) => self.commits@.len() > 0 && *t == self.commits@.last().tree,
                None => self.commits@.len() == 0,
            },
    {
        if self.commits.len() == 0 {
            None
        } else {
            Some(&self.commits[self.commits.len() - 1].tree)
        }
    }

    /// Takes an idempotent snapshot: commits the candidate tree exactly when
    /// the history is empty or the candidate's content identity differs from
    /// the head commit's tree; otherwise reports "no changes" and writes
    /// nothing. A created commit records the candidate tree, the given date
    /// and identity, the fixed message "auto commit", and the old head as
    /// its parent; the head then moves to it.
    #[verifier::rlimit(50)]
    pub fn snapshot_and_commit(
        &mut self,
        tree: TreeSnapshot,
        date: CalendarDay,
        author_name: String,
        author_email: String,
    ) -> (committed: bool)
        requires
            history_wf(*old(self)),
            tree_wf(tree),
            date_wf(date),
        ensures
            history_wf(*final(self)),
            committed == snap_commits(old(self).commits@, tree),
            !committed ==> *final(self) == *old(self),
            committed ==> {
                &&& final(self).commits@.len() == old(self).commits@.len() + 1
                &&& final(self).commits@.take(old(self).commits@.len() as int) == old(
                    self,
                ).commits@
                &&& final(self).commits@.last().tree == tree
                &&& final(self).commits@.last().date == date
                &&& final(self).commits@.last().parent == (if old(self).commits@.len() == 0 {
                    Option::<usize>::None
                } else {
                    Option::<usize>::Some((old(self).commits@.len() - 1) as usize)
                })
                &&& final(self).commits@.last().author_name == author_name
                &&& final(self).commits@.last().author_email == author_email
                &&& final(self).commits@.last().message@ == "auto commit"@
            },
    {
        let n = self.commits.len();
        let committed: bool;
        if n == 0 {
            committed = true;
        } else {
            committed = !trees_equal(&self.commits[n - 1].tree, &tree);
        }
        if committed {
            let parent: Option<usize> = if n == 0 {
                None
            } else {
                Some(n - 1)
            };
            let rec = CommitRecord {
                parent,
                tree,
                date,
                author_name,
                author_email,
                message: String::from_str("auto commit"),
            };
            let ghost pre = self.commits@;
            self.commits.push(rec);
            proof {
                assert(self.commits@.take(pre.len() as int) =~= pre);
                assert forall|k: int| 0 <= k < self.commits@.len() implies {
                    &&& (k == 0 ==> (#[trigger] self.commits@[k]).parent is None)
                    &&& (k > 0 ==> (self.commits@[k].parent matches Some(pp) && pp as int == k
                        - 1))
                    &&& tree_wf(self.commits@[k].tree)
                    &&& date_wf(self.commits@[k].date)
                    &&& (k > 0 ==> !tree_same(self.commits@[k].tree, self.commits@[k - 1].tree))
                } by {
                    if k < pre.len() {
                        assert(self.commits@[k] == pre[k]);
                        if k > 0 {
                            assert(self.commits@[k - 1] == pre[k - 1]);
                        }
                    } else {
                        if k > 0 {
                            assert(self.commits@[k - 1] == pre[k - 1]);
                            assert(pre[k - 1] == pre.last());
                        }
                    }
                }
            }
        }
        committed
    }
}

/// Idempotence of the snapshot step: after one snapshot of tree `t` —
/// whether it committed `t` or found it already at the head — a second
/// snapshot of the unchanged tree commits nothing, so two runs with no
/// intervening change create at most one commit between them.
pub proof fn lemma_snapshot_idempotent(
    c0: Seq<CommitRecord>,
    c1: Seq<CommitRecord>,
    t: TreeSnapshot,
    r: CommitRecord,
)
    requires
        (snap_commits(c0, t) && c1 == c0.push(r) && r.tree == t) || (!snap_commits(c0, t) && c1
            == c0),
    ensures
        !snap_commits(c1, t),
{
    if snap_commits(c0, t) {
        assert(c1.last() == r);
    }
}

/// Every non-root commit's tree differs from its parent's tree: the chain
/// never stores a commit that changed nothing.
#[verifier::rlimit(50)]
pub proof fn lemma_nonroot_tree_differs(h: LocalHistory, k: int, p: usize)
    requires
        history_wf(h),
        0 <= k < h.commits@.len(),
        h.commits@[k].parent == Some(p),
    ensures
        p < k,
        !tree_same(h.commits@[k].tree, h.commits@[p as int].tree),
{
    if k == 0 {
        assert(h.commits@[k].parent is None);
        assert(false);
    }
    assert(h.commits@[k].parent matches Some(pp) && pp as int == k - 1);
    assert(p as int == k - 1);
    assert(!tree_same(h.commits@[k].tree, h.commits@[k - 1].tree));
}

/// The root commit exists exactly once: a commit is parentless exactly when
/// it is the first one, and the very first snapshot always commits, whatever
/// the tree holds — there is no parent to compare against.
pub proof fn lemma_single_root(h: LocalHistory, k: int)
    requires
        history_wf(h),
        0 <= k < h.commits@.len(),
    ensures
        h.commits@[k].parent is None <==> k == 0,
{
}

/// The very first snapshot of a fresh history commits unconditionally, even
/// when the working tree is empty.
pub proof fn lemma_root_always_commits(t: TreeSnapshot)
    ensures
        snap_commits(Seq::<CommitRecord>::empty(), t),
{
}

/// Round trip: when a snapshot built from distinct files is committed, the
/// head commit's tree reproduces exactly those files, paths and contents
/// alike.
pub proof fn lemma_round_trip(
    files: Seq<FileEntry>,
    t: TreeSnapshot,
    c1: Seq<CommitRecord>,
)
    requires
        forall|p: Seq<char>, c: Seq<u8>|
            #![trigger tree_has(t, p, c)]
            tree_has(t, p, c) <==> entry_in(files, p, c),
        c1.len() > 0,
        c1.last().tree == t,
    ensures
        forall|p: Seq<char>, c: Seq<u8>|
            #![trigger tree_has(c1.last().tree, p, c)]
            tree_has(c1.last().tree, p, c) <==> entry_in(files, p, c),
{
}


/// Finds the contents a well-formed snapshot stores under a path.
pub fn lookup_path<'a>(t: &'a TreeSnapshot, p: &String) -> (r: Option<&'a Vec<u8>>)
    requires
        tree_wf(*t),
    ensures
        match r {
            Some(c) => tree_lookup(*t, p@) == Some(c@),
            None => tree_lookup(*t, p@) is None,
        },
{
    let mut i: usize = 0;
    while i < t.entries.len()
        invariant
            0 <= i <= t.entries@.len(),
            tree_wf(*t),
            forall|k: int| 0 <= k < i ==> (#[trigger] t.entries@[k]).path@ != p@,
        decreases t.entries@.len() - i,
    {
        let same: bool = t.entries[i].path == *p;
        if same {
            proof {
                lemma_lookup_at(*t, i as int);
            }
            return Some(&t.entries[i].content);
        }
        i = i + 1;
    }
    proof {
        assert(!(exists|k: int|
            0 <= k < t.entries@.len() && (#[trigger] t.entries@[k]).path@ == p@));
    }
    None
}

/// The paths whose stored contents differ between two well-formed
/// snapshots: changed, added and removed files alike, each path once per
/// side it appears on.
pub fn diff_paths(a: &TreeSnapshot, b: &TreeSnapshot) -> (r: Vec<String>)
    requires
        tree_wf(*a),
        tree_wf(*b),
    ensures
        forall|p: Seq<char>|
            #![trigger views_of(r@).contains(p)]
            views_of(r@).contains(p) <==> tree_lookup(*a, p) != tree_lookup(*b, p),
{
    let mut r: Vec<String> = Vec::new();
    let mut i: usize = 0;
    proof {
        assert(views_of(r@) =~= Seq::<Seq<char>>::empty());
    }
    while i < b.entries.len()
        invariant
            0 <= i <= b.entries@.len(),
            tree_wf(*a),
            tree_wf(*b),
            forall|p: Seq<char>|
                #![trigger views_of(r@).contains(p)]
                views_of(r@).contains(p) <==> (exists|k: int|
                    0 <= k < i && (#[trigger] b.entries@[k]).path@ == p && tree_lookup(*a, p)
                        != tree_lookup(*b, p)),
        decreases b.entries@.len() - i,
    {
        let ghost pre = r@;
        let pb = &b.entries[i].path;
        proof {
            lemma_lookup_at(*b, i as int);
        }
        let mut differs = false;
        match lookup_path(a, pb) {
            Some(c) => {
                if !bytes_eq(c, &b.entries[i].content) {
                    differs = true;
                }
            },
            None => {
                differs = true;
            },
        }
        if differs {
            r.push(pb.clone());
            proof {
                assert(views_of(r@) =~= views_of(pre) + seq![pb@]);
            }
        }
        proof {
            assert forall|p: Seq<char>|
                #![trigger views_of(r@).contains(p)]
                views_of(r@).contains(p) implies (exists|k: int|
                0 <= k < i + 1 && (#[trigger] b.entries@[k]).path@ == p && tree_lookup(*a, p)
                    != tree_lookup(*b, p)) by {
                if views_of(pre).contains(p) {
                    let k = choose|k: int|
                        0 <= k < i && (#[trigger] b.entries@[k]).path@ == p && tree_lookup(*a, p)
                            != tree_lookup(*b, p);
                    assert(0 <= k < i + 1 && b.entries@[k].path@ == p && tree_lookup(*a, p)
                        != tree_lookup(*b, p));
                } else {
                    assert(differs && p == pb@);
                    assert(b.entries@[i as int].path@ == p);
                }
            }
            assert forall|p: Seq<char>|
                #![trigger views_of(r@).contains(p)]
                (exists|k: int|
                    0 <= k < i + 1 && (#[trigger] b.entries@[k]).path@ == p && tree_lookup(*a, p)
                        != tree_lookup(*b, p)) implies views_of(r@).contains(p) by {
                let k = choose|k: int|
                    0 <= k < i + 1 && (#[trigger] b.entries@[k]).path@ == p && tree_lookup(*a, p)
                        != tree_lookup(*b, p);
                if k < i {
                    assert(views_of(pre).contains(p));
                    if differs {
                        assert(views_of(r@)[choose|q: int|
                            0 <= q < views_of(pre).len() && views_of(pre)[q] == p] == p);
                    }
                } else {
                    assert(p == pb@);
                    assert(tree_lookup(*b, p) == Some(b.entries@[i as int].content@));
                    assert(differs);
                    assert(views_of(r@)[views_of(r@).len() - 1] == p);
                }
            }
        }
        i = i + 1;
    }
    let ghost half = r@;
    let mut j: usize = 0;
    while j < a.entries.len()
        invariant
            0 <= j <= a.entries@.len(),
            tree_wf(*a),
            tree_wf(*b),
            forall|p: Seq<char>|
                #![trigger views_of(half).contains(p)]
                views_of(half).contains(p) <==> (tree_lookup(*b, p) is Some && tree_lookup(*a, p)
                    != tree_lookup(*b, p)),
            forall|p: Seq<char>|
                #![trigger views_of(r@).contains(p)]
                views_of(r@).contains(p) <==> (views_of(half).contains(p) || (exists|k: int|
                    0 <= k < j && (#[trigger] a.entries@[k]).path@ == p && tree_lookup(*b, p)
                        is None)),
        decreases a.entries@.len() - j,
    {
        let ghost pre = r@;
        let pa = &a.entries[j].path;
        proof {
            lemma_lookup_at(*a, j as int);
        }
        let absent: bool = match lookup_path(b, pa) {
            Some(_) => false,
            None => true,
        };
        if absent {
            r.push(pa.clone());
            proof {
                assert(views_of(r@) =~= views_of(pre) + seq![pa@]);
            }
        }
        proof {
            assert forall|p: Seq<char>|
                #![trigger views_of(r@).contains(p)]
                views_of(r@).contains(p) implies (views_of(half).contains(p) || (exists|k: int|
                0 <= k < j + 1 && (#[trigger] a.entries@[k]).path@ == p && tree_lookup(*b, p)
                    is None)) by {
                if views_of(pre).contains(p) {
                    if !views_of(half).contains(p) {
                        let k = choose|k: int|
                            0 <= k < j && (#[trigger] a.entries@[k]).path@ == p && tree_lookup(
                                *b,
                                p,
                            ) is None;
                        assert(0 <= k < j + 1 && a.entries@[k].path@ == p);
                    }
                } else {
                    let q = choose|q: int| 0 <= q < views_of(r@).len() && views_of(r@)[q] == p;
                    if q < views_of(pre).len() {
                        assert(views_of(pre)[q] == p);
                        assert(false);
                    }
                    assert(absent && p == pa@);
                    assert(a.entries@[j as int].path@ == p);
                }
            }
            assert forall|p: Seq<char>|
                #![trigger views_of(r@).contains(p)]
                (views_of(half).contains(p) || (exists|k: int|
                    0 <= k < j + 1 && (#[trigger] a.entries@[k]).path@ == p && tree_lookup(*b, p)
                        is None)) implies views_of(r@).contains(p) by {
                if views_of(half).contains(p) {
                    assert(views_of(pre).contains(p));
                    let q = choose|q: int| 0 <= q < views_of(pre).len() && views_of(pre)[q] == p;
                    assert(views_of(r@)[q] == p);
                } else {
                    let k = choose|k: int|
                        0 <= k < j + 1 && (#[trigger] a.entries@[k]).path@ == p && tree_lookup(
                            *b,
                            p,
                        ) is None;
                    if k < j {
                        assert(views_of(pre).contains(p));
                        let q = choose|q: int|
                            0 <= q < views_of(pre).len() && views_of(pre)[q] == p;
                        assert(views_of(r@)[q] == p);
                    } else {
                        assert(p == pa@);
                        assert(tree_lookup(*a, p) == Some(a.entries@[j as int].content@));
                        assert(absent);
                        assert(views_of(r@)[views_of(r@).len() - 1] == p);
                    }
                }
            }
        }
        j = j + 1;
    }
    proof {
        assert forall|p: Seq<char>|
            views_of(r@).contains(p) implies tree_lookup(*a, p) != tree_lookup(*b, p) by {
            if !views_of(half).contains(p) {
                let k = choose|k: int|
                    0 <= k < a.entries@.len() && (#[trigger] a.entries@[k]).path@ == p
                        && tree_lookup(*b, p) is None;
                lemma_lookup_at(*a, k);
            }
        }
        assert forall|p: Seq<char>|
            tree_lookup(*a, p) != tree_lookup(*b, p) implies views_of(r@).contains(p) by {
            if tree_lookup(*b, p) is Some {
                assert(views_of(half).contains(p));
            } else {
                assert(tree_lookup(*a, p) is Some);
                assert(exists|k: int|
                    0 <= k < a.entries@.len() && (#[trigger] a.entries@[k]).path@ == p);
                let k = choose|k: int|
                    0 <= k < a.entries@.len() && (#[trigger] a.entries@[k]).path@ == p;
                assert(0 <= k < a.entries@.len() && a.entries@[k].path@ == p && tree_lookup(*b, p)
                    is None);
            }
        }
    }
    r
}

/// `n` is reported for day `d` by some commit whose index is at least `k`:
/// a non-root commit dated in the queried year and month whose snapshot
/// stores different contents from its parent's under some path carrying the
/// tracked note extension with filename `n`.
pub open spec fn day_name_from(
    h: LocalHistory,
    year: i32,
    month: u32,
    k: int,
    d: u32,
    n: Seq<char>,
) -> bool {
    exists|c: int, p: Seq<char>|
        #![trigger tree_lookup(h.commits@[c].tree, p)]
        k <= c < h.commits@.len() && 1 <= c && h.commits@[c].date.year == year
            && h.commits@[c].date.month == month && h.commits@[c].date.day == d && tree_lookup(
            h.commits@[c].tree,
            p,
        ) != tree_lookup(h.commits@[c - 1].tree, p) && is_note_name(base_name(p)) && n
            == base_name(p)
}

/// `n` is reported for day `d` of the queried month by some commit of the
/// history.
pub open spec fn history_day_name(
    h: LocalHistory,
    year: i32,
    month: u32,
    d: u32,
    n: Seq<char>,
) -> bool {
    day_name_from(h, year, month, 1, d, n)
}

/// One walk step at a commit whose date falls in the queried month: the
/// day-change it contributes accounts exactly for that commit's reports.
proof fn lemma_walk_push(
    h: LocalHistory,
    year: i32,
    month: u32,
    pre: Seq<DayChange>,
    ch: DayChange,
    idx: int,
)
    requires
        1 <= idx < h.commits@.len(),
        h.commits@[idx].date.year == year,
        h.commits@[idx].date.month == month,
        ch.day == h.commits@[idx].date.day,
        forall|p: Seq<char>|
            #![trigger views_of(ch.paths@).contains(p)]
            views_of(ch.paths@).contains(p) <==> tree_lookup(h.commits@[idx - 1].tree, p)
                != tree_lookup(h.commits@[idx].tree, p),
        forall|d: u32, n: Seq<char>|
            #![trigger day_has_name(pre, d, n)]
            day_has_name(pre, d, n) <==> day_name_from(h, year, month, idx + 1, d, n),
    ensures
        forall|d: u32, n: Seq<char>|
            #![trigger day_has_name(pre.push(ch), d, n)]
            day_has_name(pre.push(ch), d, n) <==> day_name_from(h, year, month, idx, d, n),
{
    let cs = pre.push(ch);
    assert forall|d: u32, n: Seq<char>|
        day_has_name(cs, d, n) implies day_name_from(h, year, month, idx, d, n) by {
        let (a, b) = choose|a: int, b: int|
            0 <= a < cs.len() && 0 <= b < cs[a].paths@.len() && cs[a].day == d && is_note_name(
                base_name(cs[a].paths@[b]@),
            ) && n == base_name(cs[a].paths@[b]@);
        if a < pre.len() {
            assert(cs[a] == pre[a]);
            assert(day_has_name(pre, d, n));
            assert(day_name_from(h, year, month, idx + 1, d, n));
        } else {
            let p = ch.paths@[b]@;
            assert(views_of(ch.paths@).contains(p)) by {
                assert(views_of(ch.paths@)[b] == p);
            }
            assert(tree_lookup(h.commits@[idx].tree, p) != tree_lookup(
                h.commits@[idx - 1].tree,
                p,
            ));
            assert(d == ch.day);
        }
    }
    assert forall|d: u32, n: Seq<char>|
        day_name_from(h, year, month, idx, d, n) implies day_has_name(cs, d, n) by {
        let (c, p) = choose|c: int, p: Seq<char>|
            #![trigger tree_lookup(h.commits@[c].tree, p)]
            idx <= c < h.commits@.len() && 1 <= c && h.commits@[c].date.year == year
                && h.commits@[c].date.month == month && h.commits@[c].date.day == d
                && tree_lookup(h.commits@[c].tree, p) != tree_lookup(h.commits@[c - 1].tree, p)
                && is_note_name(base_name(p)) && n == base_name(p);
        if c > idx {
            assert(day_name_from(h, year, month, idx + 1, d, n));
            assert(day_has_name(pre, d, n));
            let (a, b) = choose|a: int, b: int|
                0 <= a < pre.len() && 0 <= b < pre[a].paths@.len() && pre[a].day == d
                    && is_note_name(base_name(pre[a].paths@[b]@)) && n == base_name(
                    pre[a].paths@[b]@,
                );
            assert(cs[a] == pre[a]);
            assert(day_has_name(cs, d, n));
        } else {
            assert(c == idx);
            assert(views_of(ch.paths@).contains(p));
            let b = choose|b: int| 0 <= b < views_of(ch.paths@).len() && views_of(ch.paths@)[b]
                == p;
            assert(cs[pre.len() as int].paths@[b]@ == p);
            assert(cs[pre.len() as int].day == d);
            assert(day_has_name(cs, d, n));
        }
    }
}

/// One walk step at a commit dated outside the queried month: it reports
/// nothing, so the accounted range simply grows past it.
proof fn lemma_walk_skip(h: LocalHistory, year: i32, month: u32, idx: int)
    requires
        1 <= idx < h.commits@.len(),
        !(h.commits@[idx].date.year == year && h.commits@[idx].date.month == month),
    ensures
        forall|d: u32, n: Seq<char>|
            #![trigger day_name_from(h, year, month, idx, d, n)]
            day_name_from(h, year, month, idx, d, n) <==> day_name_from(
                h,
                year,
                month,
                idx + 1,
                d,
                n,
            ),
{
    assert forall|d: u32, n: Seq<char>|
        day_name_from(h, year, month, idx, d, n) implies day_name_from(
        h,
        year,
        month,
        idx + 1,
        d,
        n,
    ) by {
        let (c, p) = choose|c: int, p: Seq<char>|
            #![trigger tree_lookup(h.commits@[c].tree, p)]
            idx <= c < h.commits@.len() && 1 <= c && h.commits@[c].date.year == year
                && h.commits@[c].date.month == month && h.commits@[c].date.day == d
                && tree_lookup(h.commits@[c].tree, p) != tree_lookup(h.commits@[c - 1].tree, p)
                && is_note_name(base_name(p)) && n == base_name(p);
        assert(c != idx);
    }
}

impl LocalHistory {
    /// Walks the whole parent chain and buckets, by day of the queried
    /// month, the note filenames each non-root commit changed relative to
    /// its parent. An empty history, or a month no commit falls in, yields
    /// an empty mapping. Files introduced by the root commit are never
    /// reported: the root has no parent to diff against.
    #[verifier::rlimit(100)]
    pub fn get_commits_by_day(&self, year: i32, month: u32) -> (m: HashMap<u32, Vec<String>>)
        requires
            history_wf(*self),
        ensures
            buckets_wf(m@),
            forall|d: u32, n: Seq<char>|
                #![trigger history_day_name(*self, year, month, d, n)]
                #![trigger views_of(m@[d]@).contains(n)]
                history_day_name(*self, year, month, d, n) <==> (m@.contains_key(d) && views_of(
                    m@[d]@,
                ).contains(n)),
            forall|d: u32| #[trigger]
                m@.contains_key(d) ==> 1 <= d <= days_in_month(year as int, month as int),
            self.commits@.len() == 0 ==> forall|d: u32| !m@.contains_key(d),
    {
        let mut changes: Vec<DayChange> = Vec::new();
        let total = self.commits.len();
        let mut k: usize = total;
        while k > 1
            invariant
                0 <= k <= total,
                total == self.commits@.len(),
                history_wf(*self),
                forall|d: u32, n: Seq<char>|
                    #![trigger day_has_name(changes@, d, n)]
                    day_has_name(changes@, d, n) <==> day_name_from(
                        *self,
                        year,
                        month,
                        k as int,
                        d,
                        n,
                    ),
            decreases k,
        {
            let idx = k - 1;
            let ghost pre = changes@;
            let date_matches: bool = self.commits[idx].date.year == year
                && self.commits[idx].date.month == month;
            if date_matches {
                let day = self.commits[idx].date.day;
                let paths = diff_paths(&self.commits[idx - 1].tree, &self.commits[idx].tree);
                changes.push(DayChange { day, paths });
                proof {
                    let ch = changes@.last();
                    assert(changes@ == pre.push(ch));
                    lemma_walk_push(*self, year, month, pre, ch, idx as int);
                }
            } else {
                proof {
                    lemma_walk_skip(*self, year, month, idx as int);
                }
            }
            k = idx;
        }
        proof {
            assert forall|d: u32, n: Seq<char>|
                #![trigger day_has_name(changes@, d, n)]
                day_has_name(changes@, d, n) <==> history_day_name(*self, year, month, d, n) by {
                if k == 0 {
                    if day_name_from(*self, year, month, 1, d, n) {
                        assert(day_name_from(*self, year, month, 0, d, n));
                    }
                    if day_name_from(*self, year, month, 0, d, n) {
                        assert(day_name_from(*self, year, month, 1, d, n));
                    }
                }
            }
        }
        let m = bucket_day_changes(&changes);
        proof {
            assert forall|d: u32, n: Seq<char>|
                #![trigger history_day_name(*self, year, month, d, n)]
                #![trigger views_of(m@[d]@).contains(n)]
                history_day_name(*self, year, month, d, n) <==> (m@.contains_key(d) && views_of(
                    m@[d]@,
                ).contains(n)) by {
                assert(day_has_name(changes@, d, n) <==> history_day_name(
                    *self,
                    year,
                    month,
                    d,
                    n,
                ));
                assert(day_has_name(changes@, d, n) <==> (m@.contains_key(d) && views_of(
                    m@[d]@,
                ).contains(n)));
            }
        }
        proof {
            assert forall|d: u32| m@.contains_key(d) implies 1 <= d <= days_in_month(
                year as int,
                month as int,
            ) by {
                let n = views_of(m@[d]@)[0];
                assert(views_of(m@[d]@).contains(n));
                assert(history_day_name(*self, year, month, d, n));
                let (c, p) = choose|c: int, p: Seq<char>|
                    #![trigger tree_lookup(self.commits@[c].tree, p)]
                    1 <= c < self.commits@.len() && 1 <= c && self.commits@[c].date.year == year
                        && self.commits@[c].date.month == month && self.commits@[c].date.day == d
                        && tree_lookup(self.commits@[c].tree, p) != tree_lookup(
                        self.commits@[c - 1].tree,
                        p,
                    ) && is_note_name(base_name(p)) && n == base_name(p);
                assert(date_wf(self.commits@[c].date));
            }
            if self.commits@.len() == 0 {
                assert forall|d: u32| !m@.contains_key(d) by {
                    if m@.contains_key(d) {
                        let n = views_of(m@[d]@)[0];
                        assert(views_of(m@[d]@).contains(n));
                        assert(history_day_name(*self, year, month, d, n));
                    }
                }
            }
        }
        m
    }
}

} // verus!
