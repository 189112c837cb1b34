//! The deduplicator: one keep set entry per group key, latest date wins,
//! ties and losers go to the remove set.

use vstd::prelude::*;
use crate::date::date_lt;
use crate::error::Error;
use crate::file::{FileView, FoundFile};
use crate::order::{lex_le, lex_lt, lemma_lex_total, lemma_lex_trans, sorted_lex, str_lt};
use crate::parse::{date_token_of, date_token_ok, parse_path, parsed_view, skipped};

verus! {

broadcast use vstd::seq_lib::group_to_multiset_ensures;

/// The views of a sequence of found files.
pub open spec fn views_of(v: Seq<FoundFile>) -> Seq<FileView> {
    Seq::new(v.len(), |i: int| v[i]@)
}

/// The views of a sequence of path strings.
pub open spec fn path_views(v: Seq<String>) -> Seq<Seq<char>> {
    Seq::new(v.len(), |i: int| v[i]@)
}

/// First index in `keep` holding an entry with group key `k`, or `-1`
/// when no entry has that key.
pub open spec fn find_key(keep: Seq<FileView>, k: Seq<char>) -> int
    decreases keep.len(),
{
    if keep.len() == 0 {
        -1
    } else if keep[0].key == k {
        0
    } else {
        let r = find_key(keep.drop_first(), k);
        if r == -1 {
            -1
        } else {
            r + 1
        }
    }
}

/// `find_key` returns `-1` exactly when no entry has the key, and
/// otherwise the first index of an entry with the key.
pub proof fn lemma_find_key(keep: Seq<FileView>, k: Seq<char>)
    ensures
        find_key(keep, k) == -1 ==> forall|i: int| 0 <= i < keep.len() ==> keep[i].key != k,
        find_key(keep, k) != -1 ==> {
            &&& 0 <= find_key(keep, k) < keep.len()
            &&& keep[find_key(keep, k)].key == k
            &&& forall|i: int| 0 <= i < find_key(keep, k) ==> keep[i].key != k
        },
    decreases keep.len(),
{
    if keep.len() > 0 && keep[0].key != k {
        let rest = keep.drop_first();
        lemma_find_key(rest, k);
        assert forall|i: int| 1 <= i < keep.len() implies keep[i] == rest[i - 1] by {
            assert(rest[i - 1] == keep[i]);
        }
        if find_key(rest, k) == -1 {
            assert forall|i: int| 0 <= i < keep.len() implies keep[i].key != k by {
                if i > 0 {
                    assert(rest[i - 1].key != k);
                }
            }
        } else {
            let r = find_key(rest, k);
            assert(keep[r + 1] == rest[r]);
            assert forall|i: int| 0 <= i < r + 1 implies keep[i].key != k by {
                if i > 0 {
                    assert(rest[i - 1].key != k);
                }
            }
        }
    }
}

/// Add a path to the remove set; a path already present is not added
/// again, so the remove set stays a set.
pub open spec fn add_path(remove: Seq<Seq<char>>, p: Seq<char>) -> Seq<Seq<char>> {
    if remove.contains(p) {
        remove
    } else {
        remove.push(p)
    }
}

/// One deduplication step.  A first sighting of a group key is kept.  A
/// later sighting replaces the kept entry only when its date is strictly
/// later; the loser's path joins the remove set.  On an equal or earlier
/// date the entry already present stays, so ties favour first-seen.
pub open spec fn offer_spec(keep: Seq<FileView>, remove: Seq<Seq<char>>, f: FileView) -> (
    Seq<FileView>,
    Seq<Seq<char>>,
) {
    let i = find_key(keep, f.key);
    if i == -1 {
        (keep.push(f), remove)
    } else if date_lt(keep[i].date, f.date) {
        (keep.update(i, f), add_path(remove, keep[i].path))
    } else {
        (keep, add_path(remove, f.path))
    }
}

/// What became of one offered path.
#[derive(Clone, Copy, Debug, PartialEq, Eq, Structural)]
pub enum ScanOutcome {
    /// The path parsed; its file was weighed against the keep set.
    Recorded,
    /// The filename had too few fields; the file was left alone.
    Skipped,
}

/// The keep set and remove set of a deduplication run.
pub struct DedupState {
    keep: Vec<FoundFile>,
    remove: Vec<String>,
}

impl DedupState {
    /// The keep set: one entry per group key, in first-seen order.
    pub closed spec fn keep_view(self) -> Seq<FileView> {
        views_of(self.keep@)
    }

    /// The remove set: the paths slated for deletion, in insertion order.
    pub closed spec fn remove_view(self) -> Seq<Seq<char>> {
        path_views(self.remove@)
    }

    /// Group keys of the keep set are pairwise distinct, and so are the
    /// paths of the remove set.
    pub open spec fn wf(self) -> bool {
        &&& (forall|i: int, j: int|
            0 <= i < j < self.keep_view().len() ==> self.keep_view()[i].key
                != self.keep_view()[j].key)
        &&& (forall|i: int, j: int|
            0 <= i < j < self.remove_view().len() ==> self.remove_view()[i]
                != self.remove_view()[j])
    }

    /// An empty state: nothing kept, nothing to remove.
    pub fn new() -> (s: Self)
        ensures
            s.keep_view().len() == 0,
            s.remove_view().len() == 0,
            s.wf(),
    {
        DedupState { keep: Vec::new(), remove: Vec::new() }
    }

    /// Number of files currently kept.
    pub fn keep_count(&self) -> (n: usize)
        ensures
            n == self.keep_view().len(),
    {
        self.keep.len()
    }

    /// Number of paths slated for removal.
    pub fn remove_count(&self) -> (n: usize)
        ensures
            n == self.remove_view().len(),
    {
        self.remove.len()
    }

    /// The kept files.
    pub fn keep_files(&self) -> (r: &Vec<FoundFile>)
        ensures
            views_of(r@) == self.keep_view(),
    {
        &self.keep
    }

    /// The paths slated for removal.
    pub fn remove_paths(&self) -> (r: &Vec<String>)
        ensures
            path_views(r@) == self.remove_view(),
    {
        &self.remove
    }

    /// The remove set in ascending lexicographic order: the order in
    /// which the deletion pass visits the paths.
    pub fn sorted_remove_paths(&self) -> (r: Vec<String>)
        ensures
            path_views(r@).to_multiset() == self.remove_view().to_multiset(),
            sorted_lex(path_views(r@)),
    {
        let mut out: Vec<String> = Vec::new();
        let n: usize = self.remove.len();
        let mut t: usize = 0;
        proof {
            assert(path_views(out@) =~= path_views(self.remove@.subrange(0, 0)));
        }
        while t < n
            invariant
                t <= n,
                n == self.remove.len(),
                path_views(out@).to_multiset() == path_views(
                    self.remove@.subrange(0, t as int),
                ).to_multiset(),
                sorted_lex(path_views(out@)),
            decreases n - t,
        {
            let x: String = self.remove[t].clone();
            let ghost ov = out@;
            let ghost opv = path_views(out@);
            let ghost prefix = path_views(self.remove@.subrange(0, t as int));
            let m: usize = out.len();
            let mut pos: usize = 0;
            while pos < m && str_lt(out[pos].as_str(), x.as_str())
                invariant
                    pos <= m,
                    m == out.len(),
                    ov == out@,
                    opv == path_views(out@),
                    forall|k: int| 0 <= k < pos ==> lex_lt(out@[k]@, x@),
                decreases m - pos,
            {
                pos += 1;
            }
            proof {
                ov.insert_ensures(pos as int, x);
                opv.insert_ensures(pos as int, x@);
            }
            out.insert(pos, x);
            proof {
                assert forall|k: int| 0 <= k < opv.insert(pos as int, x@).len() implies
                    path_views(out@)[k] == opv.insert(pos as int, x@)[k] by {
                    if k < pos {
                        assert(out@[k] == ov[k]);
                        assert(opv.insert(pos as int, x@)[k] == opv[k]);
                    } else if k > pos {
                        assert(out@[k] == ov[k - 1]);
                        assert(opv.insert(pos as int, x@)[(k - 1) + 1] == opv[k - 1]);
                    }
                }
                assert(path_views(out@) =~= opv.insert(pos as int, x@));
                assert(opv.insert(pos as int, x@).to_multiset() == opv.to_multiset().insert(x@));
                assert(self.remove@.subrange(0, t as int + 1) =~= self.remove@.subrange(
                    0,
                    t as int,
                ).push(self.remove@[t as int]));
                assert(path_views(self.remove@.subrange(0, t as int + 1)) =~= prefix.push(x@));
                assert(prefix.push(x@).to_multiset() == prefix.to_multiset().insert(x@));
                let v = path_views(out@);
                assert forall|a: int, b: int| 0 <= a < b < v.len() implies lex_le(v[a], v[b]) by {
                    if b < pos {
                        assert(lex_le(opv[a], opv[b]));
                    } else if b == pos {
                        assert(v[a] == opv[a]);
                        assert(lex_lt(ov[a]@, x@));
                    } else {
                        assert(v[b] == opv[b - 1]);
                        if a < pos {
                            assert(v[a] == opv[a]);
                            if a < b - 1 {
                                assert(lex_le(opv[a], opv[b - 1]));
                            }
                        } else if a == pos {
                            assert(v[a] == x@);
                            assert(pos < m);
                            assert(!lex_lt(ov[pos as int]@, x@));
                            lemma_lex_total(x@, opv[pos as int]);
                            if b - 1 > pos {
                                assert(lex_le(opv[pos as int], opv[b - 1]));
                            }
                            if lex_lt(x@, opv[pos as int]) && lex_lt(
                                opv[pos as int],
                                opv[b - 1],
                            ) {
                                lemma_lex_trans(x@, opv[pos as int], opv[b - 1]);
                            }
                        } else {
                            assert(v[a] == opv[a - 1]);
                            assert(lex_le(opv[a - 1], opv[b - 1]));
                        }
                    }
                }
            }
            t += 1;
        }
        proof {
            assert(self.remove@.subrange(0, n as int) =~= self.remove@);
            assert(path_views(self.remove@.subrange(0, n as int)) =~= self.remove_view());
        }
        out
    }

    /// Record `p` in the remove set unless it is already there.
    fn add_remove(&mut self, p: String)
        ensures
            old(self).wf() ==> final(self).wf(),
            final(self).keep_view() == old(self).keep_view(),
            final(self).remove_view() == add_path(old(self).remove_view(), p@),
    {
        let n: usize = self.remove.len();
        let mut j: usize = 0;
        while j < n
            invariant
                j <= n,
                n == self.remove.len(),
                *self == *old(self),
                forall|i: int| 0 <= i < j ==> self.remove_view()[i] != p@,
            decreases n - j,
        {
            if self.remove[j] == p {
                proof {
                    assert(self.remove_view()[j as int] == p@);
                    assert(self.remove_view().contains(p@));
                }
                return ;
            }
            j += 1;
        }
        proof {
            assert forall|i: int| 0 <= i < old(self).remove_view().len()
                implies old(self).remove_view()[i] != p@ by {}
            assert(!old(self).remove_view().contains(p@));
        }
        self.remove.push(p);
        proof {
            assert(self.remove_view() =~= old(self).remove_view().push(p@));
            assert(self.keep_view() == old(self).keep_view());
            if old(self).wf() {
                let r0 = old(self).remove_view();
                let rv = self.remove_view();
                assert forall|a: int, b: int| 0 <= a < b < rv.len() implies rv[a] != rv[b] by {
                    if b < r0.len() {
                        assert(r0[a] != r0[b]);
                    } else {
                        assert(rv[b] == p@);
                        assert(r0[a] != p@);
                    }
                }
                assert(self.wf());
            }
        }
    }

    /// Weigh one found file against the keep set, as `offer_spec` says.
    pub fn offer(&mut self, f: FoundFile)
        ensures
            old(self).wf() ==> final(self).wf(),
            (final(self).keep_view(), final(self).remove_view()) == offer_spec(
                old(self).keep_view(),
                old(self).remove_view(),
                f@,
            ),
    {
        let ghost k0 = old(self).keep_view();
        let n: usize = self.keep.len();
        let mut j: usize = 0;
        while j < n
            invariant
                k0 == old(self).keep_view(),
                j <= n,
                n == self.keep.len(),
                *self == *old(self),
                forall|i: int| 0 <= i < j ==> k0[i].key != f@.key,
            decreases n - j,
        {
            if self.keep[j].path == f.path {
                proof {
                    assert(k0[j as int].key == f@.key);
                    lemma_find_key(k0, f@.key);
                    let fk = find_key(k0, f@.key);
                    if fk == -1 {
                        assert(k0[j as int].key != f@.key);
                    } else if fk < j {
                        assert(k0[fk].key != f@.key);
                    } else if fk > j {
                        assert(k0[j as int].key != f@.key);
                    }
                    assert(find_key(k0, f@.key) == j);
                }
                if self.keep[j].date.is_before(&f.date) {
                    let displaced = self.keep.remove(j);
                    self.keep.insert(j, f);
                    proof {
                        assert(self.keep_view() =~= k0.update(j as int, f@));
                        assert(self.remove_view() == old(self).remove_view());
                        let kv = self.keep_view();
                        assert forall|a: int| 0 <= a < kv.len() implies kv[a].key == k0[a].key by {}
                        if old(self).wf() {
                            assert forall|a: int, b: int| 0 <= a < b < kv.len() implies kv[a].key
                                != kv[b].key by {
                                assert(k0[a].key != k0[b].key);
                            }
                            assert(self.wf());
                        }
                    }
                    self.add_remove(displaced.full_path);
                } else {
                    self.add_remove(f.full_path);
                }
                return ;
            }
            j += 1;
        }
        proof {
            lemma_find_key(k0, f@.key);
            assert(find_key(k0, f@.key) == -1);
        }
        self.keep.push(f);
        proof {
            assert(self.keep_view() =~= k0.push(f@));
            assert(self.remove_view() == old(self).remove_view());
            if old(self).wf() {
                let kv = self.keep_view();
                assert forall|a: int, b: int| 0 <= a < b < kv.len() implies kv[a].key
                    != kv[b].key by {
                    if b < k0.len() {
                        assert(k0[a].key != k0[b].key);
                    } else {
                        assert(kv[b] == f@);
                        assert(k0[a].key != f@.key);
                    }
                }
                assert(self.wf());
            }
        }
    }

    /// Handle one discovered path: parse it and, when it parses, weigh
    /// the file against the keep set.  A filename with too few fields is
    /// skipped and the state is unchanged; a date token that is not a
    /// valid basic calendar date is a fatal format error.
    pub fn process_path(&mut self, path: &str) -> (r: Result<ScanOutcome, Error>)
        ensures
            old(self).wf() ==> final(self).wf(),
            skipped(path@) ==> {
                &&& r == Ok::<ScanOutcome, Error>(ScanOutcome::Skipped)
                &&& final(self).keep_view() == old(self).keep_view()
                &&& final(self).remove_view() == old(self).remove_view()
            },
            !skipped(path@) && date_token_ok(date_token_of(path@)) ==> {
                &&& r == Ok::<ScanOutcome, Error>(ScanOutcome::Recorded)
                &&& (final(self).keep_view(), final(self).remove_view()) == offer_spec(
                    old(self).keep_view(),
                    old(self).remove_view(),
                    parsed_view(path@),
                )
            },
            !skipped(path@) && !date_token_ok(date_token_of(path@)) ==> {
                &&& (r matches Err(e) && e is FormatError)
                &&& final(self).keep_view() == old(self).keep_view()
                &&& final(self).remove_view() == old(self).remove_view()
            },
    {
        match parse_path(path) {
            Ok(None) => Ok(ScanOutcome::Skipped),
            Ok(Some(f)) => {
                self.offer(f);
                Ok(ScanOutcome::Recorded)
            },
            Err(e) => Err(e),
        }
    }
}

} // verus!
