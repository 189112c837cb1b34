//! Properties of the deduplication rule, proved once for every input.

use vstd::prelude::*;
use crate::date::{date_le, date_lt};
use crate::dedup::{add_path, find_key, lemma_find_key, offer_spec};
use crate::file::FileView;

verus! {

/// The deduplication of a whole walk: every discovered file offered in
/// arrival order, starting from empty keep and remove sets.
pub open spec fn run_dedup(files: Seq<FileView>) -> (Seq<FileView>, Seq<Seq<char>>)
    decreases files.len(),
{
    if files.len() == 0 {
        (Seq::empty(), Seq::empty())
    } else {
        let prev = run_dedup(files.drop_last());
        offer_spec(prev.0, prev.1, files.last())
    }
}

/// One step of a run: offering one more file applies `offer_spec` to the
/// state the earlier files produced.
pub proof fn lemma_run_dedup_step(files: Seq<FileView>, f: FileView)
    ensures
        run_dedup(files.push(f)) == offer_spec(run_dedup(files).0, run_dedup(files).1, f),
{
    assert(files.push(f).drop_last() =~= files);
    assert(files.push(f).last() == f);
}

/// Some entry of `keep` sits at path `p`.
pub open spec fn has_path(keep: Seq<FileView>, p: Seq<char>) -> bool {
    exists|i: int| 0 <= i < keep.len() && keep[i].path == p
}

/// The offered files have pairwise distinct paths, as the files of one
/// directory walk do.
pub open spec fn distinct_paths(files: Seq<FileView>) -> bool {
    forall|i: int, j: int| 0 <= i < j < files.len() ==> files[i].path != files[j].path
}

/// The keep and remove sets partition the offered files: no path is both
/// kept and slated for removal, every offered file is kept or has its
/// path slated for removal, and everything kept or slated came from the
/// offered files.
pub open spec fn partitioned(
    keep: Seq<FileView>,
    remove: Seq<Seq<char>>,
    offered: Seq<FileView>,
) -> bool {
    &&& (forall|i: int, j: int|
        0 <= i < keep.len() && 0 <= j < remove.len() ==> keep[i].path != remove[j])
    &&& (forall|i: int|
        0 <= i < offered.len() ==> has_path(keep, offered[i].path) || remove.contains(
            offered[i].path,
        ))
    &&& (forall|i: int| 0 <= i < keep.len() ==> offered.contains(keep[i]))
    &&& (forall|j: int|
        0 <= j < remove.len() ==> exists|i: int|
            0 <= i < offered.len() && offered[i].path == #[trigger] remove[j])
    &&& (forall|i: int, j: int| 0 <= i < j < keep.len() ==> keep[i].path != keep[j].path)
}

/// What `add_path` holds: the old paths and the new one, nothing else.
pub proof fn lemma_add_path_contains(r: Seq<Seq<char>>, p: Seq<char>, q: Seq<char>)
    ensures
        add_path(r, p).contains(q) <==> (r.contains(q) || q == p),
{
    if !r.contains(p) {
        assert(r.push(p)[r.len() as int] == p);
        if r.contains(q) {
            let w = choose|w: int| 0 <= w < r.len() && r[w] == q;
            assert(r.push(p)[w] == q);
        }
        if r.push(p).contains(q) {
            let w = choose|w: int| 0 <= w < r.push(p).len() && r.push(p)[w] == q;
            if w < r.len() {
                assert(r[w] == q);
            }
        }
    }
}

/// Appending an entry with an unseen key puts it at the end of the
/// search order.
proof fn lemma_find_key_append(keep: Seq<FileView>, f: FileView)
    requires
        find_key(keep, f.key) == -1,
    ensures
        find_key(keep.push(f), f.key) == keep.len(),
{
    lemma_find_key(keep, f.key);
    let s = keep.push(f);
    lemma_find_key(s, f.key);
    let fk = find_key(s, f.key);
    assert(s[keep.len() as int] == f);
    if fk == -1 {
        assert(s[keep.len() as int].key != f.key);
        assert(false);
    } else if fk < keep.len() {
        assert(s[fk] == keep[fk]);
        assert(false);
    }
}

/// Grouping determinism: when two files of one group carry different
/// dates and the group is not yet in the keep set, offering them in
/// either order keeps exactly the later-dated file and slates the
/// earlier-dated file's path for removal.
pub proof fn lemma_grouping_determinism(
    keep: Seq<FileView>,
    remove: Seq<Seq<char>>,
    f1: FileView,
    f2: FileView,
)
    requires
        find_key(keep, f1.key) == -1,
        f2.key == f1.key,
        f1.date != f2.date,
    ensures
        ({
            let one = offer_spec(keep, remove, f1);
            let both = offer_spec(one.0, one.1, f2);
            let winner = if date_lt(f1.date, f2.date) {
                f2
            } else {
                f1
            };
            let loser = if date_lt(f1.date, f2.date) {
                f1
            } else {
                f2
            };
            &&& both.0 == keep.push(winner)
            &&& both.1 == add_path(remove, loser.path)
        }),
        offer_spec(offer_spec(keep, remove, f1).0, offer_spec(keep, remove, f1).1, f2)
            == offer_spec(offer_spec(keep, remove, f2).0, offer_spec(keep, remove, f2).1, f1),
{
    assert(date_lt(f1.date, f2.date) || date_lt(f2.date, f1.date));
    lemma_both_orders(keep, remove, f1, f2);
    lemma_both_orders(keep, remove, f2, f1);
}

/// One direction of the two-offer computation used by
/// `lemma_grouping_determinism` and `lemma_tie_stability`: offering `fa`
/// then `fb` keeps `fb` exactly when `fb`'s date is strictly later.
proof fn lemma_both_orders(
    keep: Seq<FileView>,
    remove: Seq<Seq<char>>,
    fa: FileView,
    fb: FileView,
)
    requires
        find_key(keep, fa.key) == -1,
        fb.key == fa.key,
    ensures
        ({
            let one = offer_spec(keep, remove, fa);
            let both = offer_spec(one.0, one.1, fb);
            if date_lt(fa.date, fb.date) {
                both.0 == keep.push(fb) && both.1 == add_path(remove, fa.path)
            } else {
                both.0 == keep.push(fa) && both.1 == add_path(remove, fb.path)
            }
        }),
{
    let one = offer_spec(keep, remove, fa);
    assert(one.0 == keep.push(fa) && one.1 == remove);
    lemma_find_key_append(keep, fa);
    assert(find_key(one.0, fb.key) == keep.len());
    assert(one.0[keep.len() as int] == fa);
    if date_lt(fa.date, fb.date) {
        assert(keep.push(fa).update(keep.len() as int, fb) =~= keep.push(fb));
    }
}

/// Tie stability: when two files of one group carry the same date and
/// the group is not yet in the keep set, the first one offered is kept
/// and the second one's path is slated for removal.
pub proof fn lemma_tie_stability(
    keep: Seq<FileView>,
    remove: Seq<Seq<char>>,
    f1: FileView,
    f2: FileView,
)
    requires
        find_key(keep, f1.key) == -1,
        f2.key == f1.key,
        f2.date == f1.date,
    ensures
        ({
            let one = offer_spec(keep, remove, f1);
            let both = offer_spec(one.0, one.1, f2);
            &&& both.0 == keep.push(f1)
            &&& both.1 == add_path(remove, f2.path)
        }),
{
    assert(!date_lt(f1.date, f2.date));
    lemma_both_orders(keep, remove, f1, f2);
}

/// One offer preserves the partition, provided the new file's path was
/// never offered before.
pub proof fn lemma_offer_preserves_partition(
    keep: Seq<FileView>,
    remove: Seq<Seq<char>>,
    offered: Seq<FileView>,
    f: FileView,
)
    requires
        partitioned(keep, remove, offered),
        forall|i: int| 0 <= i < offered.len() ==> offered[i].path != f.path,
    ensures
        partitioned(
            offer_spec(keep, remove, f).0,
            offer_spec(keep, remove, f).1,
            offered.push(f),
        ),
{
    lemma_find_key(keep, f.key);
    let i = find_key(keep, f.key);
    let k2 = offer_spec(keep, remove, f).0;
    let r2 = offer_spec(keep, remove, f).1;
    let o2 = offered.push(f);
    assert(o2[offered.len() as int] == f);
    assert forall|x: int| 0 <= x < offered.len() implies o2[x] == offered[x] by {}
    assert forall|x: int| 0 <= x < keep.len() implies keep[x].path != f.path by {
        assert(offered.contains(keep[x]));
        let w = choose|w: int| 0 <= w < offered.len() && offered[w] == keep[x];
        assert(offered[w].path != f.path);
    }
    assert forall|y: int| 0 <= y < remove.len() implies remove[y] != f.path by {
        let w = choose|w: int| 0 <= w < offered.len() && offered[w].path == remove[y];
        assert(offered[w].path != f.path);
    }
    if i == -1 {
        assert(k2 == keep.push(f) && r2 == remove);
        assert forall|x: int, y: int|
            0 <= x < k2.len() && 0 <= y < r2.len() implies k2[x].path != r2[y] by {
            if x < keep.len() {
                assert(keep[x].path != remove[y]);
            } else {
                assert(k2[x] == f);
            }
        }
        assert forall|x: int|
            0 <= x < o2.len() implies has_path(k2, o2[x].path) || r2.contains(o2[x].path) by {
            if x < offered.len() {
                if has_path(keep, offered[x].path) {
                    let w = choose|w: int| 0 <= w < keep.len() && keep[w].path == offered[x].path;
                    assert(k2[w].path == o2[x].path);
                }
            } else {
                assert(k2[keep.len() as int].path == o2[x].path);
            }
        }
        assert forall|x: int| 0 <= x < k2.len() implies o2.contains(k2[x]) by {
            if x < keep.len() {
                let w = choose|w: int| 0 <= w < offered.len() && offered[w] == keep[x];
                assert(o2[w] == k2[x]);
            } else {
                assert(o2[offered.len() as int] == k2[x]);
            }
        }
        assert forall|y: int| #![trigger r2[y]] 0 <= y < r2.len() implies exists|x: int|
            0 <= x < o2.len() && (#[trigger] o2[x]).path == r2[y] by {
            let w = choose|w: int| 0 <= w < offered.len() && offered[w].path == remove[y];
            assert(o2[w].path == r2[y]);
        }
        assert forall|x: int, y: int| 0 <= x < y < k2.len() implies k2[x].path != k2[y].path by {
            if y < keep.len() {
                assert(keep[x].path != keep[y].path);
            } else {
                assert(k2[y] == f);
                assert(keep[x].path != f.path);
            }
        }
    } else if date_lt(keep[i].date, f.date) {
        assert(k2 == keep.update(i, f) && r2 == add_path(remove, keep[i].path));
        assert forall|x: int| 0 <= x < k2.len() implies (if x == i {
            k2[x] == f
        } else {
            k2[x] == keep[x]
        }) by {}
        assert forall|x: int, y: int|
            0 <= x < k2.len() && 0 <= y < r2.len() implies k2[x].path != r2[y] by {
            lemma_add_path_contains(remove, keep[i].path, r2[y]);
            assert(r2.contains(r2[y]));
            if remove.contains(r2[y]) {
                let w = choose|w: int| 0 <= w < remove.len() && remove[w] == r2[y];
                if x == i {
                    assert(remove[w] != f.path);
                } else {
                    assert(keep[x].path != remove[w]);
                }
            } else {
                assert(r2[y] == keep[i].path);
                if x != i {
                    assert(keep[x].path != keep[i].path);
                } else {
                    assert(keep[i].path != f.path);
                }
            }
        }
        assert forall|x: int|
            0 <= x < o2.len() implies has_path(k2, o2[x].path) || r2.contains(o2[x].path) by {
            lemma_add_path_contains(remove, keep[i].path, o2[x].path);
            if x < offered.len() {
                if has_path(keep, offered[x].path) {
                    let w = choose|w: int| 0 <= w < keep.len() && keep[w].path == offered[x].path;
                    if w == i {
                        assert(r2.contains(keep[i].path));
                    } else {
                        assert(k2[w].path == o2[x].path);
                    }
                }
            } else {
                assert(k2[i].path == o2[x].path);
            }
        }
        assert forall|x: int| 0 <= x < k2.len() implies o2.contains(k2[x]) by {
            if x == i {
                assert(o2[offered.len() as int] == k2[x]);
            } else {
                let w = choose|w: int| 0 <= w < offered.len() && offered[w] == keep[x];
                assert(o2[w] == k2[x]);
            }
        }
        assert forall|y: int| #![trigger r2[y]] 0 <= y < r2.len() implies exists|x: int|
            0 <= x < o2.len() && (#[trigger] o2[x]).path == r2[y] by {
            lemma_add_path_contains(remove, keep[i].path, r2[y]);
            assert(r2.contains(r2[y]));
            if remove.contains(r2[y]) {
                let w = choose|w: int| 0 <= w < remove.len() && remove[w] == r2[y];
                let v = choose|v: int| 0 <= v < offered.len() && offered[v].path == remove[w];
                assert(o2[v].path == r2[y]);
            } else {
                assert(r2[y] == keep[i].path);
                assert(offered.contains(keep[i]));
                let v = choose|v: int| 0 <= v < offered.len() && offered[v] == keep[i];
                assert(o2[v].path == r2[y]);
            }
        }
        assert forall|x: int, y: int| 0 <= x < y < k2.len() implies k2[x].path != k2[y].path by {
            if x != i && y != i {
                assert(keep[x].path != keep[y].path);
            } else if x == i {
                assert(keep[y].path != f.path);
            } else {
                assert(keep[x].path != f.path);
            }
        }
    } else {
        assert(k2 == keep && r2 == add_path(remove, f.path));
        assert forall|x: int, y: int|
            0 <= x < k2.len() && 0 <= y < r2.len() implies k2[x].path != r2[y] by {
            lemma_add_path_contains(remove, f.path, r2[y]);
            assert(r2.contains(r2[y]));
            if remove.contains(r2[y]) {
                let w = choose|w: int| 0 <= w < remove.len() && remove[w] == r2[y];
                assert(keep[x].path != remove[w]);
            } else {
                assert(r2[y] == f.path);
                assert(keep[x].path != f.path);
            }
        }
        assert forall|x: int|
            0 <= x < o2.len() implies has_path(k2, o2[x].path) || r2.contains(o2[x].path) by {
            lemma_add_path_contains(remove, f.path, o2[x].path);
            if x < offered.len() {
                if remove.contains(offered[x].path) {
                    assert(r2.contains(o2[x].path));
                }
            } else {
                assert(o2[x].path == f.path);
                assert(r2.contains(f.path));
            }
        }
        assert forall|y: int| #![trigger r2[y]] 0 <= y < r2.len() implies exists|x: int|
            0 <= x < o2.len() && (#[trigger] o2[x]).path == r2[y] by {
            lemma_add_path_contains(remove, f.path, r2[y]);
            assert(r2.contains(r2[y]));
            if remove.contains(r2[y]) {
                let w = choose|w: int| 0 <= w < remove.len() && remove[w] == r2[y];
                let v = choose|v: int| 0 <= v < offered.len() && offered[v].path == remove[w];
                assert(o2[v].path == r2[y]);
            } else {
                assert(r2[y] == f.path);
                assert(o2[offered.len() as int].path == r2[y]);
            }
        }
    }
}

/// Every offered file whose path is slated for removal lost to a kept
/// entry of its own group carrying an equal or later date.
pub open spec fn kept_dates_dominate(
    keep: Seq<FileView>,
    remove: Seq<Seq<char>>,
    offered: Seq<FileView>,
) -> bool {
    forall|x: int|
        #![trigger remove.contains(offered[x].path)]
        0 <= x < offered.len() && remove.contains(offered[x].path) ==> exists|k: int|
            0 <= k < keep.len() && (#[trigger] keep[k]).key == offered[x].key && date_le(
                offered[x].date,
                keep[k].date,
            )
}

/// One offer preserves date dominance, provided the new file's path was
/// never offered before and the offered paths are pairwise distinct.
pub proof fn lemma_offer_preserves_dominance(
    keep: Seq<FileView>,
    remove: Seq<Seq<char>>,
    offered: Seq<FileView>,
    f: FileView,
)
    requires
        partitioned(keep, remove, offered),
        kept_dates_dominate(keep, remove, offered),
        distinct_paths(offered),
        forall|i: int| 0 <= i < offered.len() ==> offered[i].path != f.path,
    ensures
        kept_dates_dominate(
            offer_spec(keep, remove, f).0,
            offer_spec(keep, remove, f).1,
            offered.push(f),
        ),
{
    lemma_find_key(keep, f.key);
    let i = find_key(keep, f.key);
    let k2 = offer_spec(keep, remove, f).0;
    let r2 = offer_spec(keep, remove, f).1;
    let o2 = offered.push(f);
    assert(o2[offered.len() as int] == f);
    assert forall|x: int| 0 <= x < offered.len() implies o2[x] == offered[x] by {}
    assert forall|y: int| 0 <= y < remove.len() implies remove[y] != f.path by {
        let w = choose|w: int| 0 <= w < offered.len() && offered[w].path == remove[y];
        assert(offered[w].path != f.path);
    }
    assert forall|x: int|
        0 <= x < o2.len() && r2.contains(o2[x].path) implies exists|k: int|
            0 <= k < k2.len() && (#[trigger] k2[k]).key == o2[x].key && date_le(
                o2[x].date,
                k2[k].date,
            ) by {
        if i == -1 {
            if x < offered.len() {
                assert(remove.contains(offered[x].path));
                let k = choose|k: int|
                    0 <= k < keep.len() && (#[trigger] keep[k]).key == offered[x].key && date_le(
                        offered[x].date,
                        keep[k].date,
                    );
                assert(k2[k] == keep[k]);
            } else {
                let w = choose|w: int| 0 <= w < remove.len() && remove[w] == f.path;
                assert(false);
            }
        } else if date_lt(keep[i].date, f.date) {
            lemma_add_path_contains(remove, keep[i].path, o2[x].path);
            if x < offered.len() {
                if remove.contains(offered[x].path) {
                    let k = choose|k: int|
                        0 <= k < keep.len() && (#[trigger] keep[k]).key == offered[x].key
                            && date_le(offered[x].date, keep[k].date);
                    if k == i {
                        assert(k2[i] == f);
                        assert(k2[i].key == o2[x].key);
                        assert(date_le(o2[x].date, k2[i].date));
                    } else {
                        assert(k2[k] == keep[k]);
                    }
                } else {
                    assert(offered[x].path == keep[i].path);
                    assert(offered.contains(keep[i]));
                    let w = choose|w: int| 0 <= w < offered.len() && offered[w] == keep[i];
                    assert(offered[x].path == offered[w].path);
                    assert(x == w);
                    assert(k2[i] == f);
                    assert(k2[i].key == o2[x].key);
                    assert(date_le(o2[x].date, k2[i].date));
                }
            } else {
                assert(o2[x].path == f.path);
                assert(offered.contains(keep[i]));
                let w = choose|w: int| 0 <= w < offered.len() && offered[w] == keep[i];
                assert(keep[i].path != f.path);
                let v = choose|v: int| 0 <= v < remove.len() && remove[v] == f.path;
                assert(false);
            }
        } else {
            lemma_add_path_contains(remove, f.path, o2[x].path);
            if x < offered.len() {
                assert(offered[x].path != f.path);
                assert(remove.contains(offered[x].path));
                let k = choose|k: int|
                    0 <= k < keep.len() && (#[trigger] keep[k]).key == offered[x].key && date_le(
                        offered[x].date,
                        keep[k].date,
                    );
                assert(k2[k] == keep[k]);
            } else {
                assert(k2[i] == keep[i]);
                assert(k2[i].key == f.key);
                assert(!date_lt(keep[i].date, f.date));
                assert(date_le(f.date, keep[i].date));
                assert(date_le(o2[x].date, k2[i].date));
            }
        }
    }
}

/// Date dominance after a full walk: every file of the walk whose path
/// is slated for removal has a kept file of its own group with an equal
/// or later date.
pub proof fn lemma_kept_dates_dominate(files: Seq<FileView>)
    requires
        distinct_paths(files),
    ensures
        kept_dates_dominate(run_dedup(files).0, run_dedup(files).1, files),
    decreases files.len(),
{
    if files.len() > 0 {
        let prev = files.drop_last();
        assert forall|x: int| 0 <= x < prev.len() implies prev[x] == files[x] by {}
        lemma_kept_dates_dominate(prev);
        lemma_partition_invariant(prev);
        lemma_offer_preserves_dominance(
            run_dedup(prev).0,
            run_dedup(prev).1,
            prev,
            files.last(),
        );
        assert(prev.push(files.last()) =~= files);
    }
}

/// Partition invariant: after a full walk over files with pairwise
/// distinct paths, the keep set and the remove set are disjoint and
/// together cover exactly the files offered.
pub proof fn lemma_partition_invariant(files: Seq<FileView>)
    requires
        distinct_paths(files),
    ensures
        partitioned(run_dedup(files).0, run_dedup(files).1, files),
    decreases files.len(),
{
    if files.len() > 0 {
        let prev = files.drop_last();
        assert forall|x: int| 0 <= x < prev.len() implies prev[x] == files[x] by {}
        lemma_partition_invariant(prev);
        lemma_offer_preserves_partition(
            run_dedup(prev).0,
            run_dedup(prev).1,
            prev,
            files.last(),
        );
        assert(prev.push(files.last()) =~= files);
    }
}

} // verus!
