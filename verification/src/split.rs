//! Splitting on a separator and re-joining, and proofs that the
//! parser's positional definitions agree with that reading: the group
//! key is the filename's fields except the trailing three, re-joined,
//! and the date token is the third-from-last field of the whole path.

use vstd::prelude::*;
use crate::parse::{date_token_of, filename_of, group_key_of, lemma_rfind, rfind, skipped};

verus! {

/// The separator-delimited fields of `s`, in order.
pub open spec fn split_on(s: Seq<char>, c: char) -> Seq<Seq<char>>
    decreases s.len(),
{
    if s.len() == 0 {
        seq![Seq::<char>::empty()]
    } else if s.last() == c {
        split_on(s.drop_last(), c).push(Seq::empty())
    } else {
        let r = split_on(s.drop_last(), c);
        r.update(r.len() - 1, r.last().push(s.last()))
    }
}

/// The fields joined back with the separator between them.
pub open spec fn join_with(parts: Seq<Seq<char>>, c: char) -> Seq<char>
    decreases parts.len(),
{
    if parts.len() == 0 {
        Seq::empty()
    } else if parts.len() == 1 {
        parts[0]
    } else {
        join_with(parts.drop_last(), c).push(c) + parts.last()
    }
}

/// A split always yields at least one field.
pub proof fn lemma_split_len(s: Seq<char>, c: char)
    ensures
        split_on(s, c).len() >= 1,
    decreases s.len(),
{
    if s.len() > 0 {
        lemma_split_len(s.drop_last(), c);
    }
}

/// `rfind` below `end` looks only at the prefix up to `end`.
proof fn lemma_rfind_prefix(s: Seq<char>, c: char, e: int, end: int)
    requires
        0 <= end <= e <= s.len(),
    ensures
        rfind(s.subrange(0, e), c, end) == rfind(s, c, end),
    decreases end,
{
    if end > 0 {
        assert(s.subrange(0, e)[end - 1] == s[end - 1]);
        lemma_rfind_prefix(s, c, e, end - 1);
    }
}

/// A split, read at its last separator: the fields before it, then the
/// piece after it.
proof fn lemma_split_unfold(s: Seq<char>, c: char)
    ensures
        ({
            let p = rfind(s, c, s.len() as int);
            &&& p == -1 ==> split_on(s, c) == seq![s]
            &&& p >= 0 ==> split_on(s, c) == split_on(s.subrange(0, p), c).push(
                s.subrange(p + 1, s.len() as int),
            )
        }),
    decreases s.len(),
{
    let p = rfind(s, c, s.len() as int);
    if s.len() == 0 {
        assert(s =~= Seq::<char>::empty());
    } else if s.last() == c {
        assert(p == s.len() - 1);
        assert(s.subrange(0, p) =~= s.drop_last());
        assert(s.subrange(p + 1, s.len() as int) =~= Seq::<char>::empty());
    } else {
        lemma_split_unfold(s.drop_last(), c);
        lemma_split_len(s.drop_last(), c);
        lemma_rfind(s, c, s.len() as int);
        assert(s.drop_last() =~= s.subrange(0, s.len() - 1));
        lemma_rfind_prefix(s, c, s.len() - 1, s.len() - 1);
        assert(p == rfind(s, c, s.len() - 1));
        assert(rfind(s.drop_last(), c, s.len() - 1) == p);
        let r = split_on(s.drop_last(), c);
        if p == -1 {
            assert(r == seq![s.drop_last()]);
            assert(r.last().push(s.last()) =~= s);
            assert(split_on(s, c) =~= seq![s]);
        } else {
            let front = split_on(s.subrange(0, p), c);
            assert(s.drop_last().subrange(0, p) =~= s.subrange(0, p));
            assert(s.drop_last().subrange(p + 1, s.len() - 1) =~= s.subrange(p + 1, s.len() - 1));
            assert(r == front.push(s.subrange(p + 1, s.len() - 1)));
            assert(r.last() == s.subrange(p + 1, s.len() - 1));
            assert(r.last().push(s.last()) =~= s.subrange(p + 1, s.len() as int));
            lemma_split_len(s.subrange(0, p), c);
            assert(split_on(s, c) =~= front.push(s.subrange(p + 1, s.len() as int)));
        }
    }
}

/// Splitting and re-joining gives the string back.
pub proof fn lemma_join_split(s: Seq<char>, c: char)
    ensures
        join_with(split_on(s, c), c) == s,
    decreases s.len(),
{
    if s.len() == 0 {
        assert(join_with(split_on(s, c), c) =~= s);
    } else if s.last() == c {
        lemma_join_split(s.drop_last(), c);
        lemma_split_len(s.drop_last(), c);
        let parts = split_on(s.drop_last(), c);
        let whole = parts.push(Seq::<char>::empty());
        assert(whole.drop_last() =~= parts);
        assert(join_with(whole, c) == join_with(parts, c).push(c) + Seq::<char>::empty());
        assert(join_with(whole, c) =~= s);
    } else {
        lemma_join_split(s.drop_last(), c);
        lemma_split_len(s.drop_last(), c);
        let r = split_on(s.drop_last(), c);
        let q = r.last().push(s.last());
        let r2 = r.update(r.len() - 1, q);
        if r.len() == 1 {
            assert(r2.len() == 1);
            assert(join_with(r2, c) == r2[0]);
            assert(r2[0] == q);
            assert(join_with(r, c) == r[0]);
            assert(join_with(r2, c) =~= s);
        } else {
            assert(r2.drop_last() =~= r.drop_last());
            assert(r2.last() == q);
            let head = join_with(r.drop_last(), c).push(c);
            assert(join_with(r2, c) == head + q);
            assert(join_with(r, c) == head + r.last());
            assert(head + r.last() == s.drop_last());
            assert((head + r.last()).len() == s.len() - 1);
            assert((head + q).len() == s.len());
            assert forall|k: int| 0 <= k < s.len() implies (head + q)[k] == s[k] by {
                if k < head.len() {
                    assert((head + r.last())[k] == head[k]);
                    assert(s.drop_last()[k] == s[k]);
                } else if k < s.len() - 1 {
                    assert((head + r.last())[k] == r.last()[k - head.len()]);
                    assert(q[k - head.len()] == r.last()[k - head.len()]);
                    assert(s.drop_last()[k] == s[k]);
                } else {
                    assert(q[k - head.len()] == q.last());
                    assert(q.last() == s.last());
                }
            }
            assert(head + q =~= s);
        }
    }
}

/// A path is skipped exactly when its filename holds fewer than three
/// underscore-delimited fields.
pub proof fn lemma_skipped_means_few_fields(p: Seq<char>)
    ensures
        skipped(p) <==> split_on(filename_of(p), '_').len() < 3,
{
    let f = filename_of(p);
    let u1 = rfind(f, '_', f.len() as int);
    let u2 = rfind(f, '_', u1);
    lemma_rfind(f, '_', f.len() as int);
    lemma_split_unfold(f, '_');
    if u1 >= 0 {
        lemma_rfind(f, '_', u1);
        let f1 = f.subrange(0, u1);
        lemma_rfind_prefix(f, '_', u1, u1);
        assert(rfind(f1, '_', f1.len() as int) == u2);
        lemma_split_unfold(f1, '_');
        if u2 >= 0 {
            let f2 = f.subrange(0, u2);
            assert(f1.subrange(0, u2) =~= f2);
            lemma_split_len(f2, '_');
        }
    }
}

/// The group key is the filename's fields except the trailing three,
/// re-joined with the separator.
pub proof fn lemma_group_key_is_join(p: Seq<char>)
    requires
        !skipped(p),
    ensures
        ({
            let sp = split_on(filename_of(p), '_');
            &&& sp.len() >= 3
            &&& group_key_of(p) == join_with(sp.take(sp.len() - 3), '_')
        }),
{
    let f = filename_of(p);
    let u1 = rfind(f, '_', f.len() as int);
    let u2 = rfind(f, '_', u1);
    let u3 = rfind(f, '_', u2);
    lemma_rfind(f, '_', f.len() as int);
    assert(u1 >= 0);
    lemma_rfind(f, '_', u1);
    assert(u2 >= 0);
    lemma_rfind(f, '_', u2);
    lemma_split_unfold(f, '_');
    let f1 = f.subrange(0, u1);
    lemma_rfind_prefix(f, '_', u1, u1);
    assert(f1.len() == u1);
    assert(rfind(f1, '_', f1.len() as int) == u2);
    lemma_split_unfold(f1, '_');
    let f2 = f.subrange(0, u2);
    assert(f1.subrange(0, u2) =~= f2);
    lemma_rfind_prefix(f, '_', u2, u2);
    assert(rfind(f2, '_', f2.len() as int) == u3);
    lemma_split_unfold(f2, '_');
    let sp = split_on(f, '_');
    if u3 == -1 {
        assert(split_on(f2, '_') == seq![f2]);
        assert(sp.len() == 3);
        assert(sp.take(0) =~= Seq::<Seq<char>>::empty());
        assert(group_key_of(p) =~= join_with(sp.take(0), '_'));
    } else {
        let f3 = f.subrange(0, u3);
        assert(f2.subrange(0, u3) =~= f3);
        let front = split_on(f3, '_');
        lemma_split_len(f3, '_');
        assert(sp == front.push(f2.subrange(u3 + 1, u2)).push(f1.subrange(u2 + 1, u1)).push(
            f.subrange(u1 + 1, f.len() as int),
        ));
        assert(sp.take(sp.len() - 3) =~= front);
        lemma_join_split(f3, '_');
        assert(group_key_of(p) == f3);
    }
}

/// The date token is the third-from-last underscore-delimited field of
/// the whole path string.
pub proof fn lemma_date_token_is_field(p: Seq<char>)
    requires
        !skipped(p),
    ensures
        ({
            let sp = split_on(p, '_');
            &&& sp.len() >= 3
            &&& date_token_of(p) == sp[sp.len() - 3]
        }),
{
    let f = filename_of(p);
    let q = rfind(p, '/', p.len() as int);
    let u1 = rfind(f, '_', f.len() as int);
    let u2 = rfind(f, '_', u1);
    lemma_rfind(f, '_', f.len() as int);
    assert(u1 >= 0);
    lemma_rfind(f, '_', u1);
    assert(u2 >= 0);
    lemma_rfind(p, '/', p.len() as int);
    assert(f == p.subrange(q + 1, p.len() as int));
    assert(f.len() == p.len() - q - 1);
    let v1 = rfind(p, '_', p.len() as int);
    let v2 = rfind(p, '_', v1);
    let v3 = rfind(p, '_', v2);
    assert(f[u1] == '_');
    assert(f[u2] == '_');
    assert(p[q + 1 + u1] == '_');
    assert(p[q + 1 + u2] == '_');
    lemma_rfind(p, '_', p.len() as int);
    assert(v1 >= q + 1 + u1);
    lemma_rfind(p, '_', v1);
    assert(v2 >= 0);
    lemma_rfind(p, '_', v2);
    lemma_split_unfold(p, '_');
    let p1 = p.subrange(0, v1);
    lemma_rfind_prefix(p, '_', v1, v1);
    assert(rfind(p1, '_', p1.len() as int) == v2);
    lemma_split_unfold(p1, '_');
    let p2 = p.subrange(0, v2);
    assert(p1.subrange(0, v2) =~= p2);
    lemma_rfind_prefix(p, '_', v2, v2);
    assert(rfind(p2, '_', p2.len() as int) == v3);
    lemma_split_unfold(p2, '_');
    let sp = split_on(p, '_');
    if v3 == -1 {
        assert(split_on(p2, '_') == seq![p2]);
        assert(sp.len() == 3);
        assert(sp[0] == p2);
        assert(date_token_of(p) =~= p2);
    } else {
        assert(p2.subrange(0, v3) =~= p.subrange(0, v3));
        let front = split_on(p.subrange(0, v3), '_');
        lemma_split_len(p.subrange(0, v3), '_');
        let tok = p2.subrange(v3 + 1, v2);
        assert(sp == front.push(tok).push(p1.subrange(v2 + 1, v1)).push(
            p.subrange(v1 + 1, p.len() as int),
        ));
        assert(sp[sp.len() - 3] == tok);
        assert(date_token_of(p) =~= tok);
    }
}

} // verus!
