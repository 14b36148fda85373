//! Ranking processes by resident memory: a stable sort by RSS, largest
//! first, followed by a cut to the first `n`.

use vstd::prelude::*;
use crate::types::{procs_view, ProcessMem, ProcessMemView};

verus! {

/// Number of leading entries of `t` whose RSS is at least `r`.
pub open spec fn rank_pos(t: Seq<ProcessMemView>, r: u64) -> nat
    decreases t.len(),
{
    if t.len() == 0 {
        0
    } else if t[0].rss_kb >= r {
        1 + rank_pos(t.drop_first(), r)
    } else {
        0
    }
}

/// `x` placed after every leading entry of `t` whose RSS is at least its own.
pub open spec fn insert_by_rss(t: Seq<ProcessMemView>, x: ProcessMemView) -> Seq<ProcessMemView> {
    let i = rank_pos(t, x.rss_kb) as int;
    t.take(i).push(x) + t.skip(i)
}

/// The stable sort of `s` by RSS, largest first: entries with equal RSS keep
/// their order.
pub open spec fn sort_by_rss(s: Seq<ProcessMemView>) -> Seq<ProcessMemView>
    decreases s.len(),
{
    if s.len() == 0 {
        s
    } else {
        insert_by_rss(sort_by_rss(s.drop_last()), s.last())
    }
}

/// `truncate(n)`: the first `n` entries, or all of them.
pub open spec fn first_n(s: Seq<ProcessMemView>, n: nat) -> Seq<ProcessMemView> {
    if n < s.len() {
        s.take(n as int)
    } else {
        s
    }
}

/// The top `n` of `s` by RSS.
pub open spec fn top_by_rss_of(s: Seq<ProcessMemView>, n: nat) -> Seq<ProcessMemView> {
    first_n(sort_by_rss(s), n)
}

/// RSS never increases along `s`.
pub open spec fn rss_descending(s: Seq<ProcessMemView>) -> bool {
    forall|i: int, j: int| 0 <= i <= j < s.len() ==> s[i].rss_kb >= s[j].rss_kb
}

proof fn lemma_rank_pos(t: Seq<ProcessMemView>, r: u64)
    ensures
        rank_pos(t, r) <= t.len(),
        forall|j: int| 0 <= j < rank_pos(t, r) ==> t[j].rss_kb >= r,
        rank_pos(t, r) < t.len() ==> t[rank_pos(t, r) as int].rss_kb < r,
    decreases t.len(),
{
    if t.len() > 0 && t[0].rss_kb >= r {
        lemma_rank_pos(t.drop_first(), r);
        assert forall|j: int| 1 <= j < t.len() implies t[j] == t.drop_first()[j - 1] by {}
    }
}

/// Inserting by rank keeps a descending list descending.
proof fn lemma_insert_keeps_descending(t: Seq<ProcessMemView>, x: ProcessMemView)
    requires
        rss_descending(t),
    ensures
        rss_descending(insert_by_rss(t, x)),
        insert_by_rss(t, x).len() == t.len() + 1,
{
    lemma_rank_pos(t, x.rss_kb);
    let i = rank_pos(t, x.rss_kb) as int;
    let u = insert_by_rss(t, x);
    assert forall|a: int, b: int| 0 <= a <= b < u.len() implies u[a].rss_kb >= u[b].rss_kb by {
        let va = if a < i { t[a] } else if a == i { x } else { t[a - 1] };
        let vb = if b < i { t[b] } else if b == i { x } else { t[b - 1] };
        assert(u[a] == va);
        assert(u[b] == vb);
        if a < i && b > i {
            assert(t[a].rss_kb >= t[b - 1].rss_kb);
        }
        if a == i && b > i {
            assert(t[i].rss_kb < x.rss_kb);
            assert(t[i].rss_kb >= t[b - 1].rss_kb);
        }
    }
}

/// The sort gives a list whose RSS never increases.
pub proof fn lemma_sort_by_rss_descending(s: Seq<ProcessMemView>)
    ensures
        rss_descending(sort_by_rss(s)),
        sort_by_rss(s).len() == s.len(),
    decreases s.len(),
{
    if s.len() > 0 {
        lemma_sort_by_rss_descending(s.drop_last());
        lemma_insert_keeps_descending(sort_by_rss(s.drop_last()), s.last());
    }
}

/// The sort only reorders: every entry is kept, as often as it occurs.
pub proof fn lemma_sort_by_rss_permutes(s: Seq<ProcessMemView>)
    ensures
        sort_by_rss(s).to_multiset() == s.to_multiset(),
    decreases s.len(),
{
    broadcast use vstd::seq_lib::group_to_multiset_ensures;

    if s.len() > 0 {
        lemma_sort_by_rss_permutes(s.drop_last());
        let t = sort_by_rss(s.drop_last());
        let x = s.last();
        lemma_rank_pos(t, x.rss_kb);
        let i = rank_pos(t, x.rss_kb) as int;
        vstd::seq_lib::lemma_multiset_commutative(t.take(i).push(x), t.skip(i));
        vstd::seq_lib::lemma_multiset_commutative(t.take(i), t.skip(i));
        assert(t.take(i) + t.skip(i) =~= t);
        assert(s.drop_last().push(x) =~= s);
    }
}

/// The ranked list of the top `n` is descending, at most `n` long, and made
/// of entries of `s`.
pub proof fn lemma_top_by_rss(s: Seq<ProcessMemView>, n: nat)
    ensures
        rss_descending(top_by_rss_of(s, n)),
        top_by_rss_of(s, n).len() == if n < s.len() { n } else { s.len() },
        forall|k: int|
            0 <= k < top_by_rss_of(s, n).len() ==> s.contains(#[trigger] top_by_rss_of(s, n)[k]),
{
    broadcast use vstd::seq_lib::group_to_multiset_ensures;

    lemma_sort_by_rss_descending(s);
    lemma_sort_by_rss_permutes(s);
    let t = sort_by_rss(s);
    assert forall|k: int| 0 <= k < top_by_rss_of(s, n).len() implies s.contains(
        #[trigger] top_by_rss_of(s, n)[k],
    ) by {
        let e = t[k];
        assert(top_by_rss_of(s, n)[k] == e);
        assert(t.contains(e));
        assert(t.to_multiset().count(e) > 0);
        assert(s.to_multiset().count(e) > 0);
    }
}

/// The top `n` and the entries left out make up exactly the entries of `s`,
/// and no entry left out has more RSS than any entry kept.
pub proof fn lemma_top_keeps_largest(s: Seq<ProcessMemView>, n: nat)
    ensures
        top_by_rss_of(s, n) + sort_by_rss(s).skip(top_by_rss_of(s, n).len() as int)
            =~= sort_by_rss(s),
        (top_by_rss_of(s, n) + sort_by_rss(s).skip(top_by_rss_of(s, n).len() as int)).to_multiset()
            == s.to_multiset(),
        forall|i: int, j: int|
            0 <= i < top_by_rss_of(s, n).len() && 0 <= j < sort_by_rss(s).skip(
                top_by_rss_of(s, n).len() as int,
            ).len() ==> #[trigger] top_by_rss_of(s, n)[i].rss_kb >= #[trigger] sort_by_rss(s).skip(
                top_by_rss_of(s, n).len() as int,
            )[j].rss_kb,
{
    lemma_sort_by_rss_descending(s);
    lemma_sort_by_rss_permutes(s);
    let t = sort_by_rss(s);
    let k = top_by_rss_of(s, n).len() as int;
    assert(top_by_rss_of(s, n) + t.skip(k) =~= t);
    assert forall|i: int, j: int|
        0 <= i < k && 0 <= j < t.skip(k).len() implies #[trigger] top_by_rss_of(s, n)[i].rss_kb
        >= #[trigger] t.skip(k)[j].rss_kb by {
        assert(top_by_rss_of(s, n)[i] == t[i]);
        assert(t.skip(k)[j] == t[k + j]);
    }
}

/// The entries of `s` with RSS `r`, in order.
pub open spec fn with_rss(s: Seq<ProcessMemView>, r: u64) -> Seq<ProcessMemView> {
    s.filter(|x: ProcessMemView| x.rss_kb == r)
}

proof fn lemma_with_rss_push(a: Seq<ProcessMemView>, x: ProcessMemView, r: u64)
    ensures
        with_rss(a.push(x), r) == (if x.rss_kb == r {
            with_rss(a, r).push(x)
        } else {
            with_rss(a, r)
        }),
{
    reveal(Seq::filter);
    assert(a.push(x).drop_last() =~= a);
}

proof fn lemma_with_rss_none(a: Seq<ProcessMemView>, r: u64)
    requires
        forall|j: int| 0 <= j < a.len() ==> a[j].rss_kb != r,
    ensures
        with_rss(a, r) == Seq::<ProcessMemView>::empty(),
    decreases a.len(),
{
    reveal(Seq::filter);
    if a.len() > 0 {
        lemma_with_rss_none(a.drop_last(), r);
    }
}

/// The sort is stable: the entries with any given RSS come out in the order
/// in which they came in.
pub proof fn lemma_sort_by_rss_stable(s: Seq<ProcessMemView>, r: u64)
    ensures
        with_rss(sort_by_rss(s), r) == with_rss(s, r),
    decreases s.len(),
{
    if s.len() > 0 {
        let t = sort_by_rss(s.drop_last());
        let x = s.last();
        lemma_sort_by_rss_stable(s.drop_last(), r);
        lemma_sort_by_rss_descending(s.drop_last());
        lemma_rank_pos(t, x.rss_kb);
        let i = rank_pos(t, x.rss_kb) as int;
        let pred = |y: ProcessMemView| y.rss_kb == r;
        Seq::filter_distributes_over_add(t.take(i).push(x), t.skip(i), pred);
        Seq::filter_distributes_over_add(t.take(i), t.skip(i), pred);
        assert(t.take(i) + t.skip(i) =~= t);
        lemma_with_rss_push(t.take(i), x, r);
        lemma_with_rss_push(s.drop_last(), x, r);
        assert(s.drop_last().push(x) =~= s);
        if x.rss_kb == r {
            assert forall|j: int| 0 <= j < t.skip(i).len() implies t.skip(i)[j].rss_kb != r by {
                assert(t.skip(i)[j] == t[i + j]);
                assert(t[i].rss_kb >= t[i + j].rss_kb);
            }
            lemma_with_rss_none(t.skip(i), r);
            assert(with_rss(t.take(i), r) + Seq::<ProcessMemView>::empty() =~= with_rss(t.take(i), r));
        }
    }
}

/// Ranks `procs` by RSS, largest first (stable for equal RSS), and keeps the
/// first `n`.
pub fn top_by_rss(procs: Vec<ProcessMem>, n: usize) -> (out: Vec<ProcessMem>)
    ensures
        procs_view(out@) == top_by_rss_of(procs_view(procs@), n as nat),
{
    let ghost s = procs_view(procs@);
    let mut src = procs;
    let mut rev: Vec<ProcessMem> = Vec::new();
    let len = src.len();
    while src.len() > 0
        invariant
            s.len() == len,
            src.len() + rev.len() == len,
            forall|j: int| 0 <= j < src.len() ==> (#[trigger] src@[j])@ == s[j],
            forall|j: int| 0 <= j < rev.len() ==> (#[trigger] rev@[j])@ == s[len - 1 - j],
        decreases src.len(),
    {
        let p = src.pop().unwrap();
        rev.push(p);
    }
    let mut out: Vec<ProcessMem> = Vec::new();
    let mut i: usize = 0;
    assert(s.take(0) =~= Seq::<ProcessMemView>::empty());
    assert(procs_view(out@) =~= Seq::<ProcessMemView>::empty());
    while rev.len() > 0
        invariant
            s.len() == len,
            i + rev.len() == len,
            forall|j: int| 0 <= j < rev.len() ==> (#[trigger] rev@[j])@ == s[len - 1 - j],
            procs_view(out@) == sort_by_rss(s.take(i as int)),
        decreases rev.len(),
    {
        let p = rev.pop().unwrap();
        let ghost t = procs_view(out@);
        assert(p@ == s[i as int]);
        assert(s.take(i + 1).drop_last() =~= s.take(i as int));
        proof {
            lemma_rank_pos(t, p.rss_kb);
        }
        let mut k: usize = 0;
        while k < out.len() && out[k].rss_kb >= p.rss_kb
            invariant
                k <= out.len(),
                t == procs_view(out@),
                forall|j: int| 0 <= j < k ==> t[j].rss_kb >= p.rss_kb,
            decreases out.len() - k,
        {
            k = k + 1;
        }
        assert(rank_pos(t, p.rss_kb) == k) by {
            lemma_rank_pos_is(t, p.rss_kb, k as int);
        }
        out.insert(k, p);
        assert(procs_view(out@) =~= insert_by_rss(t, s[i as int]));
        i = i + 1;
    }
    assert(s.take(len as int) =~= s);
    let ghost sorted = procs_view(out@);
    if n < out.len() {
        out.truncate(n);
        assert(procs_view(out@) =~= sorted.take(n as int));
    }
    out
}

/// `rank_pos` is the length of the leading run of entries with RSS at least `r`.
proof fn lemma_rank_pos_is(t: Seq<ProcessMemView>, r: u64, k: int)
    requires
        0 <= k <= t.len(),
        forall|j: int| 0 <= j < k ==> t[j].rss_kb >= r,
        k == t.len() || t[k].rss_kb < r,
    ensures
        rank_pos(t, r) == k,
    decreases t.len(),
{
    if k > 0 {
        assert forall|j: int| 0 <= j < k - 1 implies t.drop_first()[j].rss_kb >= r by {
            assert(t.drop_first()[j] == t[j + 1]);
        }
        if k < t.len() {
            assert(t.drop_first()[k - 1] == t[k]);
        }
        lemma_rank_pos_is(t.drop_first(), r, k - 1);
    }
}

} // verus!
