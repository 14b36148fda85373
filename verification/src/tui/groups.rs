//! The process table grouped by name: one row per distinct process name, with
//! the number of processes and their summed resident memory, largest first.

use vstd::prelude::*;
use crate::types::{procs_view, ProcessMem, ProcessMemView};

verus! {

/// One row of the grouped process table.
#[derive(Debug, Clone)]
pub struct ProcessGroup {
    /// The shared process name.
    pub name: String,
    /// How many processes carry the name.
    pub count: usize,
    /// Their summed resident set size in kilobytes (saturating at `u64::MAX`).
    pub rss_kb: u64,
}

/// The mathematical view of a [`ProcessGroup`].
pub struct ProcessGroupView {
    pub name: Seq<char>,
    pub count: nat,
    pub rss_kb: u64,
}

impl View for ProcessGroup {
    type V = ProcessGroupView;

    open spec fn view(&self) -> ProcessGroupView {
        ProcessGroupView { name: self.name@, count: self.count as nat, rss_kb: self.rss_kb }
    }
}

/// The views of a list of groups.
pub open spec fn groups_view(v: Seq<ProcessGroup>) -> Seq<ProcessGroupView> {
    v.map_values(|g: ProcessGroup| g@)
}

/// `a + b`, saturating at `u64::MAX`.
pub open spec fn sat_add(a: u64, b: u64) -> u64 {
    if a + b > u64::MAX {
        u64::MAX
    } else {
        (a + b) as u64
    }
}

/// The index of the first group of `gs` named `name`, or `-1`.
pub open spec fn name_index(gs: Seq<ProcessGroupView>, name: Seq<char>) -> int
    decreases gs.len(),
{
    if gs.len() == 0 {
        -1
    } else if gs[0].name == name {
        0
    } else {
        let r = name_index(gs.drop_first(), name);
        if r < 0 {
            -1
        } else {
            r + 1
        }
    }
}

/// One process added to the groups: counted into the group of its name, or
/// opening a new group at the end.
pub open spec fn group_step(gs: Seq<ProcessGroupView>, p: ProcessMemView) -> Seq<
    ProcessGroupView,
> {
    let i = name_index(gs, p.name);
    if i < 0 {
        gs.push(ProcessGroupView { name: p.name, count: 1, rss_kb: p.rss_kb })
    } else {
        gs.update(
            i,
            ProcessGroupView {
                name: gs[i].name,
                count: gs[i].count + 1,
                rss_kb: sat_add(gs[i].rss_kb, p.rss_kb),
            },
        )
    }
}

/// The groups of `ps` in the order in which their names first occur.
pub open spec fn groups_in_order(ps: Seq<ProcessMemView>) -> Seq<ProcessGroupView>
    decreases ps.len(),
{
    if ps.len() == 0 {
        Seq::empty()
    } else {
        group_step(groups_in_order(ps.drop_last()), ps.last())
    }
}

/// Number of leading groups of `t` whose RSS is at least `r`.
pub open spec fn group_rank(t: Seq<ProcessGroupView>, r: u64) -> nat
    decreases t.len(),
{
    if t.len() == 0 {
        0
    } else if t[0].rss_kb >= r {
        1 + group_rank(t.drop_first(), r)
    } else {
        0
    }
}

/// `x` placed after every leading group of `t` whose RSS is at least its own.
pub open spec fn insert_group(t: Seq<ProcessGroupView>, x: ProcessGroupView) -> Seq<
    ProcessGroupView,
> {
    let i = group_rank(t, x.rss_kb) as int;
    t.take(i).push(x) + t.skip(i)
}

/// The stable sort of `s` by RSS, largest first.
pub open spec fn sort_groups(s: Seq<ProcessGroupView>) -> Seq<ProcessGroupView>
    decreases s.len(),
{
    if s.len() == 0 {
        s
    } else {
        insert_group(sort_groups(s.drop_last()), s.last())
    }
}

/// The rows of the grouped process table for the processes `ps`: one per
/// distinct name, largest summed RSS first (equal sums in the order in which
/// the names first occur).
pub open spec fn group_by_name_of(ps: Seq<ProcessMemView>) -> Seq<ProcessGroupView> {
    sort_groups(groups_in_order(ps))
}

proof fn lemma_name_index(gs: Seq<ProcessGroupView>, name: Seq<char>)
    ensures
        -1 <= name_index(gs, name) < gs.len(),
        name_index(gs, name) >= 0 ==> gs[name_index(gs, name)].name == name,
        name_index(gs, name) < 0 ==> forall|j: int| 0 <= j < gs.len() ==> gs[j].name != name,
    decreases gs.len(),
{
    if gs.len() > 0 && gs[0].name != name {
        lemma_name_index(gs.drop_first(), name);
        assert forall|j: int| 1 <= j < gs.len() implies gs[j] == gs.drop_first()[j - 1] by {}
    }
}

proof fn lemma_name_index_is(gs: Seq<ProcessGroupView>, name: Seq<char>, k: int)
    requires
        0 <= k <= gs.len(),
        forall|j: int| 0 <= j < k ==> gs[j].name != name,
        k == gs.len() || gs[k].name == name,
    ensures
        name_index(gs, name) == (if k == gs.len() { -1 } else { k }),
    decreases gs.len(),
{
    if k > 0 {
        assert forall|j: int| 0 <= j < k - 1 implies gs.drop_first()[j].name != name by {
            assert(gs.drop_first()[j] == gs[j + 1]);
        }
        if k < gs.len() {
            assert(gs.drop_first()[k - 1] == gs[k]);
        }
        lemma_name_index_is(gs.drop_first(), name, k - 1);
    }
}

proof fn lemma_group_rank(t: Seq<ProcessGroupView>, r: u64)
    ensures
        group_rank(t, r) <= t.len(),
        forall|j: int| 0 <= j < group_rank(t, r) ==> t[j].rss_kb >= r,
        group_rank(t, r) < t.len() ==> t[group_rank(t, r) as int].rss_kb < r,
    decreases t.len(),
{
    if t.len() > 0 && t[0].rss_kb >= r {
        lemma_group_rank(t.drop_first(), r);
        assert forall|j: int| 1 <= j < t.len() implies t[j] == t.drop_first()[j - 1] by {}
    }
}

proof fn lemma_group_rank_is(t: Seq<ProcessGroupView>, r: u64, k: int)
    requires
        0 <= k <= t.len(),
        forall|j: int| 0 <= j < k ==> t[j].rss_kb >= r,
        k == t.len() || t[k].rss_kb < r,
    ensures
        group_rank(t, r) == k,
    decreases t.len(),
{
    if k > 0 {
        assert forall|j: int| 0 <= j < k - 1 implies t.drop_first()[j].rss_kb >= r by {
            assert(t.drop_first()[j] == t[j + 1]);
        }
        if k < t.len() {
            assert(t.drop_first()[k - 1] == t[k]);
        }
        lemma_group_rank_is(t.drop_first(), r, k - 1);
    }
}

/// There are never more groups than processes.
proof fn lemma_groups_in_order_len(ps: Seq<ProcessMemView>)
    ensures
        groups_in_order(ps).len() <= ps.len(),
    decreases ps.len(),
{
    if ps.len() > 0 {
        lemma_groups_in_order_len(ps.drop_last());
        lemma_name_index(groups_in_order(ps.drop_last()), ps.last().name);
    }
}

proof fn lemma_sort_groups_len(s: Seq<ProcessGroupView>)
    ensures
        sort_groups(s).len() == s.len(),
    decreases s.len(),
{
    if s.len() > 0 {
        lemma_sort_groups_len(s.drop_last());
        lemma_group_rank(sort_groups(s.drop_last()), s.last().rss_kb);
    }
}

/// RSS never increases along `s`.
pub open spec fn groups_descending(s: Seq<ProcessGroupView>) -> bool {
    forall|i: int, j: int| 0 <= i <= j < s.len() ==> s[i].rss_kb >= s[j].rss_kb
}

/// No two groups of `s` share a name.
pub open spec fn names_distinct(s: Seq<ProcessGroupView>) -> bool {
    forall|i: int, j: int| 0 <= i < j < s.len() ==> s[i].name != s[j].name
}

proof fn lemma_insert_group_descending(t: Seq<ProcessGroupView>, x: ProcessGroupView)
    requires
        groups_descending(t),
    ensures
        groups_descending(insert_group(t, x)),
{
    lemma_group_rank(t, x.rss_kb);
    let i = group_rank(t, x.rss_kb) as int;
    let u = insert_group(t, x);
    assert forall|a: int, b: int| 0 <= a <= b < u.len() implies u[a].rss_kb >= u[b].rss_kb by {
        let va = if a < i { t[a] } else if a == i { x } else { t[a - 1] };
        let vb = if b < i { t[b] } else if b == i { x } else { t[b - 1] };
        assert(u[a] == va);
        assert(u[b] == vb);
        if a < i && b > i {
            assert(t[a].rss_kb >= t[b - 1].rss_kb);
        }
        if a == i && b > i {
            assert(t[i].rss_kb < x.rss_kb);
            assert(t[i].rss_kb >= t[b - 1].rss_kb);
        }
    }
}

proof fn lemma_sort_groups(s: Seq<ProcessGroupView>)
    ensures
        groups_descending(sort_groups(s)),
        sort_groups(s).len() == s.len(),
        forall|k: int| 0 <= k < s.len() ==> sort_groups(s).contains(#[trigger] s[k]),
        forall|k: int| 0 <= k < s.len() ==> s.contains(#[trigger] sort_groups(s)[k]),
    decreases s.len(),
{
    if s.len() > 0 {
        let p = s.drop_last();
        let t = sort_groups(p);
        let x = s.last();
        lemma_sort_groups(p);
        lemma_insert_group_descending(t, x);
        lemma_group_rank(t, x.rss_kb);
        let i = group_rank(t, x.rss_kb) as int;
        let u = insert_group(t, x);
        assert(u.len() == s.len());
        assert forall|k: int| 0 <= k < s.len() implies u.contains(#[trigger] s[k]) by {
            if k == s.len() - 1 {
                assert(u[i] == x);
            } else {
                assert(s[k] == p[k]);
                assert(t.contains(p[k]));
                let m = choose|m: int| 0 <= m < t.len() && t[m] == p[k];
                if m < i {
                    assert(u[m] == t[m]);
                } else {
                    assert(u[m + 1] == t[m]);
                }
            }
        }
        assert forall|k: int| 0 <= k < s.len() implies s.contains(#[trigger] u[k]) by {
            if k == i {
                assert(s[s.len() - 1] == x);
            } else {
                let m = if k < i { k } else { k - 1 };
                assert(u[k] == t[m]);
                assert(p.contains(t[m]));
                let q = choose|q: int| 0 <= q < p.len() && p[q] == t[m];
                assert(s[q] == p[q]);
            }
        }
    }
}

proof fn lemma_groups_in_order_distinct(ps: Seq<ProcessMemView>)
    ensures
        names_distinct(groups_in_order(ps)),
    decreases ps.len(),
{
    if ps.len() > 0 {
        let g = groups_in_order(ps.drop_last());
        lemma_groups_in_order_distinct(ps.drop_last());
        lemma_name_index(g, ps.last().name);
        let u = groups_in_order(ps);
        assert forall|i: int, j: int| 0 <= i < j < u.len() implies u[i].name != u[j].name by {
            if j < g.len() {
                assert(u[i].name == g[i].name);
                assert(u[j].name == g[j].name);
            }
        }
    }
}

/// Whether some group of `s` is named `name`.
pub open spec fn has_group(s: Seq<ProcessGroupView>, name: Seq<char>) -> bool {
    exists|j: int| 0 <= j < s.len() && (#[trigger] s[j]).name == name
}

/// Whether some process of `ps` is named `name`.
pub open spec fn has_process(ps: Seq<ProcessMemView>, name: Seq<char>) -> bool {
    exists|k: int| 0 <= k < ps.len() && (#[trigger] ps[k]).name == name
}

/// The grouped table has one row per distinct name of `ps` and no other row,
/// no two rows share a name, it has no more rows than there are processes,
/// and the summed RSS never increases down the table.
pub proof fn lemma_group_by_name(ps: Seq<ProcessMemView>)
    ensures
        groups_descending(group_by_name_of(ps)),
        group_by_name_of(ps).len() <= ps.len(),
        names_distinct(group_by_name_of(ps)),
        forall|k: int| 0 <= k < ps.len() ==> has_group(group_by_name_of(ps), #[trigger] ps[k].name),
        forall|j: int|
            0 <= j < group_by_name_of(ps).len() ==> has_process(
                ps,
                #[trigger] group_by_name_of(ps)[j].name,
            ),
{
    let g = groups_in_order(ps);
    lemma_groups_in_order_len(ps);
    lemma_sort_groups(g);
    lemma_groups_in_order_distinct(ps);
    lemma_groups_cover(ps);
    lemma_sort_keeps_distinct(g);
    lemma_sort_keeps_names(g);
}

/// Sorting a list with distinct names gives a list with distinct names.
proof fn lemma_sort_keeps_distinct(g: Seq<ProcessGroupView>)
    requires
        names_distinct(g),
    ensures
        names_distinct(sort_groups(g)),
{
    lemma_sort_groups(g);
    let s = sort_groups(g);
    assert forall|i: int, j: int| 0 <= i < j < s.len() implies s[i].name != s[j].name by {
        lemma_sort_groups_distinct_positions(g, i, j);
    }
}

/// Sorting keeps the set of names.
proof fn lemma_sort_keeps_names(g: Seq<ProcessGroupView>)
    ensures
        forall|n: Seq<char>| has_group(g, n) ==> #[trigger] has_group(sort_groups(g), n),
        forall|j: int|
            0 <= j < sort_groups(g).len() ==> has_group(g, #[trigger] sort_groups(g)[j].name),
{
    lemma_sort_groups(g);
    let s = sort_groups(g);
    assert forall|n: Seq<char>| has_group(g, n) implies #[trigger] has_group(s, n) by {
        let a = choose|a: int| 0 <= a < g.len() && (#[trigger] g[a]).name == n;
        assert(s.contains(g[a]));
        let b = choose|b: int| 0 <= b < s.len() && s[b] == g[a];
        assert(s[b].name == n);
    }
    assert forall|j: int| 0 <= j < s.len() implies has_group(g, #[trigger] s[j].name) by {
        assert(g.contains(s[j]));
        let a = choose|a: int| 0 <= a < g.len() && g[a] == s[j];
        assert(g[a].name == s[j].name);
    }
}

/// Every process name has a group, and every group is the name of a process.
proof fn lemma_groups_cover(ps: Seq<ProcessMemView>)
    ensures
        forall|k: int| 0 <= k < ps.len() ==> has_group(groups_in_order(ps), #[trigger] ps[k].name),
        forall|a: int|
            0 <= a < groups_in_order(ps).len() ==> has_process(
                ps,
                #[trigger] groups_in_order(ps)[a].name,
            ),
    decreases ps.len(),
{
    if ps.len() > 0 {
        let p = ps.drop_last();
        let g = groups_in_order(p);
        let u = groups_in_order(ps);
        let x = ps.last();
        lemma_groups_cover(p);
        lemma_name_index(g, x.name);
        let i = name_index(g, x.name);
        assert forall|k: int| 0 <= k < ps.len() implies has_group(u, #[trigger] ps[k].name) by {
            if k == ps.len() - 1 {
                if i < 0 {
                    assert(u[g.len() as int].name == x.name);
                } else {
                    assert(u[i].name == x.name);
                }
            } else {
                assert(ps[k] == p[k]);
                assert(has_group(g, p[k].name));
                let a = choose|a: int| 0 <= a < g.len() && (#[trigger] g[a]).name == p[k].name;
                assert(u[a].name == g[a].name);
            }
        }
        assert forall|a: int| 0 <= a < u.len() implies has_process(ps, #[trigger] u[a].name) by {
            if a < g.len() {
                assert(u[a].name == g[a].name);
                assert(has_process(p, g[a].name));
                let k = choose|k: int| 0 <= k < p.len() && (#[trigger] p[k]).name == g[a].name;
                assert(ps[k] == p[k]);
            } else {
                assert(u[a].name == x.name);
                assert(ps[ps.len() - 1] == x);
            }
        }
    }
}

/// The sort moves distinct positions of a list with distinct names to groups
/// with distinct names.
proof fn lemma_sort_groups_distinct_positions(g: Seq<ProcessGroupView>, i: int, j: int)
    requires
        names_distinct(g),
        0 <= i < j < g.len(),
    ensures
        sort_groups(g)[i].name != sort_groups(g)[j].name,
{
    lemma_sort_groups_perm(g);
    let s = sort_groups(g);
    let a = s.to_multiset();
    broadcast use vstd::seq_lib::group_to_multiset_ensures;
    if s[i].name == s[j].name {
        lemma_sort_groups(g);
        let ia = choose|ia: int| 0 <= ia < g.len() && g[ia] == s[i];
        let ja = choose|ja: int| 0 <= ja < g.len() && g[ja] == s[j];
        if ia == ja {
            // The same group would occur twice in the sorted list but once in `g`.
            assert(s[i] == s[j]);
            lemma_count_distinct(g, ia);
            lemma_count_two(s, i, j);
            assert(false);
        } else {
            assert(g[ia].name == g[ja].name);
            assert(false);
        }
    }
}

proof fn lemma_sort_groups_perm(s: Seq<ProcessGroupView>)
    ensures
        sort_groups(s).to_multiset() == s.to_multiset(),
    decreases s.len(),
{
    broadcast use vstd::seq_lib::group_to_multiset_ensures;

    if s.len() > 0 {
        lemma_sort_groups_perm(s.drop_last());
        let t = sort_groups(s.drop_last());
        let x = s.last();
        lemma_group_rank(t, x.rss_kb);
        let i = group_rank(t, x.rss_kb) as int;
        vstd::seq_lib::lemma_multiset_commutative(t.take(i).push(x), t.skip(i));
        vstd::seq_lib::lemma_multiset_commutative(t.take(i), t.skip(i));
        assert(t.take(i) + t.skip(i) =~= t);
        assert(s.drop_last().push(x) =~= s);
    }
}

/// In a list with distinct names, a group occurs once.
proof fn lemma_count_distinct(g: Seq<ProcessGroupView>, ia: int)
    requires
        names_distinct(g),
        0 <= ia < g.len(),
    ensures
        g.to_multiset().count(g[ia]) == 1,
    decreases g.len(),
{
    broadcast use vstd::seq_lib::group_to_multiset_ensures;

    let p = g.drop_last();
    assert(p.push(g.last()) =~= g);
    if ia == g.len() - 1 {
        assert forall|k: int| 0 <= k < p.len() implies p[k] != g[ia] by {
            assert(p[k].name == g[k].name);
        }
        assert(!p.contains(g[ia]));
    } else {
        assert forall|a: int, b: int| 0 <= a < b < p.len() implies p[a].name != p[b].name by {
            assert(p[a] == g[a]);
            assert(p[b] == g[b]);
        }
        lemma_count_distinct(p, ia);
        assert(g.last().name != g[ia].name);
    }
}

/// A value at two positions of a list occurs at least twice.
proof fn lemma_count_two(s: Seq<ProcessGroupView>, i: int, j: int)
    requires
        0 <= i < j < s.len(),
        s[i] == s[j],
    ensures
        s.to_multiset().count(s[i]) >= 2,
    decreases s.len(),
{
    broadcast use vstd::seq_lib::group_to_multiset_ensures;

    let p = s.drop_last();
    assert(p.push(s.last()) =~= s);
    if j == s.len() - 1 {
        assert(p[i] == s[i]);
        assert(p.contains(s[i]));
    } else {
        assert(p[i] == s[i]);
        assert(p[j] == s[j]);
        lemma_count_two(p, i, j);
    }
}

/// Groups the processes by name: one row per distinct name with the number of
/// processes and their summed RSS, largest sum first (equal sums in the order
/// in which the names first occur).
pub fn group_by_name(procs: &Vec<ProcessMem>) -> (out: Vec<ProcessGroup>)
    ensures
        groups_view(out@) == group_by_name_of(procs_view(procs@)),
{
    let ghost s = procs_view(procs@);
    let mut gs: Vec<ProcessGroup> = Vec::new();
    let mut i: usize = 0;
    assert(s.take(0) =~= Seq::<ProcessMemView>::empty());
    assert(groups_view(gs@) =~= Seq::<ProcessGroupView>::empty());
    while i < procs.len()
        invariant
            i <= procs.len(),
            s == procs_view(procs@),
            groups_view(gs@) == groups_in_order(s.take(i as int)),
            forall|j: int| 0 <= j < gs.len() ==> (#[trigger] gs@[j]).count <= i,
        decreases procs.len() - i,
    {
        let p = &procs[i];
        let ghost g = groups_view(gs@);
        assert(s.take(i + 1).drop_last() =~= s.take(i as int));
        assert(s.take(i + 1).last() == p@);
        let mut k: usize = 0;
        while k < gs.len() && gs[k].name != p.name
            invariant
                k <= gs.len(),
                g == groups_view(gs@),
                forall|j: int| 0 <= j < k ==> g[j].name != p.name@,
            decreases gs.len() - k,
        {
            k = k + 1;
        }
        proof {
            lemma_name_index_is(g, p.name@, k as int);
        }
        if k == gs.len() {
            gs.push(ProcessGroup { name: p.name.clone(), count: 1, rss_kb: p.rss_kb });
            assert(groups_view(gs@) =~= g.push(
                ProcessGroupView { name: p.name@, count: 1, rss_kb: p.rss_kb },
            ));
        } else {
            let old_g = &gs[k];
            let ng = ProcessGroup {
                name: old_g.name.clone(),
                count: old_g.count + 1,
                rss_kb: old_g.rss_kb.saturating_add(p.rss_kb),
            };
            gs.set(k, ng);
            assert(groups_view(gs@) =~= g.update(
                k as int,
                ProcessGroupView {
                    name: g[k as int].name,
                    count: g[k as int].count + 1,
                    rss_kb: sat_add(g[k as int].rss_kb, p.rss_kb),
                },
            ));
        }
        i = i + 1;
    }
    assert(s.take(procs.len() as int) =~= s);
    let ghost g = groups_view(gs@);
    let mut out: Vec<ProcessGroup> = Vec::new();
    let mut i: usize = 0;
    assert(g.take(0) =~= Seq::<ProcessGroupView>::empty());
    assert(groups_view(out@) =~= Seq::<ProcessGroupView>::empty());
    while i < gs.len()
        invariant
            i <= gs.len(),
            g == groups_view(gs@),
            groups_view(out@) == sort_groups(g.take(i as int)),
        decreases gs.len() - i,
    {
        let x = ProcessGroup { name: gs[i].name.clone(), count: gs[i].count, rss_kb: gs[i].rss_kb };
        let ghost t = groups_view(out@);
        assert(x@ == g[i as int]);
        assert(g.take(i + 1).drop_last() =~= g.take(i as int));
        let mut k: usize = 0;
        while k < out.len() && out[k].rss_kb >= x.rss_kb
            invariant
                k <= out.len(),
                t == groups_view(out@),
                forall|j: int| 0 <= j < k ==> t[j].rss_kb >= x.rss_kb,
            decreases out.len() - k,
        {
            k = k + 1;
        }
        proof {
            lemma_group_rank_is(t, x.rss_kb, k as int);
        }
        out.insert(k, x);
        assert(groups_view(out@) =~= insert_group(t, g[i as int]));
        i = i + 1;
    }
    assert(g.take(gs.len() as int) =~= g);
    out
}

/// The number of rows of the grouped table: at most the number of processes.
pub fn group_count(procs: &Vec<ProcessMem>) -> (n: usize)
    ensures
        n == group_by_name_of(procs_view(procs@)).len(),
        n <= procs.len(),
{
    proof {
        lemma_groups_in_order_len(procs_view(procs@));
        lemma_sort_groups_len(groups_in_order(procs_view(procs@)));
    }
    group_by_name(procs).len()
}

} // verus!
