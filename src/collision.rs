//! Which bodies merge when they touch during one simulation step.
//!
//! Contact between two bodies is decided by the caller (their distance against
//! the contact radius) and handed in as a square table. The policy here is
//! "first match wins": bodies are scanned in order, and a body that is still free
//! merges with the first later free body that it touches. A body therefore takes
//! part in at most one merge per step, and no mass is ever counted twice.
use vstd::prelude::*;

verus! {

/// The outcome of the contact scan for one step.
pub struct MergePlan {
    /// Index pairs `(i, j)` with `i < j` of the bodies that merge, in scan order.
    pub pairs: Vec<(usize, usize)>,
    /// Indices of the bodies that merge with nothing, in increasing order.
    pub untouched: Vec<usize>,
}

/// `c` is a square table: `c[i][j]` says whether bodies `i` and `j` touch.
pub open spec fn is_contact_table(c: Seq<Seq<bool>>) -> bool {
    forall|i: int| 0 <= i < c.len() ==> #[trigger] c[i].len() == c.len()
}

/// The bodies taken by the pairs `ps`.
pub open spec fn members(ps: Seq<(int, int)>) -> Set<int>
    decreases ps.len(),
{
    if ps.len() == 0 {
        Set::empty()
    } else {
        members(ps.drop_last()).insert(ps.last().0).insert(ps.last().1)
    }
}

/// The first body `j >= from` that is not in `taken` and touches body `i`.
pub open spec fn first_partner(c: Seq<Seq<bool>>, taken: Set<int>, i: int, from: int) -> Option<int>
    decreases c.len() - from,
{
    if from < 0 || from >= c.len() {
        None
    } else if !taken.contains(from) && c[i][from] {
        Some(from)
    } else {
        first_partner(c, taken, i, from + 1)
    }
}

/// The pairs chosen after scanning bodies `0 .. k`: each body that is still free
/// pairs with the first later free body that it touches.
pub open spec fn scan_pairs(c: Seq<Seq<bool>>, k: int) -> Seq<(int, int)>
    decreases k,
{
    if k <= 0 {
        seq![]
    } else {
        let prev = scan_pairs(c, k - 1);
        let i = k - 1;
        if members(prev).contains(i) {
            prev
        } else {
            match first_partner(c, members(prev), i, i + 1) {
                Some(j) => prev.push((i, j)),
                None => prev,
            }
        }
    }
}

/// The pairs of bodies that merge in one step.
pub open spec fn merge_pairs(c: Seq<Seq<bool>>) -> Seq<(int, int)> {
    scan_pairs(c, c.len() as int)
}

/// The bodies below `k` that belong to no pair of `ps`, in increasing order.
pub open spec fn unpaired(ps: Seq<(int, int)>, k: int) -> Seq<int>
    decreases k,
{
    if k <= 0 {
        seq![]
    } else {
        let prev = unpaired(ps, k - 1);
        if members(ps).contains(k - 1) {
            prev
        } else {
            prev.push(k - 1)
        }
    }
}

/// A partner found by the scan is a free body at or after `from` that touches `i`.
proof fn lemma_first_partner(c: Seq<Seq<bool>>, taken: Set<int>, i: int, from: int)
    requires
        0 <= from,
    ensures
        match first_partner(c, taken, i, from) {
            Some(j) => from <= j < c.len() && !taken.contains(j) && c[i][j],
            None => forall|b: int| from <= b < c.len() ==> taken.contains(b) || !c[i][b],
        },
    decreases c.len() - from,
{
    if 0 <= from < c.len() && !(!taken.contains(from) && c[i][from]) {
        lemma_first_partner(c, taken, i, from + 1);
    }
}

/// Each pair joins two bodies of the table that touch, the lower index first.
pub open spec fn pairs_touch(c: Seq<Seq<bool>>, ps: Seq<(int, int)>) -> bool {
    forall|t: int|
        0 <= t < ps.len() ==> 0 <= (#[trigger] ps[t]).0 < ps[t].1 < c.len() && c[ps[t].0][ps[t].1]
}

/// No body belongs to two pairs.
pub open spec fn pairs_disjoint(ps: Seq<(int, int)>) -> bool {
    forall|t: int, u: int|
        0 <= t < u < ps.len() ==> {
            &&& (#[trigger] ps[t]).0 != (#[trigger] ps[u]).0
            &&& ps[t].0 != ps[u].1
            &&& ps[t].1 != ps[u].0
            &&& ps[t].1 != ps[u].1
        }
}

/// Body `m` belongs to one of the pairs `ps`.
pub open spec fn in_some_pair(ps: Seq<(int, int)>, m: int) -> bool {
    exists|t: int| 0 <= t < ps.len() && ((#[trigger] ps[t]).0 == m || ps[t].1 == m)
}

/// `members` holds exactly the bodies named by the pairs.
pub proof fn lemma_members(ps: Seq<(int, int)>)
    ensures
        forall|m: int| #[trigger] members(ps).contains(m) <==> in_some_pair(ps, m),
    decreases ps.len(),
{
    if ps.len() > 0 {
        let prev = ps.drop_last();
        lemma_members(prev);
        assert forall|m: int| #[trigger] members(ps).contains(m) <==> in_some_pair(ps, m) by {
            let n = ps.len() - 1;
            assert(ps[n] == ps.last());
            if members(prev).contains(m) {
                let t = choose|t: int| 0 <= t < prev.len() && ((#[trigger] prev[t]).0 == m || prev[t].1 == m);
                assert(ps[t] == prev[t]);
                assert(in_some_pair(ps, m));
            } else if ps.last().0 == m || ps.last().1 == m {
                assert(in_some_pair(ps, m));
            }
            if in_some_pair(ps, m) {
                let t = choose|t: int| 0 <= t < ps.len() && ((#[trigger] ps[t]).0 == m || ps[t].1 == m);
                if t < n {
                    assert(prev[t] == ps[t]);
                    assert(in_some_pair(prev, m));
                    assert(members(prev).contains(m));
                }
                assert(members(ps).contains(m));
            }
        }
    }
}

/// What the scan of bodies `0 .. k` has built: valid, disjoint pairs, and no two
/// bodies that are still free at the end, the first below `k`, touch.
proof fn lemma_scan_pairs(c: Seq<Seq<bool>>, k: int)
    requires
        is_contact_table(c),
        0 <= k <= c.len(),
    ensures
        pairs_touch(c, scan_pairs(c, k)),
        pairs_disjoint(scan_pairs(c, k)),
        forall|a: int, b: int|
            0 <= a < k && a < b < c.len() && !members(scan_pairs(c, k)).contains(a) && !members(scan_pairs(c, k)).contains(b)
                ==> !c[a][b],
    decreases k,
{
    if k > 0 {
        let prev = scan_pairs(c, k - 1);
        let i = k - 1;
        lemma_scan_pairs(c, k - 1);
        lemma_members(prev);
        if !members(prev).contains(i) {
            lemma_first_partner(c, members(prev), i, i + 1);
            match first_partner(c, members(prev), i, i + 1) {
                Some(j) => {
                    let ps = prev.push((i, j));
                    assert(ps.drop_last() =~= prev);
                    assert(members(ps) == members(prev).insert(i).insert(j));
                    assert forall|t: int| 0 <= t < ps.len() implies 0 <= (#[trigger] ps[t]).0 < ps[t].1 < c.len() && c[ps[t].0][ps[t].1] by {
                        if t < prev.len() {
                            assert(ps[t] == prev[t]);
                        }
                    }
                    assert forall|t: int, u: int| 0 <= t < u < ps.len() implies {
                        &&& (#[trigger] ps[t]).0 != (#[trigger] ps[u]).0
                        &&& ps[t].0 != ps[u].1
                        &&& ps[t].1 != ps[u].0
                        &&& ps[t].1 != ps[u].1
                    } by {
                        assert(ps[t] == prev[t]);
                        if u == prev.len() {
                            assert(in_some_pair(prev, prev[t].0));
                            assert(in_some_pair(prev, prev[t].1));
                        } else {
                            assert(ps[u] == prev[u]);
                        }
                    }
                },
                None => {},
            }
        }
    }
}

/// The list of unpaired bodies below `k`: exactly the bodies in no pair, in
/// strictly increasing order.
proof fn lemma_unpaired(ps: Seq<(int, int)>, k: int)
    requires
        0 <= k,
    ensures
        forall|m: int| #[trigger] unpaired(ps, k).contains(m) <==> (0 <= m < k && !members(ps).contains(m)),
        forall|a: int, b: int|
            0 <= a < b < unpaired(ps, k).len() ==> #[trigger] unpaired(ps, k)[a] < #[trigger] unpaired(ps, k)[b],
        forall|a: int| 0 <= a < unpaired(ps, k).len() ==> 0 <= #[trigger] unpaired(ps, k)[a] < k,
    decreases k,
{
    if k > 0 {
        lemma_unpaired(ps, k - 1);
        let prev = unpaired(ps, k - 1);
        if !members(ps).contains(k - 1) {
            let un = prev.push(k - 1);
            assert forall|m: int| #[trigger] un.contains(m) <==> (0 <= m < k && !members(ps).contains(m)) by {
                if m == k - 1 {
                    assert(un[un.len() - 1] == m);
                    assert(un.contains(m));
                } else {
                    if un.contains(m) {
                        let t = choose|t: int| 0 <= t < un.len() && un[t] == m;
                        assert(t < prev.len());
                        assert(prev[t] == m);
                        assert(prev.contains(m));
                    }
                    if prev.contains(m) {
                        let t = choose|t: int| 0 <= t < prev.len() && prev[t] == m;
                        assert(un[t] == m);
                        assert(un.contains(m));
                    }
                }
            }
            assert forall|a: int, b: int| 0 <= a < b < un.len() implies #[trigger] un[a] < #[trigger] un[b] by {
                assert(un[a] == prev[a]);
                if b < prev.len() {
                    assert(un[b] == prev[b]);
                }
            }
            assert forall|a: int| 0 <= a < un.len() implies 0 <= #[trigger] un[a] < k by {
                if a < prev.len() {
                    assert(un[a] == prev[a]);
                }
            }
        }
    }
}

/// The plan accounts for every body exactly once: each pair joins two distinct
/// bodies that touch, no body is in two pairs, the untouched bodies are exactly
/// those in no pair, listed once each in increasing order, and no two untouched
/// bodies touch. Merging pairs and keeping the rest therefore conserves the set of
/// bodies, and with it their total mass.
pub proof fn lemma_plan_accounts_for_each_body_once(c: Seq<Seq<bool>>)
    requires
        is_contact_table(c),
    ensures
        pairs_touch(c, merge_pairs(c)),
        pairs_disjoint(merge_pairs(c)),
        forall|m: int| #[trigger] members(merge_pairs(c)).contains(m) <==> in_some_pair(merge_pairs(c), m),
        forall|m: int|
            #[trigger] unpaired(merge_pairs(c), c.len() as int).contains(m) <==> (0 <= m < c.len() && !in_some_pair(merge_pairs(c), m)),
        forall|a: int, b: int|
            0 <= a < b < unpaired(merge_pairs(c), c.len() as int).len()
                ==> #[trigger] unpaired(merge_pairs(c), c.len() as int)[a] < #[trigger] unpaired(merge_pairs(c), c.len() as int)[b],
        forall|a: int, b: int|
            0 <= a < b < c.len() && !in_some_pair(merge_pairs(c), a) && !in_some_pair(merge_pairs(c), b) ==> !c[a][b],
{
    let ps = merge_pairs(c);
    lemma_scan_pairs(c, c.len() as int);
    lemma_members(ps);
    lemma_unpaired(ps, c.len() as int);
}

/// Index pairs as mathematical integers.
pub open spec fn int_pairs(v: Seq<(usize, usize)>) -> Seq<(int, int)> {
    v.map_values(|p: (usize, usize)| (p.0 as int, p.1 as int))
}

/// Indices as mathematical integers.
pub open spec fn int_indices(v: Seq<usize>) -> Seq<int> {
    v.map_values(|k: usize| k as int)
}

/// The first free body after `i` that touches it, where `taken[k]` says whether
/// body `k` is already spoken for.
fn find_partner(contact: &Vec<Vec<bool>>, taken: &Vec<bool>, i: usize, Ghost(s): Ghost<Set<int>>) -> (r: Option<usize>)
    requires
        is_contact_table(contact.deep_view()),
        taken@.len() == contact@.len(),
        i < contact@.len(),
        forall|k: int| 0 <= k < taken@.len() ==> taken@[k] == s.contains(k),
    ensures
        match r {
            Some(j) => i < j < contact@.len() && first_partner(contact.deep_view(), s, i as int, i + 1) == Some(j as int),
            None => first_partner(contact.deep_view(), s, i as int, i + 1) == None::<int>,
        },
{
    let ghost c = contact.deep_view();
    let n = contact.len();
    let mut j: usize = i + 1;
    while j < n
        invariant
            c == contact.deep_view(),
            is_contact_table(c),
            n == c.len(),
            taken@.len() == n,
            i < n,
            i + 1 <= j <= n,
            forall|k: int| 0 <= k < taken@.len() ==> taken@[k] == s.contains(k),
            first_partner(c, s, i as int, i + 1) == first_partner(c, s, i as int, j as int),
        decreases n - j,
    {
        assert(c[i as int] == contact@[i as int].deep_view());
        if !taken[j] && contact[i][j] {
            return Some(j);
        }
        j += 1;
    }
    None
}

/// Decides which bodies merge in one step from the table of contacts: bodies are
/// scanned in order, and a free body merges with the first later free body that it
/// touches; the rest stay as they are.
pub fn plan_merges(contact: &Vec<Vec<bool>>) -> (r: MergePlan)
    requires
        is_contact_table(contact.deep_view()),
    ensures
        int_pairs(r.pairs@) == merge_pairs(contact.deep_view()),
        int_indices(r.untouched@) == unpaired(merge_pairs(contact.deep_view()), contact@.len() as int),
{
    let ghost c = contact.deep_view();
    let n = contact.len();
    let mut taken: Vec<bool> = vec![false; n];
    let mut pairs: Vec<(usize, usize)> = Vec::new();
    let mut i: usize = 0;
    while i < n
        invariant
            c == contact.deep_view(),
            is_contact_table(c),
            n == c.len(),
            i <= n,
            taken@.len() == n,
            int_pairs(pairs@) == scan_pairs(c, i as int),
            forall|k: int| 0 <= k < n ==> taken@[k] == members(scan_pairs(c, i as int)).contains(k),
        decreases n - i,
    {
        let ghost prev = scan_pairs(c, i as int);
        if !taken[i] {
            match find_partner(contact, &taken, i, Ghost(members(prev))) {
                Some(j) => {
                    pairs.push((i, j));
                    taken.set(i, true);
                    taken.set(j, true);
                    proof {
                        let next = prev.push((i as int, j as int));
                        assert(next.drop_last() =~= prev);
                        assert(int_pairs(pairs@) =~= next);
                    }
                },
                None => {},
            }
        }
        i += 1;
    }
    let ghost ps = scan_pairs(c, n as int);
    let mut untouched: Vec<usize> = Vec::new();
    let mut k: usize = 0;
    while k < n
        invariant
            k <= n,
            taken@.len() == n,
            forall|m: int| 0 <= m < n ==> taken@[m] == members(ps).contains(m),
            int_indices(untouched@) == unpaired(ps, k as int),
        decreases n - k,
    {
        if !taken[k] {
            untouched.push(k);
            assert(int_indices(untouched@) =~= unpaired(ps, k as int).push(k as int));
        }
        k += 1;
    }
    MergePlan { pairs, untouched }
}

} // verus!
