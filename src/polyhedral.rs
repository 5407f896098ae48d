//! The attribute candidate search: which multiplicities of parts can meet
//! every attribute's target, before anything is placed.

use crate::order::{lemma_insert_desc_at, lemma_sort_desc_members, lemma_sort_desc_push, sort_desc};
use vstd::prelude::*;

verus! {

/// What one part adds to one attribute, placed bugless or bugged.
#[derive(Clone, Copy, Debug, PartialEq, Eq, Structural)]
pub struct Effect {
    pub bugless: usize,
    pub bugged: usize,
}

/// What one attribute must reach: `target` must be reachable; the part of
/// the total that is guaranteed whatever the bugs must not pass `limit`.
#[derive(Clone, Copy, Debug, PartialEq, Eq, Structural)]
pub struct Constraint {
    pub target: usize,
    pub limit: usize,
}

pub open spec fn min_of(a: usize, b: usize) -> int {
    if a < b {
        a as int
    } else {
        b as int
    }
}

pub open spec fn max_of(a: usize, b: usize) -> int {
    if a < b {
        b as int
    } else {
        a as int
    }
}

/// Part `j` has an effect on attribute `v`.
pub open spec fn affects(parts: Seq<Vec<Effect>>, j: int, v: int) -> bool {
    v < parts[j]@.len() && (parts[j]@[v].bugged != 0 || parts[j]@[v].bugless != 0)
}

/// The parts among the first `n` that affect attribute `v`, by index.
pub open spec fn affecting(parts: Seq<Vec<Effect>>, v: int, n: int) -> Seq<usize>
    decreases n,
{
    if n <= 0 {
        Seq::empty()
    } else if affects(parts, n - 1, v) {
        affecting(parts, v, n - 1).push((n - 1) as usize)
    } else {
        affecting(parts, v, n - 1)
    }
}

/// What part `j` is sure to add to attribute `v`.
pub open spec fn sure_effect(parts: Seq<Vec<Effect>>, v: int) -> spec_fn(usize) -> int {
    |j: usize| min_of(parts[j as int]@[v].bugless, parts[j as int]@[v].bugged)
}

/// The parts that affect attribute `v`, the largest sure effect first,
/// equal ones by index.
pub open spec fn candidates_for(parts: Seq<Vec<Effect>>, v: int) -> Seq<usize> {
    sort_desc(affecting(parts, v, parts.len() as int), sure_effect(parts, v))
}

/// For each attribute, the sure total and the largest possible total so
/// far.
pub type Bounds = Seq<(int, int)>;

/// The first attribute from `k` on that can still fall short of its
/// target and is not over its limit, or -1.
pub open spec fn first_open(cons: Seq<Constraint>, st: Bounds, k: int) -> int
    decreases cons.len() - k,
{
    if k >= cons.len() {
        -1
    } else if st[k].1 < cons[k].target && st[k].0 <= cons[k].limit {
        k
    } else {
        first_open(cons, st, k + 1)
    }
}

/// Adding one copy of part `j` would push some attribute's sure total past
/// its limit.
pub open spec fn overflows(parts: Seq<Vec<Effect>>, cons: Seq<Constraint>, st: Bounds, j: int) -> bool {
    exists|v: int|
        0 <= v < cons.len() && v < parts[j]@.len() && #[trigger] st[v].0 + min_of(
            parts[j]@[v].bugless,
            parts[j]@[v].bugged,
        ) > cons[v].limit
}

/// The bounds after adding one copy of part `j`.
pub open spec fn add_part(parts: Seq<Vec<Effect>>, st: Bounds, j: int) -> Bounds {
    Seq::new(
        st.len(),
        |v: int|
            if v < parts[j]@.len() {
                (
                    st[v].0 + min_of(parts[j]@[v].bugless, parts[j]@[v].bugged),
                    st[v].1 + max_of(parts[j]@[v].bugless, parts[j]@[v].bugged),
                )
            } else {
                st[v]
            },
    )
}

/// `sols`, each with one more copy of part `j`.
pub open spec fn with_one_more(sols: Seq<Seq<int>>, j: int) -> Seq<Seq<int>> {
    sols.map_values(|sol: Seq<int>| sol.update(j, sol[j] + 1))
}

/// Every multiplicity vector the search yields from bounds `st` with
/// `budget` more parts allowed.
pub open spec fn search(
    parts: Seq<Vec<Effect>>,
    cons: Seq<Constraint>,
    budget: nat,
    st: Bounds,
) -> Seq<Seq<int>>
    decreases budget, 1int, 0int,
{
    let v = first_open(cons, st, 0);
    if v < 0 {
        seq![Seq::new(parts.len(), |j: int| 0int)]
    } else if budget == 0 {
        Seq::empty()
    } else {
        search_from(parts, cons, budget, st, candidates_for(parts, v), 0)
    }
}

/// The vectors yielded by trying `cands[k..]` in turn from bounds `st`.
pub open spec fn search_from(
    parts: Seq<Vec<Effect>>,
    cons: Seq<Constraint>,
    budget: nat,
    st: Bounds,
    cands: Seq<usize>,
    k: int,
) -> Seq<Seq<int>>
    decreases budget, 0int, cands.len() - k,
{
    if k >= cands.len() || k < 0 || budget == 0 {
        Seq::empty()
    } else {
        let j = cands[k] as int;
        let here = if overflows(parts, cons, st, j) {
            Seq::empty()
        } else {
            with_one_more(search(parts, cons, (budget - 1) as nat, add_part(parts, st, j)), j)
        };
        here + search_from(parts, cons, budget, st, cands, k + 1)
    }
}

/// Every vector of part multiplicities, at most `part_limit` parts in
/// all, for which the search finds each attribute reachable.
pub open spec fn solutions(parts: Seq<Vec<Effect>>, part_limit: nat, cons: Seq<Constraint>) -> Seq<
    Seq<int>,
> {
    search(parts, cons, part_limit, Seq::new(cons.len(), |v: int| (0int, 0int)))
}

/// Multiplicity vectors as integers.
pub open spec fn counts_view(r: Seq<Vec<usize>>) -> Seq<Seq<int>> {
    r.map_values(|v: Vec<usize>| v@.map_values(|x: usize| x as int))
}

/// The bounds `ex` stands for `st`: the same sure totals, and the largest
/// totals cut off at each target.
pub open spec fn tracks(ex: Seq<(usize, usize)>, st: Bounds, cons: Seq<Constraint>) -> bool {
    &&& ex.len() == cons.len()
    &&& st.len() == cons.len()
    &&& forall|v: int|
        0 <= v < cons.len() ==> {
            &&& (#[trigger] ex[v]).0 == st[v].0
            &&& st[v].1 >= 0
            &&& ex[v].1 as int == if st[v].1 < cons[v].target {
                st[v].1
            } else {
                cons[v].target as int
            }
        }
}

fn min_effect(e: Effect) -> (r: usize)
    ensures
        r == min_of(e.bugless, e.bugged),
{
    if e.bugless < e.bugged {
        e.bugless
    } else {
        e.bugged
    }
}

fn max_effect(e: Effect) -> (r: usize)
    ensures
        r == max_of(e.bugless, e.bugged),
{
    if e.bugless < e.bugged {
        e.bugged
    } else {
        e.bugless
    }
}

/// For each attribute, the parts that affect it, largest sure effect
/// first.
fn candidate_lists(parts: &[Vec<Effect>], n: usize) -> (r: Vec<Vec<usize>>)
    ensures
        r@.len() == n,
        forall|v: int| 0 <= v < n ==> (#[trigger] r@[v])@ == candidates_for(parts@, v),
        forall|v: int, a: int| 0 <= v < n && 0 <= a < r@[v]@.len() ==> #[trigger] r@[v]@[a] < parts@.len(),
{
    let mut lists: Vec<Vec<usize>> = Vec::new();
    let mut v: usize = 0;
    while v < n
        invariant
            v <= n,
            lists@.len() == v,
            forall|a: int| 0 <= a < v ==> (#[trigger] lists@[a])@ == candidates_for(parts@, a),
            forall|a: int, b: int| 0 <= a < v && 0 <= b < lists@[a]@.len() ==> #[trigger] lists@[a]@[b] < parts@.len(),
        decreases n - v,
    {
        let ghost key = sure_effect(parts@, v as int);
        let mut list: Vec<usize> = Vec::new();
        let mut j: usize = 0;
        while j < parts.len()
            invariant
                j <= parts@.len(),
                key == sure_effect(parts@, v as int),
                list@ == sort_desc(affecting(parts@, v as int, j as int), key),
                forall|k: int| 0 <= k < list@.len() ==> (#[trigger] list@[k]) < j && v < parts@[list@[k] as int]@.len(),
            decreases parts@.len() - j,
        {
            if v < parts[j].len() && (parts[j][v].bugged != 0 || parts[j][v].bugless != 0) {
                let kj = min_effect(parts[j][v]);
                let mut p: usize = 0;
                while p < list.len()
                    invariant
                        p <= list@.len(),
                        j < parts@.len(),
                        v < parts@[j as int]@.len(),
                        kj == key(j),
                        key == sure_effect(parts@, v as int),
                        forall|k: int| 0 <= k < list@.len() ==> (#[trigger] list@[k]) < j && v < parts@[list@[k] as int]@.len(),
                        forall|k: int| 0 <= k < p ==> !(key(#[trigger] list@[k]) < key(j)),
                    ensures
                        p <= list@.len(),
                        forall|k: int| 0 <= k < p ==> !(key(#[trigger] list@[k]) < key(j)),
                        p < list@.len() ==> key(list@[p as int]) < key(j),
                    decreases list@.len() - p,
                {
                    if min_effect(parts[list[p]][v]) < kj {
                        break;
                    }
                    p = p + 1;
                }
                proof {
                    lemma_insert_desc_at(list@, j, key, p as int);
                    lemma_sort_desc_push(affecting(parts@, v as int, j as int), j, key);
                }
                list.insert(p, j);
            }
            j = j + 1;
        }
        lists.push(list);
        v = v + 1;
    }
    lists
}

/// The first attribute that can still fall short of its target and is
/// not over its limit.
fn first_open_exec(cons: &[Constraint], ex: &Vec<(usize, usize)>, Ghost(st): Ghost<Bounds>) -> (r: Option<usize>)
    requires
        tracks(ex@, st, cons@),
    ensures
        r matches Some(v) ==> v == first_open(cons@, st, 0) && v < cons@.len(),
        r is None ==> first_open(cons@, st, 0) < 0,
{
    let mut k: usize = 0;
    while k < cons.len()
        invariant
            k <= cons@.len(),
            tracks(ex@, st, cons@),
            first_open(cons@, st, 0) == first_open(cons@, st, k as int),
        decreases cons@.len() - k,
    {
        if ex[k].1 < cons[k].target && ex[k].0 <= cons[k].limit {
            return Some(k);
        }
        k = k + 1;
    }
    None
}

/// The bounds after one more copy of part `j`, or `None` where a sure
/// total would pass its limit.
fn add_part_exec(
    parts: &[Vec<Effect>],
    cons: &[Constraint],
    ex: &Vec<(usize, usize)>,
    j: usize,
    Ghost(st): Ghost<Bounds>,
) -> (r: Option<Vec<(usize, usize)>>)
    requires
        tracks(ex@, st, cons@),
        j < parts@.len(),
    ensures
        r is None <==> overflows(parts@, cons@, st, j as int),
        r matches Some(e) ==> tracks(e@, add_part(parts@, st, j as int), cons@),
{
    let ghost st2 = add_part(parts@, st, j as int);
    let effects = &parts[j];
    let mut out: Vec<(usize, usize)> = Vec::new();
    let mut v: usize = 0;
    while v < cons.len()
        invariant
            v <= cons@.len(),
            tracks(ex@, st, cons@),
            j < parts@.len(),
            effects@ == parts@[j as int]@,
            st2 == add_part(parts@, st, j as int),
            out@.len() == v,
            forall|a: int|
                0 <= a < v ==> {
                    &&& (#[trigger] out@[a]).0 == st2[a].0
                    &&& st2[a].1 >= 0
                    &&& out@[a].1 as int == if st2[a].1 < cons@[a].target {
                        st2[a].1
                    } else {
                        cons@[a].target as int
                    }
                },
            forall|a: int|
                0 <= a < v && a < parts@[j as int]@.len() ==> !(#[trigger] st[a].0 + min_of(
                    parts@[j as int]@[a].bugless,
                    parts@[j as int]@[a].bugged,
                ) > cons@[a].limit),
        decreases cons@.len() - v,
    {
        let (g, w) = ex[v];
        let t = cons[v].target;
        if v < effects.len() {
            let lo = min_effect(effects[v]);
            let hi = max_effect(effects[v]);
            if g as u128 + lo as u128 > cons[v].limit as u128 {
                assert(st[v as int].0 + min_of(parts@[j as int]@[v as int].bugless, parts@[j as int]@[v as int].bugged) > cons@[v as int].limit);
                return None;
            }
            let w2 = if w as u128 + hi as u128 >= t as u128 {
                t
            } else {
                w + hi
            };
            out.push((g + lo, w2));
        } else {
            out.push((g, w));
        }
        v = v + 1;
    }
    Some(out)
}

/// The vectors of the search from bounds `ex` with `budget` parts left.
fn search_exec(
    parts: &[Vec<Effect>],
    cons: &[Constraint],
    lists: &Vec<Vec<usize>>,
    budget: usize,
    ex: &Vec<(usize, usize)>,
    Ghost(st): Ghost<Bounds>,
) -> (r: Vec<Vec<usize>>)
    requires
        tracks(ex@, st, cons@),
        lists@.len() == cons@.len(),
        forall|v: int| 0 <= v < cons@.len() ==> (#[trigger] lists@[v])@ == candidates_for(parts@, v),
        forall|v: int, a: int| 0 <= v < cons@.len() && 0 <= a < lists@[v]@.len() ==> #[trigger] lists@[v]@[a] < parts@.len(),
    ensures
        counts_view(r@) == search(parts@, cons@, budget as nat, st),
        forall|i: int, j: int|
            0 <= i < r@.len() && 0 <= j < r@[i]@.len() ==> #[trigger] r@[i]@[j] <= budget,
        forall|i: int| 0 <= i < r@.len() ==> (#[trigger] r@[i])@.len() == parts@.len(),
    decreases budget,
{
    let open = first_open_exec(cons, ex, Ghost(st));
    let v = match open {
        None => {
            let zeros: Vec<usize> = vec![0; parts.len()];
            let r = vec![zeros];
            assert(counts_view(r@) =~~= search(parts@, cons@, budget as nat, st));
            return r;
        },
        Some(v) => v,
    };
    if budget == 0 {
        assert(counts_view(Seq::<Vec<usize>>::empty()) =~= Seq::<Seq<int>>::empty());
        return Vec::new();
    }
    let cands = &lists[v];
    assert forall|a: int| 0 <= a < cands@.len() implies (#[trigger] cands@[a]) < parts@.len() by {
        assert(lists@[v as int]@[a] < parts@.len());
    }
    let ghost total = search_from(parts@, cons@, budget as nat, st, cands@, 0);
    let mut out: Vec<Vec<usize>> = Vec::new();
    let mut k: usize = 0;
    while k < cands.len()
        invariant
            tracks(ex@, st, cons@),
            lists@.len() == cons@.len(),
            forall|a: int| 0 <= a < cons@.len() ==> (#[trigger] lists@[a])@ == candidates_for(parts@, a),
            forall|a: int, b: int| 0 <= a < cons@.len() && 0 <= b < lists@[a]@.len() ==> #[trigger] lists@[a]@[b] < parts@.len(),
            v < cons@.len(),
            cands@ == candidates_for(parts@, v as int),
            forall|a: int| 0 <= a < cands@.len() ==> (#[trigger] cands@[a]) < parts@.len(),
            budget > 0,
            k <= cands@.len(),
            total == search_from(parts@, cons@, budget as nat, st, cands@, 0),
            counts_view(out@) + search_from(parts@, cons@, budget as nat, st, cands@, k as int) == total,
            forall|i: int, j: int|
                0 <= i < out@.len() && 0 <= j < out@[i]@.len() ==> #[trigger] out@[i]@[j] <= budget,
            forall|i: int| 0 <= i < out@.len() ==> (#[trigger] out@[i])@.len() == parts@.len(),
        decreases cands@.len() - k,
    {
        let j = cands[k];
        let ghost rest = search_from(parts@, cons@, budget as nat, st, cands@, k + 1);
        match add_part_exec(parts, cons, ex, j, Ghost(st)) {
            None => {
                assert(counts_view(out@) + rest =~= total);
            },
            Some(ex2) => {
                let ghost st2 = add_part(parts@, st, j as int);
                let sub = search_exec(parts, cons, lists, budget - 1, &ex2, Ghost(st2));
                let ghost here = with_one_more(search(parts@, cons@, (budget - 1) as nat, st2), j as int);
                let ghost out0 = out@;
                let mut i: usize = 0;
                while i < sub.len()
                    invariant
                        i <= sub@.len(),
                        j < parts@.len(),
                        budget > 0,
                        counts_view(sub@) == search(parts@, cons@, (budget - 1) as nat, st2),
                        forall|a: int, b: int|
                            0 <= a < sub@.len() && 0 <= b < sub@[a]@.len() ==> #[trigger] sub@[a]@[b] <= budget - 1,
                        forall|a: int| 0 <= a < sub@.len() ==> (#[trigger] sub@[a])@.len() == parts@.len(),
                        here == with_one_more(search(parts@, cons@, (budget - 1) as nat, st2), j as int),
                        counts_view(out@) == counts_view(out0) + here.take(i as int),
                        forall|a: int, b: int|
                            0 <= a < out@.len() && 0 <= b < out@[a]@.len() ==> #[trigger] out@[a]@[b] <= budget,
                        forall|a: int| 0 <= a < out@.len() ==> (#[trigger] out@[a])@.len() == parts@.len(),
                    decreases sub@.len() - i,
                {
                    let mut sol = sub[i].clone();
                    assert(sol@ == sub@[i as int]@);
                    let c = sol[j];
                    sol.set(j, c + 1);
                    proof {
                        let sv = counts_view(sub@)[i as int];
                        assert(sol@.map_values(|x: usize| x as int) =~= sv.update(j as int, sv[j as int] + 1));
                        assert(counts_view(out@.push(sol)) =~= counts_view(out@).push(sol@.map_values(|x: usize| x as int)));
                        assert(here.take(i + 1) =~= here.take(i as int).push(here[i as int]));
                    }
                    out.push(sol);
                    i = i + 1;
                }
                proof {
                    assert(here.take(sub@.len() as int) =~= here);
                    assert(counts_view(out@) + rest =~= total);
                }
            },
        }
        k = k + 1;
    }
    proof {
        assert(counts_view(out@) =~= total);
    }
    out
}

/// Every vector of part multiplicities, at most `part_limit` parts in all,
/// that the bound-tracking search finds: at each step the first attribute
/// that can still fall short of its target while not over its limit gets one
/// more copy of each part that affects it in turn, largest sure effect
/// first, unless that pushes a sure total past its limit.
pub fn solve(parts: &[Vec<Effect>], part_limit: usize, constraints: &[Constraint]) -> (r: Vec<
    Vec<usize>,
>)
    ensures
        counts_view(r@) == solutions(parts@, part_limit as nat, constraints@),
{
    let lists = candidate_lists(parts, constraints.len());
    let mut ex: Vec<(usize, usize)> = Vec::new();
    let mut v: usize = 0;
    while v < constraints.len()
        invariant
            v <= constraints@.len(),
            ex@.len() == v,
            forall|a: int| 0 <= a < v ==> #[trigger] ex@[a] == (0usize, 0usize),
        decreases constraints@.len() - v,
    {
        ex.push((0, 0));
        v = v + 1;
    }
    let ghost st = Seq::new(constraints@.len(), |a: int| (0int, 0int));
    search_exec(parts, constraints, &lists, part_limit, &ex, Ghost(st))
}

/// What one copy of part `p` is sure to add to attribute `v`.
pub open spec fn sure_of(parts: Seq<Vec<Effect>>, p: int, v: int) -> int {
    if v < parts[p]@.len() {
        min_of(parts[p]@[v].bugless, parts[p]@[v].bugged)
    } else {
        0
    }
}

/// The most one copy of part `p` can add to attribute `v`.
pub open spec fn best_of(parts: Seq<Vec<Effect>>, p: int, v: int) -> int {
    if v < parts[p]@.len() {
        max_of(parts[p]@[v].bugless, parts[p]@[v].bugged)
    } else {
        0
    }
}

/// What the parts `0..k`, `sol[p]` copies of each, are sure to add to
/// attribute `v`.
pub open spec fn sure_total(parts: Seq<Vec<Effect>>, sol: Seq<int>, v: int, k: int) -> int
    decreases k,
{
    if k <= 0 {
        0
    } else {
        sure_total(parts, sol, v, k - 1) + sol[k - 1] * sure_of(parts, k - 1, v)
    }
}

/// The most the parts `0..k`, `sol[p]` copies of each, can add to
/// attribute `v`.
pub open spec fn best_total(parts: Seq<Vec<Effect>>, sol: Seq<int>, v: int, k: int) -> int
    decreases k,
{
    if k <= 0 {
        0
    } else {
        best_total(parts, sol, v, k - 1) + sol[k - 1] * best_of(parts, k - 1, v)
    }
}

/// The number of copies of parts `0..k` in `sol`.
pub open spec fn part_count(sol: Seq<int>, k: int) -> int
    decreases k,
{
    if k <= 0 {
        0
    } else {
        part_count(sol, k - 1) + sol[k - 1]
    }
}

/// `sol` meets every attribute from bounds `st`: the sure total stays
/// within the limit and the largest total reaches the target.
pub open spec fn meets(parts: Seq<Vec<Effect>>, cons: Seq<Constraint>, st: Bounds, sol: Seq<int>) -> bool {
    forall|v: int|
        0 <= v < cons.len() ==> {
            &&& #[trigger] st[v].0 + sure_total(parts, sol, v, parts.len() as int) <= cons[v].limit
            &&& st[v].1 + best_total(parts, sol, v, parts.len() as int) >= cons[v].target
        }
}

proof fn lemma_totals_zero(parts: Seq<Vec<Effect>>, v: int, k: int)
    requires
        k <= parts.len(),
    ensures
        sure_total(parts, Seq::new(parts.len(), |j: int| 0int), v, k) == 0,
        best_total(parts, Seq::new(parts.len(), |j: int| 0int), v, k) == 0,
        part_count(Seq::new(parts.len(), |j: int| 0int), k) == 0,
    decreases k,
{
    if k > 0 {
        lemma_totals_zero(parts, v, k - 1);
    }
}

proof fn lemma_totals_one_more(parts: Seq<Vec<Effect>>, sol: Seq<int>, j: int, v: int, k: int)
    requires
        0 <= j < sol.len(),
        k <= sol.len(),
    ensures
        sure_total(parts, sol.update(j, sol[j] + 1), v, k) == sure_total(parts, sol, v, k) + if j < k {
            sure_of(parts, j, v)
        } else {
            0
        },
        best_total(parts, sol.update(j, sol[j] + 1), v, k) == best_total(parts, sol, v, k) + if j < k {
            best_of(parts, j, v)
        } else {
            0
        },
        part_count(sol.update(j, sol[j] + 1), k) == part_count(sol, k) + if j < k {
            1int
        } else {
            0
        },
    decreases k,
{
    if k > 0 {
        lemma_totals_one_more(parts, sol, j, v, k - 1);
        if k - 1 == j {
            let c = sol[j];
            let a = sure_of(parts, j, v);
            let b = best_of(parts, j, v);
            assert((c + 1) * a == c * a + a) by (nonlinear_arith);
            assert((c + 1) * b == c * b + b) by (nonlinear_arith);
        }
    }
}

proof fn lemma_affecting_range(parts: Seq<Vec<Effect>>, v: int, n: int)
    requires
        n <= usize::MAX,
    ensures
        forall|a: int| 0 <= a < affecting(parts, v, n).len() ==> #[trigger] affecting(parts, v, n)[a] < n,
    decreases n,
{
    if n > 0 {
        lemma_affecting_range(parts, v, n - 1);
        let prev = affecting(parts, v, n - 1);
        if affects(parts, n - 1, v) {
            assert(affecting(parts, v, n) == prev.push((n - 1) as usize));
            assert forall|a: int| 0 <= a < prev.len() + 1 implies #[trigger] prev.push((n - 1) as usize)[a] < n by {
                if a < prev.len() {
                    assert(prev.push((n - 1) as usize)[a] == prev[a]);
                }
            }
        } else {
            assert(affecting(parts, v, n) == prev);
        }
    }
}

proof fn lemma_candidates_range(parts: Seq<Vec<Effect>>, v: int)
    requires
        parts.len() <= usize::MAX,
    ensures
        forall|a: int| 0 <= a < candidates_for(parts, v).len() ==> #[trigger] candidates_for(parts, v)[a] < parts.len(),
{
    let s = affecting(parts, v, parts.len() as int);
    lemma_affecting_range(parts, v, parts.len() as int);
    lemma_sort_desc_members(s, sure_effect(parts, v));
    assert forall|a: int| 0 <= a < candidates_for(parts, v).len() implies #[trigger] candidates_for(parts, v)[a] < parts.len() by {
        let m = choose|m: int| 0 <= m < s.len() && sort_desc(s, sure_effect(parts, v))[a] == s[m];
    }
}

proof fn lemma_first_open_none(cons: Seq<Constraint>, st: Bounds, k: int, v: int)
    requires
        0 <= k <= v < cons.len(),
        first_open(cons, st, k) < 0,
    ensures
        !(st[v].1 < cons[v].target && st[v].0 <= cons[v].limit),
    decreases v - k,
{
    if k < v {
        lemma_first_open_none(cons, st, k + 1, v);
    }
}

proof fn lemma_search_meets(parts: Seq<Vec<Effect>>, cons: Seq<Constraint>, budget: nat, st: Bounds)
    requires
        parts.len() <= usize::MAX,
        st.len() == cons.len(),
        forall|v: int| 0 <= v < cons.len() ==> #[trigger] st[v].0 <= cons[v].limit,
    ensures
        forall|a: int|
            0 <= a < search(parts, cons, budget, st).len() ==> {
                let sol = #[trigger] search(parts, cons, budget, st)[a];
                &&& sol.len() == parts.len()
                &&& part_count(sol, parts.len() as int) <= budget
                &&& meets(parts, cons, st, sol)
            },
    decreases budget, 1int, 0int,
{
    let v0 = first_open(cons, st, 0);
    if v0 < 0 {
        let z = Seq::new(parts.len(), |j: int| 0int);
        assert forall|v: int| 0 <= v < cons.len() implies {
            &&& #[trigger] st[v].0 + sure_total(parts, z, v, parts.len() as int) <= cons[v].limit
            &&& st[v].1 + best_total(parts, z, v, parts.len() as int) >= cons[v].target
        } by {
            lemma_totals_zero(parts, v, parts.len() as int);
            lemma_first_open_none(cons, st, 0, v);
        }
        lemma_totals_zero(parts, 0, parts.len() as int);
        assert(search(parts, cons, budget, st) =~= seq![z]);
    } else if budget > 0 {
        lemma_candidates_range(parts, v0);
        lemma_search_from_meets(parts, cons, budget, st, candidates_for(parts, v0), 0);
        assert(search(parts, cons, budget, st) == search_from(parts, cons, budget, st, candidates_for(parts, v0), 0));
    } else {
        assert(search(parts, cons, budget, st) =~= Seq::<Seq<int>>::empty());
    }
}

proof fn lemma_search_from_meets(
    parts: Seq<Vec<Effect>>,
    cons: Seq<Constraint>,
    budget: nat,
    st: Bounds,
    cands: Seq<usize>,
    k: int,
)
    requires
        parts.len() <= usize::MAX,
        st.len() == cons.len(),
        forall|v: int| 0 <= v < cons.len() ==> #[trigger] st[v].0 <= cons[v].limit,
        forall|a: int| 0 <= a < cands.len() ==> #[trigger] cands[a] < parts.len(),
    ensures
        forall|a: int|
            0 <= a < search_from(parts, cons, budget, st, cands, k).len() ==> {
                let sol = #[trigger] search_from(parts, cons, budget, st, cands, k)[a];
                &&& sol.len() == parts.len()
                &&& part_count(sol, parts.len() as int) <= budget
                &&& meets(parts, cons, st, sol)
            },
    decreases budget, 0int, cands.len() - k,
{
    if k >= cands.len() || k < 0 || budget == 0 {
    } else {
        let j = cands[k] as int;
        let rest = search_from(parts, cons, budget, st, cands, k + 1);
        lemma_search_from_meets(parts, cons, budget, st, cands, k + 1);
        let here = if overflows(parts, cons, st, j) {
            Seq::empty()
        } else {
            with_one_more(search(parts, cons, (budget - 1) as nat, add_part(parts, st, j)), j)
        };
        if !overflows(parts, cons, st, j) {
            let st2 = add_part(parts, st, j);
            assert forall|v: int| 0 <= v < cons.len() implies #[trigger] st2[v].0 <= cons[v].limit by {
                if v < parts[j]@.len() {
                    assert(!(st[v].0 + min_of(parts[j]@[v].bugless, parts[j]@[v].bugged) > cons[v].limit));
                }
            }
            let sub = search(parts, cons, (budget - 1) as nat, st2);
            lemma_search_meets(parts, cons, (budget - 1) as nat, st2);
            assert forall|a: int| 0 <= a < here.len() implies {
                let sol = #[trigger] here[a];
                &&& sol.len() == parts.len()
                &&& part_count(sol, parts.len() as int) <= budget
                &&& meets(parts, cons, st, sol)
            } by {
                let y = sub[a];
                assert(here[a] == y.update(j, y[j] + 1));
                assert(y.len() == parts.len());
                assert forall|v: int| 0 <= v < cons.len() implies {
                    &&& #[trigger] st[v].0 + sure_total(parts, here[a], v, parts.len() as int) <= cons[v].limit
                    &&& st[v].1 + best_total(parts, here[a], v, parts.len() as int) >= cons[v].target
                } by {
                    lemma_totals_one_more(parts, y, j, v, parts.len() as int);
                    assert(st2[v].0 + sure_total(parts, y, v, parts.len() as int) <= cons[v].limit);
                    assert(st2[v].1 + best_total(parts, y, v, parts.len() as int) >= cons[v].target);
                }
                lemma_totals_one_more(parts, y, j, 0, parts.len() as int);
            }
        }
        let all = here + rest;
        assert(search_from(parts, cons, budget, st, cands, k) == all);
        assert forall|a: int| 0 <= a < all.len() implies {
            let sol = #[trigger] all[a];
            &&& sol.len() == parts.len()
            &&& part_count(sol, parts.len() as int) <= budget
            &&& meets(parts, cons, st, sol)
        } by {
            if a < here.len() {
                assert(all[a] == here[a]);
            } else {
                assert(all[a] == rest[a - here.len()]);
            }
        }
    }
}

/// Every vector the search yields holds one count per part, at most
/// `part_limit` parts in all, and meets every attribute: the total that is
/// sure whatever the bugs stays within the limit, and the largest possible
/// total reaches the target.
pub proof fn lemma_solutions_meet_constraints(parts: Seq<Vec<Effect>>, part_limit: nat, cons: Seq<Constraint>)
    requires
        parts.len() <= usize::MAX,
    ensures
        forall|a: int|
            0 <= a < solutions(parts, part_limit, cons).len() ==> {
                let sol = #[trigger] solutions(parts, part_limit, cons)[a];
                &&& sol.len() == parts.len()
                &&& part_count(sol, parts.len() as int) <= part_limit
                &&& forall|v: int|
                    0 <= v < cons.len() ==> {
                        &&& #[trigger] sure_total(parts, sol, v, parts.len() as int) <= cons[v].limit
                        &&& best_total(parts, sol, v, parts.len() as int) >= cons[v].target
                    }
            },
{
    let st = Seq::new(cons.len(), |v: int| (0int, 0int));
    lemma_search_meets(parts, cons, part_limit, st);
    assert forall|a: int| 0 <= a < solutions(parts, part_limit, cons).len() implies {
        let sol = #[trigger] solutions(parts, part_limit, cons)[a];
        forall|v: int|
            0 <= v < cons.len() ==> {
                &&& #[trigger] sure_total(parts, sol, v, parts.len() as int) <= cons[v].limit
                &&& best_total(parts, sol, v, parts.len() as int) >= cons[v].target
            }
    } by {
        let sol = solutions(parts, part_limit, cons)[a];
        assert(meets(parts, cons, st, sol));
        assert forall|v: int| 0 <= v < cons.len() implies {
            &&& #[trigger] sure_total(parts, sol, v, parts.len() as int) <= cons[v].limit
            &&& best_total(parts, sol, v, parts.len() as int) >= cons[v].target
        } by {
            assert(st[v].0 + sure_total(parts, sol, v, parts.len() as int) <= cons[v].limit);
        }
    }
}

} // verus!
