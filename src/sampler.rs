//! The copula sampler: one synthetic individual's correlated subset of traits.
//!
//! Candidates are visited in a uniformly random order, drawn without
//! replacement from a pool. A candidate is retained with the product, over the
//! traits retained so far, of the matrix entries `(retained, candidate)`. The
//! first candidate meets an empty product and is therefore always retained.

use crate::model::{names_of, valid_matrix, Mode, ProbMatrix, Trait, SCALE};
use crate::random::{bernoulli_ratio, draw_below};
use rand::rngs::StdRng;
use vstd::prelude::*;

verus! {

/// Acceptance probability, in millionths, of `c` after `accepted`: the
/// fixed-point product of the entries `(a, c)` for each retained `a`, taken in
/// retention order and truncated to millionths after each factor.
pub open spec fn chain_prob(m: Seq<Seq<u32>>, accepted: Seq<usize>, c: int) -> int
    decreases accepted.len(),
{
    if accepted.len() == 0 {
        SCALE as int
    } else {
        chain_prob(m, accepted.drop_last(), c) * (m[accepted.last() as int][c] as int)
            / (SCALE as int)
    }
}

/// Facts of every draw of [`sample_indices`], read off pairwise: at most `count` distinct
/// indices of the matrix, at least one where there was something to draw,
/// and each retained index reachable with a nonzero probability from each
/// index retained before it.
pub open spec fn valid_draw(m: Seq<Seq<u32>>, count: nat, d: Seq<usize>) -> bool {
    &&& d.len() <= count
    &&& d.no_duplicates()
    &&& forall|k: int| 0 <= k < d.len() ==> #[trigger] d[k] < m.len()
    &&& (m.len() > 0 && count > 0 ==> d.len() > 0)
    &&& forall|a: int, b: int|
        0 <= a < b < d.len() ==> #[trigger] m[d[a] as int][d[b] as int] > 0
}

/// Where every conditional probability is zero, each individual retains
/// exactly one trait: the first candidate drawn.
pub proof fn lemma_zero_matrix_draws_one(m: Seq<Seq<u32>>, count: nat, d: Seq<usize>)
    requires
        forall|i: int, j: int| 0 <= i < m.len() && 0 <= j < m.len() ==> #[trigger] m[i][j] == 0,
        m.len() > 0,
        count > 0,
        valid_draw(m, count, d),
    ensures
        d.len() == 1,
{
    if d.len() > 1 {
        assert(m[d[0] as int][d[1] as int] > 0);
    }
}

proof fn lemma_chain_bounds(m: Seq<Seq<u32>>, accepted: Seq<usize>, c: int)
    requires
        valid_matrix(m),
        0 <= c < m.len(),
        forall|k: int| 0 <= k < accepted.len() ==> #[trigger] accepted[k] < m.len(),
    ensures
        0 <= chain_prob(m, accepted, c) <= SCALE,
        chain_prob(m, accepted, c) > 0 ==> forall|k: int|
            0 <= k < accepted.len() ==> #[trigger] m[accepted[k] as int][c] > 0,
    decreases accepted.len(),
{
    if accepted.len() > 0 {
        let pre = accepted.drop_last();
        lemma_chain_bounds(m, pre, c);
        let p = chain_prob(m, pre, c);
        let f = m[accepted.last() as int][c] as int;
        assert(0 <= f <= SCALE);
        assert(0 <= p * f <= (SCALE as int) * (SCALE as int)) by (nonlinear_arith)
            requires
                0 <= p <= SCALE,
                0 <= f <= SCALE,
        ;
        assert(p * f / (SCALE as int) <= SCALE as int) by (nonlinear_arith)
            requires
                0 <= p * f <= (SCALE as int) * (SCALE as int),
        ;
        if chain_prob(m, accepted, c) > 0 {
            assert(p * f > 0);
            assert(p > 0 && f > 0) by (nonlinear_arith)
                requires
                    p >= 0,
                    f >= 0,
                    p * f > 0,
            ;
            assert forall|k: int| 0 <= k < accepted.len() implies #[trigger] m[accepted[k] as int][c]
                > 0 by {
                if k < accepted.len() - 1 {
                    assert(accepted[k] == pre[k]);
                }
            }
        }
    }
}

/// The acceptance probability, in millionths, of `candidate` given the
/// traits retained so far.
pub fn acceptance_ppm(m: &ProbMatrix, accepted: &Vec<usize>, candidate: usize) -> (r: u32)
    requires
        m.wf(),
        candidate < m.spec_dim(),
        forall|k: int| 0 <= k < accepted@.len() ==> #[trigger] accepted@[k] < m.spec_dim(),
    ensures
        r == chain_prob(m@, accepted@, candidate as int),
        r <= SCALE,
{
    proof {
        m.lemma_wf();
    }
    let mut p: u64 = SCALE as u64;
    let mut k: usize = 0;
    while k < accepted.len()
        invariant
            m.wf(),
            valid_matrix(m@),
            candidate < m.spec_dim(),
            forall|q: int| 0 <= q < accepted@.len() ==> #[trigger] accepted@[q] < m.spec_dim(),
            k <= accepted@.len(),
            p == chain_prob(m@, accepted@.subrange(0, k as int), candidate as int),
        decreases accepted@.len() - k,
    {
        let ghost pre = accepted@.subrange(0, k as int);
        let ghost next = accepted@.subrange(0, k + 1);
        assert(next.drop_last() =~= pre);
        proof {
            lemma_chain_bounds(m@, pre, candidate as int);
        }
        let f = m.get(accepted[k], candidate) as u64;
        assert(p * f <= 1_000_000_000_000) by (nonlinear_arith)
            requires
                p <= 1_000_000,
                f <= 1_000_000,
        ;
        p = p * f / (SCALE as u64);
        k = k + 1;
    }
    assert(accepted@.subrange(0, accepted@.len() as int) =~= accepted@);
    proof {
        lemma_chain_bounds(m@, accepted@, candidate as int);
    }
    p as u32
}

/// `d` is what is retained after evaluating the candidates `order` in turn,
/// at most `count` being retained: each candidate was evaluated while fewer
/// than `count` were retained, and was retained only with a nonzero
/// acceptance probability and refused only with one below certainty.
pub open spec fn trace(m: Seq<Seq<u32>>, count: nat, order: Seq<usize>, d: Seq<usize>) -> bool
    decreases order.len(),
{
    if order.len() == 0 {
        d.len() == 0
    } else {
        let c = order.last() as int;
        let pre = order.drop_last();
        ||| (d.len() > 0 && d.last() == order.last() && d.len() - 1 < count && chain_prob(
            m,
            d.drop_last(),
            c,
        ) > 0 && trace(m, count, pre, d.drop_last()))
        ||| (d.len() < count && chain_prob(m, d, c) < SCALE && trace(m, count, pre, d))
    }
}

/// `d` is a possible outcome of one individual's draw, the candidates having
/// been evaluated in the order `order`: distinct indices of the matrix, drawn
/// until `count` are retained or none is left.
pub open spec fn possible_draw(m: Seq<Seq<u32>>, count: nat, order: Seq<usize>, d: Seq<usize>) -> bool {
    &&& order.no_duplicates()
    &&& order.len() <= m.len()
    &&& forall|k: int| 0 <= k < order.len() ==> #[trigger] order[k] < m.len()
    &&& d.len() <= count
    &&& trace(m, count, order, d)
    &&& (d.len() == count || order.len() == m.len())
}

/// Every entry of the matrix is certainty.
pub open spec fn certain_matrix(m: Seq<Seq<u32>>) -> bool {
    forall|i: int, j: int| 0 <= i < m.len() && 0 <= j < m.len() ==> #[trigger] m[i][j] == SCALE
}

proof fn lemma_certain_chain(m: Seq<Seq<u32>>, accepted: Seq<usize>, c: int)
    requires
        certain_matrix(m),
        0 <= c < m.len(),
        forall|k: int| 0 <= k < accepted.len() ==> #[trigger] accepted[k] < m.len(),
    ensures
        chain_prob(m, accepted, c) == SCALE,
    decreases accepted.len(),
{
    if accepted.len() > 0 {
        lemma_chain_certain_step(m, accepted, c);
    }
}

proof fn lemma_chain_certain_step(m: Seq<Seq<u32>>, accepted: Seq<usize>, c: int)
    requires
        certain_matrix(m),
        0 <= c < m.len(),
        accepted.len() > 0,
        forall|k: int| 0 <= k < accepted.len() ==> #[trigger] accepted[k] < m.len(),
    ensures
        chain_prob(m, accepted, c) == SCALE,
    decreases accepted.len(), 0int,
{
    let pre = accepted.drop_last();
    assert(forall|k: int| 0 <= k < pre.len() ==> pre[k] == accepted[k]);
    lemma_certain_chain(m, pre, c);
    assert(m[accepted.last() as int][c] == SCALE);
}

proof fn lemma_certain_trace(m: Seq<Seq<u32>>, count: nat, order: Seq<usize>, d: Seq<usize>)
    requires
        certain_matrix(m),
        forall|k: int| 0 <= k < order.len() ==> #[trigger] order[k] < m.len(),
        trace(m, count, order, d),
    ensures
        d == order,
    decreases order.len(),
{
    if order.len() > 0 {
        let pre = order.drop_last();
        let c = order.last() as int;
        assert(forall|k: int| 0 <= k < pre.len() ==> pre[k] == order[k]);
        if d.len() > 0 && d.last() == order.last() && trace(m, count, pre, d.drop_last()) {
            lemma_certain_trace(m, count, pre, d.drop_last());
            assert(d =~= order);
        } else {
            lemma_certain_trace(m, count, pre, d);
            lemma_certain_chain(m, d, c);
        }
    }
}

/// Where every conditional probability is certainty, every candidate
/// evaluated is retained, so a draw retains `count` traits, or all of them
/// where there are fewer.
pub proof fn lemma_certain_matrix_fills(
    m: Seq<Seq<u32>>,
    count: nat,
    order: Seq<usize>,
    d: Seq<usize>,
)
    requires
        certain_matrix(m),
        possible_draw(m, count, order, d),
    ensures
        d.len() == if count <= m.len() { count } else { m.len() },
{
    lemma_certain_trace(m, count, order, d);
}

/// One step of the draw: the candidate at position `pick` of the pool leaves
/// the pool, and joins the retained traits where `accept` holds.
pub fn sampler_step(pool: &mut Vec<usize>, accepted: &mut Vec<usize>, pick: usize, accept: bool)
    requires
        pick < old(pool)@.len(),
    ensures
        final(pool)@ == old(pool)@.remove(pick as int),
        final(accepted)@ == if accept {
            old(accepted)@.push(old(pool)@[pick as int])
        } else {
            old(accepted)@
        },
{
    let c = pool.remove(pick);
    if accept {
        accepted.push(c);
    }
}

/// Draws the indices retained by one synthetic individual, in retention order.
pub fn sample_indices(m: &ProbMatrix, trait_count: usize, rng: &mut StdRng) -> (r: Vec<usize>)
    requires
        m.wf(),
    ensures
        valid_draw(m@, trait_count as nat, r@),
        exists|order: Seq<usize>| possible_draw(m@, trait_count as nat, order, r@),
        certain_matrix(m@) ==> r@.len() == if trait_count <= m.spec_dim() {
            trait_count as nat
        } else {
            m.spec_dim()
        },
{
    proof {
        m.lemma_wf();
    }
    let n = m.dim();
    let mut pool: Vec<usize> = Vec::new();
    let mut i: usize = 0;
    while i < n
        invariant
            i <= n,
            pool@ =~= Seq::new(i as nat, |q: int| q as usize),
        decreases n - i,
    {
        pool.push(i);
        i = i + 1;
    }
    let mut accepted: Vec<usize> = Vec::new();
    let ghost mut order: Seq<usize> = Seq::empty();
    while accepted.len() < trait_count && pool.len() > 0
        invariant
            m.wf(),
            valid_matrix(m@),
            n == m.spec_dim(),
            pool@.len() + order.len() == n,
            accepted@.len() <= trait_count,
            pool@.no_duplicates(),
            accepted@.no_duplicates(),
            order.no_duplicates(),
            forall|q: int| 0 <= q < pool@.len() ==> #[trigger] pool@[q] < n,
            forall|q: int| 0 <= q < accepted@.len() ==> #[trigger] accepted@[q] < n,
            forall|q: int| 0 <= q < order.len() ==> #[trigger] order[q] < n,
            forall|q: int| 0 <= q < accepted@.len() ==> !pool@.contains(#[trigger] accepted@[q]),
            forall|q: int| 0 <= q < order.len() ==> !pool@.contains(#[trigger] order[q]),
            trace(m@, trait_count as nat, order, accepted@),
            n > 0 && trait_count > 0 ==> accepted@.len() > 0 || pool@.len() == n,
            forall|a: int, b: int|
                0 <= a < b < accepted@.len() ==> #[trigger] m@[accepted@[a] as int][accepted@[b] as int]
                    > 0,
        decreases pool@.len(),
    {
        let pick = draw_below(rng, pool.len());
        let candidate = pool[pick];
        let p = acceptance_ppm(m, &accepted, candidate);
        let accept = bernoulli_ratio(rng, p, SCALE);
        let ghost before = pool@;
        let ghost old_acc = accepted@;
        sampler_step(&mut pool, &mut accepted, pick, accept);
        assert(before.contains(candidate));
        assert forall|q: int| 0 <= q < pool@.len() implies #[trigger] pool@[q] != candidate by {
            if q < pick {
                assert(pool@[q] == before[q]);
            } else {
                assert(pool@[q] == before[q + 1]);
            }
        }
        assert forall|x: usize| pool@.contains(x) implies before.contains(x) by {
            let q = choose|q: int| 0 <= q < pool@.len() && pool@[q] == x;
            if q < pick {
                assert(before[q] == x);
            } else {
                assert(before[q + 1] == x);
            }
        }
        assert(pool@.no_duplicates()) by {
            assert forall|a: int, b: int| 0 <= a < b < pool@.len() implies pool@[a] != pool@[b] by {
                let a2 = if a < pick { a } else { a + 1 };
                let b2 = if b < pick { b } else { b + 1 };
                assert(pool@[a] == before[a2]);
                assert(pool@[b] == before[b2]);
            }
        }
        let ghost new_order = order.push(candidate);
        assert(new_order.drop_last() =~= order);
        assert(forall|q: int| 0 <= q < order.len() ==> #[trigger] new_order[q] == order[q]);
        assert(new_order.no_duplicates()) by {
            assert forall|a: int, b: int| 0 <= a < b < new_order.len() implies new_order[a]
                != new_order[b] by {
                if b == order.len() {
                    assert(!before.contains(order[a]));
                }
            }
        }
        if accept {
            proof {
                lemma_chain_bounds(m@, old_acc, candidate as int);
            }
            assert(accepted@.drop_last() =~= old_acc);
            assert(forall|q: int| 0 <= q < old_acc.len() ==> #[trigger] accepted@[q] == old_acc[q]);
            assert forall|a: int, b: int| 0 <= a < b < accepted@.len() implies #[trigger] m@[accepted@[
                a] as int][accepted@[b] as int] > 0 by {
                if b == old_acc.len() {
                    assert(accepted@[a] == old_acc[a]);
                }
            }
            assert(accepted@.no_duplicates()) by {
                assert forall|a: int, b: int| 0 <= a < b < accepted@.len() implies accepted@[a]
                    != accepted@[b] by {
                    if b == old_acc.len() {
                        assert(!before.contains(old_acc[a]));
                    }
                }
            }
        }
        assert(trace(m@, trait_count as nat, new_order, accepted@));
        proof {
            order = new_order;
        }
    }
    assert(possible_draw(m@, trait_count as nat, order, accepted@));
    proof {
        if certain_matrix(m@) {
            lemma_certain_matrix_fills(m@, trait_count as nat, order, accepted@);
        }
    }
    accepted
}

/// A possible outcome of one individual's draw retaining up to `count`
/// traits.
pub open spec fn possible_outcome(m: Seq<Seq<u32>>, count: nat, d: Seq<usize>) -> bool {
    &&& valid_draw(m, count, d)
    &&& exists|order: Seq<usize>| possible_draw(m, count, order, d)
}

/// Draws the names of the traits one synthetic individual retains under
/// `mode`, looked up in `reference` by index.
pub fn sample(m: &ProbMatrix, reference: &Vec<Trait>, mode: Mode, rng: &mut StdRng) -> (r: Vec<
    String,
>)
    requires
        m.wf(),
        reference@.len() == m.spec_dim(),
    ensures
        exists|d: Seq<usize>|
            possible_outcome(m@, mode.spec_trait_count(), d) && d.len() == r@.len() && forall|k: int|
                0 <= k < d.len() ==> #[trigger] r@[k]@ == reference@[d[k] as int].name@,
        r@.len() <= mode.spec_trait_count(),
        forall|k: int| 0 <= k < r@.len() ==> names_of(reference@).contains(#[trigger] r@[k]@),
{
    let d = sample_indices(m, mode.trait_count(), rng);
    assert(possible_outcome(m@, mode.spec_trait_count(), d@));
    let mut names: Vec<String> = Vec::new();
    let mut k: usize = 0;
    while k < d.len()
        invariant
            valid_draw(m@, mode.spec_trait_count(), d@),
            possible_outcome(m@, mode.spec_trait_count(), d@),
            reference@.len() == m.spec_dim(),
            k <= d@.len(),
            names@.len() == k,
            forall|q: int| 0 <= q < k ==> #[trigger] names@[q]@ == reference@[d@[q] as int].name@,
        decreases d@.len() - k,
    {
        names.push(reference[d[k]].name.clone());
        k = k + 1;
    }
    assert forall|q: int| 0 <= q < names@.len() implies names_of(reference@).contains(
        #[trigger] names@[q]@,
    ) by {
        let i = d@[q] as int;
        assert(0 <= i < reference@.len());
        assert(names_of(reference@)[i] == names@[q]@);
    }
    names
}

} // verus!
