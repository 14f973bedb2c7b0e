//! The Monte Carlo engine: many trials of a synthetic group, each scored
//! against the target profile, aggregated into match counts.
//!
//! A trial is summarised by its tally: for each target trait, how many of the
//! group's individuals retained it. The aggregate keeps, as ghost state, the
//! tallies of all trials it has scored, and its counters are stated over them.

use crate::model::{frequencies, names_of, Mode, ProbMatrix, Ratio, Trait};
use crate::sampler::{possible_outcome, sample_indices, valid_draw};
use rand::rngs::StdRng;
use vstd::prelude::*;

verus! {

/// `count / group` rounded half up to two decimals, counted in hundredths.
pub open spec fn rounded_hundredths(count: nat, group: nat) -> nat
    recommends
        group > 0,
{
    ((200 * count + group) / (2 * group)) as nat
}

/// A trait slot matches when its rounded frequency equals the target
/// frequency (in millionths) exactly.
pub open spec fn slot_matches(target: u32, count: nat, group: nat) -> bool {
    rounded_hundredths(count, group) * 10_000 == target as nat
}

/// A trial matches exactly when every slot matches.
pub open spec fn trial_exact(targets: Seq<u32>, tally: Seq<nat>, group: nat) -> bool {
    forall|j: int| 0 <= j < targets.len() ==> slot_matches(targets[j], #[trigger] tally[j], group)
}

/// The number of exactly matching trials among `trials`.
pub open spec fn exact_total(targets: Seq<u32>, group: nat, trials: Seq<Seq<nat>>) -> nat
    decreases trials.len(),
{
    if trials.len() == 0 {
        0
    } else {
        exact_total(targets, group, trials.drop_last()) + if trial_exact(
            targets,
            trials.last(),
            group,
        ) {
            1nat
        } else {
            0nat
        }
    }
}

/// The number of trials among `trials` in which slot `j` matches.
pub open spec fn trait_total(targets: Seq<u32>, group: nat, trials: Seq<Seq<nat>>, j: int) -> nat
    decreases trials.len(),
{
    if trials.len() == 0 {
        0
    } else {
        trait_total(targets, group, trials.drop_last(), j) + if slot_matches(
            targets[j],
            trials.last()[j],
            group,
        ) {
            1nat
        } else {
            0nat
        }
    }
}

/// A tally as counts.
pub open spec fn counts_of(tally: Seq<u64>) -> Seq<nat> {
    tally.map_values(|c: u64| c as nat)
}

/// Every tally has one slot per target trait and counts at most `group`
/// individuals.
pub open spec fn tallies_within(trials: Seq<Seq<nat>>, n: nat, group: nat) -> bool {
    forall|t: int|
        0 <= t < trials.len() ==> #[trigger] trials[t].len() == n && forall|j: int|
            0 <= j < n ==> #[trigger] trials[t][j] <= group
}

/// Match counts over a number of trials.
pub struct Aggregate {
    /// Trials scored.
    pub trials: u64,
    /// Trials whose every slot matched.
    pub exact_matches: u64,
    /// Per target trait, the trials in which it matched.
    pub trait_matches: Vec<u64>,
    /// The tallies of the trials scored, in order.
    pub history: Ghost<Seq<Seq<nat>>>,
}

impl Aggregate {
    /// The counters are those of the tallies in `history`.
    pub open spec fn consistent(&self, targets: Seq<u32>, group: nat) -> bool {
        &&& self.trials == self.history@.len()
        &&& self.trait_matches@.len() == targets.len()
        &&& self.exact_matches == exact_total(targets, group, self.history@)
        &&& forall|j: int|
            0 <= j < targets.len() ==> #[trigger] self.trait_matches@[j] == trait_total(
                targets,
                group,
                self.history@,
                j,
            )
    }

    /// The aggregate of no trials, for `n` target traits.
    pub fn empty(n: usize) -> (r: Aggregate)
        ensures
            r.history@ == Seq::<Seq<nat>>::empty(),
            r.trials == 0,
            r.exact_matches == 0,
            r.trait_matches@ == Seq::new(n as nat, |j: int| 0u64),
            forall|targets: Seq<u32>, group: nat|
                targets.len() == n ==> #[trigger] r.consistent(targets, group),
    {
        let mut v: Vec<u64> = Vec::new();
        let mut j: usize = 0;
        while j < n
            invariant
                j <= n,
                v@ =~= Seq::new(j as nat, |q: int| 0u64),
            decreases n - j,
        {
            v.push(0);
            j = j + 1;
        }
        Aggregate { trials: 0, exact_matches: 0, trait_matches: v, history: Ghost(Seq::empty()) }
    }

    /// Scores one trial's tally against the target profile and counts it.
    pub fn record_trial(&mut self, target: &Vec<Trait>, group: u64, tally: &Vec<u64>)
        requires
            old(self).consistent(frequencies(target@), group as nat),
            group > 0,
            tally@.len() == target@.len(),
            old(self).trials < u64::MAX,
        ensures
            final(self).history@ == old(self).history@.push(counts_of(tally@)),
            final(self).trials == old(self).trials + 1,
            final(self).consistent(frequencies(target@), group as nat),
    {
        let ghost targets = frequencies(target@);
        let ghost g = group as nat;
        let ghost h0 = self.history@;
        let ghost t = counts_of(tally@);
        let ghost h = h0.push(t);
        assert(h.drop_last() =~= h0);
        assert(h.last() == t);
        proof {
            lemma_totals_bounded(targets, g, h0);
        }
        let n = target.len();
        let mut matches: Vec<u64> = Vec::new();
        let mut exact = true;
        let mut j: usize = 0;
        while j < n
            invariant
                n == target@.len(),
                n == tally@.len(),
                targets == frequencies(target@),
                targets.len() == n,
                h == h0.push(t),
                h.drop_last() == h0,
                h.last() == t,
                t == counts_of(tally@),
                g == group as nat,
                group > 0,
                self.consistent(targets, g),
                self.history@ == h0,
                self.trials < u64::MAX,
                forall|q: int| 0 <= q < n ==> #[trigger] trait_total(targets, g, h0, q) <= h0.len(),
                j <= n,
                matches@.len() == j,
                forall|q: int| 0 <= q < j ==> #[trigger] matches@[q] == trait_total(targets, g, h, q),
                exact == forall|q: int| 0 <= q < j ==> slot_matches(targets[q], #[trigger] t[q], g),
            decreases n - j,
        {
            let hit = slot_match(target[j].frequency, tally[j], group);
            assert(targets[j as int] == target@[j as int].frequency);
            assert(t[j as int] == tally@[j as int] as nat);
            assert(self.trait_matches@[j as int] == trait_total(targets, g, h0, j as int));
            assert(trait_total(targets, g, h, j as int) == trait_total(targets, g, h0, j as int) + if hit {
                1nat
            } else {
                0nat
            });
            if hit {
                matches.push(self.trait_matches[j] + 1);
            } else {
                matches.push(self.trait_matches[j]);
            }
            exact = exact && hit;
            j = j + 1;
        }
        assert(exact == trial_exact(targets, t, g));
        if exact {
            self.exact_matches = self.exact_matches + 1;
        }
        self.trait_matches = matches;
        self.trials = self.trials + 1;
        self.history = Ghost(h);
    }

    /// The fraction of trials that matched exactly.
    pub fn exact_match_probability(&self) -> (r: Ratio)
        ensures
            r.num == self.exact_matches,
            r.den == self.trials,
    {
        Ratio { num: self.exact_matches, den: self.trials }
    }

    /// The fraction of trials in which target trait `j` matched.
    pub fn trait_match_probability(&self, j: usize) -> (r: Ratio)
        requires
            j < self.trait_matches@.len(),
        ensures
            r.num == self.trait_matches@[j as int],
            r.den == self.trials,
    {
        Ratio { num: self.trait_matches[j], den: self.trials }
    }

    /// Combines the counts of two aggregates over the same inputs, as though
    /// their trials had been run one after the other.
    pub fn merge(&self, other: &Aggregate, target: &Vec<Trait>, group: u64) -> (r: Aggregate)
        requires
            self.consistent(frequencies(target@), group as nat),
            other.consistent(frequencies(target@), group as nat),
            self.trials + other.trials <= u64::MAX,
        ensures
            r.consistent(frequencies(target@), group as nat),
            r.history@ == self.history@ + other.history@,
            r.trials == self.trials + other.trials,
            r.exact_matches == self.exact_matches + other.exact_matches,
            r.trait_matches@.len() == target@.len(),
            forall|j: int|
                0 <= j < target@.len() ==> #[trigger] r.trait_matches@[j] == self.trait_matches@[j]
                    + other.trait_matches@[j],
    {
        let ghost targets = frequencies(target@);
        let ghost g = group as nat;
        proof {
            lemma_totals_bounded(targets, g, self.history@);
            lemma_totals_bounded(targets, g, other.history@);
            lemma_concat_totals(targets, g, self.history@, other.history@);
        }
        let n = target.len();
        let mut v: Vec<u64> = Vec::new();
        let mut j: usize = 0;
        while j < n
            invariant
                n == target@.len(),
                targets == frequencies(target@),
                targets.len() == n,
                self.consistent(targets, g),
                other.consistent(targets, g),
                self.trials + other.trials <= u64::MAX,
                forall|q: int|
                    0 <= q < n ==> #[trigger] trait_total(targets, g, self.history@, q)
                        <= self.history@.len(),
                forall|q: int|
                    0 <= q < n ==> #[trigger] trait_total(targets, g, other.history@, q)
                        <= other.history@.len(),
                j <= n,
                v@.len() == j,
                forall|q: int|
                    0 <= q < j ==> #[trigger] v@[q] == self.trait_matches@[q]
                        + other.trait_matches@[q],
            decreases n - j,
        {
            assert(self.trait_matches@[j as int] == trait_total(targets, g, self.history@, j as int));
            assert(other.trait_matches@[j as int] == trait_total(
                targets,
                g,
                other.history@,
                j as int,
            ));
            v.push(self.trait_matches[j] + other.trait_matches[j]);
            j = j + 1;
        }
        Aggregate {
            trials: self.trials + other.trials,
            exact_matches: self.exact_matches + other.exact_matches,
            trait_matches: v,
            history: Ghost(self.history@ + other.history@),
        }
    }
}

/// Whether `names` holds a string equal to `name`.
pub fn contains_name(names: &Vec<String>, name: &String) -> (r: bool)
    ensures
        r == exists|k: int| 0 <= k < names@.len() && #[trigger] names@[k]@ == name@,
{
    let mut k: usize = 0;
    while k < names.len()
        invariant
            k <= names@.len(),
            forall|q: int| 0 <= q < k ==> #[trigger] names@[q]@ != name@,
        decreases names@.len() - k,
    {
        if names[k] == *name {
            return true;
        }
        k = k + 1;
    }
    false
}

/// Some retained index of the draw `d` names a reference trait `name`.
pub open spec fn holds_name(reference: Seq<Trait>, d: Seq<usize>, name: Seq<char>) -> bool {
    exists|k: int| 0 <= k < d.len() && #[trigger] reference[d[k] as int].name@ == name
}

/// How many of the draws retain a trait named `name`.
pub open spec fn count_holding(reference: Seq<Trait>, draws: Seq<Seq<usize>>, name: Seq<char>) -> nat
    decreases draws.len(),
{
    if draws.len() == 0 {
        0
    } else {
        count_holding(reference, draws.drop_last(), name) + if holds_name(
            reference,
            draws.last(),
            name,
        ) {
            1nat
        } else {
            0nat
        }
    }
}

/// `tally` counts, for each target trait, the draws that retain its name.
pub open spec fn tally_of(
    reference: Seq<Trait>,
    target: Seq<Trait>,
    draws: Seq<Seq<usize>>,
    tally: Seq<nat>,
) -> bool {
    &&& tally.len() == target.len()
    &&& forall|j: int|
        0 <= j < target.len() ==> #[trigger] tally[j] == count_holding(
            reference,
            draws,
            target[j].name@,
        )
}

/// `tally` is the tally of some `group` possible draws retaining up to
/// `count` traits each.
pub open spec fn drawn_trial(
    m: Seq<Seq<u32>>,
    reference: Seq<Trait>,
    target: Seq<Trait>,
    count: nat,
    group: nat,
    tally: Seq<nat>,
) -> bool {
    exists|draws: Seq<Seq<usize>>|
        draws.len() == group && (forall|i: int|
            0 <= i < draws.len() ==> possible_outcome(m, count, #[trigger] draws[i])) && tally_of(
            reference,
            target,
            draws,
            tally,
        )
}

/// Whether a retained index of `d` names a reference trait `name`.
pub fn draw_holds_name(reference: &Vec<Trait>, d: &Vec<usize>, name: &String) -> (r: bool)
    requires
        forall|k: int| 0 <= k < d@.len() ==> #[trigger] d@[k] < reference@.len(),
    ensures
        r == holds_name(reference@, d@, name@),
{
    let mut k: usize = 0;
    while k < d.len()
        invariant
            forall|q: int| 0 <= q < d@.len() ==> #[trigger] d@[q] < reference@.len(),
            k <= d@.len(),
            forall|q: int| 0 <= q < k ==> #[trigger] reference@[d@[q] as int].name@ != name@,
        decreases d@.len() - k,
    {
        if reference[d[k]].name == *name {
            return true;
        }
        k = k + 1;
    }
    false
}

/// Draws one trial: `group` individuals under `mode`, and for each target
/// trait the number of them that retain a trait of its name.
pub fn tally_trial(
    m: &ProbMatrix,
    reference: &Vec<Trait>,
    target: &Vec<Trait>,
    group: u64,
    mode: Mode,
    rng: &mut StdRng,
) -> (r: Vec<u64>)
    requires
        m.wf(),
        reference@.len() == m.spec_dim(),
    ensures
        r@.len() == target@.len(),
        forall|j: int| 0 <= j < r@.len() ==> #[trigger] r@[j] <= group,
        drawn_trial(m@, reference@, target@, mode.spec_trait_count(), group as nat, counts_of(r@)),
{
    let n = target.len();
    let trait_count = mode.trait_count();
    let mut tally: Vec<u64> = Vec::new();
    let mut j: usize = 0;
    while j < n
        invariant
            j <= n,
            tally@ =~= Seq::new(j as nat, |q: int| 0u64),
        decreases n - j,
    {
        tally.push(0);
        j = j + 1;
    }
    let ghost mut draws: Seq<Seq<usize>> = Seq::empty();
    let mut i: u64 = 0;
    while i < group
        invariant
            m.wf(),
            reference@.len() == m.spec_dim(),
            n == target@.len(),
            trait_count == mode.spec_trait_count(),
            i <= group,
            tally@.len() == n,
            draws.len() == i,
            forall|q: int|
                0 <= q < draws.len() ==> possible_outcome(m@, trait_count as nat, #[trigger] draws[q]),
            forall|q: int| 0 <= q < n ==> #[trigger] tally@[q] <= i,
            forall|q: int|
                0 <= q < n ==> #[trigger] tally@[q] == count_holding(reference@, draws, target@[q].name@),
        decreases group - i,
    {
        let d = sample_indices(m, trait_count, rng);
        let ghost next = draws.push(d@);
        assert(next.drop_last() =~= draws);
        assert(next.last() == d@);
        let ghost start = tally@;
        let mut j: usize = 0;
        while j < n
            invariant
                n == target@.len(),
                reference@.len() == m.spec_dim(),
                valid_draw(m@, trait_count as nat, d@),
                i < group,
                j <= n,
                tally@.len() == n,
                start.len() == n,
                next.drop_last() == draws,
                next.last() == d@,
                next.len() == draws.len() + 1,
                forall|q: int| 0 <= q < n ==> #[trigger] start[q] <= i,
                forall|q: int|
                    0 <= q < n ==> #[trigger] start[q] == count_holding(reference@, draws, target@[q].name@),
                forall|q: int| j <= q < n ==> #[trigger] tally@[q] == start[q],
                forall|q: int|
                    0 <= q < j ==> #[trigger] tally@[q] == count_holding(reference@, next, target@[q].name@),
                forall|q: int| 0 <= q < n ==> #[trigger] tally@[q] <= i + 1,
            decreases n - j,
        {
            let hit = draw_holds_name(reference, &d, &target[j].name);
            assert(count_holding(reference@, next, target@[j as int].name@) == count_holding(
                reference@,
                draws,
                target@[j as int].name@,
            ) + if hit {
                1nat
            } else {
                0nat
            });
            if hit {
                let c = tally[j];
                tally.set(j, c + 1);
            }
            j = j + 1;
        }
        proof {
            draws = next;
        }
        i = i + 1;
    }
    assert(tally_of(reference@, target@, draws, counts_of(tally@)));
    tally
}

/// Runs `trial_count` trials of `group` individuals each, retaining up to
/// the mode's number of traits per individual, and counts the matches against
/// the target profile. Each trial's tally is that of some possible draws.
pub fn run(
    m: &ProbMatrix,
    reference: &Vec<Trait>,
    target: &Vec<Trait>,
    group: u64,
    trial_count: u64,
    mode: Mode,
    rng: &mut StdRng,
) -> (r: Aggregate)
    requires
        m.wf(),
        reference@.len() == m.spec_dim(),
        target@.len() == m.spec_dim(),
        group >= 1,
        trial_count >= 1,
    ensures
        r.consistent(frequencies(target@), group as nat),
        r.trials == trial_count,
        r.exact_matches <= r.trials,
        r.trait_matches@.len() == target@.len(),
        forall|j: int| 0 <= j < target@.len() ==> #[trigger] r.trait_matches@[j] <= r.trials,
        tallies_within(r.history@, target@.len() as nat, group as nat),
        forall|t: int|
            0 <= t < r.history@.len() ==> drawn_trial(
                m@,
                reference@,
                target@,
                mode.spec_trait_count(),
                group as nat,
                #[trigger] r.history@[t],
            ),
{
    let ghost targets = frequencies(target@);
    let mut agg = Aggregate::empty(target.len());
    assert(agg.consistent(targets, group as nat));
    let mut t: u64 = 0;
    while t < trial_count
        invariant
            m.wf(),
            reference@.len() == m.spec_dim(),
            targets == frequencies(target@),
            targets.len() == target@.len(),
            group >= 1,
            t <= trial_count,
            agg.trials == t,
            agg.consistent(targets, group as nat),
            tallies_within(agg.history@, target@.len() as nat, group as nat),
            forall|q: int|
                0 <= q < agg.history@.len() ==> drawn_trial(
                    m@,
                    reference@,
                    target@,
                    mode.spec_trait_count(),
                    group as nat,
                    #[trigger] agg.history@[q],
                ),
        decreases trial_count - t,
    {
        let tally = tally_trial(m, reference, target, group, mode, rng);
        let ghost h0 = agg.history@;
        agg.record_trial(target, group, &tally);
        assert forall|q: int| 0 <= q < agg.history@.len() implies #[trigger] agg.history@[q].len()
            == target@.len() && forall|j: int|
            0 <= j < target@.len() ==> #[trigger] agg.history@[q][j] <= group as nat by {
            if q < h0.len() {
                assert(agg.history@[q] == h0[q]);
            } else {
                assert(agg.history@[q] == counts_of(tally@));
            }
        }
        assert forall|q: int| 0 <= q < agg.history@.len() implies drawn_trial(
            m@,
            reference@,
            target@,
            mode.spec_trait_count(),
            group as nat,
            #[trigger] agg.history@[q],
        ) by {
            if q < h0.len() {
                assert(agg.history@[q] == h0[q]);
            } else {
                assert(agg.history@[q] == counts_of(tally@));
            }
        }
        t = t + 1;
    }
    proof {
        lemma_totals_bounded(targets, group as nat, agg.history@);
    }
    agg
}

/// No count exceeds the number of trials counted.
pub proof fn lemma_totals_bounded(targets: Seq<u32>, group: nat, trials: Seq<Seq<nat>>)
    ensures
        exact_total(targets, group, trials) <= trials.len(),
        forall|j: int| #[trigger] trait_total(targets, group, trials, j) <= trials.len(),
    decreases trials.len(),
{
    if trials.len() > 0 {
        let pre = trials.drop_last();
        lemma_totals_bounded(targets, group, pre);
        assert forall|j: int| #[trigger] trait_total(targets, group, trials, j) <= trials.len() by {
            assert(trait_total(targets, group, pre, j) <= pre.len());
        }
    }
}

/// Counting two runs of trials separately and adding the counts gives the
/// counts of the two runs taken together.
pub proof fn lemma_concat_totals(
    targets: Seq<u32>,
    group: nat,
    first: Seq<Seq<nat>>,
    second: Seq<Seq<nat>>,
)
    ensures
        exact_total(targets, group, first + second) == exact_total(targets, group, first)
            + exact_total(targets, group, second),
        forall|j: int|
            #[trigger] trait_total(targets, group, first + second, j) == trait_total(
                targets,
                group,
                first,
                j,
            ) + trait_total(targets, group, second, j),
    decreases second.len(),
{
    if second.len() == 0 {
        assert(first + second =~= first);
    } else {
        let pre = second.drop_last();
        lemma_concat_totals(targets, group, first, pre);
        assert((first + second).drop_last() =~= first + pre);
        assert((first + second).last() == second.last());
        assert forall|j: int|
            #[trigger] trait_total(targets, group, first + second, j) == trait_total(
                targets,
                group,
                first,
                j,
            ) + trait_total(targets, group, second, j) by {
            assert(trait_total(targets, group, first + pre, j) == trait_total(
                targets,
                group,
                first,
                j,
            ) + trait_total(targets, group, pre, j));
        }
    }
}

/// `count / group` rounded half up to two decimals, in hundredths.
pub fn round_hundredths(count: u64, group: u64) -> (r: u128)
    requires
        group > 0,
    ensures
        r == rounded_hundredths(count as nat, group as nat),
{
    (200 * (count as u128) + group as u128) / (2 * (group as u128))
}

/// Whether `count` of `group` individuals, rounded to hundredths, equals the
/// target frequency given in millionths.
pub fn slot_match(target: u32, count: u64, group: u64) -> (r: bool)
    requires
        group > 0,
    ensures
        r == slot_matches(target, count as nat, group as nat),
{
    let h = round_hundredths(count, group);
    assert(h <= 100 * (count as u128) + 1) by (nonlinear_arith)
        requires
            h == (200 * (count as u128) + group as u128) / (2 * (group as u128)),
            group > 0,
    ;
    h * 10_000 == target as u128
}

} // verus!
