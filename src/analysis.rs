//! The significance screen: a Bonferroni-corrected chi-square comparison of
//! each trait's simulated match frequency with its reference frequency.
//!
//! With `T` trials of `g` individuals, a trait that matched in `k` trials and
//! has reference frequency `f` millionths has observed count `k * g` and
//! expected count `f * g * T / 10^6`. Its statistic
//! `(observed - expected)^2 / expected` exceeds a critical value of `c`
//! millionths exactly when `D^2 > c * f * g * T`, where
//! `D = 10^6 * k * g - f * g * T` is the deviation in millionths. All of it is
//! decided in integers.

use crate::engine::{lemma_totals_bounded, trait_total, Aggregate};
use crate::model::{comparable, frequencies, names_of, Ratio, Trait, SCALE};
use crate::order::{name_order, sorted_by_name};
use vstd::prelude::*;

verus! {

/// The largest number of observations (individuals times trials) that the
/// screen computes with; it keeps every intermediate within 128 bits.
pub const MAX_OBSERVATIONS: u64 = 1_099_511_627_776;

/// The Bonferroni correction of `level` over `tests` simultaneous tests:
/// the level divided by the number of tests.
pub fn corrected_level(level: Ratio, tests: u64) -> (r: Ratio)
    requires
        tests > 0,
        level.den as int * tests as int <= u64::MAX,
    ensures
        r.num == level.num,
        r.den == level.den * tests,
{
    Ratio { num: level.num, den: level.den * tests }
}

/// `i` is the first index of `reference` whose trait is named `name`.
pub open spec fn first_named(reference: Seq<Trait>, name: Seq<char>, i: int) -> bool {
    &&& 0 <= i < reference.len()
    &&& reference[i].name@ == name
    &&& forall|k: int| 0 <= k < i ==> #[trigger] reference[k].name@ != name
}

/// The first index of `reference` whose trait is named `name`, if any.
pub fn find_named(reference: &Vec<Trait>, name: &String) -> (r: Option<usize>)
    ensures
        r is None <==> !names_of(reference@).contains(name@),
        r matches Some(i) ==> first_named(reference@, name@, i as int),
{
    let mut k: usize = 0;
    while k < reference.len()
        invariant
            k <= reference@.len(),
            forall|q: int| 0 <= q < k ==> #[trigger] reference@[q].name@ != name@,
        decreases reference@.len() - k,
    {
        if reference[k].name == *name {
            assert(names_of(reference@)[k as int] == name@);
            return Some(k);
        }
        k = k + 1;
    }
    assert forall|q: int| 0 <= q < names_of(reference@).len() implies #[trigger] names_of(
        reference@,
    )[q] != name@ by {
        assert(names_of(reference@)[q] == reference@[q].name@);
    }
    None
}

/// Expected count of a trait, in millionths of an observation.
pub open spec fn expected_scaled(freq: nat, group: nat, trials: nat) -> nat {
    freq * group * trials
}

/// Observed minus expected count, in millionths of an observation.
pub open spec fn deviation_scaled(matches: nat, freq: nat, group: nat, trials: nat) -> int {
    (SCALE as int) * matches * group - expected_scaled(freq, group, trials)
}

/// The chi-square statistic exceeds the critical value `critical` (in
/// millionths); never so where the expected count is zero.
pub open spec fn significant(matches: nat, freq: nat, group: nat, trials: nat, critical: nat) -> bool {
    &&& expected_scaled(freq, group, trials) > 0
    &&& deviation_scaled(matches, freq, group, trials) * deviation_scaled(
        matches,
        freq,
        group,
        trials,
    ) > critical * expected_scaled(freq, group, trials)
}

/// A trait whose simulated frequency deviates significantly from its
/// reference frequency.
pub struct Finding {
    /// Its index in the target table.
    pub index: usize,
    pub name: String,
    /// Trials in which it matched; its observed probability is this over the
    /// number of trials.
    pub match_count: u64,
    /// Its reference frequency, in millionths.
    pub expected_ppm: u32,
    /// The chi-square statistic is `chi_num / chi_den`.
    pub chi_num: u128,
    pub chi_den: u128,
}

/// Whether a trait with `matches` matching trials out of `trials`, of `group`
/// individuals each, and reference frequency `freq` is significant at the
/// critical value `critical` (in millionths); with the statistic as a fraction.
pub fn chi_square_test(matches: u64, freq: u32, group: u64, trials: u64, critical: u64) -> (r: (
    bool,
    u128,
    u128,
))
    requires
        matches <= trials,
        freq <= SCALE,
        group as int * trials as int <= MAX_OBSERVATIONS,
    ensures
        r.0 == significant(matches as nat, freq as nat, group as nat, trials as nat, critical as nat),
        r.1 == deviation_scaled(matches as nat, freq as nat, group as nat, trials as nat)
            * deviation_scaled(matches as nat, freq as nat, group as nat, trials as nat),
        r.2 == (SCALE as int) * expected_scaled(freq as nat, group as nat, trials as nat),
{
    assert(group as int * matches as int <= group as int * trials as int) by (nonlinear_arith)
        requires
            matches <= trials,
    ;
    let gt = (group as u128) * (trials as u128);
    assert(matches as int * group as int <= MAX_OBSERVATIONS) by (nonlinear_arith)
        requires
            group as int * matches as int <= group as int * trials as int,
            group as int * trials as int <= MAX_OBSERVATIONS,
    ;
    let kg = (matches as u128) * (group as u128);
    assert(kg <= gt) by (nonlinear_arith)
        requires
            kg == matches as int * group as int,
            gt == group as int * trials as int,
            matches <= trials,
    ;
    let observed = (SCALE as u128) * kg;
    assert(freq as int * gt <= 1_000_000 * 1_099_511_627_776) by (nonlinear_arith)
        requires
            gt <= 1_099_511_627_776,
            freq <= 1_000_000,
            gt >= 0,
    ;
    let expected = (freq as u128) * gt;
    assert(expected == expected_scaled(freq as nat, group as nat, trials as nat)) by (nonlinear_arith)
        requires
            expected == freq as int * gt,
            gt == group as int * trials as int,
    ;
    let dev: u128 = if observed >= expected {
        observed - expected
    } else {
        expected - observed
    };
    assert(dev <= 1_000_000 * 1_099_511_627_776);
    assert(dev * dev <= (1_000_000 * 1_099_511_627_776) * (1_000_000 * 1_099_511_627_776)) by (nonlinear_arith)
        requires
            dev <= 1_000_000 * 1_099_511_627_776,
    ;
    let num = dev * dev;
    let ghost d = deviation_scaled(matches as nat, freq as nat, group as nat, trials as nat);
    assert(observed == (SCALE as int) * matches * group) by (nonlinear_arith)
        requires
            observed == 1_000_000 * kg,
            kg == matches as int * group as int,
    ;
    assert(num == d * d) by (nonlinear_arith)
        requires
            num == dev * dev,
            dev == d || dev == -d,
    ;
    assert(critical as int * expected <= 18_446_744_073_709_551_615 * (1_000_000
        * 1_099_511_627_776)) by (nonlinear_arith)
        requires
            critical <= 18_446_744_073_709_551_615,
            expected <= 1_000_000 * 1_099_511_627_776,
    ;
    let bar = (critical as u128) * expected;
    let den = (SCALE as u128) * expected;
    (expected > 0 && num > bar, num, den)
}

/// The reference frequency of the first reference trait named `name`.
pub open spec fn reference_frequency(reference: Seq<Trait>, name: Seq<char>) -> u32 {
    reference[choose|i: int| first_named(reference, name, i)].frequency
}

/// Per target trait, the reference frequency it is tested against.
pub open spec fn expected_frequencies(reference: Seq<Trait>, target: Seq<Trait>) -> Seq<u32> {
    target.map_values(|t: Trait| reference_frequency(reference, t.name@))
}

/// The indices of `order`, in that order, whose trait's statistic exceeds the
/// critical value.
pub open spec fn flagged(
    matches: Seq<u64>,
    freqs: Seq<u32>,
    group: nat,
    trials: nat,
    critical: nat,
    order: Seq<usize>,
) -> Seq<usize>
    decreases order.len(),
{
    if order.len() == 0 {
        Seq::empty()
    } else {
        let pre = flagged(matches, freqs, group, trials, critical, order.drop_last());
        let j = order.last() as int;
        if significant(matches[j] as nat, freqs[j] as nat, group, trials, critical) {
            pre.push(order.last())
        } else {
            pre
        }
    }
}

/// `findings` report, in order, the traits of `target` listed in `flagged`,
/// with the counts of `agg`.
pub open spec fn reports(
    findings: Seq<Finding>,
    flagged: Seq<usize>,
    agg: &Aggregate,
    freqs: Seq<u32>,
    target: Seq<Trait>,
    group: nat,
) -> bool {
    &&& findings.len() == flagged.len()
    &&& forall|k: int|
        0 <= k < findings.len() ==> {
            let f = #[trigger] findings[k];
            let j = flagged[k] as int;
            &&& f.index == flagged[k]
            &&& f.name@ == target[j].name@
            &&& f.match_count == agg.trait_matches@[j]
            &&& f.expected_ppm == freqs[j]
            &&& f.chi_num == deviation_scaled(
                agg.trait_matches@[j] as nat,
                freqs[j] as nat,
                group,
                agg.trials as nat,
            ) * deviation_scaled(
                agg.trait_matches@[j] as nat,
                freqs[j] as nat,
                group,
                agg.trials as nat,
            )
            &&& f.chi_den == (SCALE as int) * expected_scaled(
                freqs[j] as nat,
                group,
                agg.trials as nat,
            )
        }
}

/// Screens the traits of `target` visited in `order` against the critical
/// value `critical` (in millionths), each against the frequency of the
/// first reference trait of the same name.
pub fn analyze_in_order(
    agg: &Aggregate,
    reference: &Vec<Trait>,
    target: &Vec<Trait>,
    group: u64,
    critical: u64,
    order: &Vec<usize>,
) -> (r: Vec<Finding>)
    requires
        agg.consistent(frequencies(target@), group as nat),
        comparable(reference@, target@),
        group as int * agg.trials as int <= MAX_OBSERVATIONS,
        forall|k: int| 0 <= k < order@.len() ==> #[trigger] order@[k] < target@.len(),
    ensures
        reports(
            r@,
            flagged(
                agg.trait_matches@,
                expected_frequencies(reference@, target@),
                group as nat,
                agg.trials as nat,
                critical as nat,
                order@,
            ),
            agg,
            expected_frequencies(reference@, target@),
            target@,
            group as nat,
        ),
{
    let ghost freqs = expected_frequencies(reference@, target@);
    proof {
        lemma_totals_bounded(frequencies(target@), group as nat, agg.history@);
    }
    let mut out: Vec<Finding> = Vec::new();
    let mut k: usize = 0;
    while k < order.len()
        invariant
            agg.consistent(frequencies(target@), group as nat),
            comparable(reference@, target@),
            group as int * agg.trials as int <= MAX_OBSERVATIONS,
            forall|q: int| 0 <= q < order@.len() ==> #[trigger] order@[q] < target@.len(),
            forall|j: int|
                #[trigger] trait_total(frequencies(target@), group as nat, agg.history@, j)
                    <= agg.history@.len(),
            freqs == expected_frequencies(reference@, target@),
            k <= order@.len(),
            reports(
                out@,
                flagged(
                    agg.trait_matches@,
                    freqs,
                    group as nat,
                    agg.trials as nat,
                    critical as nat,
                    order@.subrange(0, k as int),
                ),
                agg,
                freqs,
                target@,
                group as nat,
            ),
        decreases order@.len() - k,
    {
        let j = order[k];
        let ghost pre = order@.subrange(0, k as int);
        let ghost next = order@.subrange(0, k + 1);
        assert(next.drop_last() =~= pre);
        assert(next.last() == j);
        let found = find_named(reference, &target[j].name);
        let i = match found {
            Some(i) => i,
            None => {
                assert(names_of(reference@).contains(target@[j as int].name@));
                return out;
            },
        };
        proof {
            let c = choose|c: int| first_named(reference@, target@[j as int].name@, c);
            if c < i {
                assert(reference@[c].name@ != target@[j as int].name@);
            } else if c > i {
                assert(reference@[i as int].name@ != target@[j as int].name@);
            }
            assert(freqs[j as int] == reference@[i as int].frequency);
        }
        let freq = reference[i].frequency;
        let matches = agg.trait_matches[j];
        assert(matches == trait_total(frequencies(target@), group as nat, agg.history@, j as int));
        let (hit, num, den) = chi_square_test(matches, freq, group, agg.trials, critical);
        let ghost out0 = out@;
        if hit {
            out.push(
                Finding {
                    index: j,
                    name: target[j].name.clone(),
                    match_count: matches,
                    expected_ppm: freq,
                    chi_num: num,
                    chi_den: den,
                },
            );
            assert(forall|q: int| 0 <= q < out0.len() ==> #[trigger] out@[q] == out0[q]);
        }
        k = k + 1;
    }
    assert(order@.subrange(0, order@.len() as int) =~= order@);
    out
}

/// Every flagged trait is significant, so none has a zero expected count.
pub proof fn lemma_flagged_significant(
    matches: Seq<u64>,
    freqs: Seq<u32>,
    group: nat,
    trials: nat,
    critical: nat,
    order: Seq<usize>,
)
    ensures
        forall|k: int|
            0 <= k < flagged(matches, freqs, group, trials, critical, order).len() ==> {
                let j = #[trigger] flagged(matches, freqs, group, trials, critical, order)[k] as int;
                significant(matches[j] as nat, freqs[j] as nat, group, trials, critical)
            },
    decreases order.len(),
{
    if order.len() > 0 {
        let pre = order.drop_last();
        lemma_flagged_significant(matches, freqs, group, trials, critical, pre);
        let fp = flagged(matches, freqs, group, trials, critical, pre);
        let fl = flagged(matches, freqs, group, trials, critical, order);
        assert forall|k: int| 0 <= k < fl.len() implies {
            let j = #[trigger] fl[k] as int;
            significant(matches[j] as nat, freqs[j] as nat, group, trials, critical)
        } by {
            if k < fp.len() {
                assert(fl[k] == fp[k]);
            }
        }
    }
}

/// No trait whose reference frequency is zero is ever flagged.
pub proof fn lemma_no_finding_without_expectation(
    matches: Seq<u64>,
    freqs: Seq<u32>,
    group: nat,
    trials: nat,
    critical: nat,
    order: Seq<usize>,
)
    ensures
        forall|k: int|
            0 <= k < flagged(matches, freqs, group, trials, critical, order).len() ==> freqs[#[trigger] flagged(
                matches,
                freqs,
                group,
                trials,
                critical,
                order,
            )[k] as int] > 0,
{
    lemma_flagged_significant(matches, freqs, group, trials, critical, order);
    assert forall|k: int|
        0 <= k < flagged(matches, freqs, group, trials, critical, order).len() implies freqs[#[trigger] flagged(
            matches,
            freqs,
            group,
            trials,
            critical,
            order,
        )[k] as int] > 0 by {
        let j = flagged(matches, freqs, group, trials, critical, order)[k] as int;
        let f = freqs[j] as nat;
        assert(expected_scaled(f, group, trials) > 0);
        if f == 0 {
            assert(f * group * trials == 0) by (nonlinear_arith)
                requires
                    f == 0,
            ;
        }
    }
}

/// Screens every trait of `target`, visited in name order, against the
/// critical value `critical` (in millionths); a trait whose reference
/// frequency is zero is never reported.
pub fn analyze(
    agg: &Aggregate,
    reference: &Vec<Trait>,
    target: &Vec<Trait>,
    group: u64,
    critical: u64,
) -> (r: Vec<Finding>)
    requires
        agg.consistent(frequencies(target@), group as nat),
        comparable(reference@, target@),
        group as int * agg.trials as int <= MAX_OBSERVATIONS,
    ensures
        exists|order: Seq<usize>|
            sorted_by_name(target@, order) && reports(
                r@,
                flagged(
                    agg.trait_matches@,
                    expected_frequencies(reference@, target@),
                    group as nat,
                    agg.trials as nat,
                    critical as nat,
                    order,
                ),
                agg,
                expected_frequencies(reference@, target@),
                target@,
                group as nat,
            ),
        forall|k: int| 0 <= k < r@.len() ==> #[trigger] r@[k].expected_ppm > 0,
{
    let order = name_order(target);
    let r = analyze_in_order(agg, reference, target, group, critical, &order);
    proof {
        lemma_no_finding_without_expectation(
            agg.trait_matches@,
            expected_frequencies(reference@, target@),
            group as nat,
            agg.trials as nat,
            critical as nat,
            order@,
        );
        let fl = flagged(
            agg.trait_matches@,
            expected_frequencies(reference@, target@),
            group as nat,
            agg.trials as nat,
            critical as nat,
            order@,
        );
        assert forall|k: int| 0 <= k < r@.len() implies #[trigger] r@[k].expected_ppm > 0 by {
            assert(expected_frequencies(reference@, target@)[fl[k] as int] > 0);
        }
    }
    r
}

} // verus!
