//! The stability scorer: a confidence value in the unit range, computed
//! from the evidence that an intent carries.
//!
//! Weights and scores are fixed-point numbers in millionths.

use crate::models::{EvidenceKind, EvidenceView, IntentNode, STABILITY_ONE};
use crate::text::views_of;
use vstd::prelude::*;

verus! {

/// The weights of the score, each in millionths.
#[derive(Debug, Clone, Copy)]
pub struct StabilityWeights {
    /// Where every score starts.
    pub base: u64,
    /// Added for each passing test.
    pub test_pass: u64,
    /// The most that passing tests add together.
    pub test_pass_cap: u64,
    /// Added once where code was committed.
    pub code_committed: u64,
    /// Added for each other agent that consumes the intent.
    pub consumed_by_other: u64,
    /// The most that consumers add together.
    pub consumed_cap: u64,
    /// Taken off for each conflict and for each failed test.
    pub conflict_penalty: u64,
    /// Added once where the intent was approved by hand.
    pub manual_approval: u64,
}

impl StabilityWeights {
    /// The standard weights: base 0.3; 0.05 per passing test, at most 0.3;
    /// 0.2 for committed code; 0.1 per consumer, at most 0.2; 0.15 off per
    /// conflict or failed test; 0.3 for an approval by hand.
    pub open spec fn standard() -> StabilityWeights {
        StabilityWeights {
            base: 300_000,
            test_pass: 50_000,
            test_pass_cap: 300_000,
            code_committed: 200_000,
            consumed_by_other: 100_000,
            consumed_cap: 200_000,
            conflict_penalty: 150_000,
            manual_approval: 300_000,
        }
    }
}

impl Default for StabilityWeights {
    fn default() -> (r: Self)
        ensures
            r == StabilityWeights::standard(),
    {
        StabilityWeights {
            base: 300_000,
            test_pass: 50_000,
            test_pass_cap: 300_000,
            code_committed: 200_000,
            consumed_by_other: 100_000,
            consumed_cap: 200_000,
            conflict_penalty: 150_000,
            manual_approval: 300_000,
        }
    }
}

/// How many pieces of evidence are of the given kind.
pub open spec fn count_kind(evidence: Seq<EvidenceView>, kind: EvidenceKind) -> nat
    decreases evidence.len(),
{
    if evidence.len() == 0 {
        0
    } else {
        count_kind(evidence.drop_last(), kind) + if evidence.last().kind == kind {
            1nat
        } else {
            0nat
        }
    }
}

/// The smaller of two numbers.
pub open spec fn min_int(a: int, b: int) -> int {
    if a <= b {
        a
    } else {
        b
    }
}

/// The score before it is brought into the unit range. Only the number of
/// pieces of evidence of each kind enters, not their order.
pub open spec fn raw_score(w: StabilityWeights, evidence: Seq<EvidenceView>) -> int {
    w.base + min_int(count_kind(evidence, EvidenceKind::TestPass) * w.test_pass, w.test_pass_cap as int)
        + (if count_kind(evidence, EvidenceKind::CodeCommitted) > 0 {
        w.code_committed as int
    } else {
        0
    }) + min_int(
        count_kind(evidence, EvidenceKind::ConsumedByOther) * w.consumed_by_other,
        w.consumed_cap as int,
    ) - count_kind(evidence, EvidenceKind::Conflict) * w.conflict_penalty + (if count_kind(
        evidence,
        EvidenceKind::ManualApproval,
    ) > 0 {
        w.manual_approval as int
    } else {
        0
    }) - count_kind(evidence, EvidenceKind::TestFail) * w.conflict_penalty
}

/// The stability score: the raw score, no less than 0 and no more than 1.0.
pub open spec fn stability_score(w: StabilityWeights, evidence: Seq<EvidenceView>) -> u64 {
    let raw = raw_score(w, evidence);
    if raw <= 0 {
        0
    } else if raw >= STABILITY_ONE {
        STABILITY_ONE
    } else {
        raw as u64
    }
}

/// Computes stability scores from evidence.
#[derive(Debug, Clone, Copy)]
pub struct StabilityScorer {
    weights: StabilityWeights,
}

/// The counts of evidence by kind.
struct Tally {
    passes: usize,
    fails: usize,
    commits: usize,
    consumers: usize,
    conflicts: usize,
    approvals: usize,
}

impl StabilityScorer {
    /// The weights that the scorer applies.
    pub closed spec fn weights(self) -> StabilityWeights {
        self.weights
    }

    /// A scorer with the standard weights.
    pub fn new() -> (r: Self)
        ensures
            r.weights() == StabilityWeights::standard(),
    {
        StabilityScorer { weights: StabilityWeights::default() }
    }

    /// A scorer with the given weights.
    pub fn with_weights(weights: StabilityWeights) -> (r: Self)
        ensures
            r.weights() == weights,
    {
        StabilityScorer { weights }
    }

    /// Counts the evidence of an intent by kind.
    fn tally(intent: &IntentNode) -> (t: Tally)
        ensures
            t.passes == count_kind(intent@.evidence, EvidenceKind::TestPass),
            t.fails == count_kind(intent@.evidence, EvidenceKind::TestFail),
            t.commits == count_kind(intent@.evidence, EvidenceKind::CodeCommitted),
            t.consumers == count_kind(intent@.evidence, EvidenceKind::ConsumedByOther),
            t.conflicts == count_kind(intent@.evidence, EvidenceKind::Conflict),
            t.approvals == count_kind(intent@.evidence, EvidenceKind::ManualApproval),
            t.conflicts + t.fails <= usize::MAX,
    {
        let mut t = Tally {
            passes: 0,
            fails: 0,
            commits: 0,
            consumers: 0,
            conflicts: 0,
            approvals: 0,
        };
        let ghost all = intent@.evidence;
        let n = intent.evidence.len();
        let mut i: usize = 0;
        while i < n
            invariant
                i <= n == intent.evidence.len(),
                all == views_of(intent.evidence@),
                t.passes == count_kind(all.take(i as int), EvidenceKind::TestPass),
                t.fails == count_kind(all.take(i as int), EvidenceKind::TestFail),
                t.commits == count_kind(all.take(i as int), EvidenceKind::CodeCommitted),
                t.consumers == count_kind(all.take(i as int), EvidenceKind::ConsumedByOther),
                t.conflicts == count_kind(all.take(i as int), EvidenceKind::Conflict),
                t.approvals == count_kind(all.take(i as int), EvidenceKind::ManualApproval),
                t.passes + t.fails + t.commits + t.consumers + t.conflicts + t.approvals == i,
            decreases n - i,
        {
            proof {
                assert(all.take(i + 1).drop_last() =~= all.take(i as int));
                assert(all.take(i + 1).last().kind == intent.evidence@[i as int].kind);
            }
            match intent.evidence[i].kind {
                EvidenceKind::TestPass => {
                    t.passes += 1;
                },
                EvidenceKind::TestFail => {
                    t.fails += 1;
                },
                EvidenceKind::CodeCommitted => {
                    t.commits += 1;
                },
                EvidenceKind::ConsumedByOther => {
                    t.consumers += 1;
                },
                EvidenceKind::Conflict => {
                    t.conflicts += 1;
                },
                EvidenceKind::ManualApproval => {
                    t.approvals += 1;
                },
            }
            i += 1;
        }
        proof {
            assert(all.take(n as int) =~= all);
        }
        t
    }

    /// The stability of an intent by its evidence, in millionths.
    pub fn compute(&self, intent: &IntentNode) -> (score: u64)
        ensures
            score == stability_score(self.weights(), intent@.evidence),
            score <= STABILITY_ONE,
    {
        let w = &self.weights;
        let t = StabilityScorer::tally(intent);
        let limit: u128 = 0xFFFF_FFFF_FFFF_FFFF;
        assert(t.passes * w.test_pass <= limit * limit) by (nonlinear_arith)
            requires
                0 <= t.passes <= limit,
                0 <= w.test_pass <= limit,
        ;
        assert(t.consumers * w.consumed_by_other <= limit * limit) by (nonlinear_arith)
            requires
                0 <= t.consumers <= limit,
                0 <= w.consumed_by_other <= limit,
        ;
        assert((t.conflicts + t.fails) * w.conflict_penalty <= limit * limit) by (nonlinear_arith)
            requires
                0 <= t.conflicts + t.fails <= limit,
                0 <= w.conflict_penalty <= limit,
        ;
        assert((t.conflicts + t.fails) * w.conflict_penalty == t.conflicts * w.conflict_penalty
            + t.fails * w.conflict_penalty) by (nonlinear_arith);
        let from_passes: u128 = t.passes as u128 * w.test_pass as u128;
        let from_consumers: u128 = t.consumers as u128 * w.consumed_by_other as u128;
        let mut gained: u128 = w.base as u128;
        gained += if from_passes <= w.test_pass_cap as u128 {
            from_passes
        } else {
            w.test_pass_cap as u128
        };
        if t.commits > 0 {
            gained += w.code_committed as u128;
        }
        gained += if from_consumers <= w.consumed_cap as u128 {
            from_consumers
        } else {
            w.consumed_cap as u128
        };
        if t.approvals > 0 {
            gained += w.manual_approval as u128;
        }
        let lost: u128 = (t.conflicts as u128 + t.fails as u128) * w.conflict_penalty as u128;
        assert(gained - lost == raw_score(*w, intent@.evidence));
        if gained <= lost {
            0
        } else if gained - lost >= STABILITY_ONE as u128 {
            STABILITY_ONE
        } else {
            (gained - lost) as u64
        }
    }

    /// The stability of each intent, paired with the intent's identifier.
    pub fn compute_batch(&self, intents: &[IntentNode]) -> (out: Vec<(String, u64)>)
        ensures
            out@.len() == intents@.len(),
            forall|i: int|
                0 <= i < intents@.len() ==> (#[trigger] out@[i]).0@ == intents@[i]@.id && out@[i].1
                    == stability_score(self.weights(), intents@[i]@.evidence),
    {
        let mut out: Vec<(String, u64)> = Vec::new();
        let mut i: usize = 0;
        while i < intents.len()
            invariant
                i <= intents.len(),
                out@.len() == i,
                forall|k: int|
                    0 <= k < i ==> (#[trigger] out@[k]).0@ == intents@[k]@.id && out@[k].1
                        == stability_score(self.weights(), intents@[k]@.evidence),
            decreases intents.len() - i,
        {
            let score = self.compute(&intents[i]);
            out.push((intents[i].id.clone(), score));
            i += 1;
        }
        out
    }
}

impl Default for StabilityScorer {
    fn default() -> (r: Self)
        ensures
            r.weights() == StabilityWeights::standard(),
    {
        StabilityScorer::new()
    }
}

/// Without evidence the score is the base weight, as far as the unit range
/// allows: a base of at most 1.0 is the score itself. Under the standard
/// weights that is 0.3.
pub proof fn lemma_score_without_evidence(w: StabilityWeights)
    ensures
        stability_score(w, Seq::empty()) == if w.base <= STABILITY_ONE {
            w.base
        } else {
            STABILITY_ONE
        },
        stability_score(StabilityWeights::standard(), Seq::empty()) == 300_000,
{
    let none = Seq::<EvidenceView>::empty();
    assert(forall|kind: EvidenceKind| count_kind(none, kind) == 0);
    assert(raw_score(w, none) == w.base);
    assert(raw_score(StabilityWeights::standard(), none) == 300_000);
}

/// The score depends on the evidence only through the number of pieces of
/// each kind: two lists with the same counts score the same, whatever their
/// order.
pub proof fn lemma_score_by_counts(
    w: StabilityWeights,
    a: Seq<EvidenceView>,
    b: Seq<EvidenceView>,
)
    requires
        forall|kind: EvidenceKind| count_kind(a, kind) == count_kind(b, kind),
    ensures
        stability_score(w, a) == stability_score(w, b),
{
    assert(count_kind(a, EvidenceKind::TestPass) == count_kind(b, EvidenceKind::TestPass));
    assert(count_kind(a, EvidenceKind::TestFail) == count_kind(b, EvidenceKind::TestFail));
    assert(count_kind(a, EvidenceKind::CodeCommitted) == count_kind(b, EvidenceKind::CodeCommitted));
    assert(count_kind(a, EvidenceKind::ConsumedByOther) == count_kind(
        b,
        EvidenceKind::ConsumedByOther,
    ));
    assert(count_kind(a, EvidenceKind::Conflict) == count_kind(b, EvidenceKind::Conflict));
    assert(count_kind(a, EvidenceKind::ManualApproval) == count_kind(
        b,
        EvidenceKind::ManualApproval,
    ));
}

} // verus!
