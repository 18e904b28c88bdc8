//! The resolution engine: what a candidate intent should change, and what
//! it clashes with, given the intents that overlap it and the constraints
//! that apply to it.

use crate::decimal::{push_stability, two_decimals};
use crate::graph::{score_of, IntentGraph};
use crate::models::{
    Adjustment, AdjustmentKind, AdjustmentView, ConflictReport, ConflictReportView, Constraint,
    ConstraintView, IntentNode, IntentNodeView, InterfaceSpec, InterfaceSpecView,
    ResolutionResult, ResolutionResultView,
};
use crate::overlap::{all_specs, overlapping};
use crate::stability::StabilityScorer;
use crate::text::views_of;
use vstd::prelude::*;

verus! {

/// What a rule yields for one interface of the candidate against each of
/// the other side's interfaces, in their order.
pub open spec fn pair_row<T>(
    p: InterfaceSpecView,
    qs: Seq<InterfaceSpecView>,
    rule: spec_fn(InterfaceSpecView, InterfaceSpecView) -> Seq<T>,
) -> Seq<T>
    decreases qs.len(),
{
    if qs.len() == 0 {
        Seq::empty()
    } else {
        pair_row(p, qs.drop_last(), rule) + rule(p, qs.last())
    }
}

/// What a rule yields for every pair of an interface of the candidate and
/// one of the other side, the candidate's interfaces in order and for each
/// the other side's in order.
pub open spec fn pair_grid<T>(
    ps: Seq<InterfaceSpecView>,
    qs: Seq<InterfaceSpecView>,
    rule: spec_fn(InterfaceSpecView, InterfaceSpecView) -> Seq<T>,
) -> Seq<T>
    decreases ps.len(),
{
    if ps.len() == 0 {
        Seq::empty()
    } else {
        pair_grid(ps.drop_last(), qs, rule) + pair_row(ps.last(), qs, rule)
    }
}

/// The advice to drop provision `p` and consume `q` of the other intent.
pub open spec fn consume_adjustment(
    p: InterfaceSpecView,
    q: InterfaceSpecView,
    other: IntentNodeView,
) -> AdjustmentView {
    AdjustmentView {
        kind: AdjustmentKind::ConsumeInstead,
        description: "Drop '"@ + p.name + "', consume '"@ + q.name + "' from agent "@
            + other.agent_id + " (stability "@ + two_decimals(score_of(other)) + ")"@,
        source_intent_id: other.id,
    }
}

/// The report that candidate and other intent both provide `p`.
pub open spec fn provision_conflict(
    p: InterfaceSpecView,
    candidate: IntentNodeView,
    other: IntentNodeView,
) -> ConflictReportView {
    ConflictReportView {
        my_intent_id: candidate.id,
        their_intent_id: other.id,
        description: "Both provide '"@ + p.name + "' \u{2014} my stability "@ + two_decimals(
            score_of(candidate),
        ) + " vs their "@ + two_decimals(score_of(other)),
        their_stability: score_of(other),
        resolution_suggestion: "Higher stability should provide; other should consume"@,
    }
}

/// The advice to adapt requirement `p` to what `q` of the other intent
/// offers.
pub open spec fn adapt_adjustment(
    p: InterfaceSpecView,
    q: InterfaceSpecView,
    other: IntentNodeView,
) -> AdjustmentView {
    AdjustmentView {
        kind: AdjustmentKind::AdaptSignature,
        description: "Adapt '"@ + p.name + "' signature to match '"@ + q.name + "' from agent "@
            + other.agent_id + " \u{2014} expected '"@ + p.signature + "', they provide '"@
            + q.signature + "'"@,
        source_intent_id: other.id,
    }
}

/// Two overlapping provisions where the other intent is strictly more
/// stable: the candidate should consume.
pub open spec fn consume_rule(candidate: IntentNodeView, other: IntentNodeView) -> spec_fn(
    InterfaceSpecView,
    InterfaceSpecView,
) -> Seq<AdjustmentView> {
    |p: InterfaceSpecView, q: InterfaceSpecView|
        if p.overlaps(q) && score_of(other) > score_of(candidate) {
            seq![consume_adjustment(p, q, other)]
        } else {
            Seq::empty()
        }
}

/// Two overlapping provisions where the other intent is not strictly more
/// stable, a tie included: a conflict, which nobody settles.
pub open spec fn conflict_rule(candidate: IntentNodeView, other: IntentNodeView) -> spec_fn(
    InterfaceSpecView,
    InterfaceSpecView,
) -> Seq<ConflictReportView> {
    |p: InterfaceSpecView, q: InterfaceSpecView|
        if p.overlaps(q) && !(score_of(other) > score_of(candidate)) {
            seq![provision_conflict(p, candidate, other)]
        } else {
            Seq::empty()
        }
}

/// A requirement that overlaps a provision whose signature does not satisfy
/// it, where the other intent is strictly more stable: the candidate should
/// adapt. Toward a less stable intent, or an equally stable one, nothing is
/// advised.
pub open spec fn adapt_rule(candidate: IntentNodeView, other: IntentNodeView) -> spec_fn(
    InterfaceSpecView,
    InterfaceSpecView,
) -> Seq<AdjustmentView> {
    |p: InterfaceSpecView, q: InterfaceSpecView|
        if p.overlaps(q) && !p.satisfied_by(q) && score_of(other) > score_of(candidate) {
            seq![adapt_adjustment(p, q, other)]
        } else {
            Seq::empty()
        }
}

/// The adjustments that one overlapping intent prompts: those to consume,
/// then those to adapt.
pub open spec fn record_adjustments(candidate: IntentNodeView, other: IntentNodeView) -> Seq<
    AdjustmentView,
> {
    pair_grid(candidate.provides, other.provides, consume_rule(candidate, other)) + pair_grid(
        candidate.requires,
        other.provides,
        adapt_rule(candidate, other),
    )
}

/// The conflicts with one overlapping intent.
pub open spec fn record_conflicts(candidate: IntentNodeView, other: IntentNodeView) -> Seq<
    ConflictReportView,
> {
    pair_grid(candidate.provides, other.provides, conflict_rule(candidate, other))
}

/// The adjustments that the overlapping intents prompt, intent by intent.
pub open spec fn overlap_adjustments(candidate: IntentNodeView, others: Seq<IntentNodeView>) -> Seq<
    AdjustmentView,
>
    decreases others.len(),
{
    if others.len() == 0 {
        Seq::empty()
    } else {
        overlap_adjustments(candidate, others.drop_last()) + record_adjustments(
            candidate,
            others.last(),
        )
    }
}

/// The conflicts with the overlapping intents, intent by intent.
pub open spec fn overlap_conflicts(candidate: IntentNodeView, others: Seq<IntentNodeView>) -> Seq<
    ConflictReportView,
>
    decreases others.len(),
{
    if others.len() == 0 {
        Seq::empty()
    } else {
        overlap_conflicts(candidate, others.drop_last()) + record_conflicts(
            candidate,
            others.last(),
        )
    }
}

/// A constraint that applies to a candidate, with the identifier and the
/// computed stability of the intent that imposes it.
pub type Applicable = (ConstraintView, Seq<char>, u64);

/// One of the candidate's own constraints conflicts with the constraint.
pub open spec fn contradicted(candidate: IntentNodeView, c: ConstraintView) -> bool {
    exists|k: int|
        0 <= k < candidate.constraints.len() && (#[trigger] candidate.constraints[k]).conflicts_with(
            c,
        )
}

/// The advice to adopt a constraint.
pub open spec fn adopt_adjustment(a: Applicable) -> AdjustmentView {
    AdjustmentView {
        kind: AdjustmentKind::AdoptConstraint,
        description: "Adopt constraint: "@ + a.0.target + " \u{2014} "@ + a.0.requirement,
        source_intent_id: a.1,
    }
}

/// The report that a constraint clashes with one of the candidate's own.
pub open spec fn constraint_conflict(candidate: IntentNodeView, a: Applicable) -> ConflictReportView {
    ConflictReportView {
        my_intent_id: candidate.id,
        their_intent_id: a.1,
        description: "Constraint conflict on '"@ + a.0.target
            + "': my requirement vs their requirement"@,
        their_stability: a.2,
        resolution_suggestion: "Higher stability constraint should win"@,
    }
}

/// The applicable constraints that none of the candidate's own contradicts:
/// the candidate adopts them.
pub open spec fn adopted_constraints(candidate: IntentNodeView, applicable: Seq<Applicable>) -> Seq<
    ConstraintView,
>
    decreases applicable.len(),
{
    if applicable.len() == 0 {
        Seq::empty()
    } else {
        let before = adopted_constraints(candidate, applicable.drop_last());
        if contradicted(candidate, applicable.last().0) {
            before
        } else {
            before.push(applicable.last().0)
        }
    }
}

/// One adjustment for each adopted constraint.
pub open spec fn constraint_adjustments(candidate: IntentNodeView, applicable: Seq<Applicable>) -> Seq<
    AdjustmentView,
>
    decreases applicable.len(),
{
    if applicable.len() == 0 {
        Seq::empty()
    } else {
        let before = constraint_adjustments(candidate, applicable.drop_last());
        if contradicted(candidate, applicable.last().0) {
            before
        } else {
            before.push(adopt_adjustment(applicable.last()))
        }
    }
}

/// One conflict for each applicable constraint that one of the candidate's
/// own contradicts.
pub open spec fn constraint_conflicts(candidate: IntentNodeView, applicable: Seq<Applicable>) -> Seq<
    ConflictReportView,
>
    decreases applicable.len(),
{
    if applicable.len() == 0 {
        Seq::empty()
    } else {
        let before = constraint_conflicts(candidate, applicable.drop_last());
        if contradicted(candidate, applicable.last().0) {
            before.push(constraint_conflict(candidate, applicable.last()))
        } else {
            before
        }
    }
}

/// The outcome of weighing a candidate against the intents that overlap it
/// and the constraints that apply to it.
pub open spec fn arbitration(
    candidate: IntentNodeView,
    others: Seq<IntentNodeView>,
    applicable: Seq<Applicable>,
) -> ResolutionResultView {
    ResolutionResultView {
        original_intent: candidate.id,
        adjustments: overlap_adjustments(candidate, others) + constraint_adjustments(
            candidate,
            applicable,
        ),
        conflicts: overlap_conflicts(candidate, others) + constraint_conflicts(
            candidate,
            applicable,
        ),
        adopted_constraints: adopted_constraints(candidate, applicable),
    }
}

/// Writes the advice to consume.
fn describe_consume(p: &InterfaceSpec, q: &InterfaceSpec, other: &IntentNode, theirs: u64) -> (r:
    Adjustment)
    requires
        theirs == score_of(other@),
    ensures
        r@ == consume_adjustment(p@, q@, other@),
{
    let mut d = String::new();
    d.append("Drop '");
    d.append(p.name.as_str());
    d.append("', consume '");
    d.append(q.name.as_str());
    d.append("' from agent ");
    d.append(other.agent_id.as_str());
    d.append(" (stability ");
    push_stability(&mut d, theirs);
    d.append(")");
    proof {
        assert(d@ =~= consume_adjustment(p@, q@, other@).description);
    }
    Adjustment {
        kind: AdjustmentKind::ConsumeInstead,
        description: d,
        source_intent_id: other.id.clone(),
    }
}

/// Writes the report of a clash between provisions.
fn describe_provision_conflict(
    p: &InterfaceSpec,
    candidate: &IntentNode,
    other: &IntentNode,
    mine: u64,
    theirs: u64,
) -> (r: ConflictReport)
    requires
        mine == score_of(candidate@),
        theirs == score_of(other@),
    ensures
        r@ == provision_conflict(p@, candidate@, other@),
{
    let mut d = String::new();
    d.append("Both provide '");
    d.append(p.name.as_str());
    d.append("' \u{2014} my stability ");
    push_stability(&mut d, mine);
    d.append(" vs their ");
    push_stability(&mut d, theirs);
    proof {
        assert(d@ =~= provision_conflict(p@, candidate@, other@).description);
    }
    ConflictReport {
        my_intent_id: candidate.id.clone(),
        their_intent_id: other.id.clone(),
        description: d,
        their_stability: theirs,
        resolution_suggestion: "Higher stability should provide; other should consume".to_owned(),
    }
}

/// Writes the advice to adapt a signature.
fn describe_adapt(p: &InterfaceSpec, q: &InterfaceSpec, other: &IntentNode) -> (r: Adjustment)
    ensures
        r@ == adapt_adjustment(p@, q@, other@),
{
    let mut d = String::new();
    d.append("Adapt '");
    d.append(p.name.as_str());
    d.append("' signature to match '");
    d.append(q.name.as_str());
    d.append("' from agent ");
    d.append(other.agent_id.as_str());
    d.append(" \u{2014} expected '");
    d.append(p.signature.as_str());
    d.append("', they provide '");
    d.append(q.signature.as_str());
    d.append("'");
    proof {
        assert(d@ =~= adapt_adjustment(p@, q@, other@).description);
    }
    Adjustment {
        kind: AdjustmentKind::AdaptSignature,
        description: d,
        source_intent_id: other.id.clone(),
    }
}

/// Weighs the candidate's provisions against those of one overlapping
/// intent.
fn weigh_provisions(
    candidate: &IntentNode,
    other: &IntentNode,
    mine: u64,
    theirs: u64,
    adjustments: &mut Vec<Adjustment>,
    conflicts: &mut Vec<ConflictReport>,
)
    requires
        mine == score_of(candidate@),
        theirs == score_of(other@),
    ensures
        views_of(final(adjustments)@) == views_of(old(adjustments)@) + pair_grid(
            candidate@.provides,
            other@.provides,
            consume_rule(candidate@, other@),
        ),
        views_of(final(conflicts)@) == views_of(old(conflicts)@) + pair_grid(
            candidate@.provides,
            other@.provides,
            conflict_rule(candidate@, other@),
        ),
{
    let ghost ps = candidate@.provides;
    let ghost qs = other@.provides;
    let ghost consume = consume_rule(candidate@, other@);
    let ghost clash = conflict_rule(candidate@, other@);
    let ghost adj0 = views_of(adjustments@);
    let ghost con0 = views_of(conflicts@);
    let mut i: usize = 0;
    proof {
        assert(views_of(adjustments@) =~= adj0 + pair_grid(ps.take(0), qs, consume));
        assert(views_of(conflicts@) =~= con0 + pair_grid(ps.take(0), qs, clash));
    }
    while i < candidate.provides.len()
        invariant
            i <= candidate.provides.len(),
            mine == score_of(candidate@),
            theirs == score_of(other@),
            ps == candidate@.provides,
            qs == other@.provides,
            consume == consume_rule(candidate@, other@),
            clash == conflict_rule(candidate@, other@),
            views_of(adjustments@) == adj0 + pair_grid(ps.take(i as int), qs, consume),
            views_of(conflicts@) == con0 + pair_grid(ps.take(i as int), qs, clash),
        decreases candidate.provides.len() - i,
    {
        let p = &candidate.provides[i];
        let ghost adj1 = views_of(adjustments@);
        let ghost con1 = views_of(conflicts@);
        let mut j: usize = 0;
        proof {
            assert(ps[i as int] == p@);
            assert(views_of(adjustments@) =~= adj1 + pair_row(p@, qs.take(0), consume));
            assert(views_of(conflicts@) =~= con1 + pair_row(p@, qs.take(0), clash));
        }
        while j < other.provides.len()
            invariant
                j <= other.provides.len(),
                mine == score_of(candidate@),
                theirs == score_of(other@),
                qs == other@.provides,
                consume == consume_rule(candidate@, other@),
                clash == conflict_rule(candidate@, other@),
                views_of(adjustments@) == adj1 + pair_row(p@, qs.take(j as int), consume),
                views_of(conflicts@) == con1 + pair_row(p@, qs.take(j as int), clash),
            decreases other.provides.len() - j,
        {
            let q = &other.provides[j];
            let ghost adj2 = views_of(adjustments@);
            let ghost con2 = views_of(conflicts@);
            proof {
                assert(qs[j as int] == q@);
                assert(qs.take(j + 1).drop_last() =~= qs.take(j as int));
                assert(qs.take(j + 1).last() == q@);
            }
            if p.structurally_overlaps(q) {
                if theirs > mine {
                    let a = describe_consume(p, q, other, theirs);
                    adjustments.push(a);
                    proof {
                        assert(views_of(adjustments@) =~= adj2.push(
                            consume_adjustment(p@, q@, other@),
                        ));
                    }
                } else {
                    let c = describe_provision_conflict(p, candidate, other, mine, theirs);
                    conflicts.push(c);
                    proof {
                        assert(views_of(conflicts@) =~= con2.push(
                            provision_conflict(p@, candidate@, other@),
                        ));
                    }
                }
            }
            proof {
                assert(views_of(adjustments@) =~= adj1 + pair_row(p@, qs.take(j + 1), consume));
                assert(views_of(conflicts@) =~= con1 + pair_row(p@, qs.take(j + 1), clash));
            }
            j += 1;
        }
        proof {
            assert(qs.take(other.provides.len() as int) =~= qs);
            assert(ps.take(i + 1).drop_last() =~= ps.take(i as int));
            assert(ps.take(i + 1).last() == p@);
            assert(views_of(adjustments@) =~= adj0 + pair_grid(ps.take(i + 1), qs, consume));
            assert(views_of(conflicts@) =~= con0 + pair_grid(ps.take(i + 1), qs, clash));
        }
        i += 1;
    }
    proof {
        assert(ps.take(candidate.provides.len() as int) =~= ps);
    }
}

/// Weighs the candidate's requirements against the provisions of one
/// overlapping intent.
fn weigh_requirements(
    candidate: &IntentNode,
    other: &IntentNode,
    mine: u64,
    theirs: u64,
    adjustments: &mut Vec<Adjustment>,
)
    requires
        mine == score_of(candidate@),
        theirs == score_of(other@),
    ensures
        views_of(final(adjustments)@) == views_of(old(adjustments)@) + pair_grid(
            candidate@.requires,
            other@.provides,
            adapt_rule(candidate@, other@),
        ),
{
    let ghost ps = candidate@.requires;
    let ghost qs = other@.provides;
    let ghost adapt = adapt_rule(candidate@, other@);
    let ghost adj0 = views_of(adjustments@);
    let mut i: usize = 0;
    proof {
        assert(views_of(adjustments@) =~= adj0 + pair_grid(ps.take(0), qs, adapt));
    }
    while i < candidate.requires.len()
        invariant
            i <= candidate.requires.len(),
            mine == score_of(candidate@),
            theirs == score_of(other@),
            ps == candidate@.requires,
            qs == other@.provides,
            adapt == adapt_rule(candidate@, other@),
            views_of(adjustments@) == adj0 + pair_grid(ps.take(i as int), qs, adapt),
        decreases candidate.requires.len() - i,
    {
        let p = &candidate.requires[i];
        let ghost adj1 = views_of(adjustments@);
        let mut j: usize = 0;
        proof {
            assert(ps[i as int] == p@);
            assert(views_of(adjustments@) =~= adj1 + pair_row(p@, qs.take(0), adapt));
        }
        while j < other.provides.len()
            invariant
                j <= other.provides.len(),
                mine == score_of(candidate@),
                theirs == score_of(other@),
                qs == other@.provides,
                adapt == adapt_rule(candidate@, other@),
                views_of(adjustments@) == adj1 + pair_row(p@, qs.take(j as int), adapt),
            decreases other.provides.len() - j,
        {
            let q = &other.provides[j];
            let ghost adj2 = views_of(adjustments@);
            proof {
                assert(qs[j as int] == q@);
                assert(qs.take(j + 1).drop_last() =~= qs.take(j as int));
                assert(qs.take(j + 1).last() == q@);
            }
            if p.structurally_overlaps(q) && !p.signature_compatible(q) {
                if theirs > mine {
                    let a = describe_adapt(p, q, other);
                    adjustments.push(a);
                    proof {
                        assert(views_of(adjustments@) =~= adj2.push(adapt_adjustment(p@, q@, other@)));
                    }
                }
            }
            proof {
                assert(views_of(adjustments@) =~= adj1 + pair_row(p@, qs.take(j + 1), adapt));
            }
            j += 1;
        }
        proof {
            assert(qs.take(other.provides.len() as int) =~= qs);
            assert(ps.take(i + 1).drop_last() =~= ps.take(i as int));
            assert(ps.take(i + 1).last() == p@);
            assert(views_of(adjustments@) =~= adj0 + pair_grid(ps.take(i + 1), qs, adapt));
        }
        i += 1;
    }
    proof {
        assert(ps.take(candidate.requires.len() as int) =~= ps);
    }
}

/// Whether one of the candidate's own constraints conflicts with `c`.
fn is_contradicted(candidate: &IntentNode, c: &Constraint) -> (r: bool)
    ensures
        r == contradicted(candidate@, c@),
{
    let mut k: usize = 0;
    while k < candidate.constraints.len()
        invariant
            k <= candidate.constraints.len(),
            forall|q: int| 0 <= q < k ==> !(#[trigger] candidate@.constraints[q]).conflicts_with(c@),
        decreases candidate.constraints.len() - k,
    {
        assert(candidate@.constraints[k as int] == candidate.constraints@[k as int]@);
        if candidate.constraints[k].conflicts_with(c) {
            return true;
        }
        k += 1;
    }
    false
}

/// Weighs a candidate against the intents that overlap it and the
/// constraints that apply to it. For each overlapping intent, in order:
/// each pair of overlapping provisions gives the advice to consume where
/// the other intent is strictly more stable and a conflict otherwise; each
/// requirement that overlaps a provision of an unsatisfying signature gives
/// the advice to adapt where the other intent is strictly more stable. Then
/// each applicable constraint is adopted, with an adjustment, unless one of
/// the candidate's own constraints contradicts it, which gives a conflict.
pub fn arbitrate(
    candidate: &IntentNode,
    others: &Vec<IntentNode>,
    applicable: &Vec<(Constraint, String, u64)>,
) -> (result: ResolutionResult)
    ensures
        result@ == arbitration(candidate@, views_of(others@), views_of(applicable@)),
{
    let scorer = StabilityScorer::new();
    let mine = scorer.compute(candidate);
    let mut adjustments: Vec<Adjustment> = Vec::new();
    let mut conflicts: Vec<ConflictReport> = Vec::new();
    let mut adopted: Vec<Constraint> = Vec::new();
    let ghost all = views_of(others@);
    let mut i: usize = 0;
    proof {
        assert(views_of(adjustments@) =~= overlap_adjustments(candidate@, all.take(0)));
        assert(views_of(conflicts@) =~= overlap_conflicts(candidate@, all.take(0)));
    }
    while i < others.len()
        invariant
            i <= others.len(),
            all == views_of(others@),
            mine == score_of(candidate@),
            scorer.weights() == crate::stability::StabilityWeights::standard(),
            views_of(adjustments@) == overlap_adjustments(candidate@, all.take(i as int)),
            views_of(conflicts@) == overlap_conflicts(candidate@, all.take(i as int)),
        decreases others.len() - i,
    {
        let other = &others[i];
        let theirs = scorer.compute(other);
        let ghost adj0 = views_of(adjustments@);
        weigh_provisions(candidate, other, mine, theirs, &mut adjustments, &mut conflicts);
        weigh_requirements(candidate, other, mine, theirs, &mut adjustments);
        proof {
            assert(all.take(i + 1).drop_last() =~= all.take(i as int));
            assert(all.take(i + 1).last() == other@);
            assert(views_of(adjustments@) =~= adj0 + record_adjustments(candidate@, other@));
        }
        i += 1;
    }
    proof {
        assert(all.take(others.len() as int) =~= all);
    }
    let ghost adj_overlap = views_of(adjustments@);
    let ghost con_overlap = views_of(conflicts@);
    let ghost apps = views_of(applicable@);
    let mut k: usize = 0;
    proof {
        assert(views_of(adjustments@) =~= adj_overlap + constraint_adjustments(
            candidate@,
            apps.take(0),
        ));
        assert(views_of(conflicts@) =~= con_overlap + constraint_conflicts(candidate@, apps.take(0)));
        assert(views_of(adopted@) =~= adopted_constraints(candidate@, apps.take(0)));
    }
    while k < applicable.len()
        invariant
            k <= applicable.len(),
            apps == views_of(applicable@),
            views_of(adjustments@) == adj_overlap + constraint_adjustments(
                candidate@,
                apps.take(k as int),
            ),
            views_of(conflicts@) == con_overlap + constraint_conflicts(
                candidate@,
                apps.take(k as int),
            ),
            views_of(adopted@) == adopted_constraints(candidate@, apps.take(k as int)),
        decreases applicable.len() - k,
    {
        let item = &applicable[k];
        let ghost adj1 = views_of(adjustments@);
        let ghost con1 = views_of(conflicts@);
        let ghost ado1 = views_of(adopted@);
        proof {
            assert(apps[k as int] == (item.0@, item.1@, item.2));
            assert(apps.take(k + 1).drop_last() =~= apps.take(k as int));
            assert(apps.take(k + 1).last() == apps[k as int]);
        }
        if is_contradicted(candidate, &item.0) {
            let mut d = String::new();
            d.append("Constraint conflict on '");
            d.append(item.0.target.as_str());
            d.append("': my requirement vs their requirement");
            let report = ConflictReport {
                my_intent_id: candidate.id.clone(),
                their_intent_id: item.1.clone(),
                description: d,
                their_stability: item.2,
                resolution_suggestion: "Higher stability constraint should win".to_owned(),
            };
            proof {
                assert(report@.description =~= constraint_conflict(
                    candidate@,
                    apps[k as int],
                ).description);
            }
            conflicts.push(report);
            proof {
                assert(views_of(conflicts@) =~= con1.push(
                    constraint_conflict(candidate@, apps[k as int]),
                ));
            }
        } else {
            adopted.push(item.0.clone());
            let mut d = String::new();
            d.append("Adopt constraint: ");
            d.append(item.0.target.as_str());
            d.append(" \u{2014} ");
            d.append(item.0.requirement.as_str());
            let adjustment = Adjustment {
                kind: AdjustmentKind::AdoptConstraint,
                description: d,
                source_intent_id: item.1.clone(),
            };
            proof {
                assert(adjustment@.description =~= adopt_adjustment(apps[k as int]).description);
            }
            adjustments.push(adjustment);
            proof {
                assert(views_of(adopted@) =~= ado1.push(item.0@));
                assert(views_of(adjustments@) =~= adj1.push(adopt_adjustment(apps[k as int])));
            }
        }
        proof {
            assert(views_of(adjustments@) =~= adj_overlap + constraint_adjustments(
                candidate@,
                apps.take(k + 1),
            ));
            assert(views_of(conflicts@) =~= con_overlap + constraint_conflicts(
                candidate@,
                apps.take(k + 1),
            ));
        }
        k += 1;
    }
    proof {
        assert(apps.take(applicable.len() as int) =~= apps);
    }
    ResolutionResult {
        original_intent: candidate.id.clone(),
        adjustments,
        conflicts,
        adopted_constraints: adopted,
    }
}

/// The constraints of the list that apply to the candidate, each with the
/// identifier and stability of the intent that imposes them.
pub open spec fn applying(
    constraints: Seq<ConstraintView>,
    source_id: Seq<char>,
    source_stability: u64,
    candidate: IntentNodeView,
) -> Seq<Applicable>
    decreases constraints.len(),
{
    if constraints.len() == 0 {
        Seq::empty()
    } else {
        let before = applying(constraints.drop_last(), source_id, source_stability, candidate);
        if constraints.last().applies_to(candidate) {
            before.push((constraints.last(), source_id, source_stability))
        } else {
            before
        }
    }
}

/// The constraints that apply to the candidate: those of the records of
/// other agents with a computed stability of at least `min` that concern
/// the candidate by its tags; record by record, in each record's order.
pub open spec fn applicable_constraints(
    records: Seq<IntentNodeView>,
    candidate: IntentNodeView,
    min: u64,
) -> Seq<Applicable>
    decreases records.len(),
{
    if records.len() == 0 {
        Seq::empty()
    } else {
        let before = applicable_constraints(records.drop_last(), candidate, min);
        let source = records.last();
        if source.agent_id != candidate.agent_id && score_of(source) >= min {
            before + applying(source.constraints, source.id, score_of(source), candidate)
        } else {
            before
        }
    }
}

/// What resolving a candidate against the records gives: the arbitration
/// over the records that overlap the candidate's interfaces and the
/// constraints that apply to it.
pub open spec fn resolution(records: Seq<IntentNodeView>, candidate: IntentNodeView, min: u64) -> ResolutionResultView {
    arbitration(
        candidate,
        records.filter(overlapping(all_specs(candidate), candidate.agent_id, min)),
        applicable_constraints(records, candidate, min),
    )
}

impl IntentGraph {
    /// The constraints of other agents' intents that apply to the given
    /// intent, each with the identifier of its source and the stability
    /// computed for the source.
    pub fn find_applicable_constraints(&self, intent: &IntentNode, min_stability: u64) -> (out: Vec<
        (Constraint, String, u64),
    >)
        requires
            self.wf(),
        ensures
            views_of(out@) == applicable_constraints(self@.records, intent@, min_stability),
    {
        let ghost nodes = self@.records;
        let mut out: Vec<(Constraint, String, u64)> = Vec::new();
        let mut i: usize = 0;
        proof {
            assert(views_of(out@) =~= applicable_constraints(nodes.take(0), intent@, min_stability));
        }
        while i < self.records.len()
            invariant
                self.wf(),
                i <= self.records.len(),
                nodes == self@.records,
                views_of(out@) == applicable_constraints(
                    nodes.take(i as int),
                    intent@,
                    min_stability,
                ),
            decreases self.records.len() - i,
        {
            let stored = &self.records[i];
            let other = &stored.node;
            proof {
                self.lemma_layout();
                assert(nodes.take(i + 1).drop_last() =~= nodes.take(i as int));
                assert(nodes.take(i + 1).last() == other@);
            }
            if stored.computed_stability >= min_stability && other.agent_id != intent.agent_id {
                let stability = self.scorer.compute(other);
                let ghost out0 = views_of(out@);
                let ghost cs = other@.constraints;
                let mut k: usize = 0;
                proof {
                    assert(views_of(out@) =~= out0 + applying(
                        cs.take(0),
                        other@.id,
                        stability,
                        intent@,
                    ));
                }
                while k < other.constraints.len()
                    invariant
                        k <= other.constraints.len(),
                        cs == other@.constraints,
                        views_of(out@) == out0 + applying(
                            cs.take(k as int),
                            other@.id,
                            stability,
                            intent@,
                        ),
                    decreases other.constraints.len() - k,
                {
                    let c = &other.constraints[k];
                    let ghost out1 = views_of(out@);
                    proof {
                        assert(cs[k as int] == c@);
                        assert(cs.take(k + 1).drop_last() =~= cs.take(k as int));
                        assert(cs.take(k + 1).last() == c@);
                    }
                    if c.applies_to(intent) {
                        out.push((c.clone(), other.id.clone(), stability));
                        proof {
                            assert(views_of(out@) =~= out1.push((c@, other@.id, stability)));
                        }
                    }
                    proof {
                        assert(views_of(out@) =~= out0 + applying(
                            cs.take(k + 1),
                            other@.id,
                            stability,
                            intent@,
                        ));
                    }
                    k += 1;
                }
                proof {
                    assert(cs.take(other.constraints.len() as int) =~= cs);
                }
            }
            i += 1;
        }
        proof {
            self.lemma_layout();
            assert(nodes.take(self.records.len() as int) =~= nodes);
        }
        out
    }

    /// Resolves an intent against the graph: finds the intents of other
    /// agents that overlap its interfaces and the constraints that apply to
    /// it, and weighs the intent against them.
    pub fn resolve(&self, intent: &IntentNode, min_stability: u64) -> (result: ResolutionResult)
        requires
            self.wf(),
        ensures
            result@ == resolution(self@.records, intent@, min_stability),
    {
        let mut my_specs: Vec<InterfaceSpec> = Vec::new();
        let mut i: usize = 0;
        while i < intent.provides.len()
            invariant
                i <= intent.provides.len(),
                views_of(my_specs@) == intent@.provides.take(i as int),
            decreases intent.provides.len() - i,
        {
            let ghost before = views_of(my_specs@);
            my_specs.push(intent.provides[i].clone());
            proof {
                assert(views_of(my_specs@) =~= before.push(intent@.provides[i as int]));
                assert(intent@.provides.take(i + 1) =~= intent@.provides.take(i as int).push(
                    intent@.provides[i as int],
                ));
            }
            i += 1;
        }
        let mut j: usize = 0;
        proof {
            assert(intent@.provides.take(intent.provides.len() as int) =~= intent@.provides);
            assert(views_of(my_specs@) =~= intent@.provides + intent@.requires.take(0));
        }
        while j < intent.requires.len()
            invariant
                j <= intent.requires.len(),
                views_of(my_specs@) == intent@.provides + intent@.requires.take(j as int),
            decreases intent.requires.len() - j,
        {
            let ghost before = views_of(my_specs@);
            my_specs.push(intent.requires[j].clone());
            proof {
                assert(views_of(my_specs@) =~= before.push(intent@.requires[j as int]));
                assert(intent@.requires.take(j + 1) =~= intent@.requires.take(j as int).push(
                    intent@.requires[j as int],
                ));
                assert(views_of(my_specs@) =~= intent@.provides + intent@.requires.take(j + 1));
            }
            j += 1;
        }
        proof {
            assert(intent@.requires.take(intent.requires.len() as int) =~= intent@.requires);
            assert(views_of(my_specs@) == all_specs(intent@));
        }
        let others = self.find_overlapping(
            my_specs.as_slice(),
            intent.agent_id.as_str(),
            min_stability,
        );
        let applicable = self.find_applicable_constraints(intent, min_stability);
        arbitrate(intent, &others, &applicable)
    }
}

} // verus!
