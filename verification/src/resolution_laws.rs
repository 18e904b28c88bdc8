//! Laws of the resolution: what is advised and what is adopted.

use crate::graph::score_of;
use crate::models::{AdjustmentKind, AdjustmentView, ConstraintView, IntentNodeView, InterfaceSpecView};
use crate::overlap::{all_specs, overlapping, overlaps_any};
use crate::resolve::{
    adopted_constraints, applicable_constraints, applying, arbitration, consume_adjustment,
    consume_rule, contradicted, overlap_adjustments, pair_grid, pair_row, record_adjustments,
    resolution, Applicable,
};
use vstd::prelude::*;

verus! {

/// What a rule yields for a pair is part of what it yields for the grid.
pub proof fn lemma_pair_grid_contains<T>(
    ps: Seq<InterfaceSpecView>,
    qs: Seq<InterfaceSpecView>,
    rule: spec_fn(InterfaceSpecView, InterfaceSpecView) -> Seq<T>,
    i: int,
    j: int,
    x: T,
)
    requires
        0 <= i < ps.len(),
        0 <= j < qs.len(),
        rule(ps[i], qs[j]).contains(x),
    ensures
        pair_grid(ps, qs, rule).contains(x),
    decreases ps.len(),
{
    if i == ps.len() - 1 {
        lemma_pair_row_contains(ps[i], qs, rule, j, x);
        let row = pair_row(ps.last(), qs, rule);
        let w = choose|w: int| 0 <= w < row.len() && row[w] == x;
        let before = pair_grid(ps.drop_last(), qs, rule);
        assert((before + row)[before.len() + w] == x);
    } else {
        assert(ps.drop_last()[i] == ps[i]);
        lemma_pair_grid_contains(ps.drop_last(), qs, rule, i, j, x);
        let before = pair_grid(ps.drop_last(), qs, rule);
        let w = choose|w: int| 0 <= w < before.len() && before[w] == x;
        assert((before + pair_row(ps.last(), qs, rule))[w] == x);
    }
}

/// What a rule yields for a pair is part of what it yields for the row.
proof fn lemma_pair_row_contains<T>(
    p: InterfaceSpecView,
    qs: Seq<InterfaceSpecView>,
    rule: spec_fn(InterfaceSpecView, InterfaceSpecView) -> Seq<T>,
    j: int,
    x: T,
)
    requires
        0 <= j < qs.len(),
        rule(p, qs[j]).contains(x),
    ensures
        pair_row(p, qs, rule).contains(x),
    decreases qs.len(),
{
    let before = pair_row(p, qs.drop_last(), rule);
    if j == qs.len() - 1 {
        let last = rule(p, qs.last());
        let w = choose|w: int| 0 <= w < last.len() && last[w] == x;
        assert((before + last)[before.len() + w] == x);
    } else {
        assert(qs.drop_last()[j] == qs[j]);
        lemma_pair_row_contains(p, qs.drop_last(), rule, j, x);
        let w = choose|w: int| 0 <= w < before.len() && before[w] == x;
        assert((before + rule(p, qs.last()))[w] == x);
    }
}

/// What a rule yields for the first pair stands first in what it yields
/// for the grid.
pub proof fn lemma_pair_grid_first<T>(
    ps: Seq<InterfaceSpecView>,
    qs: Seq<InterfaceSpecView>,
    rule: spec_fn(InterfaceSpecView, InterfaceSpecView) -> Seq<T>,
)
    requires
        ps.len() > 0,
        qs.len() > 0,
        rule(ps[0], qs[0]).len() > 0,
    ensures
        pair_grid(ps, qs, rule).len() > 0,
        pair_grid(ps, qs, rule)[0] == rule(ps[0], qs[0])[0],
    decreases ps.len(),
{
    if ps.len() == 1 {
        lemma_pair_row_first(ps[0], qs, rule);
        assert(pair_grid(ps.drop_last(), qs, rule) =~= Seq::empty());
    } else {
        assert(ps.drop_last()[0] == ps[0]);
        lemma_pair_grid_first(ps.drop_last(), qs, rule);
    }
}

/// What a rule yields for the first pair of a row stands first in the row.
proof fn lemma_pair_row_first<T>(
    p: InterfaceSpecView,
    qs: Seq<InterfaceSpecView>,
    rule: spec_fn(InterfaceSpecView, InterfaceSpecView) -> Seq<T>,
)
    requires
        qs.len() > 0,
        rule(p, qs[0]).len() > 0,
    ensures
        pair_row(p, qs, rule).len() > 0,
        pair_row(p, qs, rule)[0] == rule(p, qs[0])[0],
    decreases qs.len(),
{
    if qs.len() == 1 {
        assert(pair_row(p, qs.drop_last(), rule) =~= Seq::empty());
    } else {
        assert(qs.drop_last()[0] == qs[0]);
        lemma_pair_row_first(p, qs.drop_last(), rule);
    }
}

/// What one overlapping intent prompts is among what all prompt.
proof fn lemma_overlap_adjustments_contain(
    candidate: IntentNodeView,
    others: Seq<IntentNodeView>,
    k: int,
    x: AdjustmentView,
)
    requires
        0 <= k < others.len(),
        record_adjustments(candidate, others[k]).contains(x),
    ensures
        overlap_adjustments(candidate, others).contains(x),
    decreases others.len(),
{
    let before = overlap_adjustments(candidate, others.drop_last());
    let last = record_adjustments(candidate, others.last());
    if k == others.len() - 1 {
        let w = choose|w: int| 0 <= w < last.len() && last[w] == x;
        assert((before + last)[before.len() + w] == x);
    } else {
        assert(others.drop_last()[k] == others[k]);
        lemma_overlap_adjustments_contain(candidate, others.drop_last(), k, x);
        let w = choose|w: int| 0 <= w < before.len() && before[w] == x;
        assert((before + last)[w] == x);
    }
}

/// What the first overlapping intent prompts first stands first of all.
proof fn lemma_overlap_adjustments_first(candidate: IntentNodeView, others: Seq<IntentNodeView>)
    requires
        others.len() > 0,
        record_adjustments(candidate, others[0]).len() > 0,
    ensures
        overlap_adjustments(candidate, others).len() > 0,
        overlap_adjustments(candidate, others)[0] == record_adjustments(candidate, others[0])[0],
    decreases others.len(),
{
    if others.len() == 1 {
        assert(overlap_adjustments(candidate, others.drop_last()) =~= Seq::empty());
    } else {
        assert(others.drop_last()[0] == others[0]);
        lemma_overlap_adjustments_first(candidate, others.drop_last());
    }
}

/// A candidate that provides an interface which overlaps a provision of a
/// strictly more stable intent is advised to consume that provision: the
/// advice is among the adjustments, is of the kind `ConsumeInstead`, and
/// names the other intent as its source. Where the pair is the first
/// provision of the candidate against the first provision of the first
/// overlapping intent, the advice is the first adjustment.
pub proof fn lemma_more_stable_provision_is_consumed(
    candidate: IntentNodeView,
    others: Seq<IntentNodeView>,
    applicable: Seq<Applicable>,
    k: int,
    i: int,
    j: int,
)
    requires
        0 <= k < others.len(),
        0 <= i < candidate.provides.len(),
        0 <= j < others[k].provides.len(),
        candidate.provides[i].overlaps(others[k].provides[j]),
        score_of(others[k]) > score_of(candidate),
    ensures
        arbitration(candidate, others, applicable).adjustments.contains(
            consume_adjustment(candidate.provides[i], others[k].provides[j], others[k]),
        ),
        consume_adjustment(candidate.provides[i], others[k].provides[j], others[k]).kind
            == AdjustmentKind::ConsumeInstead,
        consume_adjustment(
            candidate.provides[i],
            others[k].provides[j],
            others[k],
        ).source_intent_id == others[k].id,
        k == 0 && i == 0 && j == 0 ==> arbitration(candidate, others, applicable).adjustments[0]
            == consume_adjustment(candidate.provides[0], others[0].provides[0], others[0]),
{
    let other = others[k];
    let advice = consume_adjustment(candidate.provides[i], other.provides[j], other);
    let rule = consume_rule(candidate, other);
    assert(rule(candidate.provides[i], other.provides[j]) == seq![advice]);
    assert(seq![advice][0] == advice);
    lemma_pair_grid_contains(candidate.provides, other.provides, rule, i, j, advice);
    let consumed = pair_grid(candidate.provides, other.provides, rule);
    let w = choose|w: int| 0 <= w < consumed.len() && consumed[w] == advice;
    assert(record_adjustments(candidate, other)[w] == advice);
    lemma_overlap_adjustments_contain(candidate, others, k, advice);
    let from_overlap = overlap_adjustments(candidate, others);
    let v = choose|v: int| 0 <= v < from_overlap.len() && from_overlap[v] == advice;
    assert(arbitration(candidate, others, applicable).adjustments[v] == advice);
    if k == 0 && i == 0 && j == 0 {
        lemma_pair_grid_first(candidate.provides, other.provides, rule);
        assert(record_adjustments(candidate, other)[0] == advice);
        lemma_overlap_adjustments_first(candidate, others);
        assert(arbitration(candidate, others, applicable).adjustments[0] == advice);
    }
}

/// A constraint that concerns the candidate is among those applying.
proof fn lemma_applying_contains(
    constraints: Seq<ConstraintView>,
    source_id: Seq<char>,
    source_stability: u64,
    candidate: IntentNodeView,
    k: int,
)
    requires
        0 <= k < constraints.len(),
        constraints[k].applies_to(candidate),
    ensures
        applying(constraints, source_id, source_stability, candidate).contains(
            (constraints[k], source_id, source_stability),
        ),
    decreases constraints.len(),
{
    let before = applying(constraints.drop_last(), source_id, source_stability, candidate);
    let all = applying(constraints, source_id, source_stability, candidate);
    if k == constraints.len() - 1 {
        assert(all[all.len() - 1] == (constraints[k], source_id, source_stability));
    } else {
        assert(constraints.drop_last()[k] == constraints[k]);
        lemma_applying_contains(constraints.drop_last(), source_id, source_stability, candidate, k);
        let w = choose|w: int|
            0 <= w < before.len() && before[w] == (constraints[k], source_id, source_stability);
        assert(all[w] == before[w]);
    }
}

/// A constraint of a qualifying record that concerns the candidate is
/// among the applicable ones.
proof fn lemma_applicable_contains(
    records: Seq<IntentNodeView>,
    candidate: IntentNodeView,
    min: u64,
    i: int,
    k: int,
)
    requires
        0 <= i < records.len(),
        records[i].agent_id != candidate.agent_id,
        score_of(records[i]) >= min,
        0 <= k < records[i].constraints.len(),
        records[i].constraints[k].applies_to(candidate),
    ensures
        applicable_constraints(records, candidate, min).contains(
            (records[i].constraints[k], records[i].id, score_of(records[i])),
        ),
    decreases records.len(),
{
    let item = (records[i].constraints[k], records[i].id, score_of(records[i]));
    let before = applicable_constraints(records.drop_last(), candidate, min);
    let all = applicable_constraints(records, candidate, min);
    if i == records.len() - 1 {
        let source = records.last();
        let mine = applying(source.constraints, source.id, score_of(source), candidate);
        lemma_applying_contains(source.constraints, source.id, score_of(source), candidate, k);
        let w = choose|w: int| 0 <= w < mine.len() && mine[w] == item;
        assert(all[before.len() + w] == item);
    } else {
        assert(records.drop_last()[i] == records[i]);
        lemma_applicable_contains(records.drop_last(), candidate, min, i, k);
        let w = choose|w: int| 0 <= w < before.len() && before[w] == item;
        assert(all[w] == item);
    }
}

/// An applicable constraint that is not contradicted is adopted.
proof fn lemma_adopted_contains(candidate: IntentNodeView, applicable: Seq<Applicable>, w: int)
    requires
        0 <= w < applicable.len(),
        !contradicted(candidate, applicable[w].0),
    ensures
        adopted_constraints(candidate, applicable).contains(applicable[w].0),
    decreases applicable.len(),
{
    let before = adopted_constraints(candidate, applicable.drop_last());
    let all = adopted_constraints(candidate, applicable);
    if w == applicable.len() - 1 {
        assert(all[all.len() - 1] == applicable[w].0);
    } else {
        assert(applicable.drop_last()[w] == applicable[w]);
        lemma_adopted_contains(candidate, applicable.drop_last(), w);
        let v = choose|v: int| 0 <= v < before.len() && before[v] == applicable[w].0;
        assert(all[v] == before[v]);
    }
}

/// A constraint of another agent's sufficiently stable intent that concerns
/// the candidate by its tags, and that none of the candidate's own
/// constraints contradicts, is adopted: the resolution lists it among the
/// adopted constraints, which are then not empty.
pub proof fn lemma_uncontradicted_constraint_is_adopted(
    records: Seq<IntentNodeView>,
    candidate: IntentNodeView,
    min: u64,
    i: int,
    k: int,
)
    requires
        0 <= i < records.len(),
        records[i].agent_id != candidate.agent_id,
        score_of(records[i]) >= min,
        0 <= k < records[i].constraints.len(),
        records[i].constraints[k].applies_to(candidate),
        !contradicted(candidate, records[i].constraints[k]),
    ensures
        resolution(records, candidate, min).adopted_constraints.contains(
            records[i].constraints[k],
        ),
        resolution(records, candidate, min).adopted_constraints.len() > 0,
{
    lemma_applicable_contains(records, candidate, min, i, k);
    let applicable = applicable_constraints(records, candidate, min);
    let item = (records[i].constraints[k], records[i].id, score_of(records[i]));
    let w = choose|w: int| 0 <= w < applicable.len() && applicable[w] == item;
    lemma_adopted_contains(candidate, applicable, w);
}

/// Resolving against a graph advises to consume wherever a record of
/// another agent, of sufficient and strictly higher stability than the
/// candidate, provides an interface that overlaps one that the candidate
/// provides.
pub proof fn lemma_resolution_advises_consuming(
    records: Seq<IntentNodeView>,
    candidate: IntentNodeView,
    min: u64,
    r: int,
    i: int,
    j: int,
)
    requires
        0 <= r < records.len(),
        records[r].agent_id != candidate.agent_id,
        score_of(records[r]) >= min,
        score_of(records[r]) > score_of(candidate),
        0 <= i < candidate.provides.len(),
        0 <= j < records[r].provides.len(),
        candidate.provides[i].overlaps(records[r].provides[j]),
    ensures
        resolution(records, candidate, min).adjustments.contains(
            consume_adjustment(candidate.provides[i], records[r].provides[j], records[r]),
        ),
{
    let pred = overlapping(all_specs(candidate), candidate.agent_id, min);
    assert(all_specs(candidate)[i] == candidate.provides[i]);
    assert(all_specs(records[r])[j] == records[r].provides[j]);
    assert(overlaps_any(all_specs(candidate), records[r]));
    assert(pred(records[r]));
    records.lemma_filter_contains(pred, r);
    let others = records.filter(pred);
    let k = choose|k: int| 0 <= k < others.len() && others[k] == records[r];
    lemma_more_stable_provision_is_consumed(
        candidate,
        others,
        applicable_constraints(records, candidate, min),
        k,
        i,
        j,
    );
}

} // verus!
