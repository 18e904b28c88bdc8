//! The entities of the intent graph: intents, the interfaces they provide
//! and require, constraints, evidence, and the outcome of a resolution.
//!
//! Stability values are fixed-point numbers in millionths: `STABILITY_ONE`
//! stands for 1.0.

use crate::matching::{
    compatible_signatures, names_overlap, names_overlapping, normalize_constraint_target,
    normalized_target, signatures_compatible,
};
use crate::providers::{current_time, fresh_identifier, is_random_id_text};
use crate::text::views_of;
use vstd::prelude::*;

verus! {

/// The stability value 1.0.
pub const STABILITY_ONE: u64 = 1_000_000;

/// The stability that an intent declares unless told otherwise: 0.3.
pub const DEFAULT_STABILITY: u64 = 300_000;

/// A point in time: whole seconds since the Unix epoch, and the nanoseconds
/// past that second. Points in time are ordered by seconds, then nanoseconds.
#[derive(Debug, Clone, Copy, PartialEq, Eq, Structural)]
pub struct Timestamp {
    pub seconds: i64,
    pub nanos: u32,
}

impl Timestamp {
    /// `self` lies before `other`, or is the same point in time.
    pub open spec fn at_or_before(self, other: Timestamp) -> bool {
        self.seconds < other.seconds || (self.seconds == other.seconds && self.nanos
            <= other.nanos)
    }

    /// `self` lies strictly after `other`.
    pub open spec fn after(self, other: Timestamp) -> bool {
        !self.at_or_before(other)
    }

    /// Whether `self` lies before `other` or is the same point in time.
    pub fn is_at_or_before(&self, other: &Timestamp) -> (r: bool)
        ensures
            r == self.at_or_before(*other),
    {
        self.seconds < other.seconds || (self.seconds == other.seconds && self.nanos
            <= other.nanos)
    }
}

/// The kind of an interface.
#[derive(Debug, Clone, Copy, PartialEq, Eq, Structural)]
pub enum InterfaceKind {
    Function,
    Class,
    Model,
    Endpoint,
    Migration,
    Config,
}

/// How binding a constraint is.
#[derive(Debug, Clone, Copy, PartialEq, Eq, Structural)]
pub enum ConstraintSeverity {
    /// Others should consider it but may ignore it.
    Preferred,
    /// Violating it breaks integration.
    Required,
    /// Violating it loses data or breaks security.
    Critical,
}

/// The kind of a signal about an intent's commitment.
#[derive(Debug, Clone, Copy, PartialEq, Eq, Structural)]
pub enum EvidenceKind {
    TestPass,
    TestFail,
    CodeCommitted,
    ConsumedByOther,
    Conflict,
    ManualApproval,
}

/// The kind of a recommended action.
#[derive(Debug, Clone, Copy, PartialEq, Eq, Structural)]
pub enum AdjustmentKind {
    /// Drop a provision and consume another agent's instead.
    ConsumeInstead,
    /// Adopt a constraint from another agent.
    AdoptConstraint,
    /// Yield to a conflicting decision of higher stability.
    YieldTo,
    /// Change an interface signature for compatibility.
    AdaptSignature,
}

/// Copies a list of texts.
pub fn copy_texts(v: &Vec<String>) -> (r: Vec<String>)
    ensures
        views_of(r@) == views_of(v@),
{
    let mut r: Vec<String> = Vec::new();
    let mut i: usize = 0;
    while i < v.len()
        invariant
            i <= v.len(),
            views_of(r@) == views_of(v@).take(i as int),
        decreases v.len() - i,
    {
        let ghost before = views_of(r@);
        let s = v[i].clone();
        r.push(s);
        proof {
            assert(views_of(r@) =~= before.push(v@[i as int]@));
            assert(views_of(v@).take(i + 1) =~= views_of(v@).take(i as int).push(v@[i as int]@));
        }
        i += 1;
    }
    proof {
        assert(views_of(v@).take(v.len() as int) =~= views_of(v@));
    }
    r
}

/// Copies a list of borrowed texts into owned ones.
fn own_texts(v: &Vec<&str>) -> (r: Vec<String>)
    ensures
        views_of(r@) == views_of(v@),
{
    let mut r: Vec<String> = Vec::new();
    let mut i: usize = 0;
    while i < v.len()
        invariant
            i <= v.len(),
            views_of(r@) == views_of(v@).take(i as int),
        decreases v.len() - i,
    {
        let ghost before = views_of(r@);
        let s = v[i].to_owned();
        r.push(s);
        proof {
            assert(views_of(r@) =~= before.push(v@[i as int]@));
            assert(views_of(v@).take(i + 1) =~= views_of(v@).take(i as int).push(v@[i as int]@));
        }
        i += 1;
    }
    proof {
        assert(views_of(v@).take(v.len() as int) =~= views_of(v@));
    }
    r
}

/// Whether the list holds the text.
pub fn has_text(list: &Vec<String>, t: &String) -> (r: bool)
    ensures
        r == views_of(list@).contains(t@),
{
    let mut i: usize = 0;
    while i < list.len()
        invariant
            i <= list.len(),
            forall|k: int| 0 <= k < i ==> views_of(list@)[k] != t@,
        decreases list.len() - i,
    {
        if list[i] == *t {
            assert(views_of(list@)[i as int] == t@);
            return true;
        }
        i += 1;
    }
    false
}

/// A typed interface that an agent provides or requires.
#[derive(Debug, PartialEq)]
pub struct InterfaceSpec {
    pub name: String,
    pub kind: InterfaceKind,
    /// The signature as text: `field: type, field: type`.
    pub signature: String,
    /// Where the interface lives; empty when not given.
    pub module: String,
    pub tags: Vec<String>,
}

/// An interface as a value: its texts as sequences of characters.
pub struct InterfaceSpecView {
    pub name: Seq<char>,
    pub kind: InterfaceKind,
    pub signature: Seq<char>,
    pub module: Seq<char>,
    pub tags: Seq<Seq<char>>,
}

impl View for InterfaceSpec {
    type V = InterfaceSpecView;

    open spec fn view(&self) -> InterfaceSpecView {
        InterfaceSpecView {
            name: self.name@,
            kind: self.kind,
            signature: self.signature@,
            module: self.module@,
            tags: views_of(self.tags@),
        }
    }
}

impl Clone for InterfaceSpec {
    fn clone(&self) -> (r: Self)
        ensures
            r@ == self@,
    {
        InterfaceSpec {
            name: self.name.clone(),
            kind: self.kind,
            signature: self.signature.clone(),
            module: self.module.clone(),
            tags: copy_texts(&self.tags),
        }
    }
}

/// How many of `mine` occur among `theirs`, counting repetitions in `mine`.
pub open spec fn shared_tag_count(mine: Seq<Seq<char>>, theirs: Seq<Seq<char>>) -> nat
    decreases mine.len(),
{
    if mine.len() == 0 {
        0
    } else {
        shared_tag_count(mine.drop_last(), theirs) + if theirs.contains(mine.last()) {
            1nat
        } else {
            0nat
        }
    }
}

impl InterfaceSpecView {
    /// Two interfaces are the same concept: their names overlap, or at
    /// least two tags of `self` occur among those of `other`.
    pub open spec fn overlaps(self, other: InterfaceSpecView) -> bool {
        names_overlapping(self.name, other.name) || shared_tag_count(self.tags, other.tags) >= 2
    }

    /// The signature of `other` satisfies what the signature of `self`
    /// declares.
    pub open spec fn satisfied_by(self, other: InterfaceSpecView) -> bool {
        compatible_signatures(self.signature, other.signature)
    }
}

impl InterfaceSpec {
    /// An interface of the given name, kind and signature, without module
    /// and tags.
    pub fn new(name: &str, kind: InterfaceKind, signature: &str) -> (r: Self)
        ensures
            r@ == (InterfaceSpecView {
                name: name@,
                kind,
                signature: signature@,
                module: Seq::empty(),
                tags: Seq::empty(),
            }),
    {
        let r = InterfaceSpec {
            name: name.to_owned(),
            kind,
            signature: signature.to_owned(),
            module: String::new(),
            tags: Vec::new(),
        };
        proof {
            assert(views_of(r.tags@) =~= Seq::<Seq<char>>::empty());
        }
        r
    }

    /// The same interface, living at the given path.
    pub fn with_module(self, path: &str) -> (r: Self)
        ensures
            r@ == (InterfaceSpecView { module: path@, ..self@ }),
    {
        let mut r = self;
        r.module = path.to_owned();
        r
    }

    /// The same interface, with the given tags in place of its own.
    pub fn with_tags(self, tags: Vec<&str>) -> (r: Self)
        ensures
            r@ == (InterfaceSpecView { tags: views_of(tags@), ..self@ }),
    {
        let mut r = self;
        r.tags = own_texts(&tags);
        r
    }

    /// Structural overlap: the names overlap, or at least two tags are
    /// shared.
    pub fn structurally_overlaps(&self, other: &InterfaceSpec) -> (r: bool)
        ensures
            r == self@.overlaps(other@),
    {
        if names_overlap(self.name.as_str(), other.name.as_str()) {
            return true;
        }
        let mut shared: usize = 0;
        let mut i: usize = 0;
        while i < self.tags.len()
            invariant
                i <= self.tags.len(),
                shared == shared_tag_count(views_of(self.tags@).take(i as int), other@.tags),
                shared <= i,
            decreases self.tags.len() - i,
        {
            proof {
                let mine = views_of(self.tags@);
                assert(mine.take(i + 1).drop_last() =~= mine.take(i as int));
                assert(mine.take(i + 1).last() == self.tags@[i as int]@);
            }
            if has_text(&other.tags, &self.tags[i]) {
                shared += 1;
            }
            i += 1;
        }
        proof {
            assert(views_of(self.tags@).take(self.tags.len() as int) =~= views_of(self.tags@));
        }
        shared >= 2
    }

    /// Signature compatibility: `other` offers every field that `self`
    /// declares, with a type of the same normal form.
    pub fn signature_compatible(&self, other: &InterfaceSpec) -> (r: bool)
        ensures
            r == self@.satisfied_by(other@),
    {
        signatures_compatible(self.signature.as_str(), other.signature.as_str())
    }
}

/// Copies a list of interfaces.
pub fn copy_specs(v: &Vec<InterfaceSpec>) -> (r: Vec<InterfaceSpec>)
    ensures
        views_of(r@) == views_of(v@),
{
    let mut r: Vec<InterfaceSpec> = Vec::new();
    let mut i: usize = 0;
    while i < v.len()
        invariant
            i <= v.len(),
            views_of(r@) == views_of(v@).take(i as int),
        decreases v.len() - i,
    {
        let ghost before = views_of(r@);
        let s = v[i].clone();
        r.push(s);
        proof {
            assert(views_of(r@) =~= before.push(v@[i as int]@));
            assert(views_of(v@).take(i + 1) =~= views_of(v@).take(i as int).push(v@[i as int]@));
        }
        i += 1;
    }
    proof {
        assert(views_of(v@).take(v.len() as int) =~= views_of(v@));
    }
    r
}

/// An obligation that one decision imposes on others.
#[derive(Debug)]
pub struct Constraint {
    /// What the constraint is about.
    pub target: String,
    /// What it demands.
    pub requirement: String,
    pub severity: ConstraintSeverity,
    /// The tags of the interfaces that it concerns.
    pub affects_tags: Vec<String>,
}

/// A constraint as a value.
pub struct ConstraintView {
    pub target: Seq<char>,
    pub requirement: Seq<char>,
    pub severity: ConstraintSeverity,
    pub affects_tags: Seq<Seq<char>>,
}

impl View for Constraint {
    type V = ConstraintView;

    open spec fn view(&self) -> ConstraintView {
        ConstraintView {
            target: self.target@,
            requirement: self.requirement@,
            severity: self.severity,
            affects_tags: views_of(self.affects_tags@),
        }
    }
}

impl Clone for Constraint {
    fn clone(&self) -> (r: Self)
        ensures
            r@ == self@,
    {
        Constraint {
            target: self.target.clone(),
            requirement: self.requirement.clone(),
            severity: self.severity,
            affects_tags: copy_texts(&self.affects_tags),
        }
    }
}

/// Copies a list of constraints.
pub fn copy_constraints(v: &Vec<Constraint>) -> (r: Vec<Constraint>)
    ensures
        views_of(r@) == views_of(v@),
{
    let mut r: Vec<Constraint> = Vec::new();
    let mut i: usize = 0;
    while i < v.len()
        invariant
            i <= v.len(),
            views_of(r@) == views_of(v@).take(i as int),
        decreases v.len() - i,
    {
        let ghost before = views_of(r@);
        let c = v[i].clone();
        r.push(c);
        proof {
            assert(views_of(r@) =~= before.push(v@[i as int]@));
            assert(views_of(v@).take(i + 1) =~= views_of(v@).take(i as int).push(v@[i as int]@));
        }
        i += 1;
    }
    proof {
        assert(views_of(v@).take(v.len() as int) =~= views_of(v@));
    }
    r
}

/// A timestamped signal about an intent's commitment.
#[derive(Debug)]
pub struct Evidence {
    pub kind: EvidenceKind,
    pub description: String,
    pub timestamp: Timestamp,
}

/// A piece of evidence as a value.
pub struct EvidenceView {
    pub kind: EvidenceKind,
    pub description: Seq<char>,
    pub timestamp: Timestamp,
}

impl View for Evidence {
    type V = EvidenceView;

    open spec fn view(&self) -> EvidenceView {
        EvidenceView {
            kind: self.kind,
            description: self.description@,
            timestamp: self.timestamp,
        }
    }
}

impl Clone for Evidence {
    fn clone(&self) -> (r: Self)
        ensures
            r@ == self@,
    {
        Evidence {
            kind: self.kind,
            description: self.description.clone(),
            timestamp: self.timestamp,
        }
    }
}

/// Copies a list of evidence.
pub fn copy_evidence(v: &Vec<Evidence>) -> (r: Vec<Evidence>)
    ensures
        views_of(r@) == views_of(v@),
{
    let mut r: Vec<Evidence> = Vec::new();
    let mut i: usize = 0;
    while i < v.len()
        invariant
            i <= v.len(),
            views_of(r@) == views_of(v@).take(i as int),
        decreases v.len() - i,
    {
        let ghost before = views_of(r@);
        let e = v[i].clone();
        r.push(e);
        proof {
            assert(views_of(r@) =~= before.push(v@[i as int]@));
            assert(views_of(v@).take(i + 1) =~= views_of(v@).take(i as int).push(v@[i as int]@));
        }
        i += 1;
    }
    proof {
        assert(views_of(v@).take(v.len() as int) =~= views_of(v@));
    }
    r
}

impl Evidence {
    /// A signal of the given kind, stamped with the current time.
    pub fn of_kind(kind: EvidenceKind, description: &str) -> (r: Self)
        ensures
            r.kind == kind,
            r.description@ == description@,
            r.timestamp.seconds >= 0,
            r.timestamp.nanos < 1_000_000_000,
    {
        Evidence { kind, description: description.to_owned(), timestamp: current_time() }
    }

    /// A test passed.
    pub fn test_pass(description: &str) -> (r: Self)
        ensures
            r.kind == EvidenceKind::TestPass,
            r.description@ == description@,
    {
        Evidence::of_kind(EvidenceKind::TestPass, description)
    }

    /// Code was committed.
    pub fn code_committed(description: &str) -> (r: Self)
        ensures
            r.kind == EvidenceKind::CodeCommitted,
            r.description@ == description@,
    {
        Evidence::of_kind(EvidenceKind::CodeCommitted, description)
    }

    /// Another agent consumes the intent.
    pub fn consumed_by(agent_id: &str) -> (r: Self)
        ensures
            r.kind == EvidenceKind::ConsumedByOther,
            r.description@ == "Consumed by agent "@ + agent_id@,
    {
        let mut description = "Consumed by agent ".to_owned();
        description.append(agent_id);
        Evidence {
            kind: EvidenceKind::ConsumedByOther,
            description,
            timestamp: current_time(),
        }
    }

    /// The intent clashed with another.
    pub fn conflict(description: &str) -> (r: Self)
        ensures
            r.kind == EvidenceKind::Conflict,
            r.description@ == description@,
    {
        Evidence::of_kind(EvidenceKind::Conflict, description)
    }

    /// The intent was approved by hand.
    pub fn manual_approval() -> (r: Self)
        ensures
            r.kind == EvidenceKind::ManualApproval,
            r.description@ == "Manually approved"@,
    {
        Evidence::of_kind(EvidenceKind::ManualApproval, "Manually approved")
    }
}

/// One agent's published decision.
#[derive(Debug)]
pub struct IntentNode {
    pub id: String,
    pub agent_id: String,
    pub timestamp: Timestamp,
    /// What was decided, in words.
    pub intent: String,
    /// Interfaces that the decision provides to others.
    pub provides: Vec<InterfaceSpec>,
    /// Interfaces that the decision requires from others.
    pub requires: Vec<InterfaceSpec>,
    /// Constraints that the decision imposes on others.
    pub constraints: Vec<Constraint>,
    /// The stability that the agent declares, in millionths; a hint only.
    pub stability: u64,
    pub evidence: Vec<Evidence>,
    /// The intent that this one refines, if any.
    pub parent_id: Option<String>,
}

/// An intent as a value.
pub struct IntentNodeView {
    pub id: Seq<char>,
    pub agent_id: Seq<char>,
    pub timestamp: Timestamp,
    pub intent: Seq<char>,
    pub provides: Seq<InterfaceSpecView>,
    pub requires: Seq<InterfaceSpecView>,
    pub constraints: Seq<ConstraintView>,
    pub stability: u64,
    pub evidence: Seq<EvidenceView>,
    pub parent_id: Option<Seq<char>>,
}

/// The view of an optional text.
pub open spec fn view_of_option(o: Option<String>) -> Option<Seq<char>> {
    match o {
        Some(s) => Some(s@),
        None => None,
    }
}

impl View for IntentNode {
    type V = IntentNodeView;

    open spec fn view(&self) -> IntentNodeView {
        IntentNodeView {
            id: self.id@,
            agent_id: self.agent_id@,
            timestamp: self.timestamp,
            intent: self.intent@,
            provides: views_of(self.provides@),
            requires: views_of(self.requires@),
            constraints: views_of(self.constraints@),
            stability: self.stability,
            evidence: views_of(self.evidence@),
            parent_id: view_of_option(self.parent_id),
        }
    }
}

impl Clone for IntentNode {
    fn clone(&self) -> (r: Self)
        ensures
            r@ == self@,
    {
        let parent_id = match &self.parent_id {
            Some(p) => Some(p.clone()),
            None => None,
        };
        IntentNode {
            id: self.id.clone(),
            agent_id: self.agent_id.clone(),
            timestamp: self.timestamp,
            intent: self.intent.clone(),
            provides: copy_specs(&self.provides),
            requires: copy_specs(&self.requires),
            constraints: copy_constraints(&self.constraints),
            stability: self.stability,
            evidence: copy_evidence(&self.evidence),
            parent_id,
        }
    }
}

/// Some interface of the list carries the tag.
pub open spec fn any_spec_tagged(specs: Seq<InterfaceSpecView>, tag: Seq<char>) -> bool {
    exists|i: int| 0 <= i < specs.len() && (#[trigger] specs[i]).tags.contains(tag)
}

impl IntentNodeView {
    /// Some interface that the intent provides or requires carries the tag.
    pub open spec fn has_tag(self, tag: Seq<char>) -> bool {
        any_spec_tagged(self.provides, tag) || any_spec_tagged(self.requires, tag)
    }
}

impl ConstraintView {
    /// The constraint concerns the intent: one of the tags it affects is
    /// carried by an interface that the intent provides or requires.
    pub open spec fn applies_to(self, node: IntentNodeView) -> bool {
        exists|i: int|
            0 <= i < self.affects_tags.len() && node.has_tag(#[trigger] self.affects_tags[i])
    }

    /// Two constraints conflict: their targets have the same normal form
    /// and their requirements differ.
    pub open spec fn conflicts_with(self, other: ConstraintView) -> bool {
        normalized_target(self.target) == normalized_target(other.target) && self.requirement
            != other.requirement
    }
}

/// Whether some interface of the list carries the tag.
fn specs_tagged(specs: &Vec<InterfaceSpec>, tag: &String) -> (r: bool)
    ensures
        r == any_spec_tagged(views_of(specs@), tag@),
{
    let mut i: usize = 0;
    while i < specs.len()
        invariant
            i <= specs.len(),
            forall|k: int| 0 <= k < i ==> !(#[trigger] views_of(specs@)[k]).tags.contains(tag@),
        decreases specs.len() - i,
    {
        if has_text(&specs[i].tags, tag) {
            assert(views_of(specs@)[i as int].tags.contains(tag@));
            return true;
        }
        i += 1;
    }
    false
}

impl Constraint {
    /// A constraint on the target, of severity `Required`, affecting no
    /// tags yet.
    pub fn new(target: &str, requirement: &str) -> (r: Self)
        ensures
            r@ == (ConstraintView {
                target: target@,
                requirement: requirement@,
                severity: ConstraintSeverity::Required,
                affects_tags: Seq::empty(),
            }),
    {
        let r = Constraint {
            target: target.to_owned(),
            requirement: requirement.to_owned(),
            severity: ConstraintSeverity::Required,
            affects_tags: Vec::new(),
        };
        proof {
            assert(views_of(r.affects_tags@) =~= Seq::<Seq<char>>::empty());
        }
        r
    }

    /// The same constraint, of the given severity.
    pub fn with_severity(self, severity: ConstraintSeverity) -> (r: Self)
        ensures
            r@ == (ConstraintView { severity, ..self@ }),
    {
        let mut r = self;
        r.severity = severity;
        r
    }

    /// The same constraint, affecting the given tags in place of its own.
    pub fn with_affects(self, tags: Vec<&str>) -> (r: Self)
        ensures
            r@ == (ConstraintView { affects_tags: views_of(tags@), ..self@ }),
    {
        let mut r = self;
        r.affects_tags = own_texts(&tags);
        r
    }

    /// Whether the constraint concerns the intent, by the tags of the
    /// interfaces that the intent provides and requires.
    pub fn applies_to(&self, intent: &IntentNode) -> (r: bool)
        ensures
            r == self@.applies_to(intent@),
    {
        let mut i: usize = 0;
        while i < self.affects_tags.len()
            invariant
                i <= self.affects_tags.len(),
                forall|k: int| 0 <= k < i ==> !intent@.has_tag(#[trigger] self@.affects_tags[k]),
            decreases self.affects_tags.len() - i,
        {
            let tag = &self.affects_tags[i];
            assert(self@.affects_tags[i as int] == tag@);
            if specs_tagged(&intent.provides, tag) || specs_tagged(&intent.requires, tag) {
                return true;
            }
            i += 1;
        }
        false
    }

    /// Whether the two constraints conflict.
    pub fn conflicts_with(&self, other: &Constraint) -> (r: bool)
        ensures
            r == self@.conflicts_with(other@),
    {
        let mine = normalize_constraint_target(self.target.as_str());
        let theirs = normalize_constraint_target(other.target.as_str());
        mine == theirs && self.requirement != other.requirement
    }
}

impl IntentNode {
    /// A new intent of the agent, with a fresh identifier, the current
    /// time, the default stability and nothing else.
    pub fn new(agent_id: &str, intent: &str) -> (r: Self)
        ensures
            r@ == (IntentNodeView {
                id: r.id@,
                agent_id: agent_id@,
                timestamp: r.timestamp,
                intent: intent@,
                provides: Seq::empty(),
                requires: Seq::empty(),
                constraints: Seq::empty(),
                stability: DEFAULT_STABILITY,
                evidence: Seq::empty(),
                parent_id: None,
            }),
            is_random_id_text(r.id@),
            r.timestamp.seconds >= 0,
            r.timestamp.nanos < 1_000_000_000,
    {
        let r = IntentNode {
            id: fresh_identifier(),
            agent_id: agent_id.to_owned(),
            timestamp: current_time(),
            intent: intent.to_owned(),
            provides: Vec::new(),
            requires: Vec::new(),
            constraints: Vec::new(),
            stability: DEFAULT_STABILITY,
            evidence: Vec::new(),
            parent_id: None,
        };
        proof {
            assert(r@.provides =~= Seq::empty());
            assert(r@.requires =~= Seq::empty());
            assert(r@.constraints =~= Seq::empty());
            assert(r@.evidence =~= Seq::empty());
        }
        r
    }

    /// The same intent, providing the given interfaces.
    pub fn with_provides(self, specs: Vec<InterfaceSpec>) -> (r: Self)
        ensures
            r@ == (IntentNodeView { provides: views_of(specs@), ..self@ }),
    {
        let mut r = self;
        r.provides = specs;
        r
    }

    /// The same intent, requiring the given interfaces.
    pub fn with_requires(self, specs: Vec<InterfaceSpec>) -> (r: Self)
        ensures
            r@ == (IntentNodeView { requires: views_of(specs@), ..self@ }),
    {
        let mut r = self;
        r.requires = specs;
        r
    }

    /// The same intent, imposing the given constraints.
    pub fn with_constraints(self, constraints: Vec<Constraint>) -> (r: Self)
        ensures
            r@ == (IntentNodeView { constraints: views_of(constraints@), ..self@ }),
    {
        let mut r = self;
        r.constraints = constraints;
        r
    }

    /// Declares a stability; a value above 1.0 counts as 1.0.
    pub fn with_stability(self, stability: u64) -> (r: Self)
        ensures
            r@ == (IntentNodeView {
                stability: if stability <= STABILITY_ONE {
                    stability
                } else {
                    STABILITY_ONE
                },
                ..self@
            }),
    {
        let mut r = self;
        r.stability = if stability <= STABILITY_ONE {
            stability
        } else {
            STABILITY_ONE
        };
        r
    }

    /// The same intent, carrying the given evidence.
    pub fn with_evidence(self, evidence: Vec<Evidence>) -> (r: Self)
        ensures
            r@ == (IntentNodeView { evidence: views_of(evidence@), ..self@ }),
    {
        let mut r = self;
        r.evidence = evidence;
        r
    }

    /// The same intent, refining the intent of the given identifier.
    pub fn with_parent(self, parent_id: &str) -> (r: Self)
        ensures
            r@ == (IntentNodeView { parent_id: Some(parent_id@), ..self@ }),
    {
        let mut r = self;
        r.parent_id = Some(parent_id.to_owned());
        r
    }
}

/// A recommended action for the candidate of a resolution.
#[derive(Debug)]
pub struct Adjustment {
    pub kind: AdjustmentKind,
    pub description: String,
    /// The record that prompted the recommendation.
    pub source_intent_id: String,
}

/// An adjustment as a value.
pub struct AdjustmentView {
    pub kind: AdjustmentKind,
    pub description: Seq<char>,
    pub source_intent_id: Seq<char>,
}

impl View for Adjustment {
    type V = AdjustmentView;

    open spec fn view(&self) -> AdjustmentView {
        AdjustmentView {
            kind: self.kind,
            description: self.description@,
            source_intent_id: self.source_intent_id@,
        }
    }
}

impl Clone for Adjustment {
    fn clone(&self) -> (r: Self)
        ensures
            r@ == self@,
    {
        Adjustment {
            kind: self.kind,
            description: self.description.clone(),
            source_intent_id: self.source_intent_id.clone(),
        }
    }
}

/// A clash between two intents that a resolution does not settle.
#[derive(Debug)]
pub struct ConflictReport {
    pub my_intent_id: String,
    pub their_intent_id: String,
    pub description: String,
    /// The computed stability of the other side, in millionths.
    pub their_stability: u64,
    pub resolution_suggestion: String,
}

/// A conflict report as a value.
pub struct ConflictReportView {
    pub my_intent_id: Seq<char>,
    pub their_intent_id: Seq<char>,
    pub description: Seq<char>,
    pub their_stability: u64,
    pub resolution_suggestion: Seq<char>,
}

impl View for ConflictReport {
    type V = ConflictReportView;

    open spec fn view(&self) -> ConflictReportView {
        ConflictReportView {
            my_intent_id: self.my_intent_id@,
            their_intent_id: self.their_intent_id@,
            description: self.description@,
            their_stability: self.their_stability,
            resolution_suggestion: self.resolution_suggestion@,
        }
    }
}

impl Clone for ConflictReport {
    fn clone(&self) -> (r: Self)
        ensures
            r@ == self@,
    {
        ConflictReport {
            my_intent_id: self.my_intent_id.clone(),
            their_intent_id: self.their_intent_id.clone(),
            description: self.description.clone(),
            their_stability: self.their_stability,
            resolution_suggestion: self.resolution_suggestion.clone(),
        }
    }
}

/// What resolving one candidate against the graph gave.
#[derive(Debug)]
pub struct ResolutionResult {
    /// The identifier of the candidate.
    pub original_intent: String,
    pub adjustments: Vec<Adjustment>,
    pub conflicts: Vec<ConflictReport>,
    pub adopted_constraints: Vec<Constraint>,
}

/// The outcome of a resolution as a value.
pub struct ResolutionResultView {
    pub original_intent: Seq<char>,
    pub adjustments: Seq<AdjustmentView>,
    pub conflicts: Seq<ConflictReportView>,
    pub adopted_constraints: Seq<ConstraintView>,
}

impl View for ResolutionResult {
    type V = ResolutionResultView;

    open spec fn view(&self) -> ResolutionResultView {
        ResolutionResultView {
            original_intent: self.original_intent@,
            adjustments: views_of(self.adjustments@),
            conflicts: views_of(self.conflicts@),
            adopted_constraints: views_of(self.adopted_constraints@),
        }
    }
}

impl ResolutionResult {
    /// No conflict was found.
    pub fn is_clean(&self) -> (r: bool)
        ensures
            r == (self@.conflicts.len() == 0),
    {
        self.conflicts.len() == 0
    }

    /// At least one action is recommended.
    pub fn has_adjustments(&self) -> (r: bool)
        ensures
            r == (self@.adjustments.len() > 0),
    {
        self.adjustments.len() > 0
    }
}

} // verus!
