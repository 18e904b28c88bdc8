//! The storage and index engine: an append-only set of published intents,
//! kept in order of creation time, and a secondary index with one row per
//! interface that a published intent provides or requires.

use crate::matching::{normalize_name, normalized_name};
use crate::models::{
    copy_texts, IntentNode, IntentNodeView, InterfaceSpec, InterfaceSpecView, Timestamp,
};
use crate::stability::{stability_score, StabilityScorer, StabilityWeights};
use crate::text::{from_chars, join, join_chars, same_text, to_chars, views_of};
use vstd::prelude::*;

verus! {

/// The side of an intent on which an interface stands.
#[derive(Debug, Clone, Copy, PartialEq, Eq, Structural)]
pub enum InterfaceRole {
    Provides,
    Requires,
}

/// One row of the secondary index.
#[derive(Debug)]
pub struct IndexEntry {
    pub intent_id: String,
    pub agent_id: String,
    /// The normal form of the interface's name.
    pub normalized_name: String,
    pub role: InterfaceRole,
    /// The interface's tags, joined by single spaces.
    pub tags: String,
}

/// An index row as a value.
pub struct IndexEntryView {
    pub intent_id: Seq<char>,
    pub agent_id: Seq<char>,
    pub normalized_name: Seq<char>,
    pub role: InterfaceRole,
    pub tags: Seq<char>,
}

impl View for IndexEntry {
    type V = IndexEntryView;

    open spec fn view(&self) -> IndexEntryView {
        IndexEntryView {
            intent_id: self.intent_id@,
            agent_id: self.agent_id@,
            normalized_name: self.normalized_name@,
            role: self.role,
            tags: self.tags@,
        }
    }
}

impl Clone for IndexEntry {
    fn clone(&self) -> (r: Self)
        ensures
            r@ == self@,
    {
        IndexEntry {
            intent_id: self.intent_id.clone(),
            agent_id: self.agent_id.clone(),
            normalized_name: self.normalized_name.clone(),
            role: self.role,
            tags: self.tags.clone(),
        }
    }
}

/// Why an intent was not published.
#[derive(Debug, Clone, Copy, PartialEq, Eq, Structural)]
pub enum PublishError {
    /// An intent with this identifier is published already.
    DuplicateId,
    /// The intent names a parent that is not published.
    UnknownParent,
}

/// A summary of what the graph holds.
#[derive(Debug)]
pub struct GraphSummary {
    /// The number of published intents.
    pub total_intents: usize,
    /// The number of agents that have published.
    pub agent_count: usize,
    /// Their identifiers, each once, in ascending order.
    pub agents: Vec<String>,
    /// The mean of the computed stabilities, rounded down; 0 for an empty
    /// graph.
    pub average_stability: u64,
    /// The number of intents of computed stability 0.7 and above.
    pub high_stability_count: usize,
}

impl Clone for GraphSummary {
    fn clone(&self) -> (r: Self)
        ensures
            r.total_intents == self.total_intents,
            r.agent_count == self.agent_count,
            views_of(r.agents@) == views_of(self.agents@),
            r.average_stability == self.average_stability,
            r.high_stability_count == self.high_stability_count,
    {
        GraphSummary {
            total_intents: self.total_intents,
            agent_count: self.agent_count,
            agents: copy_texts(&self.agents),
            average_stability: self.average_stability,
            high_stability_count: self.high_stability_count,
        }
    }
}

/// The stability that the graph computes for an intent: the score of its
/// evidence under the standard weights.
pub open spec fn score_of(node: IntentNodeView) -> u64 {
    stability_score(StabilityWeights::standard(), node.evidence)
}

/// The index row for one interface of an intent.
pub open spec fn entry_for(
    node: IntentNodeView,
    role: InterfaceRole,
    spec: InterfaceSpecView,
) -> IndexEntryView {
    IndexEntryView {
        intent_id: node.id,
        agent_id: node.agent_id,
        normalized_name: normalized_name(spec.name),
        role,
        tags: join(spec.tags, " "@),
    }
}

/// The index rows for the interfaces that an intent has in one role.
pub open spec fn entries_in_role(
    node: IntentNodeView,
    role: InterfaceRole,
    specs: Seq<InterfaceSpecView>,
) -> Seq<IndexEntryView> {
    Seq::new(specs.len(), |k: int| entry_for(node, role, specs[k]))
}

/// The index rows of an intent: one per provided interface, then one per
/// required interface.
pub open spec fn entries_of(node: IntentNodeView) -> Seq<IndexEntryView> {
    entries_in_role(node, InterfaceRole::Provides, node.provides) + entries_in_role(
        node,
        InterfaceRole::Requires,
        node.requires,
    )
}

/// The row is the index row of an interface of one of the records.
pub open spec fn row_of_some_record(records: Seq<IntentNodeView>, row: IndexEntryView) -> bool {
    exists|i: int| 0 <= i < records.len() && entries_of(#[trigger] records[i]).contains(row)
}

/// The index reflects the records: it holds the rows of their interfaces
/// and no others.
pub open spec fn index_reflects(records: Seq<IntentNodeView>, index: Seq<IndexEntryView>) -> bool {
    forall|row: IndexEntryView| #[trigger] index.contains(row) <==> row_of_some_record(records, row)
}

/// The records stand in order of creation time.
pub open spec fn time_sorted(records: Seq<IntentNodeView>) -> bool {
    forall|i: int, j: int|
        0 <= i < j < records.len() ==> (#[trigger] records[i]).timestamp.at_or_before(
            (#[trigger] records[j]).timestamp,
        )
}

/// Some record has this identifier.
pub open spec fn has_id(records: Seq<IntentNodeView>, id: Seq<char>) -> bool {
    exists|i: int| 0 <= i < records.len() && (#[trigger] records[i]).id == id
}

/// No two records share an identifier.
pub open spec fn ids_distinct(records: Seq<IntentNodeView>) -> bool {
    forall|i: int, j: int|
        0 <= i < j < records.len() ==> (#[trigger] records[i]).id != (#[trigger] records[j]).id
}

/// Every parent that a record names is itself a record.
pub open spec fn parents_known(records: Seq<IntentNodeView>) -> bool {
    forall|i: int|
        0 <= i < records.len() ==> match (#[trigger] records[i]).parent_id {
            Some(p) => has_id(records, p),
            None => true,
        }
}

/// Where a record of creation time `t` goes: behind the last record that
/// is not younger.
pub open spec fn insertion_point(records: Seq<IntentNodeView>, t: Timestamp) -> int
    decreases records.len(),
{
    if records.len() == 0 || records.last().timestamp.at_or_before(t) {
        records.len() as int
    } else {
        insertion_point(records.drop_last(), t)
    }
}

/// The records with one more, placed by its creation time.
pub open spec fn insert_by_time(
    records: Seq<IntentNodeView>,
    node: IntentNodeView,
) -> Seq<IntentNodeView> {
    records.insert(insertion_point(records, node.timestamp), node)
}

/// What the graph holds: the published intents in order of creation time
/// (those of equal time in order of publication), and the index rows in
/// order of publication.
pub struct GraphView {
    pub records: Seq<IntentNodeView>,
    pub index: Seq<IndexEntryView>,
}

impl GraphView {
    /// The graph is consistent: the records are ordered by time, their
    /// identifiers are distinct, every parent is a record, and the index
    /// reflects the records.
    pub open spec fn consistent(self) -> bool {
        &&& time_sorted(self.records)
        &&& ids_distinct(self.records)
        &&& parents_known(self.records)
        &&& index_reflects(self.records, self.index)
    }
}

/// A published intent with the stability computed when it was published.
pub(crate) struct StoredIntent {
    pub(crate) node: IntentNode,
    pub(crate) computed_stability: u64,
}

/// The shared intent graph.
pub struct IntentGraph {
    pub(crate) records: Vec<StoredIntent>,
    pub(crate) index: Vec<IndexEntry>,
    pub(crate) scorer: StabilityScorer,
}

/// The views of the stored intents.
pub(crate) closed spec fn nodes_of(records: Seq<StoredIntent>) -> Seq<IntentNodeView> {
    Seq::new(records.len(), |i: int| records[i].node@)
}

impl View for IntentGraph {
    type V = GraphView;

    closed spec fn view(&self) -> GraphView {
        GraphView { records: nodes_of(self.records@), index: views_of(self.index@) }
    }
}

impl IntentGraph {
    /// The stored stabilities are those of the records, under the standard
    /// weights.
    pub closed spec fn cache_coherent(&self) -> bool {
        &&& self.scorer.weights() == StabilityWeights::standard()
        &&& forall|i: int|
            0 <= i < self.records@.len() ==> (#[trigger] self.records@[i]).computed_stability
                == score_of(self.records@[i].node@)
    }

    /// The graph is well formed.
    pub open spec fn wf(&self) -> bool {
        self@.consistent() && self.cache_coherent()
    }

    /// How the view and the stored stabilities relate to the fields.
    pub(crate) proof fn lemma_layout(&self)
        ensures
            self@.records.len() == self.records@.len(),
            forall|i: int|
                0 <= i < self.records@.len() ==> #[trigger] self@.records[i]
                    == self.records@[i].node@,
            self@.index == views_of(self.index@),
            self.wf() ==> self.scorer.weights() == StabilityWeights::standard(),
            self.wf() ==> forall|i: int|
                0 <= i < self.records@.len() ==> (#[trigger] self.records@[i]).computed_stability
                    == score_of(self.records@[i].node@),
    {
    }

    /// An empty graph.
    pub fn in_memory() -> (g: Self)
        ensures
            g.wf(),
            g@.records.len() == 0,
            g@.index.len() == 0,
    {
        let g = IntentGraph { records: Vec::new(), index: Vec::new(), scorer: StabilityScorer::new() };
        proof {
            assert(g@.records =~= Seq::empty());
            assert(g@.index =~= Seq::empty());
            assert forall|row: IndexEntryView| #[trigger]
                g@.index.contains(row) <==> row_of_some_record(g@.records, row) by {}
        }
        g
    }

    /// The number of published intents.
    pub fn count(&self) -> (n: usize)
        ensures
            n == self@.records.len(),
    {
        self.records.len()
    }
}

/// The parent that an intent names, if it names one, is a record.
pub open spec fn parent_known(records: Seq<IntentNodeView>, parent: Option<Seq<char>>) -> bool {
    match parent {
        Some(p) => has_id(records, p),
        None => true,
    }
}

/// Where the insertion point lies: the records before it are not younger
/// than `t`, those from it on are.
pub proof fn lemma_insertion_point(records: Seq<IntentNodeView>, t: Timestamp)
    requires
        time_sorted(records),
    ensures
        0 <= insertion_point(records, t) <= records.len(),
        forall|i: int|
            0 <= i < insertion_point(records, t) ==> (#[trigger] records[i]).timestamp.at_or_before(
                t,
            ),
        forall|i: int|
            insertion_point(records, t) <= i < records.len() ==> (#[trigger] records[i]).timestamp.after(
                t,
            ),
    decreases records.len(),
{
    if records.len() == 0 {
    } else if records.last().timestamp.at_or_before(t) {
        assert forall|i: int| 0 <= i < records.len() implies (#[trigger] records[i]).timestamp.at_or_before(
            t,
        ) by {
            if i < records.len() - 1 {
                assert(records[i].timestamp.at_or_before(records[records.len() - 1].timestamp));
            }
        }
    } else {
        let init = records.drop_last();
        assert forall|i: int, j: int| 0 <= i < j < init.len() implies (#[trigger] init[i]).timestamp.at_or_before(
            (#[trigger] init[j]).timestamp,
        ) by {
            assert(init[i] == records[i] && init[j] == records[j]);
        }
        lemma_insertion_point(init, t);
        let p = insertion_point(init, t);
        assert forall|i: int| 0 <= i < p implies (#[trigger] records[i]).timestamp.at_or_before(
            t,
        ) by {
            assert(init[i] == records[i]);
        }
        assert forall|i: int| p <= i < records.len() implies (#[trigger] records[i]).timestamp.after(
            t,
        ) by {
            if i < records.len() - 1 {
                assert(init[i] == records[i]);
            }
        }
    }
}

/// Publishing keeps the graph consistent: with a record of a new identifier
/// and a known parent placed by its time, and its index rows appended, the
/// records stay ordered and distinct and the index still reflects them.
pub proof fn lemma_publish_consistent(before: GraphView, node: IntentNodeView)
    requires
        before.consistent(),
        !has_id(before.records, node.id),
        parent_known(before.records, node.parent_id),
    ensures
        (GraphView {
            records: insert_by_time(before.records, node),
            index: before.index + entries_of(node),
        }).consistent(),
{
    let old_records = before.records;
    let p = insertion_point(old_records, node.timestamp);
    lemma_insertion_point(old_records, node.timestamp);
    let records = insert_by_time(old_records, node);
    let index = before.index + entries_of(node);
    old_records.insert_ensures(p, node);
    // every new record is the new one or an old one, and every old one is kept
    assert forall|i: int| 0 <= i < records.len() && i != p implies exists|k: int|
        0 <= k < old_records.len() && old_records[k] == #[trigger] records[i] && (i < p ==> k == i)
            && (i > p ==> k == i - 1) by {
        if i < p {
            assert(old_records[i] == records[i]);
        } else {
            assert(old_records[i - 1] == records[i - 1 + 1]);
        }
    }
    assert forall|k: int| 0 <= k < old_records.len() implies exists|i: int|
        0 <= i < records.len() && records[i] == #[trigger] old_records[k] by {
        if k < p {
            assert(records[k] == old_records[k]);
        } else {
            assert(records[k + 1] == old_records[k]);
        }
    }
    assert(time_sorted(records)) by {
        assert forall|i: int, j: int| 0 <= i < j < records.len() implies (#[trigger] records[i]).timestamp.at_or_before(
            (#[trigger] records[j]).timestamp,
        ) by {
            let a = if i < p { i } else { i - 1 };
            let b = if j < p { j } else { j - 1 };
            if i == p {
                assert(records[j] == old_records[b]);
                assert(old_records[b].timestamp.after(node.timestamp));
            } else if j == p {
                assert(records[i] == old_records[a]);
                assert(old_records[a].timestamp.at_or_before(node.timestamp));
            } else {
                assert(records[i] == old_records[a]);
                assert(records[j] == old_records[b]);
                assert(old_records[a].timestamp.at_or_before(old_records[b].timestamp));
            }
        }
    }
    assert(ids_distinct(records)) by {
        assert forall|i: int, j: int| 0 <= i < j < records.len() implies (#[trigger] records[i]).id
            != (#[trigger] records[j]).id by {
            let a = if i < p { i } else { i - 1 };
            let b = if j < p { j } else { j - 1 };
            if i == p {
                assert(records[j] == old_records[b]);
            } else if j == p {
                assert(records[i] == old_records[a]);
            } else {
                assert(records[i] == old_records[a]);
                assert(records[j] == old_records[b]);
                assert(old_records[a].id != old_records[b].id);
            }
        }
    }
    assert forall|id: Seq<char>| has_id(old_records, id) implies has_id(records, id) by {
        let k = choose|k: int| 0 <= k < old_records.len() && (#[trigger] old_records[k]).id == id;
        let i = choose|i: int| 0 <= i < records.len() && records[i] == old_records[k];
        assert(records[i].id == id);
    }
    assert(parents_known(records)) by {
        assert forall|i: int| 0 <= i < records.len() implies match (#[trigger] records[i]).parent_id {
            Some(q) => has_id(records, q),
            None => true,
        } by {
            if i != p {
                let k = if i < p { i } else { i - 1 };
                assert(records[i] == old_records[k]);
                assert(parent_known(old_records, old_records[k].parent_id));
            }
        }
    }
    assert(index_reflects(records, index)) by {
        assert forall|row: IndexEntryView| #[trigger]
            index.contains(row) <==> row_of_some_record(records, row) by {
            if index.contains(row) {
                let r = choose|r: int| 0 <= r < index.len() && index[r] == row;
                if r < before.index.len() {
                    assert(before.index[r] == row);
                    assert(before.index.contains(row));
                    assert(row_of_some_record(old_records, row));
                    let k = choose|k: int|
                        0 <= k < old_records.len() && entries_of(#[trigger] old_records[k]).contains(
                            row,
                        );
                    let i = choose|i: int| 0 <= i < records.len() && records[i] == old_records[k];
                    assert(entries_of(records[i]).contains(row));
                } else {
                    assert(entries_of(node)[r - before.index.len()] == row);
                    assert(entries_of(records[p]).contains(row));
                }
            }
            if row_of_some_record(records, row) {
                let i = choose|i: int|
                    0 <= i < records.len() && entries_of(#[trigger] records[i]).contains(row);
                if i == p {
                    let k = choose|k: int| 0 <= k < entries_of(node).len() && entries_of(node)[k] == row;
                    assert(index[before.index.len() + k] == row);
                } else {
                    let k = if i < p { i } else { i - 1 };
                    assert(records[i] == old_records[k]);
                    assert(row_of_some_record(old_records, row));
                    assert(before.index.contains(row));
                    let r = choose|r: int| 0 <= r < before.index.len() && before.index[r] == row;
                    assert(index[r] == row);
                }
            }
        }
    }
}

/// Joins texts with `sep` between them.
fn join_texts(parts: &Vec<String>, sep: &str) -> (r: String)
    ensures
        r@ == join(views_of(parts@), sep@),
{
    let mut chars: Vec<Vec<char>> = Vec::new();
    let mut i: usize = 0;
    while i < parts.len()
        invariant
            i <= parts.len(),
            views_of(chars@) == views_of(parts@).take(i as int),
        decreases parts.len() - i,
    {
        let ghost before = views_of(chars@);
        let c = to_chars(parts[i].as_str());
        chars.push(c);
        proof {
            assert(views_of(chars@) =~= before.push(parts@[i as int]@));
            assert(views_of(parts@).take(i + 1) =~= views_of(parts@).take(i as int).push(
                parts@[i as int]@,
            ));
        }
        i += 1;
    }
    proof {
        assert(views_of(parts@).take(parts.len() as int) =~= views_of(parts@));
    }
    let sep_chars = to_chars(sep);
    let joined = join_chars(&chars, &sep_chars);
    from_chars(&joined)
}

/// Appends to the index one row for each of the interfaces, which the
/// intent has in the given role.
fn index_interfaces(
    index: &mut Vec<IndexEntry>,
    intent: &IntentNode,
    role: InterfaceRole,
    specs: &Vec<InterfaceSpec>,
)
    ensures
        views_of(final(index)@) == views_of(old(index)@) + entries_in_role(
            intent@,
            role,
            views_of(specs@),
        ),
{
    let ghost rows = entries_in_role(intent@, role, views_of(specs@));
    let mut i: usize = 0;
    proof {
        assert(views_of(index@) =~= views_of(old(index)@) + rows.take(0));
    }
    while i < specs.len()
        invariant
            i <= specs.len(),
            rows == entries_in_role(intent@, role, views_of(specs@)),
            views_of(index@) == views_of(old(index)@) + rows.take(i as int),
        decreases specs.len() - i,
    {
        let spec = &specs[i];
        let entry = IndexEntry {
            intent_id: intent.id.clone(),
            agent_id: intent.agent_id.clone(),
            normalized_name: normalize_name(spec.name.as_str()),
            role,
            tags: join_texts(&spec.tags, " "),
        };
        let ghost before = views_of(index@);
        proof {
            assert(views_of(specs@)[i as int] == spec@);
            assert(entry@ == rows[i as int]);
        }
        index.push(entry);
        proof {
            assert(views_of(index@) =~= before.push(rows[i as int]));
            assert(rows.take(i + 1) =~= rows.take(i as int).push(rows[i as int]));
            assert(views_of(index@) =~= views_of(old(index)@) + rows.take(i + 1));
        }
        i += 1;
    }
    proof {
        assert(rows.take(specs.len() as int) =~= rows);
    }
}

/// The index rows of an intent: one for each interface that it provides,
/// then one for each that it requires.
pub fn index_entries(intent: &IntentNode) -> (rows: Vec<IndexEntry>)
    ensures
        views_of(rows@) == entries_of(intent@),
{
    let mut rows: Vec<IndexEntry> = Vec::new();
    index_interfaces(&mut rows, intent, InterfaceRole::Provides, &intent.provides);
    index_interfaces(&mut rows, intent, InterfaceRole::Requires, &intent.requires);
    proof {
        assert(views_of(rows@) =~= entries_of(intent@));
    }
    rows
}

impl IntentGraph {
    /// The position of the record with the given identifier.
    fn position_of(&self, id: &String) -> (r: Option<usize>)
        ensures
            match r {
                Some(i) => i < self@.records.len() && self@.records[i as int].id == id@,
                None => !has_id(self@.records, id@),
            },
    {
        let mut i: usize = 0;
        while i < self.records.len()
            invariant
                i <= self.records.len(),
                forall|k: int| 0 <= k < i ==> (#[trigger] self@.records[k]).id != id@,
            decreases self.records.len() - i,
        {
            if self.records[i].node.id == *id {
                return Some(i);
            }
            i += 1;
        }
        None
    }

    /// Publishes an intent. The intent is scored by its evidence, stored
    /// with that score at the place that its creation time gives it, and
    /// one index row is added for each interface that it provides and each
    /// that it requires. Returns the computed stability. An intent whose
    /// identifier is taken, or whose parent is not published, is refused
    /// and leaves the graph as it was.
    pub fn publish(&mut self, intent: &IntentNode) -> (r: Result<u64, PublishError>)
        requires
            old(self).wf(),
        ensures
            final(self).wf(),
            match r {
                Ok(stability) => {
                    &&& !has_id(old(self)@.records, intent@.id)
                    &&& parent_known(old(self)@.records, intent@.parent_id)
                    &&& stability == score_of(intent@)
                    &&& final(self)@.records == insert_by_time(old(self)@.records, intent@)
                    &&& final(self)@.index == old(self)@.index + entries_of(intent@)
                },
                Err(PublishError::DuplicateId) => {
                    &&& has_id(old(self)@.records, intent@.id)
                    &&& final(self)@ == old(self)@
                },
                Err(PublishError::UnknownParent) => {
                    &&& !has_id(old(self)@.records, intent@.id)
                    &&& !parent_known(old(self)@.records, intent@.parent_id)
                    &&& final(self)@ == old(self)@
                },
            },
    {
        if self.position_of(&intent.id).is_some() {
            return Err(PublishError::DuplicateId);
        }
        match &intent.parent_id {
            Some(p) => {
                if self.position_of(p).is_none() {
                    return Err(PublishError::UnknownParent);
                }
            },
            None => {},
        }
        let computed_stability = self.scorer.compute(intent);
        let ghost nodes = self@.records;
        let mut pos: usize = self.records.len();
        proof {
            assert(nodes.take(pos as int) =~= nodes);
        }
        while pos > 0 && !self.records[pos - 1].node.timestamp.is_at_or_before(&intent.timestamp)
            invariant
                pos <= self.records.len(),
                nodes == self@.records,
                insertion_point(nodes, intent@.timestamp) == insertion_point(
                    nodes.take(pos as int),
                    intent@.timestamp,
                ),
            decreases pos,
        {
            proof {
                assert(nodes.take(pos as int).drop_last() =~= nodes.take(pos - 1));
                assert(nodes.take(pos as int).last() == self.records@[pos - 1].node@);
            }
            pos -= 1;
        }
        proof {
            if pos > 0 {
                assert(nodes.take(pos as int).last() == self.records@[pos - 1].node@);
            }
            assert(pos == insertion_point(nodes, intent@.timestamp));
            lemma_publish_consistent(self@, intent@);
        }
        let ghost old_stored = self.records@;
        let stored = StoredIntent { node: intent.clone(), computed_stability };
        self.records.insert(pos, stored);
        proof {
            old_stored.insert_ensures(pos as int, stored);
            assert(self@.records =~= insert_by_time(nodes, intent@)) by {
                nodes.insert_ensures(pos as int, intent@);
                assert forall|i: int| 0 <= i < self@.records.len() implies self@.records[i]
                    == insert_by_time(nodes, intent@)[i] by {
                    if i < pos {
                        assert(self.records@[i] == old_stored[i]);
                    } else if i > pos {
                        assert(self.records@[i - 1 + 1] == old_stored[i - 1]);
                        assert(nodes.insert(pos as int, intent@)[i - 1 + 1] == nodes[i - 1]);
                    }
                }
            }
            assert forall|i: int| 0 <= i < self.records@.len() implies (#[trigger] self.records@[i]).computed_stability
                == score_of(self.records@[i].node@) by {
                if i < pos {
                    assert(self.records@[i] == old_stored[i]);
                } else if i > pos {
                    assert(self.records@[i - 1 + 1] == old_stored[i - 1]);
                }
            }
        }
        index_interfaces(&mut self.index, intent, InterfaceRole::Provides, &intent.provides);
        index_interfaces(&mut self.index, intent, InterfaceRole::Requires, &intent.requires);
        proof {
            assert(self@.index =~= old(self)@.index + entries_of(intent@));
        }
        Ok(computed_stability)
    }
}

/// The threshold that an optional minimum stands for: none reads as 0.
pub open spec fn threshold(min_stability: Option<u64>) -> u64 {
    match min_stability {
        Some(m) => m,
        None => 0,
    }
}

/// The intents whose computed stability is at least `min`.
pub open spec fn scoring_at_least(min: u64) -> spec_fn(IntentNodeView) -> bool {
    |n: IntentNodeView| score_of(n) >= min
}

/// The intents of one agent.
pub open spec fn published_by(agent_id: Seq<char>) -> spec_fn(IntentNodeView) -> bool {
    |n: IntentNodeView| n.agent_id == agent_id
}

/// The intents created after `since` whose computed stability is at least
/// `min`.
pub open spec fn created_after(since: Timestamp, min: u64) -> spec_fn(IntentNodeView) -> bool {
    |n: IntentNodeView| n.timestamp.after(since) && score_of(n) >= min
}

impl IntentGraph {
    /// All intents whose computed stability is at least the minimum (all of
    /// them when none is given), in order of creation time.
    pub fn query_all(&self, min_stability: Option<u64>) -> (out: Vec<IntentNode>)
        requires
            self.wf(),
        ensures
            views_of(out@) == self@.records.filter(scoring_at_least(threshold(min_stability))),
            time_sorted(views_of(out@)),
    {
        proof {
            lemma_selection_keeps_order(
                self@.records,
                scoring_at_least(threshold(min_stability)),
            );
        }
        let min = match min_stability {
            Some(m) => m,
            None => 0,
        };
        let ghost nodes = self@.records;
        let ghost pred = scoring_at_least(min);
        let mut out: Vec<IntentNode> = Vec::new();
        let mut i: usize = 0;
        proof {
            reveal(Seq::filter);
            assert(views_of(out@) =~= nodes.take(0).filter(pred));
        }
        while i < self.records.len()
            invariant
                self.wf(),
                i <= self.records.len(),
                nodes == self@.records,
                pred == scoring_at_least(min),
                views_of(out@) == nodes.take(i as int).filter(pred),
            decreases self.records.len() - i,
        {
            let ghost before = views_of(out@);
            proof {
                assert(nodes.take(i + 1) =~= nodes.take(i as int).push(nodes[i as int]));
                nodes.take(i as int).lemma_filter_push(nodes[i as int], pred);
                assert(nodes[i as int] == self.records@[i as int].node@);
            }
            if self.records[i].computed_stability >= min {
                let node = self.records[i].node.clone();
                out.push(node);
                proof {
                    assert(views_of(out@) =~= before.push(nodes[i as int]));
                }
            }
            i += 1;
        }
        proof {
            assert(nodes.take(self.records.len() as int) =~= nodes);
        }
        out
    }

    /// The intents of one agent, in order of creation time.
    pub fn query_by_agent(&self, agent_id: &str) -> (out: Vec<IntentNode>)
        requires
            self.wf(),
        ensures
            views_of(out@) == self@.records.filter(published_by(agent_id@)),
            time_sorted(views_of(out@)),
    {
        proof {
            lemma_selection_keeps_order(self@.records, published_by(agent_id@));
        }
        let ghost nodes = self@.records;
        let ghost pred = published_by(agent_id@);
        let mut out: Vec<IntentNode> = Vec::new();
        let mut i: usize = 0;
        proof {
            reveal(Seq::filter);
            assert(views_of(out@) =~= nodes.take(0).filter(pred));
        }
        while i < self.records.len()
            invariant
                i <= self.records.len(),
                nodes == self@.records,
                pred == published_by(agent_id@),
                views_of(out@) == nodes.take(i as int).filter(pred),
            decreases self.records.len() - i,
        {
            let ghost before = views_of(out@);
            proof {
                assert(nodes.take(i + 1) =~= nodes.take(i as int).push(nodes[i as int]));
                nodes.take(i as int).lemma_filter_push(nodes[i as int], pred);
                assert(nodes[i as int] == self.records@[i as int].node@);
            }
            if same_text(self.records[i].node.agent_id.as_str(), agent_id) {
                let node = self.records[i].node.clone();
                out.push(node);
                proof {
                    assert(views_of(out@) =~= before.push(nodes[i as int]));
                }
            }
            i += 1;
        }
        proof {
            assert(nodes.take(self.records.len() as int) =~= nodes);
        }
        out
    }

    /// The intents created after `since` whose computed stability is at
    /// least the minimum, in order of creation time.
    pub fn query_since(&self, since: Timestamp, min_stability: Option<u64>) -> (out: Vec<
        IntentNode,
    >)
        requires
            self.wf(),
        ensures
            views_of(out@) == self@.records.filter(
                created_after(since, threshold(min_stability)),
            ),
            time_sorted(views_of(out@)),
    {
        proof {
            lemma_selection_keeps_order(
                self@.records,
                created_after(since, threshold(min_stability)),
            );
        }
        let min = match min_stability {
            Some(m) => m,
            None => 0,
        };
        let ghost nodes = self@.records;
        let ghost pred = created_after(since, min);
        let mut out: Vec<IntentNode> = Vec::new();
        let mut i: usize = 0;
        proof {
            reveal(Seq::filter);
            assert(views_of(out@) =~= nodes.take(0).filter(pred));
        }
        while i < self.records.len()
            invariant
                self.wf(),
                i <= self.records.len(),
                nodes == self@.records,
                pred == created_after(since, min),
                views_of(out@) == nodes.take(i as int).filter(pred),
            decreases self.records.len() - i,
        {
            let ghost before = views_of(out@);
            proof {
                assert(nodes.take(i + 1) =~= nodes.take(i as int).push(nodes[i as int]));
                nodes.take(i as int).lemma_filter_push(nodes[i as int], pred);
                assert(nodes[i as int] == self.records@[i as int].node@);
            }
            let stored = &self.records[i];
            if !stored.node.timestamp.is_at_or_before(&since) && stored.computed_stability >= min {
                let node = stored.node.clone();
                out.push(node);
                proof {
                    assert(views_of(out@) =~= before.push(nodes[i as int]));
                }
            }
            i += 1;
        }
        proof {
            assert(nodes.take(self.records.len() as int) =~= nodes);
        }
        out
    }
}

/// The intents whose computed stability is below `min`.
pub open spec fn scoring_below(min: u64) -> spec_fn(IntentNodeView) -> bool {
    |n: IntentNodeView| score_of(n) < min
}

/// An intent without evidence is published with the base stability, 0.3,
/// and a query of all intents right after the first publication returns
/// exactly that intent.
pub proof fn lemma_first_publication(node: IntentNodeView)
    ensures
        node.evidence.len() == 0 ==> score_of(node) == 300_000,
        insert_by_time(Seq::empty(), node).filter(scoring_at_least(threshold(None))) == seq![node],
{
    if node.evidence.len() == 0 {
        assert(node.evidence =~= Seq::empty());
        crate::stability::lemma_score_without_evidence(StabilityWeights::standard());
    }
    let records = insert_by_time(Seq::empty(), node);
    assert(records =~= seq![node]);
    assert(records =~= Seq::<IntentNodeView>::empty().push(node));
    Seq::<IntentNodeView>::empty().lemma_filter_push(node, scoring_at_least(0));
    reveal(Seq::filter);
    assert(Seq::<IntentNodeView>::empty().filter(scoring_at_least(0)) =~= Seq::empty());
}

/// A minimum stability parts the records in two: a query with the minimum
/// returns exactly the records that reach it, every other record falls
/// below it, and no record is in both parts or in neither. A query without
/// a minimum returns every record.
pub proof fn lemma_minimum_partitions(records: Seq<IntentNodeView>, min: u64)
    ensures
        forall|i: int|
            0 <= i < records.len() ==> (records.filter(scoring_at_least(min)).contains(
                #[trigger] records[i],
            ) <==> score_of(records[i]) >= min),
        forall|i: int|
            0 <= i < records.len() ==> (records.filter(scoring_below(min)).contains(
                #[trigger] records[i],
            ) <==> score_of(records[i]) < min),
        records.filter(scoring_at_least(min)).len() + records.filter(scoring_below(min)).len()
            == records.len(),
        records.filter(scoring_at_least(threshold(None))) == records,
    decreases records.len(),
{
    let high = scoring_at_least(min);
    let low = scoring_below(min);
    assert forall|i: int| 0 <= i < records.len() implies (records.filter(high).contains(
        #[trigger] records[i],
    ) <==> score_of(records[i]) >= min) by {
        if records.filter(high).contains(records[i]) {
            let k = choose|k: int|
                0 <= k < records.filter(high).len() && records.filter(high)[k] == records[i];
            records.lemma_filter_pred(high, k);
        }
        if score_of(records[i]) >= min {
            records.lemma_filter_contains(high, i);
        }
    }
    assert forall|i: int| 0 <= i < records.len() implies (records.filter(low).contains(
        #[trigger] records[i],
    ) <==> score_of(records[i]) < min) by {
        if records.filter(low).contains(records[i]) {
            let k = choose|k: int|
                0 <= k < records.filter(low).len() && records.filter(low)[k] == records[i];
            records.lemma_filter_pred(low, k);
        }
        if score_of(records[i]) < min {
            records.lemma_filter_contains(low, i);
        }
    }
    lemma_filter_sizes(records, min);
    lemma_filter_all(records);
}

/// The records that reach a minimum and those below it are all records.
proof fn lemma_filter_sizes(records: Seq<IntentNodeView>, min: u64)
    ensures
        records.filter(scoring_at_least(min)).len() + records.filter(scoring_below(min)).len()
            == records.len(),
    decreases records.len(),
{
    reveal(Seq::filter);
    if records.len() > 0 {
        lemma_filter_sizes(records.drop_last(), min);
    }
}

/// Every record reaches the minimum 0.
proof fn lemma_filter_all(records: Seq<IntentNodeView>)
    ensures
        records.filter(scoring_at_least(0)) == records,
    decreases records.len(),
{
    reveal(Seq::filter);
    if records.len() > 0 {
        lemma_filter_all(records.drop_last());
        assert(records.drop_last().push(records.last()) =~= records);
    } else {
        assert(records.filter(scoring_at_least(0)) =~= records);
    }
}

/// A selection from records that stand in order of creation time stands in
/// that order too: every query returns its records oldest first.
pub proof fn lemma_selection_keeps_order(
    records: Seq<IntentNodeView>,
    pred: spec_fn(IntentNodeView) -> bool,
)
    requires
        time_sorted(records),
    ensures
        time_sorted(records.filter(pred)),
    decreases records.len(),
{
    reveal(Seq::filter);
    if records.len() > 0 {
        let init = records.drop_last();
        assert forall|i: int, j: int| 0 <= i < j < init.len() implies (#[trigger] init[i]).timestamp.at_or_before(
            (#[trigger] init[j]).timestamp,
        ) by {
            assert(init[i] == records[i] && init[j] == records[j]);
        }
        lemma_selection_keeps_order(init, pred);
        let kept = init.filter(pred);
        let all = records.filter(pred);
        if pred(records.last()) {
            assert forall|i: int, j: int| 0 <= i < j < all.len() implies (#[trigger] all[i]).timestamp.at_or_before(
                (#[trigger] all[j]).timestamp,
            ) by {
                assert(all[i] == kept[i]);
                if j < kept.len() {
                    assert(all[j] == kept[j]);
                } else {
                    assert(kept.contains(kept[i]));
                    init.lemma_filter_contains_rev(pred, kept[i]);
                    let a = choose|a: int| 0 <= a < init.len() && init[a] == kept[i];
                    assert(records[a] == kept[i]);
                    assert(records[a].timestamp.at_or_before(records[records.len() - 1].timestamp));
                }
            }
        }
    }
}

/// Publishing only adds: without the new record, the records are those
/// from before, in their order.
pub proof fn lemma_publish_only_adds(records: Seq<IntentNodeView>, node: IntentNodeView)
    requires
        time_sorted(records),
    ensures
        insert_by_time(records, node).remove(insertion_point(records, node.timestamp)) == records,
        insert_by_time(records, node).len() == records.len() + 1,
        insert_by_time(records, node)[insertion_point(records, node.timestamp)] == node,
{
    lemma_insertion_point(records, node.timestamp);
    let p = insertion_point(records, node.timestamp);
    assert(records.insert(p, node).remove(p) =~= records);
}

} // verus!
