//! Overlap discovery: which published intents of other agents touch the
//! same concepts as a given set of interfaces.
//!
//! The lookup runs in two phases. The first walks the secondary index and
//! selects candidate identifiers by a loose textual test, looking up no
//! more of a record than its stored stability. The second loads the
//! candidates and keeps those that structurally overlap. The first phase
//! never misses a true match, so the two together give exactly the intents
//! that a scan of all records would give.

use crate::graph::{
    entries_of, entry_for, lemma_selection_keeps_order, score_of, time_sorted, GraphView,
    IndexEntry, IndexEntryView, IntentGraph, InterfaceRole,
};
use crate::matching::{names_overlapping, normalize_name, normalized_name};
use crate::models::{
    has_text, shared_tag_count, IntentNode, IntentNodeView, InterfaceSpec, InterfaceSpecView,
};
use crate::text::{
    chars_contain, chars_equal, contains_seq, join, occurs_at, same_text, starts_with, to_chars,
    views_of,
};
use vstd::prelude::*;

verus! {

/// The interfaces of an intent: those it provides, then those it requires.
pub open spec fn all_specs(node: IntentNodeView) -> Seq<InterfaceSpecView> {
    node.provides + node.requires
}

/// One of the given interfaces structurally overlaps one of the intent's.
pub open spec fn overlaps_any(specs: Seq<InterfaceSpecView>, node: IntentNodeView) -> bool {
    exists|i: int, j: int|
        0 <= i < specs.len() && 0 <= j < all_specs(node).len() && (#[trigger] specs[i]).overlaps(
            #[trigger] all_specs(node)[j],
        )
}

/// The intents of agents other than `exclude`, of computed stability at
/// least `min`, that structurally overlap one of the given interfaces.
pub open spec fn overlapping(specs: Seq<InterfaceSpecView>, exclude: Seq<char>, min: u64) -> spec_fn(
    IntentNodeView,
) -> bool {
    |n: IntentNodeView| n.agent_id != exclude && score_of(n) >= min && overlaps_any(specs, n)
}

/// An indexed name is hit by a queried name: they are equal, or one occurs
/// within the other.
pub open spec fn name_hit(row_name: Seq<char>, query: Seq<char>) -> bool {
    row_name == query || contains_seq(row_name, query) || contains_seq(query, row_name)
}

/// The indexed tags are hit by an interface of at least two tags: one of
/// its tags occurs in their text.
pub open spec fn tag_hit(row_tags: Seq<char>, tags: Seq<Seq<char>>) -> bool {
    tags.len() >= 2 && exists|k: int| 0 <= k < tags.len() && contains_seq(row_tags, #[trigger] tags[k])
}

/// The index row is selected by the interface, by name or by tags.
pub open spec fn row_selected(row: IndexEntryView, spec: InterfaceSpecView) -> bool {
    name_hit(row.normalized_name, normalized_name(spec.name)) || tag_hit(row.tags, spec.tags)
}

/// The index row is a candidate row: it belongs to another agent, one of
/// the interfaces selects it, and the record it points to has a computed
/// stability of at least `min`.
pub open spec fn candidate_row(
    records: Seq<IntentNodeView>,
    row: IndexEntryView,
    specs: Seq<InterfaceSpecView>,
    exclude: Seq<char>,
    min: u64,
) -> bool {
    &&& row.agent_id != exclude
    &&& exists|i: int| 0 <= i < specs.len() && row_selected(row, #[trigger] specs[i])
    &&& exists|i: int|
        0 <= i < records.len() && (#[trigger] records[i]).id == row.intent_id && score_of(
            records[i],
        ) >= min
}

/// The identifier is a candidate: some candidate row of the index carries
/// it.
pub open spec fn candidate_id(
    graph: GraphView,
    id: Seq<char>,
    specs: Seq<InterfaceSpecView>,
    exclude: Seq<char>,
    min: u64,
) -> bool {
    exists|r: int|
        0 <= r < graph.index.len() && (#[trigger] graph.index[r]).intent_id == id && candidate_row(
            graph.records,
            graph.index[r],
            specs,
            exclude,
            min,
        )
}

/// The candidate identifiers that the first `n` rows of the index give:
/// each in the place of the first candidate row that carries it.
pub open spec fn candidate_ids_among(
    graph: GraphView,
    specs: Seq<InterfaceSpecView>,
    exclude: Seq<char>,
    min: u64,
    n: int,
) -> Seq<Seq<char>>
    decreases n,
{
    if n <= 0 {
        Seq::empty()
    } else {
        let before = candidate_ids_among(graph, specs, exclude, min, n - 1);
        let row = graph.index[n - 1];
        if candidate_row(graph.records, row, specs, exclude, min) && !before.contains(
            row.intent_id,
        ) {
            before.push(row.intent_id)
        } else {
            before
        }
    }
}

/// A part of a joined text occurs in it.
pub proof fn lemma_join_contains(parts: Seq<Seq<char>>, sep: Seq<char>, part: Seq<char>)
    requires
        parts.contains(part),
    ensures
        contains_seq(join(parts, sep), part),
    decreases parts.len(),
{
    let k = choose|k: int| 0 <= k < parts.len() && parts[k] == part;
    if parts.len() == 1 {
        assert(join(parts, sep).subrange(0, part.len() as int) =~= part);
        assert(occurs_at(join(parts, sep), part, 0));
    } else {
        let init = parts.drop_last();
        let whole = join(parts, sep);
        assert(whole == join(init, sep) + sep + parts.last());
        if k == parts.len() - 1 {
            let at = whole.len() - part.len();
            assert(whole.subrange(at, at + part.len()) =~= part);
            assert(occurs_at(whole, part, at));
        } else {
            assert(init[k] == part);
            lemma_join_contains(init, sep, part);
            let at = choose|at: int| occurs_at(join(init, sep), part, at);
            assert(whole.subrange(at, at + part.len()) =~= join(init, sep).subrange(
                at,
                at + part.len(),
            ));
            assert(occurs_at(whole, part, at));
        }
    }
}

/// Where at least one tag is shared, some tag of `mine` occurs among
/// `theirs`; and no more tags are shared than `mine` has.
pub proof fn lemma_shared_tags(mine: Seq<Seq<char>>, theirs: Seq<Seq<char>>)
    ensures
        shared_tag_count(mine, theirs) <= mine.len(),
        shared_tag_count(mine, theirs) > 0 ==> exists|k: int|
            0 <= k < mine.len() && theirs.contains(#[trigger] mine[k]),
    decreases mine.len(),
{
    if mine.len() > 0 {
        lemma_shared_tags(mine.drop_last(), theirs);
        if theirs.contains(mine.last()) {
            assert(theirs.contains(mine[mine.len() - 1]));
        } else if shared_tag_count(mine, theirs) > 0 {
            let k = choose|k: int|
                0 <= k < mine.drop_last().len() && theirs.contains(#[trigger] mine.drop_last()[k]);
            assert(theirs.contains(mine[k]));
        }
    }
}

/// The index row of an interface is selected by every interface that
/// structurally overlaps it.
pub proof fn lemma_overlap_selects_row(
    node: IntentNodeView,
    role: InterfaceRole,
    theirs: InterfaceSpecView,
    mine: InterfaceSpecView,
)
    requires
        mine.overlaps(theirs),
    ensures
        row_selected(entry_for(node, role, theirs), mine),
{
    let row = entry_for(node, role, theirs);
    if names_overlapping(mine.name, theirs.name) {
        let na = normalized_name(mine.name);
        let nb = normalized_name(theirs.name);
        if starts_with(na, nb) {
            assert(occurs_at(na, nb, 0));
        }
        if starts_with(nb, na) {
            assert(occurs_at(nb, na, 0));
        }
        assert(name_hit(nb, na));
    } else {
        lemma_shared_tags(mine.tags, theirs.tags);
        let k = choose|k: int| 0 <= k < mine.tags.len() && theirs.tags.contains(#[trigger] mine.tags[k]);
        lemma_join_contains(theirs.tags, " "@, mine.tags[k]);
        assert(tag_hit(row.tags, mine.tags));
    }
}

/// The first phase is sound and complete for the second: in a consistent
/// graph every record that the lookup is to return has a candidate
/// identifier, and every record with a candidate identifier belongs to
/// another agent than the excluded one.
pub proof fn lemma_candidates_cover(
    graph: GraphView,
    specs: Seq<InterfaceSpecView>,
    exclude: Seq<char>,
    min: u64,
    i: int,
)
    requires
        graph.consistent(),
        0 <= i < graph.records.len(),
    ensures
        overlapping(specs, exclude, min)(graph.records[i]) ==> candidate_id(
            graph,
            graph.records[i].id,
            specs,
            exclude,
            min,
        ),
        candidate_id(graph, graph.records[i].id, specs, exclude, min) ==> graph.records[i].agent_id
            != exclude,
{
    let node = graph.records[i];
    if overlapping(specs, exclude, min)(node) {
        let (a, b) = choose|a: int, b: int|
            0 <= a < specs.len() && 0 <= b < all_specs(node).len() && (#[trigger] specs[a]).overlaps(
                #[trigger] all_specs(node)[b],
            );
        let role = if b < node.provides.len() {
            InterfaceRole::Provides
        } else {
            InterfaceRole::Requires
        };
        let theirs = all_specs(node)[b];
        let row = entry_for(node, role, theirs);
        assert(entries_of(node)[b] == row);
        assert(entries_of(node).contains(row));
        assert(crate::graph::row_of_some_record(graph.records, row));
        assert(graph.index.contains(row));
        let r = choose|r: int| 0 <= r < graph.index.len() && graph.index[r] == row;
        lemma_overlap_selects_row(node, role, theirs, specs[a]);
        assert(candidate_row(graph.records, graph.index[r], specs, exclude, min));
    }
    if candidate_id(graph, node.id, specs, exclude, min) {
        let r = choose|r: int|
            0 <= r < graph.index.len() && (#[trigger] graph.index[r]).intent_id == node.id
                && candidate_row(graph.records, graph.index[r], specs, exclude, min);
        let row = graph.index[r];
        assert(graph.index.contains(row));
        assert(crate::graph::row_of_some_record(graph.records, row));
        let k = choose|k: int|
            0 <= k < graph.records.len() && entries_of(#[trigger] graph.records[k]).contains(row);
        let e = choose|e: int|
            0 <= e < entries_of(graph.records[k]).len() && entries_of(graph.records[k])[e] == row;
        assert(row.intent_id == graph.records[k].id && row.agent_id == graph.records[k].agent_id);
        if k != i {
            if k < i {
                assert(graph.records[k].id != graph.records[i].id);
            } else {
                assert(graph.records[i].id != graph.records[k].id);
            }
        }
    }
}

/// Whether the interface structurally overlaps one of the list.
fn overlaps_one_of(mine: &InterfaceSpec, theirs: &Vec<InterfaceSpec>) -> (r: bool)
    ensures
        r == exists|j: int| 0 <= j < theirs@.len() && mine@.overlaps(#[trigger] views_of(theirs@)[j]),
{
    let mut j: usize = 0;
    while j < theirs.len()
        invariant
            j <= theirs.len(),
            forall|k: int| 0 <= k < j ==> !mine@.overlaps(#[trigger] views_of(theirs@)[k]),
        decreases theirs.len() - j,
    {
        if mine.structurally_overlaps(&theirs[j]) {
            assert(mine@.overlaps(views_of(theirs@)[j as int]));
            return true;
        }
        j += 1;
    }
    false
}

/// Whether one of the given interfaces structurally overlaps one that the
/// intent provides or requires.
pub fn any_overlap(specs: &[InterfaceSpec], node: &IntentNode) -> (r: bool)
    ensures
        r == overlaps_any(views_of(specs@), node@),
{
    let mut i: usize = 0;
    while i < specs.len()
        invariant
            i <= specs.len(),
            forall|a: int, b: int|
                0 <= a < i && 0 <= b < all_specs(node@).len() ==> !(#[trigger] views_of(
                    specs@,
                )[a]).overlaps(#[trigger] all_specs(node@)[b]),
        decreases specs.len() - i,
    {
        let mine = &specs[i];
        assert(views_of(specs@)[i as int] == mine@);
        if overlaps_one_of(mine, &node.provides) {
            proof {
                let j = choose|j: int|
                    0 <= j < node.provides@.len() && mine@.overlaps(
                        #[trigger] views_of(node.provides@)[j],
                    );
                assert(all_specs(node@)[j] == views_of(node.provides@)[j]);
            }
            return true;
        }
        if overlaps_one_of(mine, &node.requires) {
            proof {
                let j = choose|j: int|
                    0 <= j < node.requires@.len() && mine@.overlaps(
                        #[trigger] views_of(node.requires@)[j],
                    );
                assert(all_specs(node@)[node@.provides.len() + j] == views_of(node.requires@)[j]);
            }
            return true;
        }
        proof {
            assert forall|b: int| 0 <= b < all_specs(node@).len() implies !mine@.overlaps(
                #[trigger] all_specs(node@)[b],
            ) by {
                if b < node@.provides.len() {
                    assert(all_specs(node@)[b] == views_of(node.provides@)[b]);
                } else {
                    assert(all_specs(node@)[b] == views_of(node.requires@)[b - node@.provides.len()]);
                }
            }
        }
        i += 1;
    }
    false
}

/// Whether the indexed tags are hit by the tags of an interface.
fn tags_hit(row_tags: &Vec<char>, tags: &Vec<String>) -> (r: bool)
    ensures
        r == tag_hit(row_tags@, views_of(tags@)),
{
    if tags.len() < 2 {
        return false;
    }
    let mut k: usize = 0;
    while k < tags.len()
        invariant
            2 <= tags.len(),
            k <= tags.len(),
            forall|q: int| 0 <= q < k ==> !contains_seq(row_tags@, #[trigger] views_of(tags@)[q]),
        decreases tags.len() - k,
    {
        let tag = to_chars(tags[k].as_str());
        if chars_contain(row_tags, &tag) {
            assert(contains_seq(row_tags@, views_of(tags@)[k as int]));
            return true;
        }
        k += 1;
    }
    false
}

/// Whether one of the interfaces selects the index row; `queries` holds
/// the normal forms of their names.
fn row_selected_by_any(row: &IndexEntry, queries: &Vec<Vec<char>>, specs: &[InterfaceSpec]) -> (r:
    bool)
    requires
        queries@.len() == specs@.len(),
        forall|i: int|
            0 <= i < specs@.len() ==> (#[trigger] queries@[i])@ == normalized_name(specs@[i]@.name),
    ensures
        r == exists|i: int| 0 <= i < specs@.len() && row_selected(row@, #[trigger] views_of(specs@)[i]),
{
    let name = to_chars(row.normalized_name.as_str());
    let tags = to_chars(row.tags.as_str());
    let mut i: usize = 0;
    while i < specs.len()
        invariant
            i <= specs.len(),
            queries@.len() == specs@.len(),
            forall|i: int|
                0 <= i < specs@.len() ==> (#[trigger] queries@[i])@ == normalized_name(
                    specs@[i]@.name,
                ),
            name@ == row@.normalized_name,
            tags@ == row@.tags,
            forall|k: int| 0 <= k < i ==> !row_selected(row@, #[trigger] views_of(specs@)[k]),
        decreases specs.len() - i,
    {
        let query = &queries[i];
        assert(query@ == normalized_name(views_of(specs@)[i as int].name));
        let hit = chars_equal(&name, query) || chars_contain(&name, query) || chars_contain(
            query,
            &name,
        ) || tags_hit(&tags, &specs[i].tags);
        if hit {
            assert(row_selected(row@, views_of(specs@)[i as int]));
            return true;
        }
        i += 1;
    }
    false
}

impl IntentGraph {
    /// Whether the record of that identifier has a computed stability of
    /// at least `min`.
    fn stability_by_id(&self, id: &String, min: u64) -> (r: bool)
        requires
            self.wf(),
        ensures
            r == exists|i: int|
                0 <= i < self@.records.len() && (#[trigger] self@.records[i]).id == id@ && score_of(
                    self@.records[i],
                ) >= min,
    {
        let mut i: usize = 0;
        proof {
            self.lemma_layout();
        }
        while i < self.records.len()
            invariant
                self.wf(),
                i <= self.records.len(),
                forall|k: int|
                    0 <= k < i ==> !((#[trigger] self@.records[k]).id == id@ && score_of(
                        self@.records[k],
                    ) >= min),
            decreases self.records.len() - i,
        {
            proof {
                self.lemma_layout();
            }
            assert(self@.records[i as int] == self.records@[i as int].node@);
            if self.records[i].node.id == *id && self.records[i].computed_stability >= min {
                return true;
            }
            i += 1;
        }
        false
    }

    /// The first phase of the overlap lookup: the identifiers, each once,
    /// that the candidate rows of the index carry.
    pub fn candidate_ids(&self, specs: &[InterfaceSpec], exclude_agent: &str, min_stability: u64) -> (out:
        Vec<String>)
        requires
            self.wf(),
        ensures
            views_of(out@) == candidate_ids_among(
                self@,
                views_of(specs@),
                exclude_agent@,
                min_stability,
                self@.index.len() as int,
            ),
            views_of(out@).no_duplicates(),
            forall|id: Seq<char>| #[trigger]
                views_of(out@).contains(id) <==> candidate_id(
                    self@,
                    id,
                    views_of(specs@),
                    exclude_agent@,
                    min_stability,
                ),
    {
        let mut queries: Vec<Vec<char>> = Vec::new();
        let mut q: usize = 0;
        while q < specs.len()
            invariant
                q <= specs.len(),
                queries@.len() == q,
                forall|i: int|
                    0 <= i < q ==> (#[trigger] queries@[i])@ == normalized_name(specs@[i]@.name),
            decreases specs.len() - q,
        {
            let normal = normalize_name(specs[q].name.as_str());
            queries.push(to_chars(normal.as_str()));
            q += 1;
        }
        let ghost graph = self@;
        let ghost wanted = views_of(specs@);
        let mut out: Vec<String> = Vec::new();
        let mut r: usize = 0;
        proof {
            self.lemma_layout();
            assert(views_of(out@) =~= candidate_ids_among(
                graph,
                wanted,
                exclude_agent@,
                min_stability,
                0,
            ));
        }
        while r < self.index.len()
            invariant
                self.wf(),
                graph == self@,
                graph.index.len() == self.index@.len(),
                wanted == views_of(specs@),
                r <= self.index.len(),
                queries@.len() == specs@.len(),
                forall|i: int|
                    0 <= i < specs@.len() ==> (#[trigger] queries@[i])@ == normalized_name(
                        specs@[i]@.name,
                    ),
                views_of(out@) == candidate_ids_among(
                    graph,
                    wanted,
                    exclude_agent@,
                    min_stability,
                    r as int,
                ),
                views_of(out@).no_duplicates(),
                forall|id: Seq<char>| #[trigger]
                    views_of(out@).contains(id) <==> exists|k: int|
                        0 <= k < r && (#[trigger] graph.index[k]).intent_id == id && candidate_row(
                            graph.records,
                            graph.index[k],
                            wanted,
                            exclude_agent@,
                            min_stability,
                        ),
            decreases self.index.len() - r,
        {
            let row = &self.index[r];
            proof {
                self.lemma_layout();
            }
            assert(graph.index[r as int] == row@);
            let is_candidate = !same_text(row.agent_id.as_str(), exclude_agent)
                && row_selected_by_any(row, &queries, specs) && self.stability_by_id(
                &row.intent_id,
                min_stability,
            );
            assert(is_candidate == candidate_row(
                graph.records,
                row@,
                wanted,
                exclude_agent@,
                min_stability,
            ));
            let ghost before = views_of(out@);
            if is_candidate && !has_text(&out, &row.intent_id) {
                out.push(row.intent_id.clone());
                proof {
                    assert(views_of(out@) =~= before.push(row@.intent_id));
                }
            }
            proof {
                let after = views_of(out@);
                assert forall|id: Seq<char>| #[trigger]
                    after.contains(id) <==> exists|k: int|
                        0 <= k < r + 1 && (#[trigger] graph.index[k]).intent_id == id
                            && candidate_row(
                            graph.records,
                            graph.index[k],
                            wanted,
                            exclude_agent@,
                            min_stability,
                        ) by {
                    if after.contains(id) {
                        if before.contains(id) {
                            let k = choose|k: int|
                                0 <= k < r && (#[trigger] graph.index[k]).intent_id == id
                                    && candidate_row(
                                    graph.records,
                                    graph.index[k],
                                    wanted,
                                    exclude_agent@,
                                    min_stability,
                                );
                            assert(0 <= k < r + 1);
                        } else {
                            let w = choose|w: int| 0 <= w < after.len() && after[w] == id;
                            if w < before.len() {
                                assert(before[w] == id);
                            }
                            assert(id == row@.intent_id);
                            assert(graph.index[r as int].intent_id == id);
                        }
                    }
                    if exists|k: int|
                        0 <= k < r + 1 && (#[trigger] graph.index[k]).intent_id == id
                            && candidate_row(
                            graph.records,
                            graph.index[k],
                            wanted,
                            exclude_agent@,
                            min_stability,
                        ) {
                        let k = choose|k: int|
                            0 <= k < r + 1 && (#[trigger] graph.index[k]).intent_id == id
                                && candidate_row(
                                graph.records,
                                graph.index[k],
                                wanted,
                                exclude_agent@,
                                min_stability,
                            );
                        if k < r {
                            assert(before.contains(id));
                            let w = choose|w: int| 0 <= w < before.len() && before[w] == id;
                            assert(after[w] == id);
                        } else {
                            if before.contains(id) {
                                let w = choose|w: int| 0 <= w < before.len() && before[w] == id;
                                assert(after[w] == id);
                            } else {
                                assert(after[after.len() - 1] == id);
                            }
                        }
                    }
                }
            }
            r += 1;
        }
        out
    }

    /// The intents of other agents that overlap the given interfaces: those
    /// not published by `exclude_agent`, of computed stability at least
    /// `min_stability`, of which some interface, provided or required,
    /// structurally overlaps one of `specs`; in order of creation time.
    /// Without interfaces to look for the result is empty.
    pub fn find_overlapping(&self, specs: &[InterfaceSpec], exclude_agent: &str, min_stability: u64) -> (out:
        Vec<IntentNode>)
        requires
            self.wf(),
        ensures
            views_of(out@) == self@.records.filter(
                overlapping(views_of(specs@), exclude_agent@, min_stability),
            ),
            time_sorted(views_of(out@)),
            forall|k: int| 0 <= k < out@.len() ==> (#[trigger] out@[k])@.agent_id != exclude_agent@,
    {
        let ghost nodes = self@.records;
        let ghost wanted = views_of(specs@);
        let ghost pred = overlapping(wanted, exclude_agent@, min_stability);
        let mut out: Vec<IntentNode> = Vec::new();
        if specs.len() == 0 {
            proof {
                assert forall|i: int| 0 <= i < nodes.len() implies !pred(#[trigger] nodes[i]) by {}
                nodes.lemma_all_neg_filter_empty(pred);
                assert(views_of(out@) =~= nodes.filter(pred));
            }
            return out;
        }
        let candidates = self.candidate_ids(specs, exclude_agent, min_stability);
        if candidates.len() == 0 {
            proof {
                assert forall|i: int| 0 <= i < nodes.len() implies !pred(#[trigger] nodes[i]) by {
                    lemma_candidates_cover(self@, wanted, exclude_agent@, min_stability, i);
                    if pred(nodes[i]) {
                        assert(views_of(candidates@).contains(nodes[i].id));
                    }
                }
                nodes.lemma_all_neg_filter_empty(pred);
                assert(views_of(out@) =~= nodes.filter(pred));
            }
            return out;
        }
        let mut i: usize = 0;
        proof {
            reveal(Seq::filter);
            assert(views_of(out@) =~= nodes.take(0).filter(pred));
        }
        while i < self.records.len()
            invariant
                self.wf(),
                i <= self.records.len(),
                nodes == self@.records,
                wanted == views_of(specs@),
                pred == overlapping(wanted, exclude_agent@, min_stability),
                forall|id: Seq<char>| #[trigger]
                    views_of(candidates@).contains(id) <==> candidate_id(
                        self@,
                        id,
                        wanted,
                        exclude_agent@,
                        min_stability,
                    ),
                views_of(out@) == nodes.take(i as int).filter(pred),
            decreases self.records.len() - i,
        {
            let ghost before = views_of(out@);
            let stored = &self.records[i];
            proof {
                self.lemma_layout();
                assert(nodes.take(i + 1) =~= nodes.take(i as int).push(nodes[i as int]));
                nodes.take(i as int).lemma_filter_push(nodes[i as int], pred);
                assert(nodes[i as int] == stored.node@);
                lemma_candidates_cover(self@, wanted, exclude_agent@, min_stability, i as int);
            }
            if stored.computed_stability >= min_stability && has_text(&candidates, &stored.node.id)
                && any_overlap(specs, &stored.node) {
                let node = stored.node.clone();
                out.push(node);
                proof {
                    assert(views_of(out@) =~= before.push(nodes[i as int]));
                }
            }
            i += 1;
        }
        proof {
            self.lemma_layout();
            assert(nodes.take(self.records.len() as int) =~= nodes);
            lemma_selection_keeps_order(nodes, pred);
            lemma_own_records_excluded(nodes, wanted, exclude_agent@, min_stability);
            assert forall|k: int| 0 <= k < out@.len() implies (#[trigger] out@[k])@.agent_id
                != exclude_agent@ by {
                assert(views_of(out@)[k] == out@[k]@);
            }
        }
        out
    }
}

/// The overlap lookup returns no intent of the excluded agent. Where every
/// record is the excluded agent's own, as when an agent asks with the
/// interfaces of its own intents, the lookup returns nothing.
pub proof fn lemma_own_records_excluded(
    records: Seq<IntentNodeView>,
    specs: Seq<InterfaceSpecView>,
    exclude: Seq<char>,
    min: u64,
)
    ensures
        forall|k: int|
            0 <= k < records.filter(overlapping(specs, exclude, min)).len() ==> (#[trigger] records.filter(
                overlapping(specs, exclude, min),
            )[k]).agent_id != exclude,
        (forall|i: int| 0 <= i < records.len() ==> (#[trigger] records[i]).agent_id == exclude)
            ==> records.filter(overlapping(specs, exclude, min)).len() == 0,
{
    let pred = overlapping(specs, exclude, min);
    assert forall|k: int| 0 <= k < records.filter(pred).len() implies (#[trigger] records.filter(
        pred,
    )[k]).agent_id != exclude by {
        records.lemma_filter_pred(pred, k);
    }
    if forall|i: int| 0 <= i < records.len() ==> (#[trigger] records[i]).agent_id == exclude {
        assert forall|i: int| 0 <= i < records.len() implies !pred(#[trigger] records[i]) by {}
        records.lemma_all_neg_filter_empty(pred);
    }
}

/// The overlap lookup returns every intent of another agent, of sufficient
/// stability, that has an interface whose name overlaps the name of one of
/// the given interfaces once both are normalized.
pub proof fn lemma_overlapping_name_found(
    records: Seq<IntentNodeView>,
    specs: Seq<InterfaceSpecView>,
    exclude: Seq<char>,
    min: u64,
    i: int,
    mine: int,
    theirs: int,
)
    requires
        0 <= i < records.len(),
        0 <= mine < specs.len(),
        0 <= theirs < all_specs(records[i]).len(),
        names_overlapping(specs[mine].name, all_specs(records[i])[theirs].name),
        records[i].agent_id != exclude,
        score_of(records[i]) >= min,
    ensures
        records.filter(overlapping(specs, exclude, min)).contains(records[i]),
{
    let pred = overlapping(specs, exclude, min);
    assert(specs[mine].overlaps(all_specs(records[i])[theirs]));
    assert(pred(records[i]));
    records.lemma_filter_contains(pred, i);
}

} // verus!
