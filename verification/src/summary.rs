//! Aggregate views of the graph: how many intents, which agents, and how
//! stable the intents are on the whole. Nothing here is stored; every call
//! derives its answer from the records.

use crate::graph::{score_of, GraphSummary, IntentGraph};
use crate::models::IntentNodeView;
use crate::text::{to_chars, views_of};
use vstd::prelude::*;

verus! {

/// The stability from which an intent counts as highly stable: 0.7.
pub const HIGH_STABILITY: u64 = 700_000;

/// Text `a` comes before text `b` in the order of their characters'
/// code points; a proper prefix comes before the longer text.
pub open spec fn text_less(a: Seq<char>, b: Seq<char>) -> bool
    decreases a.len(),
{
    if b.len() == 0 {
        false
    } else if a.len() == 0 {
        true
    } else if a[0] != b[0] {
        a[0] < b[0]
    } else {
        text_less(a.drop_first(), b.drop_first())
    }
}

/// Of two texts exactly one comes first, unless they are equal.
pub proof fn lemma_text_less_total(a: Seq<char>, b: Seq<char>)
    ensures
        a == b ==> !text_less(a, b) && !text_less(b, a),
        a != b ==> (text_less(a, b) <==> !text_less(b, a)),
    decreases a.len(),
{
    if a.len() == 0 || b.len() == 0 {
        if a.len() == 0 && b.len() == 0 {
            assert(a =~= b);
        }
    } else if a[0] != b[0] {
    } else {
        lemma_text_less_total(a.drop_first(), b.drop_first());
        if a.drop_first() == b.drop_first() {
            assert(a =~= seq![a[0]] + a.drop_first());
            assert(b =~= seq![b[0]] + b.drop_first());
        }
    }
}

/// The order of texts is transitive.
pub proof fn lemma_text_less_transitive(a: Seq<char>, b: Seq<char>, c: Seq<char>)
    requires
        text_less(a, b),
        text_less(b, c),
    ensures
        text_less(a, c),
    decreases a.len(),
{
    if a.len() > 0 && b.len() > 0 && c.len() > 0 {
        if a[0] == b[0] && b[0] == c[0] {
            lemma_text_less_transitive(a.drop_first(), b.drop_first(), c.drop_first());
        }
    }
}

/// The texts stand in strictly ascending order.
pub open spec fn strictly_ascending(texts: Seq<Seq<char>>) -> bool {
    forall|i: int, j: int| 0 <= i < j < texts.len() ==> text_less(#[trigger] texts[i], #[trigger] texts[j])
}

/// Some record was published by the agent.
pub open spec fn agent_present(records: Seq<IntentNodeView>, agent_id: Seq<char>) -> bool {
    exists|i: int| 0 <= i < records.len() && (#[trigger] records[i]).agent_id == agent_id
}

/// The sum of the computed stabilities of the records.
pub open spec fn total_stability(records: Seq<IntentNodeView>) -> nat
    decreases records.len(),
{
    if records.len() == 0 {
        0
    } else {
        total_stability(records.drop_last()) + score_of(records.last()) as nat
    }
}

/// The number of records of high stability.
pub open spec fn high_stability_total(records: Seq<IntentNodeView>) -> nat
    decreases records.len(),
{
    if records.len() == 0 {
        0
    } else {
        high_stability_total(records.drop_last()) + if score_of(records.last()) >= HIGH_STABILITY {
            1nat
        } else {
            0nat
        }
    }
}

/// The mean of the computed stabilities, rounded down; 0 without records.
pub open spec fn mean_stability(records: Seq<IntentNodeView>) -> nat {
    if records.len() == 0 {
        0
    } else {
        total_stability(records) / records.len()
    }
}

/// Whether `a` comes before `b` in the order of texts.
pub fn is_text_less(a: &Vec<char>, b: &Vec<char>) -> (r: bool)
    ensures
        r == text_less(a@, b@),
{
    let mut i: usize = 0;
    proof {
        assert(a@.skip(0) =~= a@);
        assert(b@.skip(0) =~= b@);
    }
    while i < a.len() && i < b.len()
        invariant
            i <= a.len(),
            i <= b.len(),
            text_less(a@, b@) == text_less(a@.skip(i as int), b@.skip(i as int)),
        decreases a.len() - i,
    {
        proof {
            assert(a@.skip(i as int).drop_first() =~= a@.skip(i + 1));
            assert(b@.skip(i as int).drop_first() =~= b@.skip(i + 1));
        }
        if a[i] != b[i] {
            return a[i] < b[i];
        }
        i += 1;
    }
    i < b.len()
}

/// Puts a text at its place in a strictly ascending list, unless the list
/// holds it already.
fn insert_ascending(list: &mut Vec<Vec<char>>, text: Vec<char>)
    requires
        strictly_ascending(views_of(old(list)@)),
    ensures
        strictly_ascending(views_of(final(list)@)),
        forall|t: Seq<char>| #[trigger]
            views_of(final(list)@).contains(t) <==> (views_of(old(list)@).contains(t) || t == text@),
{
    let ghost before = views_of(list@);
    let mut k: usize = 0;
    while k < list.len() && is_text_less(&list[k], &text)
        invariant
            k <= list.len(),
            before == views_of(list@),
            forall|q: int| 0 <= q < k ==> text_less(#[trigger] before[q], text@),
        decreases list.len() - k,
    {
        k += 1;
    }
    if k < list.len() {
        proof {
            lemma_text_less_total(before[k as int], text@);
        }
        if !is_text_less(&text, &list[k]) {
            assert(before[k as int] == text@);
            return ;
        }
    }
    let ghost new_text = text@;
    list.insert(k, text);
    proof {
        let after = views_of(list@);
        assert(after =~= before.insert(k as int, new_text));
        before.insert_ensures(k as int, new_text);
        assert forall|i: int, j: int| 0 <= i < j < after.len() implies text_less(
            #[trigger] after[i],
            #[trigger] after[j],
        ) by {
            let a = if i < k { i } else { i - 1 };
            let b = if j < k { j } else { j - 1 };
            if i == k {
                assert(after[j] == before[b]);
                if b > k {
                    assert(text_less(before[k as int], before[b]));
                    lemma_text_less_transitive(new_text, before[k as int], before[b]);
                }
            } else if j == k {
                assert(after[i] == before[a]);
            } else {
                assert(after[i] == before[a]);
                assert(after[j] == before[b]);
                assert(text_less(before[a], before[b]));
            }
        }
        assert forall|t: Seq<char>| #[trigger]
            after.contains(t) <==> (before.contains(t) || t == new_text) by {
            if after.contains(t) {
                let w = choose|w: int| 0 <= w < after.len() && after[w] == t;
                if w < k {
                    assert(before[w] == t);
                } else if w > k {
                    assert(after[w - 1 + 1] == before[w - 1]);
                    assert(before[w - 1] == t);
                }
            }
            if before.contains(t) {
                let w = choose|w: int| 0 <= w < before.len() && before[w] == t;
                if w < k {
                    assert(after[w] == t);
                } else {
                    assert(after[w + 1] == t);
                }
            }
            if t == new_text {
                assert(after[k as int] == t);
            }
        }
    }
}

impl IntentGraph {
    /// A summary of the graph: the number of intents, the agents that have
    /// published (each once, in ascending order), the mean computed
    /// stability and the number of intents of high stability.
    pub fn summary(&self) -> (s: GraphSummary)
        requires
            self.wf(),
        ensures
            s.total_intents == self@.records.len(),
            s.agent_count == s.agents@.len(),
            strictly_ascending(views_of(s.agents@)),
            forall|a: Seq<char>| #[trigger]
                views_of(s.agents@).contains(a) <==> agent_present(self@.records, a),
            s.average_stability == mean_stability(self@.records),
            s.high_stability_count == high_stability_total(self@.records),
    {
        let ghost nodes = self@.records;
        let n = self.records.len();
        let mut agents: Vec<Vec<char>> = Vec::new();
        let mut total: u128 = 0;
        let mut high: usize = 0;
        let mut i: usize = 0;
        proof {
            self.lemma_layout();
        }
        while i < n
            invariant
                self.wf(),
                i <= n == self.records.len(),
                nodes == self@.records,
                nodes.len() == n,
                strictly_ascending(views_of(agents@)),
                forall|a: Seq<char>| #[trigger]
                    views_of(agents@).contains(a) <==> agent_present(nodes.take(i as int), a),
                total == total_stability(nodes.take(i as int)),
                total <= i * 1_000_000,
                high == high_stability_total(nodes.take(i as int)),
                high <= i,
            decreases n - i,
        {
            let stored = &self.records[i];
            let ghost seen = views_of(agents@);
            proof {
                self.lemma_layout();
                assert(nodes.take(i + 1).drop_last() =~= nodes.take(i as int));
                assert(nodes.take(i + 1).last() == stored.node@);
            }
            let score = self.scorer.compute(&stored.node);
            assert(total + score <= (i + 1) * 1_000_000) by (nonlinear_arith)
                requires
                    total <= i * 1_000_000,
                    score <= 1_000_000,
            ;
            total += score as u128;
            if score >= HIGH_STABILITY {
                high += 1;
            }
            insert_ascending(&mut agents, to_chars(stored.node.agent_id.as_str()));
            proof {
                let agent = stored.node@.agent_id;
                assert forall|a: Seq<char>| #[trigger]
                    views_of(agents@).contains(a) <==> agent_present(nodes.take(i + 1), a) by {
                    if agent_present(nodes.take(i + 1), a) {
                        let w = choose|w: int|
                            0 <= w < i + 1 && (#[trigger] nodes.take(i + 1)[w]).agent_id == a;
                        if w < i {
                            assert(nodes.take(i as int)[w].agent_id == a);
                        }
                    }
                    if seen.contains(a) {
                        let w = choose|w: int|
                            0 <= w < i && (#[trigger] nodes.take(i as int)[w]).agent_id == a;
                        assert(nodes.take(i + 1)[w].agent_id == a);
                    }
                    if a == agent {
                        assert(nodes.take(i + 1)[i as int].agent_id == a);
                    }
                }
            }
            i += 1;
        }
        proof {
            assert(nodes.take(n as int) =~= nodes);
        }
        let mut names: Vec<String> = Vec::new();
        let mut k: usize = 0;
        while k < agents.len()
            invariant
                k <= agents.len(),
                views_of(names@) == views_of(agents@).take(k as int),
            decreases agents.len() - k,
        {
            let ghost before = views_of(names@);
            names.push(crate::text::from_chars(&agents[k]));
            proof {
                assert(views_of(names@) =~= before.push(agents@[k as int]@));
                assert(views_of(agents@).take(k + 1) =~= views_of(agents@).take(k as int).push(
                    agents@[k as int]@,
                ));
            }
            k += 1;
        }
        proof {
            assert(views_of(agents@).take(agents.len() as int) =~= views_of(agents@));
        }
        let average: u64 = if n == 0 {
            0
        } else {
            assert(total / (n as u128) <= 1_000_000) by (nonlinear_arith)
                requires
                    total <= n * 1_000_000,
                    n > 0,
            ;
            (total / (n as u128)) as u64
        };
        GraphSummary {
            total_intents: n,
            agent_count: names.len(),
            agents: names,
            average_stability: average,
            high_stability_count: high,
        }
    }
}

} // verus!
