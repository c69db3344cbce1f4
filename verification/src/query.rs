//! The query engine: a recursive boolean expression tree over the store's
//! current state, evaluated to a duplicate-free list of matching thought
//! ids.

use vstd::prelude::*;

use crate::entities::Thought;
use crate::graph::ThoughtGraph;
use crate::graph::kv_keys_unique;
use crate::graph::lemma_kv_map_contains;
use crate::graph::lemma_kv_map_index;
use crate::graph::lemma_push_contains;
use crate::graph::lemma_push_no_dups;
use crate::graph::views_no_dups;
use crate::ids::TagID;
use crate::ids::ThoughtID;
use crate::ids::id_views;
use crate::ids::ids_contain;

verus! {

/// Query operations for retrieving thoughts from the graph.
///
/// A query is a recursive tagged expression; evaluation never errors, and
/// an unmatched condition simply yields the empty set.
pub enum Query {
    /// Thoughts carrying the given tag. A tag id absent from the tag map
    /// matches nothing, even if some thought's tag list still names it.
    Tag(TagID),
    /// Thoughts that reference the given id: exactly the back-reference
    /// index entry, whether or not the id names a stored thought.
    References(ThoughtID),
    /// Thoughts referenced by the given thought, restricted to targets that
    /// are themselves stored thoughts. An id that names no stored thought
    /// matches nothing.
    ReferencedBy(ThoughtID),
    /// Thoughts matching all the sub-queries; the empty conjunction
    /// matches nothing.
    And(Vec<Box<Query>>),
    /// Thoughts matching any of the sub-queries; the empty disjunction
    /// matches nothing.
    Or(Vec<Box<Query>>),
}

impl ThoughtGraph {
    /// The set of thought ids matching a query against this graph.
    pub open spec fn spec_query(&self, q: Query) -> Set<Seq<char>>
        decreases q, 1int,
    {
        match q {
            Query::Tag(tag) => {
                if self.tags_map().contains_key(tag@) {
                    Set::new(
                        |s: Seq<char>|
                            self.thoughts_map().contains_key(s) && self.thoughts_map()[s].has_tag(
                                tag@,
                            ),
                    )
                } else {
                    Set::empty()
                }
            },
            Query::References(t) => self.backlink_set(t@),
            Query::ReferencedBy(s) => {
                if self.thoughts_map().contains_key(s@) {
                    Set::new(
                        |t: Seq<char>|
                            self.thoughts_map().contains_key(t)
                                && self.thoughts_map()[s@].references_target(t),
                    )
                } else {
                    Set::empty()
                }
            },
            Query::And(qs) => {
                if qs@.len() == 0 {
                    Set::empty()
                } else {
                    self.query_all(qs@, qs@.len() as int)
                }
            },
            Query::Or(qs) => self.query_any(qs@, qs@.len() as int),
        }
    }

    /// The intersection of the results of the first `n` sub-queries.
    pub open spec fn query_all(&self, qs: Seq<Box<Query>>, n: int) -> Set<Seq<char>>
        decreases qs, n,
    {
        if 1 <= n <= qs.len() {
            if n == 1 {
                self.spec_query(*qs[0])
            } else {
                self.query_all(qs, n - 1).intersect(self.spec_query(*qs[n - 1]))
            }
        } else {
            Set::empty()
        }
    }

    /// The union of the results of the first `n` sub-queries.
    pub open spec fn query_any(&self, qs: Seq<Box<Query>>, n: int) -> Set<Seq<char>>
        decreases qs, n,
    {
        if 1 <= n <= qs.len() {
            self.query_any(qs, n - 1).union(self.spec_query(*qs[n - 1]))
        } else {
            Set::empty()
        }
    }

    /// Membership in the conjunction is membership in every sub-query
    /// result.
    pub proof fn lemma_query_all_char(&self, qs: Seq<Box<Query>>, n: int, x: Seq<char>)
        requires
            1 <= n <= qs.len(),
        ensures
            self.query_all(qs, n).contains(x) <==> (forall|i: int|
                0 <= i < n ==> #[trigger] self.spec_query(*qs[i]).contains(x)),
        decreases n,
    {
        if n == 1 {
            assert(self.query_all(qs, 1) == self.spec_query(*qs[0]));
            if self.query_all(qs, n).contains(x) {
                assert forall|i: int|
                    0 <= i < n implies #[trigger] self.spec_query(*qs[i]).contains(x) by {
                    assert(i == 0);
                }
            }
            if forall|i: int| 0 <= i < n ==> #[trigger] self.spec_query(*qs[i]).contains(x) {
                assert(self.spec_query(*qs[0]).contains(x));
            }
        } else {
            self.lemma_query_all_char(qs, n - 1, x);
            if self.query_all(qs, n).contains(x) {
                assert(self.query_all(qs, n - 1).contains(x));
                assert(self.spec_query(*qs[n - 1]).contains(x));
                assert forall|i: int|
                    0 <= i < n implies #[trigger] self.spec_query(*qs[i]).contains(x) by {
                    if i < n - 1 {
                    } else {
                        assert(i == n - 1);
                    }
                }
            }
            if forall|i: int| 0 <= i < n ==> #[trigger] self.spec_query(*qs[i]).contains(x) {
                assert(self.spec_query(*qs[n - 1]).contains(x));
                assert(self.query_all(qs, n - 1).contains(x));
                assert(self.query_all(qs, n).contains(x));
            }
        }
    }

    /// Membership in the disjunction is membership in some sub-query
    /// result.
    pub proof fn lemma_query_any_char(&self, qs: Seq<Box<Query>>, n: int, x: Seq<char>)
        requires
            0 <= n <= qs.len(),
        ensures
            self.query_any(qs, n).contains(x) <==> (exists|i: int|
                0 <= i < n && #[trigger] self.spec_query(*qs[i]).contains(x)),
        decreases n,
    {
        if n > 0 {
            self.lemma_query_any_char(qs, n - 1, x);
            if self.query_any(qs, n).contains(x) {
                if self.query_any(qs, n - 1).contains(x) {
                    let i = choose|i: int|
                        0 <= i < n - 1 && #[trigger] self.spec_query(*qs[i]).contains(x);
                    assert(0 <= i < n && self.spec_query(*qs[i]).contains(x));
                } else {
                    assert(self.spec_query(*qs[n - 1]).contains(x));
                }
            }
            if exists|i: int| 0 <= i < n && #[trigger] self.spec_query(*qs[i]).contains(x) {
                let i = choose|i: int|
                    0 <= i < n && #[trigger] self.spec_query(*qs[i]).contains(x);
                if i < n - 1 {
                    assert(self.query_any(qs, n - 1).contains(x));
                }
                assert(self.query_any(qs, n).contains(x));
            }
        }
    }

    /// Evaluates a query against the current state of the graph.
    ///
    /// Pure: the graph is only read. The result lists each matching
    /// thought id exactly once.
    pub fn query(&self, query: &Query) -> (r: Vec<ThoughtID>)
        requires
            self.wf(),
        ensures
            views_no_dups(id_views(r@)),
            id_views(r@).to_set() == self.spec_query(*query),
        decreases *query,
    {
        match query {
            Query::Tag(tag_id) => self.query_tag(tag_id),
            Query::References(thought_id) => self.query_references(thought_id),
            Query::ReferencedBy(thought_id) => self.query_referenced_by(thought_id),
            Query::And(subqueries) => {
                if subqueries.len() == 0 {
                    let r: Vec<ThoughtID> = Vec::new();
                    proof {
                        assert(id_views(r@).to_set() =~= Set::<Seq<char>>::empty());
                    }
                    r
                } else {
                    proof {
                        assert(decreases_to!(*query => query->And_0));
                        assert(decreases_to!(query->And_0 => subqueries@));
                        assert(decreases_to!(subqueries@ => subqueries@[0]));
                        assert(decreases_to!(*query => *subqueries@[0]));
                    }
                    let mut acc = self.query(&subqueries[0]);
                    proof {
                        assert(id_views(acc@).to_set() == self.spec_query(*subqueries@[0]));
                        assert(id_views(acc@).to_set() == self.query_all(subqueries@, 1));
                    }
                    let mut k: usize = 1;
                    while k < subqueries.len()
                        invariant
                            1 <= k <= subqueries@.len(),
                            self.wf(),
                            views_no_dups(id_views(acc@)),
                            id_views(acc@).to_set() == self.query_all(subqueries@, k as int),
                            (*query == Query::And(*subqueries)),
                        decreases subqueries@.len() - k,
                    {
                        proof {
                            assert(decreases_to!(*query => query->And_0));
                            assert(decreases_to!(query->And_0 => subqueries@));
                            assert(decreases_to!(subqueries@ => subqueries@[k as int]));
                            assert(decreases_to!(*query => *subqueries@[k as int]));
                        }
                        let rk = self.query(&subqueries[k]);
                        proof {
                            assert(id_views(rk@).to_set() == self.spec_query(
                                *subqueries@[k as int],
                            ));
                        }
                        acc = intersect_ids(&acc, &rk);
                        proof {
                            assert(self.query_all(subqueries@, k as int + 1)
                                == self.query_all(subqueries@, k as int).intersect(
                                self.spec_query(*subqueries@[k as int]),
                            ));
                        }
                        k = k + 1;
                    }
                    acc
                }
            },
            Query::Or(subqueries) => {
                let mut acc: Vec<ThoughtID> = Vec::new();
                proof {
                    assert(id_views(acc@).to_set() =~= self.query_any(subqueries@, 0));
                }
                let mut k: usize = 0;
                while k < subqueries.len()
                    invariant
                        0 <= k <= subqueries@.len(),
                        self.wf(),
                        views_no_dups(id_views(acc@)),
                        id_views(acc@).to_set() == self.query_any(subqueries@, k as int),
                        (*query == Query::Or(*subqueries)),
                    decreases subqueries@.len() - k,
                {
                    proof {
                        assert(decreases_to!(*query => query->Or_0));
                        assert(decreases_to!(query->Or_0 => subqueries@));
                        assert(decreases_to!(subqueries@ => subqueries@[k as int]));
                        assert(decreases_to!(*query => *subqueries@[k as int]));
                    }
                    let rk = self.query(&subqueries[k]);
                    proof {
                        assert(id_views(rk@).to_set() == self.spec_query(*subqueries@[k as int]));
                    }
                    union_ids(&mut acc, &rk);
                    proof {
                        assert(self.query_any(subqueries@, k as int + 1) == self.query_any(
                            subqueries@,
                            k as int,
                        ).union(self.spec_query(*subqueries@[k as int])));
                    }
                    k = k + 1;
                }
                acc
            },
        }
    }

    /// The thoughts carrying a tag, or none when the tag is not defined.
    fn query_tag(&self, tag_id: &TagID) -> (r: Vec<ThoughtID>)
        requires
            self.wf(),
        ensures
            views_no_dups(id_views(r@)),
            id_views(r@).to_set() == self.spec_query(Query::Tag(*tag_id)),
    {
        let ghost goal = self.spec_query(Query::Tag(*tag_id));
        match self.get_tag(tag_id) {
            None => {
                let r: Vec<ThoughtID> = Vec::new();
                proof {
                    assert(id_views(r@).to_set() =~= goal);
                }
                r
            },
            Some(_) => {
                let ghost fth = |t: Thought| t@;
                proof {
                    self.lemma_wf_parts();
                    self.lemma_maps_def();
                }
                let mut out: Vec<ThoughtID> = Vec::new();
                let mut i: usize = 0;
                while i < self.thoughts.len()
                    invariant
                        0 <= i <= self.thoughts@.len(),
                        self.wf(),
                        kv_keys_unique(self.thoughts@),
                        self.tags_map().contains_key(tag_id@),
                        goal == self.spec_query(Query::Tag(*tag_id)),
                        views_no_dups(id_views(out@)),
                        forall|s: Seq<char>|
                            #![trigger id_views(out@).contains(s)]
                            id_views(out@).contains(s) <==> (exists|j: int|
                                0 <= j < i && (#[trigger] self.thoughts@[j]).0@ == s
                                    && self.thoughts@[j].1@.has_tag(tag_id@)),
                    decreases self.thoughts@.len() - i,
                {
                    let ghost prevv = id_views(out@);
                    let ghost xv = self.thoughts@[i as int].0@;
                    let hastag = crate::entities::tags_contain(&self.thoughts[i].1.tags, tag_id);
                    if hastag {
                        let dup = ids_contain(&out, &self.thoughts[i].0);
                        if !dup {
                            out.push(self.thoughts[i].0.clone());
                            proof {
                                assert(id_views(out@) =~= prevv.push(xv));
                                lemma_push_no_dups(prevv, xv);
                                assert forall|s: Seq<char>|
                                    #![trigger id_views(out@).contains(s)]
                                    id_views(out@).contains(s) <==> (exists|j: int|
                                        0 <= j < i + 1 && (#[trigger] self.thoughts@[j]).0@ == s
                                            && self.thoughts@[j].1@.has_tag(tag_id@)) by {
                                    lemma_push_contains(prevv, xv, s);
                                    if id_views(out@).contains(s) {
                                        if prevv.contains(s) {
                                            let j = choose|j: int|
                                                0 <= j < i && (#[trigger] self.thoughts@[j]).0@
                                                    == s && self.thoughts@[j].1@.has_tag(tag_id@);
                                            assert(0 <= j < i + 1 && self.thoughts@[j].0@ == s
                                                && self.thoughts@[j].1@.has_tag(tag_id@));
                                        } else {
                                            assert(s == xv);
                                            assert(0 <= i < i + 1 && self.thoughts@[i as int].0@
                                                == s && self.thoughts@[i as int].1@.has_tag(
                                                tag_id@,
                                            ));
                                        }
                                    }
                                    if exists|j: int|
                                        0 <= j < i + 1 && (#[trigger] self.thoughts@[j]).0@ == s
                                            && self.thoughts@[j].1@.has_tag(tag_id@) {
                                        let j = choose|j: int|
                                            0 <= j < i + 1 && (#[trigger] self.thoughts@[j]).0@
                                                == s && self.thoughts@[j].1@.has_tag(tag_id@);
                                        if j < i {
                                            assert(prevv.contains(s));
                                        } else {
                                            assert(s == xv);
                                        }
                                    }
                                }
                            }
                        } else {
                            proof {
                                // unique keys: the same id cannot have matched earlier
                                assert(prevv.contains(xv));
                                let j = choose|j: int|
                                    0 <= j < i && (#[trigger] self.thoughts@[j]).0@ == xv
                                        && self.thoughts@[j].1@.has_tag(tag_id@);
                                assert(false);
                            }
                        }
                    } else {
                        proof {
                            assert forall|s: Seq<char>|
                                #![trigger id_views(out@).contains(s)]
                                id_views(out@).contains(s) <==> (exists|j: int|
                                    0 <= j < i + 1 && (#[trigger] self.thoughts@[j]).0@ == s
                                        && self.thoughts@[j].1@.has_tag(tag_id@)) by {
                                if exists|j: int|
                                    0 <= j < i + 1 && (#[trigger] self.thoughts@[j]).0@ == s
                                        && self.thoughts@[j].1@.has_tag(tag_id@) {
                                    let j = choose|j: int|
                                        0 <= j < i + 1 && (#[trigger] self.thoughts@[j]).0@ == s
                                            && self.thoughts@[j].1@.has_tag(tag_id@);
                                    assert(j < i);
                                }
                            }
                        }
                    }
                    i = i + 1;
                }
                proof {
                    assert forall|s: Seq<char>|
                        goal.contains(s) implies id_views(out@).contains(s) by {
                        lemma_kv_map_contains(self.thoughts@, fth, s);
                        let j = choose|j: int|
                            0 <= j < self.thoughts@.len() && (#[trigger] self.thoughts@[j]).0@
                                == s;
                        lemma_kv_map_index(self.thoughts@, fth, j);
                    }
                    assert forall|s: Seq<char>|
                        id_views(out@).contains(s) implies goal.contains(s) by {
                        let j = choose|j: int|
                            0 <= j < self.thoughts@.len() && (#[trigger] self.thoughts@[j]).0@ == s
                                && self.thoughts@[j].1@.has_tag(tag_id@);
                        lemma_kv_map_index(self.thoughts@, fth, j);
                        lemma_kv_map_contains(self.thoughts@, fth, s);
                    }
                    assert(id_views(out@).to_set() =~= goal);
                }
                out
            },
        }
    }

    /// The recorded backlinks of an id, or none when no entry exists.
    fn query_references(&self, thought_id: &ThoughtID) -> (r: Vec<ThoughtID>)
        requires
            self.wf(),
        ensures
            views_no_dups(id_views(r@)),
            id_views(r@).to_set() == self.spec_query(Query::References(*thought_id)),
    {
        let r = self.get_backlinks(thought_id);
        proof {
            assert(id_views(r@).to_set() =~= self.backlink_set(thought_id@));
        }
        r
    }

    /// The stored thoughts referenced by a thought, or none when the id
    /// names no stored thought.
    fn query_referenced_by(&self, thought_id: &ThoughtID) -> (r: Vec<ThoughtID>)
        requires
            self.wf(),
        ensures
            views_no_dups(id_views(r@)),
            id_views(r@).to_set() == self.spec_query(Query::ReferencedBy(*thought_id)),
    {
        let ghost goal = self.spec_query(Query::ReferencedBy(*thought_id));
        match self.get_thought(thought_id) {
            None => {
                let r: Vec<ThoughtID> = Vec::new();
                proof {
                    assert(id_views(r@).to_set() =~= goal);
                }
                r
            },
            Some(thought) => {
                let ghost tv = self.thoughts_map()[thought_id@];
                let mut out: Vec<ThoughtID> = Vec::new();
                let mut i: usize = 0;
                while i < thought.references.len()
                    invariant
                        0 <= i <= thought.references@.len(),
                        self.wf(),
                        thought@ == tv,
                        tv == self.thoughts_map()[thought_id@],
                        self.thoughts_map().contains_key(thought_id@),
                        tv.references.len() == thought.references@.len(),
                        forall|j: int|
                            0 <= j < thought.references@.len()
                                ==> (#[trigger] thought.references@[j])@ == tv.references[j],
                        views_no_dups(id_views(out@)),
                        forall|t: Seq<char>|
                            #![trigger id_views(out@).contains(t)]
                            id_views(out@).contains(t) <==> (exists|j: int|
                                0 <= j < i && (#[trigger] tv.references[j]).id == t
                                    && self.thoughts_map().contains_key(t)),
                    decreases thought.references@.len() - i,
                {
                    let ghost prevv = id_views(out@);
                    let ghost xv = tv.references[i as int].id;
                    let target_exists = match self.get_thought(&thought.references[i].id) {
                        Some(_) => true,
                        None => false,
                    };
                    if target_exists {
                        let dup = ids_contain(&out, &thought.references[i].id);
                        if !dup {
                            out.push(thought.references[i].id.clone());
                            proof {
                                assert(id_views(out@) =~= prevv.push(xv));
                                lemma_push_no_dups(prevv, xv);
                                assert forall|t: Seq<char>|
                                    #![trigger id_views(out@).contains(t)]
                                    id_views(out@).contains(t) <==> (exists|j: int|
                                        0 <= j < i + 1 && (#[trigger] tv.references[j]).id == t
                                            && self.thoughts_map().contains_key(t)) by {
                                    lemma_push_contains(prevv, xv, t);
                                    if id_views(out@).contains(t) {
                                        if prevv.contains(t) {
                                            let j = choose|j: int|
                                                0 <= j < i && (#[trigger] tv.references[j]).id
                                                    == t && self.thoughts_map().contains_key(t);
                                            assert(0 <= j < i + 1 && tv.references[j].id == t
                                                && self.thoughts_map().contains_key(t));
                                        } else {
                                            assert(t == xv);
                                            assert(0 <= i < i + 1 && tv.references[i as int].id
                                                == t && self.thoughts_map().contains_key(t));
                                        }
                                    }
                                    if exists|j: int|
                                        0 <= j < i + 1 && (#[trigger] tv.references[j]).id == t
                                            && self.thoughts_map().contains_key(t) {
                                        let j = choose|j: int|
                                            0 <= j < i + 1 && (#[trigger] tv.references[j]).id
                                                == t && self.thoughts_map().contains_key(t);
                                        if j < i {
                                            assert(prevv.contains(t));
                                        } else {
                                            assert(t == xv);
                                        }
                                    }
                                }
                            }
                        } else {
                            proof {
                                assert forall|t: Seq<char>|
                                    #![trigger id_views(out@).contains(t)]
                                    id_views(out@).contains(t) <==> (exists|j: int|
                                        0 <= j < i + 1 && (#[trigger] tv.references[j]).id == t
                                            && self.thoughts_map().contains_key(t)) by {
                                    if exists|j: int|
                                        0 <= j < i + 1 && (#[trigger] tv.references[j]).id == t
                                            && self.thoughts_map().contains_key(t) {
                                        let j = choose|j: int|
                                            0 <= j < i + 1 && (#[trigger] tv.references[j]).id
                                                == t && self.thoughts_map().contains_key(t);
                                        if j == i {
                                            assert(t == xv);
                                            assert(prevv.contains(t));
                                        }
                                    }
                                }
                            }
                        }
                    } else {
                        proof {
                            assert forall|t: Seq<char>|
                                #![trigger id_views(out@).contains(t)]
                                id_views(out@).contains(t) <==> (exists|j: int|
                                    0 <= j < i + 1 && (#[trigger] tv.references[j]).id == t
                                        && self.thoughts_map().contains_key(t)) by {
                                if exists|j: int|
                                    0 <= j < i + 1 && (#[trigger] tv.references[j]).id == t
                                        && self.thoughts_map().contains_key(t) {
                                    let j = choose|j: int|
                                        0 <= j < i + 1 && (#[trigger] tv.references[j]).id == t
                                            && self.thoughts_map().contains_key(t);
                                    assert(j < i);
                                }
                            }
                        }
                    }
                    i = i + 1;
                }
                proof {
                    assert forall|t: Seq<char>|
                        goal.contains(t) implies id_views(out@).contains(t) by {
                        assert(tv.references_target(t));
                        let j = choose|j: int|
                            0 <= j < crate::entities::ref_targets(tv.references).len()
                                && crate::entities::ref_targets(tv.references)[j] == t;
                        assert(tv.references[j].id == t);
                    }
                    assert forall|t: Seq<char>|
                        id_views(out@).contains(t) implies goal.contains(t) by {
                        let j = choose|j: int|
                            0 <= j < thought.references@.len() && (#[trigger] tv.references[j]).id
                                == t && self.thoughts_map().contains_key(t);
                        assert(crate::entities::ref_targets(tv.references)[j] == t);
                        assert(tv.references_target(t));
                    }
                    assert(id_views(out@).to_set() =~= goal);
                }
                out
            },
        }
    }
}

/// The id views of the pairs' first components.
pub open spec fn pair_ids(s: Seq<(ThoughtID, Thought)>) -> Seq<Seq<char>> {
    s.map_values(|e: (ThoughtID, Thought)| e.0@)
}

impl ThoughtGraph {
    /// The thoughts matching a query, as pairs of id and thought value:
    /// each matching id exactly once, restricted to ids that name stored
    /// thoughts, each paired with its stored value.
    pub fn find_thoughts(&self, query: &Query) -> (r: Vec<(ThoughtID, Thought)>)
        requires
            self.wf(),
        ensures
            views_no_dups(pair_ids(r@)),
            pair_ids(r@).to_set() == self.spec_query(*query).intersect(self.thoughts_map().dom()),
            forall|j: int|
                0 <= j < r@.len() ==> self.thoughts_map().contains_key((#[trigger] r@[j]).0@)
                    && r@[j].1@ == self.thoughts_map()[r@[j].0@],
    {
        let ids = self.query(query);
        let mut out: Vec<(ThoughtID, Thought)> = Vec::new();
        let mut k: usize = 0;
        while k < ids.len()
            invariant
                0 <= k <= ids@.len(),
                self.wf(),
                views_no_dups(id_views(ids@)),
                id_views(ids@).to_set() == self.spec_query(*query),
                views_no_dups(pair_ids(out@)),
                forall|j: int|
                    0 <= j < out@.len() ==> self.thoughts_map().contains_key(
                        (#[trigger] out@[j]).0@,
                    ) && out@[j].1@ == self.thoughts_map()[out@[j].0@],
                forall|x: Seq<char>|
                    #![trigger pair_ids(out@).contains(x)]
                    pair_ids(out@).contains(x) <==> ((exists|j: int|
                        0 <= j < k && id_views(ids@)[j] == x) && self.thoughts_map().dom().contains(
                        x,
                    )),
            decreases ids@.len() - k,
        {
            let ghost prevv = pair_ids(out@);
            let ghost xv = ids@[k as int]@;
            match self.get_thought(&ids[k]) {
                Some(t) => {
                    out.push((ids[k].clone(), t.clone()));
                    proof {
                        assert(pair_ids(out@) =~= prevv.push(xv));
                        assert(!prevv.contains(xv)) by {
                            if prevv.contains(xv) {
                                let j = choose|j: int| 0 <= j < k && id_views(ids@)[j] == xv;
                                assert(id_views(ids@)[k as int] == xv);
                            }
                        }
                        lemma_push_no_dups(prevv, xv);
                        assert forall|x: Seq<char>|
                            #![trigger pair_ids(out@).contains(x)]
                            pair_ids(out@).contains(x) <==> ((exists|j: int|
                                0 <= j < k + 1 && id_views(ids@)[j] == x)
                                && self.thoughts_map().dom().contains(x)) by {
                            lemma_push_contains(prevv, xv, x);
                            if pair_ids(out@).contains(x) {
                                if prevv.contains(x) {
                                    let j = choose|j: int| 0 <= j < k && id_views(ids@)[j] == x;
                                    assert(0 <= j < k + 1 && id_views(ids@)[j] == x);
                                } else {
                                    assert(x == xv);
                                    assert(id_views(ids@)[k as int] == x);
                                }
                            }
                            if (exists|j: int| 0 <= j < k + 1 && id_views(ids@)[j] == x)
                                && self.thoughts_map().dom().contains(x) {
                                let j = choose|j: int| 0 <= j < k + 1 && id_views(ids@)[j] == x;
                                if j < k {
                                    assert(prevv.contains(x));
                                } else {
                                    assert(x == xv);
                                }
                            }
                        }
                    }
                },
                None => {
                    proof {
                        assert forall|x: Seq<char>|
                            #![trigger pair_ids(out@).contains(x)]
                            pair_ids(out@).contains(x) <==> ((exists|j: int|
                                0 <= j < k + 1 && id_views(ids@)[j] == x)
                                && self.thoughts_map().dom().contains(x)) by {
                            if (exists|j: int| 0 <= j < k + 1 && id_views(ids@)[j] == x)
                                && self.thoughts_map().dom().contains(x) {
                                let j = choose|j: int| 0 <= j < k + 1 && id_views(ids@)[j] == x;
                                assert(j < k);
                            }
                        }
                    }
                },
            }
            k = k + 1;
        }
        proof {
            assert forall|x: Seq<char>|
                self.spec_query(*query).intersect(self.thoughts_map().dom()).contains(
                x,
            ) implies pair_ids(out@).contains(x) by {
                assert(id_views(ids@).to_set().contains(x));
                let j = choose|j: int| 0 <= j < id_views(ids@).len() && id_views(ids@)[j] == x;
                assert(0 <= j < ids@.len() && id_views(ids@)[j] == x);
            }
            assert forall|x: Seq<char>|
                pair_ids(out@).contains(x) implies self.spec_query(*query).intersect(
                self.thoughts_map().dom(),
            ).contains(x) by {
                let j = choose|j: int| 0 <= j < ids@.len() && id_views(ids@)[j] == x;
                assert(id_views(ids@).to_set().contains(x));
            }
            assert(pair_ids(out@).to_set() =~= self.spec_query(*query).intersect(
                self.thoughts_map().dom(),
            ));
        }
        out
    }
}

/// An empty conjunction matches nothing: there is no implicit
/// "match everything".
pub proof fn lemma_and_empty(g: &ThoughtGraph, qs: Vec<Box<Query>>)
    requires
        qs@.len() == 0,
    ensures
        g.spec_query(Query::And(qs)) == Set::<Seq<char>>::empty(),
{
}

/// An empty disjunction matches nothing.
pub proof fn lemma_or_empty(g: &ThoughtGraph, qs: Vec<Box<Query>>)
    requires
        qs@.len() == 0,
    ensures
        g.spec_query(Query::Or(qs)) == Set::<Seq<char>>::empty(),
{
}

/// A conjunction of a single sub-query matches exactly that sub-query.
pub proof fn lemma_and_singleton(g: &ThoughtGraph, qs: Vec<Box<Query>>, q: Query)
    requires
        qs@.len() == 1,
        (*qs@[0] == q),
    ensures
        g.spec_query(Query::And(qs)) == g.spec_query(q),
{
    assert(g.spec_query(Query::And(qs)) == g.query_all(qs@, 1));
}

/// A disjunction of a single sub-query matches exactly that sub-query.
pub proof fn lemma_or_singleton(g: &ThoughtGraph, qs: Vec<Box<Query>>, q: Query)
    requires
        qs@.len() == 1,
        (*qs@[0] == q),
    ensures
        g.spec_query(Query::Or(qs)) == g.spec_query(q),
{
    assert(g.query_any(qs@, 0) == Set::<Seq<char>>::empty());
    assert(Set::<Seq<char>>::empty().union(g.spec_query(q)) =~= g.spec_query(q));
}

/// Conjunction is commutative: the two orders of the same pair of
/// sub-queries match the same thoughts.
pub proof fn lemma_and_commutative(
    g: &ThoughtGraph,
    u: Vec<Box<Query>>,
    v: Vec<Box<Query>>,
    a: Query,
    b: Query,
)
    requires
        u@.len() == 2,
        v@.len() == 2,
        (*u@[0] == a),
        (*u@[1] == b),
        (*v@[0] == b),
        (*v@[1] == a),
    ensures
        g.spec_query(Query::And(u)) == g.spec_query(Query::And(v)),
{
    assert forall|x: Seq<char>|
        g.spec_query(Query::And(u)).contains(x) == g.spec_query(Query::And(v)).contains(x) by {
        g.lemma_query_all_char(u@, 2, x);
        g.lemma_query_all_char(v@, 2, x);
        assert(g.spec_query(*u@[0]) == g.spec_query(a));
        assert(g.spec_query(*u@[1]) == g.spec_query(b));
        assert(g.spec_query(*v@[0]) == g.spec_query(b));
        assert(g.spec_query(*v@[1]) == g.spec_query(a));
        if g.spec_query(Query::And(u)).contains(x) {
            assert(g.spec_query(*u@[0]).contains(x) && g.spec_query(*u@[1]).contains(x));
            assert forall|i: int| 0 <= i < 2 implies #[trigger] g.spec_query(*v@[i]).contains(
                x,
            ) by {
                if i == 0 {
                } else {
                    assert(i == 1);
                }
            }
        }
        if g.spec_query(Query::And(v)).contains(x) {
            assert(g.spec_query(*v@[0]).contains(x) && g.spec_query(*v@[1]).contains(x));
            assert forall|i: int| 0 <= i < 2 implies #[trigger] g.spec_query(*u@[i]).contains(
                x,
            ) by {
                if i == 0 {
                } else {
                    assert(i == 1);
                }
            }
        }
    }
    assert(g.spec_query(Query::And(u)) =~= g.spec_query(Query::And(v)));
}

/// Disjunction is commutative.
pub proof fn lemma_or_commutative(
    g: &ThoughtGraph,
    u: Vec<Box<Query>>,
    v: Vec<Box<Query>>,
    a: Query,
    b: Query,
)
    requires
        u@.len() == 2,
        v@.len() == 2,
        (*u@[0] == a),
        (*u@[1] == b),
        (*v@[0] == b),
        (*v@[1] == a),
    ensures
        g.spec_query(Query::Or(u)) == g.spec_query(Query::Or(v)),
{
    assert forall|x: Seq<char>|
        g.spec_query(Query::Or(u)).contains(x) == g.spec_query(Query::Or(v)).contains(x) by {
        g.lemma_query_any_char(u@, 2, x);
        g.lemma_query_any_char(v@, 2, x);
        if g.spec_query(Query::Or(u)).contains(x) {
            let i = choose|i: int| 0 <= i < 2 && #[trigger] g.spec_query(*u@[i]).contains(x);
            if i == 0 {
                assert(g.spec_query(*v@[1]).contains(x));
            } else {
                assert(g.spec_query(*v@[0]).contains(x));
            }
        }
        if g.spec_query(Query::Or(v)).contains(x) {
            let i = choose|i: int| 0 <= i < 2 && #[trigger] g.spec_query(*v@[i]).contains(x);
            if i == 0 {
                assert(g.spec_query(*u@[1]).contains(x));
            } else {
                assert(g.spec_query(*u@[0]).contains(x));
            }
        }
    }
    assert(g.spec_query(Query::Or(u)) =~= g.spec_query(Query::Or(v)));
}

/// Conjunction is associative: a flat conjunction of three sub-queries
/// matches the same thoughts as the nested form.
pub proof fn lemma_and_associative(
    g: &ThoughtGraph,
    u: Vec<Box<Query>>,
    v: Vec<Box<Query>>,
    w: Vec<Box<Query>>,
    a: Query,
    b: Query,
    c: Query,
)
    requires
        u@.len() == 3,
        (*u@[0] == a),
        (*u@[1] == b),
        (*u@[2] == c),
        v@.len() == 2,
        (*v@[0] == a),
        (*v@[1] == Query::And(w)),
        w@.len() == 2,
        (*w@[0] == b),
        (*w@[1] == c),
    ensures
        g.spec_query(Query::And(u)) == g.spec_query(Query::And(v)),
{
    assert forall|x: Seq<char>|
        g.spec_query(Query::And(u)).contains(x) == g.spec_query(Query::And(v)).contains(x) by {
        g.lemma_query_all_char(u@, 3, x);
        g.lemma_query_all_char(v@, 2, x);
        g.lemma_query_all_char(w@, 2, x);
        let abc = g.spec_query(a).contains(x) && g.spec_query(b).contains(x) && g.spec_query(
            c,
        ).contains(x);
        assert(g.spec_query(Query::And(u)).contains(x) == abc) by {
            if g.spec_query(Query::And(u)).contains(x) {
                assert(g.spec_query(*u@[0]).contains(x));
                assert(g.spec_query(*u@[1]).contains(x));
                assert(g.spec_query(*u@[2]).contains(x));
            }
            if abc {
                assert forall|i: int| 0 <= i < 3 implies #[trigger] g.spec_query(*u@[i]).contains(
                    x,
                ) by {
                    if i == 0 {
                    } else if i == 1 {
                    } else {
                        assert(i == 2);
                    }
                }
            }
        }
        assert(g.spec_query(Query::And(w)).contains(x) == (g.spec_query(b).contains(x)
            && g.spec_query(c).contains(x))) by {
            if g.spec_query(Query::And(w)).contains(x) {
                assert(g.spec_query(*w@[0]).contains(x));
                assert(g.spec_query(*w@[1]).contains(x));
            }
            if g.spec_query(b).contains(x) && g.spec_query(c).contains(x) {
                assert forall|i: int| 0 <= i < 2 implies #[trigger] g.spec_query(*w@[i]).contains(
                    x,
                ) by {
                    if i == 0 {
                    } else {
                        assert(i == 1);
                    }
                }
            }
        }
        assert(g.spec_query(Query::And(v)).contains(x) == abc) by {
            if g.spec_query(Query::And(v)).contains(x) {
                assert(g.spec_query(*v@[0]).contains(x));
                assert(g.spec_query(*v@[1]).contains(x));
            }
            if abc {
                assert forall|i: int| 0 <= i < 2 implies #[trigger] g.spec_query(*v@[i]).contains(
                    x,
                ) by {
                    if i == 0 {
                    } else {
                        assert(i == 1);
                    }
                }
            }
        }
    }
    assert(g.spec_query(Query::And(u)) =~= g.spec_query(Query::And(v)));
}

/// Disjunction is associative.
pub proof fn lemma_or_associative(
    g: &ThoughtGraph,
    u: Vec<Box<Query>>,
    v: Vec<Box<Query>>,
    w: Vec<Box<Query>>,
    a: Query,
    b: Query,
    c: Query,
)
    requires
        u@.len() == 3,
        (*u@[0] == a),
        (*u@[1] == b),
        (*u@[2] == c),
        v@.len() == 2,
        (*v@[0] == a),
        (*v@[1] == Query::Or(w)),
        w@.len() == 2,
        (*w@[0] == b),
        (*w@[1] == c),
    ensures
        g.spec_query(Query::Or(u)) == g.spec_query(Query::Or(v)),
{
    assert forall|x: Seq<char>|
        g.spec_query(Query::Or(u)).contains(x) == g.spec_query(Query::Or(v)).contains(x) by {
        g.lemma_query_any_char(u@, 3, x);
        g.lemma_query_any_char(v@, 2, x);
        g.lemma_query_any_char(w@, 2, x);
        let abc = g.spec_query(a).contains(x) || g.spec_query(b).contains(x) || g.spec_query(
            c,
        ).contains(x);
        assert(g.spec_query(Query::Or(u)).contains(x) == abc) by {
            if g.spec_query(Query::Or(u)).contains(x) {
                let i = choose|i: int| 0 <= i < 3 && #[trigger] g.spec_query(*u@[i]).contains(x);
                assert(i == 0 || i == 1 || i == 2);
            }
            if abc {
                if g.spec_query(a).contains(x) {
                    assert(g.spec_query(*u@[0]).contains(x));
                } else if g.spec_query(b).contains(x) {
                    assert(g.spec_query(*u@[1]).contains(x));
                } else {
                    assert(g.spec_query(*u@[2]).contains(x));
                }
            }
        }
        assert(g.spec_query(Query::Or(w)).contains(x) == (g.spec_query(b).contains(x)
            || g.spec_query(c).contains(x))) by {
            if g.spec_query(Query::Or(w)).contains(x) {
                let i = choose|i: int| 0 <= i < 2 && #[trigger] g.spec_query(*w@[i]).contains(x);
                assert(i == 0 || i == 1);
            }
            if g.spec_query(b).contains(x) {
                assert(g.spec_query(*w@[0]).contains(x));
            } else if g.spec_query(c).contains(x) {
                assert(g.spec_query(*w@[1]).contains(x));
            }
        }
        assert(g.spec_query(Query::Or(v)).contains(x) == abc) by {
            if g.spec_query(Query::Or(v)).contains(x) {
                let i = choose|i: int| 0 <= i < 2 && #[trigger] g.spec_query(*v@[i]).contains(x);
                assert(i == 0 || i == 1);
            }
            if g.spec_query(a).contains(x) {
                assert(g.spec_query(*v@[0]).contains(x));
            } else if g.spec_query(Query::Or(w)).contains(x) {
                assert(g.spec_query(*v@[1]).contains(x));
            }
        }
    }
    assert(g.spec_query(Query::Or(u)) =~= g.spec_query(Query::Or(v)));
}

/// A tag id absent from the tag map matches nothing — in particular
/// immediately after the tag's deletion, even if thoughts still list it.
pub proof fn lemma_dangling_tag(g: &ThoughtGraph, tag: TagID)
    requires
        !g.tags_map().contains_key(tag@),
    ensures
        g.spec_query(Query::Tag(tag)) == Set::<Seq<char>>::empty(),
{
}

/// The ids present in both lists, in the order of the first.
fn intersect_ids(a: &Vec<ThoughtID>, b: &Vec<ThoughtID>) -> (r: Vec<ThoughtID>)
    requires
        views_no_dups(id_views(a@)),
    ensures
        views_no_dups(id_views(r@)),
        id_views(r@).to_set() == id_views(a@).to_set().intersect(id_views(b@).to_set()),
{
    let mut out: Vec<ThoughtID> = Vec::new();
    let mut i: usize = 0;
    while i < a.len()
        invariant
            0 <= i <= a@.len(),
            views_no_dups(id_views(a@)),
            views_no_dups(id_views(out@)),
            forall|x: Seq<char>|
                #![trigger id_views(out@).contains(x)]
                id_views(out@).contains(x) <==> (exists|j: int|
                    0 <= j < i && id_views(a@)[j] == x) && id_views(b@).contains(x),
        decreases a@.len() - i,
    {
        let ghost prevv = id_views(out@);
        let ghost xv = a@[i as int]@;
        if ids_contain(b, &a[i]) {
            if !ids_contain(&out, &a[i]) {
                out.push(a[i].clone());
                proof {
                    assert(id_views(out@) =~= prevv.push(xv));
                    lemma_push_no_dups(prevv, xv);
                    assert forall|x: Seq<char>|
                        #![trigger id_views(out@).contains(x)]
                        id_views(out@).contains(x) <==> (exists|j: int|
                            0 <= j < i + 1 && id_views(a@)[j] == x) && id_views(b@).contains(
                            x,
                        ) by {
                        lemma_push_contains(prevv, xv, x);
                        if id_views(out@).contains(x) {
                            if prevv.contains(x) {
                                let j = choose|j: int| 0 <= j < i && id_views(a@)[j] == x;
                                assert(0 <= j < i + 1 && id_views(a@)[j] == x);
                            } else {
                                assert(x == xv);
                                assert(id_views(a@)[i as int] == x);
                            }
                        }
                        if (exists|j: int| 0 <= j < i + 1 && id_views(a@)[j] == x) && id_views(
                            b@,
                        ).contains(x) {
                            let j = choose|j: int| 0 <= j < i + 1 && id_views(a@)[j] == x;
                            if j < i {
                                assert(prevv.contains(x));
                            } else {
                                assert(x == xv);
                            }
                        }
                    }
                }
            } else {
                proof {
                    // a has no duplicates: xv cannot have been seen before
                    assert(prevv.contains(xv));
                    let j = choose|j: int| 0 <= j < i && id_views(a@)[j] == xv;
                    assert(id_views(a@)[i as int] == xv);
                    assert(false);
                }
            }
        } else {
            proof {
                assert forall|x: Seq<char>|
                    #![trigger id_views(out@).contains(x)]
                    id_views(out@).contains(x) <==> (exists|j: int|
                        0 <= j < i + 1 && id_views(a@)[j] == x) && id_views(b@).contains(x) by {
                    if (exists|j: int| 0 <= j < i + 1 && id_views(a@)[j] == x) && id_views(
                        b@,
                    ).contains(x) {
                        let j = choose|j: int| 0 <= j < i + 1 && id_views(a@)[j] == x;
                        assert(j < i);
                    }
                }
            }
        }
        i = i + 1;
    }
    proof {
        assert forall|x: Seq<char>|
            id_views(a@).to_set().intersect(id_views(b@).to_set()).contains(
            x,
        ) implies id_views(out@).contains(x) by {
            let j = choose|j: int| 0 <= j < id_views(a@).len() && id_views(a@)[j] == x;
            assert(0 <= j < a@.len() && id_views(a@)[j] == x);
        }
        assert(id_views(out@).to_set() =~= id_views(a@).to_set().intersect(id_views(b@).to_set()));
    }
    out
}

/// Extends the first list with the ids of the second it does not yet hold.
fn union_ids(acc: &mut Vec<ThoughtID>, b: &Vec<ThoughtID>)
    requires
        views_no_dups(id_views(old(acc)@)),
    ensures
        views_no_dups(id_views(final(acc)@)),
        id_views(final(acc)@).to_set() == id_views(old(acc)@).to_set().union(
            id_views(b@).to_set(),
        ),
{
    let mut i: usize = 0;
    let ghost a0 = id_views(old(acc)@);
    while i < b.len()
        invariant
            0 <= i <= b@.len(),
            views_no_dups(id_views(acc@)),
            forall|x: Seq<char>|
                #![trigger id_views(acc@).contains(x)]
                id_views(acc@).contains(x) <==> (a0.contains(x) || (exists|j: int|
                    0 <= j < i && id_views(b@)[j] == x)),
        decreases b@.len() - i,
    {
        let ghost prevv = id_views(acc@);
        let ghost xv = b@[i as int]@;
        if !ids_contain(acc, &b[i]) {
            acc.push(b[i].clone());
            proof {
                assert(id_views(acc@) =~= prevv.push(xv));
                lemma_push_no_dups(prevv, xv);
                assert forall|x: Seq<char>|
                    #![trigger id_views(acc@).contains(x)]
                    id_views(acc@).contains(x) <==> (a0.contains(x) || (exists|j: int|
                        0 <= j < i + 1 && id_views(b@)[j] == x)) by {
                    lemma_push_contains(prevv, xv, x);
                    if id_views(acc@).contains(x) && !prevv.contains(x) {
                        assert(x == xv);
                        assert(id_views(b@)[i as int] == x);
                    }
                    if !id_views(acc@).contains(x) && (exists|j: int|
                        0 <= j < i + 1 && id_views(b@)[j] == x) {
                        let j = choose|j: int| 0 <= j < i + 1 && id_views(b@)[j] == x;
                        assert(j < i || x == xv);
                        assert(false);
                    }
                }
            }
        } else {
            proof {
                assert forall|x: Seq<char>|
                    #![trigger id_views(acc@).contains(x)]
                    id_views(acc@).contains(x) <==> (a0.contains(x) || (exists|j: int|
                        0 <= j < i + 1 && id_views(b@)[j] == x)) by {
                    if !id_views(acc@).contains(x) && (exists|j: int|
                        0 <= j < i + 1 && id_views(b@)[j] == x) {
                        let j = choose|j: int| 0 <= j < i + 1 && id_views(b@)[j] == x;
                        assert(j < i || x == xv);
                        assert(false);
                    }
                }
            }
        }
        i = i + 1;
    }
    proof {
        assert forall|x: Seq<char>|
            a0.to_set().union(id_views(b@).to_set()).contains(x) implies id_views(
            acc@,
        ).contains(x) by {
            if id_views(b@).contains(x) {
                let j = choose|j: int| 0 <= j < id_views(b@).len() && id_views(b@)[j] == x;
                assert(0 <= j < b@.len() && id_views(b@)[j] == x);
            }
        }
        assert(id_views(acc@).to_set() =~= a0.to_set().union(id_views(b@).to_set()));
    }
}

} // verus!
