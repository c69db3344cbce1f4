//! The graph store: thoughts, tags, and the derived back-reference index.
//!
//! The store is mutated only through [`ThoughtGraph::command`], which keeps
//! the index consistent with every thought's forward references. All reads
//! go through accessors; no internal collection is ever handed out for
//! outside mutation.
//!
//! The three collections are association lists with unique keys; their
//! mathematical content is a `Map` from id views to entity views, defined by
//! [`kv_map`].

use vstd::prelude::*;

use crate::entities::Reference;
use crate::entities::ReferenceView;
use crate::entities::Tag;
use crate::entities::TagView;
use crate::entities::Thought;
use crate::entities::ThoughtView;
use crate::entities::opt_view;
use crate::entities::ref_targets;
use crate::entities::ref_views;
use crate::entities::refs_contain_target;
use crate::entities::tag_views;
use crate::ids::TagID;
use crate::ids::ThoughtID;
use crate::ids::id_views;
use crate::ids::ids_contain;
use crate::time::now_timestamp;

verus! {

/// Commands for modifying the graph.
///
/// Every mutation of the graph goes through one of these, applied by
/// [`ThoughtGraph::command`], so that the back-reference index always stays
/// consistent with the thoughts' forward references.
pub enum Command {
    /// Add or update a thought. An existing thought under the same id is
    /// overwritten; the index contributions of the old version are retracted
    /// first and those of the new version added afterwards.
    PutThought { id: ThoughtID, thought: Thought },
    /// Remove a thought. Its index contributions are retracted, and the
    /// index entry recorded under its own id is dropped. References to the
    /// removed thought inside other thoughts stay untouched.
    DeleteThought { id: ThoughtID },
    /// Add or update a tag. No index side effects.
    PutTag { id: TagID, tag: Tag },
    /// Remove a tag. Thoughts that still list the tag keep listing it; the
    /// listing simply dangles.
    DeleteTag { id: TagID },
}

/// The map described by an association list: later entries win, and the
/// value of each entry is taken through `f`.
pub open spec fn kv_map<K: View<V = Seq<char>>, V, W>(
    s: Seq<(K, V)>,
    f: spec_fn(V) -> W,
) -> Map<Seq<char>, W>
    decreases s.len(),
{
    if s.len() == 0 {
        Map::empty()
    } else {
        kv_map(s.drop_last(), f).insert(s.last().0@, f(s.last().1))
    }
}

/// No two entries of the association list share a key.
pub open spec fn kv_keys_unique<K: View<V = Seq<char>>, V>(s: Seq<(K, V)>) -> bool {
    forall|i: int, j: int| #![trigger s[i], s[j]] 0 <= i < j < s.len() ==> s[i].0@ != s[j].0@
}

/// A key is in the map exactly when some entry carries it.
pub proof fn lemma_kv_map_contains<K: View<V = Seq<char>>, V, W>(
    s: Seq<(K, V)>,
    f: spec_fn(V) -> W,
    k: Seq<char>,
)
    ensures
        kv_map(s, f).contains_key(k) <==> exists|i: int| 0 <= i < s.len() && (#[trigger] s[i]).0@
            == k,
    decreases s.len(),
{
    if s.len() > 0 {
        lemma_kv_map_contains(s.drop_last(), f, k);
        if kv_map(s, f).contains_key(k) && s.last().0@ != k {
            let i = choose|i: int| 0 <= i < s.drop_last().len() && (#[trigger] s.drop_last()[i]).0@
                == k;
            assert(s[i].0@ == k);
        }
        if exists|i: int| 0 <= i < s.len() && (#[trigger] s[i]).0@ == k {
            let i = choose|i: int| 0 <= i < s.len() && (#[trigger] s[i]).0@ == k;
            if i < s.len() - 1 {
                assert(s.drop_last()[i].0@ == k);
            }
        }
    }
}

/// With unique keys, the map's value at an entry's key is that entry's
/// value.
pub proof fn lemma_kv_map_index<K: View<V = Seq<char>>, V, W>(
    s: Seq<(K, V)>,
    f: spec_fn(V) -> W,
    i: int,
)
    requires
        kv_keys_unique(s),
        0 <= i < s.len(),
    ensures
        kv_map(s, f).contains_key(s[i].0@),
        kv_map(s, f)[s[i].0@] == f(s[i].1),
    decreases s.len(),
{
    if i == s.len() - 1 {
    } else {
        assert(s.drop_last()[i] == s[i]);
        lemma_kv_map_index(s.drop_last(), f, i);
        assert(s[i].0@ != s.last().0@);
    }
}

/// Replacing the value of one entry, keeping its key, turns the map into an
/// insert at that key.
pub proof fn lemma_kv_map_update<K: View<V = Seq<char>>, V, W>(
    s: Seq<(K, V)>,
    f: spec_fn(V) -> W,
    i: int,
    e: (K, V),
)
    requires
        kv_keys_unique(s),
        0 <= i < s.len(),
        e.0@ == s[i].0@,
    ensures
        kv_map(s.update(i, e), f) == kv_map(s, f).insert(e.0@, f(e.1)),
    decreases s.len(),
{
    let s2 = s.update(i, e);
    if i == s.len() - 1 {
        assert(s2.drop_last() =~= s.drop_last());
        assert(s2.last() == e);
    } else {
        assert(s2.drop_last() =~= s.drop_last().update(i, e));
        assert(s.drop_last()[i] == s[i]);
        lemma_kv_map_update(s.drop_last(), f, i, e);
        assert(s2.last() == s.last());
        assert(s.last().0@ != e.0@);
        assert(kv_map(s2, f) =~= kv_map(s, f).insert(e.0@, f(e.1)));
    }
}

/// Removing one entry of a uniquely-keyed list removes its key from the
/// map.
pub proof fn lemma_kv_map_remove<K: View<V = Seq<char>>, V, W>(
    s: Seq<(K, V)>,
    f: spec_fn(V) -> W,
    i: int,
)
    requires
        kv_keys_unique(s),
        0 <= i < s.len(),
    ensures
        kv_map(s.remove(i), f) == kv_map(s, f).remove(s[i].0@),
    decreases s.len(),
{
    let s2 = s.remove(i);
    if i == s.len() - 1 {
        assert(s2 =~= s.drop_last());
        lemma_kv_map_contains(s.drop_last(), f, s[i].0@);
        assert(forall|j: int|
            0 <= j < s.drop_last().len() ==> (#[trigger] s.drop_last()[j]).0@ != s[i].0@);
        assert(!kv_map(s.drop_last(), f).contains_key(s[i].0@));
        assert(kv_map(s2, f) =~= kv_map(s, f).remove(s[i].0@));
    } else {
        assert(s2.drop_last() =~= s.drop_last().remove(i));
        assert(s.drop_last()[i] == s[i]);
        lemma_kv_map_remove(s.drop_last(), f, i);
        assert(s2.last() == s.last());
        assert(s.last().0@ != s[i].0@);
        assert(kv_map(s2, f) =~= kv_map(s, f).remove(s[i].0@));
    }
}

/// Removing an entry keeps the keys unique.
pub proof fn lemma_kv_keys_unique_remove<K: View<V = Seq<char>>, V>(s: Seq<(K, V)>, i: int)
    requires
        kv_keys_unique(s),
        0 <= i < s.len(),
    ensures
        kv_keys_unique(s.remove(i)),
{
    let s2 = s.remove(i);
    assert forall|a: int, b: int| 0 <= a < b < s2.len() implies (#[trigger] s2[a]).0@
        != (#[trigger] s2[b]).0@ by {
        let a0 = if a < i {
            a
        } else {
            a + 1
        };
        let b0 = if b < i {
            b
        } else {
            b + 1
        };
        assert(s2[a] == s[a0]);
        assert(s2[b] == s[b0]);
    }
}

/// No duplicates among a sequence of id views.
pub open spec fn views_no_dups(s: Seq<Seq<char>>) -> bool {
    forall|i: int, j: int| #![trigger s[i], s[j]] 0 <= i < j < s.len() ==> s[i] != s[j]
}

/// Membership in a pushed sequence: the new element, or an old member.
pub proof fn lemma_push_contains(s: Seq<Seq<char>>, x: Seq<char>, y: Seq<char>)
    ensures
        s.push(x).contains(y) <==> (s.contains(y) || y == x),
{
    if s.push(x).contains(y) {
        let i = choose|i: int| 0 <= i < s.push(x).len() && s.push(x)[i] == y;
        if i < s.len() {
            assert(s[i] == y);
        }
    }
    if s.contains(y) {
        let i = choose|i: int| 0 <= i < s.len() && s[i] == y;
        assert(s.push(x)[i] == y);
    }
    assert(s.push(x)[s.len() as int] == x);
}

/// Pushing a fresh element keeps a sequence duplicate-free.
pub proof fn lemma_push_no_dups(s: Seq<Seq<char>>, x: Seq<char>)
    requires
        views_no_dups(s),
        !s.contains(x),
    ensures
        views_no_dups(s.push(x)),
{
    assert forall|i: int, j: int| 0 <= i < j < s.push(x).len() implies s.push(x)[i] != s.push(
        x,
    )[j] by {
        if j < s.len() {
            assert(s.push(x)[i] == s[i] && s.push(x)[j] == s[j]);
        } else {
            assert(s.push(x)[i] == s[i]);
            assert(s.contains(s[i])) by {
                assert(0 <= i < s.len());
            }
        }
    }
}

/// An id view sequence holds an element exactly when it survives the
/// filter and was there before.
pub proof fn lemma_filter_membership(
    s: Seq<Seq<char>>,
    pred: spec_fn(Seq<char>) -> bool,
    x: Seq<char>,
)
    ensures
        s.filter(pred).contains(x) <==> (s.contains(x) && pred(x)),
    decreases s.len(),
{
    reveal(Seq::filter);
    if s.len() > 0 {
        lemma_filter_membership(s.drop_last(), pred, x);
        assert(s.contains(x) <==> (s.drop_last().contains(x) || s.last() == x)) by {
            if s.contains(x) {
                let i = choose|i: int| 0 <= i < s.len() && s[i] == x;
                if i < s.len() - 1 {
                    assert(s.drop_last()[i] == x);
                }
            }
            if s.drop_last().contains(x) {
                let i = choose|i: int| 0 <= i < s.drop_last().len() && s.drop_last()[i] == x;
                assert(s[i] == x);
            }
            if s.last() == x {
                assert(s[s.len() - 1] == x);
            }
        }
        if pred(s.last()) {
            let fdl = s.drop_last().filter(pred);
            assert(s.filter(pred) == fdl.push(s.last()));
            assert(s.filter(pred).contains(x) <==> (fdl.contains(x) || s.last() == x)) by {
                if s.filter(pred).contains(x) {
                    let i = choose|i: int| 0 <= i < s.filter(pred).len() && s.filter(pred)[i] == x;
                    if i < fdl.len() {
                        assert(fdl[i] == x);
                    }
                }
                if fdl.contains(x) {
                    let i = choose|i: int| 0 <= i < fdl.len() && fdl[i] == x;
                    assert(fdl.push(s.last())[i] == x);
                }
                if s.last() == x {
                    assert(fdl.push(s.last())[fdl.len() as int] == x);
                }
            }
        }
    }
}

/// Filtering keeps an id view sequence duplicate-free.
pub proof fn lemma_filter_no_dups(s: Seq<Seq<char>>, pred: spec_fn(Seq<char>) -> bool)
    requires
        views_no_dups(s),
    ensures
        views_no_dups(s.filter(pred)),
    decreases s.len(),
{
    reveal(Seq::filter);
    if s.len() > 0 {
        let dl = s.drop_last();
        assert(views_no_dups(dl)) by {
            assert(forall|i: int| 0 <= i < dl.len() ==> dl[i] == s[i]);
        }
        lemma_filter_no_dups(dl, pred);
        if pred(s.last()) {
            let fdl = dl.filter(pred);
            assert(!fdl.contains(s.last())) by {
                lemma_filter_membership(dl, pred, s.last());
                if dl.contains(s.last()) {
                    let i = choose|i: int| 0 <= i < dl.len() && dl[i] == s.last();
                    assert(s[i] == s[s.len() - 1]);
                }
            }
            let out = fdl.push(s.last());
            assert(views_no_dups(out)) by {
                assert forall|i: int, j: int| 0 <= i < j < out.len() implies out[i] != out[j] by {
                    if j < fdl.len() {
                        assert(out[i] == fdl[i] && out[j] == fdl[j]);
                    } else {
                        assert(out[j] == s.last());
                        assert(out[i] == fdl[i]);
                        assert(fdl.contains(fdl[i])) by {
                            assert(0 <= i < fdl.len());
                        }
                    }
                }
            }
        }
    }
}

/// A sequence all of whose elements survive the filter is unchanged by
/// it.
pub proof fn lemma_filter_all_kept<A>(s: Seq<A>, pred: spec_fn(A) -> bool)
    requires
        forall|i: int| 0 <= i < s.len() ==> pred(#[trigger] s[i]),
    ensures
        s.filter(pred) == s,
    decreases s.len(),
{
    reveal(Seq::filter);
    if s.len() > 0 {
        let dl = s.drop_last();
        assert(forall|i: int| 0 <= i < dl.len() ==> pred(#[trigger] dl[i])) by {
            assert(forall|i: int| 0 <= i < dl.len() ==> dl[i] == s[i]);
        }
        lemma_filter_all_kept(dl, pred);
        assert(pred(s[s.len() - 1]));
        assert(s.filter(pred) =~= s);
    }
}

/// The filter that keeps every id but `src`.
pub open spec fn keeps_other(src: Seq<char>) -> spec_fn(Seq<char>) -> bool {
    |x: Seq<char>| x != src
}

/// One retraction step of the index: drop `src` from the entry recorded for
/// `t`, pruning the entry when it empties. A missing entry stays missing.
pub open spec fn remove_backref(
    m: Map<Seq<char>, Seq<Seq<char>>>,
    t: Seq<char>,
    src: Seq<char>,
) -> Map<Seq<char>, Seq<Seq<char>>> {
    if m.contains_key(t) {
        let entry = m[t].filter(keeps_other(src));
        if entry.len() == 0 {
            m.remove(t)
        } else {
            m.insert(t, entry)
        }
    } else {
        m
    }
}

/// One extension step of the index: record `src` under `t`, creating the
/// entry when absent and leaving it alone when `src` is already recorded.
pub open spec fn add_backref(
    m: Map<Seq<char>, Seq<Seq<char>>>,
    t: Seq<char>,
    src: Seq<char>,
) -> Map<Seq<char>, Seq<Seq<char>>> {
    if m.contains_key(t) {
        if m[t].contains(src) {
            m
        } else {
            m.insert(t, m[t].push(src))
        }
    } else {
        m.insert(t, seq![src])
    }
}

/// Retract `src` from the entries of all the listed targets, in order.
pub open spec fn retract_all(
    m: Map<Seq<char>, Seq<Seq<char>>>,
    targets: Seq<Seq<char>>,
    src: Seq<char>,
) -> Map<Seq<char>, Seq<Seq<char>>>
    decreases targets.len(),
{
    if targets.len() == 0 {
        m
    } else {
        remove_backref(retract_all(m, targets.drop_last(), src), targets.last(), src)
    }
}

/// Record `src` under all the listed targets, in order.
pub open spec fn extend_all(
    m: Map<Seq<char>, Seq<Seq<char>>>,
    targets: Seq<Seq<char>>,
    src: Seq<char>,
) -> Map<Seq<char>, Seq<Seq<char>>>
    decreases targets.len(),
{
    if targets.len() == 0 {
        m
    } else {
        add_backref(extend_all(m, targets.drop_last(), src), targets.last(), src)
    }
}

/// The map described by the back-reference association list.
pub open spec fn brm(s: Seq<(ThoughtID, Vec<ThoughtID>)>) -> Map<Seq<char>, Seq<Seq<char>>> {
    kv_map(s, |v: Vec<ThoughtID>| id_views(v@))
}

/// Every entry of the index is nonempty and free of duplicates.
pub open spec fn entries_wf(br: Map<Seq<char>, Seq<Seq<char>>>) -> bool {
    forall|t: Seq<char>| #[trigger]
        br.contains_key(t) ==> br[t].len() > 0 && views_no_dups(br[t])
}

/// Two maps agree at a key: present in one exactly when present in the
/// other, with the same value.
pub open spec fn same_entry(
    a: Map<Seq<char>, Seq<Seq<char>>>,
    b: Map<Seq<char>, Seq<Seq<char>>>,
    t: Seq<char>,
) -> bool {
    &&& a.contains_key(t) == b.contains_key(t)
    &&& (a.contains_key(t) ==> a[t] == b[t])
}

/// The entry at `t` looks as it must after `src` was retracted from it.
pub open spec fn retracted_entry(
    r: Map<Seq<char>, Seq<Seq<char>>>,
    m0: Map<Seq<char>, Seq<Seq<char>>>,
    t: Seq<char>,
    src: Seq<char>,
) -> bool {
    if m0.contains_key(t) {
        let e = m0[t].filter(keeps_other(src));
        if e.len() == 0 {
            !r.contains_key(t)
        } else {
            r.contains_key(t) && r[t] == e
        }
    } else {
        !r.contains_key(t)
    }
}

/// The entry at `t` looks as it must after `src` was recorded under it.
pub open spec fn extended_entry(
    r: Map<Seq<char>, Seq<Seq<char>>>,
    m0: Map<Seq<char>, Seq<Seq<char>>>,
    t: Seq<char>,
    src: Seq<char>,
) -> bool {
    if m0.contains_key(t) {
        r.contains_key(t) && r[t] == (if m0[t].contains(src) {
            m0[t]
        } else {
            m0[t].push(src)
        })
    } else {
        r.contains_key(t) && r[t] == seq![src]
    }
}

/// What `retract_all` does, key by key: listed targets lose `src` (and are
/// pruned when that empties them); every other key is untouched.
pub proof fn lemma_retract_all_shape(
    m0: Map<Seq<char>, Seq<Seq<char>>>,
    targets: Seq<Seq<char>>,
    src: Seq<char>,
)
    ensures
        forall|t: Seq<char>| #![trigger targets.contains(t)]
            !targets.contains(t) ==> same_entry(retract_all(m0, targets, src), m0, t),
        forall|t: Seq<char>| #![trigger targets.contains(t)]
            targets.contains(t) ==> retracted_entry(retract_all(m0, targets, src), m0, t, src),
    decreases targets.len(),
{
    if targets.len() > 0 {
        let dl = targets.drop_last();
        let last = targets.last();
        let mid = retract_all(m0, dl, src);
        let out = retract_all(m0, targets, src);
        lemma_retract_all_shape(m0, dl, src);
        assert forall|t: Seq<char>| t != last implies same_entry(out, mid, t) by {}
        assert forall|t: Seq<char>| !targets.contains(t) implies same_entry(out, m0, t) by {
            assert(!dl.contains(t)) by {
                if dl.contains(t) {
                    let i = choose|i: int| 0 <= i < dl.len() && dl[i] == t;
                    assert(targets[i] == t);
                }
            }
            assert(t != last) by {
                assert(targets[targets.len() - 1] == last);
            }
        }
        assert forall|t: Seq<char>| targets.contains(t) implies retracted_entry(out, m0, t, src) by {
            let pred = keeps_other(src);
            if t == last {
                if dl.contains(t) {
                    // already retracted in `mid`; the second pass changes nothing
                    assert(retracted_entry(mid, m0, t, src));
                    if m0.contains_key(t) {
                        let e = m0[t].filter(pred);
                        if e.len() == 0 {
                            assert(!mid.contains_key(t));
                            assert(!out.contains_key(t));
                        } else {
                            assert(mid[t] == e);
                            assert(forall|i: int| 0 <= i < e.len() ==> pred(#[trigger] e[i])) by {
                                assert forall|i: int| 0 <= i < e.len() implies pred(e[i]) by {
                                    assert(e.contains(e[i]));
                                    lemma_filter_membership(m0[t], pred, e[i]);
                                }
                            }
                            lemma_filter_all_kept(e, pred);
                            assert(e.filter(pred) == e);
                            assert(out.contains_key(t) && out[t] == e);
                        }
                    } else {
                        assert(!mid.contains_key(t));
                        assert(!out.contains_key(t));
                    }
                } else {
                    assert(same_entry(mid, m0, t));
                    if m0.contains_key(t) {
                        assert(mid[t] == m0[t]);
                    }
                }
            } else {
                assert(dl.contains(t)) by {
                    let i = choose|i: int| 0 <= i < targets.len() && targets[i] == t;
                    assert(i < targets.len() - 1);
                    assert(dl[i] == t);
                }
                assert(retracted_entry(mid, m0, t, src));
                assert(same_entry(out, mid, t));
            }
        }
    }
}

/// What `extend_all` does, key by key: listed targets gain `src` exactly
/// once (with a fresh entry when absent); every other key is untouched.
pub proof fn lemma_extend_all_shape(
    m0: Map<Seq<char>, Seq<Seq<char>>>,
    targets: Seq<Seq<char>>,
    src: Seq<char>,
)
    ensures
        forall|t: Seq<char>| #![trigger targets.contains(t)]
            !targets.contains(t) ==> same_entry(extend_all(m0, targets, src), m0, t),
        forall|t: Seq<char>| #![trigger targets.contains(t)]
            targets.contains(t) ==> extended_entry(extend_all(m0, targets, src), m0, t, src),
    decreases targets.len(),
{
    if targets.len() > 0 {
        let dl = targets.drop_last();
        let last = targets.last();
        let mid = extend_all(m0, dl, src);
        let out = extend_all(m0, targets, src);
        lemma_extend_all_shape(m0, dl, src);
        assert forall|t: Seq<char>| t != last implies same_entry(out, mid, t) by {}
        assert forall|t: Seq<char>| !targets.contains(t) implies same_entry(out, m0, t) by {
            assert(!dl.contains(t)) by {
                if dl.contains(t) {
                    let i = choose|i: int| 0 <= i < dl.len() && dl[i] == t;
                    assert(targets[i] == t);
                }
            }
            assert(t != last) by {
                assert(targets[targets.len() - 1] == last);
            }
        }
        assert forall|t: Seq<char>| targets.contains(t) implies extended_entry(out, m0, t, src) by {
            if t == last {
                if dl.contains(t) {
                    // `src` is already recorded in `mid`; the second pass
                    // changes nothing
                    assert(extended_entry(mid, m0, t, src));
                    assert(mid.contains_key(t));
                    assert(mid[t].contains(src)) by {
                        if m0.contains_key(t) {
                            if m0[t].contains(src) {
                                assert(mid[t] == m0[t]);
                            } else {
                                assert(mid[t] == m0[t].push(src));
                                assert(mid[t][m0[t].len() as int] == src);
                            }
                        } else {
                            assert(mid[t] == seq![src]);
                            assert(mid[t][0] == src);
                        }
                    }
                    assert(out == add_backref(mid, t, src));
                    assert(out[t] == mid[t]);
                } else {
                    assert(same_entry(mid, m0, t));
                }
            } else {
                assert(dl.contains(t)) by {
                    let i = choose|i: int| 0 <= i < targets.len() && targets[i] == t;
                    assert(i < targets.len() - 1);
                    assert(dl[i] == t);
                }
                assert(extended_entry(mid, m0, t, src));
                assert(same_entry(out, mid, t));
            }
        }
    }
}

/// Retraction and extension keep the index entries nonempty and
/// duplicate-free.
pub proof fn lemma_retract_all_entries_wf(
    m0: Map<Seq<char>, Seq<Seq<char>>>,
    targets: Seq<Seq<char>>,
    src: Seq<char>,
)
    requires
        entries_wf(m0),
    ensures
        entries_wf(retract_all(m0, targets, src)),
{
    lemma_retract_all_shape(m0, targets, src);
    let out = retract_all(m0, targets, src);
    assert forall|t: Seq<char>| #[trigger]
        out.contains_key(t) implies out[t].len() > 0 && views_no_dups(out[t]) by {
        if targets.contains(t) {
            assert(retracted_entry(out, m0, t, src));
            assert(m0.contains_key(t));
            lemma_filter_no_dups(m0[t], keeps_other(src));
        } else {
            assert(same_entry(out, m0, t));
        }
    }
}

/// See [`lemma_retract_all_entries_wf`].
pub proof fn lemma_extend_all_entries_wf(
    m0: Map<Seq<char>, Seq<Seq<char>>>,
    targets: Seq<Seq<char>>,
    src: Seq<char>,
)
    requires
        entries_wf(m0),
        forall|t: Seq<char>| #[trigger] m0.contains_key(t) ==> !m0[t].contains(src),
    ensures
        entries_wf(extend_all(m0, targets, src)),
{
    lemma_extend_all_shape(m0, targets, src);
    let out = extend_all(m0, targets, src);
    assert forall|t: Seq<char>| #[trigger]
        out.contains_key(t) implies out[t].len() > 0 && views_no_dups(out[t]) by {
        if targets.contains(t) {
            assert(extended_entry(out, m0, t, src));
            if m0.contains_key(t) {
                assert(!m0[t].contains(src));
                let e = m0[t].push(src);
                assert(out[t] == e);
                assert(views_no_dups(e)) by {
                    assert forall|i: int, j: int| 0 <= i < j < e.len() implies e[i] != e[j] by {
                        if j < e.len() - 1 {
                            assert(e[i] == m0[t][i] && e[j] == m0[t][j]);
                        } else {
                            assert(e[j] == src);
                            assert(e[i] == m0[t][i]);
                            assert(m0[t].contains(m0[t][i]));
                        }
                    }
                }
            } else {
                let e = seq![src];
                assert(out[t] == e);
                assert(views_no_dups(e));
            }
        } else {
            assert(same_entry(out, m0, t));
        }
    }
}

/// After a sound index is retracted along every target of `src`, no entry
/// records `src` any longer.
pub proof fn lemma_retracted_no_src(
    br0: Map<Seq<char>, Seq<Seq<char>>>,
    tm0: Map<Seq<char>, ThoughtView>,
    src: Seq<char>,
)
    requires
        index_sound(br0, tm0),
    ensures
        forall|t: Seq<char>| #[trigger]
            retract_all(br0, old_targets_of(tm0, src), src).contains_key(t) ==> !retract_all(
                br0,
                old_targets_of(tm0, src),
                src,
            )[t].contains(src),
{
    let targets = old_targets_of(tm0, src);
    let mid = retract_all(br0, targets, src);
    lemma_retract_all_shape(br0, targets, src);
    let pred = keeps_other(src);
    assert forall|t: Seq<char>| #[trigger]
        mid.contains_key(t) implies !mid[t].contains(src) by {
        if targets.contains(t) {
            assert(retracted_entry(mid, br0, t, src));
            assert(mid[t] == br0[t].filter(pred));
            lemma_filter_membership(br0[t], keeps_other(src), src);
        } else {
            assert(same_entry(mid, br0, t));
            if br0[t].contains(src) {
                assert(referrers_in(tm0, t).contains(src));
                assert(tm0.contains_key(src) && tm0[src].references_target(t));
                assert(targets == ref_targets(tm0[src].references));
                assert(targets.contains(t));
            }
        }
    }
}

/// The targets an existing thought contributes to the index: the targets of
/// its references, or none when the id is not a stored thought.
pub open spec fn old_targets_of(tm: Map<Seq<char>, ThoughtView>, id: Seq<char>) -> Seq<Seq<char>> {
    if tm.contains_key(id) {
        ref_targets(tm[id].references)
    } else {
        Seq::empty()
    }
}

/// Retracting a thought's contributions leaves an index that is sound for
/// the store without that thought.
pub proof fn lemma_mid_sound(
    br0: Map<Seq<char>, Seq<Seq<char>>>,
    tm0: Map<Seq<char>, ThoughtView>,
    src: Seq<char>,
)
    requires
        index_sound(br0, tm0),
    ensures
        index_sound(retract_all(br0, old_targets_of(tm0, src), src), tm0.remove(src)),
{
    let targets = old_targets_of(tm0, src);
    let mid = retract_all(br0, targets, src);
    lemma_retract_all_shape(br0, targets, src);
    assert forall|t: Seq<char>, s: Seq<char>|
        mid.contains_key(t) && #[trigger] mid[t].contains(s) implies referrers_in(
        tm0.remove(src),
        t,
    ).contains(s) by {
        if targets.contains(t) {
            assert(retracted_entry(mid, br0, t, src));
            assert(mid[t] == br0[t].filter(keeps_other(src)));
            lemma_filter_membership(br0[t], keeps_other(src), s);
            assert(br0[t].contains(s) && s != src);
            assert(referrers_in(tm0, t).contains(s));
        } else {
            assert(same_entry(mid, br0, t));
            assert(br0[t].contains(s));
            assert(referrers_in(tm0, t).contains(s));
            if s == src {
                assert(tm0.contains_key(src) && tm0[src].references_target(t));
                assert(targets == ref_targets(tm0[src].references));
                assert(targets.contains(t));
            }
        }
    }
}

/// The index transition performed by putting a thought: retract the old
/// version's contributions, then record the new version's.
pub open spec fn put_index(
    br0: Map<Seq<char>, Seq<Seq<char>>>,
    tm0: Map<Seq<char>, ThoughtView>,
    id: Seq<char>,
    th: ThoughtView,
) -> Map<Seq<char>, Seq<Seq<char>>> {
    extend_all(retract_all(br0, old_targets_of(tm0, id), id), ref_targets(th.references), id)
}

/// The index transition performed by deleting a thought: retract its
/// contributions, then drop the entry recorded under its own id.
pub open spec fn delete_index(
    br0: Map<Seq<char>, Seq<Seq<char>>>,
    tm0: Map<Seq<char>, ThoughtView>,
    id: Seq<char>,
) -> Map<Seq<char>, Seq<Seq<char>>> {
    retract_all(br0, old_targets_of(tm0, id), id).remove(id)
}

/// Putting a thought keeps the index sound, keeps its entries well formed,
/// and keeps it complete when it was complete.
pub proof fn lemma_put_thought_index(
    br0: Map<Seq<char>, Seq<Seq<char>>>,
    tm0: Map<Seq<char>, ThoughtView>,
    id: Seq<char>,
    th: ThoughtView,
)
    requires
        index_sound(br0, tm0),
        entries_wf(br0),
    ensures
        index_sound(put_index(br0, tm0, id, th), tm0.insert(id, th)),
        entries_wf(put_index(br0, tm0, id, th)),
        index_complete_for(br0, tm0) ==> index_complete_for(
            put_index(br0, tm0, id, th),
            tm0.insert(id, th),
        ),
{
    let old_t = old_targets_of(tm0, id);
    let new_t = ref_targets(th.references);
    let mid = retract_all(br0, old_t, id);
    let out = extend_all(mid, new_t, id);
    let tm1 = tm0.insert(id, th);
    lemma_retract_all_shape(br0, old_t, id);
    lemma_extend_all_shape(mid, new_t, id);
    lemma_retracted_no_src(br0, tm0, id);
    lemma_mid_sound(br0, tm0, id);
    lemma_retract_all_entries_wf(br0, old_t, id);
    lemma_extend_all_entries_wf(mid, new_t, id);

    // soundness
    assert forall|t: Seq<char>, s: Seq<char>|
        out.contains_key(t) && #[trigger] out[t].contains(s) implies referrers_in(
        tm1,
        t,
    ).contains(s) by {
        if s == id {
            if new_t.contains(t) {
                assert(th.references_target(t));
                assert(tm1.contains_key(id) && tm1[id] == th);
            } else {
                assert(same_entry(out, mid, t));
                assert(mid[t].contains(id));
                assert(false);
            }
        } else {
            if new_t.contains(t) {
                assert(extended_entry(out, mid, t, id));
                if mid.contains_key(t) {
                    if mid[t].contains(id) {
                        assert(out[t] == mid[t]);
                    } else {
                        assert(out[t] == mid[t].push(id));
                        let i = choose|i: int| 0 <= i < out[t].len() && out[t][i] == s;
                        assert(i < mid[t].len());
                        assert(mid[t].contains(s));
                    }
                } else {
                    assert(out[t] == seq![id]);
                    assert(out[t][0] == id);
                    let i = choose|i: int| 0 <= i < out[t].len() && out[t][i] == s;
                    assert(false);
                }
            } else {
                assert(same_entry(out, mid, t));
            }
            assert(mid.contains_key(t) && mid[t].contains(s));
            assert(referrers_in(tm0.remove(id), t).contains(s));
            assert(tm1.contains_key(s) && tm1[s] == tm0.remove(id)[s]);
        }
    }

    // completeness
    if index_complete_for(br0, tm0) {
        assert forall|t: Seq<char>, s: Seq<char>| #[trigger]
            referrers_in(tm1, t).contains(s) implies out.contains_key(t) && out[t].contains(
            s,
        ) by {
            if s == id {
                assert(tm1[id] == th && th.references_target(t));
                assert(new_t.contains(t));
                assert(extended_entry(out, mid, t, id));
                if mid.contains_key(t) {
                    if mid[t].contains(id) {
                        assert(out[t] == mid[t]);
                    } else {
                        assert(out[t] == mid[t].push(id));
                        assert(out[t][mid[t].len() as int] == id);
                    }
                } else {
                    assert(out[t] == seq![id]);
                    assert(out[t][0] == id);
                }
            } else {
                assert(tm0.contains_key(s) && tm0[s].references_target(t));
                assert(referrers_in(tm0, t).contains(s));
                assert(br0.contains_key(t) && br0[t].contains(s));
                // `s` survives the retraction
                assert(mid.contains_key(t) && mid[t].contains(s)) by {
                    if old_t.contains(t) {
                        assert(retracted_entry(mid, br0, t, id));
                        lemma_filter_membership(br0[t], keeps_other(id), s);
                        assert(br0[t].filter(keeps_other(id)).contains(s));
                        assert(br0[t].filter(keeps_other(id)).len() > 0);
                    } else {
                        assert(same_entry(mid, br0, t));
                    }
                }
                // and the extension only adds
                if new_t.contains(t) {
                    assert(extended_entry(out, mid, t, id));
                    if mid[t].contains(id) {
                        assert(out[t] == mid[t]);
                    } else {
                        assert(out[t] == mid[t].push(id));
                        let i = choose|i: int| 0 <= i < mid[t].len() && mid[t][i] == s;
                        assert(out[t][i] == s);
                    }
                } else {
                    assert(same_entry(out, mid, t));
                }
            }
        }
    }
}

/// Deleting a thought keeps the index sound and its entries well formed;
/// it keeps the index complete when it was complete and no other thought
/// still references the deleted id.
pub proof fn lemma_delete_thought_index(
    br0: Map<Seq<char>, Seq<Seq<char>>>,
    tm0: Map<Seq<char>, ThoughtView>,
    id: Seq<char>,
)
    requires
        index_sound(br0, tm0),
        entries_wf(br0),
    ensures
        index_sound(delete_index(br0, tm0, id), tm0.remove(id)),
        entries_wf(delete_index(br0, tm0, id)),
        (index_complete_for(br0, tm0) && (forall|s: Seq<char>| #[trigger]
            referrers_in(tm0, id).contains(s) ==> s == id)) ==> index_complete_for(
            delete_index(br0, tm0, id),
            tm0.remove(id),
        ),
{
    let old_t = old_targets_of(tm0, id);
    let mid = retract_all(br0, old_t, id);
    let out = mid.remove(id);
    let tm1 = tm0.remove(id);
    lemma_retract_all_shape(br0, old_t, id);
    lemma_mid_sound(br0, tm0, id);
    lemma_retract_all_entries_wf(br0, old_t, id);

    assert forall|t: Seq<char>, s: Seq<char>|
        out.contains_key(t) && #[trigger] out[t].contains(s) implies referrers_in(
        tm1,
        t,
    ).contains(s) by {
        assert(mid.contains_key(t) && mid[t] == out[t]);
    }
    assert(entries_wf(out)) by {
        assert forall|t: Seq<char>| #[trigger]
            out.contains_key(t) implies out[t].len() > 0 && views_no_dups(out[t]) by {
            assert(mid.contains_key(t) && mid[t] == out[t]);
        }
    }
    if index_complete_for(br0, tm0) && (forall|s: Seq<char>| #[trigger]
        referrers_in(tm0, id).contains(s) ==> s == id) {
        assert forall|t: Seq<char>, s: Seq<char>| #[trigger]
            referrers_in(tm1, t).contains(s) implies out.contains_key(t) && out[t].contains(
            s,
        ) by {
            assert(tm1.contains_key(s) && tm1[s].references_target(t));
            assert(s != id);
            assert(tm0.contains_key(s) && tm0[s] == tm1[s]);
            assert(referrers_in(tm0, t).contains(s));
            assert(br0.contains_key(t) && br0[t].contains(s));
            assert(t != id) by {
                if t == id {
                    assert(referrers_in(tm0, id).contains(s));
                }
            }
            assert(mid.contains_key(t) && mid[t].contains(s)) by {
                if old_t.contains(t) {
                    assert(retracted_entry(mid, br0, t, id));
                    lemma_filter_membership(br0[t], keeps_other(id), s);
                    assert(br0[t].filter(keeps_other(id)).contains(s));
                    assert(br0[t].filter(keeps_other(id)).len() > 0);
                } else {
                    assert(same_entry(mid, br0, t));
                }
            }
        }
    }
}

/// Copy of an id list.
fn clone_ids(v: &Vec<ThoughtID>) -> (r: Vec<ThoughtID>)
    ensures
        r@ == v@,
{
    let r = v.clone();
    proof {
        assert forall|i: int| 0 <= i < v@.len() implies r@[i] == v@[i] by {
            assert(vstd::pervasive::cloned::<ThoughtID>(v[i], r[i]));
        }
        assert(r@ =~= v@);
    }
    r
}

/// The id list with every occurrence of `src` removed, order kept.
fn filter_out_id(v: &Vec<ThoughtID>, src: &ThoughtID) -> (r: Vec<ThoughtID>)
    ensures
        id_views(r@) == id_views(v@).filter(keeps_other(src@)),
{
    let ghost pred = keeps_other(src@);
    let ghost views = id_views(v@);
    let mut kept: Vec<ThoughtID> = Vec::new();
    let mut i: usize = 0;
    proof {
        assert(views.subrange(0, 0) =~= Seq::<Seq<char>>::empty());
        reveal(Seq::filter);
    }
    while i < v.len()
        invariant
            0 <= i <= v@.len(),
            views == id_views(v@),
            id_views(kept@) == views.subrange(0, i as int).filter(pred),
            pred == keeps_other(src@),
        decreases v@.len() - i,
    {
        let keep = !(v[i].id == src.id);
        proof {
            let prefix = views.subrange(0, i as int);
            let next = views.subrange(0, i as int + 1);
            assert(next.drop_last() =~= prefix);
            assert(next.last() == views[i as int]);
            reveal(Seq::filter);
        }
        if keep {
            let ghost kept_views = id_views(kept@);
            kept.push(v[i].clone());
            proof {
                assert(id_views(kept@) =~= kept_views.push(kept@.last()@));
            }
        }
        i = i + 1;
    }
    proof {
        assert(views.subrange(0, views.len() as int) =~= views);
    }
    kept
}

/// Index of the entry holding `id` in the back-reference list, if any.
fn find_backref_index(index: &Vec<(ThoughtID, Vec<ThoughtID>)>, id: &ThoughtID) -> (r: Option<
    usize,
>)
    ensures
        match r {
            Some(i) => i < index@.len() && index@[i as int].0@ == id@,
            None => forall|i: int| 0 <= i < index@.len() ==> (#[trigger] index@[i]).0@ != id@,
        },
{
    let mut i: usize = 0;
    while i < index.len()
        invariant
            0 <= i <= index@.len(),
            forall|j: int| 0 <= j < i ==> (#[trigger] index@[j]).0@ != id@,
        decreases index@.len() - i,
    {
        if index[i].0.id == id.id {
            return Some(i);
        }
        i = i + 1;
    }
    None
}

/// Drops `source` from the entry recorded for `target`, pruning the entry
/// when it empties.
fn backrefs_remove_source(
    index: &mut Vec<(ThoughtID, Vec<ThoughtID>)>,
    target: &ThoughtID,
    source: &ThoughtID,
)
    requires
        kv_keys_unique(old(index)@),
    ensures
        kv_keys_unique(final(index)@),
        brm(final(index)@) == remove_backref(brm(old(index)@), target@, source@),
{
    let ghost f = |v: Vec<ThoughtID>| id_views(v@);
    let ghost s0 = index@;
    let idx = find_backref_index(index, target);
    proof {
        lemma_kv_map_contains(s0, f, target@);
    }
    match idx {
        None => {
            proof {
                assert(!brm(s0).contains_key(target@));
            }
        },
        Some(i) => {
            proof {
                lemma_kv_map_index(s0, f, i as int);
            }
            let filtered = filter_out_id(&index[i].1, source);
            if filtered.len() == 0 {
                index.remove(i);
                proof {
                    lemma_kv_map_remove(s0, f, i as int);
                    lemma_kv_keys_unique_remove(s0, i as int);
                    assert(brm(index@) =~= remove_backref(brm(s0), target@, source@));
                }
            } else {
                let key = index[i].0.clone();
                index.set(i, (key, filtered));
                proof {
                    let e = index@[i as int];
                    lemma_kv_map_update(s0, f, i as int, e);
                    assert(index@ =~= s0.update(i as int, e));
                    assert(kv_keys_unique(index@)) by {
                        assert forall|a: int, b: int|
                            0 <= a < b < index@.len() implies (#[trigger] index@[a]).0@
                            != (#[trigger] index@[b]).0@ by {
                            assert(index@[a].0@ == s0[a].0@);
                            assert(index@[b].0@ == s0[b].0@);
                        }
                    }
                    assert(brm(index@) =~= remove_backref(brm(s0), target@, source@));
                }
            }
        },
    }
}

/// Records `source` under `target`, creating the entry when absent and
/// leaving it alone when `source` is already recorded.
fn backrefs_add_source(
    index: &mut Vec<(ThoughtID, Vec<ThoughtID>)>,
    target: &ThoughtID,
    source: &ThoughtID,
)
    requires
        kv_keys_unique(old(index)@),
    ensures
        kv_keys_unique(final(index)@),
        brm(final(index)@) == add_backref(brm(old(index)@), target@, source@),
{
    let ghost f = |v: Vec<ThoughtID>| id_views(v@);
    let ghost s0 = index@;
    let idx = find_backref_index(index, target);
    proof {
        lemma_kv_map_contains(s0, f, target@);
    }
    match idx {
        None => {
            proof {
                assert(!brm(s0).contains_key(target@));
            }
            let mut entry: Vec<ThoughtID> = Vec::new();
            entry.push(source.clone());
            index.push((target.clone(), entry));
            proof {
                assert(index@.drop_last() =~= s0);
                assert(id_views(index@.last().1@) =~= seq![source@]);
                assert(brm(index@) =~= add_backref(brm(s0), target@, source@));
                assert(kv_keys_unique(index@)) by {
                    assert forall|a: int, b: int|
                        0 <= a < b < index@.len() implies (#[trigger] index@[a]).0@
                        != (#[trigger] index@[b]).0@ by {
                        if b < index@.len() - 1 {
                            assert(index@[a] == s0[a]);
                            assert(index@[b] == s0[b]);
                        } else {
                            assert(index@[a] == s0[a]);
                            assert(index@[b].0@ == target@);
                        }
                    }
                }
            }
        },
        Some(i) => {
            proof {
                lemma_kv_map_index(s0, f, i as int);
            }
            if ids_contain(&index[i].1, source) {
                proof {
                    assert(brm(s0)[target@].contains(source@));
                }
            } else {
                let key = index[i].0.clone();
                let ghost old_entry = index@[i as int].1@;
                let mut entry = clone_ids(&index[i].1);
                entry.push(source.clone());
                proof {
                    assert(id_views(entry@) =~= id_views(old_entry).push(source@));
                }
                index.set(i, (key, entry));
                proof {
                    let e = index@[i as int];
                    lemma_kv_map_update(s0, f, i as int, e);
                    assert(index@ =~= s0.update(i as int, e));
                    assert(kv_keys_unique(index@)) by {
                        assert forall|a: int, b: int|
                            0 <= a < b < index@.len() implies (#[trigger] index@[a]).0@
                            != (#[trigger] index@[b]).0@ by {
                            assert(index@[a].0@ == s0[a].0@);
                            assert(index@[b].0@ == s0[b].0@);
                        }
                    }
                    assert(brm(index@) =~= add_backref(brm(s0), target@, source@));
                }
            }
        },
    }
}

/// Drops the whole entry recorded under `id`, if any.
fn backrefs_remove_key(index: &mut Vec<(ThoughtID, Vec<ThoughtID>)>, id: &ThoughtID)
    requires
        kv_keys_unique(old(index)@),
    ensures
        kv_keys_unique(final(index)@),
        brm(final(index)@) == brm(old(index)@).remove(id@),
{
    let ghost f = |v: Vec<ThoughtID>| id_views(v@);
    let ghost s0 = index@;
    let idx = find_backref_index(index, id);
    proof {
        lemma_kv_map_contains(s0, f, id@);
    }
    match idx {
        None => {
            proof {
                assert(!brm(s0).contains_key(id@));
                assert(brm(s0).remove(id@) =~= brm(s0));
            }
        },
        Some(i) => {
            index.remove(i);
            proof {
                lemma_kv_map_remove(s0, f, i as int);
                lemma_kv_keys_unique_remove(s0, i as int);
            }
        },
    }
}

/// The set of ids of thoughts in `tm` that reference `t`.
pub open spec fn referrers_in(tm: Map<Seq<char>, ThoughtView>, t: Seq<char>) -> Set<Seq<char>> {
    Set::new(|s: Seq<char>| tm.contains_key(s) && tm[s].references_target(t))
}

/// Every recorded backlink is a thought that really references the target.
pub open spec fn index_sound(
    br: Map<Seq<char>, Seq<Seq<char>>>,
    tm: Map<Seq<char>, ThoughtView>,
) -> bool {
    forall|t: Seq<char>, s: Seq<char>|
        br.contains_key(t) && #[trigger] br[t].contains(s) ==> referrers_in(tm, t).contains(s)
}

/// Every thought that references a target is recorded under it.
pub open spec fn index_complete_for(
    br: Map<Seq<char>, Seq<Seq<char>>>,
    tm: Map<Seq<char>, ThoughtView>,
) -> bool {
    forall|t: Seq<char>, s: Seq<char>|
        #[trigger] referrers_in(tm, t).contains(s) ==> br.contains_key(t) && br[t].contains(s)
}

/// A graph of interconnected thoughts with references and tags.
///
/// The store owns three collections: the thoughts, the tags, and the derived
/// back-reference index. The index is never edited directly by callers; it
/// is recomputed incrementally by [`ThoughtGraph::command`].
pub struct ThoughtGraph {
    pub(crate) thoughts: Vec<(ThoughtID, Thought)>,
    pub(crate) backreferences: Vec<(ThoughtID, Vec<ThoughtID>)>,
    pub(crate) tags: Vec<(TagID, Tag)>,
}

impl Default for ThoughtGraph {
    /// An empty graph, as [`ThoughtGraph::new`] builds it.
    fn default() -> (r: Self)
        ensures
            r.wf(),
            r.index_complete(),
            r.thoughts_map() == Map::<Seq<char>, ThoughtView>::empty(),
            r.tags_map() == Map::<Seq<char>, TagView>::empty(),
            r.backrefs_map() == Map::<Seq<char>, Seq<Seq<char>>>::empty(),
    {
        ThoughtGraph::new()
    }
}

impl ThoughtGraph {
    /// The thoughts, as a map from id view to thought view.
    pub closed spec fn thoughts_map(&self) -> Map<Seq<char>, ThoughtView> {
        kv_map(self.thoughts@, |t: Thought| t@)
    }

    /// The tags, as a map from id view to tag view.
    pub closed spec fn tags_map(&self) -> Map<Seq<char>, TagView> {
        kv_map(self.tags@, |t: Tag| t@)
    }

    /// The back-reference index, as a map from target id view to the list
    /// of recorded source id views.
    pub closed spec fn backrefs_map(&self) -> Map<Seq<char>, Seq<Seq<char>>> {
        kv_map(self.backreferences@, |v: Vec<ThoughtID>| id_views(v@))
    }

    /// The set of sources recorded in the index for a target (empty when no
    /// entry exists).
    pub open spec fn backlink_set(&self, t: Seq<char>) -> Set<Seq<char>> {
        if self.backrefs_map().contains_key(t) {
            self.backrefs_map()[t].to_set()
        } else {
            Set::empty()
        }
    }

    /// The set of ids of stored thoughts that really reference `t`.
    pub open spec fn spec_referrers(&self, t: Seq<char>) -> Set<Seq<char>> {
        referrers_in(self.thoughts_map(), t)
    }

    /// Well-formedness: unique keys everywhere, and an index whose entries
    /// are pruned, duplicate-free, and contain only thoughts that really
    /// reference the target.
    pub closed spec fn wf(&self) -> bool {
        &&& kv_keys_unique(self.thoughts@)
        &&& kv_keys_unique(self.tags@)
        &&& kv_keys_unique(self.backreferences@)
        &&& entries_wf(self.backrefs_map())
        &&& index_sound(self.backrefs_map(), self.thoughts_map())
    }

    /// The index records every referrer of every target. This holds of a
    /// fresh graph and is preserved by every command except the deletion of
    /// a thought that other thoughts still reference.
    pub open spec fn index_complete(&self) -> bool {
        index_complete_for(self.backrefs_map(), self.thoughts_map())
    }

    /// What well-formedness gives, stated over the concrete collections.
    pub(crate) proof fn lemma_wf_parts(&self)
        requires
            self.wf(),
        ensures
            kv_keys_unique(self.thoughts@),
            kv_keys_unique(self.tags@),
            kv_keys_unique(self.backreferences@),
            entries_wf(self.backrefs_map()),
            index_sound(self.backrefs_map(), self.thoughts_map()),
    {
    }

    /// How the abstract maps relate to the concrete collections.
    pub(crate) proof fn lemma_maps_def(&self)
        ensures
            self.thoughts_map() == kv_map(self.thoughts@, |t: Thought| t@),
            self.tags_map() == kv_map(self.tags@, |t: Tag| t@),
            self.backrefs_map() == brm(self.backreferences@),
    {
    }

    /// Creates a new, empty graph.
    pub fn new() -> (r: Self)
        ensures
            r.wf(),
            r.index_complete(),
            r.thoughts_map() == Map::<Seq<char>, ThoughtView>::empty(),
            r.tags_map() == Map::<Seq<char>, TagView>::empty(),
            r.backrefs_map() == Map::<Seq<char>, Seq<Seq<char>>>::empty(),
    {
        let r = ThoughtGraph { thoughts: Vec::new(), backreferences: Vec::new(), tags: Vec::new() };
        proof {
            assert(referrers_in(r.thoughts_map(), Seq::<char>::empty()) =~= Set::<
                Seq<char>,
            >::empty());
        }
        r
    }

    /// Index of the entry holding `id` among the thoughts, if any.
    fn find_thought_index(&self, id: &ThoughtID) -> (r: Option<usize>)
        ensures
            match r {
                Some(i) => i < self.thoughts@.len() && self.thoughts@[i as int].0@ == id@,
                None => forall|i: int|
                    0 <= i < self.thoughts@.len() ==> (#[trigger] self.thoughts@[i]).0@ != id@,
            },
    {
        let mut i: usize = 0;
        while i < self.thoughts.len()
            invariant
                0 <= i <= self.thoughts@.len(),
                forall|j: int| 0 <= j < i ==> (#[trigger] self.thoughts@[j]).0@ != id@,
            decreases self.thoughts@.len() - i,
        {
            if self.thoughts[i].0.id == id.id {
                return Some(i);
            }
            i = i + 1;
        }
        None
    }

    /// Index of the entry holding `id` among the tags, if any.
    fn find_tag_index(&self, id: &TagID) -> (r: Option<usize>)
        ensures
            match r {
                Some(i) => i < self.tags@.len() && self.tags@[i as int].0@ == id@,
                None => forall|i: int|
                    0 <= i < self.tags@.len() ==> (#[trigger] self.tags@[i]).0@ != id@,
            },
    {
        let mut i: usize = 0;
        while i < self.tags.len()
            invariant
                0 <= i <= self.tags@.len(),
                forall|j: int| 0 <= j < i ==> (#[trigger] self.tags@[j]).0@ != id@,
            decreases self.tags@.len() - i,
        {
            if self.tags[i].0.id == id.id {
                return Some(i);
            }
            i = i + 1;
        }
        None
    }

    /// Gets a thought by its id.
    pub fn get_thought(&self, id: &ThoughtID) -> (r: Option<&Thought>)
        requires
            self.wf(),
        ensures
            match r {
                Some(t) => self.thoughts_map().contains_key(id@) && t@ == self.thoughts_map()[id@],
                None => !self.thoughts_map().contains_key(id@),
            },
    {
        let idx = self.find_thought_index(id);
        proof {
            lemma_kv_map_contains(self.thoughts@, |t: Thought| t@, id@);
        }
        match idx {
            Some(i) => {
                proof {
                    lemma_kv_map_index(self.thoughts@, |t: Thought| t@, i as int);
                }
                Some(&self.thoughts[i].1)
            },
            None => None,
        }
    }

    /// Gets a tag by its id.
    pub fn get_tag(&self, id: &TagID) -> (r: Option<&Tag>)
        requires
            self.wf(),
        ensures
            match r {
                Some(t) => self.tags_map().contains_key(id@) && t@ == self.tags_map()[id@],
                None => !self.tags_map().contains_key(id@),
            },
    {
        let idx = self.find_tag_index(id);
        proof {
            lemma_kv_map_contains(self.tags@, |t: Tag| t@, id@);
        }
        match idx {
            Some(i) => {
                proof {
                    lemma_kv_map_index(self.tags@, |t: Tag| t@, i as int);
                }
                Some(&self.tags[i].1)
            },
            None => None,
        }
    }

    /// All thoughts that reference the given id, as recorded by the
    /// back-reference index: the index entry, or nothing when no entry
    /// exists.
    pub fn get_backlinks(&self, id: &ThoughtID) -> (r: Vec<ThoughtID>)
        requires
            self.wf(),
        ensures
            views_no_dups(id_views(r@)),
            id_views(r@) == (if self.backrefs_map().contains_key(id@) {
                self.backrefs_map()[id@]
            } else {
                Seq::<Seq<char>>::empty()
            }),
    {
        let ghost f = |v: Vec<ThoughtID>| id_views(v@);
        let idx = find_backref_index(&self.backreferences, id);
        proof {
            lemma_kv_map_contains(self.backreferences@, f, id@);
        }
        match idx {
            Some(i) => {
                proof {
                    lemma_kv_map_index(self.backreferences@, f, i as int);
                }
                clone_ids(&self.backreferences[i].1)
            },
            None => {
                let r: Vec<ThoughtID> = Vec::new();
                proof {
                    assert(id_views(r@) =~= Seq::<Seq<char>>::empty());
                }
                r
            },
        }
    }

    /// Retracts every index contribution of the thought stored at entry
    /// `i`: for each of its reference targets, in order, its id is dropped
    /// from the target's entry.
    fn retract_thought(&mut self, id: &ThoughtID, i: usize)
        requires
            kv_keys_unique(old(self).thoughts@),
            kv_keys_unique(old(self).backreferences@),
            i < old(self).thoughts@.len(),
            old(self).thoughts@[i as int].0@ == id@,
        ensures
            final(self).thoughts@ == old(self).thoughts@,
            final(self).tags@ == old(self).tags@,
            kv_keys_unique(final(self).backreferences@),
            final(self).backrefs_map() == retract_all(
                old(self).backrefs_map(),
                old_targets_of(old(self).thoughts_map(), id@),
                id@,
            ),
    {
        let ghost br0 = self.backrefs_map();
        let ghost th0 = self.thoughts@;
        let ghost tg0 = self.tags@;
        proof {
            lemma_kv_map_index(th0, |t: Thought| t@, i as int);
        }
        let ghost old_t = old_targets_of(self.thoughts_map(), id@);
        let old_targets = collect_targets(&self.thoughts[i].1);
        proof {
            assert(id_views(old_targets@) == old_t);
            assert(old_t.subrange(0, 0) =~= Seq::<Seq<char>>::empty());
        }
        let mut k: usize = 0;
        while k < old_targets.len()
            invariant
                0 <= k <= old_targets@.len(),
                id_views(old_targets@) == old_t,
                old_targets@.len() == old_t.len(),
                kv_keys_unique(self.backreferences@),
                brm(self.backreferences@) == retract_all(br0, old_t.subrange(0, k as int), id@),
                self.thoughts@ == th0,
                self.tags@ == tg0,
            decreases old_targets@.len() - k,
        {
            let ghost prefix = old_t.subrange(0, k as int);
            backrefs_remove_source(&mut self.backreferences, &old_targets[k], id);
            proof {
                let next = old_t.subrange(0, k as int + 1);
                assert(next.drop_last() =~= prefix);
                assert(next.last() == old_t[k as int]);
                assert(old_targets@[k as int]@ == id_views(old_targets@)[k as int]);
            }
            k = k + 1;
        }
        proof {
            assert(old_t.subrange(0, old_t.len() as int) =~= old_t);
        }
    }

    /// Applies a command to the graph.
    ///
    /// The one mutation entry point. Every variant is total: a command that
    /// names a nonexistent id is a no-op for that sub-effect, never an
    /// error. The contract gives the exact new value of all three
    /// collections, and states that the back-reference index stays complete
    /// — except across the deletion of a thought that another thought still
    /// references, whose index entry is dropped by design.
    pub fn command(&mut self, command: &Command)
        requires
            old(self).wf(),
        ensures
            final(self).wf(),
            command matches Command::PutThought { id, thought } ==> {
                &&& final(self).thoughts_map() == old(self).thoughts_map().insert(id@, thought@)
                &&& final(self).tags_map() == old(self).tags_map()
                &&& final(self).backrefs_map() == put_index(
                    old(self).backrefs_map(),
                    old(self).thoughts_map(),
                    id@,
                    thought@,
                )
                &&& old(self).index_complete() ==> final(self).index_complete()
            },
            command matches Command::DeleteThought { id } ==> {
                &&& final(self).thoughts_map() == old(self).thoughts_map().remove(id@)
                &&& final(self).tags_map() == old(self).tags_map()
                &&& final(self).backrefs_map() == delete_index(
                    old(self).backrefs_map(),
                    old(self).thoughts_map(),
                    id@,
                )
                &&& (old(self).index_complete() && (forall|s: Seq<char>| #[trigger]
                    old(self).spec_referrers(id@).contains(s) ==> s == id@))
                    ==> final(self).index_complete()
            },
            command matches Command::PutTag { id, tag } ==> {
                &&& final(self).thoughts_map() == old(self).thoughts_map()
                &&& final(self).tags_map() == old(self).tags_map().insert(id@, tag@)
                &&& final(self).backrefs_map() == old(self).backrefs_map()
                &&& old(self).index_complete() ==> final(self).index_complete()
            },
            command matches Command::DeleteTag { id } ==> {
                &&& final(self).thoughts_map() == old(self).thoughts_map()
                &&& final(self).tags_map() == old(self).tags_map().remove(id@)
                &&& final(self).backrefs_map() == old(self).backrefs_map()
                &&& old(self).index_complete() ==> final(self).index_complete()
            },
    {
        match command {
            Command::PutThought { id, thought } => {
                let ghost tm0 = self.thoughts_map();
                let ghost br0 = self.backrefs_map();
                let ghost th0 = self.thoughts@;
                let ghost tg0 = self.tags@;
                let ghost old_t = old_targets_of(tm0, id@);
                let idx = self.find_thought_index(id);
                // retract the old version's contributions
                match idx {
                    Some(i) => {
                        self.retract_thought(id, i);
                    },
                    None => {
                        proof {
                            lemma_kv_map_contains(th0, |t: Thought| t@, id@);
                            assert(!tm0.contains_key(id@));
                            assert(old_t =~= Seq::<Seq<char>>::empty());
                        }
                    },
                }
                let ghost mid = retract_all(br0, old_t, id@);
                proof {
                    assert(self.backrefs_map() == mid);
                }
                // record the new version's references
                let ghost new_t = ref_targets(thought@.references);
                let mut k: usize = 0;
                proof {
                    assert(new_t.subrange(0, 0) =~= Seq::<Seq<char>>::empty());
                }
                while k < thought.references.len()
                    invariant
                        0 <= k <= thought.references@.len(),
                        new_t == ref_targets(thought@.references),
                        new_t.len() == thought.references@.len(),
                        kv_keys_unique(self.backreferences@),
                        brm(self.backreferences@) == extend_all(
                            mid,
                            new_t.subrange(0, k as int),
                            id@,
                        ),
                        self.thoughts@ == th0,
                        self.tags@ == tg0,
                    decreases thought.references@.len() - k,
                {
                    let ghost prefix = new_t.subrange(0, k as int);
                    backrefs_add_source(&mut self.backreferences, &thought.references[k].id, id);
                    proof {
                        let next = new_t.subrange(0, k as int + 1);
                        assert(next.drop_last() =~= prefix);
                        assert(next.last() == new_t[k as int]);
                        assert(new_t[k as int] == thought.references@[k as int].id@);
                    }
                    k = k + 1;
                }
                proof {
                    assert(new_t.subrange(0, new_t.len() as int) =~= new_t);
                    assert(self.backrefs_map() == extend_all(mid, new_t, id@));
                }
                // store the thought
                match idx {
                    Some(i) => {
                        self.thoughts.set(i, (id.clone(), thought.clone()));
                        proof {
                            let e = self.thoughts@[i as int];
                            lemma_kv_map_update(th0, |t: Thought| t@, i as int, e);
                            assert(self.thoughts@ =~= th0.update(i as int, e));
                            assert(kv_keys_unique(self.thoughts@)) by {
                                assert forall|a: int, b: int|
                                    0 <= a < b < self.thoughts@.len() implies (
                                #[trigger] self.thoughts@[a]).0@ != (#[trigger] self.thoughts@[b]).0@ by {
                                    assert(self.thoughts@[a].0@ == th0[a].0@);
                                    assert(self.thoughts@[b].0@ == th0[b].0@);
                                }
                            }
                            assert(self.thoughts_map() == tm0.insert(id@, thought@));
                        }
                    },
                    None => {
                        self.thoughts.push((id.clone(), thought.clone()));
                        proof {
                            assert(self.thoughts@.drop_last() =~= th0);
                            assert(self.thoughts_map() == tm0.insert(id@, thought@));
                            assert(kv_keys_unique(self.thoughts@)) by {
                                assert forall|a: int, b: int|
                                    0 <= a < b < self.thoughts@.len() implies (
                                #[trigger] self.thoughts@[a]).0@ != (#[trigger] self.thoughts@[b]).0@ by {
                                    if b < self.thoughts@.len() - 1 {
                                        assert(self.thoughts@[a] == th0[a]);
                                        assert(self.thoughts@[b] == th0[b]);
                                    } else {
                                        assert(self.thoughts@[a] == th0[a]);
                                        assert(self.thoughts@[b].0@ == id@);
                                    }
                                }
                            }
                        }
                    },
                }
                proof {
                    lemma_put_thought_index(br0, tm0, id@, thought@);
                }
            },
            Command::DeleteThought { id } => {
                let ghost tm0 = self.thoughts_map();
                let ghost br0 = self.backrefs_map();
                let ghost th0 = self.thoughts@;
                let ghost old_t = old_targets_of(tm0, id@);
                let idx = self.find_thought_index(id);
                match idx {
                    Some(i) => {
                        self.retract_thought(id, i);
                        self.thoughts.remove(i);
                        proof {
                            lemma_kv_map_remove(th0, |t: Thought| t@, i as int);
                            lemma_kv_keys_unique_remove(th0, i as int);
                            assert(self.thoughts_map() == tm0.remove(id@));
                        }
                    },
                    None => {
                        proof {
                            lemma_kv_map_contains(th0, |t: Thought| t@, id@);
                            assert(!tm0.contains_key(id@));
                            assert(old_t =~= Seq::<Seq<char>>::empty());
                            assert(self.thoughts_map() =~= tm0.remove(id@));
                        }
                    },
                }
                proof {
                    assert(self.backrefs_map() == retract_all(br0, old_t, id@));
                }
                backrefs_remove_key(&mut self.backreferences, id);
                proof {
                    lemma_delete_thought_index(br0, tm0, id@);
                    if old(self).index_complete() && (forall|s: Seq<char>| #[trigger]
                        old(self).spec_referrers(id@).contains(s) ==> s == id@) {
                        assert forall|s: Seq<char>| #[trigger]
                            referrers_in(tm0, id@).contains(s) implies s == id@ by {
                            assert(old(self).spec_referrers(id@).contains(s));
                        }
                        assert(self.index_complete());
                    }
                }
            },
            Command::PutTag { id, tag } => {
                let ghost tg0 = self.tags@;
                let ghost tgm0 = self.tags_map();
                let idx = self.find_tag_index(id);
                match idx {
                    Some(i) => {
                        self.tags.set(i, (id.clone(), tag.clone()));
                        proof {
                            let e = self.tags@[i as int];
                            lemma_kv_map_update(tg0, |t: Tag| t@, i as int, e);
                            assert(self.tags@ =~= tg0.update(i as int, e));
                            assert(kv_keys_unique(self.tags@)) by {
                                assert forall|a: int, b: int|
                                    0 <= a < b < self.tags@.len() implies (
                                #[trigger] self.tags@[a]).0@ != (#[trigger] self.tags@[b]).0@ by {
                                    assert(self.tags@[a].0@ == tg0[a].0@);
                                    assert(self.tags@[b].0@ == tg0[b].0@);
                                }
                            }
                            assert(self.tags_map() == tgm0.insert(id@, tag@));
                        }
                    },
                    None => {
                        self.tags.push((id.clone(), tag.clone()));
                        proof {
                            assert(self.tags@.drop_last() =~= tg0);
                            assert(self.tags_map() == tgm0.insert(id@, tag@));
                            assert(kv_keys_unique(self.tags@)) by {
                                assert forall|a: int, b: int|
                                    0 <= a < b < self.tags@.len() implies (
                                #[trigger] self.tags@[a]).0@ != (#[trigger] self.tags@[b]).0@ by {
                                    if b < self.tags@.len() - 1 {
                                        assert(self.tags@[a] == tg0[a]);
                                        assert(self.tags@[b] == tg0[b]);
                                    } else {
                                        assert(self.tags@[a] == tg0[a]);
                                        assert(self.tags@[b].0@ == id@);
                                    }
                                }
                            }
                        }
                    },
                }
            },
            Command::DeleteTag { id } => {
                let ghost tg0 = self.tags@;
                let ghost tgm0 = self.tags_map();
                let idx = self.find_tag_index(id);
                match idx {
                    Some(i) => {
                        self.tags.remove(i);
                        proof {
                            lemma_kv_map_remove(tg0, |t: Tag| t@, i as int);
                            lemma_kv_keys_unique_remove(tg0, i as int);
                            assert(self.tags_map() == tgm0.remove(id@));
                        }
                    },
                    None => {
                        proof {
                            lemma_kv_map_contains(tg0, |t: Tag| t@, id@);
                            assert(!tgm0.contains_key(id@));
                            assert(self.tags_map() =~= tgm0.remove(id@));
                        }
                    },
                }
            },
        }
    }

    /// Creates a new thought from the given attributes and stores it under
    /// `id` through [`ThoughtGraph::command`]. Always succeeds.
    pub fn create_thought(
        &mut self,
        id: ThoughtID,
        title: Option<String>,
        contents: String,
        tags: Vec<TagID>,
        references: Vec<Reference>,
    ) -> (r: Result<Thought, ThoughtGraphError>)
        requires
            old(self).wf(),
        ensures
            final(self).wf(),
            r is Ok,
            r matches Ok(th) ==> {
                &&& th@.title == opt_view(title)
                &&& th@.contents == contents@
                &&& th@.tags == tag_views(tags@)
                &&& th@.references == ref_views(references@)
                &&& th@.created_at == th@.updated_at
                &&& final(self).thoughts_map() == old(self).thoughts_map().insert(id@, th@)
                &&& final(self).tags_map() == old(self).tags_map()
                &&& final(self).backrefs_map() == put_index(
                    old(self).backrefs_map(),
                    old(self).thoughts_map(),
                    id@,
                    th@,
                )
                &&& old(self).index_complete() ==> final(self).index_complete()
            },
    {
        let thought = Thought::new(title, contents, tags, references);
        let ret = thought.clone();
        self.command(&Command::PutThought { id, thought });
        Ok(ret)
    }

    /// Creates a new tag with the given description and stores it under
    /// `id` through [`ThoughtGraph::command`]. Always succeeds.
    pub fn create_tag(&mut self, id: TagID, description: String) -> (r: Result<
        Tag,
        ThoughtGraphError,
    >)
        requires
            old(self).wf(),
        ensures
            final(self).wf(),
            r is Ok,
            r matches Ok(tag) ==> {
                &&& tag@.description == description@
                &&& tag@.created_at == tag@.updated_at
                &&& final(self).thoughts_map() == old(self).thoughts_map()
                &&& final(self).tags_map() == old(self).tags_map().insert(id@, tag@)
                &&& final(self).backrefs_map() == old(self).backrefs_map()
                &&& old(self).index_complete() ==> final(self).index_complete()
            },
    {
        let tag = Tag::new(description);
        let ret = tag.clone();
        self.command(&Command::PutTag { id, tag });
        Ok(ret)
    }

    /// Scans a stored thought's body for bracketed mentions and adds a
    /// reference for each mentioned id that names a stored thought, is not
    /// the thought's own id, and is not referenced already. The added ids
    /// are reported in order. Always succeeds; an id that names no stored
    /// thought leaves the store untouched and reports no additions.
    pub fn process_auto_references(&mut self, thought_id: &ThoughtID) -> (r: Result<
        Vec<ThoughtID>,
        ThoughtGraphError,
    >)
        requires
            old(self).wf(),
        ensures
            final(self).wf(),
            r is Ok,
            old(self).index_complete() ==> final(self).index_complete(),
            !old(self).thoughts_map().contains_key(thought_id@) ==> (*final(self) == *old(self)
                && (r matches Ok(v) && v@.len() == 0)),
            old(self).thoughts_map().contains_key(thought_id@) ==> ({
                let th0 = old(self).thoughts_map()[thought_id@];
                let added = auto_added(
                    old(self).thoughts_map(),
                    thought_id@,
                    ref_targets(th0.references),
                    crate::mentions::spec_mentions(th0.contents),
                );
                &&& (r matches Ok(v) ==> id_views(v@) == added)
                &&& final(self).tags_map() == old(self).tags_map()
                &&& added.len() == 0 ==> *final(self) == *old(self)
                &&& added.len() > 0 ==> ({
                    let th1 = final(self).thoughts_map()[thought_id@];
                    &&& final(self).thoughts_map().contains_key(thought_id@)
                    &&& th1.title == th0.title
                    &&& th1.contents == th0.contents
                    &&& th1.tags == th0.tags
                    &&& th1.created_at == th0.created_at
                    &&& th1.references.len() == th0.references.len() + added.len()
                    &&& (forall|j: int|
                        0 <= j < th0.references.len() ==> (#[trigger] th1.references[j])
                            == th0.references[j])
                    &&& (forall|j: int|
                        0 <= j < added.len() ==> (#[trigger] th1.references[th0.references.len()
                            + j]).id == added[j] && th1.references[th0.references.len() + j].notes
                            == auto_note(added[j]))
                    &&& final(self).thoughts_map() == old(self).thoughts_map().insert(
                        thought_id@,
                        th1,
                    )
                    &&& final(self).backrefs_map() == put_index(
                        old(self).backrefs_map(),
                        old(self).thoughts_map(),
                        thought_id@,
                        th1,
                    )
                })
            }),
    {
        let found = match self.get_thought(thought_id) {
            Some(t) => Some(t.clone()),
            None => None,
        };
        match found {
            None => {
                let v: Vec<ThoughtID> = Vec::new();
                Ok(v)
            },
            Some(thought) => {
                let ghost tm0 = self.thoughts_map();
                let ghost th0 = tm0[thought_id@];
                let ghost sid = thought_id@;
                let ghost existing = ref_targets(th0.references);
                let content_refs = thought.extract_references_from_content();
                let ghost ms = crate::mentions::spec_mentions(th0.contents);
                let mut updated = thought;
                let mut added: Vec<ThoughtID> = Vec::new();
                let mut k: usize = 0;
                proof {
                    assert(ms.subrange(0, 0) =~= Seq::<Seq<char>>::empty());
                    assert(id_views(added@) =~= auto_added(tm0, sid, existing, ms.subrange(0, 0)));
                    assert(ref_targets(updated@.references) =~= existing + id_views(added@));
                }
                while k < content_refs.len()
                    invariant
                        0 <= k <= content_refs@.len(),
                        self.wf(),
                        tm0 == self.thoughts_map(),
                        tm0.contains_key(sid),
                        th0 == tm0[sid],
                        sid == thought_id@,
                        existing == ref_targets(th0.references),
                        id_views(content_refs@) == ms,
                        ms.len() == content_refs@.len(),
                        id_views(added@) == auto_added(tm0, sid, existing, ms.subrange(0, k as int)),
                        updated@.title == th0.title,
                        updated@.contents == th0.contents,
                        updated@.tags == th0.tags,
                        updated@.created_at == th0.created_at,
                        updated@.references.len() == th0.references.len() + added@.len(),
                        id_views(added@).len() == added@.len(),
                        forall|j: int|
                            0 <= j < th0.references.len() ==> (#[trigger] updated@.references[j])
                                == th0.references[j],
                        forall|j: int|
                            0 <= j < added@.len() ==> (#[trigger] updated@.references[th0.references.len()
                                + j]).id == id_views(added@)[j]
                                && updated@.references[th0.references.len() + j].notes
                                == auto_note(id_views(added@)[j]),
                        ref_targets(updated@.references) == existing + id_views(added@),
                    decreases content_refs@.len() - k,
                {
                    let ghost prefix = ms.subrange(0, k as int);
                    let ghost m = ms[k as int];
                    proof {
                        assert(id_views(content_refs@)[k as int] == content_refs@[k as int]@);
                        assert(content_refs@[k as int]@ == m);
                        let next = ms.subrange(0, k as int + 1);
                        assert(next.drop_last() =~= prefix);
                        assert(next.last() == m);
                    }
                    let is_self = content_refs[k].id == thought_id.id;
                    let already = refs_contain_target(&updated.references, &content_refs[k]);
                    proof {
                        lemma_concat_contains(existing, id_views(added@), m);
                    }
                    if !is_self && !already {
                        let target_exists = match self.get_thought(&content_refs[k]) {
                            Some(_) => true,
                            None => false,
                        };
                        if target_exists {
                            let mut note = String::new();
                            note.append("Auto-reference from [");
                            note.append(content_refs[k].id.as_str());
                            note.append("]");
                            proof {
                                assert(note@ =~= auto_note(m));
                            }
                            let ghost upd_prev = updated@;
                            let ghost added_prev = id_views(added@);
                            updated.add_reference(
                                Reference::new(content_refs[k].clone(), note, now_timestamp()),
                            );
                            added.push(content_refs[k].clone());
                            proof {
                                assert(id_views(added@) =~= added_prev.push(m));
                                assert(updated@.references.last().id == m);
                                assert(updated@.references.last().notes == auto_note(m));
                                assert(auto_added(tm0, sid, existing, ms.subrange(0, k as int + 1))
                                    =~= added_prev.push(m));
                                assert(ref_targets(updated@.references) =~= ref_targets(
                                    upd_prev.references,
                                ).push(m));
                                assert(ref_targets(updated@.references) =~= existing + id_views(
                                    added@,
                                ));
                            }
                        } else {
                            proof {
                                assert(!tm0.contains_key(m));
                                assert(auto_added(tm0, sid, existing, ms.subrange(0, k as int + 1))
                                    =~= id_views(added@));
                            }
                        }
                    } else {
                        proof {
                            if is_self {
                                assert(m == sid);
                            } else {
                                assert(existing.contains(m) || id_views(added@).contains(m));
                            }
                            assert(auto_added(tm0, sid, existing, ms.subrange(0, k as int + 1))
                                =~= id_views(added@));
                        }
                    }
                    k = k + 1;
                }
                proof {
                    assert(ms.subrange(0, ms.len() as int) =~= ms);
                }
                let ghost addedv = auto_added(tm0, sid, existing, ms);
                let ghost updv = updated@;
                if added.len() > 0 {
                    self.command(&Command::PutThought { id: thought_id.clone(), thought: updated });
                    proof {
                        assert(self.thoughts_map() == tm0.insert(sid, updv));
                        assert(self.thoughts_map()[sid] == updv);
                    }
                } else {
                    proof {
                        assert(addedv.len() == 0);
                    }
                }
                Ok(added)
            },
        }
    }

    /// The ids of all stored thoughts, each exactly once.
    pub fn list_thoughts(&self) -> (r: Vec<ThoughtID>)
        requires
            self.wf(),
        ensures
            views_no_dups(id_views(r@)),
            id_views(r@).to_set() == self.thoughts_map().dom(),
    {
        let ghost fth = |t: Thought| t@;
        let mut out: Vec<ThoughtID> = Vec::new();
        let mut i: usize = 0;
        while i < self.thoughts.len()
            invariant
                0 <= i <= self.thoughts@.len(),
                self.wf(),
                id_views(out@).len() == i,
                forall|k: int| 0 <= k < i ==> id_views(out@)[k] == (#[trigger] self.thoughts@[k]).0@,
            decreases self.thoughts@.len() - i,
        {
            let ghost prevv = id_views(out@);
            out.push(self.thoughts[i].0.clone());
            proof {
                assert(id_views(out@) =~= prevv.push(out@.last()@));
            }
            i = i + 1;
        }
        proof {
            assert forall|a: int, b: int|
                0 <= a < b < id_views(out@).len() implies id_views(out@)[a] != id_views(
                out@,
            )[b] by {
                assert(id_views(out@)[a] == (#[trigger] self.thoughts@[a]).0@);
                assert(id_views(out@)[b] == (#[trigger] self.thoughts@[b]).0@);
            }
            assert(views_no_dups(id_views(out@)));
            assert forall|s: Seq<char>|
                self.thoughts_map().dom().contains(s) implies id_views(out@).contains(s) by {
                lemma_kv_map_contains(self.thoughts@, fth, s);
                let j = choose|j: int|
                    0 <= j < self.thoughts@.len() && (#[trigger] self.thoughts@[j]).0@ == s;
                assert(id_views(out@)[j] == s);
            }
            assert forall|s: Seq<char>|
                id_views(out@).contains(s) implies self.thoughts_map().dom().contains(s) by {
                let j = choose|j: int|
                    0 <= j < id_views(out@).len() && id_views(out@)[j] == s;
                lemma_kv_map_contains(self.thoughts@, fth, s);
                assert(self.thoughts@[j].0@ == s);
            }
            assert(id_views(out@).to_set() =~= self.thoughts_map().dom());
        }
        out
    }

    /// The ids of all stored tags, each exactly once.
    pub fn list_tags(&self) -> (r: Vec<TagID>)
        requires
            self.wf(),
        ensures
            views_no_dups(tag_views(r@)),
            tag_views(r@).to_set() == self.tags_map().dom(),
    {
        let ghost ftg = |t: Tag| t@;
        let mut out: Vec<TagID> = Vec::new();
        let mut i: usize = 0;
        while i < self.tags.len()
            invariant
                0 <= i <= self.tags@.len(),
                self.wf(),
                tag_views(out@).len() == i,
                forall|k: int| 0 <= k < i ==> tag_views(out@)[k] == (#[trigger] self.tags@[k]).0@,
            decreases self.tags@.len() - i,
        {
            let ghost prevv = tag_views(out@);
            out.push(self.tags[i].0.clone());
            proof {
                assert(tag_views(out@) =~= prevv.push(out@.last()@));
            }
            i = i + 1;
        }
        proof {
            assert forall|a: int, b: int|
                0 <= a < b < tag_views(out@).len() implies tag_views(out@)[a] != tag_views(
                out@,
            )[b] by {
                assert(tag_views(out@)[a] == (#[trigger] self.tags@[a]).0@);
                assert(tag_views(out@)[b] == (#[trigger] self.tags@[b]).0@);
            }
            assert(views_no_dups(tag_views(out@)));
            assert forall|s: Seq<char>|
                self.tags_map().dom().contains(s) implies tag_views(out@).contains(s) by {
                lemma_kv_map_contains(self.tags@, ftg, s);
                let j = choose|j: int|
                    0 <= j < self.tags@.len() && (#[trigger] self.tags@[j]).0@ == s;
                assert(tag_views(out@)[j] == s);
            }
            assert forall|s: Seq<char>|
                tag_views(out@).contains(s) implies self.tags_map().dom().contains(s) by {
                let j = choose|j: int| 0 <= j < tag_views(out@).len() && tag_views(out@)[j] == s;
                lemma_kv_map_contains(self.tags@, ftg, s);
                assert(self.tags@[j].0@ == s);
            }
            assert(tag_views(out@).to_set() =~= self.tags_map().dom());
        }
        out
    }
}

/// The back-reference index mirrors the forward references exactly: a
/// stored thought `s` holds a reference to `t` precisely when `s` is
/// recorded in the index entry of `t`.
///
/// Completeness of the index holds of a fresh graph and, per the contract
/// of [`ThoughtGraph::command`], is preserved by every command except the
/// deletion of a thought that other thoughts still reference: that
/// deletion drops the deleted id's entry outright, by design, so the
/// stale referrers are forgotten.
pub proof fn lemma_backreference_invariant(g: &ThoughtGraph, s: Seq<char>, t: Seq<char>)
    requires
        g.wf(),
        g.index_complete(),
    ensures
        (g.thoughts_map().contains_key(s) && g.thoughts_map()[s].references_target(t))
            <==> g.backlink_set(t).contains(s),
{
    if g.thoughts_map().contains_key(s) && g.thoughts_map()[s].references_target(t) {
        assert(referrers_in(g.thoughts_map(), t).contains(s));
    }
    if g.backlink_set(t).contains(s) {
        assert(g.backrefs_map().contains_key(t));
        assert(g.backrefs_map()[t].contains(s));
        assert(referrers_in(g.thoughts_map(), t).contains(s));
    }
}

/// Deleting an id that neither names a thought nor carries an index entry
/// leaves the whole store unchanged (and is not an error).
///
/// An id that names no thought can still carry an index entry, when stored
/// thoughts dangle-reference it; deleting such an id drops that entry, so
/// it is excluded here.
pub proof fn lemma_delete_nonexistent_noop(
    pre: &ThoughtGraph,
    post: &ThoughtGraph,
    id: Seq<char>,
)
    requires
        pre.wf(),
        !pre.thoughts_map().contains_key(id),
        !pre.backrefs_map().contains_key(id),
        post.thoughts_map() == pre.thoughts_map().remove(id),
        post.tags_map() == pre.tags_map(),
        post.backrefs_map() == delete_index(pre.backrefs_map(), pre.thoughts_map(), id),
    ensures
        post.thoughts_map() == pre.thoughts_map(),
        post.tags_map() == pre.tags_map(),
        post.backrefs_map() == pre.backrefs_map(),
{
    assert(pre.thoughts_map().remove(id) =~= pre.thoughts_map());
    assert(old_targets_of(pre.thoughts_map(), id) == Seq::<Seq<char>>::empty());
    assert(retract_all(pre.backrefs_map(), Seq::<Seq<char>>::empty(), id) == pre.backrefs_map());
    assert(pre.backrefs_map().remove(id) =~= pre.backrefs_map());
}

/// Overwriting a thought retracts every backlink its old version
/// contributed and records exactly the new version's: afterwards `id` is
/// recorded under precisely the new reference targets, and the entry of
/// every target named by neither version is untouched.
pub proof fn lemma_overwrite_references(
    pre: &ThoughtGraph,
    post: &ThoughtGraph,
    id: Seq<char>,
    th: ThoughtView,
)
    requires
        pre.wf(),
        post.backrefs_map() == put_index(pre.backrefs_map(), pre.thoughts_map(), id, th),
    ensures
        forall|t: Seq<char>|
            #![trigger post.backlink_set(t)]
            ref_targets(th.references).contains(t) ==> post.backlink_set(t).contains(id),
        forall|t: Seq<char>|
            #![trigger post.backlink_set(t)]
            !ref_targets(th.references).contains(t) ==> !post.backlink_set(t).contains(id),
        forall|t: Seq<char>|
            #![trigger post.backlink_set(t)]
            !ref_targets(th.references).contains(t) && !old_targets_of(
                pre.thoughts_map(),
                id,
            ).contains(t) ==> same_entry(post.backrefs_map(), pre.backrefs_map(), t),
{
    let br0 = pre.backrefs_map();
    let tm0 = pre.thoughts_map();
    let old_t = old_targets_of(tm0, id);
    let new_t = ref_targets(th.references);
    let mid = retract_all(br0, old_t, id);
    lemma_retract_all_shape(br0, old_t, id);
    lemma_extend_all_shape(mid, new_t, id);
    lemma_retracted_no_src(br0, tm0, id);
    assert forall|t: Seq<char>|
        #![trigger post.backlink_set(t)]
        new_t.contains(t) implies post.backlink_set(t).contains(id) by {
        assert(extended_entry(post.backrefs_map(), mid, t, id));
        if mid.contains_key(t) {
            if mid[t].contains(id) {
            } else {
                assert(post.backrefs_map()[t] == mid[t].push(id));
                assert(post.backrefs_map()[t][mid[t].len() as int] == id);
            }
        } else {
            assert(post.backrefs_map()[t] == seq![id]);
            assert(post.backrefs_map()[t][0] == id);
        }
    }
    assert forall|t: Seq<char>|
        #![trigger post.backlink_set(t)]
        !new_t.contains(t) implies !post.backlink_set(t).contains(id) by {
        assert(same_entry(post.backrefs_map(), mid, t));
    }
}

/// A thought may reference its own id; it then appears in its own backlink
/// entry, and so in the result of a references query for its id.
pub proof fn lemma_self_reference(
    pre: &ThoughtGraph,
    post: &ThoughtGraph,
    id: Seq<char>,
    th: ThoughtView,
)
    requires
        pre.wf(),
        th.references_target(id),
        post.backrefs_map() == put_index(pre.backrefs_map(), pre.thoughts_map(), id, th),
    ensures
        post.backlink_set(id).contains(id),
{
    lemma_overwrite_references(pre, post, id, th);
}

/// Membership in a concatenation: a member of either part.
pub proof fn lemma_concat_contains(a: Seq<Seq<char>>, b: Seq<Seq<char>>, x: Seq<char>)
    ensures
        (a + b).contains(x) <==> (a.contains(x) || b.contains(x)),
{
    if (a + b).contains(x) {
        let i = choose|i: int| 0 <= i < (a + b).len() && (a + b)[i] == x;
        if i < a.len() {
            assert(a[i] == x);
        } else {
            assert(b[i - a.len()] == x);
        }
    }
    if a.contains(x) {
        let i = choose|i: int| 0 <= i < a.len() && a[i] == x;
        assert((a + b)[i] == x);
    }
    if b.contains(x) {
        let i = choose|i: int| 0 <= i < b.len() && b[i] == x;
        assert((a + b)[a.len() + i] == x);
    }
}

/// The annotation given to an automatically created reference: the
/// mentioned id in brackets, after a fixed prefix.
pub open spec fn auto_note(id: Seq<char>) -> Seq<char> {
    "Auto-reference from ["@ + id + "]"@
}

/// The ids a mention scan adds as references: those mentions, in order of
/// first appearance, that are not the thought's own id, are not already
/// referenced, were not added earlier in the scan, and name a stored
/// thought.
pub open spec fn auto_added(
    tm: Map<Seq<char>, ThoughtView>,
    self_id: Seq<char>,
    existing: Seq<Seq<char>>,
    ms: Seq<Seq<char>>,
) -> Seq<Seq<char>>
    decreases ms.len(),
{
    if ms.len() == 0 {
        Seq::empty()
    } else {
        let prev = auto_added(tm, self_id, existing, ms.drop_last());
        let m = ms.last();
        if m != self_id && !existing.contains(m) && !prev.contains(m) && tm.contains_key(m) {
            prev.push(m)
        } else {
            prev
        }
    }
}

/// Error values returned by the store's convenience constructors.
#[derive(Debug)]
pub enum ThoughtGraphError {
    /// A thought id that named no stored thought
    ThoughtNotFound(String),
    /// A tag id that named no stored tag
    TagNotFound(String),
}

/// The ids targeted by a thought's references, in list order.
fn collect_targets(t: &Thought) -> (r: Vec<ThoughtID>)
    ensures
        id_views(r@) == ref_targets(t@.references),
{
    let ghost goal = ref_targets(t@.references);
    let mut out: Vec<ThoughtID> = Vec::new();
    let mut i: usize = 0;
    proof {
        assert(id_views(out@) =~= goal.subrange(0, 0));
    }
    while i < t.references.len()
        invariant
            0 <= i <= t.references@.len(),
            goal == ref_targets(t@.references),
            goal.len() == t.references@.len(),
            id_views(out@) == goal.subrange(0, i as int),
        decreases t.references@.len() - i,
    {
        let ghost prev = id_views(out@);
        out.push(t.references[i].id.clone());
        proof {
            assert(id_views(out@) =~= prev.push(out@.last()@));
            assert(goal[i as int] == t.references@[i as int].id@);
            assert(id_views(out@) =~= goal.subrange(0, i as int + 1));
        }
        i = i + 1;
    }
    proof {
        assert(goal.subrange(0, goal.len() as int) =~= goal);
    }
    out
}

} // verus!
