//! String-keyed identifiers for the two entity namespaces of the graph:
//! thoughts and tags. Both are opaque handles compared byte-wise; contracts
//! speak of them through their character-sequence views.

use vstd::prelude::*;

verus! {

/// Unique identifier for a thought in the graph.
///
/// Equality is byte-wise equality of the underlying string. A `ThoughtID` is
/// used both as the key of the thought map and as the endpoint of reference
/// edges.
#[derive(Debug)]
pub struct ThoughtID {
    /// The unique string identifier
    pub id: String,
}

impl View for ThoughtID {
    type V = Seq<char>;

    open spec fn view(&self) -> Seq<char> {
        self.id@
    }
}

impl ThoughtID {
    /// Creates a new `ThoughtID` with the given string identifier.
    pub fn new(id: String) -> (r: Self)
        ensures
            (r == ThoughtID { id }),
    {
        ThoughtID { id }
    }
}

impl Clone for ThoughtID {
    fn clone(&self) -> (r: Self)
        ensures
            r == *self,
    {
        ThoughtID { id: self.id.clone() }
    }
}

impl PartialEq for ThoughtID {
    fn eq(&self, other: &Self) -> bool {
        self.id == other.id
    }
}

impl vstd::std_specs::cmp::PartialEqSpecImpl for ThoughtID {
    open spec fn obeys_eq_spec() -> bool {
        true
    }

    open spec fn eq_spec(&self, other: &Self) -> bool {
        self@ == other@
    }
}

/// Unique identifier for a tag.
///
/// Same semantics as [`ThoughtID`], but a disjoint namespace: a tag id never
/// names a thought and vice versa.
#[derive(Debug)]
pub struct TagID {
    /// The unique string identifier for the tag
    pub id: String,
}

impl View for TagID {
    type V = Seq<char>;

    open spec fn view(&self) -> Seq<char> {
        self.id@
    }
}

impl TagID {
    /// Creates a new `TagID` with the given string identifier.
    pub fn new(id: String) -> (r: Self)
        ensures
            (r == TagID { id }),
    {
        TagID { id }
    }
}

impl Clone for TagID {
    fn clone(&self) -> (r: Self)
        ensures
            r == *self,
    {
        TagID { id: self.id.clone() }
    }
}

impl PartialEq for TagID {
    fn eq(&self, other: &Self) -> bool {
        self.id == other.id
    }
}

impl vstd::std_specs::cmp::PartialEqSpecImpl for TagID {
    open spec fn obeys_eq_spec() -> bool {
        true
    }

    open spec fn eq_spec(&self, other: &Self) -> bool {
        self@ == other@
    }
}

/// The id views of a list of thought ids.
pub open spec fn id_views(s: Seq<ThoughtID>) -> Seq<Seq<char>> {
    s.map_values(|x: ThoughtID| x@)
}

/// Does the id list contain the given id?
pub fn ids_contain(v: &Vec<ThoughtID>, id: &ThoughtID) -> (r: bool)
    ensures
        r == id_views(v@).contains(id@),
{
    let mut i: usize = 0;
    while i < v.len()
        invariant
            0 <= i <= v@.len(),
            forall|j: int| 0 <= j < i ==> id_views(v@)[j] != id@,
        decreases v@.len() - i,
    {
        if v[i].id == id.id {
            proof {
                assert(id_views(v@)[i as int] == id@);
            }
            return true;
        }
        i = i + 1;
    }
    false
}

} // verus!
