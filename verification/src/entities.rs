//! The stored entities: references, thoughts and tags.
//!
//! A thought carries an optional title, body text, a tag list and a list of
//! outgoing reference edges. A tag carries a description. Both kinds record
//! when they were created and last changed. Each exec type has a ghost view
//! over which every contract of the library speaks.

use vstd::prelude::*;

use crate::ids::TagID;
use crate::ids::ThoughtID;
use crate::time::Timestamp;
use crate::time::now_timestamp;

verus! {

/// A directed, annotated edge from the thought that owns it to the thought
/// named by `id`. The target is not required to exist; dangling targets are
/// a normal state.
#[derive(Debug)]
pub struct Reference {
    /// ID of the thought being referenced
    pub id: ThoughtID,
    /// Notes about this reference that describe the relationship
    pub notes: String,
    /// When this reference was created or last accessed
    pub access_date: Timestamp,
}

/// The mathematical content of a [`Reference`].
#[verifier::ext_equal]
pub ghost struct ReferenceView {
    /// View of the target id
    pub id: Seq<char>,
    /// View of the annotation
    pub notes: Seq<char>,
    /// The stored timestamp
    pub access_date: Timestamp,
}

impl View for Reference {
    type V = ReferenceView;

    open spec fn view(&self) -> ReferenceView {
        ReferenceView { id: self.id@, notes: self.notes@, access_date: self.access_date }
    }
}

impl Reference {
    /// Creates a new reference to a thought.
    pub fn new(id: ThoughtID, notes: String, access_date: Timestamp) -> (r: Self)
        ensures
            (r@ == ReferenceView { id: id@, notes: notes@, access_date }),
    {
        Reference { id, notes, access_date }
    }
}

impl Clone for Reference {
    fn clone(&self) -> (r: Self)
        ensures
            r@ == self@,
    {
        Reference { id: self.id.clone(), notes: self.notes.clone(), access_date: self.access_date }
    }
}

/// The id views of a tag list.
pub open spec fn tag_views(tags: Seq<TagID>) -> Seq<Seq<char>> {
    tags.map_values(|t: TagID| t@)
}

/// The views of a reference list.
pub open spec fn ref_views(refs: Seq<Reference>) -> Seq<ReferenceView> {
    refs.map_values(|r: Reference| r@)
}

/// The target id views of a reference list.
pub open spec fn ref_targets(refs: Seq<ReferenceView>) -> Seq<Seq<char>> {
    refs.map_values(|r: ReferenceView| r.id)
}

/// The view of an optional string.
pub open spec fn opt_view(s: Option<String>) -> Option<Seq<char>> {
    match s {
        Some(t) => Some(t@),
        None => None,
    }
}

/// A thought: the central entity of the graph.
#[derive(Debug)]
pub struct Thought {
    /// Optional title for the thought
    pub title: Option<String>,
    /// Main content of the thought
    pub contents: String,
    /// Tags associated with this thought for categorization
    pub tags: Vec<TagID>,
    /// References to other thoughts, creating connections in the graph
    pub references: Vec<Reference>,
    /// Creation timestamp
    pub created_at: Timestamp,
    /// Last modified timestamp
    pub updated_at: Timestamp,
}

/// The mathematical content of a [`Thought`].
#[verifier::ext_equal]
pub ghost struct ThoughtView {
    /// View of the optional title
    pub title: Option<Seq<char>>,
    /// View of the body text
    pub contents: Seq<char>,
    /// Views of the tag ids, in list order
    pub tags: Seq<Seq<char>>,
    /// Views of the reference edges, in list order
    pub references: Seq<ReferenceView>,
    /// Creation timestamp
    pub created_at: Timestamp,
    /// Last modified timestamp
    pub updated_at: Timestamp,
}

impl ThoughtView {
    /// Does this thought's tag list name the given tag?
    pub open spec fn has_tag(self, tag: Seq<char>) -> bool {
        self.tags.contains(tag)
    }

    /// Does this thought's reference list contain an edge to the given
    /// target?
    pub open spec fn references_target(self, target: Seq<char>) -> bool {
        ref_targets(self.references).contains(target)
    }
}

impl View for Thought {
    type V = ThoughtView;

    open spec fn view(&self) -> ThoughtView {
        ThoughtView {
            title: opt_view(self.title),
            contents: self.contents@,
            tags: tag_views(self.tags@),
            references: ref_views(self.references@),
            created_at: self.created_at,
            updated_at: self.updated_at,
        }
    }
}

impl Clone for Thought {
    fn clone(&self) -> (r: Self)
        ensures
            r@ == self@,
    {
        let title = match &self.title {
            Some(t) => Some(t.clone()),
            None => None,
        };
        let r = Thought {
            title,
            contents: self.contents.clone(),
            tags: self.tags.clone(),
            references: self.references.clone(),
            created_at: self.created_at,
            updated_at: self.updated_at,
        };
        proof {
            assert forall|i: int| 0 <= i < self.tags@.len() implies r.tags@[i] == self.tags@[i] by {
                assert(vstd::pervasive::cloned::<TagID>(self.tags[i], r.tags[i]));
            }
            assert forall|i: int|
                0 <= i < self.references@.len() implies r.references@[i]@
                == self.references@[i]@ by {
                assert(vstd::pervasive::cloned::<Reference>(self.references[i], r.references[i]));
            }
            assert(ref_views(r.references@) =~= ref_views(self.references@));
            assert(r@ =~= self@);
        }
        r
    }
}

impl Thought {
    /// Creates a new thought with the given attributes. Both timestamps are
    /// set to the moment of construction.
    pub fn new(
        title: Option<String>,
        contents: String,
        tags: Vec<TagID>,
        references: Vec<Reference>,
    ) -> (r: Self)
        ensures
            r@.title == opt_view(title),
            r@.contents == contents@,
            r@.tags == tag_views(tags@),
            r@.references == ref_views(references@),
            r@.created_at == r@.updated_at,
    {
        let now = now_timestamp();
        Thought { title, contents, tags, references, created_at: now, updated_at: now }
    }

    /// Replaces the content of the thought and refreshes its modified
    /// timestamp.
    pub fn update_content(&mut self, new_content: String)
        ensures
            final(self)@.contents == new_content@,
            final(self)@.title == old(self)@.title,
            final(self)@.tags == old(self)@.tags,
            final(self)@.references == old(self)@.references,
            final(self)@.created_at == old(self)@.created_at,
    {
        self.contents = new_content;
        self.updated_at = now_timestamp();
    }

    /// Replaces the title of the thought and refreshes its modified
    /// timestamp.
    pub fn update_title(&mut self, new_title: Option<String>)
        ensures
            final(self)@.title == opt_view(new_title),
            final(self)@.contents == old(self)@.contents,
            final(self)@.tags == old(self)@.tags,
            final(self)@.references == old(self)@.references,
            final(self)@.created_at == old(self)@.created_at,
    {
        self.title = new_title;
        self.updated_at = now_timestamp();
    }

    /// Extracts the thought ids mentioned in the body as bracketed tokens
    /// of the identifier grammar, in order of appearance.
    pub fn extract_references_from_content(&self) -> (r: Vec<ThoughtID>)
        ensures
            crate::ids::id_views(r@) == crate::mentions::spec_mentions(self@.contents),
    {
        crate::mentions::extract_mentions(self.contents.as_str())
    }

    /// Adds a tag to the thought. Adding a tag the thought already carries
    /// is a no-op that leaves the thought untouched.
    pub fn add_tag(&mut self, tag: TagID)
        ensures
            old(self)@.has_tag(tag@) ==> *final(self) == *old(self),
            !old(self)@.has_tag(tag@) ==> {
                &&& final(self)@.tags == old(self)@.tags.push(tag@)
                &&& final(self)@.title == old(self)@.title
                &&& final(self)@.contents == old(self)@.contents
                &&& final(self)@.references == old(self)@.references
                &&& final(self)@.created_at == old(self)@.created_at
            },
    {
        if !tags_contain(&self.tags, &tag) {
            let ghost old_tags = self.tags@;
            self.tags.push(tag);
            self.updated_at = now_timestamp();
            proof {
                assert(tag_views(self.tags@) =~= tag_views(old_tags).push(self.tags@.last()@));
            }
        }
    }

    /// Removes every occurrence of a tag from the thought's tag list,
    /// keeping the order of the remaining tags. Removing a tag the thought
    /// does not carry is a no-op that leaves the thought untouched.
    pub fn remove_tag(&mut self, tag: &TagID)
        ensures
            final(self)@.tags == old(self)@.tags.filter(|t: Seq<char>| t != tag@),
            final(self)@.title == old(self)@.title,
            final(self)@.contents == old(self)@.contents,
            final(self)@.references == old(self)@.references,
            final(self)@.created_at == old(self)@.created_at,
            !old(self)@.has_tag(tag@) ==> *final(self) == *old(self),
    {
        let ghost pred = |t: Seq<char>| t != tag@;
        let ghost views = tag_views(self.tags@);
        if !tags_contain(&self.tags, tag) {
            proof {
                assert forall|j: int| 0 <= j < views.len() implies pred(#[trigger] views[j]) by {
                    assert(views.contains(views[j]));
                }
                crate::graph::lemma_filter_all_kept(views, pred);
            }
            return ;
        }
        let len_before = self.tags.len();
        let mut kept: Vec<TagID> = Vec::new();
        let mut i: usize = 0;
        proof {
            assert(views.subrange(0, 0) =~= Seq::<Seq<char>>::empty());
            reveal(Seq::filter);
        }
        while i < self.tags.len()
            invariant
                0 <= i <= self.tags@.len(),
                views == tag_views(self.tags@),
                tag_views(kept@) == views.subrange(0, i as int).filter(pred),
                pred == (|t: Seq<char>| t != tag@),
            decreases self.tags@.len() - i,
        {
            let keep = !(self.tags[i].id == tag.id);
            proof {
                let prefix = views.subrange(0, i as int);
                let next = views.subrange(0, i as int + 1);
                assert(next.drop_last() =~= prefix);
                assert(next.last() == views[i as int]);
                reveal(Seq::filter);
            }
            if keep {
                let ghost kept_views = tag_views(kept@);
                kept.push(self.tags[i].clone());
                proof {
                    assert(tag_views(kept@) =~= kept_views.push(kept@.last()@));
                }
            }
            i = i + 1;
        }
        proof {
            assert(views.subrange(0, views.len() as int) =~= views);
        }
        let changed = kept.len() != len_before;
        self.tags = kept;
        if changed {
            self.updated_at = now_timestamp();
        }
    }

    /// Adds a reference to another thought. Adding a second edge to a target
    /// the thought already references is a no-op that leaves the thought
    /// untouched.
    pub fn add_reference(&mut self, reference: Reference)
        ensures
            old(self)@.references_target(reference@.id) ==> *final(self) == *old(self),
            !old(self)@.references_target(reference@.id) ==> {
                &&& final(self)@.references == old(self)@.references.push(reference@)
                &&& final(self)@.title == old(self)@.title
                &&& final(self)@.contents == old(self)@.contents
                &&& final(self)@.tags == old(self)@.tags
                &&& final(self)@.created_at == old(self)@.created_at
            },
    {
        if !refs_contain_target(&self.references, &reference.id) {
            let ghost old_refs = self.references@;
            self.references.push(reference);
            self.updated_at = now_timestamp();
            proof {
                assert(ref_views(self.references@) =~= ref_views(old_refs).push(
                    self.references@.last()@,
                ));
            }
        }
    }

    /// Removes every reference edge to the given target, keeping the order
    /// of the remaining references. Removing a target the thought does not
    /// reference is a no-op that leaves the thought untouched.
    pub fn remove_references_to(&mut self, thought_id: &ThoughtID)
        ensures
            final(self)@.references == old(self)@.references.filter(
                |r: ReferenceView| r.id != thought_id@,
            ),
            final(self)@.title == old(self)@.title,
            final(self)@.contents == old(self)@.contents,
            final(self)@.tags == old(self)@.tags,
            final(self)@.created_at == old(self)@.created_at,
            !old(self)@.references_target(thought_id@) ==> *final(self) == *old(self),
    {
        let ghost pred = |r: ReferenceView| r.id != thought_id@;
        let ghost views = ref_views(self.references@);
        if !refs_contain_target(&self.references, thought_id) {
            proof {
                assert forall|j: int| 0 <= j < views.len() implies pred(#[trigger] views[j]) by {
                    assert(ref_targets(views)[j] == views[j].id);
                    assert(ref_targets(views).contains(ref_targets(views)[j]));
                }
                crate::graph::lemma_filter_all_kept(views, pred);
            }
            return ;
        }
        let len_before = self.references.len();
        let mut kept: Vec<Reference> = Vec::new();
        let mut i: usize = 0;
        proof {
            assert(views.subrange(0, 0) =~= Seq::<ReferenceView>::empty());
            reveal(Seq::filter);
        }
        while i < self.references.len()
            invariant
                0 <= i <= self.references@.len(),
                views == ref_views(self.references@),
                ref_views(kept@) == views.subrange(0, i as int).filter(pred),
                pred == (|r: ReferenceView| r.id != thought_id@),
            decreases self.references@.len() - i,
        {
            let keep = !(self.references[i].id.id == thought_id.id);
            proof {
                let prefix = views.subrange(0, i as int);
                let next = views.subrange(0, i as int + 1);
                assert(next.drop_last() =~= prefix);
                assert(next.last() == views[i as int]);
                reveal(Seq::filter);
            }
            if keep {
                let ghost kept_views = ref_views(kept@);
                kept.push(self.references[i].clone());
                proof {
                    assert(ref_views(kept@) =~= kept_views.push(kept@.last()@));
                }
            }
            i = i + 1;
        }
        proof {
            assert(views.subrange(0, views.len() as int) =~= views);
        }
        let changed = kept.len() != len_before;
        self.references = kept;
        if changed {
            self.updated_at = now_timestamp();
        }
    }
}

/// A tag that can be attached to thoughts for categorization.
#[derive(Debug)]
pub struct Tag {
    /// Description of what this tag represents
    pub description: String,
    /// Creation timestamp
    pub created_at: Timestamp,
    /// Last updated timestamp
    pub updated_at: Timestamp,
}

/// The mathematical content of a [`Tag`].
#[verifier::ext_equal]
pub ghost struct TagView {
    /// View of the description
    pub description: Seq<char>,
    /// Creation timestamp
    pub created_at: Timestamp,
    /// Last updated timestamp
    pub updated_at: Timestamp,
}

impl View for Tag {
    type V = TagView;

    open spec fn view(&self) -> TagView {
        TagView {
            description: self.description@,
            created_at: self.created_at,
            updated_at: self.updated_at,
        }
    }
}

impl Clone for Tag {
    fn clone(&self) -> (r: Self)
        ensures
            r@ == self@,
    {
        Tag {
            description: self.description.clone(),
            created_at: self.created_at,
            updated_at: self.updated_at,
        }
    }
}

impl Tag {
    /// Creates a new tag with the given description. Both timestamps are set
    /// to the moment of construction.
    pub fn new(description: String) -> (r: Self)
        ensures
            r@.description == description@,
            r@.created_at == r@.updated_at,
    {
        let now = now_timestamp();
        Tag { description, created_at: now, updated_at: now }
    }

    /// Replaces the description of the tag and refreshes its modified
    /// timestamp.
    pub fn update_description(&mut self, new_description: String)
        ensures
            final(self)@.description == new_description@,
            final(self)@.created_at == old(self)@.created_at,
    {
        self.description = new_description;
        self.updated_at = now_timestamp();
    }
}

/// Does the tag list contain the given tag id?
pub fn tags_contain(tags: &Vec<TagID>, tag: &TagID) -> (r: bool)
    ensures
        r == tag_views(tags@).contains(tag@),
{
    let mut i: usize = 0;
    while i < tags.len()
        invariant
            0 <= i <= tags@.len(),
            forall|j: int| 0 <= j < i ==> tag_views(tags@)[j] != tag@,
        decreases tags@.len() - i,
    {
        if tags[i].id == tag.id {
            proof {
                assert(tag_views(tags@)[i as int] == tag@);
            }
            return true;
        }
        i = i + 1;
    }
    false
}

/// Does the reference list contain an edge to the given target id?
pub fn refs_contain_target(refs: &Vec<Reference>, target: &ThoughtID) -> (r: bool)
    ensures
        r == ref_targets(ref_views(refs@)).contains(target@),
{
    let mut i: usize = 0;
    while i < refs.len()
        invariant
            0 <= i <= refs@.len(),
            forall|j: int| 0 <= j < i ==> ref_targets(ref_views(refs@))[j] != target@,
        decreases refs@.len() - i,
    {
        if refs[i].id.id == target.id {
            proof {
                assert(ref_targets(ref_views(refs@))[i as int] == target@);
            }
            return true;
        }
        i = i + 1;
    }
    false
}

} // verus!
