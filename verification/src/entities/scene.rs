//! What a tree of entities is, as plain values: the entities by identity,
//! the registrations, and the rules that every tree keeps.

use super::entity::{orphan, EntityKind, EntityType, EntityView};
use super::hierarchy::{
    ancestors, descendants, forest, is_ancestor, lemma_push, lemma_rank, lemma_reparent_forest, rank_of, ranked, reparent, Node,
};
use super::traversal::descendants_in_order;
use vstd::prelude::*;

verus! {

/// Why an entity could not be given a parent.
#[derive(Debug, Clone, Copy, PartialEq, Eq, Structural)]
pub enum HierarchyError {
    /// The entity was to become its own parent
    SelfParent,
    /// The entity was to become the child of one of its own descendants
    CyclicHierarchy,
    /// The entity, or the parent it was to get, is not in the tree
    UnknownEntity,
}

impl HierarchyError {
    /// The message that goes with the error.
    pub fn message(&self) -> (text: &'static str)
        ensures
            text@ == match *self {
                HierarchyError::SelfParent => "can't parent to self"@,
                HierarchyError::CyclicHierarchy => "can't parent to descendent"@,
                HierarchyError::UnknownEntity => "no such entity"@,
            },
    {
        match self {
            HierarchyError::SelfParent => "can't parent to self",
            HierarchyError::CyclicHierarchy => "can't parent to descendent",
            HierarchyError::UnknownEntity => "no such entity",
        }
    }
}

/// A tree of entities, as plain values.
pub struct TreeView<C, P> {
    /// Every entity, by its identity
    pub entities: Map<u128, EntityView<C, P>>,
    /// The identities in the order in which the entities were created
    pub order: Seq<u128>,
    /// The identity of the head, if one is registered
    pub head: Option<u128>,
    /// The identity of the main camera, if one is registered
    pub main_camera: Option<u128>,
    /// The identities of the parts, in the order of their creation
    pub parts: Seq<u128>,
}

impl<C, P> TreeView<C, P> {
    /// The tree that holds nothing.
    pub open spec fn empty() -> Self {
        TreeView {
            entities: Map::empty(),
            order: Seq::empty(),
            head: None,
            main_camera: None,
            parts: Seq::empty(),
        }
    }

    /// Whether the tree holds an entity under `id`.
    pub open spec fn contains(self, id: u128) -> bool {
        self.entities.contains_key(id)
    }

    /// The parent and child links of every entity.
    pub open spec fn links(self) -> Map<u128, Node> {
        Map::new(|id: u128| self.entities.contains_key(id), |id: u128| self.entities[id].node())
    }

    /// The children of `id`, in the order of their attachment; none for an
    /// identity that the tree does not hold.
    pub open spec fn children_of(self, id: u128) -> Seq<u128> {
        if self.contains(id) {
            self.entities[id].children
        } else {
            Seq::empty()
        }
    }

    /// The ancestors of `id`, nearest first; none for an identity that the
    /// tree does not hold.
    pub open spec fn ancestors_of(self, id: u128) -> Seq<u128> {
        if self.contains(id) {
            ancestors(self.links(), id)
        } else {
            Seq::empty()
        }
    }

    /// The descendants of `id`; none for an identity that the tree does not
    /// hold.
    pub open spec fn descendants_of(self, id: u128) -> Set<u128> {
        if self.contains(id) {
            descendants(self.links(), id)
        } else {
            Set::empty()
        }
    }

    /// The descendants of `id` in the order in which the walk below `id`
    /// visits them; none for an identity that the tree does not hold.
    pub open spec fn descendants_in_order_of(self, id: u128) -> Seq<u128> {
        if self.contains(id) {
            descendants_in_order(self.links(), id)
        } else {
            Seq::empty()
        }
    }

    /// The entities that stand under `ids`, in that order.
    pub open spec fn views_of(self, ids: Seq<u128>) -> Seq<EntityView<C, P>> {
        Seq::new(ids.len(), |i: int| self.entities[ids[i]])
    }

    /// The first of `ids` whose entity bears the name `name`.
    pub open spec fn first_named(self, ids: Seq<u128>, name: Seq<char>) -> Option<u128>
        decreases ids.len(),
    {
        if ids.len() == 0 {
            None
        } else if self.entities[ids[0]].name == name {
            Some(ids[0])
        } else {
            self.first_named(ids.drop_first(), name)
        }
    }

    /// Every entity is stored under its own identity, and the order of
    /// creation lists each of them once.
    pub open spec fn identities_unique(self) -> bool {
        &&& self.entities.dom().finite()
        &&& forall|id: u128| #[trigger]
            self.entities.contains_key(id) ==> self.entities[id].id == id
        &&& self.order.no_duplicates()
        &&& forall|id: u128| self.order.contains(id) <==> self.entities.contains_key(id)
    }

    /// `parts` lists exactly the entities whose payload is a part, each once.
    pub open spec fn parts_faithful(self) -> bool {
        &&& self.parts.no_duplicates()
        &&& forall|id: u128|
            self.parts.contains(id) <==> self.entities.contains_key(id) && self.entities[id].kind()
                == EntityKind::Part
    }

    /// The head, if one is registered, is a game in the tree; the main
    /// camera, if one is registered, is a camera in the tree.
    pub open spec fn registrations_known(self) -> bool {
        &&& self.head matches Some(h) ==> self.entities.contains_key(h) && self.entities[h].kind()
            == EntityKind::Game
        &&& self.main_camera matches Some(c) ==> self.entities.contains_key(c)
            && self.entities[c].kind() == EntityKind::Camera
    }

    /// The rules that hold of a tree after every operation.
    pub open spec fn wf(self) -> bool {
        &&& self.identities_unique()
        &&& forest(self.links())
        &&& self.parts_faithful()
        &&& self.registrations_known()
    }

    /// The tree after an entity without relatives has been created under the
    /// fresh identity `id`.
    pub open spec fn created(self, id: u128, name: Seq<char>, payload: EntityType<C, P>) -> Self {
        TreeView {
            entities: self.entities.insert(id, orphan(id, name, payload)),
            order: self.order.push(id),
            parts: if payload.kind_of() == EntityKind::Part {
                self.parts.push(id)
            } else {
                self.parts
            },
            ..self
        }
    }

    /// The tree in which `entity` has taken the place of the entity `id`.
    pub open spec fn with_entity(self, id: u128, entity: EntityView<C, P>) -> Self {
        TreeView { entities: self.entities.insert(id, entity), ..self }
    }

    /// The tree in which the entities `all`, which come in the order of
    /// creation, have taken the places of the entities that were there.
    pub open spec fn with_entities(self, all: Seq<EntityView<C, P>>) -> Self {
        TreeView {
            entities: Map::new(
                |id: u128| self.entities.contains_key(id),
                |id: u128| all[self.order.index_of(id)],
            ),
            ..self
        }
    }

    /// Each of `all` stands where the entity of the same rank in the order
    /// of creation stands.
    pub open spec fn same_places(self, all: Seq<EntityView<C, P>>) -> bool {
        &&& all.len() == self.order.len()
        &&& forall|i: int|
            0 <= i < all.len() ==> self.entities[self.order[i]].same_place(#[trigger] all[i])
    }

    /// Why `entity` cannot be given the parent `parent`, if it cannot.
    /// Detaching a known entity is always possible.
    pub open spec fn parent_error(self, entity: u128, parent: Option<u128>) -> Option<
        HierarchyError,
    > {
        if parent == Some(entity) {
            Some(HierarchyError::SelfParent)
        } else if !self.contains(entity) {
            Some(HierarchyError::UnknownEntity)
        } else if parent is Some && !self.contains(parent.unwrap()) {
            Some(HierarchyError::UnknownEntity)
        } else if parent is Some && is_ancestor(self.links(), entity, parent.unwrap()) {
            Some(HierarchyError::CyclicHierarchy)
        } else {
            None
        }
    }

    /// The tree in which every entity has the relatives that `links` gives
    /// it, and is otherwise as it was.
    pub open spec fn relinked(self, links: Map<u128, Node>) -> Self {
        TreeView {
            entities: Map::new(
                |id: u128| self.entities.contains_key(id),
                |id: u128|
                    EntityView {
                        parent: links[id].parent,
                        children: links[id].children,
                        ..self.entities[id]
                    },
            ),
            ..self
        }
    }

    /// The tree after `entity` has been given the parent `parent`, or none:
    /// the links change as `reparent` says, and nothing else does.
    pub open spec fn reparented(self, entity: u128, parent: Option<u128>) -> Self {
        self.relinked(reparent(self.links(), entity, parent))
    }

    /// The tree with `id` registered as its head.
    pub open spec fn with_head(self, id: u128) -> Self {
        TreeView { head: Some(id), ..self }
    }

    /// The tree with `id` registered as its main camera.
    pub open spec fn with_main_camera(self, id: u128) -> Self {
        TreeView { main_camera: Some(id), ..self }
    }

    /// The tree after the attempt to give `entity` the parent `parent`.
    pub open spec fn after_set_parent(self, entity: u128, parent: Option<u128>) -> Self {
        if self.parent_error(entity, parent) is None {
            self.reparented(entity, parent)
        } else {
            self
        }
    }
}

impl<C, P> TreeView<C, P> {
    /// Putting entities in the places of all entities, each with the same
    /// identity, the same relatives and the same kind of payload as the one
    /// that was there, keeps the rules.
    pub proof fn lemma_with_entities_wf(self, all: Seq<EntityView<C, P>>)
        requires
            self.wf(),
            self.same_places(all),
        ensures
            self.with_entities(all).wf(),
            self.with_entities(all).links() == self.links(),
    {
        let t = self.with_entities(all);
        assert forall|id: u128| self.entities.contains_key(id) implies self.entities[id].same_place(
            #[trigger] t.entities[id],
        ) by {
            assert(self.order.contains(id));
            let i = self.order.index_of(id);
            assert(self.entities[self.order[i]].same_place(all[i]));
        }
        assert(t.links() =~= self.links());
        assert(t.entities.dom() =~= self.entities.dom());
    }

    /// What `first_named` finds: an identity out of `ids` whose entity bears
    /// the name, with no such entity before it; nothing only where no
    /// entity of `ids` bears the name.
    pub proof fn lemma_first_named(self, ids: Seq<u128>, name: Seq<char>)
        ensures
            match self.first_named(ids, name) {
                Some(id) => exists|i: int|
                    {
                        &&& 0 <= i < ids.len()
                        &&& #[trigger] ids[i] == id
                        &&& self.entities[id].name == name
                        &&& forall|j: int| 0 <= j < i ==> self.entities[#[trigger] ids[j]].name != name
                    },
                None => forall|j: int|
                    0 <= j < ids.len() ==> self.entities[#[trigger] ids[j]].name != name,
            },
        decreases ids.len(),
    {
        if ids.len() > 0 && self.entities[ids[0]].name != name {
            let rest = ids.drop_first();
            self.lemma_first_named(rest, name);
            assert forall|j: int| 0 <= j < rest.len() implies rest[j] == ids[j + 1] by {}
            match self.first_named(rest, name) {
                Some(id) => {
                    let i = choose|i: int|
                        {
                            &&& 0 <= i < rest.len()
                            &&& #[trigger] rest[i] == id
                            &&& self.entities[id].name == name
                            &&& forall|j: int|
                                0 <= j < i ==> self.entities[#[trigger] rest[j]].name != name
                        };
                    assert(ids[i + 1] == id);
                    assert forall|j: int| 0 <= j < i + 1 implies self.entities[#[trigger] ids[j]].name
                        != name by {
                        if j > 0 {
                            assert(rest[j - 1] == ids[j]);
                        }
                    }
                },
                None => {
                    assert forall|j: int| 0 <= j < ids.len() implies self.entities[#[trigger] ids[j]].name
                        != name by {
                        if j > 0 {
                            assert(rest[j - 1] == ids[j]);
                        }
                    }
                },
            }
        } else if ids.len() > 0 {
            assert(ids[0] == ids[0]);
        }
    }

    /// Creating an entity under a fresh identity keeps the rules.
    pub proof fn lemma_created_wf(self, id: u128, name: Seq<char>, payload: EntityType<C, P>)
        requires
            self.wf(),
            !self.contains(id),
        ensures
            self.created(id, name, payload).wf(),
            self.created(id, name, payload).links() == self.links().insert(
                id,
                Node { parent: None, children: Seq::empty() },
            ),
    {
        let t = self.created(id, name, payload);
        let m = self.links();
        let m2 = t.links();
        assert(m2 =~= m.insert(id, Node { parent: None, children: Seq::empty() }));
        lemma_push(self.order, id);
        lemma_push(self.parts, id);
        assert(forest(m2)) by {
            lemma_rank(m);
            let r = rank_of(m);
            assert forall|c: u128| #[trigger] m2.contains_key(c) implies match m2[c].parent {
                Some(q) => m2.contains_key(q) && m2[q].children.contains(c),
                None => true,
            } by {
                if c != id {
                    assert(m.contains_key(c));
                }
            }
            assert forall|x: u128, i: int|
                m2.contains_key(x) && 0 <= i < m2[x].children.len() implies m2.contains_key(
                #[trigger] m2[x].children[i],
            ) && m2[m2[x].children[i]].parent == Some(x) by {
                assert(m.contains_key(x));
                assert(m.contains_key(m[x].children[i]));
            }
            assert forall|x: u128| #[trigger] m2.contains_key(x) implies m2[x].children.no_duplicates() by {
                if x != id {
                    assert(m.contains_key(x));
                }
            }
            assert forall|c: u128| #[trigger]
                m2.contains_key(c) && m2[c].parent is Some implies r(m2[c].parent.unwrap()) < r(
                c,
            ) by {
                assert(m.contains_key(c));
            }
            assert(ranked(m2, r));
        }
    }

    /// Giving an entity a parent that it may have keeps the rules.
    pub proof fn lemma_reparented_wf(self, entity: u128, parent: Option<u128>)
        requires
            self.wf(),
            self.parent_error(entity, parent) is None,
        ensures
            self.reparented(entity, parent).wf(),
            self.reparented(entity, parent).links() == reparent(self.links(), entity, parent),
    {
        let t = self.reparented(entity, parent);
        lemma_reparent_forest(self.links(), entity, parent);
        assert(t.links() =~= reparent(self.links(), entity, parent));
        assert(t.entities.dom() =~= self.entities.dom());
    }

    /// Putting an entity in the place of one with the same identity, the
    /// same relatives and the same kind of payload keeps the rules.
    pub proof fn lemma_with_entity_wf(self, id: u128, entity: EntityView<C, P>)
        requires
            self.wf(),
            self.contains(id),
            self.entities[id].same_place(entity),
        ensures
            self.with_entity(id, entity).wf(),
            self.with_entity(id, entity).links() == self.links(),
    {
        let t = self.with_entity(id, entity);
        assert(t.links() =~= self.links());
        assert(t.entities.dom() =~= self.entities.dom());
    }
}

/// The identities of `entities`, in their order.
pub open spec fn ids_of<C, P>(entities: Seq<EntityView<C, P>>) -> Seq<u128> {
    Seq::new(entities.len(), |i: int| entities[i].id)
}

} // verus!
