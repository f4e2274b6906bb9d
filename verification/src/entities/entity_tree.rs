//! Contains the `EntityTree` struct used for the entity hierarchy.
//!
//! The tree owns every entity. Entities name their relatives by identity,
//! never by reference, and a caller holds an entity only as a borrow out of
//! the tree: any number of callers for reading, or one for writing. The
//! compiler holds callers to that, so no operation here has a conflicting
//! borrow to report. What a lookup can miss is the identity, and then it
//! hands back `None`.

use super::entity::{views, views_owned, Entity, EntityKind, EntityType};
use super::hierarchy::{
    ancestors, attach, detach, lemma_ancestors_known, lemma_childless, lemma_detach_forest,
    lemma_not_own_ancestor, lemma_rank, rank_of,
};
use super::identity::{first_free_id, is_first_free, random_id};
use super::scene::{ids_of, HierarchyError, TreeView};
use super::traversal::{
    lemma_walk_done, lemma_walk_start, lemma_walk_step, parents_first, walk_from, walking,
};
use super::types::game_type::Game;
use std::collections::HashMap;
use vstd::prelude::*;

verus! {

/// A tree of entities: the registry that owns every entity and hands them
/// out by identity.
pub struct EntityTree<C, P> {
    /// The identity of the head (usually a `Game`), if one is registered.
    head: Option<u128>,
    /// The identity of the main camera, if one is registered.
    main_camera: Option<u128>,
    /// The identity of every part.
    parts: Vec<u128>,
    /// Every entity, in the order of creation.
    entities: Vec<Entity<C, P>>,
    /// Where each identity's entity stands in `entities`.
    index: HashMap<u128, usize>,
}

impl<C, P> View for EntityTree<C, P> {
    type V = TreeView<C, P>;

    closed spec fn view(&self) -> TreeView<C, P> {
        TreeView {
            entities: Map::new(
                |id: u128| self.index@.contains_key(id),
                |id: u128| self.entities@[self.index@[id] as int]@,
            ),
            order: Seq::new(self.entities@.len(), |i: int| self.entities@[i].uuid),
            head: self.head,
            main_camera: self.main_camera,
            parts: self.parts@,
        }
    }
}

impl<C, P> EntityTree<C, P> {
    /// The index and the storage agree: each identity leads to the entity
    /// that bears it, and each stored entity is found under its identity.
    pub closed spec fn indexed(&self) -> bool {
        &&& forall|id: u128| #[trigger]
            self.index@.contains_key(id) ==> self.index@[id] < self.entities@.len()
                && self.entities@[self.index@[id] as int].uuid == id
        &&& forall|i: int|
            0 <= i < self.entities@.len() ==> self.index@.contains_key(
                (#[trigger] self.entities@[i]).uuid,
            ) && self.index@[self.entities@[i].uuid] == i
    }

    /// The tree is sound: its storage is in order and it keeps the rules of
    /// `TreeView::wf`.
    pub open spec fn wf(&self) -> bool {
        self.indexed() && self@.wf()
    }

    /// Creates a tree that holds nothing.
    pub fn new() -> (tree: Self)
        ensures
            tree.wf(),
            tree@ == TreeView::<C, P>::empty(),
    {
        let tree = Self {
            head: None,
            main_camera: None,
            parts: Vec::new(),
            entities: Vec::new(),
            index: HashMap::new(),
        };
        proof {
            assert(tree@.entities =~= Map::empty());
            assert(tree@.order =~= Seq::empty());
            assert(tree@.links() =~= Map::empty());
            assert(super::hierarchy::ranked(tree@.links(), |id: u128| 0nat));
        }
        tree
    }

    /// Where the entity `id` stands, if the tree holds it.
    fn slot(&self, id: u128) -> (slot: Option<usize>)
        requires
            self.indexed(),
        ensures
            slot == self.slot_of(id),
            match slot {
                Some(i) => self@.contains(id) && i < self.entities@.len() && self.index@[id] == i
                    && self.entities@[i as int]@ == self@.entities[id]
                    && self.entities@[i as int].uuid == id,
                None => !self@.contains(id),
            },
    {
        match self.index.get(&id) {
            Some(slot) => Some(*slot),
            None => None,
        }
    }

    /// Creates a new entity without relatives and returns its identity. The
    /// identity is drawn at random; should the draw hit an identity that the
    /// tree holds already, the next free one is taken.
    pub fn add_entity(&mut self, name: &str, entity_type: EntityType<C, P>) -> (id: u128)
        requires
            old(self).wf(),
        ensures
            final(self).wf(),
            !old(self)@.contains(id),
            final(self)@ == old(self)@.created(id, name@, entity_type),
    {
        self.add_entity_near(random_id(), name, entity_type)
    }

    /// Creates a new entity without relatives under the first identity at or
    /// after `wanted` that the tree does not hold yet, and returns that
    /// identity.
    pub fn add_entity_near(&mut self, wanted: u128, name: &str, entity_type: EntityType<C, P>) -> (id:
        u128)
        requires
            old(self).wf(),
        ensures
            final(self).wf(),
            is_first_free(old(self)@.entities.dom(), wanted, id),
            !old(self)@.contains(wanted) ==> id == wanted,
            !old(self)@.contains(id),
            final(self)@ == old(self)@.created(id, name@, entity_type),
    {
        let id = first_free_id(&self.index, wanted);
        let slot = self.entities.len();
        let is_part = entity_type.kind() == EntityKind::Part;
        let ghost before = self@;
        let ghost old_index = self.index@;
        let ghost old_entities = self.entities@;
        proof {
            assert(before.entities.dom() =~= self.index@.dom());
        }
        self.entities.push(Entity::with_uuid(name, entity_type, id));
        self.index.insert(id, slot);
        if is_part {
            self.parts.push(id);
        }
        proof {
            let after = before.created(id, name@, entity_type);
            assert(self.indexed()) by {
                assert forall|i: int| 0 <= i < self.entities@.len() implies self.index@.contains_key(
                    (#[trigger] self.entities@[i]).uuid,
                ) && self.index@[self.entities@[i].uuid] == i by {
                    if i < slot {
                        assert(self.entities@[i] == old_entities[i]);
                        assert(old_index.contains_key(old_entities[i].uuid));
                    }
                }
            }
            assert(self@.entities =~= after.entities) by {
                assert forall|x: u128| after.entities.contains_key(x) implies self@.entities[x]
                    == after.entities[x] by {
                    if x != id {
                        assert(old_index.contains_key(x));
                        assert(self.entities@[old_index[x] as int] == old_entities[old_index[x] as int]);
                    }
                }
            }
            assert(self@.order =~= after.order);
            assert(self@ == after);
            before.lemma_created_wf(id, name@, entity_type);
        }
        id
    }

    /// Creates a new entity and at once tries to give it the parent
    /// `parent`. Where that fails the entity stays in the tree without a
    /// parent, and the error is handed back.
    pub fn add_entity_with_parent(
        &mut self,
        name: &str,
        entity_type: EntityType<C, P>,
        parent: u128,
    ) -> (result: Result<u128, HierarchyError>)
        requires
            old(self).wf(),
        ensures
            final(self).wf(),
            result is Ok <==> old(self)@.contains(parent),
            exists|id: u128|
                {
                    let made = #[trigger] old(self)@.created(id, name@, entity_type);
                    &&& !old(self)@.contains(id)
                    &&& final(self)@ == made.after_set_parent(id, Some(parent))
                    &&& result == match made.parent_error(id, Some(parent)) {
                        Some(error) => Err::<u128, HierarchyError>(error),
                        None => Ok(id),
                    }
                },
    {
        let id = self.add_entity(name, entity_type);
        proof {
            let made = old(self)@.created(id, name@, entity_type);
            old(self)@.lemma_created_wf(id, name@, entity_type);
            if made.contains(parent) {
                lemma_childless(made.links(), id, parent);
            }
        }
        match self.set_parent(id, Some(parent)) {
            Ok(()) => Ok(id),
            Err(error) => Err(error),
        }
    }

    /// Adds a new head, an entity named "Game" that carries `game`, and
    /// registers it in place of the head registered before, which stays in
    /// the tree.
    pub fn add_head(&mut self, game: Game) -> (id: u128)
        requires
            old(self).wf(),
        ensures
            final(self).wf(),
            !old(self)@.contains(id),
            final(self)@ == old(self)@.created(id, "Game"@, EntityType::Game(game)).with_head(id),
    {
        let id = self.add_entity("Game", EntityType::Game(game));
        self.head = Some(id);
        id
    }

    /// Gets the head, if one is registered.
    pub fn get_head(&self) -> (head: Option<&Entity<C, P>>)
        requires
            self.wf(),
        ensures
            match head {
                Some(e) => self@.head == Some(e@.id) && e@ == self@.entities[e@.id],
                None => self@.head is None,
            },
    {
        match self.head {
            Some(id) => self.get_entity(id),
            None => None,
        }
    }

    /// Adds a new main camera, an entity named "Camera" that carries
    /// `camera_type`, tries to give it the parent `parent` if there is one,
    /// and registers it in place of the camera registered before. Where the
    /// camera cannot get that parent it stays without one, registered all
    /// the same, and the error is handed back.
    pub fn add_main_camera(&mut self, parent: Option<u128>, camera_type: C) -> (result: Result<
        u128,
        HierarchyError,
    >)
        requires
            old(self).wf(),
        ensures
            final(self).wf(),
            result is Ok <==> (parent matches Some(p) ==> old(self)@.contains(p)),
            final(self)@.main_camera matches Some(id) && {
                let made = old(self)@.created(id, "Camera"@, EntityType::Camera(camera_type));
                &&& !old(self)@.contains(id)
                &&& final(self)@ == made.after_set_parent(id, parent).with_main_camera(id)
                &&& result == match made.parent_error(id, parent) {
                    Some(error) => Err::<u128, HierarchyError>(error),
                    None => Ok(id),
                }
            },
    {
        let id = self.add_entity("Camera", EntityType::Camera(camera_type));
        proof {
            let made = old(self)@.created(id, "Camera"@, EntityType::Camera(camera_type));
            old(self)@.lemma_created_wf(id, "Camera"@, EntityType::Camera(camera_type));
            if let Some(p) = parent {
                if made.contains(p) {
                    lemma_childless(made.links(), id, p);
                }
            }
        }
        let outcome = self.set_parent(id, parent);
        self.main_camera = Some(id);
        match outcome {
            Ok(()) => Ok(id),
            Err(error) => Err(error),
        }
    }

    /// Gets the main camera, if one is registered.
    pub fn get_main_camera(&self) -> (camera: Option<&Entity<C, P>>)
        requires
            self.wf(),
        ensures
            match camera {
                Some(e) => self@.main_camera == Some(e@.id) && e@ == self@.entities[e@.id],
                None => self@.main_camera is None,
            },
    {
        match self.main_camera {
            Some(id) => self.get_entity(id),
            None => None,
        }
    }

    /// Gets the identity of the head, if one is registered.
    pub fn head(&self) -> (head: Option<u128>)
        ensures
            head == self@.head,
    {
        self.head
    }

    /// Gets the identity of the main camera, if one is registered.
    pub fn main_camera(&self) -> (camera: Option<u128>)
        ensures
            camera == self@.main_camera,
    {
        self.main_camera
    }

    /// Gets the identities of all parts, in the order of their creation.
    pub fn parts(&self) -> (parts: &[u128])
        ensures
            parts@ == self@.parts,
    {
        self.parts.as_slice()
    }

    /// Gets an entity based on the `id`; `None` if the tree holds none.
    pub fn get_entity(&self, id: u128) -> (entity: Option<&Entity<C, P>>)
        requires
            self.wf(),
        ensures
            match entity {
                Some(e) => self@.contains(id) && e@ == self@.entities[id],
                None => !self@.contains(id),
            },
    {
        match self.slot(id) {
            Some(slot) => Some(&self.entities[slot]),
            None => None,
        }
    }

    /// What it means that the tree has lent out its entity `id` for writing:
    /// the borrower got the entity as it `was`; once it hands the entity
    /// back as it `is`, under the same identity, the tree `after` is the old
    /// tree with the entity replaced; and the tree is sound again if the
    /// entity still has its relatives and a payload of the same kind.
    pub open spec fn lent(&self, after: Self, id: u128, was: Entity<C, P>, is: Entity<C, P>) -> bool {
        &&& self@.contains(id)
        &&& was@ == self@.entities[id]
        &&& is@.id == id ==> after.indexed() && after@ == self@.with_entity(id, is@)
        &&& self@.entities[id].same_place(is@) ==> after.wf()
    }

    /// Gets an entity for writing, based on the `id`; `None` if the tree
    /// holds none. While the entity is lent out, the tree cannot be used.
    pub fn get_entity_mut(&mut self, id: u128) -> (entity: Option<&mut Entity<C, P>>)
        requires
            old(self).wf(),
        ensures
            match entity {
                Some(e) => old(self).lent(*final(self), id, *e, *final(e)),
                None => !old(self)@.contains(id) && *final(self) == *old(self),
            },
    {
        match self.slot(id) {
            Some(slot) => Some(self.entity_at_mut(slot, Ghost(id))),
            None => None,
        }
    }

    /// Lends out the entity at `slot`, which is the entity `id`.
    fn entity_at_mut(&mut self, slot: usize, Ghost(id): Ghost<u128>) -> (entity: &mut Entity<C, P>)
        requires
            old(self).wf(),
            old(self).slot_of(id) == Some(slot),
        ensures
            old(self).lent(*final(self), id, *entity, *final(entity)),
    {
        proof {
            let stored = self.entities@[slot as int];
            assert forall|after: Self, is: Entity<C, P>|
                self.lends(after, slot, is) implies #[trigger] self.lent(after, id, stored, is) by {
                self.lemma_lend(after, slot, id, is);
            }
        }
        let entity = &mut self.entities[slot];
        entity
    }

    /// `after` is this tree with `is` at `slot`, and otherwise unchanged.
    closed spec fn lends(&self, after: Self, slot: usize, is: Entity<C, P>) -> bool {
        &&& 0 <= slot < self.entities@.len()
        &&& after.entities@ == self.entities@.update(slot as int, is)
        &&& after.index == self.index
        &&& after.head == self.head
        &&& after.main_camera == self.main_camera
        &&& after.parts == self.parts
    }

    /// A tree that got one of its entities back is the tree with that entity
    /// replaced.
    proof fn lemma_lend(&self, after: Self, slot: usize, id: u128, is: Entity<C, P>)
        requires
            self.wf(),
            self.slot_of(id) == Some(slot),
            self.lends(after, slot, is),
        ensures
            self.lent(after, id, self.entities@[slot as int], is),
    {
        let before = self@;
        let old_entities = self.entities@;
        let now = after.entities@;
        assert(before.contains(id));
        if is@.id == id {
            assert(after.indexed()) by {
                assert forall|i: int| 0 <= i < now.len() implies (#[trigger] now[i]).uuid
                    == old_entities[i].uuid by {}
            }
            assert(after@.entities =~= before.with_entity(id, is@).entities) by {
                assert forall|x: u128| before.entities.contains_key(x) implies after@.entities[x]
                    == before.with_entity(id, is@).entities[x] by {
                    let i = self.index@[x] as int;
                    if x != id {
                        assert(now[i] == old_entities[i]);
                    }
                }
            }
            assert(after@.order =~= before.order);
            if before.entities[id].same_place(is@) {
                before.lemma_with_entity_wf(id, is@);
            }
        }
    }

    /// Gets all entities inside of the tree, in the order of their creation.
    pub fn get_entities(&self) -> (entities: Vec<&Entity<C, P>>)
        requires
            self.wf(),
        ensures
            views(entities@) == self@.views_of(self@.order),
    {
        let mut found: Vec<&Entity<C, P>> = Vec::new();
        let mut i: usize = 0;
        while i < self.entities.len()
            invariant
                i <= self.entities@.len(),
                found@.len() == i,
                forall|j: int| 0 <= j < i ==> found@[j] == self.entities@[j],
            decreases self.entities@.len() - i,
        {
            found.push(&self.entities[i]);
            i += 1;
        }
        proof {
            assert(views(found@) =~= self@.views_of(self@.order));
        }
        found
    }

    /// What it means that the tree has lent out all its entities for
    /// writing: once they come back as `now`, under the same identities,
    /// the tree `after` is the old tree with them in the place of the old
    /// ones; and the tree is sound again if each of them still has its
    /// relatives and a payload of the same kind.
    pub open spec fn lent_all(&self, after: Self, now: Seq<Entity<C, P>>) -> bool {
        &&& now.len() == self@.order.len() && ids_of(views_owned(now)) == self@.order
            ==> after.indexed() && after@ == self@.with_entities(views_owned(now))
        &&& self@.same_places(views_owned(now)) ==> after.wf()
    }

    /// Gets all entities inside of the tree for writing, in the order of
    /// their creation. While they are lent out, the tree cannot be used.
    pub fn get_entities_mut(&mut self) -> (entities: &mut [Entity<C, P>])
        requires
            old(self).wf(),
        ensures
            entities@.len() == old(self)@.order.len(),
            views_owned(entities@) == old(self)@.views_of(old(self)@.order),
            old(self).lent_all(*final(self), final(entities)@),
    {
        proof {
            assert(views_owned(self.entities@) =~= self@.views_of(self@.order));
            assert forall|after: Self|
                self.lends_all(after) implies #[trigger] self.lent_all(after, after.entities@) by {
                self.lemma_lend_all(after);
            }
        }
        self.entities.as_mut_slice()
    }

    /// `after` is this tree with other entities, and otherwise unchanged.
    closed spec fn lends_all(&self, after: Self) -> bool {
        &&& after.index == self.index
        &&& after.head == self.head
        &&& after.main_camera == self.main_camera
        &&& after.parts == self.parts
    }

    /// A tree that got all its entities back is the tree with those
    /// entities.
    proof fn lemma_lend_all(&self, after: Self)
        requires
            self.wf(),
            self.lends_all(after),
        ensures
            self.lent_all(after, after.entities@),
    {
        let before = self@;
        let now = after.entities@;
        let all = views_owned(now);
        if now.len() == before.order.len() && ids_of(all) == before.order {
            assert forall|i: int| 0 <= i < now.len() implies (#[trigger] now[i]).uuid
                == self.entities@[i].uuid by {
                assert(ids_of(all)[i] == before.order[i]);
            }
            assert(after.indexed());
            assert(after@.entities =~= before.with_entities(all).entities) by {
                assert forall|x: u128| before.entities.contains_key(x) implies after@.entities[x]
                    == before.with_entities(all).entities[x] by {
                    let i = self.index@[x] as int;
                    assert(before.order[i] == x);
                    assert(before.order.contains(x));
                    let j = before.order.index_of(x);
                    assert(before.order[j] == x);
                    assert(i == j);
                }
            }
            assert(after@.order =~= before.order);
        }
        if before.same_places(all) {
            assert(ids_of(all) =~= before.order) by {
                assert forall|i: int| 0 <= i < all.len() implies ids_of(all)[i] == before.order[i] by {
                    assert(before.entities[before.order[i]].same_place(all[i]));
                    assert(before.order.contains(before.order[i]));
                }
            }
            before.lemma_with_entities_wf(all);
        }
    }

    /// Gets the entities that stand under `ids`, in that order.
    fn entities_of(&self, ids: &Vec<u128>) -> (entities: Vec<&Entity<C, P>>)
        requires
            self.wf(),
            forall|i: int| 0 <= i < ids@.len() ==> self@.contains(#[trigger] ids@[i]),
        ensures
            views(entities@) == self@.views_of(ids@),
    {
        let mut found: Vec<&Entity<C, P>> = Vec::new();
        let mut i: usize = 0;
        while i < ids.len()
            invariant
                self.wf(),
                i <= ids@.len(),
                found@.len() == i,
                forall|j: int| 0 <= j < ids@.len() ==> self@.contains(#[trigger] ids@[j]),
                forall|j: int| 0 <= j < i ==> (#[trigger] found@[j])@ == self@.entities[ids@[j]],
            decreases ids@.len() - i,
        {
            assert(self@.contains(ids@[i as int]));
            match self.get_entity(ids[i]) {
                Some(entity) => {
                    found.push(entity);
                },
                None => {},
            }
            i += 1;
        }
        proof {
            assert(views(found@) =~= self@.views_of(ids@));
        }
        found
    }

    /// Gets the identities of an entity's children, in the order of their
    /// attachment; none for an identity that the tree does not hold.
    pub fn get_children_id(&self, id: u128) -> (ids: Vec<u128>)
        requires
            self.wf(),
        ensures
            ids@ == self@.children_of(id),
    {
        let mut ids: Vec<u128> = Vec::new();
        match self.slot(id) {
            Some(slot) => {
                self.push_children(slot, &mut ids);
                proof {
                    assert(ids@ =~= self@.children_of(id));
                }
            },
            None => {},
        }
        ids
    }

    /// Gets an entity's parent; `None` for an entity without one and for an
    /// identity that the tree does not hold.
    pub fn get_parent(&self, id: u128) -> (parent: Option<&Entity<C, P>>)
        requires
            self.wf(),
        ensures
            match parent {
                Some(p) => self@.contains(id) && self@.entities[id].parent == Some(p@.id) && p@
                    == self@.entities[p@.id],
                None => !self@.contains(id) || self@.entities[id].parent is None,
            },
    {
        proof {
            self.lemma_links(id);
        }
        match self.get_entity(id) {
            Some(entity) => match entity.parent_id {
                Some(parent) => self.get_entity(parent),
                None => None,
            },
            None => None,
        }
    }

    /// Gets an entity's parent for writing; `None` for an entity without
    /// one and for an identity that the tree does not hold.
    pub fn get_parent_mut(&mut self, id: u128) -> (parent: Option<&mut Entity<C, P>>)
        requires
            old(self).wf(),
        ensures
            match parent {
                Some(p) => old(self)@.contains(id) && old(self)@.entities[id].parent == Some(p@.id)
                    && old(self).lent(*final(self), p@.id, *p, *final(p)),
                None => (!old(self)@.contains(id) || old(self)@.entities[id].parent is None)
                    && *final(self) == *old(self),
            },
    {
        proof {
            self.lemma_links(id);
        }
        let parent = match self.get_entity(id) {
            Some(entity) => entity.parent_id,
            None => None,
        };
        match parent {
            Some(parent) => self.get_entity_mut(parent),
            None => None,
        }
    }

    /// The relatives of a known entity are known.
    proof fn lemma_links(&self, id: u128)
        requires
            self.wf(),
        ensures
            self@.contains(id) ==> {
                &&& self@.links().contains_key(id)
                &&& self@.entities[id].parent matches Some(p) ==> self@.contains(p)
                &&& forall|i: int|
                    0 <= i < self@.entities[id].children.len() ==> self@.contains(
                        #[trigger] self@.entities[id].children[i],
                    )
            },
    {
        if self@.contains(id) {
            let m = self@.links();
            assert(m.contains_key(id));
            assert forall|i: int| 0 <= i < self@.entities[id].children.len() implies self@.contains(
                #[trigger] self@.entities[id].children[i],
            ) by {
                assert(m.contains_key(m[id].children[i]));
            }
        }
    }

    /// Gets an entity's children, in the order of their attachment; none
    /// for an identity that the tree does not hold.
    pub fn get_children(&self, id: u128) -> (children: Vec<&Entity<C, P>>)
        requires
            self.wf(),
        ensures
            views(children@) == self@.views_of(self@.children_of(id)),
    {
        let ids = self.get_children_id(id);
        proof {
            self.lemma_links(id);
        }
        self.entities_of(&ids)
    }

    /// Gets an entity's ancestors, nearest first; none for an identity that
    /// the tree does not hold.
    pub fn get_ancestors(&self, id: u128) -> (found: Vec<&Entity<C, P>>)
        requires
            self.wf(),
        ensures
            views(found@) == self@.views_of(self@.ancestors_of(id)),
    {
        let ids = self.get_ancestors_id(id);
        proof {
            if self@.contains(id) {
                lemma_ancestors_known(self@.links(), id);
                assert forall|i: int| 0 <= i < ids@.len() implies self@.contains(
                    #[trigger] ids@[i],
                ) by {
                    assert(ids@.contains(ids@[i]));
                }
            }
        }
        self.entities_of(&ids)
    }

    /// Gets an entity's descendants, each once; none for an identity that
    /// the tree does not hold.
    pub fn get_descendents(&self, id: u128) -> (found: Vec<&Entity<C, P>>)
        requires
            self.wf(),
        ensures
            views(found@) == self@.views_of(self@.descendants_in_order_of(id)),
            ids_of(views(found@)) == self@.descendants_in_order_of(id),
            ids_of(views(found@)).no_duplicates(),
            ids_of(views(found@)).to_set() == self@.descendants_of(id),
    {
        let ids = self.get_descendents_id(id);
        proof {
            assert forall|i: int| 0 <= i < ids@.len() implies self@.contains(#[trigger] ids@[i]) by {
                assert(ids@.to_set().contains(ids@[i]));
            }
        }
        let found = self.entities_of(&ids);
        proof {
            assert forall|i: int| 0 <= i < ids@.len() implies #[trigger] views(found@)[i].id
                == ids@[i] by {
                assert(self@.contains(ids@[i]));
                assert(views(found@)[i] == self@.views_of(ids@)[i]);
            }
            assert(ids_of(views(found@)) =~= ids@);
        }
        found
    }

    /// Finds the first of `ids` whose entity bears the name `name`.
    fn find_named(&self, ids: &Vec<u128>, name: &str) -> (found: Option<u128>)
        requires
            self.wf(),
            forall|i: int| 0 <= i < ids@.len() ==> self@.contains(#[trigger] ids@[i]),
        ensures
            found == self@.first_named(ids@, name@),
            found matches Some(id) ==> ids@.contains(id) && self@.contains(id)
                && self@.entities[id].name == name@,
            found is None ==> forall|i: int|
                0 <= i < ids@.len() ==> self@.entities[#[trigger] ids@[i]].name != name@,
    {
        let needle = name.to_owned();
        let mut i: usize = 0;
        proof {
            assert(ids@.skip(0) =~= ids@);
            self@.lemma_first_named(ids@, name@);
        }
        while i < ids.len()
            invariant
                self.wf(),
                i <= ids@.len(),
                needle@ == name@,
                forall|j: int| 0 <= j < ids@.len() ==> self@.contains(#[trigger] ids@[j]),
                self@.first_named(ids@, name@) == self@.first_named(ids@.skip(i as int), name@),
            decreases ids@.len() - i,
        {
            let id = ids[i];
            assert(self@.contains(ids@[i as int]));
            proof {
                assert(ids@.skip(i as int).drop_first() =~= ids@.skip(i + 1));
                assert(ids@.skip(i as int)[0] == id);
                self@.lemma_first_named(ids@, name@);
            }
            match self.slot(id) {
                Some(slot) => {
                    if self.entities[slot].name == needle {
                        return Some(id);
                    }
                },
                None => {},
            }
            i += 1;
        }
        None
    }

    /// Finds the first child of `id`, in the order of attachment, whose name
    /// is equal to `name`.
    pub fn find_first_child(&self, id: u128, name: &str) -> (found: Option<&Entity<C, P>>)
        requires
            self.wf(),
        ensures
            match found {
                Some(e) => self@.first_named(self@.children_of(id), name@) == Some(e@.id) && e@
                    == self@.entities[e@.id],
                None => self@.first_named(self@.children_of(id), name@) is None,
            },
    {
        let ids = self.get_children_id(id);
        proof {
            self.lemma_links(id);
        }
        match self.find_named(&ids, name) {
            Some(child) => self.get_entity(child),
            None => None,
        }
    }

    /// Finds, for writing, the first child of `id`, in the order of
    /// attachment, whose name is equal to `name`.
    pub fn find_first_child_mut(&mut self, id: u128, name: &str) -> (found: Option<
        &mut Entity<C, P>,
    >)
        requires
            old(self).wf(),
        ensures
            match found {
                Some(e) => old(self)@.first_named(old(self)@.children_of(id), name@) == Some(e@.id)
                    && old(self).lent(*final(self), e@.id, *e, *final(e)),
                None => old(self)@.first_named(old(self)@.children_of(id), name@) is None
                    && *final(self) == *old(self),
            },
    {
        let ids = self.get_children_id(id);
        proof {
            self.lemma_links(id);
        }
        match self.find_named(&ids, name) {
            Some(child) => self.get_entity_mut(child),
            None => None,
        }
    }

    /// Finds the nearest ancestor of `id` whose name is equal to `name`.
    pub fn find_first_ancestor(&self, id: u128, name: &str) -> (found: Option<&Entity<C, P>>)
        requires
            self.wf(),
        ensures
            match found {
                Some(e) => self@.first_named(self@.ancestors_of(id), name@) == Some(e@.id) && e@
                    == self@.entities[e@.id],
                None => self@.first_named(self@.ancestors_of(id), name@) is None,
            },
    {
        let ids = self.get_ancestors_id(id);
        proof {
            self.lemma_ancestors(id);
        }
        match self.find_named(&ids, name) {
            Some(ancestor) => self.get_entity(ancestor),
            None => None,
        }
    }

    /// Finds, for writing, the nearest ancestor of `id` whose name is equal
    /// to `name`.
    pub fn find_first_ancestor_mut(&mut self, id: u128, name: &str) -> (found: Option<
        &mut Entity<C, P>,
    >)
        requires
            old(self).wf(),
        ensures
            match found {
                Some(e) => old(self)@.first_named(old(self)@.ancestors_of(id), name@) == Some(
                    e@.id,
                ) && old(self).lent(*final(self), e@.id, *e, *final(e)),
                None => old(self)@.first_named(old(self)@.ancestors_of(id), name@) is None
                    && *final(self) == *old(self),
            },
    {
        let ids = self.get_ancestors_id(id);
        proof {
            self.lemma_ancestors(id);
        }
        match self.find_named(&ids, name) {
            Some(ancestor) => self.get_entity_mut(ancestor),
            None => None,
        }
    }

    /// Finds a descendant of `id` whose name is equal to `name`: the first
    /// one that the walk over the descendants comes to.
    pub fn find_first_descendent(&self, id: u128, name: &str) -> (found: Option<&Entity<C, P>>)
        requires
            self.wf(),
        ensures
            match found {
                Some(e) => self@.first_named(self@.descendants_in_order_of(id), name@) == Some(
                    e@.id,
                ) && self@.descendants_of(id).contains(e@.id) && e@ == self@.entities[e@.id]
                    && e@.name == name@,
                None => self@.first_named(self@.descendants_in_order_of(id), name@) is None
                    && forall|d: u128| #[trigger]
                    self@.descendants_of(id).contains(d) ==> self@.entities[d].name != name@,
            },
    {
        let ids = self.get_descendents_id(id);
        proof {
            self.lemma_descendants(id, ids@);
        }
        match self.find_named(&ids, name) {
            Some(descendant) => self.get_entity(descendant),
            None => None,
        }
    }

    /// Finds, for writing, a descendant of `id` whose name is equal to
    /// `name`: the first one that the walk over the descendants comes to.
    pub fn find_first_descendent_mut(&mut self, id: u128, name: &str) -> (found: Option<
        &mut Entity<C, P>,
    >)
        requires
            old(self).wf(),
        ensures
            match found {
                Some(e) => old(self)@.first_named(old(self)@.descendants_in_order_of(id), name@)
                    == Some(e@.id) && old(self)@.descendants_of(id).contains(e@.id) && e@.name
                    == name@ && old(self).lent(*final(self), e@.id, *e, *final(e)),
                None => old(self)@.first_named(old(self)@.descendants_in_order_of(id), name@)
                    is None && (forall|d: u128| #[trigger]
                    old(self)@.descendants_of(id).contains(d) ==> old(self)@.entities[d].name
                        != name@) && *final(self) == *old(self),
            },
    {
        let ids = self.get_descendents_id(id);
        proof {
            self.lemma_descendants(id, ids@);
        }
        match self.find_named(&ids, name) {
            Some(descendant) => self.get_entity_mut(descendant),
            None => None,
        }
    }

    /// The ancestors of an entity are in the tree.
    proof fn lemma_ancestors(&self, id: u128)
        requires
            self.wf(),
        ensures
            forall|i: int|
                0 <= i < self@.ancestors_of(id).len() ==> self@.contains(
                    #[trigger] self@.ancestors_of(id)[i],
                ),
    {
        if self@.contains(id) {
            let ids = self@.ancestors_of(id);
            lemma_ancestors_known(self@.links(), id);
            assert forall|i: int| 0 <= i < ids.len() implies self@.contains(#[trigger] ids[i]) by {
                assert(ids.contains(ids[i]));
            }
        }
    }

    /// A list of the descendants of an entity holds entities of the tree,
    /// and every descendant is in it.
    proof fn lemma_descendants(&self, id: u128, ids: Seq<u128>)
        requires
            self.wf(),
            ids.to_set() == self@.descendants_of(id),
        ensures
            forall|i: int| 0 <= i < ids.len() ==> self@.contains(#[trigger] ids[i]),
            forall|d: u128| self@.descendants_of(id).contains(d) <==> ids.contains(d),
    {
        assert forall|i: int| 0 <= i < ids.len() implies self@.contains(#[trigger] ids[i]) by {
            assert(ids.to_set().contains(ids[i]));
        }
        assert forall|d: u128| self@.descendants_of(id).contains(d) <==> ids.contains(d) by {
            assert(ids.to_set().contains(d) <==> ids.contains(d));
        }
    }

    /// Sets the parent of an entity, or detaches it with `None`. The entity
    /// leaves the children of its former parent and becomes the last child
    /// of the new one. An entity cannot become its own parent, nor the child
    /// of one of its descendants; on an error nothing changes.
    pub fn set_parent(&mut self, entity: u128, parent: Option<u128>) -> (result: Result<
        (),
        HierarchyError,
    >)
        requires
            old(self).wf(),
        ensures
            final(self).wf(),
            result == match old(self)@.parent_error(entity, parent) {
                Some(error) => Err::<(), HierarchyError>(error),
                None => Ok(()),
            },
            final(self)@ == old(self)@.after_set_parent(entity, parent),
    {
        if let Some(new_parent) = parent {
            if new_parent == entity {
                return Err(HierarchyError::SelfParent);
            }
        }
        let slot = match self.slot(entity) {
            Some(slot) => slot,
            None => {
                return Err(HierarchyError::UnknownEntity);
            },
        };
        let ghost before = self@;
        let ghost m = before.links();
        if let Some(new_parent) = parent {
            let new_slot = match self.slot(new_parent) {
                Some(slot) => slot,
                None => {
                    return Err(HierarchyError::UnknownEntity);
                },
            };
            let below = self.get_descendents_id(entity);
            if contains_id(&below, new_parent) {
                assert(below@.to_set().contains(new_parent));
                return Err(HierarchyError::CyclicHierarchy);
            }
            assert(!below@.to_set().contains(new_parent));
            proof {
                lemma_detach_forest(m, entity);
            }
            self.detach_entity(entity, slot);
            proof {
                assert(self@.links() =~= detach(m, entity));
            }
            self.attach_entity(entity, slot, new_parent, new_slot);
            proof {
                assert(self@.entities =~= before.reparented(entity, parent).entities);
                before.lemma_reparented_wf(entity, parent);
            }
        } else {
            proof {
                lemma_detach_forest(m, entity);
            }
            self.detach_entity(entity, slot);
            proof {
                before.lemma_reparented_wf(entity, parent);
            }
        }
        Ok(())
    }

    /// Takes `entity` out of its parent's children and leaves it without a
    /// parent.
    fn detach_entity(&mut self, entity: u128, slot: usize)
        requires
            old(self).wf(),
            old(self).slot_of(entity) == Some(slot),
        ensures
            final(self).indexed(),
            final(self).index@ == old(self).index@,
            final(self)@ == old(self)@.relinked(detach(old(self)@.links(), entity)),
    {
        let ghost before = self@;
        let ghost m = before.links();
        let ghost old_entities = self.entities@;
        if let Some(former) = self.entities[slot].parent_id {
            proof {
                lemma_rank(m);
                assert(m.contains_key(entity));
                assert(m.contains_key(former));
            }
            let former_slot = match self.slot(former) {
                Some(slot) => slot,
                None => {
                    return ;
                },
            };
            assert(former_slot != slot);
            remove_id(&mut self.entities[former_slot].children_id, entity);
            self.entities[slot].parent_id = None;
            proof {
                let after = before.relinked(detach(m, entity));
                assert(self.indexed()) by {
                    assert forall|i: int| 0 <= i < self.entities@.len() implies (
                    #[trigger] self.entities@[i]).uuid == old_entities[i].uuid by {}
                }
                assert(self@.entities =~= after.entities) by {
                    assert forall|x: u128| after.entities.contains_key(x) implies self@.entities[x]
                        == after.entities[x] by {
                        let i = self.index@[x] as int;
                        if x != entity && x != former {
                            assert(self.entities@[i] == old_entities[i]);
                        }
                    }
                }
                assert(self@.order =~= after.order);
            }
        } else {
            proof {
                let after = before.relinked(detach(m, entity));
                assert(self@.entities =~= after.entities);
            }
        }
    }

    /// Makes the parentless `entity` the last child of `parent`.
    fn attach_entity(&mut self, entity: u128, slot: usize, parent: u128, parent_slot: usize)
        requires
            old(self).indexed(),
            old(self).slot_of(entity) == Some(slot),
            old(self).slot_of(parent) == Some(parent_slot),
            entity != parent,
        ensures
            final(self).indexed(),
            final(self).index@ == old(self).index@,
            final(self)@ == old(self)@.relinked(attach(old(self)@.links(), entity, parent)),
    {
        let ghost before = self@;
        let ghost m = before.links();
        let ghost old_entities = self.entities@;
        assert(parent_slot != slot);
        self.entities[slot].parent_id = Some(parent);
        self.entities[parent_slot].children_id.push(entity);
        proof {
            let after = before.relinked(attach(m, entity, parent));
            assert(self.indexed()) by {
                assert forall|i: int| 0 <= i < self.entities@.len() implies (
                #[trigger] self.entities@[i]).uuid == old_entities[i].uuid by {}
            }
            assert(self@.entities =~= after.entities) by {
                assert forall|x: u128| after.entities.contains_key(x) implies self@.entities[x]
                    == after.entities[x] by {
                    let i = self.index@[x] as int;
                    if x != entity && x != parent {
                        assert(self.entities@[i] == old_entities[i]);
                    }
                }
            }
            assert(self@.order =~= after.order);
        }
    }

    /// Where the index says the entity `id` stands.
    closed spec fn slot_of(&self, id: u128) -> Option<usize> {
        if self.index@.contains_key(id) {
            Some(self.index@[id])
        } else {
            None
        }
    }

    /// Gets the identities of an entity's ancestors, nearest first: its
    /// parent, then the parent's parent, up to the root.
    pub fn get_ancestors_id(&self, id: u128) -> (ids: Vec<u128>)
        requires
            self.wf(),
        ensures
            ids@ == self@.ancestors_of(id),
    {
        let mut ids: Vec<u128> = Vec::new();
        let slot = match self.slot(id) {
            Some(slot) => slot,
            None => {
                return ids;
            },
        };
        let ghost m = self@.links();
        let ghost mut cur = id;
        let mut next = self.entities[slot].parent_id;
        while next.is_some()
            invariant
                self.wf(),
                m == self@.links(),
                m.contains_key(cur),
                next == m[cur].parent,
                ids@ + ancestors(m, cur) == ancestors(m, id),
            decreases rank_of(m)(cur),
        {
            let parent = next.unwrap();
            proof {
                lemma_rank(m);
                assert(ancestors(m, cur) == seq![parent] + ancestors(m, parent));
                assert(ids@.push(parent) + ancestors(m, parent) =~= ids@ + ancestors(m, cur));
                cur = parent;
            }
            ids.push(parent);
            next = match self.slot(parent) {
                Some(slot) => self.entities[slot].parent_id,
                None => None,
            };
        }
        proof {
            assert(ancestors(m, cur) =~= Seq::empty());
            assert(ids@ =~= ids@ + ancestors(m, cur));
        }
        ids
    }

    /// Gets the identities of an entity's descendants, each once: its
    /// children, their children, and so on down, every one of them behind
    /// its parent. The walk keeps a stack of the entities still to visit,
    /// and never comes to one twice.
    pub fn get_descendents_id(&self, id: u128) -> (ids: Vec<u128>)
        requires
            self.wf(),
        ensures
            ids@ == self@.descendants_in_order_of(id),
            ids@.no_duplicates(),
            ids@.to_set() == self@.descendants_of(id),
            !ids@.contains(id),
            parents_first(self@.links(), id, ids@),
    {
        let mut ids: Vec<u128> = Vec::new();
        let slot = match self.slot(id) {
            Some(slot) => slot,
            None => {
                proof {
                    assert(ids@.to_set() =~= Set::empty());
                }
                return ids;
            },
        };
        let ghost m = self@.links();
        let mut stack: Vec<u128> = Vec::new();
        self.push_children(slot, &mut stack);
        proof {
            assert(stack@ =~= m[id].children);
            lemma_walk_start(m, id);
            assert(m.dom() =~= self@.entities.dom());
            assert(ids@ + walk_from(m, stack@, m.dom().len()) =~= walk_from(
                m,
                m[id].children,
                m.dom().len(),
            ));
        }
        while stack.len() > 0
            invariant
                self.wf(),
                m == self@.links(),
                m.dom().finite(),
                walking(m, id, ids@, stack@),
                ids@.len() <= m.dom().len(),
                ids@ + walk_from(m, stack@, (m.dom().len() - ids@.len()) as nat) == walk_from(
                    m,
                    m[id].children,
                    m.dom().len(),
                ),
            decreases m.dom().len() - ids@.len(),
        {
            let ghost waiting = stack@;
            let ghost visited = ids@;
            proof {
                lemma_walk_step(m, id, ids@, stack@);
                let fuel = (m.dom().len() - visited.len()) as nat;
                let rest = walk_from(
                    m,
                    waiting.drop_last() + m[waiting.last()].children,
                    (fuel - 1) as nat,
                );
                assert(walk_from(m, waiting, fuel) == seq![waiting.last()] + rest);
                assert(visited.push(waiting.last()) + rest =~= visited + (seq![waiting.last()]
                    + rest));
            }
            let top = stack.pop().unwrap();
            assert(stack@ == waiting.drop_last());
            match self.slot(top) {
                Some(slot) => {
                    self.push_children(slot, &mut stack);
                },
                None => {},
            }
            ids.push(top);
        }
        proof {
            assert(stack@ =~= Seq::empty());
            assert(ids@ + Seq::<u128>::empty() =~= ids@);
            lemma_walk_done(m, id, ids@);
            lemma_not_own_ancestor(m, id);
            assert(ids@.contains(id) ==> ids@.to_set().contains(id));
        }
        ids
    }

    /// Pushes the children of the entity at `slot` onto `stack`, in their
    /// order.
    fn push_children(&self, slot: usize, stack: &mut Vec<u128>)
        requires
            slot < self.entities@.len(),
        ensures
            final(stack)@ == old(stack)@ + self.entities@[slot as int]@.children,
    {
        let children = &self.entities[slot].children_id;
        let mut i: usize = 0;
        while i < children.len()
            invariant
                i <= children.len(),
                children@ == self.entities@[slot as int]@.children,
                stack@ == old(stack)@ + children@.take(i as int),
            decreases children.len() - i,
        {
            stack.push(children[i]);
            proof {
                assert(children@.take(i + 1) =~= children@.take(i as int).push(children@[i as int]));
                assert(stack@ =~= old(stack)@ + children@.take(i + 1));
            }
            i += 1;
        }
        proof {
            assert(children@.take(children@.len() as int) =~= children@);
        }
    }
}

impl<C, P> Default for EntityTree<C, P> {
    /// A tree that holds nothing.
    fn default() -> (tree: Self)
        ensures
            tree.wf(),
            tree@ == TreeView::<C, P>::empty(),
    {
        Self::new()
    }
}

/// Whether `ids` holds `id`.
fn contains_id(ids: &Vec<u128>, id: u128) -> (found: bool)
    ensures
        found == ids@.contains(id),
{
    let mut i: usize = 0;
    while i < ids.len()
        invariant
            i <= ids.len(),
            forall|j: int| 0 <= j < i ==> ids@[j] != id,
        decreases ids.len() - i,
    {
        if ids[i] == id {
            return true;
        }
        i += 1;
    }
    false
}

/// Takes the first `id` out of `ids`, if there is one.
fn remove_id(ids: &mut Vec<u128>, id: u128)
    ensures
        final(ids)@ == old(ids)@.remove_value(id),
{
    let mut i: usize = 0;
    while i < ids.len()
        invariant
            i <= ids.len(),
            ids@ == old(ids)@,
            forall|j: int| 0 <= j < i ==> ids@[j] != id,
        decreases ids.len() - i,
    {
        if ids[i] == id {
            proof {
                let all = old(ids)@;
                all.index_of_first_ensures(id);
                assert(all[i as int] == id);
                assert(all.index_of_first(id) == Some(i as int));
            }
            ids.remove(i);
            return ;
        }
        i += 1;
    }
    proof {
        ids@.index_of_first_ensures(id);
    }
}

} // verus!
