//! One node of the hierarchy: its identity, its name, its links to its
//! relatives, by identity only, and its payload.

use super::hierarchy::Node;
use super::identity::{random_id, LAYOUT_MASK, RANDOM_LAYOUT};
use super::types::game_type::Game;
use super::types::io_service::InputService;
use vstd::prelude::*;

verus! {

/// What kind of node an entity is.
#[derive(Debug, Clone, Copy, PartialEq, Eq, Structural)]
pub enum EntityKind {
    /// A placeholder
    Base,
    /// The game, meant as the root of a tree
    Game,
    /// A renderable block
    Part,
    /// A camera
    Camera,
    /// The table of key states
    InputService,
}

/// The payload of an entity: a closed set of kinds, each with its own state.
/// What a camera and a part hold is for the renderer to say: `C` and `P`.
pub enum EntityType<C, P> {
    /// No state
    Base,
    /// The game
    Game(Game),
    /// A renderable block
    Part(P),
    /// A camera
    Camera(C),
    /// The table of key states
    InputService(InputService),
}

impl<C, P> EntityType<C, P> {
    /// The kind of this payload.
    pub open spec fn kind_of(self) -> EntityKind {
        match self {
            EntityType::Base => EntityKind::Base,
            EntityType::Game(_) => EntityKind::Game,
            EntityType::Part(_) => EntityKind::Part,
            EntityType::Camera(_) => EntityKind::Camera,
            EntityType::InputService(_) => EntityKind::InputService,
        }
    }

    /// The kind of this payload.
    pub fn kind(&self) -> (kind: EntityKind)
        ensures
            kind == self.kind_of(),
    {
        match self {
            EntityType::Base => EntityKind::Base,
            EntityType::Game(_) => EntityKind::Game,
            EntityType::Part(_) => EntityKind::Part,
            EntityType::Camera(_) => EntityKind::Camera,
            EntityType::InputService(_) => EntityKind::InputService,
        }
    }
}

/// What an entity is, as plain values.
pub struct EntityView<C, P> {
    /// The identity
    pub id: u128,
    /// The display label
    pub name: Seq<char>,
    /// The identity of the parent, if there is one
    pub parent: Option<u128>,
    /// The identities of the children, in the order of their attachment
    pub children: Seq<u128>,
    /// The payload
    pub payload: EntityType<C, P>,
}

impl<C, P> EntityView<C, P> {
    /// The links of the entity.
    pub open spec fn node(self) -> Node {
        Node { parent: self.parent, children: self.children }
    }

    /// The kind of the entity.
    pub open spec fn kind(self) -> EntityKind {
        self.payload.kind_of()
    }

    /// `other` stands where `self` stands: it has the same identity, the
    /// same relatives and a payload of the same kind.
    pub open spec fn same_place(self, other: Self) -> bool {
        &&& other.id == self.id
        &&& other.parent == self.parent
        &&& other.children == self.children
        &&& other.kind() == self.kind()
    }
}

/// An entity without relatives.
pub open spec fn orphan<C, P>(id: u128, name: Seq<char>, payload: EntityType<C, P>) -> EntityView<
    C,
    P,
> {
    EntityView { id, name, parent: None, children: Seq::empty(), payload }
}

/// A node of the hierarchy.
pub struct Entity<C, P> {
    pub(crate) name: String,
    pub(crate) entity_type: EntityType<C, P>,
    pub(crate) parent_id: Option<u128>,
    pub(crate) children_id: Vec<u128>,
    pub(crate) uuid: u128,
}

impl<C, P> View for Entity<C, P> {
    type V = EntityView<C, P>;

    open(crate) spec fn view(&self) -> EntityView<C, P> {
        EntityView {
            id: self.uuid,
            name: self.name@,
            parent: self.parent_id,
            children: self.children_id@,
            payload: self.entity_type,
        }
    }
}

impl<C, P> Entity<C, P> {
    /// Creates an entity without relatives under a random identity.
    pub fn new(name: &str, entity_type: EntityType<C, P>) -> (entity: Self)
        ensures
            entity@ == orphan(entity@.id, name@, entity_type),
            entity@.id & LAYOUT_MASK == RANDOM_LAYOUT,
    {
        Self::with_uuid(name, entity_type, random_id())
    }

    /// Creates an entity without relatives under the identity `uuid`.
    pub fn with_uuid(name: &str, entity_type: EntityType<C, P>, uuid: u128) -> (entity: Self)
        ensures
            entity@ == orphan(uuid, name@, entity_type),
    {
        Self { name: name.to_owned(), entity_type, parent_id: None, children_id: Vec::new(), uuid }
    }

    /// Gets the identity.
    pub fn get_uuid(&self) -> (uuid: u128)
        ensures
            uuid == self@.id,
    {
        self.uuid
    }

    /// Gets the name.
    pub fn get_name(&self) -> (name: &str)
        ensures
            name@ == self@.name,
    {
        self.name.as_str()
    }

    /// Gives the entity another name; nothing else changes.
    pub fn set_name(&mut self, name: &str)
        ensures
            final(self)@ == (EntityView { name: name@, ..old(self)@ }),
    {
        self.name = name.to_owned();
    }

    /// Gets the payload.
    pub fn get_type(&self) -> (entity_type: &EntityType<C, P>)
        ensures
            *entity_type == self@.payload,
    {
        &self.entity_type
    }

    /// Gets the payload for writing: what the caller leaves in it is the
    /// entity's payload from then on, and nothing else changes.
    pub fn get_mut_type(&mut self) -> (entity_type: &mut EntityType<C, P>)
        ensures
            *entity_type == old(self)@.payload,
            final(self)@ == (EntityView { payload: *final(entity_type), ..old(self)@ }),
    {
        &mut self.entity_type
    }

    /// Gets the kind of the payload.
    pub fn get_kind(&self) -> (kind: EntityKind)
        ensures
            kind == self@.kind(),
    {
        self.entity_type.kind()
    }

    /// Gets the identity of the parent, if there is one.
    pub fn get_parent(&self) -> (parent: Option<u128>)
        ensures
            parent == self@.parent,
    {
        self.parent_id
    }

    /// Gets the identities of the children, in the order of their attachment.
    pub fn get_children(&self) -> (children: &[u128])
        ensures
            children@ == self@.children,
    {
        self.children_id.as_slice()
    }
}

impl<C, P> Default for Entity<C, P> {
    /// A placeholder named "entity", without relatives, under a random
    /// identity.
    fn default() -> (entity: Self)
        ensures
            entity@ == orphan(entity@.id, "entity"@, EntityType::<C, P>::Base),
            entity@.id & LAYOUT_MASK == RANDOM_LAYOUT,
    {
        Self::new("entity", EntityType::Base)
    }
}

/// What each of `entities` is, as plain values.
pub open spec fn views<C, P>(entities: Seq<&Entity<C, P>>) -> Seq<EntityView<C, P>> {
    Seq::new(entities.len(), |i: int| entities[i]@)
}

/// What each of the entities `owned` is, as plain values.
pub open spec fn views_owned<C, P>(owned: Seq<Entity<C, P>>) -> Seq<EntityView<C, P>> {
    Seq::new(owned.len(), |i: int| owned[i]@)
}

} // verus!
