//! What holds of every sound tree, and of every tree that one of the
//! tree's operations leaves behind.

use super::entity::{EntityKind, EntityType, EntityView};
use super::hierarchy::{
    lemma_ancestor_step, lemma_ancestors_chain, lemma_detach_forest, lemma_not_own_ancestor, lemma_push,
    lemma_remove_value,
};
use super::scene::{HierarchyError, TreeView};
use super::types::game_type::Game;
use vstd::prelude::*;

verus! {

/// All live identities are distinct: the entities were created one by one,
/// no identity twice, and two places of the registry that hold the same
/// identity are one place.
pub proof fn law_identities_distinct<C, P>(tree: TreeView<C, P>)
    requires
        tree.wf(),
    ensures
        tree.order.no_duplicates(),
        tree.order.len() == tree.entities.dom().len(),
        forall|a: u128, b: u128|
            tree.contains(a) && tree.contains(b) && #[trigger] tree.entities[a].id
                == #[trigger] tree.entities[b].id ==> a == b,
{
    tree.order.unique_seq_to_set();
    assert(tree.order.to_set() =~= tree.entities.dom());
}

/// A creation under an identity that the tree does not hold yet leaves a
/// sound tree, in which all identities are distinct again.
pub proof fn law_creation_keeps_identities_distinct<C, P>(
    tree: TreeView<C, P>,
    id: u128,
    name: Seq<char>,
    payload: EntityType<C, P>,
)
    requires
        tree.wf(),
        !tree.contains(id),
    ensures
        tree.created(id, name, payload).wf(),
        tree.created(id, name, payload).order.no_duplicates(),
{
    tree.lemma_created_wf(id, name, payload);
}

/// Parent and children agree, both ways: an entity with a parent is listed
/// among that parent's children, once; and every child that an entity lists
/// names that entity as its parent.
pub proof fn law_links_agree<C, P>(tree: TreeView<C, P>, entity: u128)
    requires
        tree.wf(),
        tree.contains(entity),
    ensures
        tree.entities[entity].parent matches Some(p) ==> {
            &&& tree.contains(p)
            &&& tree.entities[p].children.contains(entity)
            &&& tree.entities[p].children.no_duplicates()
        },
        forall|i: int|
            0 <= i < tree.entities[entity].children.len() ==> {
                &&& tree.contains(#[trigger] tree.entities[entity].children[i])
                &&& tree.entities[tree.entities[entity].children[i]].parent == Some(entity)
            },
{
    let m = tree.links();
    assert(m.contains_key(entity));
    if let Some(p) = tree.entities[entity].parent {
        assert(m.contains_key(p));
    }
    assert forall|i: int| 0 <= i < tree.entities[entity].children.len() implies {
        &&& tree.contains(#[trigger] tree.entities[entity].children[i])
        &&& tree.entities[tree.entities[entity].children[i]].parent == Some(entity)
    } by {
        assert(m.contains_key(m[entity].children[i]));
    }
}

/// No entity is among its own descendants.
pub proof fn law_not_own_descendant<C, P>(tree: TreeView<C, P>, entity: u128)
    requires
        tree.wf(),
    ensures
        !tree.descendants_of(entity).contains(entity),
{
    if tree.contains(entity) {
        assert(tree.links().contains_key(entity));
        lemma_not_own_ancestor(tree.links(), entity);
    }
}

/// Following the parents from an entity comes to an end at a root: the
/// ancestors of the entity are its parent, then that one's parent, and so
/// on, all of them in the tree, and the last of them has no parent.
pub proof fn law_parents_end_at_a_root<C, P>(tree: TreeView<C, P>, entity: u128)
    requires
        tree.wf(),
        tree.contains(entity),
    ensures
        ({
            let up = tree.ancestors_of(entity);
            &&& up.len() == 0 <==> tree.entities[entity].parent is None
            &&& !up.contains(entity)
            &&& forall|i: int| 0 <= i < up.len() ==> tree.contains(#[trigger] up[i])
            &&& forall|i: int|
                0 <= i < up.len() ==> Some(#[trigger] up[i]) == (if i == 0 {
                    tree.entities[entity].parent
                } else {
                    tree.entities[up[i - 1]].parent
                })
            &&& up.len() > 0 ==> tree.entities[up.last()].parent is None
        }),
{
    let m = tree.links();
    assert(m.contains_key(entity));
    lemma_ancestors_chain(m, entity);
    lemma_not_own_ancestor(m, entity);
    let up = tree.ancestors_of(entity);
    assert forall|i: int| 0 <= i < up.len() implies Some(#[trigger] up[i]) == (if i == 0 {
        tree.entities[entity].parent
    } else {
        tree.entities[up[i - 1]].parent
    }) by {
        if i > 0 {
            assert(m.contains_key(up[i - 1]));
        }
    }
}

/// An entity cannot become its own parent: the attempt always fails with
/// `SelfParent`, and leaves the tree as it was.
pub proof fn law_self_parent_refused<C, P>(tree: TreeView<C, P>, entity: u128)
    ensures
        tree.parent_error(entity, Some(entity)) == Some(HierarchyError::SelfParent),
        tree.after_set_parent(entity, Some(entity)) == tree,
{
}

/// A parent cannot become the child of its child: the attempt fails with
/// `CyclicHierarchy`, and leaves the tree as it was.
pub proof fn law_cycle_refused<C, P>(tree: TreeView<C, P>, parent: u128, child: u128)
    requires
        tree.wf(),
        tree.contains(child),
        tree.entities[child].parent == Some(parent),
    ensures
        tree.parent_error(parent, Some(child)) == Some(HierarchyError::CyclicHierarchy),
        tree.after_set_parent(parent, Some(child)) == tree,
{
    let m = tree.links();
    assert(m.contains_key(child));
    assert(m.contains_key(parent));
    lemma_ancestor_step(m, parent, child);
    lemma_not_own_ancestor(m, child);
}

/// No entity can become the child of one of its descendants, however far
/// down: the attempt fails with `CyclicHierarchy`, and leaves the tree as it
/// was.
pub proof fn law_descendant_refused<C, P>(tree: TreeView<C, P>, entity: u128, below: u128)
    requires
        tree.wf(),
        tree.descendants_of(entity).contains(below),
    ensures
        tree.parent_error(entity, Some(below)) == Some(HierarchyError::CyclicHierarchy),
        tree.after_set_parent(entity, Some(below)) == tree,
{
    let m = tree.links();
    assert(m.contains_key(entity));
    lemma_not_own_ancestor(m, below);
}

/// Re-parenting detaches cleanly: after an entity has been given a new
/// parent, that parent lists it, as its last child, and the former parent,
/// where it is another entity, lists it no longer.
pub proof fn law_reparenting_moves<C, P>(tree: TreeView<C, P>, entity: u128, parent: u128)
    requires
        tree.wf(),
        tree.parent_error(entity, Some(parent)) is None,
    ensures
        ({
            let after = tree.after_set_parent(entity, Some(parent));
            &&& after.wf()
            &&& after.entities[entity].parent == Some(parent)
            &&& after.entities[parent].children.len() > 0
            &&& after.entities[parent].children.last() == entity
            &&& after.entities[parent].children.contains(entity)
            &&& tree.entities[entity].parent matches Some(former) ==> former != parent
                ==> !after.entities[former].children.contains(entity)
        }),
{
    let m = tree.links();
    let after = tree.after_set_parent(entity, Some(parent));
    tree.lemma_reparented_wf(entity, Some(parent));
    assert(m.contains_key(entity));
    assert(m.contains_key(parent));
    lemma_detach_forest(m, entity);
    let kids = after.entities[parent].children;
    assert(kids[kids.len() - 1] == entity);
    if let Some(former) = tree.entities[entity].parent {
        assert(m.contains_key(former));
        lemma_remove_value(m[former].children, entity);
    }
}

/// Detaching leaves the entity without a parent, and its former parent
/// without that child.
pub proof fn law_detaching_moves<C, P>(tree: TreeView<C, P>, entity: u128)
    requires
        tree.wf(),
        tree.contains(entity),
    ensures
        ({
            let after = tree.after_set_parent(entity, None);
            &&& after.wf()
            &&& after.entities[entity].parent is None
            &&& tree.entities[entity].parent matches Some(former)
                ==> !after.entities[former].children.contains(entity)
        }),
{
    let m = tree.links();
    tree.lemma_reparented_wf(entity, None);
    assert(m.contains_key(entity));
    lemma_detach_forest(m, entity);
    if let Some(former) = tree.entities[entity].parent {
        assert(m.contains_key(former));
        lemma_remove_value(m[former].children, entity);
    }
}

/// The index of the parts is faithful in every sound tree: it lists the
/// identities whose payload is a part, those only, each once.
pub proof fn law_parts_faithful<C, P>(tree: TreeView<C, P>, id: u128)
    requires
        tree.wf(),
    ensures
        tree.parts.no_duplicates(),
        tree.parts.contains(id) <==> tree.contains(id) && tree.entities[id].kind()
            == EntityKind::Part,
{
}

/// A creation keeps the index of the parts faithful: a new part is listed
/// last, any other entity leaves the index as it was.
pub proof fn law_creation_keeps_parts<C, P>(
    tree: TreeView<C, P>,
    id: u128,
    name: Seq<char>,
    payload: EntityType<C, P>,
)
    requires
        tree.wf(),
        !tree.contains(id),
    ensures
        tree.created(id, name, payload).parts_faithful(),
        tree.created(id, name, payload).parts.contains(id) <==> payload is Part,
        forall|other: u128|
            other != id ==> (tree.created(id, name, payload).parts.contains(other)
                <==> tree.parts.contains(other)),
{
    tree.lemma_created_wf(id, name, payload);
    lemma_push(tree.parts, id);
}

/// A re-parenting, whether it succeeds or is refused, leaves the payloads
/// and the index of the parts as they were, and so keeps the index faithful.
pub proof fn law_reparenting_keeps_parts<C, P>(
    tree: TreeView<C, P>,
    entity: u128,
    parent: Option<u128>,
)
    requires
        tree.wf(),
    ensures
        tree.after_set_parent(entity, parent).wf(),
        tree.after_set_parent(entity, parent).parts == tree.parts,
        forall|id: u128|
            tree.contains(id) ==> tree.after_set_parent(entity, parent).contains(id) && (
            #[trigger] tree.after_set_parent(entity, parent).entities[id]).payload
                == tree.entities[id].payload,
{
    if tree.parent_error(entity, parent) is None {
        tree.lemma_reparented_wf(entity, parent);
    }
}

/// One change that a tree's operations make to it.
pub enum Step<C, P> {
    /// An entity is created under the identity `id`
    Create { id: u128, name: Seq<char>, payload: EntityType<C, P> },
    /// A head is created under the identity `id`, and registered
    Head { id: u128, game: Game },
    /// A main camera is created under the identity `id`, given the parent
    /// `parent` where it can have it, and registered
    MainCamera { id: u128, camera: C, parent: Option<u128> },
    /// The attempt is made to give `entity` the parent `parent`
    SetParent { entity: u128, parent: Option<u128> },
    /// The entity `id`, which was lent out, comes back as `edited`
    Edit { id: u128, edited: EntityView<C, P> },
}

impl<C, P> Step<C, P> {
    /// Whether the tree's operations can make this change to `tree`: a
    /// creation comes under an identity that the tree does not hold, and an
    /// entity that was lent out comes back in its place.
    pub open spec fn fits(self, tree: TreeView<C, P>) -> bool {
        match self {
            Step::Create { id, .. } => !tree.contains(id),
            Step::Head { id, .. } => !tree.contains(id),
            Step::MainCamera { id, .. } => !tree.contains(id),
            Step::SetParent { .. } => true,
            Step::Edit { id, edited } => tree.contains(id) && tree.entities[id].same_place(edited),
        }
    }

    /// The tree after this change.
    pub open spec fn apply(self, tree: TreeView<C, P>) -> TreeView<C, P> {
        match self {
            Step::Create { id, name, payload } => tree.created(id, name, payload),
            Step::Head { id, game } => tree.created(id, "Game"@, EntityType::Game(game)).with_head(
                id,
            ),
            Step::MainCamera { id, camera, parent } => tree.created(
                id,
                "Camera"@,
                EntityType::Camera(camera),
            ).after_set_parent(id, parent).with_main_camera(id),
            Step::SetParent { entity, parent } => tree.after_set_parent(entity, parent),
            Step::Edit { id, edited } => tree.with_entity(id, edited),
        }
    }
}

/// The tree after the changes `steps`, made one after the other.
pub open spec fn after_steps<C, P>(tree: TreeView<C, P>, steps: Seq<Step<C, P>>) -> TreeView<C, P>
    decreases steps.len(),
{
    if steps.len() == 0 {
        tree
    } else {
        steps.last().apply(after_steps(tree, steps.drop_last()))
    }
}

/// Each of `steps` fits the tree that the steps before it have left.
pub open spec fn steps_fit<C, P>(tree: TreeView<C, P>, steps: Seq<Step<C, P>>) -> bool
    decreases steps.len(),
{
    steps.len() > 0 ==> steps_fit(tree, steps.drop_last()) && steps.last().fits(
        after_steps(tree, steps.drop_last()),
    )
}

/// One change leaves a sound tree sound.
pub proof fn law_step_keeps_sound<C, P>(tree: TreeView<C, P>, step: Step<C, P>)
    requires
        tree.wf(),
        step.fits(tree),
    ensures
        step.apply(tree).wf(),
{
    match step {
        Step::Create { id, name, payload } => {
            tree.lemma_created_wf(id, name, payload);
        },
        Step::Head { id, game } => {
            tree.lemma_created_wf(id, "Game"@, EntityType::Game(game));
        },
        Step::MainCamera { id, camera, parent } => {
            let made = tree.created(id, "Camera"@, EntityType::Camera(camera));
            tree.lemma_created_wf(id, "Camera"@, EntityType::Camera(camera));
            law_reparenting_keeps_parts(made, id, parent);
            assert(made.contains(id));
        },
        Step::SetParent { entity, parent } => {
            law_reparenting_keeps_parts(tree, entity, parent);
        },
        Step::Edit { id, edited } => {
            tree.lemma_with_entity_wf(id, edited);
        },
    }
}

/// After any sequence of creations, re-parentings and edits, from the empty
/// tree on, the tree is sound: all identities are distinct, parents and
/// children agree, no entity is its own ancestor, and the index of the parts
/// lists exactly the parts.
pub proof fn law_every_history_is_sound<C, P>(steps: Seq<Step<C, P>>)
    requires
        steps_fit(TreeView::<C, P>::empty(), steps),
    ensures
        after_steps(TreeView::<C, P>::empty(), steps).wf(),
    decreases steps.len(),
{
    let empty = TreeView::<C, P>::empty();
    if steps.len() == 0 {
        assert(empty.links() =~= Map::empty());
        assert(super::hierarchy::ranked(empty.links(), |id: u128| 0nat));
    } else {
        law_every_history_is_sound(steps.drop_last());
        law_step_keeps_sound(after_steps(empty, steps.drop_last()), steps.last());
    }
}

} // verus!
