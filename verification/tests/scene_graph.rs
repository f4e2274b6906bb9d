use akhoik_ge::entities::entity::{Entity, EntityKind, EntityType};
use akhoik_ge::entities::entity_tree::EntityTree;
use akhoik_ge::entities::identity::{first_free_id, LAYOUT_MASK, RANDOM_LAYOUT};
use std::collections::HashMap;
use akhoik_ge::entities::scene::HierarchyError;
use akhoik_ge::entities::types::game_type::{Game, GameGenre};
use akhoik_ge::entities::types::io_service::InputService;

/// A camera as a renderer might keep it.
#[derive(Debug, PartialEq)]
struct Lens {
    fov: f32,
}

/// A part as a renderer might keep it.
#[derive(Debug, PartialEq)]
struct Block {
    visible: bool,
}

type Tree = EntityTree<Lens, Block>;

fn block() -> EntityType<Lens, Block> {
    EntityType::Part(Block { visible: true })
}

fn base() -> EntityType<Lens, Block> {
    EntityType::Base
}

fn names(entities: &[&Entity<Lens, Block>]) -> Vec<String> {
    entities.iter().map(|e| e.get_name().to_string()).collect()
}

fn sorted(mut ids: Vec<u128>) -> Vec<u128> {
    ids.sort();
    ids
}

/// H with children A and D; A with children B and C; B with child E.
fn family(tree: &mut Tree) -> (u128, u128, u128, u128, u128, u128) {
    let h = tree.add_head(Game::new(GameGenre::Adventure));
    let a = tree.add_entity_with_parent("A", base(), h).unwrap();
    let b = tree.add_entity_with_parent("B", block(), a).unwrap();
    let c = tree.add_entity_with_parent("C", base(), a).unwrap();
    let d = tree.add_entity_with_parent("D", block(), h).unwrap();
    let e = tree.add_entity_with_parent("E", base(), b).unwrap();
    (h, a, b, c, d, e)
}

#[test]
fn reparenting_the_head_under_its_grandchild_is_refused() {
    let mut tree = Tree::new();
    let h = tree.add_head(Game::new(GameGenre::Action));
    let a = tree.add_entity_with_parent("A", base(), h).unwrap();
    let b = tree.add_entity_with_parent("B", base(), a).unwrap();
    assert_eq!(tree.set_parent(h, Some(b)), Err(HierarchyError::CyclicHierarchy));
    assert_eq!(tree.get_entity(h).unwrap().get_parent(), None);
    assert_eq!(tree.get_entity(a).unwrap().get_parent(), Some(h));
    assert_eq!(tree.get_entity(b).unwrap().get_parent(), Some(a));
    assert_eq!(tree.get_entity(h).unwrap().get_children(), &[a]);
    assert_eq!(tree.get_entity(a).unwrap().get_children(), &[b]);
    assert_eq!(tree.get_entity(b).unwrap().get_children().len(), 0);
}

#[test]
fn a_new_tree_holds_nothing() {
    let tree = Tree::new();
    assert_eq!(tree.head(), None);
    assert_eq!(tree.main_camera(), None);
    assert_eq!(tree.parts().len(), 0);
    assert_eq!(tree.get_entities().len(), 0);
    assert!(tree.get_head().is_none());
    assert!(tree.get_main_camera().is_none());
    let other = Tree::default();
    assert_eq!(other.get_entities().len(), 0);
}

#[test]
fn a_created_entity_is_an_orphan_under_its_own_identity() {
    let mut tree = Tree::new();
    let id = tree.add_entity("crate", base());
    let entity = tree.get_entity(id).unwrap();
    assert_eq!(entity.get_uuid(), id);
    assert_eq!(entity.get_name(), "crate");
    assert_eq!(entity.get_parent(), None);
    assert_eq!(entity.get_children().len(), 0);
    assert_eq!(entity.get_kind(), EntityKind::Base);
    assert!(matches!(entity.get_type(), EntityType::Base));
}

#[test]
fn created_identities_are_distinct() {
    let mut tree = Tree::new();
    let mut ids = Vec::new();
    for _ in 0..200 {
        ids.push(tree.add_entity("e", base()));
    }
    let mut unique = ids.clone();
    unique.sort();
    unique.dedup();
    assert_eq!(unique.len(), 200);
    let stored: Vec<u128> = tree.get_entities().iter().map(|e| e.get_uuid()).collect();
    assert_eq!(stored, ids);
}

#[test]
fn a_taken_identity_gives_way_to_the_next_free_one() {
    let mut tree = Tree::new();
    assert_eq!(tree.add_entity_near(7, "a", base()), 7);
    assert_eq!(tree.add_entity_near(7, "b", base()), 8);
    assert_eq!(tree.add_entity_near(7, "c", base()), 9);
    assert_eq!(tree.add_entity_near(8, "d", base()), 10);
    assert_eq!(tree.add_entity_near(100, "e", base()), 100);
    assert_eq!(tree.get_entity(8).unwrap().get_name(), "b");
    assert_eq!(tree.get_entity(10).unwrap().get_name(), "d");
    assert_eq!(tree.get_entities().len(), 5);
}

#[test]
fn the_search_for_a_free_identity_wraps_round() {
    let mut tree = Tree::new();
    assert_eq!(tree.add_entity_near(u128::MAX, "last", base()), u128::MAX);
    assert_eq!(tree.add_entity_near(u128::MAX, "first", base()), 0);
    assert_eq!(tree.add_entity_near(u128::MAX, "second", base()), 1);
    assert_eq!(tree.get_entity(0).unwrap().get_name(), "first");
}

#[test]
fn random_identities_are_version_four() {
    let mut tree = Tree::new();
    let mut drawn = Vec::new();
    for _ in 0..50 {
        let id = tree.add_entity("e", base());
        assert_eq!(id & LAYOUT_MASK, RANDOM_LAYOUT);
        let parsed = uuid::Uuid::from_u128(id);
        assert_eq!(parsed.get_version_num(), 4);
        assert_eq!(parsed.get_variant(), uuid::Variant::RFC4122);
        drawn.push(id);
    }
    drawn.sort();
    drawn.dedup();
    assert_eq!(drawn.len(), 50);
    let entity: Entity<Lens, Block> = Entity::new("free", base());
    assert_eq!(entity.get_uuid() & LAYOUT_MASK, RANDOM_LAYOUT);
    assert_eq!(entity.get_parent(), None);
    assert_eq!(entity.get_name(), "free");
    let other: Entity<Lens, Block> = Entity::new("free", base());
    assert_ne!(entity.get_uuid(), other.get_uuid());
}

#[test]
fn the_first_free_identity_is_the_wanted_one_or_the_next() {
    let mut index: HashMap<u128, usize> = HashMap::new();
    assert_eq!(first_free_id(&index, 5), 5);
    index.insert(5, 0);
    index.insert(6, 1);
    index.insert(8, 2);
    assert_eq!(first_free_id(&index, 5), 7);
    assert_eq!(first_free_id(&index, 6), 7);
    assert_eq!(first_free_id(&index, 7), 7);
    assert_eq!(first_free_id(&index, 8), 9);
    assert_eq!(first_free_id(&index, 4), 4);
    index.insert(u128::MAX, 3);
    index.insert(0, 4);
    assert_eq!(first_free_id(&index, u128::MAX), 1);
}

#[test]
fn parent_and_children_agree() {
    let mut tree = Tree::new();
    let (h, a, b, c, d, e) = family(&mut tree);
    for entity in tree.get_entities() {
        if let Some(p) = entity.get_parent() {
            let listed = tree.get_entity(p).unwrap().get_children();
            assert_eq!(listed.iter().filter(|x| **x == entity.get_uuid()).count(), 1);
        }
        for child in entity.get_children() {
            assert_eq!(tree.get_entity(*child).unwrap().get_parent(), Some(entity.get_uuid()));
        }
    }
    assert_eq!(tree.get_entity(h).unwrap().get_children(), &[a, d]);
    assert_eq!(tree.get_entity(a).unwrap().get_children(), &[b, c]);
    assert_eq!(tree.get_entity(b).unwrap().get_children(), &[e]);
}

#[test]
fn no_entity_is_its_own_descendant() {
    let mut tree = Tree::new();
    let (h, a, b, c, d, e) = family(&mut tree);
    for id in [h, a, b, c, d, e] {
        assert!(!tree.get_descendents_id(id).contains(&id));
        assert!(!tree.get_ancestors_id(id).contains(&id));
    }
}

#[test]
fn an_entity_cannot_be_its_own_parent() {
    let mut tree = Tree::new();
    let (_, a, _, _, _, _) = family(&mut tree);
    assert_eq!(tree.set_parent(a, Some(a)), Err(HierarchyError::SelfParent));
    assert_eq!(tree.set_parent(12345, Some(12345)), Err(HierarchyError::SelfParent));
    let orphan = tree.add_entity("o", base());
    assert_eq!(tree.set_parent(orphan, Some(orphan)), Err(HierarchyError::SelfParent));
    assert_eq!(tree.get_entity(orphan).unwrap().get_parent(), None);
}

#[test]
fn a_parent_cannot_become_the_child_of_its_child() {
    let mut tree = Tree::new();
    let a = tree.add_entity("A", base());
    let b = tree.add_entity_with_parent("B", base(), a).unwrap();
    assert_eq!(tree.set_parent(a, Some(b)), Err(HierarchyError::CyclicHierarchy));
    assert_eq!(tree.get_entity(a).unwrap().get_parent(), None);
    assert_eq!(tree.get_entity(a).unwrap().get_children(), &[b]);
    assert_eq!(tree.get_entity(b).unwrap().get_parent(), Some(a));
    assert_eq!(tree.get_entity(b).unwrap().get_children().len(), 0);
}

#[test]
fn an_unknown_identity_is_an_error() {
    let mut tree = Tree::new();
    let a = tree.add_entity_near(1, "A", base());
    assert_eq!(tree.set_parent(2, Some(a)), Err(HierarchyError::UnknownEntity));
    assert_eq!(tree.set_parent(a, Some(2)), Err(HierarchyError::UnknownEntity));
    assert_eq!(tree.set_parent(2, None), Err(HierarchyError::UnknownEntity));
    assert_eq!(tree.get_entity(a).unwrap().get_parent(), None);
    assert_eq!(tree.get_entities().len(), 1);
}

#[test]
fn reparenting_moves_the_child_to_the_end_of_the_new_parent() {
    let mut tree = Tree::new();
    let (h, a, b, c, d, e) = family(&mut tree);
    assert_eq!(tree.set_parent(b, Some(h)), Ok(()));
    assert_eq!(tree.get_entity(a).unwrap().get_children(), &[c]);
    assert_eq!(tree.get_entity(h).unwrap().get_children(), &[a, d, b]);
    assert_eq!(tree.get_entity(b).unwrap().get_parent(), Some(h));
    assert_eq!(tree.get_entity(b).unwrap().get_children(), &[e]);
    assert_eq!(tree.set_parent(a, Some(e)), Ok(()));
    assert_eq!(tree.get_entity(h).unwrap().get_children(), &[d, b]);
    assert_eq!(tree.get_entity(e).unwrap().get_children(), &[a]);
    assert_eq!(tree.get_ancestors_id(c), vec![a, e, b, h]);
}

#[test]
fn reparenting_under_the_same_parent_moves_the_child_to_the_end() {
    let mut tree = Tree::new();
    let (h, a, _, _, d, _) = family(&mut tree);
    assert_eq!(tree.set_parent(a, Some(h)), Ok(()));
    assert_eq!(tree.get_entity(h).unwrap().get_children(), &[d, a]);
    assert_eq!(tree.get_entity(a).unwrap().get_parent(), Some(h));
}

#[test]
fn detaching_leaves_an_orphan() {
    let mut tree = Tree::new();
    let (h, a, b, c, d, _) = family(&mut tree);
    assert_eq!(tree.set_parent(a, None), Ok(()));
    assert_eq!(tree.get_entity(a).unwrap().get_parent(), None);
    assert_eq!(tree.get_entity(h).unwrap().get_children(), &[d]);
    assert_eq!(tree.get_entity(a).unwrap().get_children(), &[b, c]);
    assert_eq!(tree.set_parent(a, None), Ok(()));
    assert_eq!(tree.get_entity(a).unwrap().get_parent(), None);
    assert_eq!(tree.set_parent(h, Some(a)), Ok(()));
    assert_eq!(tree.get_entity(a).unwrap().get_children(), &[b, c, h]);
}

#[test]
fn the_parts_index_lists_the_parts_in_order() {
    let mut tree = Tree::new();
    let (_, a, b, _, d, _) = family(&mut tree);
    assert_eq!(tree.parts(), &[b, d]);
    let p = tree.add_entity("P", block());
    assert_eq!(tree.parts(), &[b, d, p]);
    tree.add_entity("I", EntityType::InputService(InputService::new()));
    tree.add_main_camera(None, Lens { fov: 70.0 }).unwrap();
    assert_eq!(tree.parts(), &[b, d, p]);
    assert_eq!(tree.set_parent(p, Some(a)), Ok(()));
    assert_eq!(tree.set_parent(b, None), Ok(()));
    assert_eq!(tree.set_parent(a, Some(p)), Err(HierarchyError::CyclicHierarchy));
    assert_eq!(tree.parts(), &[b, d, p]);
    let kinds: Vec<u128> = tree
        .get_entities()
        .iter()
        .filter(|e| e.get_kind() == EntityKind::Part)
        .map(|e| e.get_uuid())
        .collect();
    assert_eq!(kinds, vec![b, d, p]);
}

#[test]
fn a_new_head_replaces_the_registration_only() {
    let mut tree = Tree::new();
    let first = tree.add_head(Game::new(GameGenre::Action));
    assert_eq!(tree.head(), Some(first));
    let head = tree.get_head().unwrap();
    assert_eq!(head.get_name(), "Game");
    assert_eq!(head.get_kind(), EntityKind::Game);
    assert!(matches!(head.get_type(), EntityType::Game(Game { genre: GameGenre::Action })));
    let second = tree.add_head(Game::default());
    assert_ne!(first, second);
    assert_eq!(tree.head(), Some(second));
    assert_eq!(tree.get_head().unwrap().get_uuid(), second);
    assert!(tree.get_entity(first).is_some());
    assert_eq!(tree.get_entities().len(), 2);
}

#[test]
fn the_main_camera_is_registered_with_and_without_a_parent() {
    let mut tree = Tree::new();
    let h = tree.add_head(Game::new(GameGenre::Action));
    let first = tree.add_main_camera(None, Lens { fov: 60.0 }).unwrap();
    assert_eq!(tree.main_camera(), Some(first));
    assert_eq!(tree.get_main_camera().unwrap().get_parent(), None);
    let second = tree.add_main_camera(Some(h), Lens { fov: 90.0 }).unwrap();
    assert_eq!(tree.main_camera(), Some(second));
    let camera = tree.get_main_camera().unwrap();
    assert_eq!(camera.get_name(), "Camera");
    assert_eq!(camera.get_parent(), Some(h));
    assert!(matches!(camera.get_type(), EntityType::Camera(Lens { fov }) if *fov == 90.0));
    assert_eq!(tree.get_entity(h).unwrap().get_children(), &[second]);
    assert!(tree.get_entity(first).is_some());
}

#[test]
fn a_camera_that_cannot_be_parented_is_registered_all_the_same() {
    let mut tree = Tree::new();
    tree.add_entity_near(1, "A", base());
    assert_eq!(tree.add_main_camera(Some(99), Lens { fov: 60.0 }), Err(HierarchyError::UnknownEntity));
    let camera = tree.get_main_camera().unwrap();
    assert_eq!(camera.get_kind(), EntityKind::Camera);
    assert_eq!(camera.get_parent(), None);
    assert_eq!(tree.main_camera(), Some(camera.get_uuid()));
    assert_eq!(tree.get_entities().len(), 2);
}

#[test]
fn an_entity_that_cannot_be_parented_stays_as_an_orphan() {
    let mut tree = Tree::new();
    tree.add_entity_near(1, "A", base());
    assert_eq!(tree.add_entity_with_parent("B", block(), 99), Err(HierarchyError::UnknownEntity));
    let all = tree.get_entities();
    assert_eq!(names(&all), vec!["A", "B"]);
    assert_eq!(all[1].get_parent(), None);
    assert_eq!(tree.parts(), &[all[1].get_uuid()]);
}

#[test]
fn lookups_of_unknown_identities_are_empty() {
    let mut tree = Tree::new();
    let (h, _, _, _, _, _) = family(&mut tree);
    let unknown = h.wrapping_add(1_000_000);
    assert!(tree.get_entity(unknown).is_none());
    assert!(tree.get_entity_mut(unknown).is_none());
    assert!(tree.get_parent(unknown).is_none());
    assert!(tree.get_parent_mut(unknown).is_none());
    assert!(tree.get_parent(h).is_none());
    assert!(tree.get_parent_mut(h).is_none());
    assert_eq!(tree.get_children(unknown).len(), 0);
    assert_eq!(tree.get_children_id(unknown).len(), 0);
    assert_eq!(tree.get_ancestors(unknown).len(), 0);
    assert_eq!(tree.get_ancestors_id(unknown).len(), 0);
    assert_eq!(tree.get_descendents(unknown).len(), 0);
    assert_eq!(tree.get_descendents_id(unknown).len(), 0);
    assert!(tree.find_first_child(unknown, "A").is_none());
    assert!(tree.find_first_descendent(unknown, "A").is_none());
    assert!(tree.find_first_ancestor(unknown, "Game").is_none());
}

#[test]
fn children_come_in_the_order_of_attachment() {
    let mut tree = Tree::new();
    let (h, a, b, c, d, _) = family(&mut tree);
    assert_eq!(tree.get_children_id(h), vec![a, d]);
    assert_eq!(tree.get_children_id(a), vec![b, c]);
    assert_eq!(names(&tree.get_children(a)), vec!["B", "C"]);
    assert_eq!(names(&tree.get_children(h)), vec!["A", "D"]);
    assert_eq!(tree.get_children(c).len(), 0);
}

#[test]
fn ancestors_come_nearest_first() {
    let mut tree = Tree::new();
    let (h, a, b, _, d, e) = family(&mut tree);
    assert_eq!(tree.get_ancestors_id(e), vec![b, a, h]);
    assert_eq!(tree.get_ancestors_id(d), vec![h]);
    assert_eq!(tree.get_ancestors_id(h), Vec::<u128>::new());
    assert_eq!(names(&tree.get_ancestors(e)), vec!["B", "A", "Game"]);
    assert_eq!(tree.get_parent(e).unwrap().get_uuid(), b);
}

#[test]
fn descendants_are_all_that_is_below() {
    let mut tree = Tree::new();
    let (h, a, b, c, d, e) = family(&mut tree);
    assert_eq!(sorted(tree.get_descendents_id(h)), sorted(vec![a, b, c, d, e]));
    assert_eq!(sorted(tree.get_descendents_id(a)), sorted(vec![b, c, e]));
    assert_eq!(tree.get_descendents_id(b), vec![e]);
    assert_eq!(tree.get_descendents_id(e), Vec::<u128>::new());
    let mut below = names(&tree.get_descendents(a));
    below.sort();
    assert_eq!(below, vec!["B", "C", "E"]);
}

#[test]
fn the_walk_visits_the_last_child_first_and_then_what_is_below_it() {
    let mut tree = Tree::new();
    let (h, a, b, c, d, e) = family(&mut tree);
    assert_eq!(tree.get_descendents_id(h), vec![d, a, c, b, e]);
    assert_eq!(tree.get_descendents_id(a), vec![c, b, e]);
    assert_eq!(names(&tree.get_descendents(h)), vec!["D", "A", "C", "B", "E"]);
    let f = tree.add_entity_with_parent("F", base(), d).unwrap();
    assert_eq!(tree.get_descendents_id(h), vec![d, f, a, c, b, e]);
    assert_eq!(tree.set_parent(b, Some(h)), Ok(()));
    assert_eq!(tree.get_descendents_id(h), vec![b, e, d, f, a, c]);
}

#[test]
fn the_first_match_by_name_wins() {
    let mut tree = Tree::new();
    let (h, a, b, _, _, e) = family(&mut tree);
    let twin_one = tree.add_entity_with_parent("twin", base(), a).unwrap();
    let twin_two = tree.add_entity_with_parent("twin", block(), a).unwrap();
    assert_eq!(tree.find_first_child(a, "twin").unwrap().get_uuid(), twin_one);
    assert_eq!(tree.find_first_child(a, "B").unwrap().get_uuid(), b);
    assert!(tree.find_first_child(a, "E").is_none());
    assert!(tree.find_first_child(a, "b").is_none());
    assert!(tree.find_first_child(a, "").is_none());
    assert_eq!(tree.set_parent(twin_one, Some(a)), Ok(()));
    assert_eq!(tree.find_first_child(a, "twin").unwrap().get_uuid(), twin_two);
    assert_eq!(tree.find_first_descendent(h, "E").unwrap().get_uuid(), e);
    assert!(tree.find_first_descendent(b, "A").is_none());
    assert_eq!(tree.find_first_descendent(h, "twin").unwrap().get_uuid(), twin_one);
    assert_eq!(tree.set_parent(twin_two, Some(a)), Ok(()));
    assert_eq!(tree.find_first_descendent(h, "twin").unwrap().get_uuid(), twin_two);
    assert_eq!(tree.find_first_descendent(a, "twin").unwrap().get_uuid(), twin_two);
    assert_eq!(tree.find_first_ancestor(e, "A").unwrap().get_uuid(), a);
    assert_eq!(tree.find_first_ancestor(e, "Game").unwrap().get_uuid(), h);
    assert!(tree.find_first_ancestor(e, "E").is_none());
    let inner = tree.add_entity_with_parent("A", base(), e).unwrap();
    let leaf = tree.add_entity_with_parent("leaf", base(), inner).unwrap();
    assert_eq!(tree.find_first_ancestor(leaf, "A").unwrap().get_uuid(), inner);
}

#[test]
fn an_entity_lent_out_for_writing_is_changed_in_the_tree() {
    let mut tree = Tree::new();
    let (h, a, b, _, _, e) = family(&mut tree);
    tree.get_entity_mut(a).unwrap().set_name("renamed");
    assert_eq!(tree.get_entity(a).unwrap().get_name(), "renamed");
    assert_eq!(tree.get_entity(a).unwrap().get_parent(), Some(h));
    tree.get_parent_mut(e).unwrap().set_name("parent of E");
    assert_eq!(tree.get_entity(b).unwrap().get_name(), "parent of E");
    tree.find_first_child_mut(h, "renamed").unwrap().set_name("A");
    assert_eq!(tree.get_entity(a).unwrap().get_name(), "A");
    tree.find_first_descendent_mut(h, "E").unwrap().set_name("e");
    assert_eq!(tree.get_entity(e).unwrap().get_name(), "e");
    tree.find_first_ancestor_mut(e, "Game").unwrap().set_name("root");
    assert_eq!(tree.get_head().unwrap().get_name(), "root");
    assert!(tree.find_first_child_mut(h, "nobody").is_none());
    assert!(tree.find_first_descendent_mut(h, "nobody").is_none());
    assert!(tree.find_first_ancestor_mut(e, "nobody").is_none());
    if let EntityType::Part(block) = tree.get_entity_mut(b).unwrap().get_mut_type() {
        block.visible = false;
    }
    assert!(matches!(tree.get_entity(b).unwrap().get_type(), EntityType::Part(Block { visible: false })));
    assert_eq!(tree.parts().len(), 2);
}

#[test]
fn all_entities_lent_out_for_writing_are_changed_in_the_tree() {
    let mut tree = Tree::new();
    let (h, a, b, c, d, e) = family(&mut tree);
    let all = tree.get_entities_mut();
    assert_eq!(all.len(), 6);
    let ids: Vec<u128> = all.iter().map(|x| x.get_uuid()).collect();
    assert_eq!(ids, vec![h, a, b, c, d, e]);
    for entity in all.iter_mut() {
        let name = format!("{}!", entity.get_name());
        entity.set_name(&name);
    }
    assert_eq!(names(&tree.get_entities()), vec!["Game!", "A!", "B!", "C!", "D!", "E!"]);
    assert_eq!(tree.get_ancestors_id(e), vec![b, a, h]);
    assert_eq!(tree.parts(), &[b, d]);
}

#[test]
fn an_input_service_in_the_tree_is_driven_through_its_entity() {
    let mut tree = Tree::new();
    let id = tree.add_entity("Input", EntityType::InputService(InputService::default()));
    if let EntityType::InputService(service) = tree.get_entity_mut(id).unwrap().get_mut_type() {
        service.provide_input(32, true);
        service.mark_cleanup();
    }
    match tree.get_entity(id).unwrap().get_type() {
        EntityType::InputService(service) => assert!(service.is_key_down(32)),
        _ => panic!("the payload is an input service"),
    }
    assert_eq!(tree.get_entity(id).unwrap().get_kind(), EntityKind::InputService);
}

#[test]
fn every_error_has_its_message() {
    assert_eq!(HierarchyError::SelfParent.message(), "can't parent to self");
    assert_eq!(HierarchyError::CyclicHierarchy.message(), "can't parent to descendent");
    assert_eq!(HierarchyError::UnknownEntity.message(), "no such entity");
}

#[test]
fn payloads_know_their_kind() {
    let game: EntityType<Lens, Block> = EntityType::Game(Game::new(GameGenre::Adventure));
    assert_eq!(game.kind(), EntityKind::Game);
    assert_eq!(base().kind(), EntityKind::Base);
    assert_eq!(block().kind(), EntityKind::Part);
    let camera: EntityType<Lens, Block> = EntityType::Camera(Lens { fov: 1.0 });
    assert_eq!(camera.kind(), EntityKind::Camera);
    let input: EntityType<Lens, Block> = EntityType::InputService(InputService::new());
    assert_eq!(input.kind(), EntityKind::InputService);
    assert_eq!(Game::new(GameGenre::Action).genre, GameGenre::Action);
    assert_eq!(Game::default().genre, GameGenre::Undefined);
    assert_eq!(GameGenre::default(), GameGenre::Undefined);
}

#[test]
fn the_default_entity_is_a_placeholder() {
    let entity: Entity<Lens, Block> = Entity::default();
    assert_eq!(entity.get_name(), "entity");
    assert_eq!(entity.get_kind(), EntityKind::Base);
    assert_eq!(entity.get_parent(), None);
    assert_eq!(entity.get_children().len(), 0);
    assert_eq!(entity.get_uuid() & LAYOUT_MASK, RANDOM_LAYOUT);
}

#[test]
fn an_entity_keeps_what_it_is_given() {
    let mut entity: Entity<Lens, Block> = Entity::with_uuid("one", block(), 42);
    assert_eq!(entity.get_uuid(), 42);
    assert_eq!(entity.get_name(), "one");
    entity.set_name("two");
    assert_eq!(entity.get_name(), "two");
    *entity.get_mut_type() = EntityType::Base;
    assert_eq!(entity.get_kind(), EntityKind::Base);
    assert_eq!(entity.get_uuid(), 42);
}
