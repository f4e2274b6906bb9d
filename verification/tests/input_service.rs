use akhoik_ge::entities::types::io_service::{InputService, PressedStatus};

const K: i32 = 97;

fn sorted(mut keys: Vec<i32>) -> Vec<i32> {
    keys.sort();
    keys
}

#[test]
fn a_key_goes_from_pressed_to_down_to_released_to_gone() {
    let mut service = InputService::new();
    assert_eq!(service.get_key_status(K), PressedStatus::Inactive);
    service.provide_input(K, true);
    assert_eq!(service.get_key_status(K), PressedStatus::Pressed);
    service.mark_cleanup();
    assert_eq!(service.get_key_status(K), PressedStatus::Down);
    service.provide_input(K, false);
    assert_eq!(service.get_key_status(K), PressedStatus::Released);
    service.mark_cleanup();
    assert_eq!(service.get_key_status(K), PressedStatus::Inactive);
    assert!(!service.is_key_active(K));
    assert_eq!(service.get_keys_active(), Vec::<i32>::new());
}

#[test]
fn a_known_key_is_released_whatever_the_event_says() {
    let mut service = InputService::new();
    service.provide_input(K, true);
    service.provide_input(K, true);
    assert_eq!(service.get_key_status(K), PressedStatus::Released);
    service.provide_input(K, true);
    assert_eq!(service.get_key_status(K), PressedStatus::Released);
    service.mark_cleanup();
    assert_eq!(service.get_key_status(K), PressedStatus::Inactive);
}

#[test]
fn the_release_of_an_unknown_key_changes_nothing() {
    let mut service = InputService::default();
    service.provide_input(K, false);
    assert_eq!(service.get_key_status(K), PressedStatus::Inactive);
    assert_eq!(service.get_keys_active(), Vec::<i32>::new());
    assert!(!service.is_key_active(K));
    assert!(!service.is_key_pressed(K));
    service.mark_cleanup();
    assert_eq!(service.get_keys_active(), Vec::<i32>::new());
    service.provide_input(1, true);
    service.mark_cleanup();
    service.provide_input(K, false);
    assert_eq!(service.get_keys_active(), vec![1]);
    assert_eq!(service.get_key_status(1), PressedStatus::Down);
    assert_eq!(service.get_key_status(K), PressedStatus::Inactive);
}

#[test]
fn the_press_of_an_unknown_key_makes_it_pressed() {
    let mut service = InputService::new();
    service.provide_input(K, true);
    assert_eq!(service.get_key_status(K), PressedStatus::Pressed);
    assert!(service.is_key_pressed(K));
    assert!(service.is_key_active(K));
    assert_eq!(service.get_keys_pressed(), vec![K]);
}

#[test]
fn a_release_after_an_ignored_release_is_ignored_too() {
    let mut service = InputService::new();
    service.provide_input(K, false);
    service.provide_input(K, false);
    assert_eq!(service.get_key_status(K), PressedStatus::Inactive);
    service.provide_input(K, true);
    assert_eq!(service.get_key_status(K), PressedStatus::Pressed);
    service.provide_input(K, false);
    assert_eq!(service.get_key_status(K), PressedStatus::Released);
}

#[test]
fn a_key_that_is_down_stays_down() {
    let mut service = InputService::new();
    service.provide_input(K, true);
    service.mark_cleanup();
    service.mark_cleanup();
    service.mark_cleanup();
    assert_eq!(service.get_key_status(K), PressedStatus::Down);
    assert!(service.is_key_down(K));
    assert!(!service.is_key_pressed(K));
    assert!(!service.is_key_released(K));
    assert!(service.is_key_active(K));
}

#[test]
fn cleaning_an_untouched_table_changes_nothing() {
    let mut service = InputService::default();
    service.mark_cleanup();
    assert_eq!(service.get_keys_active().len(), 0);
    service.provide_input(1, true);
    service.provide_input(2, true);
    service.mark_cleanup();
    service.mark_cleanup();
    assert_eq!(sorted(service.get_keys_down()), vec![1, 2]);
}

#[test]
fn keys_are_listed_by_their_status() {
    let mut service = InputService::new();
    for key in [1, 2, 3, 4] {
        service.provide_input(key, true);
    }
    service.mark_cleanup();
    service.provide_input(1, false);
    service.provide_input(2, false);
    service.provide_input(5, true);
    service.provide_input(6, true);
    assert_eq!(sorted(service.get_keys_down()), vec![3, 4]);
    assert_eq!(sorted(service.get_keys_released()), vec![1, 2]);
    assert_eq!(sorted(service.get_keys_pressed()), vec![5, 6]);
    assert_eq!(sorted(service.get_keys_active()), vec![1, 2, 3, 4, 5, 6]);
    assert!(service.is_key_released(1));
    assert!(service.is_key_pressed(5));
    assert!(service.is_key_down(3));
    assert!(!service.is_key_active(7));
    service.mark_cleanup();
    assert_eq!(sorted(service.get_keys_down()), vec![3, 4, 5, 6]);
    assert_eq!(service.get_keys_released(), Vec::<i32>::new());
    assert_eq!(service.get_keys_pressed(), Vec::<i32>::new());
    assert_eq!(sorted(service.get_keys_active()), vec![3, 4, 5, 6]);
}

#[test]
fn negative_and_extreme_key_codes_are_keys_too() {
    let mut service = InputService::new();
    service.provide_input(i32::MIN, true);
    service.provide_input(i32::MAX, true);
    service.provide_input(0, true);
    service.mark_cleanup();
    assert_eq!(sorted(service.get_keys_down()), vec![i32::MIN, 0, i32::MAX]);
}
