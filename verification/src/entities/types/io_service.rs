//! Handles the use of inputs: one state per key, with its edges (just
//! pressed, just released) kept apart from its level (held down).

use std::collections::HashMap;
use vstd::prelude::*;
use vstd::std_specs::iter::IteratorSpec;

verus! {

/// A key, by its numeric code.
pub type Keycode = i32;

/// The status of a key on a keyboard.
#[derive(Debug, PartialEq, Eq, Structural, Copy, Clone)]
pub enum PressedStatus {
    /// The key is held down
    Down,
    /// The key has just been released
    Released,
    /// The key has just been pressed (start of holding a key)
    Pressed,
    /// Isn't in any of the states
    Inactive,
}

/// The status a key has once a frame has ended, or that it has left the
/// table: a released key leaves, a pressed key is held down from then on.
pub open spec fn after_frame(status: PressedStatus) -> Option<PressedStatus> {
    match status {
        PressedStatus::Released => None,
        PressedStatus::Pressed => Some(PressedStatus::Down),
        other => Some(other),
    }
}

/// The key table once a frame has ended.
pub open spec fn cleaned(table: Map<Keycode, PressedStatus>) -> Map<Keycode, PressedStatus> {
    Map::new(
        |k: Keycode| table.contains_key(k) && after_frame(table[k]) is Some,
        |k: Keycode| after_frame(table[k]).unwrap(),
    )
}

/// The key table after one raw event for `key`: a known key becomes
/// `Released`, whatever the event said; an unknown key enters as `Pressed`
/// where the event is a press; the release of an unknown key changes
/// nothing.
pub open spec fn provided(table: Map<Keycode, PressedStatus>, key: Keycode, pressed: bool) -> Map<
    Keycode,
    PressedStatus,
> {
    if table.contains_key(key) {
        table.insert(key, PressedStatus::Released)
    } else if pressed {
        table.insert(key, PressedStatus::Pressed)
    } else {
        table
    }
}

/// The status that the table gives for `key`: `Inactive` for a key it does not hold.
pub open spec fn status_of(table: Map<Keycode, PressedStatus>, key: Keycode) -> PressedStatus {
    if table.contains_key(key) {
        table[key]
    } else {
        PressedStatus::Inactive
    }
}

/// The life of a key: a press of a key that the table does not hold makes
/// it `Pressed`; the end of the frame makes it `Down`; the next event for
/// it, press or release, makes it `Released`, and the end of that frame
/// takes it out of the table.
pub proof fn law_key_lifecycle(table: Map<Keycode, PressedStatus>, key: Keycode, again: bool)
    requires
        !table.contains_key(key),
    ensures
        ({
            let pressed = provided(table, key, true);
            let down = cleaned(pressed);
            let released = provided(down, key, again);
            let gone = cleaned(released);
            &&& status_of(pressed, key) == PressedStatus::Pressed
            &&& status_of(down, key) == PressedStatus::Down
            &&& status_of(released, key) == PressedStatus::Released
            &&& status_of(gone, key) == PressedStatus::Inactive
        }),
{
}

/// The release of a key that the table does not hold changes nothing.
pub proof fn law_release_of_unknown_key(table: Map<Keycode, PressedStatus>, key: Keycode)
    requires
        !table.contains_key(key),
    ensures
        provided(table, key, false) == table,
        status_of(provided(table, key, false), key) == PressedStatus::Inactive,
{
}

/// An event for a key that the table holds makes the key `Released`,
/// whether the event is a press or a release.
pub proof fn law_known_key_is_released(
    table: Map<Keycode, PressedStatus>,
    key: Keycode,
    pressed: bool,
)
    requires
        table.contains_key(key),
    ensures
        status_of(provided(table, key, pressed), key) == PressedStatus::Released,
{
}

/// Once a frame has ended, every key of the table is `Down`, and the end of
/// another frame changes nothing.
pub proof fn law_clean_table_is_down(table: Map<Keycode, PressedStatus>)
    requires
        forall|k: Keycode| #[trigger] table.contains_key(k) ==> table[k] != PressedStatus::Inactive,
    ensures
        forall|k: Keycode| #[trigger]
            cleaned(table).contains_key(k) ==> cleaned(table)[k] == PressedStatus::Down,
        cleaned(cleaned(table)) == cleaned(table),
{
    assert(cleaned(cleaned(table)) =~= cleaned(table));
}

/// An event for one key leaves every other key as it was.
pub proof fn law_event_is_local(
    table: Map<Keycode, PressedStatus>,
    key: Keycode,
    pressed: bool,
    other: Keycode,
)
    requires
        other != key,
    ensures
        status_of(provided(table, key, pressed), other) == status_of(table, other),
{
}

/// Handles key inputs.
pub struct InputService {
    global_key_status: HashMap<Keycode, PressedStatus>,
    has_changed: bool,
}

impl View for InputService {
    type V = Map<Keycode, PressedStatus>;

    /// The key table: every active key with its status.
    closed spec fn view(&self) -> Map<Keycode, PressedStatus> {
        self.global_key_status@
    }
}

impl InputService {
    /// No key is stored as `Inactive`, and a table that nothing has touched
    /// since the last frame ended holds only keys that are down.
    #[verifier::type_invariant]
    spec fn inv(&self) -> bool {
        &&& forall|k: Keycode| #[trigger]
            self.global_key_status@.contains_key(k) ==> self.global_key_status@[k]
                != PressedStatus::Inactive
        &&& !self.has_changed ==> forall|k: Keycode| #[trigger]
            self.global_key_status@.contains_key(k) ==> self.global_key_status@[k]
                == PressedStatus::Down
    }

    /// An input service that holds no key.
    pub fn new() -> (service: Self)
        ensures
            service@ == Map::<Keycode, PressedStatus>::empty(),
    {
        Self { global_key_status: HashMap::with_capacity(64), has_changed: false }
    }

    /// Removes all keys marked as `Released`, converts keys marked as
    /// `Pressed` to `Down`. Called once per frame boundary.
    pub fn mark_cleanup(&mut self)
        ensures
            final(self)@ == cleaned(old(self)@),
    {
        proof {
            use_type_invariant(&*self);
        }
        if !self.has_changed {
            assert(self@ =~= cleaned(self@));
            return ;
        }
        let mut table: HashMap<Keycode, PressedStatus> = HashMap::new();
        std::mem::swap(&mut self.global_key_status, &mut table);
        clean_table(&mut table);
        self.has_changed = false;
        std::mem::swap(&mut self.global_key_status, &mut table);
    }

    /// Adds or mutates an entry. A key with an entry gets `Released`,
    /// whether or not `pressed` is set: an event for a key that is held
    /// counts as its release. A key without an entry gets `Pressed` where
    /// `pressed` is set; its release matches no entry and changes nothing.
    pub fn provide_input(&mut self, keycode: Keycode, pressed: bool)
        ensures
            final(self)@ == provided(old(self)@, keycode, pressed),
    {
        proof {
            use_type_invariant(&*self);
        }
        let mut table: HashMap<Keycode, PressedStatus> = HashMap::new();
        std::mem::swap(&mut self.global_key_status, &mut table);
        if table.contains_key(&keycode) {
            table.insert(keycode, PressedStatus::Released);
            self.has_changed = true;
        } else if pressed {
            table.insert(keycode, PressedStatus::Pressed);
            self.has_changed = true;
        }
        std::mem::swap(&mut self.global_key_status, &mut table);
    }

    /// Has the `keycode` just been pressed?
    pub fn is_key_pressed(&self, keycode: Keycode) -> (pressed: bool)
        ensures
            pressed == (status_of(self@, keycode) == PressedStatus::Pressed),
    {
        self.get_key_status(keycode) == PressedStatus::Pressed
    }

    /// Has the `keycode` just been released?
    pub fn is_key_released(&self, keycode: Keycode) -> (released: bool)
        ensures
            released == (status_of(self@, keycode) == PressedStatus::Released),
    {
        self.get_key_status(keycode) == PressedStatus::Released
    }

    /// Is the `keycode` held down?
    pub fn is_key_down(&self, keycode: Keycode) -> (down: bool)
        ensures
            down == (status_of(self@, keycode) == PressedStatus::Down),
    {
        self.get_key_status(keycode) == PressedStatus::Down
    }

    /// Is the `keycode` either `Down`, `Released` or `Pressed`?
    pub fn is_key_active(&self, keycode: Keycode) -> (active: bool)
        ensures
            active == self@.contains_key(keycode),
            active == (status_of(self@, keycode) != PressedStatus::Inactive),
    {
        proof {
            use_type_invariant(self);
        }
        self.global_key_status.contains_key(&keycode)
    }

    /// Gets the status of the `keycode`; `PressedStatus::Inactive` if the
    /// key is not active.
    pub fn get_key_status(&self, keycode: Keycode) -> (status: PressedStatus)
        ensures
            status == status_of(self@, keycode),
    {
        match self.global_key_status.get(&keycode) {
            Some(status) => *status,
            None => PressedStatus::Inactive,
        }
    }

    /// The keys whose status is `wanted`, each once, in no particular order.
    fn keys_with_status(&self, wanted: PressedStatus) -> (keys: Vec<Keycode>)
        requires
            wanted != PressedStatus::Inactive,
        ensures
            keys@.no_duplicates(),
            forall|k: Keycode| keys@.contains(k) <==> status_of(self@, k) == wanted,
    {
        let all = self.get_keys_active();
        let mut keys: Vec<Keycode> = Vec::new();
        let mut i: usize = 0;
        while i < all.len()
            invariant
                i <= all.len(),
                wanted != PressedStatus::Inactive,
                all@.no_duplicates(),
                forall|k: Keycode| all@.contains(k) <==> self@.contains_key(k),
                keys@.no_duplicates(),
                forall|k: Keycode|
                    keys@.contains(k) <==> all@.take(i as int).contains(k) && status_of(self@, k)
                        == wanted,
            decreases all.len() - i,
        {
            let key = all[i];
            let ghost prev = keys@;
            proof {
                let head = all@.take(i as int);
                let more = all@.take(i + 1);
                assert(more =~= head.push(key));
                assert forall|k: Keycode| more.contains(k) <==> head.contains(k) || k == key by {
                    if head.contains(k) {
                        let a = choose|a: int| 0 <= a < head.len() && head[a] == k;
                        assert(more[a] == k);
                    }
                    assert(more[i as int] == key);
                }
                if head.contains(key) {
                    let a = choose|a: int| 0 <= a < head.len() && head[a] == key;
                    assert(all@[a] == all@[i as int]);
                }
            }
            if self.get_key_status(key) == wanted {
                keys.push(key);
                proof {
                    assert(keys@[prev.len() as int] == key);
                    assert forall|k: Keycode| keys@.contains(k) <==> prev.contains(k) || k == key by {
                        if prev.contains(k) {
                            let a = choose|a: int| 0 <= a < prev.len() && prev[a] == k;
                            assert(keys@[a] == k);
                        }
                    }
                }
            }
            i += 1;
        }
        proof {
            assert(all@.take(all@.len() as int) =~= all@);
        }
        keys
    }

    /// Gets the keycodes that have just been pressed, each once, in no
    /// particular order.
    pub fn get_keys_pressed(&self) -> (keys: Vec<Keycode>)
        ensures
            keys@.no_duplicates(),
            forall|k: Keycode|
                keys@.contains(k) <==> status_of(self@, k) == PressedStatus::Pressed,
    {
        self.keys_with_status(PressedStatus::Pressed)
    }

    /// Gets the keycodes that have just been released, each once, in no
    /// particular order.
    pub fn get_keys_released(&self) -> (keys: Vec<Keycode>)
        ensures
            keys@.no_duplicates(),
            forall|k: Keycode|
                keys@.contains(k) <==> status_of(self@, k) == PressedStatus::Released,
    {
        self.keys_with_status(PressedStatus::Released)
    }

    /// Gets the keycodes that are held down, each once, in no particular
    /// order.
    pub fn get_keys_down(&self) -> (keys: Vec<Keycode>)
        ensures
            keys@.no_duplicates(),
            forall|k: Keycode| keys@.contains(k) <==> status_of(self@, k) == PressedStatus::Down,
    {
        self.keys_with_status(PressedStatus::Down)
    }

    /// Gets the keycodes that are either `Down`, `Released` or `Pressed`,
    /// each once, in no particular order.
    pub fn get_keys_active(&self) -> (keys: Vec<Keycode>)
        ensures
            keys@.no_duplicates(),
            forall|k: Keycode| keys@.contains(k) <==> self@.contains_key(k),
    {
        keys_of(&self.global_key_status)
    }
}

/// The keys of `table`, each once, in the order in which the table hands
/// them out.
fn keys_of(table: &HashMap<Keycode, PressedStatus>) -> (keys: Vec<Keycode>)
    ensures
        keys@.no_duplicates(),
        forall|k: Keycode| keys@.contains(k) <==> table@.contains_key(k),
{
    let mut keys: Vec<Keycode> = Vec::new();
    let ghost all = vstd::std_specs::hash::spec_keys_iter(table).remaining();
    for key in it: table.keys()
        invariant
            it.seq() == all,
            keys@.len() == it.index(),
            forall|j: int| 0 <= j < keys@.len() ==> keys@[j] == *all[j],
    {
        keys.push(*key);
    }
    proof {
        vstd::std_specs::hash::axiom_spec_keys_iter(table);
        assert(keys@ =~= all.unref());
        assert forall|i: int, j: int| 0 <= i < keys@.len() && 0 <= j < keys@.len() && i != j implies keys@[i]
            != keys@[j] by {
            assert(all[i] != all[j]);
        }
        assert forall|k: Keycode| keys@.contains(k) <==> table@.contains_key(k) by {
            assert(keys@.to_set().contains(k) <==> table@.dom().contains(k));
        }
    }
    keys
}

/// Ends a frame on `table`: released keys leave, pressed keys are down.
fn clean_table(table: &mut HashMap<Keycode, PressedStatus>)
    ensures
        final(table)@ == cleaned(old(table)@),
{
    let keys = keys_of(table);
    let ghost before = table@;
    let mut i: usize = 0;
    while i < keys.len()
        invariant
            i <= keys.len(),
            keys@.no_duplicates(),
            forall|k: Keycode| keys@.contains(k) <==> before.contains_key(k),
            forall|j: int|
                0 <= j < i ==> table@.get(#[trigger] keys@[j]) == cleaned(before).get(keys@[j]),
            forall|j: int|
                i <= j < keys.len() ==> table@.get(#[trigger] keys@[j]) == before.get(keys@[j]),
            forall|k: Keycode| #[trigger] table@.contains_key(k) ==> before.contains_key(k),
        decreases keys.len() - i,
    {
        let key = keys[i];
        assert(keys@.contains(key));
        match table.get(&key) {
            Some(PressedStatus::Released) => {
                table.remove(&key);
            },
            Some(PressedStatus::Pressed) => {
                table.insert(key, PressedStatus::Down);
            },
            _ => {},
        }
        i += 1;
    }
    proof {
        let now = table@;
        assert forall|k: Keycode| now.get(k) == cleaned(before).get(k) by {
            if before.contains_key(k) {
                let j = choose|j: int| 0 <= j < keys@.len() && keys@[j] == k;
                assert(now.get(keys@[j]) == cleaned(before).get(keys@[j]));
            }
        }
        assert(now =~= cleaned(before)) by {
            assert forall|k: Keycode| now.contains_key(k) <==> cleaned(before).contains_key(
                k,
            ) by {
                assert(now.get(k) == cleaned(before).get(k));
            }
            assert forall|k: Keycode| now.contains_key(k) implies now[k] == cleaned(before)[k] by {
                assert(now.get(k) == cleaned(before).get(k));
            }
        }
    }
}

impl Default for InputService {
    fn default() -> (service: Self)
        ensures
            service@ == Map::<Keycode, PressedStatus>::empty(),
    {
        Self::new()
    }
}

} // verus!
