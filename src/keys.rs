//! Tracking held keys and deriving the single active note.
//!
//! Policy: the most recently pressed key that is still held is the active
//! note. Releasing it hands the note back to the most recent key pressed
//! before it that is still held. Pressing a key that is already held moves it
//! to the top. Releasing a key that is not held changes nothing.

use vstd::prelude::*;

verus! {

/// One key event: the key's note number and whether it went down or up.
#[derive(Clone, Copy, Debug, PartialEq, Eq, Structural)]
pub struct KeyAction {
    pub key: i32,
    pub pressed: bool,
}

impl KeyAction {
    /// A key going down.
    pub fn press(key: i32) -> (r: KeyAction)
        ensures
            r == (KeyAction { key, pressed: true }),
    {
        KeyAction { key, pressed: true }
    }

    /// A key going up.
    pub fn release(key: i32) -> (r: KeyAction)
        ensures
            r == (KeyAction { key, pressed: false }),
    {
        KeyAction { key, pressed: false }
    }
}

/// `held` without any occurrence of `k`, order kept.
pub open spec fn without_key(held: Seq<i32>, k: i32) -> Seq<i32>
    decreases held.len(),
{
    if held.len() == 0 {
        held
    } else {
        let rest = without_key(held.drop_last(), k);
        if held.last() == k {
            rest
        } else {
            rest.push(held.last())
        }
    }
}

/// The held keys, oldest press first, after one more event.
pub open spec fn step(held: Seq<i32>, a: KeyAction) -> Seq<i32> {
    if a.pressed {
        without_key(held, a.key).push(a.key)
    } else {
        without_key(held, a.key)
    }
}

/// The held keys after a whole history of events, applied in order.
pub open spec fn replay(held: Seq<i32>, actions: Seq<KeyAction>) -> Seq<i32>
    decreases actions.len(),
{
    if actions.len() == 0 {
        held
    } else {
        step(replay(held, actions.drop_last()), actions.last())
    }
}

/// The note that sounds while `held` are down: the last one pressed.
pub open spec fn active_of(held: Seq<i32>) -> Option<i32> {
    if held.len() == 0 {
        None
    } else {
        Some(held.last())
    }
}

proof fn lemma_without_key_contents(held: Seq<i32>, k: i32)
    ensures
        forall|x: i32| without_key(held, k).contains(x) <==> (held.contains(x) && x != k),
        held.no_duplicates() ==> without_key(held, k).no_duplicates(),
        !held.contains(k) ==> without_key(held, k) == held,
    decreases held.len(),
{
    if held.len() > 0 {
        let init = held.drop_last();
        lemma_without_key_contents(init, k);
        assert(held == init.push(held.last()));
        assert forall|x: i32| held.contains(x) <==> (init.contains(x) || x == held.last()) by {
            if held.contains(x) {
                let i = choose|i: int| 0 <= i < held.len() && held[i] == x;
                if i < held.len() - 1 {
                    assert(init[i] == x);
                }
            }
            if init.contains(x) {
                let i = choose|i: int| 0 <= i < init.len() && init[i] == x;
                assert(held[i] == x);
            }
            if x == held.last() {
                assert(held[held.len() - 1] == x);
            }
        }
        let r = without_key(init, k);
        assert forall|x: i32| r.push(held.last()).contains(x) <==> (r.contains(x) || x == held.last()) by {
            if r.push(held.last()).contains(x) {
                let i = choose|i: int| 0 <= i < r.len() + 1 && r.push(held.last())[i] == x;
                if i < r.len() {
                    assert(r[i] == x);
                }
            }
            if r.contains(x) {
                let i = choose|i: int| 0 <= i < r.len() && r[i] == x;
                assert(r.push(held.last())[i] == x);
            }
            if x == held.last() {
                assert(r.push(held.last())[r.len() as int] == x);
            }
        }
        if held.no_duplicates() {
            assert(init.no_duplicates());
            assert(!init.contains(held.last()));
        }
    }
}

/// A history applied to a tracker whose keys are all distinct leaves them
/// distinct.
pub proof fn lemma_replay_distinct(held: Seq<i32>, actions: Seq<KeyAction>)
    requires
        held.no_duplicates(),
    ensures
        replay(held, actions).no_duplicates(),
    decreases actions.len(),
{
    if actions.len() > 0 {
        lemma_replay_distinct(held, actions.drop_last());
        lemma_step_distinct(replay(held, actions.drop_last()), actions.last());
    }
}

proof fn lemma_step_distinct(held: Seq<i32>, a: KeyAction)
    requires
        held.no_duplicates(),
    ensures
        step(held, a).no_duplicates(),
{
    lemma_without_key_contents(held, a.key);
    let r = without_key(held, a.key);
    if a.pressed {
        assert forall|i: int, j: int|
            0 <= i < r.push(a.key).len() && 0 <= j < r.push(a.key).len() && i != j
            implies r.push(a.key)[i] != r.push(a.key)[j] by {
            if i == r.len() {
                assert(r.contains(r[j]));
            } else if j == r.len() {
                assert(r.contains(r[i]));
            }
        }
    }
}

/// Replaying one history on two fresh trackers ends in the same held keys
/// and the same active note: the state depends on the history alone, and it
/// never holds a key twice.
pub proof fn lemma_history_determines_state(first: Seq<KeyAction>, second: Seq<KeyAction>)
    requires
        first == second,
    ensures
        replay(Seq::empty(), first) == replay(Seq::empty(), second),
        active_of(replay(Seq::empty(), first)) == active_of(replay(Seq::empty(), second)),
        replay(Seq::empty(), first).no_duplicates(),
{
    lemma_replay_distinct(Seq::empty(), first);
}

/// Pressing a key that is not held and then releasing it leaves the held keys
/// as they were.
pub proof fn lemma_press_release_round_trip(held: Seq<i32>, k: i32)
    requires
        held.no_duplicates(),
        !held.contains(k),
    ensures
        step(step(held, KeyAction { key: k, pressed: true }), KeyAction { key: k, pressed: false })
            == held,
{
    lemma_without_key_contents(held, k);
    assert(held.push(k).drop_last() == held);
}

/// On a fresh tracker, a press of a key followed by its release leaves no
/// note sounding.
pub proof fn lemma_press_release_silent(k: i32)
    ensures
        active_of(
            replay(
                Seq::empty(),
                seq![KeyAction { key: k, pressed: true }, KeyAction { key: k, pressed: false }],
            ),
        ) == None::<i32>,
{
    let actions = seq![KeyAction { key: k, pressed: true }, KeyAction { key: k, pressed: false }];
    assert(actions.drop_last().drop_last() =~= Seq::<KeyAction>::empty());
    assert(actions.drop_last().last() == KeyAction { key: k, pressed: true });
    let press = KeyAction { key: k, pressed: true };
    let release = KeyAction { key: k, pressed: false };
    assert(replay(Seq::empty(), actions.drop_last().drop_last()) == Seq::<i32>::empty());
    assert(actions.drop_last().len() == 1);
    assert(replay(Seq::empty(), actions.drop_last()) == step(Seq::empty(), press));
    assert(replay(Seq::empty(), actions) == step(step(Seq::empty(), press), release));
    lemma_press_release_round_trip(Seq::empty(), k);
}

/// The keys currently held, oldest press first, without repeats.
pub struct KeysState {
    held: Vec<i32>,
}

impl View for KeysState {
    type V = Seq<i32>;

    closed spec fn view(&self) -> Seq<i32> {
        self.held@
    }
}

impl KeysState {
    /// A tracker with no key held.
    pub fn new() -> (r: KeysState)
        ensures
            r@ == Seq::<i32>::empty(),
    {
        KeysState { held: Vec::new() }
    }

    /// The note that sounds now, if any.
    pub fn active_note(&self) -> (r: Option<i32>)
        ensures
            r == active_of(self@),
    {
        if self.held.len() == 0 {
            None
        } else {
            Some(self.held[self.held.len() - 1])
        }
    }

    /// Applies one key event and returns the note that sounds after it.
    pub fn key_down(&mut self, action: KeyAction) -> (r: Option<i32>)
        ensures
            final(self)@ == step(old(self)@, action),
            r == active_of(final(self)@),
    {
        let mut kept: Vec<i32> = Vec::new();
        let mut i: usize = 0;
        while i < self.held.len()
            invariant
                0 <= i <= self.held@.len(),
                kept@ == without_key(self.held@.subrange(0, i as int), action.key),
            decreases self.held@.len() - i,
        {
            let x = self.held[i];
            assert(self.held@.subrange(0, i + 1).drop_last() == self.held@.subrange(0, i as int));
            if x != action.key {
                kept.push(x);
            }
            i += 1;
        }
        assert(self.held@.subrange(0, self.held@.len() as int) == self.held@);
        if action.pressed {
            kept.push(action.key);
        }
        self.held = kept;
        self.active_note()
    }

    /// Applies a run of key events in order and returns the note that sounds
    /// after the last of them.
    pub fn apply_all(&mut self, actions: &Vec<KeyAction>) -> (r: Option<i32>)
        ensures
            final(self)@ == replay(old(self)@, actions@),
            r == active_of(final(self)@),
    {
        let mut i: usize = 0;
        while i < actions.len()
            invariant
                0 <= i <= actions@.len(),
                self@ == replay(old(self)@, actions@.subrange(0, i as int)),
            decreases actions@.len() - i,
        {
            assert(actions@.subrange(0, i + 1).drop_last() == actions@.subrange(0, i as int));
            self.key_down(actions[i]);
            i += 1;
        }
        assert(actions@.subrange(0, actions@.len() as int) == actions@);
        self.active_note()
    }
}

} // verus!
