use std::time::{Duration, SystemTime, UNIX_EPOCH};
use vstd::prelude::*;

verus! {

/// Which movement and control keys are currently held.
pub struct Keyboard {
    pub is_w_down: bool,
    pub is_a_down: bool,
    pub is_s_down: bool,
    pub is_d_down: bool,
    pub is_space_down: bool,
    pub is_p_down: bool,
    pub should_quit: bool,
}

impl Keyboard {
    /// A keyboard with no key held and no request to quit.
    pub fn new() -> (k: Self)
        ensures
            !k.is_w_down,
            !k.is_a_down,
            !k.is_s_down,
            !k.is_d_down,
            !k.is_space_down,
            !k.is_p_down,
            !k.should_quit,
    {
        Keyboard {
            is_w_down: false,
            is_a_down: false,
            is_s_down: false,
            is_d_down: false,
            is_space_down: false,
            is_p_down: false,
            should_quit: false,
        }
    }
}


/// A key that the game reads; every other key is `Other`.
#[derive(Clone, Copy, PartialEq, Eq, Debug)]
pub enum Key {
    Escape,
    W,
    A,
    S,
    D,
    Space,
    P,
    Other,
}

/// An input event as the game sees it: the window closing, or a key going
/// down or up. Events of other kinds are `Ignored`.
#[derive(Clone, Copy, PartialEq, Eq, Debug)]
pub enum InputEvent {
    Quit,
    KeyDown(Key),
    KeyUp(Key),
    Ignored,
}

/// The keyboard after one event: the window closing or Escape going down
/// asks to quit; W, A, S, D and Space are held from their key-down to their
/// key-up; P is set by its key-down only; everything else changes nothing.
pub open spec fn after_event(k: Keyboard, e: InputEvent) -> Keyboard {
    match e {
        InputEvent::Quit => Keyboard { should_quit: true, ..k },
        InputEvent::KeyDown(Key::Escape) => Keyboard { should_quit: true, ..k },
        InputEvent::KeyDown(Key::W) => Keyboard { is_w_down: true, ..k },
        InputEvent::KeyDown(Key::A) => Keyboard { is_a_down: true, ..k },
        InputEvent::KeyDown(Key::S) => Keyboard { is_s_down: true, ..k },
        InputEvent::KeyDown(Key::D) => Keyboard { is_d_down: true, ..k },
        InputEvent::KeyDown(Key::Space) => Keyboard { is_space_down: true, ..k },
        InputEvent::KeyDown(Key::P) => Keyboard { is_p_down: true, ..k },
        InputEvent::KeyUp(Key::W) => Keyboard { is_w_down: false, ..k },
        InputEvent::KeyUp(Key::A) => Keyboard { is_a_down: false, ..k },
        InputEvent::KeyUp(Key::S) => Keyboard { is_s_down: false, ..k },
        InputEvent::KeyUp(Key::D) => Keyboard { is_d_down: false, ..k },
        InputEvent::KeyUp(Key::Space) => Keyboard { is_space_down: false, ..k },
        _ => k,
    }
}

/// The keyboard after a sequence of events, taken in order.
pub open spec fn after_events(k: Keyboard, events: Seq<InputEvent>) -> Keyboard
    decreases events.len(),
{
    if events.len() == 0 {
        k
    } else {
        after_event(after_events(k, events.drop_last()), events.last())
    }
}

impl Keyboard {
    /// Applies one input event to the keyboard state.
    pub fn handle_event(&mut self, event: InputEvent)
        ensures
            *final(self) == after_event(*old(self), event),
    {
        match event {
            InputEvent::Quit => self.should_quit = true,
            InputEvent::KeyDown(Key::Escape) => self.should_quit = true,
            InputEvent::KeyDown(Key::W) => self.is_w_down = true,
            InputEvent::KeyDown(Key::A) => self.is_a_down = true,
            InputEvent::KeyDown(Key::S) => self.is_s_down = true,
            InputEvent::KeyDown(Key::D) => self.is_d_down = true,
            InputEvent::KeyDown(Key::Space) => self.is_space_down = true,
            InputEvent::KeyDown(Key::P) => self.is_p_down = true,
            InputEvent::KeyUp(Key::W) => self.is_w_down = false,
            InputEvent::KeyUp(Key::A) => self.is_a_down = false,
            InputEvent::KeyUp(Key::S) => self.is_s_down = false,
            InputEvent::KeyUp(Key::D) => self.is_d_down = false,
            InputEvent::KeyUp(Key::Space) => self.is_space_down = false,
            _ => {},
        }
    }
}

/// Applies the pending input events, in the order they were polled, to the
/// keyboard state.
pub fn get_input(events: &[InputEvent], keyboard: &mut Keyboard)
    ensures
        *final(keyboard) == after_events(*old(keyboard), events@),
{
    let mut i: usize = 0;
    while i < events.len()
        invariant
            i <= events.len(),
            *keyboard == after_events(*old(keyboard), events@.take(i as int)),
        decreases events.len() - i,
    {
        proof {
            assert(events@.take(i + 1).drop_last() == events@.take(i as int));
        }
        keyboard.handle_event(events[i]);
        i += 1;
    }
    proof {
        assert(events@.take(events.len() as int) == events@);
    }
}

/// Once the window has been asked to close, no later event withdraws the
/// request.
pub proof fn lemma_quit_is_sticky(k: Keyboard, events: Seq<InputEvent>)
    requires
        k.should_quit,
    ensures
        after_events(k, events).should_quit,
    decreases events.len(),
{
    if events.len() > 0 {
        lemma_quit_is_sticky(k, events.drop_last());
    }
}

/// A key's own key-up releases it: after `KeyUp` of W, A, S, D or Space
/// that key's flag is false and every other field is as it was.
pub proof fn lemma_key_up_releases(k: Keyboard)
    ensures
        ({
            let r = after_event(k, InputEvent::KeyUp(Key::W));
            !r.is_w_down && r.is_a_down == k.is_a_down && r.is_s_down == k.is_s_down
                && r.is_d_down == k.is_d_down && r.is_space_down == k.is_space_down
                && r.is_p_down == k.is_p_down && r.should_quit == k.should_quit
        }),
        ({
            let r = after_event(k, InputEvent::KeyUp(Key::A));
            !r.is_a_down && r.is_w_down == k.is_w_down && r.is_s_down == k.is_s_down
                && r.is_d_down == k.is_d_down && r.is_space_down == k.is_space_down
                && r.is_p_down == k.is_p_down && r.should_quit == k.should_quit
        }),
        ({
            let r = after_event(k, InputEvent::KeyUp(Key::S));
            !r.is_s_down && r.is_w_down == k.is_w_down && r.is_a_down == k.is_a_down
                && r.is_d_down == k.is_d_down && r.is_space_down == k.is_space_down
                && r.is_p_down == k.is_p_down && r.should_quit == k.should_quit
        }),
        ({
            let r = after_event(k, InputEvent::KeyUp(Key::D));
            !r.is_d_down && r.is_w_down == k.is_w_down && r.is_a_down == k.is_a_down
                && r.is_s_down == k.is_s_down && r.is_space_down == k.is_space_down
                && r.is_p_down == k.is_p_down && r.should_quit == k.should_quit
        }),
        ({
            let r = after_event(k, InputEvent::KeyUp(Key::Space));
            !r.is_space_down && r.is_w_down == k.is_w_down && r.is_a_down == k.is_a_down
                && r.is_s_down == k.is_s_down && r.is_d_down == k.is_d_down
                && r.is_p_down == k.is_p_down && r.should_quit == k.should_quit
        }),
{
}

/// A key-down holds its key: after `KeyDown` of W, A, S, D, Space or P that
/// key's flag is true, and after `KeyDown(Escape)` or `Quit` the keyboard asks
/// to quit; every other field is as it was.
pub proof fn lemma_key_down_presses(k: Keyboard)
    ensures
        ({
            let r = after_event(k, InputEvent::KeyDown(Key::W));
            r.is_w_down && r.is_a_down == k.is_a_down && r.is_s_down == k.is_s_down
                && r.is_d_down == k.is_d_down && r.is_space_down == k.is_space_down
                && r.is_p_down == k.is_p_down && r.should_quit == k.should_quit
        }),
        ({
            let r = after_event(k, InputEvent::KeyDown(Key::A));
            r.is_a_down && r.is_w_down == k.is_w_down && r.is_s_down == k.is_s_down
                && r.is_d_down == k.is_d_down && r.is_space_down == k.is_space_down
                && r.is_p_down == k.is_p_down && r.should_quit == k.should_quit
        }),
        ({
            let r = after_event(k, InputEvent::KeyDown(Key::S));
            r.is_s_down && r.is_w_down == k.is_w_down && r.is_a_down == k.is_a_down
                && r.is_d_down == k.is_d_down && r.is_space_down == k.is_space_down
                && r.is_p_down == k.is_p_down && r.should_quit == k.should_quit
        }),
        ({
            let r = after_event(k, InputEvent::KeyDown(Key::D));
            r.is_d_down && r.is_w_down == k.is_w_down && r.is_a_down == k.is_a_down
                && r.is_s_down == k.is_s_down && r.is_space_down == k.is_space_down
                && r.is_p_down == k.is_p_down && r.should_quit == k.should_quit
        }),
        ({
            let r = after_event(k, InputEvent::KeyDown(Key::Space));
            r.is_space_down && r.is_w_down == k.is_w_down && r.is_a_down == k.is_a_down
                && r.is_s_down == k.is_s_down && r.is_d_down == k.is_d_down
                && r.is_p_down == k.is_p_down && r.should_quit == k.should_quit
        }),
        ({
            let r = after_event(k, InputEvent::KeyDown(Key::P));
            r.is_p_down && r.is_w_down == k.is_w_down && r.is_a_down == k.is_a_down
                && r.is_s_down == k.is_s_down && r.is_d_down == k.is_d_down
                && r.is_space_down == k.is_space_down && r.should_quit == k.should_quit
        }),
        ({
            let r = after_event(k, InputEvent::KeyDown(Key::Escape));
            r.should_quit && r.is_w_down == k.is_w_down && r.is_a_down == k.is_a_down
                && r.is_s_down == k.is_s_down && r.is_d_down == k.is_d_down
                && r.is_space_down == k.is_space_down && r.is_p_down == k.is_p_down
        }),
        ({
            let r = after_event(k, InputEvent::Quit);
            r.should_quit && r.is_w_down == k.is_w_down && r.is_a_down == k.is_a_down
                && r.is_s_down == k.is_s_down && r.is_d_down == k.is_d_down
                && r.is_space_down == k.is_space_down && r.is_p_down == k.is_p_down
        }),
{
}

/// Events that the game does not react to leave the keyboard as it was: a
/// key-up of P or Escape, any event of another key, and ignored events.
pub proof fn lemma_other_events_ignored(k: Keyboard)
    ensures
        after_event(k, InputEvent::KeyUp(Key::P)) == k,
        after_event(k, InputEvent::KeyUp(Key::Escape)) == k,
        after_event(k, InputEvent::KeyUp(Key::Other)) == k,
        after_event(k, InputEvent::KeyDown(Key::Other)) == k,
        after_event(k, InputEvent::Ignored) == k,
{
}

/// Whether the last event of `key` in `events` is its key-down (`true`) or
/// its key-up (`false`); `None` if no event of `key` occurs.
pub open spec fn last_press(events: Seq<InputEvent>, key: Key) -> Option<bool>
    decreases events.len(),
{
    if events.len() == 0 {
        None
    } else if events.last() == InputEvent::KeyDown(key) {
        Some(true)
    } else if events.last() == InputEvent::KeyUp(key) {
        Some(false)
    } else {
        last_press(events.drop_last(), key)
    }
}

/// A key's flag after a sequence of events: held if its last event was a
/// key-down, released if it was a key-up, and as before if it had none.
pub open spec fn held_after(before: bool, events: Seq<InputEvent>, key: Key) -> bool {
    match last_press(events, key) {
        Some(down) => down,
        None => before,
    }
}

/// Some event of `events` is `e`.
pub open spec fn occurs(events: Seq<InputEvent>, e: InputEvent) -> bool {
    exists|i: int| 0 <= i < events.len() && events[i] == e
}

/// What a sequence of events leaves: W, A, S, D and Space are held exactly
/// when their last event was a key-down (or, with no event, as before); P is
/// set if it was set or went down; the keyboard asks to quit if it did or the
/// window closed or Escape went down.
pub proof fn lemma_events_outcome(k: Keyboard, events: Seq<InputEvent>)
    ensures
        after_events(k, events).is_w_down == held_after(k.is_w_down, events, Key::W),
        after_events(k, events).is_a_down == held_after(k.is_a_down, events, Key::A),
        after_events(k, events).is_s_down == held_after(k.is_s_down, events, Key::S),
        after_events(k, events).is_d_down == held_after(k.is_d_down, events, Key::D),
        after_events(k, events).is_space_down == held_after(
            k.is_space_down,
            events,
            Key::Space,
        ),
        after_events(k, events).is_p_down == (k.is_p_down || occurs(
            events,
            InputEvent::KeyDown(Key::P),
        )),
        after_events(k, events).should_quit == (k.should_quit || occurs(events, InputEvent::Quit)
            || occurs(events, InputEvent::KeyDown(Key::Escape))),
    decreases events.len(),
{
    if events.len() > 0 {
        let init = events.drop_last();
        lemma_events_outcome(k, init);
        lemma_key_up_releases(after_events(k, init));
        lemma_key_down_presses(after_events(k, init));
        lemma_other_events_ignored(after_events(k, init));
        let e = events.last();
        assert forall|x: InputEvent| occurs(events, x) <==> (occurs(init, x) || e == x) by {
            if occurs(events, x) {
                let i = choose|i: int| 0 <= i < events.len() && events[i] == x;
                if i < init.len() {
                    assert(init[i] == x);
                }
            }
            if occurs(init, x) {
                let i = choose|i: int| 0 <= i < init.len() && init[i] == x;
                assert(events[i] == x);
            }
            if e == x {
                assert(events[events.len() - 1] == x);
            }
        }
    }
}

#[verifier::external_type_specification]
#[verifier::external_body]
pub struct ExSystemTime(SystemTime);

/// The system clock's current reading.
///
/// Trusted: calls `std::time::SystemTime::now`. Nothing is stated of the
/// result, which depends on the clock.
#[verifier::external_body]
fn system_time_now() -> SystemTime {
    SystemTime::now()
}

/// The time from the Unix epoch to `t`.
///
/// Trusted: calls `SystemTime::duration_since(UNIX_EPOCH)` and turns its
/// error into `None`. Its documentation gives an error where `t` lies before
/// the epoch; nothing of this is stated, since a clock reading has no value
/// that Verus can see.
#[verifier::external_body]
fn duration_since_unix_epoch(t: &SystemTime) -> Option<Duration> {
    t.duration_since(UNIX_EPOCH).ok()
}

/// The current time as the duration since the Unix epoch, or `None` where
/// the clock reads a time before the epoch.
pub fn get_current_time() -> Option<Duration> {
    let now = system_time_now();
    duration_since_unix_epoch(&now)
}

} // verus!
