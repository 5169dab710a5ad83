//! Which keys and buttons are down, and which went down this frame.
//!
//! Keys and buttons are known by the integer codes of the window system. A
//! frame ends with `update`; a key counts as pressed in a frame if it is down
//! and was not down when the frame began.

use std::collections::HashSet;
use vstd::prelude::*;

verus! {

broadcast use vstd::std_specs::hash::group_hash_axioms;

/// A physical input that can be bound to a game action.
#[derive(Clone, Copy, PartialEq, Eq, Structural, Hash, Debug)]
pub enum InputSource {
    /// A keyboard scancode.
    Key(i32),
    /// A mouse button.
    Mouse(i32),
}

/// The state of one set of buttons: those down now, and how that differs
/// from the beginning of the frame.
pub struct ButtonStates {
    current: HashSet<i32>,
    gained: HashSet<i32>,
    lost: HashSet<i32>,
}

impl ButtonStates {
    /// The buttons that are down.
    pub closed spec fn current(&self) -> Set<i32> {
        self.current@
    }

    /// The buttons that were down when the frame began.
    pub closed spec fn previous(&self) -> Set<i32> {
        self.current@.difference(self.gained@).union(self.lost@)
    }

    /// The record of what changed in the frame agrees with what is down.
    pub closed spec fn wf(&self) -> bool {
        &&& self.gained@.subset_of(self.current@)
        &&& self.lost@.disjoint(self.current@)
    }

    /// Creates a state with no button down.
    pub fn new() -> (states: ButtonStates)
        ensures
            states.wf(),
            states.current() == Set::<i32>::empty(),
            states.previous() == Set::<i32>::empty(),
    {
        let states = ButtonStates {
            current: HashSet::new(),
            gained: HashSet::new(),
            lost: HashSet::new(),
        };
        assert(states.previous() =~= Set::<i32>::empty());
        states
    }

    /// Ends the frame: what is down now is what was down when the next frame
    /// began.
    pub fn update(&mut self)
        ensures
            final(self).wf(),
            final(self).current() == old(self).current(),
            final(self).previous() == old(self).current(),
    {
        self.gained.clear();
        self.lost.clear();
        assert(self.previous() =~= self.current());
    }

    /// Records that a button went down or came up.
    pub fn set(&mut self, code: i32, is_pressed: bool)
        requires
            old(self).wf(),
        ensures
            final(self).wf(),
            final(self).previous() == old(self).previous(),
            final(self).current() == if is_pressed {
                old(self).current().insert(code)
            } else {
                old(self).current().remove(code)
            },
    {
        if is_pressed {
            if !self.current.contains(&code) {
                self.current.insert(code);
                if self.lost.contains(&code) {
                    self.lost.remove(&code);
                } else {
                    self.gained.insert(code);
                }
            }
        } else {
            if self.current.contains(&code) {
                self.current.remove(&code);
                if self.gained.contains(&code) {
                    self.gained.remove(&code);
                } else {
                    self.lost.insert(code);
                }
            }
        }
        assert(self.previous() =~= old(self).previous());
        assert(self.current() =~= if is_pressed {
            old(self).current().insert(code)
        } else {
            old(self).current().remove(code)
        });
    }

    /// Returns `true` if the button is currently held down.
    pub fn is_down(&self, code: i32) -> (down: bool)
        ensures
            down == self.current().contains(code),
    {
        self.current.contains(&code)
    }

    /// Returns `true` if the button was pressed this frame (edge-triggered).
    pub fn is_pressed(&self, code: i32) -> (pressed: bool)
        requires
            self.wf(),
        ensures
            pressed == (self.current().contains(code) && !self.previous().contains(code)),
    {
        self.gained.contains(&code)
    }
}

/// Tracks keyboard and mouse state across frames for edge detection.
pub struct Input {
    /// The keys, by scancode.
    pub keys: ButtonStates,
    /// The mouse buttons, by button code.
    pub mouse: ButtonStates,
}

impl Input {
    /// Both sets of buttons are well formed.
    pub open spec fn wf(&self) -> bool {
        self.keys.wf() && self.mouse.wf()
    }

    /// The input is down.
    pub open spec fn down(&self, source: InputSource) -> bool {
        match source {
            InputSource::Key(code) => self.keys.current().contains(code),
            InputSource::Mouse(code) => self.mouse.current().contains(code),
        }
    }

    /// The input is down and was not when the frame began.
    pub open spec fn pressed(&self, source: InputSource) -> bool {
        match source {
            InputSource::Key(code) => self.keys.current().contains(code)
                && !self.keys.previous().contains(code),
            InputSource::Mouse(code) => self.mouse.current().contains(code)
                && !self.mouse.previous().contains(code),
        }
    }

    /// Creates a new input tracker with no keys or buttons pressed.
    pub fn new() -> (input: Input)
        ensures
            input.wf(),
            input.keys.current() == Set::<i32>::empty(),
            input.keys.previous() == Set::<i32>::empty(),
            input.mouse.current() == Set::<i32>::empty(),
            input.mouse.previous() == Set::<i32>::empty(),
    {
        Input { keys: ButtonStates::new(), mouse: ButtonStates::new() }
    }

    /// Snapshots current state as previous. Called by the engine at end of frame.
    pub fn update(&mut self)
        ensures
            final(self).wf(),
            final(self).keys.current() == old(self).keys.current(),
            final(self).keys.previous() == old(self).keys.current(),
            final(self).mouse.current() == old(self).mouse.current(),
            final(self).mouse.previous() == old(self).mouse.current(),
    {
        self.keys.update();
        self.mouse.update();
    }

    /// Records a key press or release. Called by the engine from event polling.
    pub fn set_key(&mut self, scancode: i32, is_pressed: bool)
        requires
            old(self).wf(),
        ensures
            final(self).wf(),
            final(self).mouse == old(self).mouse,
            final(self).keys.previous() == old(self).keys.previous(),
            final(self).keys.current() == if is_pressed {
                old(self).keys.current().insert(scancode)
            } else {
                old(self).keys.current().remove(scancode)
            },
    {
        self.keys.set(scancode, is_pressed);
    }

    /// Returns `true` if the key is currently held down.
    pub fn is_key_down(&self, scancode: i32) -> (down: bool)
        ensures
            down == self.down(InputSource::Key(scancode)),
    {
        self.keys.is_down(scancode)
    }

    /// Returns `true` if the key was pressed this frame (edge-triggered).
    pub fn is_key_pressed(&self, scancode: i32) -> (pressed: bool)
        requires
            self.wf(),
        ensures
            pressed == self.pressed(InputSource::Key(scancode)),
    {
        self.keys.is_pressed(scancode)
    }

    /// Records a mouse button press or release. Called by the engine from event polling.
    pub fn set_mouse_button(&mut self, button: i32, is_pressed: bool)
        requires
            old(self).wf(),
        ensures
            final(self).wf(),
            final(self).keys == old(self).keys,
            final(self).mouse.previous() == old(self).mouse.previous(),
            final(self).mouse.current() == if is_pressed {
                old(self).mouse.current().insert(button)
            } else {
                old(self).mouse.current().remove(button)
            },
    {
        self.mouse.set(button, is_pressed);
    }

    /// Returns `true` if the mouse button is currently held down.
    pub fn is_mouse_down(&self, button: i32) -> (down: bool)
        ensures
            down == self.down(InputSource::Mouse(button)),
    {
        self.mouse.is_down(button)
    }

    /// Returns `true` if the mouse button was pressed this frame (edge-triggered).
    pub fn is_mouse_pressed(&self, button: i32) -> (pressed: bool)
        requires
            self.wf(),
        ensures
            pressed == self.pressed(InputSource::Mouse(button)),
    {
        self.mouse.is_pressed(button)
    }

    /// Returns `true` if any of the inputs is currently held down.
    pub fn any_down(&self, sources: &[InputSource]) -> (down: bool)
        ensures
            down == exists|i: int| 0 <= i < sources@.len() && self.down(#[trigger] sources@[i]),
    {
        let mut i: usize = 0;
        while i < sources.len()
            invariant
                i <= sources.len(),
                forall|k: int| 0 <= k < i ==> !self.down(#[trigger] sources@[k]),
            decreases sources.len() - i,
        {
            let down = match sources[i] {
                InputSource::Key(code) => self.is_key_down(code),
                InputSource::Mouse(code) => self.is_mouse_down(code),
            };
            if down {
                return true;
            }
            i += 1;
        }
        false
    }

    /// Returns `true` if any of the inputs was pressed this frame.
    pub fn any_pressed(&self, sources: &[InputSource]) -> (pressed: bool)
        requires
            self.wf(),
        ensures
            pressed == exists|i: int|
                0 <= i < sources@.len() && self.pressed(#[trigger] sources@[i]),
    {
        let mut i: usize = 0;
        while i < sources.len()
            invariant
                self.wf(),
                i <= sources.len(),
                forall|k: int| 0 <= k < i ==> !self.pressed(#[trigger] sources@[k]),
            decreases sources.len() - i,
        {
            let pressed = match sources[i] {
                InputSource::Key(code) => self.is_key_pressed(code),
                InputSource::Mouse(code) => self.is_mouse_pressed(code),
            };
            if pressed {
                return true;
            }
            i += 1;
        }
        false
    }
}

} // verus!
