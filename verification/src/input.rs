//! Keyboard and mouse-button state with per-frame edge detection. Keys are
//! identified by an integer code; pointer position and wheel travel are
//! tracked by the windowing layer.

use vstd::prelude::*;
use std::collections::HashSet;

verus! {

broadcast use vstd::std_specs::hash::group_hash_axioms;

/// Mouse buttons tracked: left, right, middle.
pub const MOUSE_BUTTONS: usize = 3;

pub struct Input {
    down: HashSet<u32>,
    pressed: HashSet<u32>,
    released: HashSet<u32>,
    mouse_down: [bool; 3],
    mouse_pressed: [bool; 3],
}

impl Input {
    /// Keys currently held.
    pub closed spec fn held(&self) -> Set<u32> {
        self.down@
    }

    /// Keys that went down this frame.
    pub closed spec fn went_down(&self) -> Set<u32> {
        self.pressed@
    }

    /// Keys that went up this frame.
    pub closed spec fn went_up(&self) -> Set<u32> {
        self.released@
    }

    /// Buttons currently held.
    pub closed spec fn buttons_held(&self) -> Seq<bool> {
        self.mouse_down@
    }

    /// Buttons that went down this frame.
    pub closed spec fn buttons_went_down(&self) -> Seq<bool> {
        self.mouse_pressed@
    }

    pub fn new() -> (r: Self)
        ensures
            r.held() == Set::<u32>::empty(),
            r.went_down() == Set::<u32>::empty(),
            r.went_up() == Set::<u32>::empty(),
            r.buttons_held() == seq![false, false, false],
            r.buttons_went_down() == seq![false, false, false],
    {
        Input {
            down: HashSet::new(),
            pressed: HashSet::new(),
            released: HashSet::new(),
            mouse_down: [false, false, false],
            mouse_pressed: [false, false, false],
        }
    }

    pub fn key_down(&self, k: u32) -> (r: bool)
        ensures
            r == self.held().contains(k),
    {
        self.down.contains(&k)
    }

    /// True only on the frame the key went down.
    pub fn key_pressed(&self, k: u32) -> (r: bool)
        ensures
            r == self.went_down().contains(k),
    {
        self.pressed.contains(&k)
    }

    pub fn key_released(&self, k: u32) -> (r: bool)
        ensures
            r == self.went_up().contains(k),
    {
        self.released.contains(&k)
    }

    /// Whether button `b` is held; false for an unknown button.
    pub fn mouse_down(&self, b: usize) -> (r: bool)
        ensures
            r == (b < MOUSE_BUTTONS && self.buttons_held()[b as int]),
    {
        if b < 3 {
            self.mouse_down[b]
        } else {
            false
        }
    }

    /// Whether button `b` went down this frame; false for an unknown button.
    pub fn mouse_pressed(&self, b: usize) -> (r: bool)
        ensures
            r == (b < MOUSE_BUTTONS && self.buttons_went_down()[b as int]),
    {
        if b < 3 {
            self.mouse_pressed[b]
        } else {
            false
        }
    }

    /// A key changed state. A press of a key that is already held (key
    /// repeat) is not a new edge.
    pub fn key_event(&mut self, code: u32, is_press: bool)
        ensures
            is_press ==> {
                &&& final(self).held() == old(self).held().insert(code)
                &&& final(self).went_down() == if old(self).held().contains(code) {
                    old(self).went_down()
                } else {
                    old(self).went_down().insert(code)
                }
                &&& final(self).went_up() == old(self).went_up()
            },
            !is_press ==> {
                &&& final(self).held() == old(self).held().remove(code)
                &&& final(self).went_up() == old(self).went_up().insert(code)
                &&& final(self).went_down() == old(self).went_down()
            },
            final(self).buttons_held() == old(self).buttons_held(),
            final(self).buttons_went_down() == old(self).buttons_went_down(),
    {
        if is_press {
            if self.down.insert(code) {
                self.pressed.insert(code);
            }
        } else {
            self.down.remove(&code);
            self.released.insert(code);
        }
    }

    /// Mouse button `i` changed state (`i < MOUSE_BUTTONS`).
    pub fn mouse_event(&mut self, i: usize, is_press: bool)
        requires
            i < MOUSE_BUTTONS,
        ensures
            final(self).held() == old(self).held(),
            final(self).went_down() == old(self).went_down(),
            final(self).went_up() == old(self).went_up(),
            final(self).buttons_held() == old(self).buttons_held().update(i as int, is_press),
            final(self).buttons_went_down() == if is_press && !old(self).buttons_held()[i as int] {
                old(self).buttons_went_down().update(i as int, true)
            } else {
                old(self).buttons_went_down()
            },
    {
        if is_press {
            if !self.mouse_down[i] {
                self.mouse_pressed.set(i, true);
            }
            self.mouse_down.set(i, true);
        } else {
            self.mouse_down.set(i, false);
        }
    }

    /// Clears the per-frame edges; held keys and buttons stay held.
    pub fn end_frame(&mut self)
        ensures
            final(self).held() == old(self).held(),
            final(self).went_down() == Set::<u32>::empty(),
            final(self).went_up() == Set::<u32>::empty(),
            final(self).buttons_held() == old(self).buttons_held(),
            final(self).buttons_went_down() == seq![false, false, false],
    {
        self.pressed.clear();
        self.released.clear();
        self.mouse_pressed = [false, false, false];
    }
}

} // verus!
