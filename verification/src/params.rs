//! Plain value types describing input events as the dispatch engine sees
//! them: key identity plus modifier flags, mouse button plus modifier flags,
//! and clipboard payloads.

use vstd::prelude::*;

verus! {

/// A mouse click: which button, and which modifier keys were held.
#[derive(Clone, Copy, PartialEq, Eq, Structural, Debug)]
pub struct ClickInfo {
    pub button: i16,
    pub control_down: bool,
    pub shift_down: bool,
    pub alt_down: bool,
    pub meta_down: bool,
}

impl ClickInfo {
    pub fn new(button: i16, control_down: bool, shift_down: bool, alt_down: bool, meta_down: bool)
        -> (r: ClickInfo)
        ensures
            r == (ClickInfo { button, control_down, shift_down, alt_down, meta_down }),
    {
        ClickInfo { button, control_down, shift_down, alt_down, meta_down }
    }

    pub fn get_button(&self) -> (r: i16)
        ensures
            r == self.button,
    {
        self.button
    }

    pub fn is_control_down(&self) -> (r: bool)
        ensures
            r == self.control_down,
    {
        self.control_down
    }

    pub fn is_shift_down(&self) -> (r: bool)
        ensures
            r == self.shift_down,
    {
        self.shift_down
    }

    pub fn is_alt_down(&self) -> (r: bool)
        ensures
            r == self.alt_down,
    {
        self.alt_down
    }

    pub fn is_meta_down(&self) -> (r: bool)
        ensures
            r == self.meta_down,
    {
        self.meta_down
    }
}

/// A key event: the key's identity string and the modifier keys held.
#[derive(Clone, Debug)]
pub struct KeyInfo {
    pub key: String,
    pub control_down: bool,
    pub shift_down: bool,
    pub alt_down: bool,
    pub meta_down: bool,
}

impl KeyInfo {
    pub fn new(key: String, control_down: bool, shift_down: bool, alt_down: bool, meta_down: bool)
        -> (r: KeyInfo)
        ensures
            r == (KeyInfo { key, control_down, shift_down, alt_down, meta_down }),
    {
        KeyInfo { key, control_down, shift_down, alt_down, meta_down }
    }

    pub fn get_key(&self) -> (r: &str)
        ensures
            r@ == self.key@,
    {
        self.key.as_str()
    }

    pub fn is_control_down(&self) -> (r: bool)
        ensures
            r == self.control_down,
    {
        self.control_down
    }

    pub fn is_shift_down(&self) -> (r: bool)
        ensures
            r == self.shift_down,
    {
        self.shift_down
    }

    pub fn is_alt_down(&self) -> (r: bool)
        ensures
            r == self.alt_down,
    {
        self.alt_down
    }

    pub fn is_meta_down(&self) -> (r: bool)
        ensures
            r == self.meta_down,
    {
        self.meta_down
    }
}

/// Data carried by clipboard events.  Text is the only supported payload.
#[derive(Clone, PartialEq, Debug)]
pub enum ClipboardData {
    Text(String),
}

} // verus!
