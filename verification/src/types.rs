//! Key presses and the bindings made of them.
use vstd::prelude::*;

verus! {

/// A key, given by its keysym, pressed together with a modifier mask.
#[derive(Clone, Copy, Debug, PartialEq, Eq, Structural, Hash, PartialOrd, Ord)]
pub struct KeyPress {
    pub key: u32,
    pub mask: u32,
}

impl KeyPress {
    pub fn new(key: u32, mask: u32) -> (kp: Self)
        ensures
            kp.key == key,
            kp.mask == mask,
    {
        KeyPress { key, mask }
    }
}

/// A key with a modifier mask, restricted to windows of a class where one is given.
#[derive(Clone, Debug, PartialEq, Eq, Hash, PartialOrd, Ord)]
pub struct Binding {
    pub key: u32,
    pub mask: u32,
    pub class: Option<String>,
}

impl Binding {
    pub fn new(key: u32, mask: u32, class: Option<String>) -> (b: Self)
        ensures
            b.key == key,
            b.mask == mask,
            b.class == class,
    {
        Binding { key, mask, class }
    }
}

} // verus!
