//! What a bound key press does, and the bindings of one window class.
use vstd::prelude::*;
use crate::types::KeyPress;

verus! {

/// What happens on a bound key press: another key press is sent in its place, a command is
/// started, or both. With neither, the key press is swallowed.
#[derive(Debug)]
pub struct Callback {
    pub remap: Option<KeyPress>,
    pub command: Option<Vec<String>>,
}

/// The value of a [`Callback`]: its key press and the words of its command.
pub struct CallbackView {
    pub remap: Option<KeyPress>,
    pub command: Option<Seq<String>>,
}

impl View for Callback {
    type V = CallbackView;

    open spec fn view(&self) -> CallbackView {
        CallbackView {
            remap: self.remap,
            command: match self.command {
                Some(words) => Some(words@),
                None => None,
            },
        }
    }
}

impl Clone for Callback {
    fn clone(&self) -> (copy: Self)
        ensures
            copy@ == self@,
    {
        let command = match &self.command {
            Some(words) => {
                let copied = words.clone();
                assert(copied@ =~= words@);
                Some(copied)
            },
            None => None,
        };
        Callback { remap: self.remap, command }
    }
}

impl Callback {
    /// A callback that sends `remap` in place of the bound key press.
    pub fn remap(remap: KeyPress) -> (callback: Self)
        ensures
            callback.remap == Some(remap),
            callback.command.is_none(),
    {
        Callback { remap: Some(remap), command: None }
    }

    /// A callback that starts `command`: its first word is the program, the others its
    /// arguments.
    pub fn command(command: Vec<String>) -> (callback: Self)
        ensures
            callback.remap.is_none(),
            callback.command == Some(command),
    {
        Callback { remap: None, command: Some(command) }
    }
}

/// The bindings of the windows of one class (`WM_CLASS`).
#[derive(Debug)]
pub struct ApplicationBindings {
    pub wm_class: String,
    pub bindings: Vec<(KeyPress, Callback)>,
}

/// The key presses and callback values of a list of bindings.
pub open spec fn bindings_view(bindings: Seq<(KeyPress, Callback)>) -> Seq<(KeyPress, CallbackView)> {
    bindings.map_values(|b: (KeyPress, Callback)| (b.0, b.1@))
}

} // verus!
