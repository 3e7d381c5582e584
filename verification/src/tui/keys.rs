//! Key presses as the controller reads them.

use vstd::prelude::*;

verus! {

/// The key of a key press. Keys that the controller gives no meaning to
/// are all `Other`.
#[derive(Debug, Clone, Copy, PartialEq, Eq, Structural)]
pub enum KeyCode {
    Backspace,
    Enter,
    Left,
    Right,
    Up,
    Down,
    Tab,
    Esc,
    Char(char),
    Other,
}

/// The modifier keys held during a key press, one bit for each.
#[derive(Debug, Clone, Copy, PartialEq, Eq, Structural)]
pub struct KeyModifiers {
    pub bits: u8,
}

/// The bits of no modifier.
pub const MODIFIERS_NONE: u8 = 0;

/// The bit of the shift key.
pub const MODIFIERS_SHIFT: u8 = 1;

/// The bit of the control key.
pub const MODIFIERS_CONTROL: u8 = 2;

/// The bit of the alt key.
pub const MODIFIERS_ALT: u8 = 4;

impl KeyModifiers {
    /// Whether no modifier is held.
    pub open spec fn spec_is_empty(&self) -> bool {
        self.bits == 0
    }

    /// Whether the control key, and it alone, is held.
    pub open spec fn spec_is_control(&self) -> bool {
        self.bits == 2
    }

    /// No modifier.
    pub fn none() -> (m: KeyModifiers)
        ensures
            m.spec_is_empty(),
            m.bits == 0,
    {
        KeyModifiers { bits: MODIFIERS_NONE }
    }

    /// The control key alone.
    pub fn control() -> (m: KeyModifiers)
        ensures
            m.spec_is_control(),
            m.bits == 2,
    {
        KeyModifiers { bits: MODIFIERS_CONTROL }
    }

    /// Whether no modifier is held.
    #[verifier::when_used_as_spec(spec_is_empty)]
    pub fn is_empty(&self) -> (empty: bool)
        ensures
            empty == self.spec_is_empty(),
    {
        self.bits == MODIFIERS_NONE
    }

    /// Whether the control key, and it alone, is held.
    #[verifier::when_used_as_spec(spec_is_control)]
    pub fn is_control(&self) -> (control: bool)
        ensures
            control == self.spec_is_control(),
    {
        self.bits == MODIFIERS_CONTROL
    }
}

/// One key press.
#[derive(Debug, Clone, Copy, PartialEq, Eq, Structural)]
pub struct KeyEvent {
    pub code: KeyCode,
    pub modifiers: KeyModifiers,
}

impl KeyEvent {
    /// A key press with the given modifiers.
    pub fn new(code: KeyCode, modifiers: KeyModifiers) -> (key: KeyEvent)
        ensures
            key == (KeyEvent { code, modifiers }),
    {
        KeyEvent { code, modifiers }
    }

    /// A key press without modifiers.
    pub fn plain(code: KeyCode) -> (key: KeyEvent)
        ensures
            key == (KeyEvent { code, modifiers: KeyModifiers { bits: 0 } }),
    {
        KeyEvent { code, modifiers: KeyModifiers { bits: MODIFIERS_NONE } }
    }
}

} // verus!
