use vstd::prelude::*;

verus! {

#[derive(Debug, Clone, Copy, PartialEq, Eq, Structural)]
pub enum Modifier {
    Shift,
    Control,
    Alt,
    Meta,
}

/// A set of modifiers, one bit each.
#[derive(Debug, Clone, Copy, PartialEq, Eq, Structural)]
pub struct Modifier2 {
    pub bits: u32,
}

pub const MODIFIER_SHIFT: u32 = 1;
pub const MODIFIER_CONTROL: u32 = 2;
pub const MODIFIER_ALT: u32 = 4;
pub const MODIFIER_META: u32 = 8;

/// The bit that stands for `m` in a `Modifier2`.
pub open spec fn modifier_bit(m: Modifier) -> u32 {
    match m {
        Modifier::Shift => MODIFIER_SHIFT,
        Modifier::Control => MODIFIER_CONTROL,
        Modifier::Alt => MODIFIER_ALT,
        Modifier::Meta => MODIFIER_META,
    }
}

impl Modifier2 {
    pub fn empty() -> (r: Self)
        ensures
            r.bits == 0,
    {
        Modifier2 { bits: 0 }
    }

    pub fn bit(m: Modifier) -> (r: u32)
        ensures
            r == modifier_bit(m),
    {
        match m {
            Modifier::Shift => MODIFIER_SHIFT,
            Modifier::Control => MODIFIER_CONTROL,
            Modifier::Alt => MODIFIER_ALT,
            Modifier::Meta => MODIFIER_META,
        }
    }

    pub fn with(&self, m: Modifier) -> (r: Self)
        ensures
            r.bits == self.bits | modifier_bit(m),
    {
        Modifier2 { bits: self.bits | Self::bit(m) }
    }

    pub fn contains(&self, m: Modifier) -> (r: bool)
        ensures
            r == (self.bits & modifier_bit(m) != 0),
    {
        self.bits & Self::bit(m) != 0
    }
}

#[derive(Debug, Clone, Copy, PartialEq, Eq, Structural)]
pub enum Key {
    Key1, Key2, Key3, Key4, Key5, Key6, Key7, Key8, Key9, Key0,
    A, B, C, D, E, F, G, H, I, J, K, L, M,
    N, O, P, Q, R, S, T, U, V, W, X, Y, Z,
    Escape,
    F1, F2, F3, F4, F5, F6, F7, F8, F9, F10, F11, F12,
    F13, F14, F15, F16, F17, F18, F19, F20, F21, F22, F23, F24,
    /// Print Screen/SysRq.
    Snapshot,
    /// Scroll Lock.
    Scroll,
    /// Pause/Break key, next to Scroll lock.
    Pause,
    /// `Insert`, next to Backspace.
    Insert,
    Home,
    Delete,
    End,
    PageDown,
    PageUp,
    Left,
    Up,
    Right,
    Down,
    /// The Backspace key, right over Enter.
    Backspace,
    /// The Enter key.
    Return,
    /// The space bar.
    Space,
    /// The "Compose" key on Linux.
    Compose,
    Caret,
    NumLock,
    Numpad0, Numpad1, Numpad2, Numpad3, Numpad4,
    Numpad5, Numpad6, Numpad7, Numpad8, Numpad9,
    NumpadAdd,
    NumpadDivide,
    NumpadDecimal,
    NumpadComma,
    NumpadEnter,
    NumpadEquals,
    NumpadMultiply,
    NumpadSubtract,
    AbntC1,
    AbntC2,
    Apostrophe,
    Apps,
    Asterisk,
    At,
    Ax,
    Backslash,
    Calculator,
    Capital,
    Colon,
    Comma,
    Convert,
    Equals,
    Grave,
    Kana,
    Kanji,
    LAlt,
    LBracket,
    LControl,
    LShift,
    LWin,
    Mail,
    MediaSelect,
    MediaStop,
    Minus,
    Mute,
    MyComputer,
    // also called "Next"
    NavigateForward,
    // also called "Prior"
    NavigateBackward,
    NextTrack,
    NoConvert,
    OEM102,
    Period,
    PlayPause,
    Plus,
    Power,
    PrevTrack,
    RAlt,
    RBracket,
    RControl,
    RShift,
    RWin,
    Semicolon,
    Slash,
    Sleep,
    Stop,
    Sysrq,
    Tab,
    Underline,
    Unlabeled,
    VolumeDown,
    VolumeUp,
    Wake,
    WebBack,
    WebFavorites,
    WebForward,
    WebHome,
    WebRefresh,
    WebSearch,
    WebStop,
    Yen,
    Copy,
    Paste,
    Cut,
}

#[derive(Debug, Clone, Copy, PartialEq, Eq, Structural)]
pub enum MouseButton {
    Primary,
    Secondary,
    Tertiary,
    Other(u16),
}

#[derive(Debug, Clone, Copy, PartialEq, Eq, Structural)]
pub struct KeyEvent {
    pub key: Key,
    pub is_down: bool,
    pub modifiers: Modifier2,
}

/// What a handler in a dispatch chain decided about an event.
#[derive(Debug, Clone, Copy, PartialEq, Eq, Structural)]
pub enum ChainResult<E> {
    Capture,
    Propagate,
    Intercept(E),
}

#[derive(Debug, Clone, Copy, PartialEq, Eq, Structural)]
pub enum FocusEvent {
    Gain,
    Lost,
}

#[derive(Debug, Clone, Copy, PartialEq, Eq, Structural)]
pub enum FocusResult {
    Accept,
    Reject,
}

impl crate::state::SameAs for Key {
    fn same_as(&self, other: &Self) -> (r: bool) {
        *self == *other
    }
}

impl crate::state::SameAs for MouseButton {
    fn same_as(&self, other: &Self) -> (r: bool) {
        *self == *other
    }
}

} // verus!
