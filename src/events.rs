//! Window and input events that a platform layer sends into event queues.

use vstd::prelude::*;

verus! {

/// Request to end the application.
#[derive(Debug, Clone, Copy, PartialEq, Eq, Structural)]
pub struct AppQuit;

/// The window was resized.
#[derive(Debug, Clone, Copy, PartialEq, Eq, Structural)]
pub struct WindowResized {
    pub width: u32,
    pub height: u32,
}

/// The window gained or lost focus.
#[derive(Debug, Clone, Copy, PartialEq, Eq, Structural)]
pub struct WindowFocused {
    pub focused: bool,
}

/// The window moved.
#[derive(Debug, Clone, Copy, PartialEq, Eq, Structural)]
pub struct WindowMoved {
    pub x: i32,
    pub y: i32,
}

/// The user asked to close the window.
#[derive(Debug, Clone, Copy, PartialEq, Eq, Structural)]
pub struct WindowCloseRequested;

/// Text typed by the user.
#[derive(Debug, Clone, PartialEq, Eq)]
pub struct TextInput {
    pub text: String,
}

/// A key changed state.
#[derive(Debug, Clone, Copy, PartialEq, Eq, Structural)]
pub struct KeyboardInput {
    pub key: KeyCode,
    pub state: InputState,
}

/// Keyboard keys.
#[derive(Debug, Clone, Copy, PartialEq, Eq, Hash, Structural)]
pub enum KeyCode {
    Q,
    W,
    E,
    R,
    T,
    Y,
    U,
    I,
    O,
    P,
    A,
    S,
    D,
    F,
    G,
    H,
    J,
    K,
    L,
    Z,
    X,
    C,
    V,
    B,
    N,
    M,
    Num0,
    Num1,
    Num2,
    Num3,
    Num4,
    Num5,
    Num6,
    Num7,
    Num8,
    Num9,
    F1,
    F2,
    F3,
    F4,
    F5,
    F6,
    F7,
    F8,
    F9,
    F10,
    F11,
    F12,
    Up,
    Down,
    Left,
    Right,
    Home,
    End,
    PageUp,
    PageDown,
    Backspace,
    Delete,
    Insert,
    Tab,
    Enter,
    Escape,
    Space,
    LShift,
    RShift,
    LControl,
    RControl,
    LAlt,
    RAlt,
    LSuper,
    RSuper,
    CapsLock,
    NumLock,
    ScrollLock,
    PrintScreen,
    Pause,
    Minus,
    Equals,
    LeftBracket,
    RightBracket,
    Backslash,
    Semicolon,
    Apostrophe,
    Comma,
    Period,
    Slash,
    Grave,
}

/// A mouse button changed state.
#[derive(Debug, Clone, Copy, PartialEq, Eq, Structural)]
pub struct MouseButtonInput {
    pub button: MouseButton,
    pub state: InputState,
}

/// Whether a key or button went down or up.
#[derive(Debug, Clone, Copy, PartialEq, Eq, Structural)]
pub enum InputState {
    Pressed,
    Released,
}

/// Mouse buttons.
#[derive(Debug, Clone, Copy, PartialEq, Eq, Hash, Structural)]
pub enum MouseButton {
    Forward,
    Back,
    Left,
    Right,
    Middle,
    Other(u16),
}

/// The cursor entered the window.
#[derive(Debug, Clone, Copy, PartialEq, Eq, Structural)]
pub struct CursorEntered;

/// The cursor left the window.
#[derive(Debug, Clone, Copy, PartialEq, Eq, Structural)]
pub struct CursorLeft;

} // verus!
