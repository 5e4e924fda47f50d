//! Declarative keyboard shortcuts: a parser for key-combination strings, a
//! tracker of the keys that are held, a set of active scopes, and the matcher
//! that decides when a registered binding fires.

pub mod binding;
pub mod context;
pub mod hotkey;
pub mod laws;
pub mod presses;
pub mod scopes;
pub mod text;

pub use binding::{find_match, is_hotkey_match, is_last_key_match, parse_alternatives, within_scope, Binding};
pub use context::{provide_hotkeys_context, scopes, Firing, HotkeysContext};
pub use hotkey::{Hotkey, KeyboardModifiers, Modifier};
pub use presses::{clean_key, KeyPresses};
pub use scopes::ActiveScopes;
