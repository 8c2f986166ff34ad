//! Decisions of the application shell that need no window to be made.

use vstd::prelude::*;

verus! {

/// What to do about a global shortcut.
#[derive(Clone, Copy, Debug, PartialEq, Eq, Structural)]
pub enum ShortcutChange {
    /// Register it.
    Register,
    /// Unregister it.
    Unregister,
    /// Leave it as it is.
    Keep,
}

/// What to do about the shortcut of a menu item that is to be enabled or
/// disabled: a shortcut is registered while its item is enabled, and never
/// twice.
pub fn shortcut_change(enabled: bool, registered: bool) -> (change: ShortcutChange)
    ensures
        change == ShortcutChange::Register <==> enabled && !registered,
        change == ShortcutChange::Unregister <==> !enabled && registered,
        change == ShortcutChange::Keep <==> enabled == registered,
{
    if enabled && !registered {
        ShortcutChange::Register
    } else if !enabled && registered {
        ShortcutChange::Unregister
    } else {
        ShortcutChange::Keep
    }
}

} // verus!
