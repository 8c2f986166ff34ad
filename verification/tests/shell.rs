use docweave::{shortcut_change, ShortcutChange};

#[test]
fn a_shortcut_follows_its_menu_item() {
    assert_eq!(shortcut_change(true, false), ShortcutChange::Register);
    assert_eq!(shortcut_change(false, true), ShortcutChange::Unregister);
    assert_eq!(shortcut_change(true, true), ShortcutChange::Keep);
    assert_eq!(shortcut_change(false, false), ShortcutChange::Keep);
}
