use linux_system_monitor::table::display_name;

#[test]
fn short_names_are_shown_whole() {
    assert_eq!(display_name("bash"), "bash");
    assert_eq!(display_name("abcdefghijklmnopqrstuvwxy"), "abcdefghijklmnopqrstuvwxy");
}

#[test]
fn long_names_are_cut_after_twenty_two_bytes() {
    assert_eq!(display_name("abcdefghijklmnopqrstuvwxyz"), "abcdefghijklmnopqrstuv...");
    assert_eq!(display_name("gnome-session-binary-helper"), "gnome-session-binary-h...");
}

#[test]
fn long_names_with_wide_characters_cut_at_bytes() {
    // 20 ASCII bytes, then a two-byte character ending at byte 22.
    let name = "aaaaaaaaaaaaaaaaaaaaébbbbbb";
    assert_eq!(display_name(name), "aaaaaaaaaaaaaaaaaaaaé...");
}
