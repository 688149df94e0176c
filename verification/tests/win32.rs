use wayfinder_core::platform::win32::{
    association_command, association_exe, blur_window_attributes, file_owner_of, is_desktop_shown, open_command_key, registration, same_file, FileOwner,
    ZMode,
};

#[test]
fn blur_off_returns_to_the_never_blurred_corners() {
    assert_eq!(blur_window_attributes(true, 3), (3, 3));
    assert_eq!(blur_window_attributes(false, 3), (0, 0));
}

#[test]
fn shown_exactly_when_the_host_is_above_the_sentinel() {
    assert_eq!(is_desktop_shown(&[10, 20, 30, 99, 50], 50, 99), Some(false));
    assert_eq!(is_desktop_shown(&[10, 50, 20, 99], 50, 99), Some(true));
    assert_eq!(is_desktop_shown(&[99, 50], 50, 99), Some(false));
    assert_eq!(is_desktop_shown(&[50, 99], 50, 99), Some(true));
}

#[test]
fn missing_windows_mean_unknown_not_shown() {
    assert_eq!(is_desktop_shown(&[1, 2, 3], 50, 99), None, "no host: the shell is not running");
    assert_eq!(is_desktop_shown(&[1, 50, 3], 50, 99), None, "no sentinel yet");
}

#[test]
fn association_command_quotes_exe_and_file() {
    let exe = "C:\\Program Files\\Wayfinder\\wayfinder.exe";
    assert_eq!(association_command(exe), "\"C:\\Program Files\\Wayfinder\\wayfinder.exe\" --install \"%1\"");
    assert_eq!(association_exe(&association_command(exe)).as_deref(), Some(exe));
    assert_eq!(association_exe("C:\\x.exe --install %1").as_deref(), Some("C:\\x.exe"));
}

fn is(o: &FileOwner, want: &FileOwner) -> bool {
    match (o, want) {
        (FileOwner::Me, FileOwner::Me) | (FileOwner::Nobody, FileOwner::Nobody) => true,
        (FileOwner::Other(a), FileOwner::Other(b)) => a == b,
        _ => false,
    }
}

#[test]
fn two_builds_never_take_plugin_files_from_each_other() {
    let me = "C:\\Apps\\wayfinder-extra.exe";
    let other = "C:\\Apps\\wayfinder.exe";
    let class = Some("Wayfinder.Plugin");
    let cmd = |p: &str| Some(association_command(p));
    let both_exist = |_: &str| true;
    assert!(is(&file_owner_of(class, cmd(me).as_deref(), me, both_exist), &FileOwner::Me));
    assert!(is(&file_owner_of(class, cmd(other).as_deref(), me, both_exist), &FileOwner::Other(other.into())), "the other build keeps them");
    assert!(is(&file_owner_of(class, cmd(other).as_deref(), me, |p: &str| p != other), &FileOwner::Nobody), "a build that is gone holds nothing");
    assert!(is(&file_owner_of(None, None, me, both_exist), &FileOwner::Nobody));
    assert!(is(&file_owner_of(Some("SomeZipTool"), cmd(other).as_deref(), me, both_exist), &FileOwner::Nobody), "the extension points elsewhere");
    let upper = "C:\\APPS\\WAYFINDER-EXTRA.EXE";
    assert!(is(&file_owner_of(class, cmd(upper).as_deref(), me, both_exist), &FileOwner::Nobody), "ours with an outdated command: rewrite it, never call it someone else's");
}

#[test]
fn association_exe_reads_quoted_and_bare_commands() {
    assert_eq!(association_exe("  \"C:\\a b\\x.exe\" \"%1\""), Some("C:\\a b\\x.exe".to_string()));
    assert_eq!(association_exe("\"C:\\unclosed"), Some("C:\\unclosed".to_string()));
    assert_eq!(association_exe("\"\" x"), None);
    assert_eq!(association_exe("   "), None);
}

#[test]
fn same_file_ignores_case_and_slash_direction() {
    assert!(same_file("C:/Apps/X.exe", "c:\\apps\\x.EXE"));
    assert!(!same_file("C:\\Apps\\x.exe", "C:\\Apps\\y.exe"));
}

#[test]
fn zmodes_parse_by_name() {
    assert_eq!(ZMode::parse("desktop"), Some(ZMode::Desktop));
    assert_eq!(ZMode::parse("topmost"), Some(ZMode::Topmost));
    assert_eq!(ZMode::parse("Topmost"), None);
}

#[test]
fn registering_writes_only_when_the_files_are_free_or_taken() {
    assert!(matches!(registration(FileOwner::Me, false), Some((FileOwner::Me, false))));
    assert!(matches!(registration(FileOwner::Me, true), Some((FileOwner::Me, false))));
    assert!(matches!(registration(FileOwner::Other("C:\\b.exe".into()), false), Some((FileOwner::Other(p), false)) if p == "C:\\b.exe"));
    assert!(registration(FileOwner::Other("C:\\b.exe".into()), true).is_none());
    assert!(registration(FileOwner::Nobody, false).is_none());
    assert_eq!(open_command_key(), "Software\\Classes\\Wayfinder.Plugin\\shell\\open\\command");
}

#[test]
fn a_command_names_the_exe_it_was_made_for() {
    for exe in ["C:\\Apps\\wayfinder.exe", "C:\\Program Files\\Way Finder\\wf.exe", "x"] {
        assert_eq!(association_exe(&association_command(exe)).as_deref(), Some(exe));
    }
}
