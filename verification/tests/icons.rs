use wayfinder_core::icons::{from_files, Residency, GENERIC, ID_SEP};

fn icon(pack: &str) -> String {
    format!("icon:{pack}{ID_SEP}C:\\app.exe{ID_SEP}")
}

fn loaded(ids: &[&str]) -> Vec<(String, u64)> {
    ids.iter().map(|id| (id.to_string(), 10u64)).collect()
}

fn set(ids: &[&str]) -> Vec<String> {
    ids.iter().map(|id| id.to_string()).collect()
}

#[test]
fn only_file_and_pack_images_are_flushed_on_reload() {
    assert!(from_files("file:C:\\x.png") && from_files("thumb:256:C:\\x.png"));
    assert!(from_files(&icon("Neon")));
    assert!(!from_files(&icon("Default")), "a shell icon is expensive to extract again");
    assert!(!from_files(GENERIC));
}

#[test]
fn an_icon_with_no_pack_or_no_separator_is_not_from_files() {
    assert!(!from_files(&icon("")));
    assert!(!from_files("icon:Neon"));
    assert!(!from_files("files:C:\\x.png"));
}

#[test]
fn unused_images_stay_within_a_budget_then_go_oldest_first() {
    let mut r = Residency::new();
    assert!(r.settle(&loaded(&["a", "b", "c"]), &set(&["a", "b", "c"]), 25).is_empty(), "all drawn");
    assert!(r.settle(&loaded(&["a", "b", "c"]), &set(&["c"]), 25).is_empty(), "a and b idle, 20 bytes fit");
    assert!(r.settle(&loaded(&["a", "b", "c", "d"]), &set(&["b", "d"]), 25).is_empty(), "b drawn again, a and c idle");
    assert_eq!(r.settle(&loaded(&["a", "b", "c", "d"]), &set(&[]), 30), ["a"], "a idled first, so it goes first");
    assert_eq!(r.settle(&loaded(&["b", "c", "d"]), &set(&[]), 0), ["c", "b", "d"], "then in the order they idled");
    assert!(r.settle(&loaded(&["e"]), &set(&[]), 25).is_empty() && r.idle_len() == 1, "images no longer loaded are forgotten");
}

#[test]
fn new_idle_images_join_in_id_order_and_the_last_size_counts() {
    let mut r = Residency::new();
    let l = vec![("z".to_string(), 5u64), ("m".to_string(), 7), ("z".to_string(), 9)];
    assert!(r.settle(&l, &set(&[]), 100).is_empty());
    assert_eq!(r.idle_len(), 2);
    assert_eq!(r.settle(&l, &set(&[]), 9), ["m"], "m sorts first; z weighs 9, not 5");
    r.clear();
    assert_eq!(r.idle_len(), 0);
}

#[test]
fn a_budget_of_zero_drops_every_idle_image() {
    let mut r = Residency::new();
    assert_eq!(r.settle(&loaded(&["b", "a"]), &set(&["c"]), 0), ["a", "b"]);
    assert_eq!(r.idle_len(), 0);
}

use wayfinder_core::icons::{is_link, search_name, IconService, Upload};
use wayfinder_core::keyed::Keyed;

fn service() -> IconService {
    let mut packs = Keyed::new();
    packs.put("Neon".to_string(), "C:\\data\\iconpacks\\Neon".to_string());
    IconService::new(packs)
}

#[test]
fn ensure_says_what_to_upload_once() {
    let mut s = service();
    assert!(matches!(s.ensure("", false, false), Upload::Skip));
    assert!(matches!(s.ensure("file:C:\\a.png", true, false), Upload::Skip), "already on the GPU");
    assert!(matches!(s.ensure("file:C:\\a.png", false, false), Upload::File(p) if p == "C:\\a.png"));
    assert!(matches!(s.ensure("file:C:\\a.png", false, true), Upload::Skip), "tried before: the generic icon stands in");
    assert!(matches!(s.ensure(GENERIC, false, false), Upload::Generic));
    assert!(matches!(s.ensure("other:x", false, false), Upload::Generic));
    match s.ensure(&icon("Neon"), false, false) {
        Upload::Icon { target, explicit, pack_dir } => {
            assert_eq!((target.as_str(), explicit.as_str(), pack_dir.as_deref()), ("C:\\app.exe", "", Some("C:\\data\\iconpacks\\Neon")));
        }
        _ => panic!("an app icon"),
    }
    match s.ensure("icon:Gone|C:\\b.lnk", false, false) {
        Upload::Icon { target, explicit, pack_dir } => assert_eq!((target.as_str(), explicit.as_str(), pack_dir), ("C:\\b.lnk", "", None)),
        _ => panic!("an app icon"),
    }
    assert!(matches!(s.ensure("thumb:64:C:\\p.png", false, false), Upload::Skip));
    assert!(s.pending(), "a small copy is on its way");
}

#[test]
fn a_reload_flushes_only_file_and_pack_images() {
    let mut s = service();
    for id in ["file:C:\\a.png", GENERIC, "icon:Default|C:\\x.exe|", "icon:Neon|C:\\y.exe|"] {
        s.ensure(id, false, false);
    }
    let mut flushed = s.flush_files();
    flushed.sort();
    assert_eq!(flushed, ["file:C:\\a.png", "icon:Neon|C:\\y.exe|"]);
    let mut left = s.droppable();
    left.sort();
    assert_eq!(left, ["icon:Default|C:\\x.exe|"], "the generic icon is never dropped");
    assert!(s.flush_files().is_empty());
}

#[test]
fn unused_images_are_dropped_and_forgotten() {
    let mut s = service();
    s.ensure("file:a", false, false);
    s.ensure("file:b", false, false);
    let loaded = vec![("file:a".to_string(), 10u64), ("file:b".to_string(), u64::MAX)];
    let dropped = s.release_unused(&loaded, &vec!["file:a".to_string()]);
    assert_eq!(dropped, ["file:b"], "past the budget");
    assert_eq!(s.droppable(), ["file:a"]);
    s.forget();
    assert!(s.droppable().is_empty());
}

#[test]
fn links_have_no_file_and_bare_names_are_searched() {
    assert!(is_link("https://example.com/") && !is_link("C:\\x.exe"));
    assert_eq!(search_name("notepad").as_deref(), Some("notepad.exe"));
    assert_eq!(search_name("notepad.exe").as_deref(), Some("notepad.exe"));
    assert_eq!(search_name("C:\\Windows\\notepad.exe"), None);
}

#[test]
fn an_icon_pack_is_searched_by_stem_then_by_file_name() {
    assert_eq!(wayfinder_core::icons::pack_names(r"C:\Users\me\Desktop\Chrome.lnk"), ["chrome.png", "chrome.lnk.png"]);
    assert_eq!(wayfinder_core::icons::pack_names("notes"), ["notes.png", "notes.png"]);
    assert!(wayfinder_core::icons::pack_names(r"C:\a\..").is_empty(), "no file name, no candidates");
}
