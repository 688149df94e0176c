use wayfinder_core::workspace::{nearest_monitor, next_id, Flag, MonitorRef};

#[test]
fn header_drag_is_the_one_flag() {
    assert_eq!(Flag::parse("header_drag"), Some(Flag::HeaderDrag));
    assert_eq!(Flag::parse("header-drag"), None);
    assert_eq!(Flag::HeaderDrag.id(), "header_drag");
    assert_eq!(Flag::HeaderDrag.label(), "Move by header");
    assert_eq!(Flag::HeaderDrag.help(), "Drag the top strip of any widget to move it, without Edit layout");
}

#[test]
fn a_new_instance_takes_the_first_free_number() {
    let ids: Vec<String> = ["clock-1", "clock-3", "drawer-1"].iter().map(|s| s.to_string()).collect();
    assert_eq!(next_id(&ids, "clock"), "clock-2");
    assert_eq!(next_id(&ids, "drawer"), "drawer-2");
    assert_eq!(next_id(&ids, "notes"), "notes-1");
    assert_eq!(next_id(&[], "x"), "x-1");
}

#[test]
fn the_nearest_monitor_wins_and_ties_go_to_the_first() {
    let mons = [(0, 0, 1920u32, 1080u32), (1920, 0, 1920, 1080)];
    assert_eq!(nearest_monitor(&mons, (100, 50)), Some(0));
    assert_eq!(nearest_monitor(&mons, (2220, 200)), Some(1));
    assert_eq!(nearest_monitor(&mons, (5000, 200)), Some(1), "off to the right");
    assert_eq!(nearest_monitor(&mons, (1920, 200)), Some(0), "on the seam both are at 0: the first");
    assert_eq!(nearest_monitor(&[], (0, 0)), None);
    let m = MonitorRef { name: "\\\\.\\DISPLAY1".into(), width: 1920, height: 1080 };
    assert_eq!(m.clone(), m);
}

#[test]
fn old_style_params_move_to_style_tokens() {
    let pairs = |w: &str| wayfinder_core::workspace::moved_to_style(w);
    assert_eq!(pairs("clock"), [("accent".to_string(), "accent".to_string())]);
    assert_eq!(pairs("digital_clock").len(), 1);
    assert_eq!(pairs("drawer")[1], ("opacity".to_string(), "bg-opacity".to_string()));
    assert!(pairs("notes").is_empty());
}

fn keyed_of(entries: &[(&str, &str)]) -> wayfinder_core::keyed::Keyed<String> {
    let mut k = wayfinder_core::keyed::Keyed::new();
    for (a, b) in entries {
        k.put(a.to_string(), b.to_string());
    }
    k
}

fn entries_of(k: wayfinder_core::keyed::Keyed<String>) -> Vec<(String, String)> {
    k.into_entries()
}

#[test]
fn a_version_one_style_moves_into_the_style_table() {
    let mut style = keyed_of(&[("accent", "#111111"), ("radius", "8")]);
    let overrides = keyed_of(&[("accent", "#222222"), ("font", "Inter")]);
    wayfinder_core::workspace::migrate_style(&mut style, overrides, Some(true), Some(false), "on".into(), "off".into());
    let got: Vec<(String, String)> = entries_of(style);
    let want: Vec<(String, String)> = [("accent", "#222222"), ("blur", "on"), ("font", "Inter"), ("outlines", "off"), ("radius", "8")]
        .iter()
        .map(|(a, b)| (a.to_string(), b.to_string()))
        .collect();
    assert_eq!(got, want, "overrides win; blur on and outlines off become flags");
    let mut style = keyed_of(&[]);
    wayfinder_core::workspace::migrate_style(&mut style, keyed_of(&[]), Some(false), Some(true), "on".into(), "off".into());
    assert!(entries_of(style).is_empty(), "blur off and outlines on are the defaults: nothing to keep");
}

#[test]
fn a_drawers_old_look_params_become_its_style() {
    let mut params = keyed_of(&[("opacity", "0.4"), ("tint", "#000"), ("path", "C:\\x")]);
    let mut style = keyed_of(&[("tint", "#fff")]);
    wayfinder_core::workspace::migrate_params("drawer", &mut params, &mut style);
    assert_eq!(entries_of(params), [("path".to_string(), "C:\\x".to_string())]);
    assert_eq!(entries_of(style), [("bg-opacity".to_string(), "0.4".to_string()), ("tint".to_string(), "#000".to_string())]);
    let mut params = keyed_of(&[("accent", "#f00")]);
    let mut style = keyed_of(&[]);
    wayfinder_core::workspace::migrate_params("gauge", &mut params, &mut style);
    assert_eq!(entries_of(params).len(), 1, "a gauge kept nothing as params that moved");
}
