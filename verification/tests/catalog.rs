use wayfinder_core::catalog::{catalog, catalog_order};

fn w(id: &str, cat: &str, name: &str) -> (String, String, String) {
    (id.into(), cat.into(), name.into())
}

#[test]
fn the_catalog_puts_time_first_and_other_last() {
    let ws = vec![
        w("agents", "", "Agents"),
        w("drawer", "Launchers", "Drawer"),
        w("digital_clock", "Time", "Digital Clock"),
        w("games", "Games", "Games"),
        w("system_monitor", "System", "System Monitor"),
        w("clock", "Time", "Analog Clock"),
        w("icon_folder", "Launchers", "Icon Folder"),
    ];
    let ids: Vec<String> = catalog(&ws).into_iter().map(|(id, _)| id).collect();
    assert_eq!(ids, ["clock", "digital_clock", "system_monitor", "drawer", "icon_folder", "games", "agents"]);
    assert_eq!(catalog(&ws).last(), Some(&("agents".to_string(), "Other".to_string())), "no category is Other");
}

#[test]
fn equal_names_keep_their_order() {
    let ws = vec![w("b", "Media", "Player"), w("a", "Media", "Player"), w("c", "Other", "A"), w("d", "", "A")];
    assert_eq!(catalog_order(&ws), [0, 1, 2, 3]);
    assert_eq!(catalog_order(&Vec::new()), Vec::<usize>::new());
}

