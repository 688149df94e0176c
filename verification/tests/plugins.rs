use wayfinder_core::toml_doc::TomlField;
use wayfinder_core::plugins::{
    hidden_instances, inside_plugins, is_content_change, item_word, newer, roots, rows, valid_id, Catalog, Item, Manifest, Origin, Plugin, PluginContents, Shadow,
    PluginStore,
};

const OK: &str = "id = 'sunset'\nname = 'Sunset'\nversion = '1.2.0'\nauthor = 'Ada'";

#[test]
fn manifest_needs_id_name_version() {
    let m = Manifest::parse(OK).unwrap();
    assert_eq!(
        (m.id.as_str(), m.name.as_str(), m.version.as_str(), m.author.as_str()),
        ("sunset", "Sunset", "1.2.0", "Ada")
    );
    for key in ["id", "name", "version"] {
        let src: String = OK.lines().filter(|l| !l.starts_with(key)).collect::<Vec<_>>().join("\n");
        assert_eq!(Manifest::parse(&src).err().unwrap(), format!("missing `{key}`"));
    }
}

#[test]
fn manifest_rejects_unknown_keys_with_a_suggestion() {
    let e = Manifest::parse(&format!("{OK}\nautor = 'x'")).err().unwrap();
    assert!(e.contains("`autor`") && e.contains("did you mean `author`"), "{e}");
}

#[test]
fn manifest_rejects_code_in_v1() {
    let e = Manifest::parse(&format!("{OK}\n[code]\nmodule = 'x.wasm'")).err().unwrap();
    assert!(e.contains("newer Wayfinder"), "{e}");
}

#[test]
fn manifest_rejects_a_newer_engine() {
    let src = format!("{OK}\nwayfinder = '0.10'");
    assert!(Manifest::parse_for(&src, "0.9.3").err().unwrap().contains("0.10 or newer"));
    assert!(Manifest::parse_for(&src, "0.10.0").is_ok());
    assert!(Manifest::parse_for(&src, "1.0").is_ok());
}

#[test]
fn ids_reject_separators_uppercase_and_reserved_names() {
    for good in ["sunset", "neon-pack", "a1", "x_y"] {
        assert!(valid_id(good).is_ok(), "{good}");
    }
    let long = "x".repeat(65);
    for bad in ["", "Sunset", "a:b", "a|b", "a b", "-lead", "../x", "con", "com1", "lpt9", long.as_str()] {
        assert!(valid_id(bad).is_err(), "{bad}");
    }
    assert!(valid_id("common").is_ok(), "only the exact device names are reserved");
}

#[test]
fn content_changes_include_plugin_folders_not_staging() {
    let data = "C:\\Users\\a\\AppData\\Roaming\\Wayfinder";
    let yes = ["plugins\\sunset", "plugins\\sunset\\widgets\\w.toml", "widgets\\x.toml", "fonts\\a.TTF", "iconpacks\\Neon\\chrome.png"];
    let no = ["workspace.json", "wayfinder.log", "plugins\\.staging-3\\plugin.toml", ".tools\\skills\\x\\SKILL.md", "drawers\\drawer-1\\app.lnk", "plugins"];
    for p in yes {
        assert!(is_content_change(data, &format!("{data}\\{p}")), "{p}");
    }
    for p in no {
        assert!(!is_content_change(data, &format!("{data}\\{p}")), "{p}");
    }
    assert!(!is_content_change(data, "D:\\elsewhere\\x.toml"));
}

#[test]
fn a_plugin_can_never_launch_its_own_files() {
    let data = "C:\\Users\\a\\AppData\\Roaming\\Wayfinder";
    assert!(inside_plugins(data, "C:\\Users\\a\\AppData\\Roaming\\Wayfinder\\plugins\\evil\\run.exe"));
    assert!(inside_plugins(data, "c:\\users\\A\\appdata\\roaming\\wayfinder\\PLUGINS\\evil\\run.bat"));
    assert!(inside_plugins(data, "C:\\Users\\a\\AppData\\Roaming\\Wayfinder\\widgets\\..\\plugins\\evil\\x.lnk"));
    assert!(!inside_plugins(data, "C:\\Windows\\notepad.exe"));
    assert!(!inside_plugins(data, "https://example.com"));
    assert!(!inside_plugins(data, "C:\\Users\\a\\AppData\\Roaming\\Wayfinder\\drawers\\drawer-1\\app.lnk"));
}

#[test]
fn versions_compare_by_number() {
    assert!(newer("1.10", "1.9") && newer("2", "1.9.9") && !newer("1.2", "1.2.0") && !newer("0.1", "0.1.0"));
}

#[test]
fn a_version_is_never_newer_than_itself_and_order_is_one_way() {
    for (a, b) in [("1.10", "1.9"), ("2", "1.9.9"), ("0.10", "0.9.3"), ("1.0", "0.10.0")] {
        assert!(newer(a, b) && !newer(b, a), "{a} {b}");
        assert!(!newer(a, a));
    }
}

#[test]
fn version_parts_ignore_trailing_text_and_huge_numbers() {
    assert!(newer("1.2-beta", "1.1"));
    assert!(!newer("1.x", "1.0"), "a part without digits is 0");
    assert!(!newer("99999999999999999999999", "0"), "a number past u64 reads as 0");
    assert!(newer("1.18446744073709551615", "1.18446744073709551614"));
}

#[test]
fn manifest_fields_are_trimmed_and_optional_ones_default() {
    let m = Manifest::parse("id = ' sunset '\nname = 'Sunset'\nversion = '1'\nhomepage = 'https://x'").unwrap();
    assert_eq!(m.id, "sunset");
    assert_eq!(m.author, "");
    assert_eq!(m.homepage.as_deref(), Some("https://x"));
    assert_eq!(m.wayfinder, None);
    let e = Manifest::parse("id = 3\nname = 'Sunset'\nversion = '1'").err().unwrap();
    assert_eq!(e, "`id` must be text");
    let e = Manifest::parse("id = 'Sunset'\nname = 'Sunset'\nversion = '1'").err().unwrap();
    assert!(e.starts_with("id `Sunset`: use 1 to 64"), "{e}");
    let e = Manifest::parse("id = 'con'\nname = 'x'\nversion = '1'").err().unwrap();
    assert_eq!(e, "id `con` is a reserved Windows name");
    let e = Manifest::parse("id = 'x'\nname = '  '\nversion = '1'").err().unwrap();
    assert_eq!(e, "missing `name`");
    assert!(Manifest::parse("id = ").is_err(), "a parse error is an error");
}

#[test]
fn an_unknown_key_far_from_every_key_gets_no_suggestion() {
    let e = Manifest::parse(&format!("{OK}\nzzzzzz = 1")).err().unwrap();
    assert_eq!(e, "unknown key `zzzzzz`");
}

#[test]
fn roots_skip_broken_and_disabled_plugins_in_list_order() {
    let p = |id: &str, ok: bool| Plugin {
        id: id.to_string(),
        dir: format!("D:\\plugins\\{id}"),
        manifest: if ok { Manifest::parse(&OK.replace("sunset", id)) } else { Err("no plugin.toml".into()) },
    };
    let list = vec![p("a", true), p("b", true), p("broken", false), p("c", true)];
    let r = roots(&list, &["b".to_string()]);
    let ids: Vec<&str> = r.iter().map(|r| r.id.as_str()).collect();
    assert_eq!(ids, ["a", "c"]);
    assert_eq!(r[1].dir, "D:\\plugins\\c");
    assert_eq!(list[0].name(), "Sunset");
    assert_eq!(list[2].name(), "broken");
}

#[test]
fn the_store_lives_in_the_plugins_folder() {
    assert_eq!(PluginStore::new("C:\\Data\\Wayfinder").dir(), "C:\\Data\\Wayfinder\\plugins");
    assert_eq!(PluginStore::new("C:\\Data\\").dir(), "C:\\Data\\plugins");
}

#[test]
fn item_words_name_each_kind() {
    assert_eq!(item_word(Item::FontSet), "font set");
    assert_eq!(item_word(Item::IconPack), "icon pack");
    assert_eq!(item_word(Item::Widget), "widget");
}

#[test]
fn removing_a_plugin_takes_the_instances_of_its_sole_widgets() {
    let row = wayfinder_core::plugins::PluginRow { sole_widgets: vec!["agents".into()], ..Default::default() };
    let inst = |id: &str, w: &str| (id.to_string(), w.to_string());
    let all = vec![inst("agents-1", "agents"), inst("clock-1", "clock"), inst("agents-2", "agents")];
    assert_eq!(row.orphans(&all), ["agents-1", "agents-2"]);
    assert!(wayfinder_core::plugins::PluginRow::default().orphans(&all).is_empty());
}

#[test]
fn a_folder_manifest_must_exist_parse_and_name_its_folder() {
    assert_eq!(wayfinder_core::plugins::read_manifest("weather", None).err().unwrap(), "no plugin.toml");
    assert_eq!(wayfinder_core::plugins::read_manifest("weather", Some("name = 'W'\nversion = '1'")).err().unwrap(), "plugin.toml: missing `id`");
    assert_eq!(
        wayfinder_core::plugins::read_manifest("weather", Some("id = 'other'\nname = 'W'\nversion = '1'")).err().unwrap(),
        "plugin.toml says id `other`, but its folder is `weather`"
    );
    assert_eq!(wayfinder_core::plugins::read_manifest("weather", Some("id = 'weather'\nname = 'W'\nversion = '1'")).ok().unwrap().name, "W");
}

#[test]
fn scratch_folders_sit_next_to_the_data_folder() {
    assert_eq!(wayfinder_core::plugins::scratch_name("Wayfinder", "trash", 4242, 0), "Wayfinder.trash-4242-0");
    assert!(wayfinder_core::plugins::leftover("Wayfinder", "Wayfinder.install-7-1") && wayfinder_core::plugins::leftover("Wayfinder", "Wayfinder.trash-7-0"));
    assert!(!wayfinder_core::plugins::leftover("Wayfinder", "Wayfinder") && !wayfinder_core::plugins::leftover("Wayfinder", "Other.trash-1-0") && !wayfinder_core::plugins::leftover("Wayfinder", "Wayfinder.log"));
}

#[test]
fn a_manifest_reads_from_its_table_entries() {
    let text = |k: &str, v: &str| (k.to_string(), TomlField::Text(v.to_string()));
    let m = Manifest::from_entries(&vec![text("id", "sunset"), text("name", "Sunset"), text("version", "1.2.0")], "0.1.0").unwrap();
    assert_eq!((m.id.as_str(), m.name.as_str(), m.version.as_str(), m.author.as_str()), ("sunset", "Sunset", "1.2.0", ""));
    let e = Manifest::from_entries(&vec![text("id", "sunset"), text("nmae", "Sunset")], "0.1.0").err().unwrap();
    assert!(e.contains("unknown key `nmae`"), "{e}");
    let code = Manifest::from_entries(&vec![text("id", "x"), ("code".to_string(), TomlField::Other)], "0.1.0").err().unwrap();
    assert!(code.contains("runs code"), "{code}");
}

fn plugin(id: &str, name: &str) -> Plugin {
    Plugin {
        id: id.into(),
        dir: format!("C:\\data\\plugins\\{id}"),
        manifest: Ok(Manifest {
            id: id.into(),
            name: name.into(),
            version: "1.2.0".into(),
            author: "Ada".into(),
            description: String::new(),
            homepage: None,
            wayfinder: None,
        }),
    }
}

#[test]
fn rows_say_what_a_plugin_restyles_loses_and_takes_with_it() {
    let list = vec![plugin("sunset", "Sunset"), plugin("zeta", "Zeta")];
    let shadow = |name: &str, winner: Origin, loser: Origin| Shadow { item: Item::Widget, name: name.into(), winner, loser };
    let me = || Origin::Plugin("sunset".into());
    let pairs = |v: &[(&str, &str)]| v.iter().map(|(a, b)| (a.to_string(), b.to_string())).collect::<Vec<_>>();
    let cat = Catalog {
        errors: vec!["C:\\data\\plugins\\sunset\\widgets\\bad.toml: unknown key `colour`".into(), "C:\\data\\widgets\\x.toml: oops".into()],
        shadows: vec![
            shadow("clock", me(), Origin::BuiltIn),
            shadow("weather", Origin::User, me()),
            shadow("radar", Origin::Plugin("zeta".into()), me()),
        ],
        widget_origins: vec![("clock".into(), me()), ("weather".into(), Origin::User), ("radar".into(), Origin::Plugin("zeta".into()))],
        widget_names: pairs(&[("clock", "Sunset Clock")]),
        builtin_names: pairs(&[("clock", "Analog Clock")]),
        contents: vec![(
            "sunset".into(),
            PluginContents { summary: "4 widgets".into(), widgets: vec!["bad".into(), "clock".into(), "radar".into(), "weather".into()] },
        )],
    };
    let rows = rows(&list, &["zeta".to_string()], &cat);
    let r = &rows[0];
    assert_eq!((r.name.as_str(), r.version.as_str(), r.summary.as_str(), r.enabled), ("Sunset", "1.2.0", "4 widgets", true));
    assert_eq!(r.notes, ["Restyles Analog Clock", "Your own files replace its widget weather"]);
    assert_eq!(r.problems, ["widgets\\bad.toml: unknown key `colour`", "Its widget radar is hidden: Zeta has one too, and wins"]);
    assert_eq!(r.sole_widgets, ["bad"], "clock is built in, weather is the user's, radar is Zeta's too");
    assert!(!rows[1].enabled && rows[1].notes.is_empty() && rows[1].summary.is_empty());
}

#[test]
fn instances_of_a_switched_off_plugin_are_hidden_with_its_name() {
    let list = vec![plugin("sunset", "Sunset"), plugin("zeta", "Zeta")];
    let cat = Catalog {
        errors: vec![],
        shadows: vec![],
        widget_origins: vec![],
        widget_names: vec![],
        builtin_names: vec![],
        contents: vec![
            ("sunset".into(), PluginContents { summary: "1 widget".into(), widgets: vec!["weather".into()] }),
            ("zeta".into(), PluginContents { summary: "1 widget".into(), widgets: vec!["radar".into()] }),
        ],
    };
    let insts: Vec<(String, String)> = [("weather-1", "weather"), ("clock-1", "clock"), ("gone-1", "gone"), ("radar-1", "radar")]
        .iter()
        .map(|(a, b)| (a.to_string(), b.to_string()))
        .collect();
    let known = vec!["clock".to_string()];
    let hidden = hidden_instances(&insts, &known, &list, &["sunset".to_string()], &cat);
    assert_eq!(hidden.len(), 1, "clock is known, gone is nobody's, zeta is on");
    assert_eq!(hidden.get("weather-1").map(|s| s.as_str()), Some("Sunset"));
    assert!(hidden.get("radar-1").is_none());
    let both = hidden_instances(&insts, &known, &list, &["sunset".to_string(), "zeta".to_string()], &cat);
    assert_eq!(both.get("radar-1").map(|s| s.as_str()), Some("Zeta"));
    assert_eq!(both.len(), 2);
}
