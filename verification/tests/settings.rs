use wayfinder_core::settings::{
    adapter_link, axis_of, capitalized, classify, code_status, dropdown_shown, level_tone, names_module, plugin_badge, gpu_parts, insert_at, log_rows, next_boundary, picked, prev_boundary, split_unit, Confirm, Hidden, Level,
    LogLine, Page, Removal, Scope, Tone,
};
use wayfinder_core::settings::{Cmd, EditKey, Facts, Flow, InstanceFacts, Key, Popup, Shortcut, TextField};
use wayfinder_core::settings::{log_copy, picked_path, plugin_picked, shortcut_added, shortcut_browsed};
use wayfinder_core::settings::{count_at_level, log_empty_note, log_page_rows, LOG_PAGE_ROWS};
use wayfinder_core::paths::file_stem;
use wayfinder_core::theme::{Selection, ThemePick};

#[test]
fn text_editing_respects_utf8_boundaries() {
    let mut s = String::from("zażółć");
    let end = s.len();
    let p = prev_boundary(&s, end);
    assert_eq!(&s[p..], "ć");
    assert_eq!(next_boundary(&s, p), end);
    let c = insert_at(&mut s, p, "X");
    assert_eq!(s, "zażółXć");
    assert_eq!(c, p + 1);
}

#[test]
fn carets_stay_inside_the_text() {
    let s = "aé";
    assert_eq!(prev_boundary(s, 0), 0);
    assert_eq!(prev_boundary(s, 99), 1);
    assert_eq!(next_boundary(s, 0), 1);
    assert_eq!(next_boundary(s, 1), 3);
    assert_eq!(next_boundary(s, 99), 3);
    let mut t = String::from("ab");
    assert_eq!(insert_at(&mut t, 99, "é"), 4);
    assert_eq!(t, "abé");
}

#[test]
fn units_in_brackets_are_split_off_labels() {
    assert_eq!(split_unit("Corner roundness (px)"), ("Corner roundness".to_string(), "px".to_string()));
    assert_eq!(split_unit("Opacity"), ("Opacity".to_string(), String::new()));
    assert_eq!(split_unit("Gap (a) (px)"), ("Gap (a)".to_string(), "px".to_string()));
    assert_eq!(split_unit("Nothing)"), ("Nothing)".to_string(), String::new()));
}

#[test]
fn the_adapter_line_reads_as_words() {
    assert_eq!(
        gpu_parts("Microsoft Basic Render Driver / Dx12 / Cpu / alpha PreMultiplied / present Mailbox"),
        ["Microsoft Basic Render Driver", "DX12", "CPU", "Mailbox"]
    );
    assert_eq!(gpu_parts("AMD Radeon / Vulkan / IntegratedGpu"), ["AMD Radeon", "VULKAN", "Integrated GPU"]);
    assert_eq!(gpu_parts("Only a name"), ["Only a name"]);
}

#[test]
fn log_lines_keep_their_time_and_text() {
    let l = LogLine::new(1, 29, 58, "ready: 4 instance(s)");
    assert_eq!(l.time, "01:29:58");
    assert_eq!((l.level, l.source.as_str(), l.text.as_str()), (Level::Info, "core", "ready: 4 instance(s)"));
    assert_eq!(LogLine::new(13, 5, 0, "x").time, "13:05:00");
    let c = |l: &str| {
        let (level, source, text) = classify(l);
        (level, source, text)
    };
    let s = |a: &str, b: &str| (a.to_string(), b.to_string());
    let sw = "gpu: using the software adapter (WARP); the integrated GPU is recommended";
    let (level, source, text) = c(sw);
    assert_eq!((level, (source, text)), (Level::Warning, s("gpu", "using the software adapter (WARP); the integrated GPU is recommended")));
    assert_eq!(c("gpu: AMD Radeon(TM) Graphics / Dx12").1, "gpu");
    assert_eq!(c("weather: 12 degrees").1, "weather", "a Code Source's line goes to its source");
    assert_eq!(c("could not install x.wfplugin: no manifest").0, Level::Error);
    assert_eq!(c("could not install x.wfplugin: no manifest").1, "plugins");
    assert_eq!(c("plugin agents: agents: Error: boom").0, Level::Error);
    assert_eq!(c("plugin agents: agents: Error: boom").1, "plugins");
    assert_eq!(c("monitor \\\\.\\DISPLAY1: 1920x1080 @ 1.00x").1, "monitor");
    assert_eq!(c("GPU lost (device removed): rebuilding").0, Level::Warning);
    assert_eq!(c("GPU lost (device removed): rebuilding").1, "gpu");
    assert_eq!(c("refused to open http://x").0, Level::Warning);
    assert_eq!(c(": nothing").1, "core", "no topic");
    let l = LogLine::new(1, 29, 58, sw);
    assert_eq!(adapter_link(&l), Some(("Change adapter in General \u{2192}", "nav:general")));
    assert_eq!(adapter_link(&LogLine::new(1, 29, 58, "ready: 4 instance(s)")), None);
    assert_eq!((Level::Warning.id(), Level::Warning.label(), Level::Warning.plural()), ("warning", "Warning", "Warnings"));
    assert_eq!((Level::Error.id(), Level::Info.plural()), ("error", "Info"));
}

#[test]
fn pages_are_found_by_id_and_unknown_ones_are_widgets() {
    for p in [Page::Widgets, Page::Appearance, Page::Plugins, Page::General, Page::Log] {
        assert_eq!(Page::parse(p.id()), p);
    }
    assert_eq!(Page::parse("nope"), Page::Widgets);
    assert_eq!(Page::Log.heading(), "Activity log");
    assert_eq!(Page::General.heading(), "General");
    assert_eq!(Page::Appearance.glyph(), "palette");
    assert_eq!(Page::General.subtitle(), "Graphics, startup and behaviour.");
}

#[test]
fn a_star_scope_is_the_workspace() {
    assert_eq!(Scope::parse("*"), Scope::Global);
    assert_eq!(Scope::parse("clock-1"), Scope::Instance("clock-1".into()));
    assert_eq!(Scope::Global.key(), "*");
    assert_eq!(Scope::Instance("x".into()).key(), "x");
    assert_eq!(Hidden::PluginOff("p".into()), Hidden::PluginOff("p".into()));
    assert_ne!(Hidden::Parked, Hidden::PluginOff("p".into()));
}

#[test]
fn axes_are_read_by_name() {
    let sel = Selection::default();
    assert_eq!((axis_of(&sel, "palette"), axis_of(&sel, "fonts"), axis_of(&sel, "glyphs"), axis_of(&sel, "pack")), ("Midnight", "System", "Fluent", "Default"));
    let pick = ThemePick { fonts: Some("Editorial".into()), ..ThemePick::default() };
    assert_eq!(picked(&pick, "fonts").as_deref(), Some("Editorial"));
    assert_eq!(picked(&pick, "palette"), None);
    assert_eq!(capitalized("palette"), "Palette");
    assert_eq!(capitalized("ß"), "SS");
    assert_eq!(capitalized(""), "");
}

fn facts() -> Facts {
    let instance = |id: &str| InstanceFacts {
        id: id.into(),
        click_through: false,
        size_limit: true,
        tiers: vec![],
        style: vec![],
        theme: ThemePick::default(),
        items: vec![],
        flags: vec![],
        style_on: vec!["outlines".into()],
    };
    let mut clock = instance("clock-1");
    clock.flags = vec![("ticks".into(), true), ("show_seconds".into(), false)];
    let mut folder = instance("icon_folder-1");
    folder.items = vec![
        Shortcut { name: "A".into(), target: "a.exe".into(), icon: String::new() },
        Shortcut { name: "B".into(), target: "b.exe".into(), icon: String::new() },
    ];
    Facts {
        edit: false,
        autostart: false,
        header_drag: false,
        instances: vec![clock, folder],
        plugins: vec![("sunset".into(), true), ("broken".into(), false)],
        theme: Selection::default(),
        style: vec![],
        style_on: vec!["outlines".into()],
        dropdowns: vec![("p:drawer-1:font_header".into(), 17), ("p:drawer-1:toggle".into(), 2)],
    }
}

#[test]
fn removing_a_widget_needs_a_second_click() {
    let c = facts();
    let mut ui = Flow::new();
    assert_eq!(ui.act("del:clock-1", &c), Some(vec![]), "first click only arms the confirmation");
    assert_eq!(ui.act("sel:icon_folder-1", &c), Some(vec![]), "clicking elsewhere disarms it");
    assert_eq!(ui.act("del:clock-1", &c), Some(vec![]));
    assert_eq!(ui.act("del:clock-1", &c), Some(vec![Cmd::Remove("clock-1".into())]));
    assert_eq!(ui.selected, None);
}

#[test]
fn general_offers_a_restart_for_the_adapter_choice() {
    assert_eq!(Flow::new().act("restart", &facts()), Some(vec![Cmd::Restart]));
}

#[test]
fn general_says_which_app_opens_plugin_files() {
    assert_eq!(Flow::new().act("claimfiles", &facts()), Some(vec![Cmd::ClaimPluginFiles]));
}

#[test]
fn size_limit_toggles_per_widget() {
    let mut c = facts();
    assert_eq!(Flow::new().act("lim:clock-1", &c), Some(vec![Cmd::SizeLimit("clock-1".into(), false)]));
    c.instances[0].size_limit = false;
    assert_eq!(Flow::new().act("lim:clock-1", &c), Some(vec![Cmd::SizeLimit("clock-1".into(), true)]));
}

#[test]
fn plugin_toggle_flips_enabled() {
    let c = facts();
    let mut ui = Flow::new();
    assert_eq!(ui.act("pon:sunset", &c), Some(vec![Cmd::PluginEnabled("sunset".into(), false)]));
    assert_eq!(ui.act("pon:broken", &c), Some(vec![Cmd::PluginEnabled("broken".into(), true)]));
    assert_eq!(ui.act("pon:nope", &c), Some(vec![]));
    assert_eq!(ui.act("pfolder", &c), Some(vec![Cmd::OpenPluginsFolder]));
}

#[test]
fn plugin_remove_needs_two_clicks_and_names_its_instances() {
    let c = facts();
    let mut ui = Flow::new();
    ui.act("nav:plugins", &c);
    assert_eq!(ui.page, Page::Plugins);
    assert_eq!(ui.act("prm:sunset", &c), Some(vec![]), "the first click only asks");
    assert_eq!(ui.act("prm:sunset", &c), Some(vec![Cmd::RemovePlugin("sunset".into())]));
    ui.act("prm:sunset", &c);
    assert_eq!(ui.act("pon:sunset", &c).map(|v| v.len()), Some(1), "any other action disarms it");
    assert_eq!(ui.act("prm:sunset", &c), Some(vec![]));
    ui.act("del:clock-1", &c);
    assert_eq!(ui.act("prm:sunset", &c), Some(vec![]), "a widget's remove never confirms a plugin's");
}

#[test]
fn advanced_settings_start_collapsed_and_tier_tabs_pick_the_preview() {
    let c = facts();
    let mut ui = Flow::new();
    ui.selected = Some("system_monitor-1".into());
    assert!(!ui.advanced, "Layer is under Advanced");
    assert_eq!(ui.act("adv:toggle", &c), Some(vec![]));
    assert!(ui.advanced);
    assert_eq!(ui.act("tier:large", &c), Some(vec![]));
    assert_eq!(ui.tier_tab.as_deref(), Some("large"));
    assert_eq!(
        ui.act("layreset:system_monitor-1|large", &c),
        Some(vec![Cmd::LayoutReset("system_monitor-1".into(), "large".into())])
    );
}

#[test]
fn actions_become_the_expected_commands() {
    let c = facts();
    let mut ui = Flow::new();
    assert_eq!(
        ui.act("tog:clock-1|ticks", &c),
        Some(vec![Cmd::ParamFlag("clock-1".into(), "ticks".into(), false)]),
        "a bool param toggles from its default"
    );
    assert_eq!(ui.act("tog:clock-1|nope", &c), Some(vec![]), "a param the Widget does not declare");
    assert_eq!(ui.act("z:x", &c), Some(vec![]));
    assert_eq!(ui.act("pick:z:clock-1|topmost", &c), Some(vec![Cmd::Z("clock-1".into(), "topmost".into())]));
    assert_eq!(ui.act("pick:gpu|high", &c), Some(vec![Cmd::Gpu("high".into())]));
    assert!(ui.gpu_picked);
    let t = ui.act("pick:th:palette|Daylight", &c).unwrap();
    assert!(matches!(&t[0], Cmd::Theme(s) if s.palette == "Daylight" && s.fonts == "System"));
    assert_eq!(ui.act("edit:toggle", &c), Some(vec![Cmd::Edit(true)]));
    assert_eq!(ui.act("nav:appearance", &c), Some(vec![]));
    assert_eq!(ui.page, Page::Appearance);
}

#[test]
fn a_fresh_install_walks_through_setup_and_can_skip_it() {
    let c = facts();
    let mut ui = Flow::new();
    assert_eq!(ui.step, 0);
    for _ in 0..5 {
        assert_eq!(ui.act("ob:next", &c), Some(vec![]));
    }
    assert_eq!(ui.step, 3, "Continue stops at the last step");
    ui.act("ob:back", &c);
    assert_eq!(ui.step, 2);
    ui.page = Page::Log;
    assert_eq!(ui.act("ob:done", &c), Some(vec![Cmd::Onboarded]), "Skip setup and Finish both end it");
    assert!(ui.page == Page::Widgets && ui.step == 0, "then the Widgets page");
}

#[test]
fn accent_presets_and_the_cpu_fix_are_one_click() {
    assert_eq!(Flow::new().act("gpufix", &facts()), Some(vec![Cmd::Gpu("low".into()), Cmd::Restart]));
    assert_eq!(
        Flow::new().act("setc:sy:*:accent|#6b8cff", &facts()),
        Some(vec![Cmd::Style(Scope::Global, "accent".into(), Some("#6b8cff".into()))])
    );
}

#[test]
fn a_widget_can_pick_its_own_palette_or_go_back_to_global() {
    let c = facts();
    let mut ui = Flow::new();
    assert_eq!(
        ui.act("pick:tp:clock-1:palette|Daylight", &c),
        Some(vec![Cmd::ThemePick("clock-1".into(), "palette".into(), Some("Daylight".into()))])
    );
    assert_eq!(ui.act("pick:tp:clock-1:palette|", &c), Some(vec![Cmd::ThemePick("clock-1".into(), "palette".into(), None)]));
}

#[test]
fn reset_style_on_a_widget_clears_its_overrides_and_its_own_theme() {
    let mut c = facts();
    c.instances[0].style = vec!["blur".into()];
    c.instances[0].theme.palette = Some("Daylight".into());
    let cmds = Flow::new().act("syreset:clock-1|*", &c);
    assert_eq!(
        cmds,
        Some(vec![Cmd::Style(Scope::Instance("clock-1".into()), "blur".into(), None), Cmd::ThemePick("clock-1".into(), "palette".into(), None)])
    );
}

#[test]
fn style_toggles_and_resets_at_both_scopes() {
    let mut c = facts();
    c.style = vec!["blur".into()];
    let mut ui = Flow::new();
    c.style_on = vec!["outlines".into(), "blur".into()];
    c.instances[0].style_on = vec!["outlines".into(), "blur".into()];
    assert_eq!(ui.act("sy:*|outlines", &c), Some(vec![Cmd::StyleFlag(Scope::Global, "outlines".into(), false)]));
    assert_eq!(
        ui.act("sy:clock-1|blur", &c),
        Some(vec![Cmd::StyleFlag(Scope::Instance("clock-1".into()), "blur".into(), false)]),
        "the instance starts from the inherited global value"
    );
    assert_eq!(ui.act("sy:*|tint", &c), Some(vec![Cmd::StyleFlag(Scope::Global, "tint".into(), true)]));
    assert_eq!(ui.act("syreset:*|blur", &c), Some(vec![Cmd::Style(Scope::Global, "blur".into(), None)]));
    assert_eq!(ui.act("syreset:*|*", &c), Some(vec![Cmd::Style(Scope::Global, "blur".into(), None)]), "reset all resets what is set");
    assert_eq!(
        ui.act("pick:sy:*:anim-speed|off", &c),
        Some(vec![Cmd::Style(Scope::Global, "anim-speed".into(), Some("off".into()))])
    );
}

#[test]
fn adding_a_widget_selects_its_new_instance() {
    let c = facts();
    let mut ui = Flow::new();
    ui.act("gallery:open", &c);
    assert!(ui.adding);
    assert_eq!(ui.act("cat:Launchers", &c), Some(vec![]));
    assert_eq!(ui.category.as_deref(), Some("Launchers"));
    ui.act("cat:", &c);
    assert_eq!(ui.category, None);
    assert_eq!(ui.act("add:clock", &c), Some(vec![Cmd::Add("clock".into())]));
    assert_eq!(ui.selected.as_deref(), Some("clock-2"));
    assert!(!ui.adding && ui.page == Page::Widgets);
    assert_eq!(ui.act("add:drawer", &c), Some(vec![Cmd::Add("drawer".into())]));
    assert_eq!(ui.selected.as_deref(), Some("drawer-1"));
}

#[test]
fn the_log_page_picks_a_level_and_opens_the_file() {
    let c = facts();
    let mut ui = Flow::new();
    ui.act("nav:log", &c);
    assert_eq!(ui.page, Page::Log);
    ui.act("lvl:warning", &c);
    assert_eq!(ui.log_level, Some(Level::Warning));
    ui.act("lvl:all", &c);
    assert_eq!(ui.log_level, None);
    assert_eq!(ui.act("openlog", &c), Some(vec![Cmd::OpenData("wayfinder.log")]));
}

#[test]
fn reset_all_resets_each_saved_tier() {
    let mut c = facts();
    c.instances[0].tiers = vec!["normal".into(), "large".into()];
    c.instances[0].click_through = true;
    let mut ui = Flow::new();
    assert_eq!(
        ui.act("layresetall:clock-1", &c),
        Some(vec![Cmd::LayoutReset("clock-1".into(), "normal".into()), Cmd::LayoutReset("clock-1".into(), "large".into())])
    );
    assert_eq!(ui.act("layresetall:nope", &c), Some(vec![]));
    assert_eq!(ui.act("ct:clock-1", &c), Some(vec![Cmd::ClickThrough("clock-1".into(), false)]));
    assert_eq!(ui.act("clear:clock-1|label", &c), Some(vec![Cmd::Param("clock-1".into(), "label".into(), String::new())]));
    assert_eq!(ui.act("clear:clock-1", &c), Some(vec![]));
}

#[test]
fn a_plugin_removal_needs_two_clicks_too() {
    let mut c = Confirm::new();
    assert_eq!(c.act("prm:sunset"), None, "the first click only asks");
    assert_eq!(c.act("prm:sunset"), Some(Removal::Plugin("sunset".into())));
    assert_eq!(c.act("prm:sunset"), None);
    assert_eq!(c.act("pon:sunset"), None, "any other action disarms it");
    assert_eq!(c.act("prm:sunset"), None);
    assert_eq!(c.act("del:sunset"), None, "a widget of the same id is another thing");
    assert_eq!(c.act("del:sunset"), Some(Removal::Widget("sunset".into())));
    assert_eq!(c.act("del"), None);
    assert_eq!(c.act("del"), Some(Removal::Widget(String::new())));
}

#[test]
fn the_log_shows_a_level_and_finds_text_ignoring_case() {
    let line = |level, source: &str, text: &str| LogLine { time: "01:29:58".into(), level, source: source.into(), text: text.into() };
    let log = vec![line(Level::Info, "core", "ready"), line(Level::Warning, "gpu", "Using the software adapter"), line(Level::Error, "plugins", "could not install x")];
    assert_eq!(log_rows(&log, None, ""), [0, 1, 2]);
    assert_eq!(log_rows(&log, Level::parse("warning"), ""), [1]);
    assert_eq!(log_rows(&log, None, "PLUGINS"), [2], "search matches the source too, ignoring case");
    assert_eq!(log_rows(&log, None, "adapter"), [1]);
    assert_eq!(log_rows(&log, Some(Level::Info), "adapter"), Vec::<usize>::new());
    assert_eq!(Level::parse("all"), None);
}

#[test]
fn keys_edit_a_field_char_by_char() {
    let mut f = TextField::new("zażółć".to_string());
    assert_eq!(f.caret(), 10);
    assert!(f.edit(EditKey::Backspace));
    assert_eq!((f.text(), f.caret()), ("zażół", 8));
    assert!(!f.edit(EditKey::Left));
    assert_eq!(f.caret(), 6);
    assert!(f.edit(EditKey::Type("X".into())));
    assert_eq!((f.text(), f.caret()), ("zażóXł", 7));
    assert!(f.edit(EditKey::Delete));
    assert_eq!((f.text(), f.caret()), ("zażóX", 7));
    assert!(!f.edit(EditKey::Delete), "nothing after the caret");
    assert!(!f.edit(EditKey::Type("\n".into())), "control chars are not typed");
    assert!(!f.edit(EditKey::Home) && f.caret() == 0);
    assert!(!f.edit(EditKey::Backspace), "nothing before the caret");
    assert!(!f.edit(EditKey::Paste(None)));
    assert!(f.edit(EditKey::Paste(Some("ab".into()))));
    assert_eq!((f.text(), f.caret()), ("abzażóX", 2));
    assert!(!f.edit(EditKey::Right) && f.caret() == 3);
    assert!(!f.edit(EditKey::End) && f.caret() == 9);
    assert!(!f.edit(EditKey::Right) && f.caret() == 9);
    assert!(!f.edit(EditKey::Copy));
    assert!(f.edit(EditKey::Cut));
    assert_eq!((f.text(), f.caret()), ("", 0));
}

#[test]
fn dropping_a_plugin_file_installs_it() {
    let mut ui = Flow::new();
    ui.drop_hover = true;
    assert_eq!(ui.dropped("C:\\Downloads\\sunset.wfplugin"), vec![Cmd::InstallPlugin("C:\\Downloads\\sunset.wfplugin".into())]);
    assert_eq!((ui.page, ui.drop_hover), (Page::Plugins, false));
}

#[test]
fn a_popup_hangs_from_its_anchor() {
    let mut ui = Flow::new();
    assert!(!ui.has_popup());
    assert_eq!(ui.anchor_key(), "");
    ui.popup = Some(Popup::Color("sy:*:accent".into()));
    assert_eq!(ui.anchor_key(), "cp:sy:*:accent");
    ui.popup = Some(Popup::Dropdown("p:drawer-1:font_header".into()));
    assert!(ui.has_popup());
    assert_eq!(ui.anchor_key(), "p:drawer-1:font_header");
    assert_eq!(ui.act("popup-close", &facts()), Some(vec![]));
    assert!(!ui.has_popup());
}

#[test]
fn a_long_dropdown_narrows_to_its_search() {
    let fonts: Vec<(String, String)> = [
        "Arial", "Bahnschrift", "Calibri", "Cambria", "Candara", "Consolas", "Constantia", "Corbel", "Courier New", "Ebrima", "Gabriola",
        "Georgia", "Impact", "Segoe UI", "Tahoma", "Verdana",
    ]
    .iter()
    .map(|f| (f.to_string(), f.to_string()))
    .collect();
    let values = |v: Vec<(String, String)>| v.into_iter().map(|(v, _)| v).collect::<Vec<_>>();
    assert_eq!(values(dropdown_shown(&fonts, "cam")), ["Cambria"]);
    assert_eq!(values(dropdown_shown(&fonts, "CON")), ["Consolas", "Constantia"], "ignoring case");
    assert_eq!(dropdown_shown(&fonts, "").len(), 16, "no search: every item");
    let two = vec![("true".to_string(), "On".to_string()), ("false".to_string(), "Off".to_string())];
    assert_eq!(dropdown_shown(&two, "zzz"), two, "two choices need no search");
}

fn typed(s: &str) -> Key {
    Key::Edit(EditKey::Type(s.into()))
}

#[test]
fn a_long_list_opens_with_a_search_and_enter_picks_the_first_match() {
    let c = facts();
    let mut items = vec![(String::new(), "Theme font".to_string())];
    for f in [
        "Arial", "Bahnschrift", "Calibri", "Cambria", "Candara", "Consolas", "Constantia", "Corbel", "Courier New", "Ebrima", "Gabriola",
        "Georgia", "Impact", "Segoe UI", "Tahoma", "Verdana",
    ] {
        items.push((f.to_string(), f.to_string()));
    }
    let mut ui = Flow::new();
    assert_eq!(ui.act("dd:p:drawer-1:font_header", &c), Some(vec![]));
    assert!(ui.has_popup());
    assert_eq!(ui.focus.as_ref().map(|(k, _)| k.as_str()), Some("q:dd"), "the search takes the typing");
    for ch in ["c", "a", "m"] {
        assert_eq!(ui.on_key(typed(ch), &items, &c), vec![]);
    }
    assert_eq!(ui.query("q:dd"), "cam");
    let shown: Vec<String> = dropdown_shown(&items, ui.focus.as_ref().unwrap().1.text()).into_iter().map(|(v, _)| v).collect();
    assert_eq!(shown, ["Cambria"]);
    assert_eq!(
        ui.on_key(Key::Enter, &items, &c),
        vec![Cmd::Param("drawer-1".into(), "font_header".into(), "Cambria".into())]
    );
    assert!(!ui.has_popup() && ui.focus.is_none());
    ui.act("dd:p:drawer-1:toggle", &c);
    assert!(ui.has_popup() && ui.focus.is_none(), "two choices need no search");
    ui.act("dd:p:drawer-1:toggle", &c);
    assert!(!ui.has_popup(), "a second click closes it");
}

#[test]
fn escape_in_a_search_closes_the_list_and_picks_nothing() {
    let c = facts();
    let items: Vec<(String, String)> = (0..20).map(|i| (i.to_string(), format!("Item {i}"))).collect();
    let mut ui = Flow::new();
    ui.open_dropdown("z:clock-1", items.len());
    ui.on_key(typed("1"), &items, &c);
    assert_eq!(ui.on_key(Key::Escape, &items, &c), vec![]);
    assert!(!ui.has_popup() && ui.focus.is_none());
    ui.open_dropdown("z:clock-1", items.len());
    ui.on_key(typed("zzz"), &items, &c);
    assert_eq!(ui.on_key(Key::Enter, &items, &c), vec![], "no match: nothing to pick");
    ui.open_dropdown("z:clock-1", items.len());
    assert_eq!(ui.query("q:dd"), "", "each opening starts a fresh search");
}

#[test]
fn typing_in_a_field_commits_each_change() {
    let c = facts();
    let none: Vec<(String, String)> = vec![];
    let mut ui = Flow::new();
    ui.focus_input("n:clock-1:label".into(), "Hom".into(), None);
    assert_eq!(ui.on_key(typed("e"), &none, &c), vec![Cmd::Param("clock-1".into(), "label".into(), "Home".into())]);
    assert_eq!(ui.on_key(Key::Edit(EditKey::Left), &none, &c), vec![], "moving the caret changes nothing");
    assert_eq!(ui.on_key(Key::Edit(EditKey::Backspace), &none, &c), vec![Cmd::Param("clock-1".into(), "label".into(), "Hoe".into())]);
    assert_eq!(ui.on_key(typed("\u{7}"), &none, &c), vec![], "a control char is not typed");
    assert_eq!(ui.on_key(Key::Tab, &none, &c), vec![]);
    assert!(ui.focus.is_none());
    ui.focus_input("q:log".into(), String::new(), Some(0));
    ui.on_key(typed("gpu"), &none, &c);
    ui.on_key(Key::Enter, &none, &c);
    assert_eq!(ui.query("q:log"), "gpu", "a search keeps its text after the field lets go");
    ui.focus_input("st:icon_folder-1:0".into(), "a.exe".into(), None);
    let cmds = ui.on_key(typed("x"), &none, &c);
    assert!(matches!(&cmds[0], Cmd::Items(id, rows) if id == "icon_folder-1" && rows[0].target == "a.exex" && rows[1].target == "b.exe"));
    ui.focus_input("sn:icon_folder-1:7".into(), "B".into(), None);
    assert_eq!(ui.on_key(typed("x"), &none, &c), vec![], "no such row");
}

#[test]
fn escape_without_a_field_closes_the_popup() {
    let c = facts();
    let mut ui = Flow::new();
    ui.popup = Some(Popup::Color("sy:*:accent".into()));
    assert_eq!(ui.on_key(typed("x"), &vec![], &c), vec![]);
    assert!(ui.has_popup());
    ui.on_key(Key::Escape, &vec![], &c);
    assert!(!ui.has_popup());
    ui.popup = Some(Popup::Color("sy:*:accent".into()));
    ui.focus_input("n:clock-1:label".into(), String::new(), None);
    assert!(!ui.has_popup(), "a field's focus closes the popup");
}

#[test]
fn a_code_source_says_how_it_runs() {
    assert_eq!(code_status(false, true, "Running"), ("Off".to_string(), Tone::Dim), "its Plugin is off");
    assert_eq!(code_status(true, false, "Running"), ("Not running".to_string(), Tone::Dim));
    assert_eq!(code_status(true, true, ""), ("Starting…".to_string(), Tone::Warn));
    assert_eq!(code_status(true, true, "Starting"), ("Starting…".to_string(), Tone::Warn));
    assert_eq!(code_status(true, true, "Running"), ("Running".to_string(), Tone::Accent));
    assert_eq!(code_status(true, true, "crashed: exit 3"), ("crashed: exit 3".to_string(), Tone::Danger));
    assert_eq!(level_tone(Level::Warning), Tone::Warn);
    assert_eq!(level_tone(Level::Error), Tone::Danger);
    assert_eq!(level_tone(Level::Info), Tone::Info);
}

fn row(id: &str, name: &str, sole: &[&str]) -> wayfinder_core::plugins::PluginRow {
    wayfinder_core::plugins::PluginRow {
        id: id.into(),
        name: name.into(),
        version: String::new(),
        author: String::new(),
        description: String::new(),
        summary: String::new(),
        enabled: true,
        notes: vec![],
        problems: vec![],
        sole_widgets: sole.iter().map(|s| s.to_string()).collect(),
    }
}

#[test]
fn a_widget_a_plugin_alone_provides_wears_its_badge() {
    let rows = vec![row("sunset", "Sunset", &["weather"]), row("extras", "Wayfinder Extras", &["agents", "weather"])];
    assert_eq!(plugin_badge(&rows, "weather").as_deref(), Some("Sunset"), "the first provider");
    assert_eq!(plugin_badge(&rows, "agents").as_deref(), Some("Extras"), "without a leading Wayfinder");
    assert_eq!(plugin_badge(&rows, "clock"), None, "a built-in has none");
}

#[test]
fn a_click_on_nothing_blurs_but_a_search_stays() {
    let items: Vec<(String, String)> = (0..20).map(|i| (i.to_string(), i.to_string())).collect();
    let mut ui = Flow::new();
    ui.focus_input("n:clock-1:label".into(), "x".into(), None);
    assert!(ui.wants_caret());
    ui.blur();
    assert!(!ui.wants_caret());
    ui.open_dropdown("z:clock-1", items.len());
    ui.blur();
    assert!(ui.wants_caret(), "an open dropdown keeps its search");
}

#[test]
fn a_module_list_names_items_modules_and_prefixes() {
    assert!(names_module("clock, gauge:cpu", "gauge:cpu"), "the item itself");
    assert!(names_module("clock, gauge", "gauge:ram"), "its Module");
    assert!(names_module(" weather:* ", "weather:today"), "a prefix, trimmed");
    assert!(names_module("clock", "clock"));
    assert!(!names_module("clock, gauge:cpu", "gauge:ram"));
    assert!(!names_module("", "clock"));
    assert!(names_module("*", "anything"), "a bare star names everything");
}

#[test]
fn shortcut_fields_edit_the_right_row() {
    let c = facts();
    let none: Vec<(String, String)> = vec![];
    let mut ui = Flow::new();
    ui.focus_input("sn:icon_folder-1:1".into(), "B".into(), None);
    let cmds = ui.on_key(typed("z"), &none, &c);
    let Cmd::Items(id, items) = &cmds[0] else { panic!("{cmds:?}") };
    assert_eq!((id.as_str(), items[0].name.as_str(), items[1].name.as_str()), ("icon_folder-1", "A", "Bz"), "row 1 changed, row 0 untouched");
    // deleting a row
    assert!(matches!(&ui.act("scdel:icon_folder-1|0", &c).unwrap()[0], Cmd::Items(_, i) if i.len() == 1 && i[0].name == "B"));
    assert_eq!(ui.act("scdel:icon_folder-1|2", &c), Some(vec![]), "no such row");
}

#[test]
fn hex_input_only_commits_valid_colours() {
    let c = facts();
    let none: Vec<(String, String)> = vec![];
    let mut ui = Flow::new();
    ui.focus_input("hx:sy:*:accent".into(), String::new(), Some(0));
    assert_eq!(ui.on_key(typed("z"), &none, &c), vec![], "'z' is not a hex digit");
    ui.focus_input("hx:sy:*:accent".into(), "ff8800".into(), Some(6));
    let cmds = ui.on_key(Key::Edit(EditKey::Backspace), &none, &c);
    assert_eq!(cmds, vec![], "ff880 is five digits: invalid");
    let cmds = ui.on_key(typed("0"), &none, &c);
    assert_eq!(cmds, vec![Cmd::Style(Scope::Global, "accent".into(), Some("#ff8800".into()))]);
    ui.focus_input("hx:p:clock-1:face".into(), "#ABCDE".into(), None);
    assert_eq!(ui.on_key(typed("F"), &none, &c), vec![Cmd::Param("clock-1".into(), "face".into(), "#abcdef".into())]);
}

#[test]
fn what_a_dialog_picks_becomes_the_command() {
    assert_eq!(
        picked_path("clock-1|face", Some(r"C:\Pics\sky.png")),
        vec![Cmd::Param("clock-1".into(), "face".into(), r"C:\Pics\sky.png".into())]
    );
    assert_eq!(picked_path("clock-1|face", None), vec![], "cancelled");
    assert_eq!(picked_path("clock-1", Some("x")), vec![], "no param named");
    assert_eq!(plugin_picked(Some(r"D:\sunset.wfplugin")), vec![Cmd::InstallPlugin(r"D:\sunset.wfplugin".into())]);
    assert_eq!(plugin_picked(None), vec![]);
}

#[test]
fn a_picked_file_becomes_a_shortcut_named_by_its_stem() {
    let c = facts();
    let cmds = shortcut_added("icon_folder-1", Some(r"C:\Tools\notepad.exe"), &c);
    let Cmd::Items(id, items) = &cmds[0] else { panic!("{cmds:?}") };
    assert_eq!(id, "icon_folder-1");
    assert_eq!(items.len(), 3);
    assert_eq!((items[2].name.as_str(), items[2].target.as_str(), items[2].icon.as_str()), ("notepad", r"C:\Tools\notepad.exe", ""));
    assert_eq!(shortcut_added("icon_folder-1", None, &c), vec![]);
    let cmds = shortcut_browsed("icon_folder-1|0", Some(r"C:\x\y.lnk"), &c);
    let Cmd::Items(_, items) = &cmds[0] else { panic!("{cmds:?}") };
    assert_eq!((items[0].name.as_str(), items[0].target.as_str()), ("A", r"C:\x\y.lnk"), "a named row keeps its name");
    assert_eq!(items[1].target, "b.exe");
    assert_eq!(shortcut_browsed("icon_folder-1|5", Some("y.lnk"), &c), vec![], "no such row");
    assert_eq!(shortcut_browsed("icon_folder-1|0", None, &c), vec![]);
}

#[test]
fn a_file_stem_drops_the_last_extension_only() {
    assert_eq!(file_stem(r"C:\Tools\notepad.exe"), "notepad");
    assert_eq!(file_stem("archive.tar.gz"), "archive.tar");
    assert_eq!(file_stem(r"C:\Users\.profile"), ".profile");
    assert_eq!(file_stem("folder/README"), "README");
    assert_eq!(file_stem(r"C:\a\.."), "");
    assert_eq!(file_stem(""), "");
}

#[test]
fn copying_the_log_lines_them_up_in_columns() {
    let line = |level, source: &str, text: &str| LogLine { time: "01:29:58".into(), level, source: source.into(), text: text.into() };
    let log = vec![line(Level::Info, "core", "ready"), line(Level::Warning, "gpu", "Using the software adapter"), line(Level::Error, "plugins", "could not install x")];
    let t = log[0].time.clone();
    assert_eq!(
        log_copy(&log, None, ""),
        format!("{t} Info    core     ready\r\n{t} Warning gpu      Using the software adapter\r\n{t} Error   plugins  could not install x")
    );
    assert_eq!(log_copy(&log, Some(Level::Warning), ""), format!("{t} Warning gpu      Using the software adapter"));
    assert_eq!(log_copy(&log, None, "nothing like it"), "");
}

#[test]
fn the_log_page_counts_each_level_and_lists_the_latest_lines() {
    let line = |level, text: String| LogLine { time: "01:29:58".into(), level, source: "core".into(), text };
    let mut log: Vec<LogLine> = (0..250).map(|i| line(if i % 5 == 0 { Level::Warning } else { Level::Info }, format!("line {i}"))).collect();
    log.push(line(Level::Error, "could not install x".into()));
    assert_eq!(count_at_level(&log, None), 251);
    assert_eq!(count_at_level(&log, Some(Level::Warning)), 50);
    assert_eq!(count_at_level(&log, Some(Level::Error)), 1);
    let rows = log_page_rows(&log, None, "");
    assert_eq!(rows.len(), LOG_PAGE_ROWS);
    assert_eq!((rows[0], rows[199]), (51, 250), "the latest 200");
    assert_eq!(log_page_rows(&log, Some(Level::Warning), ""), (0..50).map(|k| k * 5).collect::<Vec<usize>>());
    assert_eq!(log_empty_note(0, 0), Some("Nothing yet."));
    assert_eq!(log_empty_note(251, 0), Some("Nothing matches."));
    assert_eq!(log_empty_note(251, 3), None);
}
