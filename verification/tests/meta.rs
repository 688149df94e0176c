use wayfinder_core::widgets::meta::{group_order, needs_message, ParamType, Seed};

#[test]
fn a_missing_data_source_is_named() {
    assert_eq!(needs_message(&["agents"]), "needs the `agents` data source, which is missing. Is the plugin that provides it installed and switched on?");
    assert_eq!(
        needs_message(&["agents", "clock"]),
        "needs the `agents` and `clock` data sources, which are missing. Is the plugin that provides it installed and switched on?"
    );
}

#[test]
fn param_types_read_back_from_their_names() {
    for t in [ParamType::Color, ParamType::Font, ParamType::Number, ParamType::Enum, ParamType::Bool, ParamType::Str, ParamType::Path, ParamType::Duration, ParamType::Shortcuts] {
        assert_eq!(ParamType::parse(t.id()), Some(t));
    }
    assert_eq!(ParamType::parse("folder"), Some(ParamType::Path));
    assert_eq!(ParamType::parse("str"), None);
    assert_eq!(ParamType::Str.id(), "string");
}

#[test]
fn the_starter_apps_seed_fills_shortcuts() {
    assert_eq!(Seed::parse("starter-apps"), Some(Seed::StarterApps));
    assert_eq!(Seed::parse("starter"), None);
    assert_eq!(Seed::StarterApps.id(), "starter-apps");
    assert_eq!(Seed::StarterApps.param_type(), ParamType::Shortcuts);
}

#[test]
fn ungrouped_params_come_first_then_groups_as_they_appear() {
    let g = |s: &str| Some(s.to_string());
    let groups = vec![g("Motion"), None, g("Look"), g("Motion"), None];
    assert_eq!(group_order(&groups), vec![(None, vec![1, 4]), (g("Motion"), vec![0, 3]), (g("Look"), vec![2])]);
    assert_eq!(group_order(&[g("A")]), vec![(g("A"), vec![0])], "no ungrouped params: no empty group");
    assert_eq!(group_order(&[]), vec![]);
}
