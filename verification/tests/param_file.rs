use wayfinder_core::param_file::params_in;
use wayfinder_core::toml_doc::{parse_tree, TomlNode};
use wayfinder_core::widgets::meta::{ParamType, Seed};

fn params(src: &str) -> Result<Vec<wayfinder_core::param_file::ParamShape>, String> {
    params_in(&parse_tree(src).unwrap())
}

#[test]
fn params_take_labelled_choices_and_groups() {
    let src = "[params.speed]\ntype = 'enum'\ngroup = 'Motion'\nchoices = ['slow', { value = 'fast', label = 'Fast (30 fps)' }]\n[params.color]\ntype = 'color'\n[params.decay]\ntype = 'number'\ngroup = 'Motion'\n[params.bars]\ntype = 'number'\ngroup = 'Shape'\n[root]\ntype = 'box'";
    let ps = params(src).unwrap();
    let speed = ps.iter().find(|p| p.name == "speed").unwrap();
    let choices: Vec<(&str, &str)> = speed.choices.iter().map(|c| (c.value.as_str(), c.label.as_str())).collect();
    assert_eq!(choices, [("slow", "slow"), ("fast", "Fast (30 fps)")]);
    assert_eq!(speed.group.as_deref(), Some("Motion"));
    let pics = params("[params.pics]\ntype = 'folder'\n[root]\ntype = 'box'").unwrap();
    assert_eq!(pics[0].ty, ParamType::Path, "a folder picker");
    let e = params("[params.s]\ntype = 'enum'\nchoices = [{ label = 'x' }]\n[root]\ntype = 'box'").err().unwrap();
    assert!(e.contains("params.s.choices"), "{e}");
}

#[test]
fn seeds_are_checked_when_the_file_is_read() {
    let p = |extra: &str| params(&format!("[params.items]\ntype='shortcuts'\n{extra}\n[root]"));
    assert_eq!(p("seed='starter-apps'").unwrap()[0].seed, Some(Seed::StarterApps));
    let e = p("seed='starter-app'").err().unwrap();
    assert!(e.contains("did you mean `starter-apps`"), "{e}");
    let e = params("[params.t]\ntype='string'\nseed='starter-apps'\n[root]").err().unwrap();
    assert!(e.contains("needs type = \"shortcuts\""), "{e}");
}

#[test]
fn a_param_keeps_its_limits_and_default_as_written() {
    let ps = params("[params.n]\ntype='number'\nmin = 0\nmax = 2.5\nstep = 'x'\ndefault = 1\nlabel = 'Size'\nhelp = 'How big'\ngroup = '  '\nmodule = 'gauge'").unwrap();
    let n = &ps[0];
    assert_eq!((n.min.as_deref(), n.max.as_deref(), n.step.as_deref()), (Some("0"), Some("2.5"), None), "a limit that is no number is none");
    assert!(matches!(&n.default, Some(TomlNode::Number(t)) if t == "1"));
    assert_eq!((n.label.as_str(), n.help.as_str(), n.group.as_deref(), n.module.as_deref()), ("Size", "How big", None, Some("gauge")));
    let q = &params("[params.q]\ntype='bool'").unwrap()[0];
    assert_eq!((q.label.as_str(), q.help.as_str(), q.default.is_none()), ("q", "", true), "label is the name, help empty");
    assert_eq!(params("[params.q]\nlabel='x'").err().unwrap(), "params.q: missing `type`");
    assert_eq!(params("[params.q]\ntype='colour'").err().unwrap(), "params.q: unknown param type `colour`");
    assert_eq!(params("params = { q = 1 }").err().unwrap(), "params.q: expected a table");
    assert_eq!(params("[params.q]\ntype='enum'\nchoices = 'a'").err().unwrap(), "params.q.choices: expected a list");
    assert_eq!(params("[params.q]\ntype='shortcuts'\nseed = 1").err().unwrap(), "params.q.seed: expected a string");
    assert!(params("params = 3").unwrap().is_empty(), "a params that is no table is passed over");
}
