use wayfinder_core::module_file::read_module_set;

const MODS: &str = "
[tiers.small]
when = '{self.w < 80}'
[tiers.wide]
label = 'Wide'
size = [320, 120.5]
layout = { row = ['a', 'g', 'b'] }
[slots.row]
[slots.col]
label = 'Column'
[modules.a]
label = 'A'
[modules.b]
slots = ['row']
legacy = { b = 'show_b' }
[modules.g]
for = '{clock.list}'
as = 'x'
key = '{x.id}'
label = 'GPU {x.id}'
type = 'text'
[root]
type = 'box'
";

#[test]
fn tiers_slots_and_modules_are_read_with_their_defaults() {
    let set = read_module_set(MODS).unwrap().expect("the file declares modules");
    let tiers: Vec<_> = set.tiers.iter().map(|t| (t.name.as_str(), t.label.as_str(), t.when.as_deref(), t.size.clone())).collect();
    assert_eq!(
        tiers,
        [
            ("small", "small", Some("{self.w < 80}"), None),
            ("wide", "Wide", None, Some(("320".to_string(), "120.5".to_string()))),
        ],
        "a tier without a label is called by its name; its size is the preview default"
    );
    assert_eq!(set.tiers[1].layout, [("row".to_string(), vec!["a".to_string(), "g".to_string(), "b".to_string()])]);
    let slots: Vec<_> = set.slots.iter().map(|s| (s.name.as_str(), s.label.as_str())).collect();
    assert_eq!(slots, [("col", "Column"), ("row", "row")]);
    let b = &set.modules[1];
    assert_eq!((b.name.as_str(), b.label.as_str(), b.slots.clone(), b.legacy.clone()), ("b", "b", vec!["row".to_string()], vec![("b".to_string(), "show_b".to_string())]));
    let g = &set.modules[2];
    assert_eq!(g.each, Some(("{clock.list}".to_string(), "x".to_string(), Some("{x.id}".to_string()))));
    assert_eq!(g.label, "GPU {x.id}");
    assert_eq!(g.body.iter().map(|(k, _)| k.as_str()).collect::<Vec<_>>(), ["type"], "what is left is the module's element");
    assert!(read_module_set("[root]\ntype = 'box'").unwrap().is_none(), "no modules at all");
}

#[test]
fn a_widget_that_names_no_module_or_slot_it_declares_is_rejected() {
    let bad = |extra: &str| read_module_set(&format!("[tiers.a]\n{extra}\n[slots.row]\n[modules.a]\n[root]\ntype='box'")).err().unwrap();
    assert!(bad("layout = { rwo = ['a'] }").contains("did you mean `row`"));
    assert!(bad("layout = { row = ['b'] }").contains("unknown module `b`"));
}

#[test]
fn each_mistake_in_the_tables_is_named() {
    let err = |src: &str| read_module_set(src).err().unwrap();
    assert_eq!(err("[tiers.a]\nlabl = 'x'"), "tiers.a: unknown key `labl` (did you mean `label`?)");
    assert_eq!(err("[tiers.a]\nsize = [1]"), "tiers.a.size: expected [width, height]");
    assert_eq!(err("[tiers.a]\nsize = ['x', 2]"), "tiers.a.size: width is not a number");
    assert_eq!(err("[tiers.a]\nwhen = 3"), "tiers.a.when: expected a string");
    assert_eq!(err("[tiers.a]\nlayout = { row = 'a' }"), "tiers.a.layout.row: expected a list of module names");
    assert_eq!(err("tiers = 3"), "tiers: expected a table");
    assert_eq!(err("[slots.row]\n[modules.a]"), "modules: declare at least one [tiers.<name>]");
    assert_eq!(err("[tiers.a]\n[modules.m]\nlabel = 1"), "modules.m.label: expected a string");
    assert_eq!(err("[tiers.a]\n[modules.m]\nslots = 'row'"), "modules.m.slots: expected a list of names");
    assert_eq!(err("[tiers.a]\n[modules.m]\nlegacy = { x = 1 }"), "modules.m.legacy.x: expected a param name");
    assert_eq!(err("[tiers.a]\n[modules.m]\nslots = ['nope']"), "modules.m.slots: unknown slot `nope`");
    assert_eq!(err("[tiers.a]\n[modules.m]\nfor = '{x}'\nkey = 2"), "modules.m.key: expected a string");
    let set = read_module_set("[tiers.a]\n[modules.'{b}']").unwrap().unwrap();
    assert_eq!(set.modules[0].label, "{{b}}", "a name is the label as plain text");
    assert_eq!(set.modules[0].each, None);
}
