use wayfinder_core::keyed::Keyed;
use wayfinder_core::modules::{fits, names, place, validate_modules, Arrangement, Placed, PlacedSlot, TierLayout};
use wayfinder_core::widgets::meta::ModuleMeta;

fn module(name: &str, slots: &[&str]) -> ModuleMeta {
    ModuleMeta { name: name.into(), label: name.into(), slots: slots.iter().map(|s| s.to_string()).collect(), legacy: vec![] }
}

fn layout(slots: &[(&str, &[&str])]) -> Keyed<Vec<String>> {
    let mut k = Keyed::new();
    for (s, es) in slots {
        k.put(s.to_string(), es.iter().map(|e| e.to_string()).collect());
    }
    k
}

#[test]
fn a_module_lands_once_and_only_where_it_is_allowed() {
    let ms = vec![module("x", &["row"]), module("y", &["row", "col"]), module("z", &["row"])];
    let insts: Vec<(String, usize)> = vec![("x".into(), 0), ("y".into(), 1), ("z".into(), 2)];
    let placed = place(&ms, &insts, &layout(&[("row", &["x", "y"]), ("col", &["z"])]));
    assert_eq!(placed.get("row"), Some(&vec![0, 1]), "x and y");
    assert!(placed.get("col").unwrap().is_empty(), "z is not allowed in col");
    let moved = layout(&[("col", &["y"]), ("row", &["y", "x"])]);
    let placed = place(&ms, &insts, &moved);
    assert_eq!((placed.get("col").unwrap(), placed.get("row").unwrap()), (&vec![1], &vec![0]), "y is placed once, in the first slot that names it");
}

#[test]
fn an_entry_names_an_id_a_module_or_a_prefix() {
    assert!(names("gauge:gpu0", "gauge:gpu0", "gauge"));
    assert!(names("gauge", "gauge:gpu0", "gauge"));
    assert!(names("gauge:gpu*", "gauge:gpu1", "gauge"));
    assert!(!names("gauge:cpu*", "gauge:gpu1", "gauge"));
    assert!(!names("graph", "gauge:gpu1", "gauge"));
    assert!(fits(&module("a", &[]), "anywhere"));
    assert!(fits(&module("a", &["row"]), "row"));
    assert!(!fits(&module("a", &["row"]), "col"));
}

#[test]
fn items_of_a_for_module_go_by_prefix_in_instance_order() {
    let ms = vec![module("gauge", &[])];
    let insts: Vec<(String, usize)> = vec![("gauge:gpu1".into(), 0), ("gauge:cpu".into(), 0), ("gauge:gpu0".into(), 0)];
    let placed = place(&ms, &insts, &layout(&[("a", &["gauge:cpu", "gauge:gpu*"]), ("b", &["gauge"])]));
    assert_eq!(placed.get("a"), Some(&vec![1, 0, 2]), "the named one first, then the prefix in instance order");
    assert_eq!(placed.get("b"), Some(&vec![]), "nothing left for the whole module");
    assert_eq!(placed.len(), 2);
}

fn p(id: &str) -> Placed {
    Placed { id: id.into(), module: id.into(), label: id.into(), key: id.into() }
}

#[test]
fn the_saved_layout_keeps_cut_modules_after_the_placed_ones() {
    let a = Arrangement {
        tier: "big".into(),
        slots: vec![
            PlacedSlot { name: "row".into(), label: "Row".into(), key: "r".into(), modules: vec![p("x")], cut: vec![p("y")] },
            PlacedSlot { name: "col".into(), label: "Col".into(), key: "c".into(), modules: vec![], cut: vec![] },
        ],
        hidden: vec![p("z")],
    };
    let l = a.as_layout();
    assert_eq!(l.get("row"), Some(&vec!["x".to_string(), "y".to_string()]));
    assert_eq!(l.get("col"), Some(&vec![]));
    assert_eq!(l.len(), 2);
    assert_eq!(l.at(0).0, "col", "kept in name order");
}

#[test]
fn a_later_put_replaces_an_earlier_one_and_keys_stay_sorted() {
    let mut k: Keyed<u32> = Keyed::new();
    k.put("b".into(), 1);
    k.put("a".into(), 2);
    k.put("c".into(), 3);
    k.put("b".into(), 4);
    assert_eq!(k.len(), 3);
    assert_eq!((k.at(0).0.as_str(), *k.at(0).1), ("a", 2));
    assert_eq!((k.at(1).0.as_str(), *k.at(1).1), ("b", 4));
    assert_eq!((k.at(2).0.as_str(), *k.at(2).1), ("c", 3));
    assert_eq!(k.get("d"), None);
}

#[test]
fn extending_a_map_lets_the_later_layer_win() {
    let mut base: Keyed<u32> = Keyed::new();
    base.put("a".into(), 1);
    base.put("b".into(), 2);
    let mut layer: Keyed<u32> = Keyed::new();
    layer.put("c".into(), 4);
    layer.put("b".into(), 3);
    base.extend(layer);
    assert_eq!((base.get("a"), base.get("b"), base.get("c")), (Some(&1), Some(&3), Some(&4)));
    let e = base.into_entries();
    assert_eq!(e, vec![("a".to_string(), 1), ("b".to_string(), 3), ("c".to_string(), 4)]);
}

fn tier(name: &str, layout: &[(&str, &[&str])]) -> TierLayout {
    TierLayout {
        tier: name.into(),
        layout: layout.iter().map(|(s, es)| (s.to_string(), es.iter().map(|e| e.to_string()).collect())).collect(),
    }
}

#[test]
fn a_layout_may_name_only_declared_slots_and_modules() {
    let slots: Vec<String> = vec!["gauges".into(), "footer".into()];
    let modules = vec![module("gauge", &["gauges"]), module("clock", &["gauges", "footer"])];
    let ok = vec![tier("normal", &[("gauges", &["gauge:cpu", "gauge:ram"]), ("footer", &["clock"])])];
    assert_eq!(validate_modules(&slots, &modules, &ok), Ok(()));
    assert_eq!(validate_modules(&slots, &modules, &vec![]), Err("modules: declare at least one [tiers.<name>]".to_string()));
    let stray = vec![module("gauge", &["gauge"])];
    assert_eq!(
        validate_modules(&slots, &stray, &ok),
        Err("modules.gauge.slots: unknown slot `gauge` (did you mean `gauges`?)".to_string())
    );
    let bad_slot = vec![tier("large", &[("fotter", &["clock"])])];
    assert_eq!(
        validate_modules(&slots, &modules, &bad_slot),
        Err("tiers.large.layout: unknown slot `fotter` (did you mean `footer`?)".to_string())
    );
    let bad_module = vec![tier("normal", &[("gauges", &["gauge:cpu", "weather:today"])])];
    assert_eq!(
        validate_modules(&slots, &modules, &bad_module),
        Err("tiers.normal.layout.gauges: unknown module `weather:today`".to_string()),
        "nothing close: no suggestion"
    );
}
