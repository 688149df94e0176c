use wayfinder_core::text::TextAlign;
use wayfinder_core::keyed::Keyed;
use wayfinder_core::theme::{Selection, Theme, ThemePick};

#[test]
fn the_default_selection_is_midnight_system_fluent() {
    let s = Selection::default();
    assert_eq!((s.palette.as_str(), s.fonts.as_str(), s.glyphs.as_str(), s.icon_pack.as_str()), ("Midnight", "System", "Fluent", "Default"));
}

#[test]
fn an_instance_pick_overrides_only_the_axes_it_sets() {
    let global = Selection::default();
    let pick = ThemePick { palette: Some("Daylight".into()), icon_pack: Some("Neon".into()), ..ThemePick::default() };
    let s = pick.resolve(&global);
    assert_eq!((s.palette.as_str(), s.fonts.as_str(), s.glyphs.as_str(), s.icon_pack.as_str()), ("Daylight", "System", "Fluent", "Neon"));
    assert!(!pick.is_empty());
    assert!(ThemePick::default().is_empty());
    assert_eq!(ThemePick::default().resolve(&global), global);
}

#[test]
fn text_aligns_by_name() {
    assert_eq!(TextAlign::parse("center"), TextAlign::Center);
    assert_eq!(TextAlign::parse("right"), TextAlign::Right);
    assert_eq!(TextAlign::parse("end"), TextAlign::Right);
    assert_eq!(TextAlign::parse("left"), TextAlign::Left);
    assert_eq!(TextAlign::parse("Center"), TextAlign::Left);
    assert_eq!(TextAlign::default(), TextAlign::Left);
}

use wayfinder_core::theme::{axis_slot, pick_axis};

#[test]
fn an_unknown_axis_falls_back_to_the_default_then_the_first() {
    let names: Vec<String> = ["Midnight", "Daylight", "Aurora"].iter().map(|s| s.to_string()).collect();
    assert_eq!(pick_axis(&names, "Daylight", "Midnight"), 1);
    assert_eq!(pick_axis(&names, "Removed", "Midnight"), 0);
    assert_eq!(pick_axis(&names, "Removed", "Aurora"), 2);
    assert_eq!(pick_axis(&names, "Removed", "Also gone"), 0);
    assert_eq!(axis_slot(&names, "Aurora"), Some(2));
    assert_eq!(axis_slot(&names, "midnight"), None);
}

fn tokens(pairs: &[(&str, &str)]) -> Keyed<String> {
    let mut k = Keyed::new();
    for (name, v) in pairs {
        k.put(name.to_string(), v.to_string());
    }
    k
}

#[test]
fn style_layers_win_over_the_palette_and_the_palette_over_the_base() {
    let sizes = tokens(&[("radius-md", "14"), ("outlines", "true"), ("blur", "false")]);
    let shipped = tokens(&[("accent", "#6ea8ff"), ("surface", "#0b1020"), ("text", "#e6ebf5")]);
    let glyphs = tokens(&[("glyph-gear", "\u{E713}")]);
    let fonts = tokens(&[("font-body", "Segoe UI")]);
    let daylight = tokens(&[("accent", "#3366ff"), ("text", "#141a2a")]);
    let global = tokens(&[("accent", "#111111"), ("blur", "true")]);
    let mine = tokens(&[("accent", "#222222")]);
    let t = Theme::compose(sizes, shipped, glyphs, fonts, daylight, vec![global, mine]);
    let get = |n: &str| t.get(n).map(|v| v.as_str());
    assert_eq!(get("accent"), Some("#222222"), "instance beats global");
    assert_eq!(get("blur"), Some("true"), "global beats base");
    assert_eq!(get("text"), Some("#141a2a"), "the palette beats what shipped");
    assert_eq!(get("surface"), Some("#0b1020"), "the rest of the shipped palette still applies");
    assert_eq!(get("radius-md"), Some("14"));
    assert_eq!(get("glyph-gear"), Some("\u{E713}"));
    assert_eq!(get("no-such-token"), None, "a token nobody sets has no value");
    assert_eq!(t.names(), ["accent", "blur", "font-body", "glyph-gear", "outlines", "radius-md", "surface", "text"]);
}

#[test]
fn without_layers_the_axes_are_the_theme() {
    let t = Theme::compose(tokens(&[("stroke", "1")]), Keyed::new(), tokens(&[("font-glyph", "Segoe UI Symbol")]), Keyed::new(), tokens(&[("accent", "#6ea8ff")]), vec![]);
    assert_eq!(t.get("font-glyph").map(|v| v.as_str()), Some("Segoe UI Symbol"));
    assert_eq!(t.get("accent").map(|v| v.as_str()), Some("#6ea8ff"), "the palette is untouched by the glyph set");
    assert_eq!(t.names().len(), 3);
}
