# wayfinder_core

The verified core of Wayfinder, a desktop widget engine for Windows: the rules it keeps
for plugins and their manifests, network hosts, file associations, images and thumbnails,
icons, widget layouts, themes, and the settings window's actions and text fields. Every
function under `src/` carries a contract. Verus proves them all, except those of the few
functions that call the `toml` and `image` crates or std's case mapping: it takes those
on trust, and their doc comments say what they claim.

- `src/` — the library. `catalog`, `modules`, `module_file`, `widgets::meta` and `keyed`
  hold the widget-side rules (`module_file` reads a Widget's tiers, slots and Modules);
  `settings` the settings window's state machine (`Flow`), its text field and its log;
  `plugins`, `net`, `icons`, `thumbs`, `images`, `paths`, `platform::win32` and
  `workspace` the app-side rules; `strs`, `format` and `toml_doc` the string, suggestion
  and TOML helpers they share. `images` decodes image files through the `image` crate
  and decides what an animation keeps.
- `tests/` — tests on concrete values.
- `app/` — the program around the library: reading and writing files, packing an
  animation's frames into one texture, the plugin store on disk, worker threads.
