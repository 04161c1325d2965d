# prairiedog boot config

Boot configuration handling for Bottlerocket hosts, verified with Verus.

- `src/values.rs` reads one boot config value and comma-separated lists of values.
  Elements of a list are cut at byte offsets counted as character positions of
  the trimmed list; a cut inside a multi-byte character is where `str` slicing
  panics, so the readers require that none happens, and `try_parse_boot_config`
  and `try_parse_boot_config_values` report it as `None`.
- `src/text.rs` holds white space, trimming, and UTF-8 byte offsets of text.
- `src/validate.rs` holds the key and value rules, and checks parameters read
  from a settings file against them.
- `src/document.rs` reads a whole boot config text (as `/proc/bootconfig` holds it)
  into boot settings: `kernel.*` and `init.*` parameters in document order.
- `src/render.rs` writes boot settings out as brace-grouped boot config text for
  the kernel, keeping the order of the parameters.
- `src/reboot.rs` decides whether a change of boot settings needs a reboot.
- `src/params.rs` holds the ordered parameter maps (`indexmap::IndexMap`) and the
  trusted contracts of the `indexmap` calls used.
- `src/laws.rs`, `src/comments.rs`, `src/roundtrip.rs` and `src/pieces.rs` state
  and prove properties across these functions (the reboot decision, validity of
  what is read, comment lines changing nothing, reading back written value
  lists, unquoted lists reading as their comma-separated pieces).
- `app/` reads the settings file and `/proc/bootconfig`, writes the initrd image,
  and prints boot settings as JSON.
