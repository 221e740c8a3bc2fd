# GD Gear Compare

A local tool for comparing Grim Dawn items against the gear a character has
equipped, weighted by the player's own stat priorities.

## Layout

- `src/` — the verified library (Verus):
  - `json.rs`: the JSON document model the other modules read, and JSON
    text parsing (through `serde_json`).
  - `save_parser.rs`: equipped gear (12 body slots plus the active weapon
    set), bag items and stash items out of a character save's JSON; the
    identity key of a bag/stash item; character folder listing; the
    default save folder.
  - `catalog.rs`: the item/affix catalog indexed by DBR record path.
  - `stats.rs`: which stat lines an item carries and where each line's
    number comes from; priority weights; the theoretical best score.
  - `resolve.rs`: a save item resolved against the catalog.
  - `import.rs`: grim_gleaner profile import.
  - `settings.rs`: app settings and the save-folder check.
  - `text.rs`: decimal rendering, blank text, suffixes, number syntax.
- `app/` — the program around it: file and HTTP I/O, the browser and
  message-box plumbing, serde forms of the library types, and the
  floating-point scoring (priority score, letter grade, resistance impact).
- `tests/` — tests of the library.
