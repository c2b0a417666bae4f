# winlane

The verified core of Winlane, a keyboard-driven window switcher and launcher
for macOS. The library holds the decisions of the app, each with a contract
proved by Verus:

- `shortcuts`: the global shortcut router (which key events are swallowed and
  which panel action they trigger) and the switcher's selection; its laws are
  in `shortcut_laws`.
- `search`: scoring and ranking of windows for a query; laws in `search_laws`.
- `quicklinks`: link templates, destinations, validation, matching and
  importing exported quicklinks; laws in `quicklink_laws`.
- `inventory`: the WindowServer window inventory and the checks made against it.
- `file_search`: pacing of a Spotlight file search (when results are read,
  the batch deadline, giving up); `paste`: the timer that pastes a snippet
  into its target application.
- `numbers`, `paths`, `logging`, `environment`, `platform`: settings fields,
  application paths, log message bounds, launch environment, and small values
  exchanged with the macOS side.
- `text`: character classes, trimming and splitting used throughout.

`app/` is a small command-line program around the library: it cleans the
launch environment, imports a quicklinks export from a file and expands a
quicklink. The AppKit interface is not part of this crate.
