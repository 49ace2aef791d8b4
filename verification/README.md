# breadbox

An application launcher for Hyprland and other Wayland desktops, with its logic
written and proved in Verus.

- `src/` is the library: parsing of desktop files, the cache of applications,
  fuzzy matching, the list and its keys, the resolution of icons, the manifest of
  icons, contexts per workspace, the commands and events on the bus, and the style
  sheet. Every function has a contract. The functions named `law_...` state what
  holds across functions: that the cache gives back what was written to it, that
  what Enter launches matches what was typed, that an icon on this machine is
  preferred to a download, that a second launcher kills the first.
- `app/` holds the programs around it. They read and write files, talk to GTK, to
  Hyprland and to the bus, and download icons; the library tells them what to do.
  One executable serves as `breadbox`, `breadbox-sync` and `breadbox-classic`.
- `tests/` runs the library on concrete values.

## What is not proved

The library calls a few functions of the standard library and of `serde_json`
whose behaviour is stated and not proved. Each stands in a small function of its
own, with a comment that says what is claimed:

| where | calls |
|-------|-------|
| `src/text.rs` | `String::push` |
| `src/matching.rs` | `char::to_lowercase` |
| `src/icons.rs` | `char::is_alphanumeric` |
| `src/manifest.rs` | `serde_json::from_str` into a `BTreeMap`, and the walk through it |
| `src/manifest.rs` | collecting pairs with distinct keys into a `BTreeMap`, `serde_json::to_string_pretty` |
| `src/workspace.rs` | `serde_json::from_str` |

## Configuration

`~/.config/breadbox/config.toml` says which applications come first on which
workspace. The workspace `default` stands for every other.

```toml
[[context]]
name = "default"
priority = ["firefox", "code", "obsidian", "kitty"]

[[context]]
name = "2"
priority = ["slack", "discord"]
```
