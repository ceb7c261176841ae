# hypr-kblayoutd

A small Hyprland daemon that remembers the keyboard layout of each window, and of layer
surfaces such as launchers, and restores it when the focus moves.

`src/` holds every decision of the daemon, verified with Verus: how a line of the event
socket reads, what each event changes, which layout to switch to and which keyboards to
switch, how snapshots of the mapped layers settle an event, how the configuration and
Hyprland's replies are read. `src/model.rs` says what each step does to the state, and
`src/laws.rs` what holds over any number of steps. `app/` is the daemon around it: sockets,
files, the environment and the logger.

The trusted base is small: the regular expressions of `regex-lite` (`src/rules.rs`) and the
quoting of strings by the standard library (`src/config.rs`).

## Configuration

Read from `~/.config/hypr-kblayoutd/config.toml`, if it exists:

```toml
[keyboards]
# If non-empty, only these keyboards are switched and watched.
include = ["keychron-keychron-k2"]
# Used for learned keyboards.
exclude_contains = ["wlr_virtual_keyboard_v", "yubikey"]

# Layouts for new windows, by class. Keys are also regexes, matched against the whole
# class; exact entries win over patterns.
[default_layouts]
"org.telegram.desktop" = 1
"chrome-.*whatsapp.*" = 1

# Layer surfaces that hold the keyboard while they are mapped, by namespace.
[layer_layouts]
"rofi" = 0
```
