//! The logic of breadbox, an application launcher for Wayland desktops.
//!
//! Everything that the launcher decides or computes is here, on plain values:
//! what a desktop file describes, what the cache holds, which names match what
//! the user types, where an icon is looked for, what a key or a command on the
//! bus does. Each function states in its contract what it returns, over the
//! characters of the texts involved; the proof functions whose names begin with
//! `law_` state what holds of several of them together.
//!
//! Files, windows, processes and the network are left to the programs that use
//! the library. Where deciding and looking alternate, the library holds the
//! state: see [`search`], [`list`] and [`manifest`].
//!
//! - [`desktop`], [`cache`]: from desktop files to the entries of the launcher.
//! - [`matching`], [`rows`], [`list`]: filtering, selecting, keys.
//! - [`launch`], [`startup`], [`commands`]: what is run, and when.
//! - [`icons`], [`search`], [`manifest`]: from icon names to files.
//! - [`config`], [`workspace`], [`theme`], [`style`], [`screenshot`]: settings,
//!   looks and captures.
//! - [`text`], [`order`], [`numbers`], [`paths`]: what the others are made of.
pub mod cache;
pub mod commands;
pub mod config;
pub mod desktop;
pub mod icons;
pub mod launch;
pub mod list;
pub mod manifest;
pub mod matching;
pub mod numbers;
pub mod order;
pub mod paths;
pub mod rows;
pub mod screenshot;
pub mod search;
pub mod startup;
pub mod style;
pub mod text;
pub mod theme;
pub mod workspace;
