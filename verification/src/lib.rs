//! A sidebar for a terminal editor: the files of a project, what git sees changed in it, its
//! history, and the dialogs and formatters that go with them.

pub mod text;
pub mod json;
pub mod xml;
pub mod number;
pub mod split;
pub mod path;
pub mod format;
pub mod git;
pub mod screen;
pub mod list;
pub mod order;
pub mod entries;
pub mod message;
pub mod age;
pub mod diff_view;
pub mod changes;
pub mod confirm;
pub mod ask;
pub mod busy;
pub mod context_menu;
pub mod session;
pub mod panel_width;
pub mod commands;
pub mod files;
pub mod file_tree;
pub mod sidebar;
