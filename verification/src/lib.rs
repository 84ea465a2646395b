//! Compares two directory trees (a snapshot taken at boot and the live tree)
//! and grades each difference as meaningful or not.
pub mod names;
pub mod typed_actions;
pub mod diff_util;
pub mod thunk;
pub mod typed_path;
pub mod dir_diff;
pub mod assesser;
pub mod tui;
