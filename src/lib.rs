//! Hosts-file engine: reads hosts-file text into named groups of entries,
//! writes entry lists back as hosts-file lines, and validates IP addresses.

pub mod text;
pub mod ip;
pub mod hosts;
pub mod command;
pub mod laws;

pub use command::{get_groups, is_ip, update_text_by_list, GroupDTO};
pub use hosts::Item;
