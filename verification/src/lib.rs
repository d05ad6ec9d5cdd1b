//! Shortens what common commands print, and says whether the hook that runs them
//! in this way is installed.

pub mod constants;
pub mod dates;
pub mod echo;
pub mod hook_check;
pub mod hook_laws;
pub mod json;
pub mod listing;
pub mod listing_laws;
pub mod ls;
pub mod ls_laws;
pub mod native_laws;
pub mod native_ls;
pub mod number;
pub mod path_laws;
pub mod paths;
pub mod pattern;
pub mod prefix;
pub mod size;
pub mod sort;
pub mod std_text;
pub mod text;
pub mod text_laws;
pub mod tracking;
pub mod view_laws;
pub mod wc_cmd;
pub mod wc_laws;
