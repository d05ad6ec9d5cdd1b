//! Names of files, directories and keys.

use vstd::prelude::*;

verus! {

pub const CODEX_DIR: &'static str = ".codex";

pub const CURSOR_DIR: &'static str = ".cursor";

pub const GEMINI_DIR: &'static str = ".gemini";

pub const HOOKS_SUBDIR: &'static str = "hooks";

pub const REWRITE_HOOK_FILE: &'static str = "rtk-rewrite.sh";

pub const REWRITE_HOOK_PS1_FILE: &'static str = "rtk-rewrite.ps1";

pub const GEMINI_HOOK_FILE: &'static str = "rtk-hook-gemini.sh";

pub const OPENCODE_PLUGIN_PATH: &'static str = ".config/opencode/plugins/rtk.ts";

pub const SETTINGS_JSON: &'static str = "settings.json";

pub const PRE_TOOL_USE_KEY: &'static str = "PreToolUse";

pub const RTK_DATA_DIR: &'static str = "rtk";

} // verus!
