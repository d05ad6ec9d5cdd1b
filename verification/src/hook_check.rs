//! Whether the rewrite hook is installed, and the warning where it is not.

use crate::constants::{
    CODEX_DIR, CURSOR_DIR, GEMINI_DIR, GEMINI_HOOK_FILE,
    HOOKS_SUBDIR, OPENCODE_PLUGIN_PATH, PRE_TOOL_USE_KEY, REWRITE_HOOK_FILE, REWRITE_HOOK_PS1_FILE,
    RTK_DATA_DIR, SETTINGS_JSON,
};
use crate::json::{json_document, json_view, member, parse_json, Json, JsonView};
use crate::number::{
    decimal, decimal_holds_digits, decimal_holds_no_space, decimal_reads_back, parse_number,
    parse_unsigned,
};
use crate::paths::{join_path, joined_path};
use crate::prefix::PathStyle;
use crate::text::{
    appended_lines, at_most, first_line, is_white_space, lines, split_lines, starts_with, trim,
    trim_start, trimmed, views, without_cr,
};
use vstd::prelude::*;

verus! {

/// The version that a hook must have at least.
pub const CURRENT_HOOK_VERSION: u8 = 3;

/// For how many seconds after a warning no other one is given.
pub const WARN_INTERVAL_SECS: u64 = 24 * 3600;

/// How the hook stands.
#[derive(Debug, Clone, Copy, PartialEq, Eq, Structural)]
pub enum HookStatus {
    /// The hook is installed and up to date, or none is needed.
    UpToDate,
    /// The hook exists, but is outdated or unreadable.
    Outdated,
    /// There is no hook.
    Missing,
}

/// The version that one line of a hook declares.
pub open spec fn declared_version(line: Seq<char>) -> Option<nat> {
    let tag = "# rtk-hook-version:"@;
    if tag.is_prefix_of(line) {
        parse_unsigned(trim(line.skip(tag.len() as int)), 255)
    } else {
        None
    }
}

/// The version that the first of the lines to declare one declares, or zero.
pub open spec fn first_version(rows: Seq<Seq<char>>) -> nat
    decreases rows.len(),
{
    if rows.len() == 0 {
        0
    } else {
        match declared_version(rows[0]) {
            Some(v) => v,
            None => first_version(rows.drop_first()),
        }
    }
}

/// The version of a hook: the first that its five leading lines declare, or
/// zero.
pub open spec fn hook_version(content: Seq<char>) -> nat {
    first_version(at_most(lines(content), 5))
}

fn line_version(line: &str) -> (r: Option<u8>)
    ensures
        match r {
            Some(v) => declared_version(line@) == Some(v as nat),
            None => declared_version(line@) is None,
        },
{
    let tag = "# rtk-hook-version:";
    if !starts_with(line, tag) {
        return None;
    }
    let rest = line.substring_char(tag.unicode_len(), line.unicode_len());
    assert(rest@ =~= line@.skip(tag@.len() as int));
    let number = trimmed(rest);
    match parse_number(number.as_str(), 255) {
        Some(v) => Some(v as u8),
        None => None,
    }
}

/// Reads the version of a hook.
pub fn parse_hook_version(content: &str) -> (r: u8)
    ensures
        r == hook_version(content@),
{
    let rows = split_lines(content);
    let ghost all = at_most(lines(content@), 5);
    let mut i: usize = 0;
    proof {
        assert(views(rows@).len() == rows@.len());
        assert(all.skip(0) =~= all);
    }
    while i < rows.len() && i < 5
        invariant
            i <= rows.len(),
            i <= 5,
            views(rows@) == lines(content@),
            rows@.len() == views(rows@).len(),
            all == at_most(lines(content@), 5),
            first_version(all) == first_version(all.skip(i as int)),
        decreases 5 - i,
    {
        assert(all.skip(i as int)[0] == rows@[i as int]@);
        match line_version(rows[i].as_str()) {
            Some(v) => {
                return v;
            },
            None => {},
        }
        assert(all.skip(i as int).drop_first() =~= all.skip(i + 1));
        i = i + 1;
    }
    0
}

/// Whether an entry of the settings runs `command`.
pub open spec fn entry_runs(entry: JsonView, command: Seq<char>) -> bool {
    match member(entry, "hooks"@) {
        Some(JsonView::List(hooks)) => exists|j: int|
            0 <= j < hooks.len() && #[trigger] member(hooks[j], "command"@) == Some(
                JsonView::Text(command),
            ),
        _ => false,
    }
}

/// Whether the settings `root` run `command` before a tool is used.
pub open spec fn command_registered(root: JsonView, command: Seq<char>) -> bool {
    match member(root, "hooks"@) {
        Some(hooks) => match member(hooks, PRE_TOOL_USE_KEY@) {
            Some(JsonView::List(entries)) => exists|i: int|
                0 <= i < entries.len() && #[trigger] entry_runs(entries[i], command),
            _ => false,
        },
        None => false,
    }
}

fn runs_command(entry: &Json, command: &str) -> (r: bool)
    ensures
        r == entry_runs(json_view(*entry), command@),
{
    match entry.get("hooks") {
        Some(Json::List(hooks)) => {
            let ghost all = json_view(Json::List(*hooks))->List_0;
            let mut j: usize = 0;
            while j < hooks.len()
                invariant
                    j <= hooks.len(),
                    all == json_view(Json::List(*hooks))->List_0,
                    member(json_view(*entry), "hooks"@) == Some(JsonView::List(all)),
                    forall|k: int|
                        0 <= k < j ==> #[trigger] member(all[k], "command"@) != Some(
                            JsonView::Text(command@),
                        ),
                decreases hooks.len() - j,
            {
                assert(all[j as int] == json_view(hooks@[j as int]));
                match hooks[j].get("command") {
                    Some(Json::Text(text)) => {
                        if crate::text::same_text(text.as_str(), command) {
                            assert(member(all[j as int], "command"@) == Some(
                                JsonView::Text(command@),
                            ));
                            return true;
                        }
                    },
                    _ => {},
                }
                j = j + 1;
            }
            false
        },
        _ => false,
    }
}

/// Whether the settings `root` run `command` before a tool is used.
pub fn registers_command(root: &Json, command: &str) -> (r: bool)
    ensures
        r == command_registered(json_view(*root), command@),
{
    let hooks = match root.get("hooks") {
        Some(h) => h,
        None => {
            return false;
        },
    };
    match hooks.get(PRE_TOOL_USE_KEY) {
        Some(Json::List(entries)) => {
            let ghost all = json_view(Json::List(*entries))->List_0;
            let mut i: usize = 0;
            while i < entries.len()
                invariant
                    i <= entries.len(),
                    all == json_view(Json::List(*entries))->List_0,
                    member(json_view(*root), "hooks"@) == Some(json_view(*hooks)),
                    member(json_view(*hooks), PRE_TOOL_USE_KEY@) == Some(JsonView::List(all)),
                    forall|k: int| 0 <= k < i ==> !#[trigger] entry_runs(all[k], command@),
                decreases entries.len() - i,
            {
                assert(all[i as int] == json_view(entries@[i as int]));
                if runs_command(&entries[i], command) {
                    return true;
                }
                i = i + 1;
            }
            false
        },
        _ => false,
    }
}

/// The command that serves as the hook of `tool`.
pub open spec fn hook_command(tool: Seq<char>) -> Seq<char> {
    "rtk hook "@ + tool
}

/// Whether the text of a settings file registers the hook of `tool`.
pub open spec fn settings_register(settings: Option<Seq<char>>, tool: Seq<char>) -> bool {
    match settings {
        Some(content) => trim(content).len() > 0 && match json_document(content) {
            Some(root) => command_registered(root, hook_command(tool)),
            None => false,
        },
        None => false,
    }
}

/// The text of an optional string.
pub open spec fn opt_view(s: Option<String>) -> Option<Seq<char>> {
    match s {
        Some(t) => Some(t@),
        None => None,
    }
}

/// Whether the settings register the hook of `tool`. `settings` is what its
/// settings file holds, where it can be read.
pub fn binary_hook_registered(settings: &Option<String>, tool: &str) -> (r: bool)
    ensures
        r == settings_register(opt_view(*settings), tool@),
{
    match settings {
        Some(content) => {
            let bare = trimmed(content.as_str());
            if bare.as_str().is_empty() {
                return false;
            }
            match parse_json(content.as_str()) {
                Some(root) => {
                    let mut command = "rtk hook ".to_owned();
                    command.append(tool);
                    registers_command(&root, command.as_str())
                },
                None => false,
            }
        },
        None => false,
    }
}

/// A hook script, as it was found.
#[derive(Debug)]
pub enum ScriptFile {
    Absent,
    Unreadable,
    Readable(String),
}

/// What was found of the hook of a tool.
#[derive(Debug)]
pub struct HookProbe {
    /// The name of the tool.
    pub tool: String,
    /// Whether there is a home directory.
    pub home_found: bool,
    /// Whether the tool's directory is in it.
    pub tool_dir_found: bool,
    /// What the settings file holds, where it can be read.
    pub settings: Option<String>,
    /// The script for a Unix shell.
    pub shell_hook: ScriptFile,
    /// The script for PowerShell.
    pub powershell_hook: ScriptFile,
}

/// How the script that a shell would run stands.
pub open spec fn script_status(script: ScriptFile) -> HookStatus {
    match script {
        ScriptFile::Absent => HookStatus::Missing,
        ScriptFile::Unreadable => HookStatus::Outdated,
        ScriptFile::Readable(content) => if hook_version(content@) >= CURRENT_HOOK_VERSION {
            HookStatus::UpToDate
        } else {
            HookStatus::Outdated
        },
    }
}

/// How the hook stands, given whether the settings register it. Without the tool
/// no hook is needed. A script beside a registered hook was left behind. Of two
/// scripts the one for the Unix shell counts.
pub open spec fn status_of(probe: HookProbe, registered: bool) -> HookStatus {
    if !probe.home_found || !probe.tool_dir_found {
        HookStatus::UpToDate
    } else if registered {
        if probe.shell_hook is Absent {
            HookStatus::UpToDate
        } else {
            HookStatus::Outdated
        }
    } else if probe.shell_hook is Absent {
        script_status(probe.powershell_hook)
    } else {
        script_status(probe.shell_hook)
    }
}

fn judge_script(script: &ScriptFile) -> (r: HookStatus)
    ensures
        r == script_status(*script),
{
    match script {
        ScriptFile::Absent => HookStatus::Missing,
        ScriptFile::Unreadable => HookStatus::Outdated,
        ScriptFile::Readable(content) => {
            if parse_hook_version(content.as_str()) >= CURRENT_HOOK_VERSION {
                HookStatus::UpToDate
            } else {
                HookStatus::Outdated
            }
        },
    }
}

/// Judges what was found, given whether the settings register the hook.
pub fn judge(probe: &HookProbe, registered: bool) -> (r: HookStatus)
    ensures
        r == status_of(*probe, registered),
{
    if !probe.home_found || !probe.tool_dir_found {
        return HookStatus::UpToDate;
    }
    let shell_hook_absent = matches!(probe.shell_hook, ScriptFile::Absent);
    if registered {
        if shell_hook_absent {
            HookStatus::UpToDate
        } else {
            HookStatus::Outdated
        }
    } else if shell_hook_absent {
        judge_script(&probe.powershell_hook)
    } else {
        judge_script(&probe.shell_hook)
    }
}

/// How the hook stands.
pub fn status(probe: &HookProbe) -> (r: HookStatus)
    ensures
        r == status_of(*probe, settings_register(opt_view(probe.settings), probe.tool@)),
{
    let registered = binary_hook_registered(&probe.settings, probe.tool.as_str());
    judge(probe, registered)
}

/// The file that remembers when a warning was last given.
#[derive(Debug)]
pub enum WarnMarker {
    /// There is no place for it.
    NoPlace,
    /// It does not exist, or does not say when it was written.
    Absent,
    /// It was written so many seconds ago. Without a number, the clock has been
    /// set back since.
    Touched(Option<u64>),
}

/// The warning that a status calls for.
pub open spec fn warning_for(status: HookStatus) -> Option<Seq<char>> {
    match status {
        HookStatus::UpToDate => None,
        HookStatus::Missing => Some(
            "[rtk] /!\\ No hook installed — run `rtk init -g` for automatic token savings"@,
        ),
        HookStatus::Outdated => Some("[rtk] /!\\ Hook outdated — run `rtk init -g` to update"@),
    }
}

/// Whether a warning may be given: there is a place to remember it, and the
/// last one is a day old or older.
pub open spec fn warning_due(marker: WarnMarker) -> bool {
    match marker {
        WarnMarker::NoPlace => false,
        WarnMarker::Absent => true,
        WarnMarker::Touched(Some(age)) => age >= WARN_INTERVAL_SECS,
        WarnMarker::Touched(None) => true,
    }
}

/// The warning to give now.
pub open spec fn warning_now(status: HookStatus, marker: WarnMarker) -> Option<Seq<char>> {
    if warning_due(marker) {
        warning_for(status)
    } else {
        None
    }
}

/// Decides on a warning. Whoever gives it writes the marker after it.
pub fn check_and_warn(status: HookStatus, marker: &WarnMarker) -> (r: Option<&'static str>)
    ensures
        match r {
            Some(text) => warning_now(status, *marker) == Some(text@),
            None => warning_now(status, *marker) is None,
        },
{
    let warning = match status {
        HookStatus::UpToDate => {
            return None;
        },
        HookStatus::Missing => "[rtk] /!\\ No hook installed — run `rtk init -g` for automatic token savings",
        HookStatus::Outdated => "[rtk] /!\\ Hook outdated — run `rtk init -g` to update",
    };
    let due = match marker {
        WarnMarker::NoPlace => false,
        WarnMarker::Absent => true,
        WarnMarker::Touched(Some(age)) => *age >= WARN_INTERVAL_SECS,
        WarnMarker::Touched(None) => true,
    };
    if due {
        Some(warning)
    } else {
        None
    }
}

/// The warning to give for what was found, once a day at most.
pub fn maybe_warn(probe: &HookProbe, marker: &WarnMarker) -> (r: Option<&'static str>)
    ensures
        match r {
            Some(text) => warning_now(
                status_of(*probe, settings_register(opt_view(probe.settings), probe.tool@)),
                *marker,
            ) == Some(text@),
            None => warning_now(
                status_of(*probe, settings_register(opt_view(probe.settings), probe.tool@)),
                *marker,
            ) is None,
        },
{
    check_and_warn(status(probe), marker)
}

/// The directory in which `tool` keeps its settings.
pub open spec fn tool_dir(tool: Seq<char>) -> Seq<char> {
    "."@ + tool
}

/// The file `file` among the hooks in the directory `dir` of `home`.
pub open spec fn hook_path(
    home: Seq<char>,
    dir: Seq<char>,
    file: Seq<char>,
    style: PathStyle,
) -> Seq<char> {
    join_path(join_path(join_path(home, dir, style), HOOKS_SUBDIR@, style), file, style)
}

fn dir_of_tool(tool: &str) -> (r: String)
    ensures
        r@ == tool_dir(tool@),
{
    let mut out = ".".to_owned();
    out.append(tool);
    out
}

fn hook_file(home: &str, dir: &str, file: &str, style: PathStyle) -> (r: String)
    ensures
        r@ == hook_path(home@, dir@, file@, style),
{
    let base = joined_path(home, dir, style);
    let hooks = joined_path(base.as_str(), HOOKS_SUBDIR, style);
    joined_path(hooks.as_str(), file, style)
}

/// Where the parts of an installation are looked for.
#[derive(Debug)]
pub struct HookLocations {
    pub tool_dir: String,
    pub settings: String,
    pub shell_hook: String,
    pub powershell_hook: String,
}

/// Where the parts of the hook of `tool` are looked for in `home`.
pub fn hook_locations(home: &str, tool: &str, style: PathStyle) -> (r: HookLocations)
    ensures
        r.tool_dir@ == join_path(home@, tool_dir(tool@), style),
        r.settings@ == join_path(join_path(home@, tool_dir(tool@), style), SETTINGS_JSON@, style),
        r.shell_hook@ == hook_path(home@, tool_dir(tool@), REWRITE_HOOK_FILE@, style),
        r.powershell_hook@ == hook_path(home@, tool_dir(tool@), REWRITE_HOOK_PS1_FILE@, style),
{
    let dir = dir_of_tool(tool);
    let tool_dir = joined_path(home, dir.as_str(), style);
    let settings = joined_path(tool_dir.as_str(), SETTINGS_JSON, style);
    HookLocations {
        tool_dir,
        settings,
        shell_hook: hook_file(home, dir.as_str(), REWRITE_HOOK_FILE, style),
        powershell_hook: hook_file(home, dir.as_str(), REWRITE_HOOK_PS1_FILE, style),
    }
}

/// Where the marker lies in the directory for local data.
pub fn warn_marker_path(data_dir: &str, style: PathStyle) -> (r: String)
    ensures
        r@ == join_path(join_path(data_dir@, RTK_DATA_DIR@, style), ".hook_warn_last"@, style),
{
    let dir = joined_path(data_dir, RTK_DATA_DIR, style);
    joined_path(dir.as_str(), ".hook_warn_last", style)
}

/// The files by which other integrations than that with `tool` are known, and
/// the script of `tool` for PowerShell.
pub open spec fn integration_files(
    home: Seq<char>,
    tool: Seq<char>,
    style: PathStyle,
) -> Seq<Seq<char>> {
    seq![
        join_path(home, OPENCODE_PLUGIN_PATH@, style),
        hook_path(home, CURSOR_DIR@, REWRITE_HOOK_FILE@, style),
        hook_path(home, tool_dir(tool), REWRITE_HOOK_PS1_FILE@, style),
        join_path(join_path(home, CODEX_DIR@, style), "AGENTS.md"@, style),
        hook_path(home, GEMINI_DIR@, GEMINI_HOOK_FILE@, style),
    ]
}

/// The files by which other integrations than that with `tool` are known, and
/// the script of `tool` for PowerShell.
pub fn other_integration_paths(home: &str, tool: &str, style: PathStyle) -> (r: Vec<String>)
    ensures
        views(r@) == integration_files(home@, tool@, style),
{
    let dir = dir_of_tool(tool);
    let codex = joined_path(home, CODEX_DIR, style);
    let mut out: Vec<String> = Vec::new();
    out.push(joined_path(home, OPENCODE_PLUGIN_PATH, style));
    out.push(hook_file(home, CURSOR_DIR, REWRITE_HOOK_FILE, style));
    out.push(hook_file(home, dir.as_str(), REWRITE_HOOK_PS1_FILE, style));
    out.push(joined_path(codex.as_str(), "AGENTS.md", style));
    out.push(hook_file(home, GEMINI_DIR, GEMINI_HOOK_FILE, style));
    assert(views(out@) =~= integration_files(home@, tool@, style));
    out
}

/// Whether any integration is installed, given which of its files exist.
pub fn other_integration_installed(found: &[bool]) -> (r: bool)
    ensures
        r == found@.contains(true),
{
    let mut i: usize = 0;
    while i < found.len()
        invariant
            i <= found.len(),
            forall|j: int| 0 <= j < i ==> !#[trigger] found@[j],
        decreases found.len() - i,
    {
        if found[i] {
            assert(found@[i as int]);
            return true;
        }
        i = i + 1;
    }
    false
}

proof fn lemma_first_version(rows: Seq<Seq<char>>, k: int)
    requires
        0 <= k < rows.len(),
        declared_version(rows[k]) is Some,
        forall|j: int| 0 <= j < k ==> declared_version(#[trigger] rows[j]) is None,
    ensures
        declared_version(rows[k]) == Some(first_version(rows)),
    decreases k,
{
    if k > 0 {
        let rest = rows.drop_first();
        assert(rest[k - 1] == rows[k]);
        assert forall|j: int| 0 <= j < k - 1 implies declared_version(#[trigger] rest[j]) is None by {
            assert(rest[j] == rows[j + 1]);
        }
        lemma_first_version(rest, k - 1);
        assert(declared_version(rows[0]) is None);
    }
}

/// The first of the five leading lines to declare a version decides.
pub proof fn first_declaration_counts(content: Seq<char>, k: int)
    requires
        0 <= k < 5,
        k < lines(content).len(),
        declared_version(lines(content)[k]) is Some,
        forall|j: int| 0 <= j < k ==> declared_version(#[trigger] lines(content)[j]) is None,
    ensures
        declared_version(lines(content)[k]) == Some(hook_version(content)),
{
    let seen = at_most(lines(content), 5);
    assert forall|j: int| 0 <= j < k implies declared_version(#[trigger] seen[j]) is None by {
        assert(seen[j] == lines(content)[j]);
    }
    lemma_first_version(seen, k);
}

/// Where none of the five leading lines declares a version, it is zero.
pub proof fn no_declaration_means_zero(content: Seq<char>)
    requires
        forall|j: int|
            0 <= j < 5 && j < lines(content).len() ==> declared_version(
                #[trigger] lines(content)[j],
            ) is None,
    ensures
        hook_version(content) == 0,
{
    let seen = at_most(lines(content), 5);
    assert forall|j: int| 0 <= j < seen.len() implies declared_version(
        #[trigger] seen[j],
    ) is None by {
        assert(seen[j] == lines(content)[j]);
    }
    lemma_no_version(seen);
}

proof fn lemma_no_version(rows: Seq<Seq<char>>)
    requires
        forall|j: int| 0 <= j < rows.len() ==> declared_version(#[trigger] rows[j]) is None,
    ensures
        first_version(rows) == 0,
    decreases rows.len(),
{
    if rows.len() > 0 {
        let rest = rows.drop_first();
        assert forall|j: int| 0 <= j < rest.len() implies declared_version(
            #[trigger] rest[j],
        ) is None by {
            assert(rest[j] == rows[j + 1]);
        }
        assert(declared_version(rows[0]) is None);
        lemma_no_version(rest);
    }
}

/// The line by which a hook declares its version.
pub open spec fn version_line(version: nat) -> Seq<char> {
    "# rtk-hook-version:"@ + " "@ + decimal(version)
}

/// A declared version is the one that is read.
pub proof fn version_line_declares(version: nat)
    requires
        version <= 255,
    ensures
        declared_version(version_line(version)) == Some(version),
{
    let tag = "# rtk-hook-version:"@;
    let line = version_line(version);
    let rest = " "@ + decimal(version);
    reveal_strlit(" ");
    assert(line.subrange(0, tag.len() as int) =~= tag);
    assert(line.skip(tag.len() as int) =~= rest);
    decimal_reads_back(version, 255);
    decimal_is_bare(version);
    assert(rest.drop_first() =~= decimal(version));
    assert(is_white_space(rest[0]));
    assert(trim_start(rest) == trim_start(decimal(version)));
}

/// A hook that declares its version behind a first line, in which none stands,
/// has that version, whatever follows.
pub proof fn version_behind_first_line(first: Seq<char>, version: nat, rest: Seq<char>)
    requires
        !first.contains('\n'),
        declared_version(without_cr(first)) is None,
        version <= 255,
    ensures
        hook_version(first + "\n"@ + (version_line(version) + "\n"@ + rest)) == version,
{
    let line = version_line(version);
    let tail = line + "\n"@ + rest;
    let content = first + "\n"@ + tail;
    first_line(first, tail);
    version_line_declares(version);
    version_line_is_one_line(version);
    first_line(line, rest);
    let all = lines(content);
    assert(all[0] == without_cr(first));
    assert(all[1] == line);
    first_declaration_counts(content, 1);
}

proof fn version_line_is_one_line(version: nat)
    ensures
        !version_line(version).contains('\n'),
        without_cr(version_line(version)) == version_line(version),
{
    reveal_strlit("# rtk-hook-version:");
    reveal_strlit(" ");
    decimal_is_bare(version);
    let line = version_line(version);
    let tag = "# rtk-hook-version:"@;
    assert forall|i: int| 0 <= i < line.len() implies line[i] != '\n' by {
        if i < tag.len() {
            assert(line[i] == tag[i]);
        } else if i > tag.len() {
            assert(line[i] == decimal(version)[i - tag.len() - 1]);
        }
    }
    assert(line.last() == decimal(version).last());
}

proof fn decimal_is_bare(n: nat)
    ensures
        decimal(n).len() > 0,
        forall|i: int| 0 <= i < decimal(n).len() ==> !is_white_space(#[trigger] decimal(n)[i]),
        trim_start(decimal(n)) == decimal(n),
        trim(decimal(n)) == decimal(n),
{
    decimal_holds_digits(n);
    decimal_holds_no_space(n);
    assert(!is_white_space(decimal(n)[0]));
    assert(!is_white_space(decimal(n)[decimal(n).len() - 1]));
}

/// Only the first five lines of a hook count: where there are as many, what is
/// appended to them changes nothing.
pub proof fn later_lines_do_not_count(content: Seq<char>, more: Seq<char>)
    requires
        lines(content).len() >= 5,
        content.last() == '\n',
    ensures
        hook_version(content + more) == hook_version(content),
{
    appended_lines(content, more);
    assert(at_most(lines(content + more), 5) =~= at_most(lines(content), 5));
}

/// Without the tool no hook is needed, whatever else was found.
pub proof fn no_tool_no_hook(probe: HookProbe, registered: bool)
    requires
        !probe.home_found || !probe.tool_dir_found,
    ensures
        status_of(probe, registered) == HookStatus::UpToDate,
{
}

/// A hook is missing just where the tool is there, the settings do not register
/// it, and there is no script.
pub proof fn missing_means_no_trace(probe: HookProbe, registered: bool)
    ensures
        status_of(probe, registered) == HookStatus::Missing <==> probe.home_found
            && probe.tool_dir_found && !registered && probe.shell_hook is Absent
            && probe.powershell_hook is Absent,
{
}

/// A script for the Unix shell that was left behind beside a registered hook
/// makes the hook outdated, whatever its version.
pub proof fn leftover_script_is_outdated(probe: HookProbe)
    requires
        probe.home_found,
        probe.tool_dir_found,
        !(probe.shell_hook is Absent),
    ensures
        status_of(probe, true) == HookStatus::Outdated,
{
}

/// On the day of a warning no other one is given.
pub proof fn one_warning_a_day(status: HookStatus, age: u64)
    requires
        age < WARN_INTERVAL_SECS,
    ensures
        warning_now(status, WarnMarker::Touched(Some(age))) is None,
{
}

/// A hook that is up to date is never warned about, and one that is not is
/// always warned about when a warning is due.
pub proof fn warned_where_due(status: HookStatus, marker: WarnMarker)
    requires
        warning_due(marker),
    ensures
        warning_now(status, marker) is None <==> status == HookStatus::UpToDate,
{
}

} // verus!
