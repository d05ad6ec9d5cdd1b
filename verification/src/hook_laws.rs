//! When a hook is up to date, and when a warning is given.

use crate::constants::{
    CODEX_DIR, CURSOR_DIR, GEMINI_DIR, GEMINI_HOOK_FILE, OPENCODE_PLUGIN_PATH, PRE_TOOL_USE_KEY,
    REWRITE_HOOK_FILE, REWRITE_HOOK_PS1_FILE,
};
use crate::hook_check::{
    command_registered, declared_version, entry_runs, first_declaration_counts, first_version,
    hook_command, hook_path, hook_version, integration_files, no_declaration_means_zero,
    script_status, settings_register, status_of, tool_dir,
    warning_due, warning_for, warning_now, HookProbe, HookStatus, ScriptFile, WarnMarker,
};
use crate::json::{json_document, json_view, lookup, member, Json, JsonView};
use crate::number::{decimal, decimal_holds_digits, decimal_holds_no_space, parse_unsigned};
use crate::paths::join_path;
use crate::prefix::PathStyle;
use crate::text::{at_most, join, lines, trim};
use crate::text_laws::{
    joining_adds_a_separator, numbers_are_read_up_to_the_limit, trimming_keeps_the_core,
};
use crate::tracking::command_text;
use vstd::prelude::*;

verus! {

/// A line declares the number behind the tag, with any white space around it, and
/// a line without the tag at its start declares nothing.
pub proof fn the_tag_declares_a_version(text: Seq<char>, line: Seq<char>)
    requires
        !"# rtk-hook-version:"@.is_prefix_of(line),
    ensures
        declared_version("# rtk-hook-version:"@ + text) == parse_unsigned(trim(text), 255),
        declared_version(line) is None,
{
    let tag = "# rtk-hook-version:"@;
    let tagged = tag + text;
    assert(tag =~= tagged.subrange(0, tag.len() as int));
    assert(tagged.skip(tag.len() as int) =~= text);
}

/// A line that declares a version decides, where none before it does, and one
/// that declares none changes nothing.
pub proof fn the_first_line_decides(line: Seq<char>, rest: Seq<Seq<char>>)
    ensures
        first_version(Seq::empty()) == 0,
        declared_version(line) matches Some(v) ==> first_version(seq![line] + rest) == v,
        declared_version(line) is None ==> first_version(seq![line] + rest) == first_version(rest),
{
    assert((seq![line] + rest).drop_first() =~= rest);
}

/// The version is that of the first five lines.
pub proof fn five_lines_are_read(content: Seq<char>)
    ensures
        lines(content).len() <= 5 ==> hook_version(content) == first_version(lines(content)),
        lines(content).len() > 5 ==> hook_version(content) == first_version(lines(content).take(5)),
{
    assert(lines(content).len() <= 5 ==> at_most(lines(content), 5) =~= lines(content));
}

/// A script that can be read is up to date from version 3 on, and outdated
/// before. One that cannot be read is outdated, and none is missing.
pub proof fn a_script_is_judged_by_its_version(content: String)
    ensures
        hook_version(content@) >= 3 ==> script_status(ScriptFile::Readable(content))
            == HookStatus::UpToDate,
        hook_version(content@) <= 2 ==> script_status(ScriptFile::Readable(content))
            == HookStatus::Outdated,
        script_status(ScriptFile::Unreadable) == HookStatus::Outdated,
        script_status(ScriptFile::Absent) == HookStatus::Missing,
{
}

/// A script none of whose leading lines declares a version is outdated.
pub proof fn a_script_without_a_version_is_outdated(content: String)
    requires
        forall|j: int|
            0 <= j < 5 && j < lines(content@).len() ==> declared_version(
                #[trigger] lines(content@)[j],
            ) is None,
    ensures
        script_status(ScriptFile::Readable(content)) == HookStatus::Outdated,
{
    no_declaration_means_zero(content@);
}

/// A script whose first declaration, among its five leading lines, is that of a
/// version below 3 is outdated, and one whose is of 3 or more is up to date.
pub proof fn the_declared_version_decides(content: String, k: int, version: nat)
    requires
        0 <= k < 5,
        k < lines(content@).len(),
        declared_version(lines(content@)[k]) == Some(version),
        forall|j: int|
            0 <= j < k ==> declared_version(#[trigger] lines(content@)[j]) is None,
    ensures
        version < 3 ==> script_status(ScriptFile::Readable(content)) == HookStatus::Outdated,
        version >= 3 ==> script_status(ScriptFile::Readable(content)) == HookStatus::UpToDate,
{
    first_declaration_counts(content@, k);
}

/// Where the tool is there and its settings do not register the hook, the script
/// for the Unix shell is judged, and only without it that for PowerShell.
pub proof fn scripts_are_judged_in_turn(probe: HookProbe)
    requires
        probe.home_found,
        probe.tool_dir_found,
    ensures
        !(probe.shell_hook is Absent) ==> status_of(probe, false) == script_status(
            probe.shell_hook,
        ),
        probe.shell_hook is Absent ==> status_of(probe, false) == script_status(
            probe.powershell_hook,
        ),
{
}

/// Where the settings register the hook, it is up to date if and only if no
/// script for the Unix shell is left, whatever a script holds.
pub proof fn a_registered_hook_is_up_to_date(probe: HookProbe)
    requires
        probe.home_found,
        probe.tool_dir_found,
    ensures
        probe.shell_hook is Absent ==> status_of(probe, true) == HookStatus::UpToDate,
        !(probe.shell_hook is Absent) ==> status_of(probe, true) == HookStatus::Outdated,
{
}

/// Blank settings register nothing, nor do settings that are no JSON, nor none.
pub proof fn unusable_settings_register_nothing(content: Seq<char>, tool: Seq<char>)
    ensures
        !settings_register(None, tool),
        trim(content).len() == 0 ==> !settings_register(Some(content), tool),
        json_document(content) is None ==> !settings_register(Some(content), tool),
        json_document(content) matches Some(root) ==> trim(content).len() > 0
            ==> settings_register(Some(content), tool) == command_registered(
            root,
            "rtk hook "@ + tool,
        ),
        hook_command(tool) == "rtk hook "@ + tool,
{
}

/// A command is registered that stands in the settings under `hooks`,
/// `PreToolUse`, in an entry's `hooks`, as the `command` of one of them.
pub proof fn a_command_in_its_place_is_registered(
    root: JsonView,
    hooks: JsonView,
    entries: Seq<JsonView>,
    i: int,
    inner: Seq<JsonView>,
    j: int,
    command: Seq<char>,
)
    requires
        member(root, "hooks"@) == Some(hooks),
        member(hooks, "PreToolUse"@) == Some(JsonView::List(entries)),
        0 <= i < entries.len(),
        member(entries[i], "hooks"@) == Some(JsonView::List(inner)),
        0 <= j < inner.len(),
        member(inner[j], "command"@) == Some(JsonView::Text(command)),
    ensures
        command_registered(root, command),
{
    assert(PRE_TOOL_USE_KEY@ == "PreToolUse"@);
    assert(entry_runs(entries[i], command)) by {
        assert(member(inner[j], "command"@) == Some(JsonView::Text(command)));
    }
    assert(exists|k: int| 0 <= k < entries.len() && #[trigger] entry_runs(entries[k], command));
    match member(root, "hooks"@) {
        Some(h) => match member(h, PRE_TOOL_USE_KEY@) {
            Some(JsonView::List(e)) => {
                assert(e == entries);
                assert(command_registered(root, command));
            },
            _ => {},
        },
        None => {},
    }
}

/// A command that is registered stands in that place.
pub proof fn a_registered_command_has_its_place(root: JsonView, command: Seq<char>) -> (r: (
    JsonView,
    Seq<JsonView>,
    int,
    Seq<JsonView>,
    int,
))
    requires
        command_registered(root, command),
    ensures
        member(root, "hooks"@) == Some(r.0),
        member(r.0, "PreToolUse"@) == Some(JsonView::List(r.1)),
        0 <= r.2 < r.1.len(),
        member(r.1[r.2], "hooks"@) == Some(JsonView::List(r.3)),
        0 <= r.4 < r.3.len(),
        member(r.3[r.4], "command"@) == Some(JsonView::Text(command)),
{
    let hooks = member(root, "hooks"@).unwrap();
    let entries = member(hooks, "PreToolUse"@).unwrap()->List_0;
    let i = choose|i: int| 0 <= i < entries.len() && #[trigger] entry_runs(entries[i], command);
    let inner = member(entries[i], "hooks"@).unwrap()->List_0;
    let j = choose|j: int|
        0 <= j < inner.len() && #[trigger] member(inner[j], "command"@) == Some(
            JsonView::Text(command),
        );
    (hooks, entries, i, inner, j)
}

/// A table gives the value of the first member that has the key in question.
/// Nothing else has members.
pub proof fn the_first_member_counts(
    key: Seq<char>,
    value: JsonView,
    rest: Seq<(Seq<char>, JsonView)>,
    other: Seq<char>,
    text: Seq<char>,
    list: Seq<JsonView>,
)
    requires
        other != key,
    ensures
        member(JsonView::Table(seq![(key, value)] + rest), key) == Some(value),
        member(JsonView::Table(seq![(key, value)] + rest), other) == member(
            JsonView::Table(rest),
            other,
        ),
        member(JsonView::Table(Seq::empty()), key) is None,
        member(JsonView::Text(text), key) is None,
        member(JsonView::List(list), key) is None,
        member(JsonView::Scalar, key) is None,
{
    let all = seq![(key, value)] + rest;
    assert(all.drop_first() =~= rest);
    assert(lookup(all, other) == lookup(rest, other));
}

/// A hook that is not up to date is warned about in words of its own.
pub proof fn each_status_has_its_warning()
    ensures
        warning_for(HookStatus::UpToDate) is None,
        warning_for(HookStatus::Missing) == Some(
            "[rtk] /!\\ No hook installed — run `rtk init -g` for automatic token savings"@,
        ),
        warning_for(HookStatus::Outdated) == Some(
            "[rtk] /!\\ Hook outdated — run `rtk init -g` to update"@,
        ),
{
}

/// A warning is due where none is remembered or the last one is a day old, and a
/// place is there to remember it.
pub proof fn a_warning_is_due_after_a_day(age: u64)
    ensures
        warning_due(WarnMarker::Touched(Some(age))) <==> age >= 86_400,
        warning_due(WarnMarker::Touched(None)),
        warning_due(WarnMarker::Absent),
        !warning_due(WarnMarker::NoPlace),
{
}

/// What is due is given, and nothing else.
pub proof fn due_warnings_are_given(status: HookStatus, marker: WarnMarker)
    ensures
        warning_due(marker) ==> warning_now(status, marker) == warning_for(status),
        !warning_due(marker) ==> warning_now(status, marker) is None,
{
}

/// The directory of a tool is hidden and bears its name, and its hooks lie in it.
pub proof fn hooks_lie_in_the_directory_of_the_tool(
    home: Seq<char>,
    tool: Seq<char>,
    file: Seq<char>,
    style: PathStyle,
)
    ensures
        tool_dir(tool) == seq!['.'] + tool,
        hook_path(home, tool_dir(tool), file, style) == join_path(
            join_path(join_path(home, seq!['.'] + tool, style), "hooks"@, style),
            file,
            style,
        ),
{
    reveal_strlit(".");
    assert("."@ =~= seq!['.']);
}

/// Five files tell of an integration.
pub proof fn five_files_tell_of_integrations(home: Seq<char>, tool: Seq<char>, style: PathStyle)
    ensures
        integration_files(home, tool, style).len() == 5,
        integration_files(home, tool, style)[0] == join_path(
            home,
            ".config/opencode/plugins/rtk.ts"@,
            style,
        ),
        integration_files(home, tool, style)[1] == hook_path(
            home,
            ".cursor"@,
            "rtk-rewrite.sh"@,
            style,
        ),
        integration_files(home, tool, style)[2] == hook_path(
            home,
            tool_dir(tool),
            "rtk-rewrite.ps1"@,
            style,
        ),
        integration_files(home, tool, style)[3] == join_path(
            join_path(home, ".codex"@, style),
            "AGENTS.md"@,
            style,
        ),
        integration_files(home, tool, style)[4] == hook_path(
            home,
            ".gemini"@,
            "rtk-hook-gemini.sh"@,
            style,
        ),
{
    assert(OPENCODE_PLUGIN_PATH@ == ".config/opencode/plugins/rtk.ts"@);
    assert(CURSOR_DIR@ == ".cursor"@);
    assert(REWRITE_HOOK_FILE@ == "rtk-rewrite.sh"@);
    assert(REWRITE_HOOK_PS1_FILE@ == "rtk-rewrite.ps1"@);
    assert(CODEX_DIR@ == ".codex"@);
    assert(GEMINI_DIR@ == ".gemini"@);
    assert(GEMINI_HOOK_FILE@ == "rtk-hook-gemini.sh"@);
}

/// A command line is the tool with its arguments behind it, a space before each.
pub proof fn each_argument_follows_a_space(tool: Seq<char>, args: Seq<Seq<char>>, arg: Seq<char>)
    ensures
        command_text(tool, Seq::empty()) == tool,
        command_text(tool, args.push(arg)) == command_text(tool, args) + " "@ + arg,
{
    joining_adds_a_separator(args, arg, " "@);
    if args.len() > 0 {
        let all = join(args, " "@);
        assert(tool + " "@ + (all + " "@ + arg) =~= tool + " "@ + all + " "@ + arg);
    }
}

/// The limit of a version is that of a byte.
pub proof fn versions_are_bytes(version: nat)
    ensures
        version <= 255 ==> declared_version("# rtk-hook-version: "@ + decimal(version)) == Some(
            version,
        ),
        version > 255 ==> declared_version("# rtk-hook-version: "@ + decimal(version)) is None,
{
    let tag = "# rtk-hook-version:"@;
    reveal_strlit("# rtk-hook-version: ");
    reveal_strlit("# rtk-hook-version:");
    let text = seq![' '] + decimal(version);
    let line = "# rtk-hook-version: "@ + decimal(version);
    assert(line =~= tag + text);
    assert(tag =~= line.subrange(0, tag.len() as int));
    assert(line.skip(tag.len() as int) =~= text);
    decimal_holds_digits(version);
    decimal_holds_no_space(version);
    assert(seq![' '] + decimal(version) + Seq::<char>::empty() =~= text);
    trimming_keeps_the_core(seq![' '], decimal(version), Seq::empty());
    numbers_are_read_up_to_the_limit(version, 255);
}

/// A value of JSON is seen with all that it holds, in its order.
pub proof fn values_are_seen_whole(
    text: String,
    list: Vec<Json>,
    table: Vec<(String, Json)>,
    i: int,
)
    ensures
        json_view(Json::Text(text)) == JsonView::Text(text@),
        json_view(Json::Scalar) == JsonView::Scalar,
        json_view(Json::List(list)) matches JsonView::List(v) && v.len() == list@.len() && (0 <= i
            < v.len() ==> v[i] == json_view(list@[i])),
        json_view(Json::Table(table)) matches JsonView::Table(v) && v.len() == table@.len() && (0
            <= i < v.len() ==> v[i] == (table@[i].0@, json_view(table@[i].1))),
{
    reveal_with_fuel(json_view, 2);
}

} // verus!
