//! The command lines under which a run is recorded.

use crate::text::{join, joined, views};
use vstd::prelude::*;

verus! {

/// How a call of `tool` reads on a command line.
pub open spec fn command_text(tool: Seq<char>, args: Seq<Seq<char>>) -> Seq<char> {
    if args.len() == 0 {
        tool
    } else {
        tool + " "@ + join(args, " "@)
    }
}

/// Writes the call of `tool` with `args` as a command line.
pub fn command_line(tool: &str, args: &[String]) -> (r: String)
    ensures
        r@ == command_text(tool@, views(args@)),
{
    let mut out = tool.to_owned();
    if args.len() > 0 {
        out.append(" ");
        let rest = joined(args, " ");
        out.append(rest.as_str());
    }
    out
}

/// Under which commands a run is recorded: the command that was asked for, and
/// the one that took its place.
pub fn tracked_commands(tool: &str, args: &[String]) -> (r: (String, String))
    ensures
        r.0@ == command_text(tool@, views(args@)),
        r.1@ == "rtk "@ + command_text(tool@, views(args@)),
{
    let original = command_line(tool, args);
    let mut replaced = "rtk ".to_owned();
    replaced.append(original.as_str());
    (original, replaced)
}

} // verus!
