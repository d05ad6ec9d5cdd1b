//! The command `echo`.

use crate::text::{join, joined, same_text, strings_from, views};
use crate::text_laws::joining_adds_a_separator;
use crate::tracking::{command_text, tracked_commands};
use vstd::prelude::*;

verus! {

/// Whether the first argument keeps the line feed back.
pub open spec fn suppresses_newline(args: Seq<Seq<char>>) -> bool {
    args.len() > 0 && args[0] == "-n"@
}

/// What `echo` prints.
pub open spec fn echo_text(args: Seq<Seq<char>>) -> Seq<char> {
    if suppresses_newline(args) {
        join(args.drop_first(), " "@)
    } else {
        join(args, " "@) + "\n"@
    }
}

/// Writes what `echo` prints: its arguments, parted by spaces, and a line feed,
/// which `-n` as the first argument keeps back.
pub fn echo_output(args: &[String]) -> (r: String)
    ensures
        r@ == echo_text(views(args@)),
{
    if args.len() > 0 && same_text(args[0].as_str(), "-n") {
        let rest = strings_from(args, 1);
        assert(views(args@)[0] == args@[0]@);
        assert(views(args@).skip(1) =~= views(args@).drop_first());
        joined(rest.as_slice(), " ")
    } else {
        assert(args@.len() > 0 ==> views(args@)[0] == args@[0]@);
        let mut out = joined(args, " ");
        out.append("\n");
        out
    }
}

/// A run of `echo`: what it prints, and under which commands it is recorded.
#[derive(Debug)]
pub struct EchoRun {
    pub output: String,
    pub original_cmd: String,
    pub rtk_cmd: String,
    pub exit_code: i32,
}

/// Runs `echo`. It never fails.
pub fn run(args: &[String]) -> (r: EchoRun)
    ensures
        r.output@ == echo_text(views(args@)),
        r.original_cmd@ == command_text("echo"@, views(args@)),
        r.rtk_cmd@ == "rtk "@ + command_text("echo"@, views(args@)),
        r.exit_code == 0,
{
    let (original_cmd, rtk_cmd) = tracked_commands("echo", args);
    EchoRun { output: echo_output(args), original_cmd, rtk_cmd, exit_code: 0 }
}

/// `-n` before other arguments keeps the line feed back, and changes nothing
/// else.
pub proof fn n_flag_drops_the_line_feed(args: Seq<Seq<char>>)
    requires
        !suppresses_newline(args),
    ensures
        echo_text(seq!["-n"@] + args) + "\n"@ == echo_text(args),
{
    let all = seq!["-n"@] + args;
    assert(all[0] == "-n"@);
    assert(all.drop_first() =~= args);
}

/// One more argument is printed behind a space, before the line feed where there
/// is one. Without arguments a line feed is printed, and `-n` alone prints
/// nothing.
pub proof fn each_argument_is_printed(args: Seq<Seq<char>>, last: Seq<char>)
    ensures
        echo_text(Seq::empty()) == seq!['\n'],
        echo_text(seq!["-n"@]) == Seq::<char>::empty(),
        args.len() == 0 && last != "-n"@ ==> echo_text(args.push(last)) == last + seq!['\n'],
        args.len() > 0 && args[0] != "-n"@ ==> echo_text(args.push(last)) == echo_text(
            args,
        ).drop_last() + seq![' '] + last + seq!['\n'],
        args.len() == 1 && args[0] == "-n"@ ==> echo_text(args.push(last)) == last,
        args.len() > 1 && args[0] == "-n"@ ==> echo_text(args.push(last)) == echo_text(args) + seq![
            ' ',
        ] + last,
{
    reveal_strlit(" ");
    reveal_strlit("\n");
    assert(" "@ =~= seq![' ']);
    assert("\n"@ =~= seq!['\n']);
    joining_adds_a_separator(args, last, " "@);
    assert(join(Seq::empty(), " "@) + "\n"@ =~= seq!['\n']);
    assert(seq!["-n"@].drop_first() =~= Seq::empty());
    assert(args.len() > 0 ==> args.push(last)[0] == args[0]);
    assert(args.len() == 0 ==> args.push(last)[0] == last);
    if args.len() > 0 {
        assert(args.push(last).drop_first() =~= args.drop_first().push(last));
        joining_adds_a_separator(args.drop_first(), last, " "@);
        assert((join(args, " "@) + "\n"@).drop_last() =~= join(args, " "@));
    }
}

} // verus!
