use rtk::echo::{echo_output, run};

fn strings(args: &[&str]) -> Vec<String> {
    args.iter().map(|a| a.to_string()).collect()
}

#[test]
fn test_echo_allows_no_newline_flag() {
    let args = vec!["-n".to_string(), "hello".to_string()];
    assert_eq!(echo_output(&args), "hello");
}

#[test]
fn echo_ends_with_a_line_feed() {
    assert_eq!(echo_output(&strings(&["hello", "-n", "world"])), "hello -n world\n");
    assert_eq!(echo_output(&strings(&[])), "\n");
    assert_eq!(echo_output(&strings(&["-n"])), "");
    assert_eq!(echo_output(&strings(&["-n", "-n"])), "-n");
}

#[test]
fn echo_is_recorded_under_both_commands() {
    let r = run(&strings(&["-n", "a", "b"]));
    assert_eq!(r.output, "a b");
    assert_eq!(r.original_cmd, "echo -n a b");
    assert_eq!(r.rtk_cmd, "rtk echo -n a b");
    assert_eq!(r.exit_code, 0);
    let r = run(&[]);
    assert_eq!(r.output, "\n");
    assert_eq!(r.original_cmd, "echo");
    assert_eq!(r.rtk_cmd, "rtk echo");
}
