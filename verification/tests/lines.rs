use scissors::subprocess::output;
use scissors::subprocess::output_oneline;
use scissors::subprocess::OutputLines;
use scissors::text::split_lines;

#[test]
fn split_lines_matches_str_lines() {
    for text in [
        "",
        "one",
        "one\n",
        "one\ntwo",
        "one\r\ntwo\r\n",
        "a\n\nb",
        "\n",
        "trailing cr\r",
        "inner\rcr\nkept",
    ] {
        let ours = split_lines(text);
        let std_lines: Vec<String> = text.lines().map(|l| l.to_string()).collect();
        assert_eq!(ours, std_lines, "split of {:?}", text);
    }
}

#[test]
fn output_keeps_the_first_n_lines() {
    let r = output("a\nb\nc\n", OutputLines::First(2));
    assert_eq!(r, vec!["a", "b"]);
    let r = output("a\nb\nc", OutputLines::First(10));
    assert_eq!(r, vec!["a", "b", "c"]);
    let r = output("a\nb", OutputLines::First(0));
    assert_eq!(r, Vec::<String>::new());
}

#[test]
fn output_all_keeps_everything() {
    let r = output("a\r\nb\nc", OutputLines::All);
    assert_eq!(r, vec!["a", "b", "c"]);
    let r = output("", OutputLines::All);
    assert_eq!(r, Vec::<String>::new());
}

#[test]
fn output_oneline_takes_the_first_line() {
    assert_eq!(output_oneline("main\nother\n"), Some("main".to_string()));
    assert_eq!(output_oneline("main"), Some("main".to_string()));
    assert_eq!(output_oneline(""), None);
}
