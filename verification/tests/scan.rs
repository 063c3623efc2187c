use scissors::markdown::canonize_username;
use scissors::markdown::scan_lines;
use scissors::markdown::Article;

fn lines_of(strs: &[&str]) -> Vec<String> {
    strs.iter().map(|s| s.to_string()).collect()
}

#[test]
fn scan_scenario_flagged_mention() {
    // `::{ flag=jp }:: [Foo\*](https://osu.ppy.sh/users/123)`
    let line = "::{ flag=jp }:: [Foo\\*](https://osu.ppy.sh/users/123)";
    let mentions = scan_lines(&lines_of(&[line]));
    assert_eq!(mentions.len(), 1);
    let m = &mentions[0];
    assert_eq!(m.username.text, "Foo");
    assert_eq!(m.username.loc.line, 0);
    assert_eq!(m.username.loc.ch, 17);
    assert_eq!(m.id.num, 123);
    assert_eq!(m.id.loc.line, 0);
    assert_eq!(m.id.loc.ch, 49);
    let country = m.country_code.as_ref().expect("flag block present");
    assert_eq!(country.text, "jp");
    assert_eq!(country.loc.line, 0);
    assert_eq!(country.loc.ch, 9);
}

#[test]
fn scan_is_deterministic() {
    let lines = lines_of(&[
        "intro text",
        "::{ flag=AU }:: [peppy](https://osu.ppy.sh/users/2)",
        "then [Tillerino](https://osu.ppy.sh/users/2070907) spoke",
    ]);
    let a = scan_lines(&lines);
    let b = scan_lines(&lines);
    assert_eq!(a, b);
    assert_eq!(a.len(), 2);
}

#[test]
fn scan_mention_without_flag() {
    let mentions = scan_lines(&lines_of(&["[Foo](https://osu.ppy.sh/users/7)"]));
    assert_eq!(mentions.len(), 1);
    assert_eq!(mentions[0].username.text, "Foo");
    assert_eq!(mentions[0].username.loc.ch, 1);
    assert_eq!(mentions[0].id.num, 7);
    assert!(mentions[0].country_code.is_none());
}

#[test]
fn scan_multiple_mentions_on_one_line() {
    let line = "[A](https://osu.ppy.sh/users/1) and [B](https://osu.ppy.sh/users/2)";
    let mentions = scan_lines(&lines_of(&[line]));
    assert_eq!(mentions.len(), 2);
    assert_eq!(mentions[0].username.text, "A");
    assert_eq!(mentions[0].id.num, 1);
    assert_eq!(mentions[1].username.text, "B");
    assert_eq!(mentions[1].id.num, 2);
    assert!(mentions[0].username.loc.ch < mentions[1].username.loc.ch);
}

#[test]
fn scan_orders_by_line_then_column() {
    let lines = lines_of(&[
        "x [B](https://osu.ppy.sh/users/2) [A](https://osu.ppy.sh/users/1)",
        "[C](https://osu.ppy.sh/users/3)",
    ]);
    let mentions = scan_lines(&lines);
    assert_eq!(mentions.len(), 3);
    assert_eq!(mentions[0].id.num, 2);
    assert_eq!(mentions[1].id.num, 1);
    assert_eq!(mentions[2].id.num, 3);
    assert_eq!(mentions[0].id.loc.line, 0);
    assert_eq!(mentions[2].id.loc.line, 1);
}

#[test]
fn scan_flag_needs_a_space_before_the_bracket() {
    // Without a space after the flag block the block is plain text; the
    // mention itself still matches, without a country.
    let line = "::{ flag=jp }::[Foo](https://osu.ppy.sh/users/5)";
    let mentions = scan_lines(&lines_of(&[line]));
    assert_eq!(mentions.len(), 1);
    assert_eq!(mentions[0].username.text, "Foo");
    assert_eq!(mentions[0].id.num, 5);
    assert!(mentions[0].country_code.is_none());
}

#[test]
fn scan_ignores_other_hosts_and_broken_links() {
    let lines = lines_of(&[
        "[Foo](https://example.com/users/123)",
        "[Foo](https://osu.ppy.sh/users/)",
        "[Foo](https://osu.ppy.sh/users/12",
        "[](https://osu.ppy.sh/users/12)",
        "no mention here",
        "",
    ]);
    let mentions = scan_lines(&lines);
    assert_eq!(mentions.len(), 0);
}

#[test]
fn scan_drops_ids_too_big_for_i32() {
    let lines = lines_of(&[
        "[A](https://osu.ppy.sh/users/2147483648)",
        "[B](https://osu.ppy.sh/users/2147483647)",
    ]);
    let mentions = scan_lines(&lines);
    assert_eq!(mentions.len(), 1);
    assert_eq!(mentions[0].username.text, "B");
    assert_eq!(mentions[0].id.num, i32::MAX);
}

#[test]
fn scan_reads_leading_zeros() {
    let mentions = scan_lines(&lines_of(&["[Z](https://osu.ppy.sh/users/000000000042)"]));
    assert_eq!(mentions.len(), 1);
    assert_eq!(mentions[0].id.num, 42);
}

#[test]
fn scan_username_may_swallow_brackets() {
    // The username capture is non-greedy but can still cross inner brackets
    // when that is the only way the tail matches.
    let line = "[a[b](https://osu.ppy.sh/users/9)";
    let mentions = scan_lines(&lines_of(&[line]));
    assert_eq!(mentions.len(), 1);
    assert_eq!(mentions[0].username.text, "a[b");
    assert_eq!(mentions[0].id.num, 9);
}

#[test]
fn scan_takes_uppercase_flag_codes() {
    let line = "::{ flag=AU }::   [peppy](https://osu.ppy.sh/users/2)";
    let mentions = scan_lines(&lines_of(&[line]));
    assert_eq!(mentions.len(), 1);
    let country = mentions[0].country_code.as_ref().expect("flag block present");
    assert_eq!(country.text, "AU");
    assert_eq!(country.loc.ch, 9);
    assert_eq!(mentions[0].username.loc.ch, 19);
}

#[test]
fn scan_rejects_malformed_flag_blocks() {
    // A flag code must be two letters; anything else leaves the block as
    // plain text and the link still matches on its own.
    let lines = lines_of(&[
        "::{ flag=12 }:: [A](https://osu.ppy.sh/users/1)",
        "::{ flag=jpn }:: [B](https://osu.ppy.sh/users/2)",
        "::{ flag=j }:: [C](https://osu.ppy.sh/users/3)",
    ]);
    let mentions = scan_lines(&lines);
    assert_eq!(mentions.len(), 3);
    for m in &mentions {
        assert!(m.country_code.is_none(), "no country for {:?}", m);
    }
}

#[test]
fn scan_counts_columns_in_characters() {
    let line = "héllo [Foo](https://osu.ppy.sh/users/8)";
    let mentions = scan_lines(&lines_of(&[line]));
    assert_eq!(mentions.len(), 1);
    assert_eq!(mentions[0].username.loc.ch, 7);
    assert_eq!(mentions[0].username.text, "Foo");
}

#[test]
fn scan_keeps_unicode_usernames() {
    let line = "[Ämélie\\*](https://osu.ppy.sh/users/44)";
    let mentions = scan_lines(&lines_of(&[line]));
    assert_eq!(mentions.len(), 1);
    assert_eq!(mentions[0].username.text, "Ämélie");
    assert_eq!(mentions[0].id.num, 44);
}

#[test]
fn canonize_strips_markers() {
    assert_eq!(canonize_username("Foo\\*"), "Foo");
    assert_eq!(canonize_username("*emph*"), "emph");
    assert_eq!(canonize_username("plain"), "plain");
    assert_eq!(canonize_username(""), "");
    assert_eq!(canonize_username("\\*\\*"), "");
}

#[test]
fn canonize_twice_is_canonize_once() {
    for s in ["Foo\\*", "*a*b\\c", "", "nothing", "\\\\**"] {
        let once = canonize_username(s);
        let twice = canonize_username(&once);
        assert_eq!(once, twice);
    }
}

#[test]
fn article_splits_text_into_lines() {
    let a = Article::new(
        "wiki/Article/en.md".to_string(),
        "# Title\r\n\n[Foo](https://osu.ppy.sh/users/123)\n",
    );
    assert_eq!(a.path, "wiki/Article/en.md");
    assert_eq!(a.lines, vec!["# Title", "", "[Foo](https://osu.ppy.sh/users/123)"]);
}

#[test]
fn article_groups_mentions_by_id() {
    let text = "[One](https://osu.ppy.sh/users/1) [Two](https://osu.ppy.sh/users/2)\n[One again](https://osu.ppy.sh/users/1)";
    let a = Article::new("a.md".to_string(), text);
    let kv = a.get_user_profiles();
    assert_eq!(kv.len(), 2);
    let ones = &kv[&1];
    assert_eq!(ones.len(), 2);
    assert_eq!(ones[0].username.text, "One");
    assert_eq!(ones[0].id.loc.line, 0);
    assert_eq!(ones[1].username.text, "One again");
    assert_eq!(ones[1].id.loc.line, 1);
    let twos = &kv[&2];
    assert_eq!(twos.len(), 1);
    assert_eq!(twos[0].username.text, "Two");
    assert!(kv.get(&3).is_none());
}
