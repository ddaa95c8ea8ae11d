use sd_req::split::split_str;
use sd_req::stringops::{
    between, count, distinct, ends_with, enter, get_args, get_filename_only, get_filename_without_extension,
    get_path, index_of, is_alphabetic, is_alphanumeric, is_datetime, is_numeric, is_whitespace, join,
    last_index_of, ltrim, mul_string, pad_left, pad_right, path_sep, random_string, replace, replace_within,
    rtrim, starts_with, substring, trim,
};

fn s(x: &str) -> String {
    x.to_string()
}

fn v(xs: &[&str]) -> Vec<String> {
    xs.iter().map(|x| x.to_string()).collect()
}

#[test]
fn count_counts_grapheme_clusters() {
    assert_eq!(count(&s("héllo")), 5);
    assert_eq!(count(&s("e\u{301}")), 1);
    assert_eq!(count(&s("")), 0);
    assert_eq!(count(&s("\r\n")), 1);
    assert_eq!(count(&s("🇯🇵🇰🇷")), 2);
}

#[test]
fn trims_drop_whitespace_clusters() {
    assert_eq!(ltrim(s("  \t hi ")), "hi ");
    assert_eq!(rtrim(s(" hi \r\n")), " hi");
    assert_eq!(trim(s("\r\n x y \n")), "x y");
    assert_eq!(trim(s("   ")), "");
    assert_eq!(ltrim(s("")), "");
}

#[test]
fn ltrim_gives_a_suffix_and_rtrim_a_prefix() {
    let x = s("  \u{3000}a b\t ");
    let l = ltrim(x.clone());
    let r = rtrim(x.clone());
    assert!(x.ends_with(l.as_str()));
    assert!(x.starts_with(r.as_str()));
}

#[test]
fn platform_texts() {
    let sep = path_sep();
    assert!(sep == "/" || sep == "\\");
    let e = enter();
    assert!(e == "\n" || e == "\r\n");
    assert_eq!(sep == "\\", e == "\r\n");
}

#[test]
fn random_string_is_alphanumeric() {
    let r = random_string(10);
    assert_eq!(r.chars().count(), 10);
    assert!(r.chars().all(|c| c.is_ascii_alphanumeric()));
    assert_eq!(random_string(0), "");
}

#[test]
fn distinct_keeps_first_occurrences() {
    let r = distinct(v(&["a", "b", "a", "c", "b"]));
    assert_eq!(r, v(&["a", "b", "c"]));
    let mut sorted = r.clone();
    sorted.sort();
    sorted.dedup();
    assert_eq!(sorted.len(), r.len());
    assert_eq!(distinct(vec![]), Vec::<String>::new());
}

#[test]
fn file_name_parts() {
    assert_eq!(get_filename_only(s("a/b/c.txt")), "c.txt");
    assert_eq!(get_filename_only(s("a\\b")), "b");
    assert_eq!(get_filename_only(s("dir/")), "dir/");
    assert_eq!(get_filename_only(s("plain")), "plain");
    assert_eq!(get_filename_without_extension(s("a/b.c.txt")), "a/b.c");
    assert_eq!(get_filename_without_extension(s("noext")), "noext");
    assert_eq!(get_path(s("a/b/c.txt")), "a/b");
    assert_eq!(get_path(s("x\\y/z")), "x\\y");
    assert_eq!(get_path(s("c.txt")), "c.txt");
}

#[test]
fn join_puts_separators_between() {
    assert_eq!(join(v(&["a", "b", "c"]), s(",")), "a,b,c");
    assert_eq!(join(v(&["a"]), s(",")), "a");
    assert_eq!(join(vec![], s(",")), "");
}

#[test]
fn split_undoes_join() {
    let parts = v(&["x", "", "yz"]);
    let joined = join(parts.clone(), s("&"));
    assert_eq!(split_str(joined.as_str(), "&"), parts);
}

#[test]
fn split_matches_std_split() {
    for (text, pat) in [("a,b,,c", ","), ("abc", ""), ("", ""), ("aaa", "aa"), ("xyz", "q")] {
        let expected: Vec<String> = text.split(pat).map(|p| p.to_string()).collect();
        assert_eq!(split_str(text, pat), expected);
    }
}

#[test]
fn replace_replaces_from_the_left() {
    assert_eq!(replace(&s("hello world"), s("o"), s("0"), false), "hell0 w0rld");
    assert_eq!(replace(&s("Hello HELLO"), s("hello"), s("bye"), true), "bye bye");
    assert_eq!(replace(&s("aaa"), s("a"), s("aa"), false), "aaaaaa");
    assert_eq!(replace(&s("abc"), s("x"), s("y"), false), "abc");
}

#[test]
fn replace_within_counts_rounds() {
    assert_eq!(replace_within(&s("aaa"), s("a"), s("b"), false, 2), None);
    assert_eq!(replace_within(&s("aaa"), s("a"), s("b"), false, 3), Some(s("bbb")));
    assert_eq!(replace_within(&s("abc"), s(""), s("x"), false, 50), None);
}

#[test]
fn get_args_groups_by_separator() {
    let g = get_args(&v(&["-a", "1", "2", "-b", "3"]), &s("-"));
    assert_eq!(g, vec![v(&["-a", "1", "2"]), v(&["-b", "3"])]);
    let g = get_args(&v(&["x", "y", "-A", "z"]), &s("-"));
    assert_eq!(g, vec![v(&["x"]), v(&["y"]), v(&["-A", "z"])]);
    let args = v(&["p", "/q", "r", "/S", "/t"]);
    let flat: Vec<String> = get_args(&args, &s("/")).into_iter().flatten().collect();
    assert_eq!(flat, args);
}

#[test]
fn padding() {
    assert_eq!(pad_left(&s("7"), &s("0"), 3), "007");
    assert_eq!(pad_right(&s("ab"), &s("-"), 4), "ab--");
    assert_eq!(pad_left(&s("abcd"), &s("0"), 2), "abcd");
    assert_eq!(pad_right(&s("e\u{301}"), &s("."), 3), "e\u{301}..");
}

#[test]
fn whitespace_and_classes() {
    assert!(is_whitespace(&s("\r\n")));
    assert!(is_whitespace(&s(" ")));
    assert!(!is_whitespace(&s("  ")));
    assert!(is_numeric(&s("12345")));
    assert!(is_numeric(&s("٣٤")));
    assert!(!is_numeric(&s("12a")));
    assert!(is_numeric(&s("")));
    assert!(is_alphabetic(&s("abcé")));
    assert!(!is_alphabetic(&s("ab1")));
    assert!(is_alphanumeric(&s("ab12")));
    assert!(!is_alphanumeric(&s("a b")));
}

#[test]
fn datetime_check() {
    assert!(is_datetime(&s("2024-01-02T03:04:05Z")));
    assert!(is_datetime(&s("2024-01-02T03:04:05+09:00")));
    assert!(!is_datetime(&s("2024-01-02")));
}

#[test]
fn prefix_and_suffix_tests() {
    assert!(starts_with(&s("Hello"), s("he"), true));
    assert!(!starts_with(&s("Hello"), s("he"), false));
    assert!(starts_with(&s("Hello"), s(""), false));
    assert!(!starts_with(&s("He"), s("Hello"), false));
    assert!(ends_with(&s("file.TXT"), s(".txt"), true));
    assert!(!ends_with(&s("file.TXT"), s(".txt"), false));
}

#[test]
fn forward_search() {
    assert_eq!(index_of(&s("abcabc"), s("bc"), 0, false), 1);
    assert_eq!(index_of(&s("abcabc"), s("bc"), 2, false), 4);
    assert_eq!(index_of(&s("abcabc"), s("BC"), 0, true), 1);
    assert_eq!(index_of(&s("abcabc"), s("BC"), 0, false), -1);
    assert_eq!(index_of(&s("abc"), s(""), 2, false), 0);
    assert_eq!(index_of(&s("ab"), s("abc"), 0, false), -1);
    assert_eq!(index_of(&s("abc"), s("b"), -1, false), 0);
    assert_eq!(index_of(&s("abc"), s("c"), 3, false), -1);
    // after a mismatch the matcher starts over at the current cluster only
    assert_eq!(index_of(&s("aaab"), s("aab"), 0, false), -1);
}

#[test]
fn starts_with_means_found_at_zero() {
    for (text, sub) in [("Hello", "he"), ("aab", "aa"), ("xyz", "x")] {
        assert!(starts_with(&s(text), s(sub), true));
        assert_eq!(index_of(&s(text), s(sub), 0, true), 0);
    }
}

#[test]
fn backward_search() {
    assert_eq!(last_index_of(&s("abcabc"), s("bc"), false), 4);
    assert_eq!(last_index_of(&s("a/b/c"), s("/"), false), 3);
    assert_eq!(last_index_of(&s("abc"), s("x"), false), -1);
    assert_eq!(last_index_of(&s("abc"), s(""), false), 0);
}

#[test]
fn ends_with_means_found_at_end() {
    for (text, sub) in [("file.TXT", ".txt"), ("abab", "ab"), ("xyz", "z")] {
        assert!(ends_with(&s(text), s(sub), true));
        assert_eq!(
            last_index_of(&s(text), s(sub), true),
            count(&s(text)) - count(&s(sub))
        );
    }
}

#[test]
fn backward_match_is_a_match() {
    let text = s("one/two/three");
    let at = last_index_of(&text, s("/"), false);
    assert_eq!(at, 7);
    assert_eq!(substring(&text, at, 1), "/");
}

#[test]
fn substrings_by_cluster() {
    assert_eq!(substring(&s("héllo"), 1, 3), "éll");
    assert_eq!(substring(&s("abc"), -1, 2), "ab");
    assert_eq!(substring(&s("abc"), 1, 0), "");
    assert_eq!(substring(&s("e\u{301}x"), 0, 1), "e\u{301}");
    assert_eq!(substring(&s("abc"), 0, 3), "abc");
}

#[test]
fn between_collects_marked_texts() {
    assert_eq!(between(&s("a[1]b[2]c"), s("["), s("]"), 0, false), v(&["1", "2"]));
    assert_eq!(between(&s("a[1]b[2]c"), s("["), s("]"), 1, false), v(&["1"]));
    assert_eq!(between(&s("<B>x</b>"), s("<b>"), s("</B>"), 0, true), v(&["x"]));
    assert_eq!(between(&s("no markers"), s("["), s("]"), 0, false), Vec::<String>::new());
    assert_eq!(between(&s("[open"), s("["), s("]"), 0, false), Vec::<String>::new());
}

#[test]
fn between_respects_limit() {
    let r = between(&s("(a)(b)(c)(d)"), s("("), s(")"), 2, false);
    assert_eq!(r, v(&["a", "b"]));
    assert!(r.len() <= 2);
}

#[test]
fn mul_string_expands_options() {
    assert_eq!(mul_string("a\\{b|c}\\d", "\\", "{", "}", "|"), v(&["a\\b\\d", "a\\c\\d"]));
    // plain segments are joined with a backslash, so with "/" nothing keeps three segments
    assert_eq!(mul_string("a/{b|c}/d", "/", "{", "}", "|"), Vec::<String>::new());
    assert_eq!(mul_string("x", "\\", "{", "}", "|"), v(&["x"]));
}

#[test]
fn replace_deletes_every_match() {
    assert_eq!(replace(&s("a-b-c"), s("-"), s(""), false), "abc");
    assert_eq!(replace(&s("xXyx"), s("x"), s(""), true), "y");
    assert_eq!(replace(&s("aaaa"), s("aa"), s(""), false), "");
}
