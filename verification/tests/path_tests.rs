use sd_req::path::{
    get_directory_name, get_domain, get_extension, get_filename, get_filename_without_extension, get_url,
    get_url_filename, get_url_filename_compare, lines_of, remove_last_slash, try_get_url_filename,
    try_get_url_filename_compare, url_between, url_between_all, url_inside_all,
};

fn s(x: &str) -> String {
    x.to_string()
}

fn v(xs: &[&str]) -> Vec<String> {
    xs.iter().map(|x| x.to_string()).collect()
}

#[test]
fn url_between_cuts_query_and_backslash() {
    let page = s("<a href=\"http://x.com/a?b=1\">go</a> <a href=\"HTTP://y.org/p\\q\">");
    let r = url_between(s("http://"), page);
    assert_eq!(r, v(&["http://x.com/a", "http://y.org/p"]));
    for u in &r {
        assert!(u.starts_with("http://"));
    }
}

#[test]
fn url_between_all_decodes() {
    let (urls, last) = url_between_all(s("http://"), s("\"http://x.com/a%20b\" more"));
    assert_eq!(urls, v(&["http://x.com/a b"]));
    assert_eq!(last, -1);
    let (urls, last) = url_between_all(s("http://"), s("see \"http://y.org\" end"));
    assert_eq!(urls, v(&["http://y.org"]));
    assert_eq!(last, 5);
    let (urls, last) = url_between_all(s("http://"), s("nothing here"));
    assert!(urls.is_empty());
    assert_eq!(last, -1);
    let (urls, _) = url_between_all(s("http://"), s("\"http://x.com/caf%C3%A9\""));
    assert_eq!(urls, v(&["http://x.com/café"]));
    // no UTF-8 after decoding: the text is kept as found
    let (urls, _) = url_between_all(s("http://"), s("\"http://x.com/%FF\""));
    assert_eq!(urls, v(&["http://x.com/%FF"]));
}

#[test]
fn url_inside_all_reads_quoted_addresses() {
    let (urls, last) = url_inside_all(s("http"), s("a=\"http://p\" b=\"http://q\""));
    assert_eq!(urls, v(&["http://p", "http://q"]));
    assert_eq!(last, 25);
    let (urls, last) = url_inside_all(s("http"), s("no links"));
    assert!(urls.is_empty());
    assert_eq!(last, -1);
    let (urls, last) = url_inside_all(s(""), s(""));
    assert!(urls.is_empty());
    assert_eq!(last, -1);
}

#[test]
fn get_url_takes_first_address() {
    assert_eq!(get_url(s("http"), s("x http://a.com/p?q=1\" y")), "http://a.com/p");
    assert_eq!(get_url(s("zz"), s("abc")), "");
    assert_eq!(get_url(s("HTTP"), s("go http://b.net")), "http://b.net");
}

#[test]
fn extensions_and_names() {
    assert_eq!(get_extension(s("a/b.tar.gz")), ".gz");
    assert_eq!(get_extension(s("noext")), "");
    assert_eq!(get_filename(s("dir/sub\\file.txt")), "file.txt");
    assert_eq!(get_filename(s("dir/")), "");
    assert_eq!(get_filename(s("plain")), "plain");
    assert_eq!(get_filename(s("")), "");
    assert_eq!(get_filename_without_extension(s("dir/file.tar.gz")), "file.tar");
    assert_eq!(get_filename_without_extension(s(".bashrc")), ".bashrc");
    assert_eq!(get_directory_name(s("a/b/c")), "a/b");
    assert_eq!(get_directory_name(s("c")), ".");
}

#[test]
fn directory_separator_and_name_rebuild_the_path() {
    for p in ["a/b/c.txt", "x\\y\\z", "root/file"] {
        let d = get_directory_name(s(p));
        let f = get_filename(s(p));
        let sep = &p[d.len()..d.len() + 1];
        assert_eq!(format!("{}{}{}", d, sep, f), p);
    }
}

#[test]
fn slashes_and_url_file_names() {
    assert_eq!(remove_last_slash(s("http://a.com///")), "http://a.com");
    assert_eq!(remove_last_slash(s("")), "");
    assert_eq!(get_url_filename(s("http://a.com/dir/img.png?w=10")), "img&w=10.png");
    assert_eq!(get_url_filename(s("http://a.com/file")), "file");
    assert_eq!(get_url_filename(s("http://a.com/")), "a.com");
    assert_eq!(get_url_filename(s("")), "");
    assert_eq!(try_get_url_filename(s("http://a.com/x.y")), Some(s("x.y")));
}

#[test]
fn url_file_names_compared_with_neighbours() {
    let r = get_url_filename_compare(s("http://x/a.jpg?id=1&s=2"), s("http://x/a.jpg?id=1&s=3"), s(""));
    assert_eq!(r, "a&s=2.jpg");
    assert_eq!(get_url_filename_compare(s("http://x/f.png"), s(""), s("")), "f.png");
    assert_eq!(
        try_get_url_filename_compare(s("http://x/a.jpg?id=1&s=2"), s(""), s("http://x/a.jpg?id=2&s=2")),
        Some(s("a&id=1"))
    );
}

#[test]
fn domains() {
    assert_eq!(get_domain(s("https://www.example.com/path")), "www.example.com");
    assert_eq!(get_domain(s("http://host:80")), "host:80");
    assert_eq!(get_domain(s("ftp://x/y")), "y");
}

#[test]
fn lines() {
    assert_eq!(lines_of(&s("a\r\nb\nc")), v(&["a", "b", "c"]));
    assert_eq!(lines_of(&s("")), v(&[""]));
    assert_eq!(lines_of(&s("x\n")), v(&["x", ""]));
}

#[test]
fn path_splits_into_directory_separator_and_name() {
    for (f, sep) in [("a/b/c.txt", "/"), ("a\\b", "\\"), ("dir/", "/"), ("/", "/"), ("x\\y/z", "/")] {
        let joined = get_directory_name(s(f)) + sep + &get_filename(s(f));
        assert_eq!(joined, f);
    }
    assert_eq!(get_filename(s("dir/")), "");
    assert_eq!(get_directory_name(s("plain")), ".");
    assert_eq!(get_filename(s("plain")), "plain");
}

#[test]
fn name_splits_into_stem_and_extension() {
    for f in ["photo.tar.gz", "noext", ".hidden", "a.", "dir.d/file"] {
        let stem = sd_req::stringops::get_filename_without_extension(s(f));
        assert_eq!(stem + &get_extension(s(f)), f);
    }
    assert_eq!(get_extension(s("photo.tar.gz")), ".gz");
    assert_eq!(get_extension(s("noext")), "");
}
