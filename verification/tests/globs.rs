use xdg_mime::glob::{
    checked_type, determine_type, globs_v1_from_lines, globs_v2_from_lines, has_meta_character,
    is_glob_text, Glob, GlobMap, GlobType,
};
use xdg_mime::Mime;

fn mime(s: &str) -> Mime {
    Mime::parse(s).unwrap()
}

#[test]
fn glob_type() {
    assert_eq!(determine_type("*.gif"), GlobType::Simple(".gif".to_string()));
    assert_eq!(determine_type("Foo*.gif"), GlobType::Full("Foo*.gif".to_string()));
    assert_eq!(determine_type("*[4].gif"), GlobType::Full("*[4].gif".to_string()));
    assert_eq!(determine_type("Makefile"), GlobType::Literal("Makefile".to_string()));
    assert_eq!(
        determine_type("sldkfjvlsdf\\\\slkdjf"),
        GlobType::Full("sldkfjvlsdf\\\\slkdjf".to_string())
    );
    assert_eq!(determine_type("tree.[ch]"), GlobType::Full("tree.[ch]".to_string()));
}

#[test]
fn glob_type_edges() {
    assert_eq!(determine_type(""), GlobType::Literal("".to_string()));
    assert_eq!(determine_type("*"), GlobType::Simple("".to_string()));
    assert_eq!(determine_type("**"), GlobType::Full("**".to_string()));
    assert_eq!(determine_type("?"), GlobType::Full("?".to_string()));
    assert_eq!(determine_type("a?"), GlobType::Full("a?".to_string()));
    assert_eq!(determine_type("[a]"), GlobType::Full("[a]".to_string()));
    assert_eq!(determine_type("*.\u{e9}"), GlobType::Simple(".\u{e9}".to_string()));
    assert_eq!(determine_type("a]"), GlobType::Literal("a]".to_string()));
}

#[test]
fn glob_v1_string() {
    assert_eq!(
        Glob::from_v1_string("text/rust:*.rs"),
        Some(Glob::simple(&mime("text/rust"), "*.rs"))
    );
    assert_eq!(
        Glob::from_v1_string("text/rust:*.rs"),
        Some(Glob::new(&mime("text/rust"), "*.rs", 50, false))
    );

    assert_eq!(Glob::from_v1_string(""), None);
    assert_eq!(Glob::from_v1_string("foo"), None);
    assert_eq!(Glob::from_v1_string("foo:"), None);
    assert_eq!(Glob::from_v1_string(":bar"), None);
    assert_eq!(Glob::from_v1_string(":"), None);
    assert_eq!(Glob::from_v1_string("foo:bar:baz"), None);
}

#[test]
fn glob_v2_string() {
    assert_eq!(
        Glob::from_v2_string("80:text/rust:*.rs"),
        Some(Glob::with_weight(&mime("text/rust"), "*.rs", 80))
    );
    assert_eq!(
        Glob::from_v2_string("80:text/rust:*.rs"),
        Some(Glob::new(&mime("text/rust"), "*.rs", 80, false))
    );
    assert_eq!(
        Glob::from_v2_string("50:text/x-c++src:*.C:cs"),
        Some(Glob::new(&mime("text/x-c++src"), "*.C", 50, true))
    );

    assert_eq!(Glob::from_v2_string(""), None);
    assert_eq!(Glob::from_v2_string("foo"), None);
    assert_eq!(Glob::from_v2_string("foo:"), None);
    assert_eq!(Glob::from_v2_string(":bar"), None);
    assert_eq!(Glob::from_v2_string(":"), None);
    assert_eq!(Glob::from_v2_string("foo:bar:baz"), None);
    assert_eq!(Glob::from_v2_string("foo:bar:baz:blah"), None);

    assert_eq!(
        Glob::from_v2_string("50:text/x-c++src:*.C:cs,newflag:newfeature:somethingelse"),
        Some(Glob::new(&mime("text/x-c++src"), "*.C", 50, true))
    );
}

#[test]
fn glob_v2_weight_and_flags() {
    assert_eq!(Glob::from_v2_string("80:text/rust:*.rs").unwrap().weight(), 80);
    assert_eq!(Glob::from_v2_string("+7:text/rust:*.rs").unwrap().weight(), 7);
    assert_eq!(Glob::from_v2_string("-0:text/rust:*.rs").unwrap().weight(), 0);
    assert_eq!(Glob::from_v2_string("2147483647:text/rust:*.rs").unwrap().weight(), 2147483647);
    assert_eq!(Glob::from_v2_string("-1:text/rust:*.rs"), None);
    assert_eq!(Glob::from_v2_string("2147483648:text/rust:*.rs"), None);
    assert_eq!(Glob::from_v2_string("8 0:text/rust:*.rs"), None);
    assert_eq!(Glob::from_v2_string("80:text/rust"), None);
    // the second format takes an empty pattern
    assert!(Glob::from_v2_string("80:text/rust:").is_some());
    // only the flag `cs` in the fourth field makes a record case sensitive
    let cs = |line: &str| {
        let g = Glob::from_v2_string(line).unwrap();
        g.compare("x.c") && !g.compare("x.C")
    };
    assert!(cs("50:text/x-csrc:*.c:cs"));
    assert!(cs("50:text/x-csrc:*.c:a,cs,b"));
    assert!(!cs("50:text/x-csrc:*.c:"));
    assert!(!cs("50:text/x-csrc:*.c:CS"));
    assert!(!cs("50:text/x-csrc:*.c:a,b"));
    assert!(!cs("50:text/x-csrc:*.c:a:cs"));
    assert!(!cs("50:text/x-csrc:*.c"));
}

#[test]
fn compare() {
    // Literal
    let copying = Glob::new(&mime("text/x-copying"), "copying", 50, false);
    assert_eq!(copying.compare(&"COPYING".to_string()), true);

    // Simple, case-insensitive
    let c_src = Glob::new(&mime("text/x-csrc"), "*.c", 50, false);
    assert_eq!(c_src.compare(&"foo.c".to_string()), true);
    assert_eq!(c_src.compare(&"FOO.C".to_string()), true);

    // Simple, case-sensitive
    let cplusplus_src = Glob::new(&mime("text/x-c++src"), "*.C", 50, true);
    assert_eq!(cplusplus_src.compare(&"foo.C".to_string()), true);
    assert_eq!(cplusplus_src.compare(&"foo.c".to_string()), false);
    assert_eq!(cplusplus_src.compare(&"foo.h".to_string()), false);

    // Full
    let video_x_anim = Glob::new(&mime("video/x-anim"), "*.anim[1-9j]", 50, false);
    assert_eq!(video_x_anim.compare(&"foo.anim0".to_string()), false);
    assert_eq!(video_x_anim.compare(&"foo.anim8".to_string()), true);
    assert_eq!(video_x_anim.compare(&"foo.animk".to_string()), false);
    assert_eq!(video_x_anim.compare(&"foo.animj".to_string()), true);
}

#[test]
fn compare_edges() {
    let literal = Glob::new(&mime("text/x-makefile"), "Makefile", 50, true);
    assert!(literal.compare("makefile"));
    assert!(literal.compare("MAKEFILE"));
    assert!(!literal.compare("Makefile.am"));
    assert!(!literal.compare("GNUMakefile"));
    assert!(!literal.compare(""));
    // a suffix as it stands in the table is looked for in the name and in its lower case
    let upper = Glob::new(&mime("text/x-c++src"), "*.C", 50, false);
    assert!(upper.compare("foo.C"));
    assert!(!upper.compare("foo.c"));
    let suffix = Glob::new(&mime("text/plain"), "*.txt", 50, false);
    assert!(suffix.compare(".txt"));
    assert!(suffix.compare("A.TXT"));
    assert!(!suffix.compare("txt"));
    assert!(!suffix.compare("a.txt.gz"));
    let any = Glob::new(&mime("text/plain"), "*", 50, false);
    assert!(any.compare(""));
    assert!(any.compare("anything"));
    // a full pattern is case sensitive, and matches the whole name
    let full = Glob::new(&mime("text/x-readme"), "README*", 50, false);
    assert!(full.compare("README"));
    assert!(full.compare("README.md"));
    assert!(!full.compare("readme.md"));
    assert!(!full.compare("A-README"));
    let one = Glob::new(&mime("text/plain"), "a?c", 50, false);
    assert!(one.compare("abc"));
    assert!(!one.compare("ac"));
}

#[test]
fn a_text_that_is_no_pattern_makes_no_record() {
    for broken in ["[", "a[", "[a", "abc[def", "abc[!d", "a**b", "a/**b", "x[]"] {
        assert!(has_meta_character(broken), "{}", broken);
        assert!(!is_glob_text(broken), "{}", broken);
        assert_eq!(checked_type(broken), None, "{}", broken);
        assert_eq!(Glob::checked_new(&mime("text/plain"), broken, 50, false), None);
        assert_eq!(Glob::from_v1_string(&format!("text/plain:{}", broken)), None);
        assert_eq!(Glob::from_v2_string(&format!("50:text/plain:{}", broken)), None);
        assert_eq!(Glob::from_v2_string(&format!("50:text/plain:{}:cs", broken)), None);
    }
    assert_eq!(Glob::from_v2_string("50:text/plain:["), None);
    // what holds no character of a full pattern is never asked of the engine
    for plain in ["", "*", "*.txt", "Makefile", "a]", "*]", "{a,b}"] {
        assert!(!has_meta_character(plain), "{}", plain);
        assert!(is_glob_text(plain), "{}", plain);
        assert_eq!(checked_type(plain), Some(determine_type(plain)));
    }
    for full in ["a*", "a?c", "[ab]", "*.anim[1-9j]", "README*", "**", "a\\b"] {
        assert!(has_meta_character(full), "{}", full);
        assert!(is_glob_text(full), "{}", full);
        assert_eq!(checked_type(full), Some(GlobType::Full(full.to_string())));
        assert_eq!(
            Glob::checked_new(&mime("text/plain"), full, 7, true),
            Some(Glob::new(&mime("text/plain"), full, 7, true))
        );
    }
    let lines: Vec<String> =
        vec!["50:text/plain:*.txt", "50:text/x-broken:a[", "50:text/x-class:a[bc]"]
            .into_iter()
            .map(String::from)
            .collect();
    assert_eq!(
        globs_v2_from_lines(&lines),
        vec![
            Glob::new(&mime("text/plain"), "*.txt", 50, false),
            Glob::new(&mime("text/x-class"), "a[bc]", 50, false),
        ]
    );
    let lines: Vec<String> =
        vec!["text/plain:*.txt", "text/x-broken:a[", "text/x-class:a[bc]"]
            .into_iter()
            .map(String::from)
            .collect();
    assert_eq!(
        globs_v1_from_lines(&lines),
        vec![
            Glob::simple(&mime("text/plain"), "*.txt"),
            Glob::simple(&mime("text/x-class"), "a[bc]"),
        ]
    );
}

#[test]
fn glob_map_orders_by_weight() {
    let mut map = GlobMap::new();
    assert_eq!(map.lookup_mime_type_for_file_name("a.txt"), None);
    map.add_glob(Glob::new(&mime("x/heavy"), "*.txt", 80, false));
    map.add_glob(Glob::new(&mime("x/light"), "*.txt", 10, false));
    map.add_glob(Glob::new(&mime("x/other"), "*.gif", 5, false));
    map.add_glob(Glob::new(&mime("x/middle"), "a.*", 50, false));
    map.add_glob(Glob::new(&mime("x/middle-two"), "a.txt", 50, false));
    map.add_glob(Glob::new(&mime("x/light-two"), "*xt", 10, false));
    assert_eq!(
        map.lookup_mime_type_for_file_name("a.txt"),
        Some(vec![
            mime("x/light"),
            mime("x/light-two"),
            mime("x/middle"),
            mime("x/middle-two"),
            mime("x/heavy"),
        ])
    );
    assert_eq!(map.lookup_mime_type_for_file_name("b.gif"), Some(vec![mime("x/other")]));
    assert_eq!(map.lookup_mime_type_for_file_name("b.png"), None);
    map.clear();
    assert_eq!(map.lookup_mime_type_for_file_name("a.txt"), None);
}

#[test]
fn glob_map_keeps_the_first_of_twins() {
    let mut map = GlobMap::new();
    map.add_globs(&[
        Glob::new(&mime("text/plain"), "*.txt", 50, false),
        Glob::new(&mime("text/plain"), "*.txt", 10, true),
        Glob::new(&mime("text/x-other"), "*.txt", 60, false),
        Glob::new(&mime("text/plain"), "*.text", 50, false),
    ]);
    assert_eq!(map.len(), 3);
    // the twin with weight 10 was dropped: plain stays before other, and is not case sensitive
    assert_eq!(
        map.lookup_mime_type_for_file_name("A.TXT"),
        Some(vec![mime("text/plain"), mime("text/x-other")])
    );
}

#[test]
fn globs_from_the_lines_of_a_table() {
    let lines: Vec<String> =
        vec!["# globs", "text/plain:*.txt", "", "80:text/rust:*.rs", "text/x-c:*.c:cs", "x:y"]
            .into_iter()
            .map(String::from)
            .collect();
    assert_eq!(globs_v1_from_lines(&lines), vec![Glob::simple(&mime("text/plain"), "*.txt")]);
    let v2 = globs_v2_from_lines(&lines);
    assert_eq!(v2, vec![Glob::with_weight(&mime("text/rust"), "*.rs", 80)]);
    assert_eq!(v2[0].weight(), 80);
    assert_eq!(v2[0].mime_type(), &mime("text/rust"));
}

#[test]
fn glob_map_ranks_what_was_hit() {
    let mut map = GlobMap::new();
    map.add_globs(&[
        Glob::new(&mime("x/heavy"), "*.a", 80, false),
        Glob::new(&mime("x/light"), "*.b", 10, false),
        Glob::new(&mime("x/middle"), "*.c", 50, false),
        Glob::new(&mime("x/light-two"), "*.d", 10, false),
    ]);
    assert_eq!(map.hits("x.b"), vec![false, true, false, false]);
    assert_eq!(map.hits("x.e"), vec![false, false, false, false]);
    assert_eq!(map.rank(&vec![false, false, false, false]), None);
    assert_eq!(map.rank(&vec![]), None);
    assert_eq!(
        map.rank(&vec![true, true, true, true]),
        Some(vec![mime("x/light"), mime("x/light-two"), mime("x/middle"), mime("x/heavy")])
    );
    assert_eq!(
        map.rank(&vec![true, false, true]),
        Some(vec![mime("x/middle"), mime("x/heavy")])
    );
    // marks behind the last record say nothing
    assert_eq!(
        map.rank(&vec![false, false, false, true, true, true]),
        Some(vec![mime("x/light-two")])
    );
}
