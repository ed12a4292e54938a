use xdg_mime::{looks_like_text, DirectoryContents, FileKind, FileMetadata, Mime, SharedMimeInfo};

fn mime(s: &str) -> Mime {
    Mime::parse(s).unwrap()
}

fn lines(v: &[&str]) -> Vec<String> {
    v.iter().map(|s| s.to_string()).collect()
}

fn test_magic() -> Vec<u8> {
    let mut v = b"MIME-Magic\x00\n".to_vec();
    v.extend_from_slice(b"[80:image/svg+xml]\n");
    v.extend_from_slice(b">0=\x00\x0d<!DOCTYPE svg+256\n");
    v.extend_from_slice(b">0=\x00\x04<svg+256\n");
    v.extend_from_slice(b"[50:application/x-shellscript]\n");
    v.extend_from_slice(b">2=\x00\x08/bin/zsh+16\n");
    v.extend_from_slice(b">2=\x00\x07/bin/sh+16\n");
    v.extend_from_slice(b">2=\x00\x09/bin/bash+16\n");
    v.extend_from_slice(b"[50:image/png]\n");
    v.extend_from_slice(b">0=\x00\x08\x89PNG\r\n\x1a\n\n");
    v.extend_from_slice(b"[40:application/x-low]\n");
    v.extend_from_slice(b">0=\x00\x03LOW\n");
    v
}

fn test_directory() -> DirectoryContents {
    DirectoryContents {
        path: "/test_files/mime".to_string(),
        mtime: 1000,
        aliases: lines(&[
            "# aliases",
            "application/ics text/calendar",
            "application/wordperfect application/vnd.wordperfect",
            "application/x-wordperfect application/vnd.wordperfect",
            "application/x-gnome-app-info application/x-desktop",
            "image/x-djvu image/vnd.djvu",
            "text/x-markdown text/markdown",
            "audio/midi audio/x-midi",
        ]),
        subclasses: lines(&[
            "application/rtf text/plain",
            "message/news text/plain",
            "application/x-desktop text/plain",
            "text/rust text/plain",
            "application/x-shellscript application/x-executable",
            "application/x-shellscript text/plain",
            "application/x-low-special application/x-low",
        ]),
        icons: lines(&["application/x-desktop:application-x-executable"]),
        generic_icons: lines(&[
            "application/json:text-x-script",
            "application/x-shellscript:text-x-script",
        ]),
        globs2: Some(lines(&[
            "# globs",
            "50:text/plain:*.txt",
            "50:image/gif:*.gif",
            "50:text/rust:*.rs",
            "50:image/png:*.png",
            "50:text/x-csrc:*.c",
            "50:text/x-c++src:*.C:cs",
            "50:application/x-low-special:*.low",
            "60:application/x-other:*.low",
            "50:text/x-readme:README*",
        ])),
        globs: Some(lines(&["text/x-never:*.txt"])),
        magic: test_magic(),
    }
}

fn load_test_data() -> SharedMimeInfo {
    SharedMimeInfo::new_for_directory(&test_directory())
}

fn svg_data() -> Vec<u8> {
    b"<?xml version=\"1.0\" encoding=\"UTF-8\"?>\n<svg xmlns=\"http://www.w3.org/2000/svg\" width=\"144\" height=\"144\"></svg>\n"
        .to_vec()
}

fn png_data() -> Vec<u8> {
    let mut v = b"\x89PNG\r\n\x1a\n".to_vec();
    v.extend_from_slice(b"\x00\x00\x00\x0dIHDR\x00\x00\x00\x90\x00\x00\x00\x90\x08\x06");
    v
}

fn sh_data() -> Vec<u8> {
    b"#!/bin/sh\n\necho \"Hello, world\"\n".to_vec()
}

#[test]
fn load_from_directory() {
    SharedMimeInfo::new_for_directory(&test_directory());
}

#[test]
fn reload() {
    let mut _db = load_test_data();

    assert_eq!(_db.reload(&vec![Some(1000)], &vec![test_directory()]), false);
}

#[test]
fn reload_when_a_directory_changed() {
    let mut db = load_test_data();
    assert_eq!(db.directories(), vec!["/test_files/mime".to_string()]);
    assert!(!db.stale(&vec![]));
    assert!(!db.stale(&vec![None]));
    assert!(!db.stale(&vec![Some(999)]));
    assert!(!db.stale(&vec![Some(1000)]));
    assert!(db.stale(&vec![Some(1001)]));
    assert!(db.stale(&vec![Some(1001), Some(5)]));

    assert_eq!(db.get_mime_types_from_file_name("foo.txt"), vec![mime("text/plain")]);
    let mut changed = test_directory();
    changed.mtime = 1001;
    changed.globs2 = Some(lines(&["50:text/x-new:*.txt"]));
    // nothing happens while the directory is as it was
    assert!(!db.reload(&vec![Some(1000)], &vec![changed]));
    assert_eq!(db.get_mime_types_from_file_name("foo.txt"), vec![mime("text/plain")]);
    let mut changed = test_directory();
    changed.mtime = 1001;
    changed.globs2 = Some(lines(&["50:text/x-new:*.txt"]));
    assert!(db.reload(&vec![Some(1001)], &vec![changed]));
    assert_eq!(db.get_mime_types_from_file_name("foo.txt"), vec![mime("text/x-new")]);
    assert!(!db.stale(&vec![Some(1001)]));
    assert!(db.stale(&vec![Some(1002)]));
}

#[test]
fn directories_add_up() {
    let mut db = SharedMimeInfo::create();
    assert_eq!(db.get_mime_types_from_file_name("foo.txt"), vec![mime("application/octet-stream")]);
    assert_eq!(db.max_extents(), 0);
    db.load_directory(&test_directory());
    let mut second = test_directory();
    second.path = "/usr/share/mime".to_string();
    second.aliases = lines(&["application/ics text/x-late", "text/x-old text/markdown"]);
    second.globs2 = None;
    second.globs = Some(lines(&["text/x-second:*.txt", "text/plain:*.txt"]));
    second.magic = Vec::new();
    db.load_directory(&second);
    assert_eq!(db.directories(), vec!["/test_files/mime".to_string(), "/usr/share/mime".to_string()]);
    // what came first stays first
    assert_eq!(db.unalias_mime_type(&mime("application/ics")), Some(mime("text/calendar")));
    assert_eq!(db.unalias_mime_type(&mime("text/x-old")), Some(mime("text/markdown")));
    assert_eq!(
        db.get_mime_types_from_file_name("foo.txt"),
        vec![mime("text/plain"), mime("text/x-second")]
    );
}

#[test]
fn globs_are_read_from_one_table_only() {
    let db = load_test_data();
    // `globs2` could be read, so `globs` was not looked at
    assert_eq!(db.get_mime_types_from_file_name("foo.txt"), vec![mime("text/plain")]);
    let mut dir = test_directory();
    dir.globs2 = None;
    let db = SharedMimeInfo::new_for_directory(&dir);
    assert_eq!(db.get_mime_types_from_file_name("foo.txt"), vec![mime("text/x-never")]);
    dir.globs = None;
    let db = SharedMimeInfo::new_for_directory(&dir);
    assert_eq!(db.get_mime_types_from_file_name("foo.txt"), vec![mime("application/octet-stream")]);
}

#[test]
fn lookup_generic_icons() {
    let mime_db = load_test_data();

    assert_eq!(
        mime_db.lookup_generic_icon_name(&mime("application/json")),
        Some("text-x-script".to_string())
    );
    assert_eq!(
        mime_db.lookup_generic_icon_name(&mime("text/plain")),
        Some("text-x-generic".to_string())
    );
}

#[test]
fn lookup_icons() {
    let mime_db = load_test_data();
    assert_eq!(
        mime_db.lookup_icon_names(&mime("application/x-desktop")),
        vec![
            "application-x-executable".to_string(),
            "application-x-desktop".to_string(),
            "application-x-generic".to_string(),
        ]
    );
    assert_eq!(
        mime_db.lookup_icon_names(&mime("application/x-shellscript")),
        vec!["application-x-shellscript".to_string(), "text-x-script".to_string()]
    );
    assert_eq!(
        mime_db.lookup_icon_names(&mime("image/svg+xml")),
        vec!["image-svg+xml".to_string(), "image-x-generic".to_string()]
    );
}

#[test]
fn unalias() {
    let mime_db = load_test_data();

    assert_eq!(mime_db.unalias_mime_type(&mime("application/ics")), Some(mime("text/calendar")));
    assert_eq!(mime_db.unalias_mime_type(&mime("text/plain")), None);
}

#[test]
fn parents_of_an_alias() {
    let mime_db = load_test_data();
    assert_eq!(
        mime_db.get_parents(&mime("application/x-gnome-app-info")),
        Some(vec![mime("application/x-desktop"), mime("text/plain")])
    );
    assert_eq!(mime_db.get_parents(&mime("application/ics")), Some(vec![mime("text/calendar")]));
    // a type that is no alias has no answer
    assert_eq!(mime_db.get_parents(&mime("application/rtf")), None);
}

#[test]
fn mime_type_equal() {
    let mime_db = load_test_data();

    assert_eq!(
        mime_db.mime_type_equal(
            &mime("application/wordperfect"),
            &mime("application/vnd.wordperfect"),
        ),
        true
    );
    assert_eq!(
        mime_db
            .mime_type_equal(&mime("application/x-gnome-app-info"), &mime("application/x-desktop"),),
        true
    );
    assert_eq!(
        mime_db.mime_type_equal(
            &mime("application/x-wordperfect"),
            &mime("application/vnd.wordperfect"),
        ),
        true
    );
    assert_eq!(
        mime_db.mime_type_equal(&mime("application/x-wordperfect"), &mime("audio/x-midi"),),
        false
    );
    assert_eq!(
        mime_db.mime_type_equal(&mime("application/octet-stream"), &mime("text/plain"),),
        false
    );
    assert_eq!(mime_db.mime_type_equal(&mime("text/plain"), &mime("text/*"),), false);
}

#[test]
fn mime_type_equal_is_an_equivalence() {
    let mime_db = load_test_data();
    let all = [
        "application/wordperfect",
        "application/x-wordperfect",
        "application/vnd.wordperfect",
        "audio/midi",
        "audio/x-midi",
        "text/plain",
    ];
    for a in all {
        assert!(mime_db.mime_type_equal(&mime(a), &mime(a)));
        for b in all {
            let ab = mime_db.mime_type_equal(&mime(a), &mime(b));
            assert_eq!(ab, mime_db.mime_type_equal(&mime(b), &mime(a)));
            for c in all {
                if ab && mime_db.mime_type_equal(&mime(b), &mime(c)) {
                    assert!(mime_db.mime_type_equal(&mime(a), &mime(c)));
                }
            }
        }
    }
    assert!(mime_db.mime_type_equal(&mime("application/wordperfect"), &mime("application/x-wordperfect")));
}

#[test]
fn mime_type_for_file_name() {
    let mime_db = load_test_data();

    assert_eq!(mime_db.get_mime_types_from_file_name("foo.txt"), vec![mime("text/plain")]);

    assert_eq!(mime_db.get_mime_types_from_file_name("bar.gif"), vec![mime("image/gif")]);
}

#[test]
fn mime_types_for_file_name_are_never_empty() {
    let mime_db = load_test_data();
    for name in ["", "x", "foo.unknown", "foo.txt", "a.low", "README.txt", "\u{e9}.GIF"] {
        assert!(!mime_db.get_mime_types_from_file_name(name).is_empty());
    }
    assert_eq!(
        mime_db.get_mime_types_from_file_name("foo.unknown"),
        vec![mime("application/octet-stream")]
    );
    assert_eq!(
        mime_db.get_mime_types_from_file_name("a.low"),
        vec![mime("application/x-low-special"), mime("application/x-other")]
    );
    assert_eq!(
        mime_db.get_mime_types_from_file_name("README.txt"),
        vec![mime("text/plain"), mime("text/x-readme")]
    );
    assert_eq!(mime_db.get_mime_types_from_file_name("BAR.GIF"), vec![mime("image/gif")]);
    assert_eq!(
        mime_db.get_mime_types_from_file_name("x.C"),
        vec![mime("text/x-csrc"), mime("text/x-c++src")]
    );
    assert_eq!(mime_db.get_mime_types_from_file_name("x.c"), vec![mime("text/x-csrc")]);
}

#[test]
fn mime_type_for_file_data() {
    let mime_db = load_test_data();

    let svg_data = svg_data();
    assert_eq!(mime_db.get_mime_type_for_data(&svg_data), Some((mime("image/svg+xml"), 80)));

    let png_data = png_data();
    assert_eq!(mime_db.get_mime_type_for_data(&png_data), Some((mime("image/png"), 50)));
}

#[test]
fn mime_type_for_odd_data() {
    let mime_db = load_test_data();
    assert_eq!(mime_db.get_mime_type_for_data(b""), Some((mime("application/x-zerosize"), 100)));
    assert_eq!(mime_db.get_mime_type_for_data(b"nothing known"), None);
    assert_eq!(mime_db.max_extents(), 256 + 13);
}

#[test]
fn mime_type_subclass() {
    let mime_db = load_test_data();

    assert_eq!(mime_db.mime_type_subclass(&mime("application/rtf"), &mime("text/plain"),), true);
    assert_eq!(mime_db.mime_type_subclass(&mime("message/news"), &mime("text/plain"),), true);
    assert_eq!(mime_db.mime_type_subclass(&mime("message/news"), &mime("message/*"),), true);
    assert_eq!(mime_db.mime_type_subclass(&mime("message/news"), &mime("text/*"),), true);
    assert_eq!(
        mime_db.mime_type_subclass(&mime("message/news"), &mime("application/octet-stream"),),
        true
    );
    assert_eq!(
        mime_db.mime_type_subclass(&mime("application/rtf"), &mime("application/octet-stream"),),
        true
    );
    assert_eq!(
        mime_db.mime_type_subclass(&mime("application/x-gnome-app-info"), &mime("text/plain"),),
        true
    );
    assert_eq!(mime_db.mime_type_subclass(&mime("image/x-djvu"), &mime("image/vnd.djvu"),), true);
    assert_eq!(mime_db.mime_type_subclass(&mime("image/vnd.djvu"), &mime("image/x-djvu"),), true);
    assert_eq!(mime_db.mime_type_subclass(&mime("image/vnd.djvu"), &mime("text/plain"),), false);
    assert_eq!(mime_db.mime_type_subclass(&mime("image/vnd.djvu"), &mime("text/*"),), false);
    assert_eq!(mime_db.mime_type_subclass(&mime("text/*"), &mime("text/plain"),), true);
}

#[test]
fn subclass_laws_on_examples() {
    let mime_db = load_test_data();
    let all = [
        "application/rtf",
        "message/news",
        "text/rust",
        "text/plain",
        "text/x-unknown",
        "inode/directory",
        "inode/symlink",
        "image/x-djvu",
        "application/x-gnome-app-info",
        "application/octet-stream",
        "application/x-shellscript",
    ];
    for m in all {
        let m = mime(m);
        // every type is a subclass of itself
        assert!(mime_db.mime_type_subclass(&m, &m));
        // all but the inode types are streams of bytes
        assert_eq!(
            mime_db.mime_type_subclass(&m, &mime("application/octet-stream")),
            !m.has_type("inode")
        );
        // text types are plain text
        if m.has_type("text") {
            assert!(mime_db.mime_type_subclass(&m, &mime("text/plain")));
        }
        // a type is under the wildcard of its own type
        for t in ["text", "inode", "image", "application", "message"] {
            if m.has_type(t) {
                assert!(mime_db.mime_type_subclass(&m, &mime(&format!("{}/*", t))));
            }
        }
    }
    assert!(!mime_db.mime_type_subclass(&mime("inode/directory"), &mime("text/*")));
    assert!(!mime_db.mime_type_subclass(&mime("image/png"), &mime("text/*")));
    // through a parent
    assert!(mime_db.mime_type_subclass(&mime("application/rtf"), &mime("text/*")));
    assert!(mime_db
        .mime_type_subclass(&mime("application/x-shellscript"), &mime("application/x-executable")));
    assert!(!mime_db
        .mime_type_subclass(&mime("application/x-executable"), &mime("application/x-shellscript")));
}

#[test]
fn subclass_search_ends_on_a_table_that_runs_in_circles() {
    let mut dir = test_directory();
    dir.aliases = lines(&["x/alias x/a"]);
    dir.subclasses = lines(&[
        "x/a x/b",
        "x/b x/c",
        "x/c x/a",
        "x/c x/alias",
        "x/b x/b",
        "x/c y/d",
        "y/d y/e",
        "y/d x/a",
    ]);
    let db = SharedMimeInfo::new_for_directory(&dir);
    assert!(db.mime_type_subclass(&mime("x/a"), &mime("y/e")));
    assert!(db.mime_type_subclass(&mime("x/alias"), &mime("y/e")));
    assert!(db.mime_type_subclass(&mime("y/d"), &mime("x/c")));
    assert!(db.mime_type_subclass(&mime("y/d"), &mime("x/alias")));
    assert!(!db.mime_type_subclass(&mime("x/a"), &mime("y/f")));
    assert!(!db.mime_type_subclass(&mime("y/e"), &mime("x/a")));
    assert!(db.mime_type_subclass(&mime("x/a"), &mime("y/*")));
    assert!(!db.mime_type_subclass(&mime("x/a"), &mime("z/*")));
}

#[test]
fn guess_none() {
    let mime_db = load_test_data();

    let mut gb = mime_db.guess_mime_type();
    let guess = gb.guess();
    assert_eq!(guess.mime_type(), &mime("application/octet-stream"));
    assert_eq!(guess.uncertain(), true);
}

#[test]
fn guess_filename() {
    let mime_db = load_test_data();
    let mut gb = mime_db.guess_mime_type();
    let guess = gb.file_name("foo.txt").guess();
    assert_eq!(guess.mime_type(), &mime("text/plain"));
    assert_eq!(guess.uncertain(), false);
}

#[test]
fn guess_rust_source() {
    let mime_db = load_test_data();
    let mut gb = mime_db.guess_mime_type();
    let guess = gb.file_name("lib.rs").guess();
    assert_eq!(guess.mime_type(), &mime("text/rust"));
    assert_eq!(guess.uncertain(), false);
}

#[test]
fn guess_data() {
    let svg_data = svg_data();
    let mime_db = load_test_data();
    let mut gb = mime_db.guess_mime_type();
    let guess = gb.data(&svg_data).guess();
    assert_eq!(guess.mime_type(), &mime("image/svg+xml"));
    assert_eq!(guess.uncertain(), false);
}

#[test]
fn guess_both() {
    let png_data = png_data();
    let mime_db = load_test_data();
    let mut gb = mime_db.guess_mime_type();
    let guess = gb.file_name("rust-logo.png").data(&png_data).guess();
    assert_eq!(guess.mime_type(), &mime("image/png"));
    assert_eq!(guess.uncertain(), false);
}

#[test]
fn guess_script() {
    let sh_data = sh_data();
    let mime_db = load_test_data();
    let mut gb = mime_db.guess_mime_type();
    let guess = gb.data(&sh_data).guess();
    assert_eq!(guess.mime_type(), &mime("application/x-shellscript"));
}

#[test]
fn guess_empty() {
    let mime_db = load_test_data();
    let mut gb = mime_db.guess_mime_type();
    let guess =
        gb.file_name("empty").metadata(FileMetadata { kind: FileKind::Regular, len: 0 }).guess();
    assert_ne!(guess.mime_type(), &mime("text/plain"));
    assert_eq!(guess.mime_type(), &mime("application/x-zerosize"));
    assert_eq!(guess.uncertain(), true);
}

#[test]
fn guess_text() {
    let mime_db = load_test_data();
    let mut gb = mime_db.guess_mime_type();
    let data = b"Hello, world!\n";
    let guess = gb
        .file_name("text")
        .metadata(FileMetadata { kind: FileKind::Regular, len: 14 })
        .data(data)
        .guess();
    assert_eq!(guess.mime_type(), &mime("text/plain"));
}

#[test]
fn guess_by_metadata() {
    let mime_db = load_test_data();
    let png_data = png_data();
    let mut gb = mime_db.guess_mime_type();
    let guess = gb
        .file_name("dir.png")
        .data(&png_data)
        .metadata(FileMetadata { kind: FileKind::Directory, len: 4096 })
        .guess();
    assert_eq!(guess.mime_type(), &mime("inode/directory"));
    assert_eq!(guess.uncertain(), true);
    let mut gb = mime_db.guess_mime_type();
    let guess =
        gb.file_name("link.png").metadata(FileMetadata { kind: FileKind::Symlink, len: 0 }).guess();
    assert_eq!(guess.mime_type(), &mime("inode/symlink"));
    assert_eq!(guess.uncertain(), true);
    // a file that is no regular file is not known by its size
    let mut gb = mime_db.guess_mime_type();
    let guess =
        gb.file_name("null.png").metadata(FileMetadata { kind: FileKind::Other, len: 0 }).guess();
    assert_eq!(guess.mime_type(), &mime("image/png"));
    assert_eq!(guess.uncertain(), false);
    // a regular file that is not empty goes on to its name
    let mut gb = mime_db.guess_mime_type();
    let guess =
        gb.file_name("a.gif").metadata(FileMetadata { kind: FileKind::Regular, len: 3 }).guess();
    assert_eq!(guess.mime_type(), &mime("image/gif"));
    assert_eq!(guess.uncertain(), false);
}

#[test]
fn guess_weighs_name_against_content() {
    let mime_db = load_test_data();
    // without a name the content decides
    let mut gb = mime_db.guess_mime_type();
    let guess = gb.data(b"LOW and more").guess();
    assert_eq!(guess.mime_type(), &mime("application/x-low"));
    assert_eq!(guess.uncertain(), false);
    let mut gb = mime_db.guess_mime_type();
    let guess = gb.data(&[0u8, 1, 2, 3]).guess();
    assert_eq!(guess.mime_type(), &mime("application/octet-stream"));
    assert_eq!(guess.uncertain(), true);
    let mut gb = mime_db.guess_mime_type();
    let guess = gb.data(b"just words").guess();
    assert_eq!(guess.mime_type(), &mime("text/plain"));
    assert_eq!(guess.uncertain(), false);
    // two types for the name, and content of a low priority: the first type
    // of the name that is a subclass of what the content says
    let mut gb = mime_db.guess_mime_type();
    let guess = gb.file_name("a.low").data(b"LOW and more").guess();
    assert_eq!(guess.mime_type(), &mime("application/x-low-special"));
    assert_eq!(guess.uncertain(), false);
    // two types for the name, none of them a subclass of what the content says
    let mut gb = mime_db.guess_mime_type();
    let guess = gb.file_name("README.txt").data(b"LOW and more").guess();
    assert_eq!(guess.mime_type(), &mime("text/plain"));
    assert_eq!(guess.uncertain(), true);
    // content of a high priority decides against the name
    let mut gb = mime_db.guess_mime_type();
    let guess = gb.file_name("README.txt").data(&svg_data()).guess();
    assert_eq!(guess.mime_type(), &mime("image/svg+xml"));
    assert_eq!(guess.uncertain(), false);
    // an unknown name and text
    let mut gb = mime_db.guess_mime_type();
    let guess = gb.file_name("notes").data(b"just words").guess();
    assert_eq!(guess.mime_type(), &mime("text/plain"));
    assert_eq!(guess.uncertain(), false);
}

#[test]
fn guess_reads_no_more_data_than_the_rules_may() {
    let mime_db = load_test_data();
    let max = mime_db.max_extents();
    // `<svg` behind the last byte that is kept is not seen
    let mut data = vec![b' '; max];
    data.extend_from_slice(b"<svg>");
    let mut gb = mime_db.guess_mime_type();
    let guess = gb.data(&data).guess();
    assert_eq!(guess.mime_type(), &mime("text/plain"));
    // without rules, no data are kept
    let empty = SharedMimeInfo::create();
    let mut gb = empty.guess_mime_type();
    let guess = gb.data(b"just words").guess();
    assert_eq!(guess.mime_type(), &mime("application/octet-stream"));
    assert_eq!(guess.uncertain(), true);
}

#[test]
fn looks_like_text_works() {
    assert!(looks_like_text(&[]));
    assert!(looks_like_text(b"hello"));
    assert!(!looks_like_text(b"hello\x00"));
    assert!(!looks_like_text(&[0, 1, 2]));
}

#[test]
fn looks_like_text_reads_128_bytes() {
    assert!(looks_like_text(b"tab\there\nand\x0bthere\x0c\r\n"));
    assert!(!looks_like_text(b"bell\x07"));
    assert!(!looks_like_text(b"escape\x1b[0m"));
    assert!(!looks_like_text(b"delete\x7f"));
    assert!(looks_like_text(&[0x80, 0xff, 0xc3, 0xa9]));
    let mut long = vec![b'a'; 128];
    long.push(0);
    assert!(looks_like_text(&long));
    let mut long = vec![b'a'; 127];
    long.push(0);
    assert!(!looks_like_text(&long));
    for b in 0..=255u8 {
        let binary = (b < 0x20 || b == 0x7f) && !(0x09..=0x0d).contains(&b);
        assert_eq!(looks_like_text(&[b]), !binary);
    }
}

#[test]
fn guess_from_the_types_of_a_name() {
    let db = load_test_data();
    let regular = Some(FileMetadata { kind: FileKind::Regular, len: 12 });
    let check = |names: &[&str], data: &[u8], md: Option<FileMetadata>, m: &str, uncertain: bool| {
        let names: Vec<Mime> = names.iter().map(|n| mime(n)).collect();
        let guess = db.guess_from_names(&names, data, md);
        assert_eq!(guess.mime_type(), &mime(m));
        assert_eq!(guess.uncertain(), uncertain);
    };
    // metadata first
    check(&["image/png"], b"LOW", Some(FileMetadata { kind: FileKind::Directory, len: 3 }),
        "inode/directory", true);
    check(&[], b"", Some(FileMetadata { kind: FileKind::Symlink, len: 3 }), "inode/symlink", true);
    check(&["image/png"], b"", Some(FileMetadata { kind: FileKind::Regular, len: 0 }),
        "application/x-zerosize", true);
    // one type for the name
    check(&["image/png"], b"LOW", regular, "image/png", false);
    check(&["image/png"], b"", None, "image/png", false);
    // no type for the name
    check(&[], b"", None, "application/octet-stream", true);
    check(&[], b"LOW", None, "application/x-low", false);
    check(&[], b"words", None, "text/plain", false);
    check(&[], &[1, 2], None, "application/octet-stream", true);
    // the unknown type for the name, and content that decides with its priority
    check(&["application/octet-stream"], &svg_data(), None, "image/svg+xml", false);
    check(&["application/octet-stream"], b"words", None, "text/plain", false);
    check(&["application/octet-stream"], &[1, 2], None, "application/octet-stream", false);
    check(&["a/b", "c/d"], b"", None, "application/octet-stream", false);
    // content of a low priority
    check(&["a/b", "application/x-low-special"], b"LOW", None, "application/x-low-special", false);
    check(&["a/b", "application/x-low"], b"LOW", None, "application/x-low", false);
    check(&["a/b", "c/d"], b"LOW", None, "a/b", true);
    check(&["application/octet-stream"], b"LOW", None, "application/octet-stream", true);
}

#[test]
fn sniffing_and_refining() {
    let db = load_test_data();
    assert_eq!(db.sniff_text(b""), (mime("application/octet-stream"), 80));
    assert_eq!(db.sniff_text(&[0, 1]), (mime("application/octet-stream"), 80));
    assert_eq!(db.sniff_text(b"words"), (mime("text/plain"), 80));
    assert_eq!(db.sniff_text(b"LOW"), (mime("application/x-low"), 40));
    assert_eq!(db.sniff_text(&png_data()), (mime("image/png"), 50));
    let names = vec![mime("image/png"), mime("text/rust"), mime("application/rtf")];
    assert_eq!(db.refine(&names, &mime("text/plain")), Some(mime("text/rust")));
    assert_eq!(db.refine(&names, &mime("image/*")), Some(mime("image/png")));
    assert_eq!(db.refine(&names, &mime("audio/*")), None);
    assert_eq!(db.refine(&Vec::new(), &mime("text/plain")), None);
}

#[test]
fn bytes_to_read_for_a_guess() {
    let db = load_test_data();
    let max = db.max_extents();
    assert_eq!(max, 269);
    assert_eq!(db.bytes_to_read(None), 269);
    assert_eq!(db.bytes_to_read(Some(0)), 0);
    assert_eq!(db.bytes_to_read(Some(100)), 100);
    assert_eq!(db.bytes_to_read(Some(268)), 268);
    assert_eq!(db.bytes_to_read(Some(269)), 269);
    assert_eq!(db.bytes_to_read(Some(270)), 269);
    assert_eq!(db.bytes_to_read(Some(u64::MAX)), 269);
    let empty = SharedMimeInfo::create();
    assert_eq!(empty.bytes_to_read(None), 0);
    assert_eq!(empty.bytes_to_read(Some(10)), 0);
}

#[test]
fn data_add_up_chunk_by_chunk() {
    let db = load_test_data();
    // each chunk is cut to what the rules may read, and the chunks add up
    let mut first = vec![b' '; 300];
    first[299] = 0;
    let mut gb = db.guess_mime_type();
    let guess = gb.data(&first).data(b"LOW").guess();
    assert_eq!(guess.mime_type(), &mime("text/plain"));
    let mut gb = db.guess_mime_type();
    let guess = gb.data(b"").data(b"LOW").guess();
    assert_eq!(guess.mime_type(), &mime("application/x-low"));
    let mut gb = db.guess_mime_type();
    let guess = gb.data(b"LO").data(b"W and more").guess();
    assert_eq!(guess.mime_type(), &mime("application/x-low"));
}
