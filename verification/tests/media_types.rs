use xdg_mime::Mime;

#[test]
fn mime_parts() {
    let svg = Mime::parse("image/svg+xml").unwrap();
    assert_eq!(svg.type_(), "image");
    assert_eq!(svg.subtype(), "svg");
    assert_eq!(svg.suffix(), Some("xml"));
    assert_eq!(svg.essence_str(), "image/svg+xml");
    let plain = Mime::parse("text/plain").unwrap();
    assert_eq!(plain.type_(), "text");
    assert_eq!(plain.subtype(), "plain");
    assert_eq!(plain.suffix(), None);
    assert_eq!(plain.essence_str(), "text/plain");
    assert!(plain.has_type("text"));
    assert!(!plain.has_type("tex"));
    assert!(!plain.is_star());
    assert!(plain.same_type(&Mime::parse("text/html").unwrap()));
    assert!(!plain.same_type(&svg));
}

#[test]
fn mime_equality_ignores_case() {
    assert_eq!(Mime::parse("TEXT/Plain").unwrap(), Mime::parse("text/plain").unwrap());
    assert_eq!(Mime::parse("Image/SVG+XML").unwrap().essence_str(), "image/svg+xml");
    assert_ne!(Mime::parse("text/plain").unwrap(), Mime::parse("text/html").unwrap());
    assert_ne!(Mime::parse("text/plain").unwrap(), Mime::parse("application/plain").unwrap());
    assert_ne!(Mime::parse("a/b+c").unwrap(), Mime::parse("a/b").unwrap());
    assert_eq!(Mime::parse("a/b").unwrap().clone(), Mime::parse("a/b").unwrap());
}

#[test]
fn mime_wildcards() {
    let star = Mime::parse("text/*").unwrap();
    assert!(star.is_star());
    assert_eq!(star.type_(), "text");
    let any = Mime::parse("*/*").unwrap();
    assert!(any.is_star());
    assert_eq!(any.type_(), "*");
}

#[test]
fn mime_keeps_no_parameters() {
    let with = Mime::parse("text/plain; charset=utf-8").unwrap();
    assert_eq!(with, Mime::parse("text/plain").unwrap());
    assert_eq!(with.essence_str(), "text/plain");
}

#[test]
fn mime_rejects() {
    assert!(Mime::parse("").is_none());
    assert!(Mime::parse("text").is_none());
    assert!(Mime::parse("/plain").is_none());
    assert!(Mime::parse("te xt/plain").is_none());
    assert!(Mime::parse("text/pl ain").is_none());
    assert!(Mime::parse("t\u{e9}xt/plain").is_none());
}

#[test]
fn mime_constants() {
    assert_eq!(Mime::text_plain(), Mime::parse("text/plain").unwrap());
    assert_eq!(Mime::octet_stream(), Mime::parse("application/octet-stream").unwrap());
    assert_eq!(Mime::zerosize(), Mime::parse("application/x-zerosize").unwrap());
    assert_eq!(Mime::inode_directory(), Mime::parse("inode/directory").unwrap());
    assert_eq!(Mime::inode_symlink(), Mime::parse("inode/symlink").unwrap());
}

#[test]
fn mime_order_is_the_order_of_the_texts() {
    let all = [
        "a/b", "a/b+c", "a/bb", "a/c", "aa/b", "application/json", "text/plain", "text/*",
        "image/svg+xml", "image/svg", "b/a", "*/*",
    ];
    for x in all {
        for y in all {
            assert_eq!(
                Mime::parse(x).unwrap().le(&Mime::parse(y).unwrap()),
                x <= y,
                "{} {}",
                x,
                y
            );
        }
    }
}
