use xdg_mime::magic::{
    buf_to_u32, lookup_data, masked_slices_are_equal, max_extents, to_string, to_u32, MagicEntry,
    MagicRule,
};
use xdg_mime::magic_parse::{
    from_u8_to_entries, magic_entry, magic_header, magic_rule, read_magic_from_bytes,
};
use xdg_mime::Mime;

fn hello_rule(start_offset: u32, range_length: u32) -> MagicRule {
    MagicRule::new(
        0,
        start_offset,
        vec!['h' as u8, 'e' as u8, 'l' as u8, 'l' as u8, 'o' as u8],
        None,
        1,
        range_length,
    )
}

fn mime(s: &str) -> Mime {
    Mime::parse(s).unwrap()
}

#[test]
fn magic_rule_matches_data() {
    let rule = hello_rule(0, 30);

    assert!(rule.matches_data(b"hello world"));
    assert!(rule.matches_data(b"world hello"));
}

#[test]
fn magic_rule_matches_data_with_start_offset() {
    let rule = hello_rule(1, 30);

    assert!(!rule.matches_data(b"hello world"));
    assert!(rule.matches_data(b"xhello world"));
    assert!(rule.matches_data(b"world hello"));
}

#[test]
fn magic_rule_matches_data_with_range_length() {
    let rule = hello_rule(0, 10);

    assert!(rule.matches_data(b"hello world"));
    assert!(rule.matches_data(b"12345hello"));
    assert!(rule.matches_data(b"123456789hello"));
    assert!(!rule.matches_data(b"1234567890hello"));
    assert!(!rule.matches_data(b"too long a prefix for this to match hello"));
}

#[test]
fn magic_rule_matches_data_with_start_offset_and_range_length() {
    let rule = hello_rule(1, 3);

    assert!(!rule.matches_data(b"hello world"));
    assert!(rule.matches_data(b"1hello world"));
    assert!(rule.matches_data(b"12hello world"));
    assert!(rule.matches_data(b"123hello world"));
    assert!(!rule.matches_data(b"1234hello world"));
}

#[test]
fn magic_rule_matches_data_with_mask() {
    let rule = MagicRule::new(
        0,
        0,
        vec!['h' as u8, 'E' as u8, 'l' as u8, 'l' as u8, 'O' as u8],
        Some(vec![!0x20; 5]),
        1,
        30,
    );

    assert!(rule.matches_data(b"HeLlo world"));
    assert!(rule.matches_data(b"world HeLlo"));
    assert!(rule.matches_data(b"12345heLLO"));
    assert!(!rule.matches_data(b"HuLLO WORLD"));
}

#[test]
fn magic_rule_with_empty_value() {
    let rule = MagicRule::new(0, 2, Vec::new(), None, 1, 1);
    assert!(rule.matches_data(b"ab"));
    assert!(rule.matches_data(b"abc"));
    assert!(!rule.matches_data(b"a"));
    let never = MagicRule::new(0, 0, Vec::new(), None, 1, 0);
    assert!(!never.matches_data(b"abc"));
}

#[test]
fn magic_rule_on_short_data() {
    let rule = hello_rule(0, 30);
    assert!(!rule.matches_data(b""));
    assert!(!rule.matches_data(b"hell"));
    assert!(rule.matches_data(b"hello"));
}

#[test]
fn masked_match_ignores_other_bits() {
    // the mask selects the low nibble only
    let rule = MagicRule::new(0, 0, vec![0x0a, 0x0b], Some(vec![0x0f, 0x0f]), 1, 1);
    assert!(rule.matches_data(&[0x0a, 0x0b]));
    assert!(rule.matches_data(&[0xfa, 0x3b]));
    assert!(rule.matches_data(&[0xfa & 0x0f, 0x3b & 0x0f]));
    assert!(!rule.matches_data(&[0xfb, 0x3b]));
    assert!(!rule.matches_data(&[0xfb & 0x0f, 0x3b & 0x0f]));
}

#[test]
fn masked_slices() {
    assert!(masked_slices_are_equal(&[0xff, 0x00], &[0x0f, 0xf0], &[0x0f, 0x0f]));
    assert!(!masked_slices_are_equal(&[0xff, 0x01], &[0x0f, 0xf0], &[0x0f, 0x0f]));
    assert!(masked_slices_are_equal(&[], &[], &[]));
    assert!(masked_slices_are_equal(&[1, 2], &[3, 4], &[0, 0]));
}

#[test]
fn rule_extent_is_offset_plus_range_plus_length() {
    assert_eq!(hello_rule(1, 3).extent(), 9);
    assert_eq!(hello_rule(0, 0).extent(), 5);
    assert_eq!(MagicRule::new(0, 7, Vec::new(), None, 1, 1).extent(), 8);
}

#[test]
fn max_extents_bounds_every_rule() {
    let entries = vec![
        MagicEntry::new(mime("image/png"), 50, vec![hello_rule(0, 1), hello_rule(10, 20)]),
        MagicEntry::new(mime("image/gif"), 50, vec![hello_rule(3, 4)]),
        MagicEntry::new(mime("text/plain"), 50, Vec::new()),
    ];
    let max = max_extents(&entries);
    assert_eq!(max, 35);
    for rule in [hello_rule(0, 1), hello_rule(10, 20), hello_rule(3, 4)] {
        assert!(max >= rule.extent());
    }
    assert_eq!(entries[0].max_extents(), 35);
    assert_eq!(entries[1].max_extents(), 12);
    assert_eq!(entries[2].max_extents(), 0);
    assert_eq!(max_extents(&[]), 0);
}

#[test]
fn entry_walks_down_the_tree() {
    let rule = |indent: u32, value: &[u8]| MagicRule::new(indent, 0, value.to_vec(), None, 1, 1);
    // a root with one child
    let entry = MagicEntry::new(mime("a/b"), 10, vec![rule(0, b"ab"), rule(1, b"abc")]);
    assert_eq!(entry.matches(b"abcd"), Some((&mime("a/b"), 10)));
    assert_eq!(entry.matches(b"abxd"), None);
    assert_eq!(entry.matches(b"xbcd"), None);
    // two roots: the second is tried when the first fails
    let entry = MagicEntry::new(mime("a/b"), 10, vec![rule(0, b"ab"), rule(0, b"cd")]);
    assert_eq!(entry.matches(b"ab"), Some((&mime("a/b"), 10)));
    assert_eq!(entry.matches(b"cd"), Some((&mime("a/b"), 10)));
    assert_eq!(entry.matches(b"ef"), None);
    // no rules, no match
    let entry = MagicEntry::new(mime("a/b"), 10, Vec::new());
    assert_eq!(entry.matches(b"ab"), None);
    // a root whose child is followed by a rule of the same depth
    let entry =
        MagicEntry::new(mime("a/b"), 10, vec![rule(0, b"a"), rule(1, b"ab"), rule(1, b"ac")]);
    assert_eq!(entry.matches(b"ab"), Some((&mime("a/b"), 10)));
    assert_eq!(entry.matches(b"ac"), Some((&mime("a/b"), 10)));
    assert_eq!(entry.matches(b"ad"), None);
}

#[test]
fn lookup_takes_the_first_entry_that_matches() {
    let rule = |value: &[u8]| MagicRule::new(0, 0, value.to_vec(), None, 1, 1);
    let entries = vec![
        MagicEntry::new(mime("a/long"), 80, vec![rule(b"abc")]),
        MagicEntry::new(mime("a/short"), 50, vec![rule(b"ab")]),
    ];
    assert_eq!(lookup_data(&entries, b"abcd"), Some((mime("a/long"), 80)));
    assert_eq!(lookup_data(&entries, b"abxd"), Some((mime("a/short"), 50)));
    assert_eq!(lookup_data(&entries, b"xxxx"), None);
    assert_eq!(lookup_data(&[], b"abcd"), None);
}

#[test]
fn numbers_from_bytes() {
    assert_eq!(buf_to_u32(b"42", 0), 42);
    assert_eq!(buf_to_u32(b"+42", 0), 42);
    assert_eq!(buf_to_u32(b"0042", 7), 42);
    assert_eq!(buf_to_u32(b"", 7), 7);
    assert_eq!(buf_to_u32(b"+", 7), 7);
    assert_eq!(buf_to_u32(b"-1", 7), 7);
    assert_eq!(buf_to_u32(b"4a", 7), 7);
    assert_eq!(buf_to_u32(b" 4", 7), 7);
    assert_eq!(buf_to_u32(b"4294967295", 7), 4294967295);
    assert_eq!(buf_to_u32(b"4294967296", 7), 7);
    assert_eq!(buf_to_u32(b"99999999999999999999999", 7), 7);
    assert_eq!(buf_to_u32(&[0xff, 0x31], 7), 7);
    assert_eq!(to_u32(to_string(b"12"), 3), 12);
    assert_eq!(to_u32(to_string(&[0xc3, 0x28]), 3), 3);
}

#[test]
fn text_from_bytes() {
    assert_eq!(to_string(b"hello").unwrap(), "hello");
    assert_eq!(to_string("h\u{e9}llo".as_bytes()).unwrap(), "h\u{e9}llo");
    assert!(to_string(&[0x68, 0xff]).is_err());
    assert!(to_string(&[0xc3]).is_err());
    assert_eq!(to_string(b"").unwrap(), "");
}

#[test]
fn parse_magic_header() {
    let res = magic_header("[50:application/x-yaml]\n".as_bytes(), 0);

    match res {
        Some((o, i)) => {
            assert_eq!(i, 24);
            assert_eq!(o, (50, mime("application/x-yaml")));
        }
        None => {
            panic!("cannot parse magic rule");
        }
    }
}

#[test]
fn magic_header_rejects() {
    assert!(magic_header(b"50:application/x-yaml]\n", 0).is_none());
    assert!(magic_header(b"[50application/x-yaml]\n", 0).is_none());
    assert!(magic_header(b"[50:application/x-yaml]", 0).is_none());
    assert!(magic_header(b"[50:not a mime]\n", 0).is_none());
    assert!(magic_header(b"[50:\xff/x]\n", 0).is_none());
    assert!(magic_header(b"", 0).is_none());
    assert!(magic_header(b"[50:a/b]\n", 9).is_none());
    // a priority that is no number counts as 0
    assert_eq!(magic_header(b"[high:a/b]\n", 0), Some(((0, mime("a/b")), 11)));
    // the header may start anywhere
    assert_eq!(magic_header(b"xx[7:a/b]\nyy", 2), Some(((7, mime("a/b")), 10)));
}

fn single_rule() -> Vec<u8> {
    b">0=\x00\x05hello\n".to_vec()
}

fn rule_with_range() -> Vec<u8> {
    b"1>4=\x00\x02ab+12\n".to_vec()
}

fn rule_with_ws() -> Vec<u8> {
    b">8=\x00\x02\x01\x02&\xff\x0f~2+3\n".to_vec()
}

#[test]
fn parse_one_magic_rule() {
    let simple = single_rule();
    match magic_rule(&simple, 0) {
        Some((o, i)) => {
            assert_eq!(i, simple.len());
            assert_eq!(o.indent(), 0);
            assert_eq!(o.extent(), 6);
            assert!(o.matches_data(b"hello"));
            assert!(!o.matches_data(b" hello"));
        }
        None => {
            panic!("cannot parse magic rule");
        }
    }

    let range = rule_with_range();
    match magic_rule(&range, 0) {
        Some((o, i)) => {
            assert_eq!(i, range.len());
            assert_eq!(o.indent(), 1);
            assert_eq!(o.extent(), 4 + 12 + 2);
            assert!(o.matches_data(b"0123ab"));
            assert!(o.matches_data(b"0123456789xxxxxab"));
            assert!(!o.matches_data(b"0123456789xxxxxxab"));
            assert!(!o.matches_data(b"012ab"));
        }
        None => {
            panic!("cannot parse magic rule");
        }
    }

    let ws = rule_with_ws();
    match magic_rule(&ws, 0) {
        Some((o, i)) => {
            assert_eq!(i, ws.len());
            assert_eq!(o.indent(), 0);
            assert_eq!(o.extent(), 8 + 3 + 2);
            assert!(o.matches_data(b"01234567\x01\x02"));
            assert!(o.matches_data(b"01234567\x01\xf2"));
            assert!(o.matches_data(b"0123456789\x01\xf2"));
            assert!(!o.matches_data(b"01234567\x02\x02"));
            assert!(!o.matches_data(b"01234567890\x01\x02"));
        }
        None => {
            panic!("cannot parse magic rule");
        }
    }
}

#[test]
fn magic_rule_rejects() {
    // no rule starts with a letter
    assert!(magic_rule(b"x>0=\x00\x01a\n", 0).is_none());
    assert!(magic_rule(b"", 0).is_none());
    // no `>`, no `=`
    assert!(magic_rule(b"0=\x00\x01a\n", 0).is_none());
    assert!(magic_rule(b">0\x00\x01a\n", 0).is_none());
    // the value is cut short
    assert!(magic_rule(b">0=\x00\x05hell", 0).is_none());
    assert!(magic_rule(b">0=\x00", 0).is_none());
    // no line ending
    assert!(magic_rule(b">0=\x00\x01a", 0).is_none());
    assert!(magic_rule(b">0=\x00\x01ab\n", 0).is_none());
    // a mask that is cut short is no mask, and then no line ending follows
    assert!(magic_rule(b">0=\x00\x02ab&c\n", 0).is_none());
    // a word size other than 0, 1, 2 and 4
    assert!(magic_rule(b">0=\x00\x01a~3\n", 0).is_none());
    assert!(magic_rule(b">0=\x00\x01a~24\n", 0).is_none());
    // a start past the end
    assert!(magic_rule(b">0=\x00\x01a\n", 7).is_none());
}

#[test]
fn magic_rule_reads_odd_numbers() {
    // an indent and an offset that are no numbers count as 0
    let (rule, next) = magic_rule(b"9x>y=\x00\x01a\n", 0).unwrap();
    assert_eq!(next, 9);
    assert_eq!(rule.indent(), 0);
    assert_eq!(rule.extent(), 0 + 1 + 1);
    // a range in hexadecimal digits is read in base ten, and counts as 1 otherwise
    let (rule, _) = magic_rule(b">0=\x00\x01a+ff\n", 0).unwrap();
    assert_eq!(rule.extent(), 0 + 1 + 1);
    let (rule, _) = magic_rule(b">0=\x00\x01a+\n", 0).unwrap();
    assert_eq!(rule.extent(), 0 + 1 + 1);
    let (rule, _) = magic_rule(b">0=\x00\x01a+20\r\n", 0).unwrap();
    assert_eq!(rule.extent(), 0 + 20 + 1);
    // a value of no bytes, a word size of 0
    let (rule, next) = magic_rule(b"3>12=\x00\x00~0\n", 0).unwrap();
    assert_eq!(next, 10);
    assert_eq!(rule.indent(), 3);
    assert_eq!(rule.extent(), 12 + 1);
    // a mask of no bytes
    let (rule, next) = magic_rule(b">0=\x00\x00&\n", 0).unwrap();
    assert_eq!(next, 7);
    assert!(rule.matches_data(b""));
    // the length is big endian
    let mut long = b">0=\x01\x00".to_vec();
    long.extend(vec![b'a'; 256]);
    long.push(b'\n');
    let (rule, next) = magic_rule(&long, 0).unwrap();
    assert_eq!(next, long.len());
    assert_eq!(rule.extent(), 257);
}

fn single_entry() -> Vec<u8> {
    let mut v = b"[50:image/png]\n".to_vec();
    v.extend_from_slice(b">0=\x00\x08\x89PNG\r\n\x1a\n\n");
    v
}

fn many_rules() -> Vec<u8> {
    let mut v = b"[60:application/x-test]\n".to_vec();
    v.extend_from_slice(b">0=\x00\x02ab\n");
    v.extend_from_slice(b"1>2=\x00\x02cd\n");
    v.extend_from_slice(b"1>2=\x00\x02ef+4\n");
    v.extend_from_slice(b">0=\x00\x04\x01\x02\x03\x04&\xff\xff\x00\xff~4\n");
    v
}

fn png_bytes() -> Vec<u8> {
    let mut v = b"\x89PNG\r\n\x1a\n".to_vec();
    v.extend_from_slice(b"\x00\x00\x00\x0dIHDR\x00\x00\x00\x10\x00\x00\x00\x10");
    v
}

#[test]
fn parse_simple_magic_entry() {
    let data = single_entry();
    match magic_entry(&data, 0) {
        Some((o, i)) => {
            assert_eq!(i, data.len());
            assert_eq!(o.matches(&png_bytes()), Some((&mime("image/png"), 50)));
            assert_eq!(o.matches(b"GIF89a"), None);
            assert_eq!(o.max_extents(), 9);
        }
        None => {
            panic!("cannot parse magic entry");
        }
    }
}

#[test]
fn parse_magic_entry() {
    let data = many_rules();
    match magic_entry(&data, 0) {
        Some((o, i)) => {
            assert_eq!(i, data.len());
            assert_eq!(o.max_extents(), 2 + 4 + 2);
            assert_eq!(o.matches(b"abcd"), Some((&mime("application/x-test"), 60)));
            assert_eq!(o.matches(b"abxxxef"), Some((&mime("application/x-test"), 60)));
            assert_eq!(o.matches(b"abxxxxef"), None);
            assert_eq!(o.matches(b"\x01\x02\x99\x04"), Some((&mime("application/x-test"), 60)));
            assert_eq!(o.matches(b"\x01\x03\x99\x04"), None);
        }
        None => {
            panic!("cannot parse magic entry");
        }
    }
}

#[test]
fn magic_entry_needs_a_rule() {
    assert!(magic_entry(b"[50:image/png]\n", 0).is_none());
    assert!(magic_entry(b"[50:image/png]\n[60:image/gif]\n>0=\x00\x01a\n", 0).is_none());
    assert!(magic_entry(b">0=\x00\x01a\n", 0).is_none());
}

fn magic_file() -> Vec<u8> {
    let mut v = b"MIME-Magic\x00\n".to_vec();
    v.extend(single_entry());
    v.extend(many_rules());
    v
}

#[test]
fn parse_magic_file() {
    let data = magic_file();
    match from_u8_to_entries(&data) {
        Some((o, i)) => {
            assert_eq!(i, data.len());
            assert_eq!(o.len(), 2);
            assert_eq!(lookup_data(&o, &png_bytes()), Some((mime("image/png"), 50)));
            assert_eq!(lookup_data(&o, b"abcd"), Some((mime("application/x-test"), 60)));
        }
        None => {
            panic!("cannot parse magic file");
        }
    }
}

#[test]
fn magic_file_without_start_is_empty() {
    assert!(from_u8_to_entries(b"").is_none());
    assert!(from_u8_to_entries(b"MIME-Magic\x00").is_none());
    assert!(from_u8_to_entries(b"MIME-Magic\x01\n[50:image/png]\n>0=\x00\x01a\n").is_none());
    assert!(read_magic_from_bytes(b"").is_empty());
    assert!(read_magic_from_bytes(&single_entry()).is_empty());
    // the start alone is a table without entries
    let (entries, rest) = from_u8_to_entries(b"MIME-Magic\x00\n").unwrap();
    assert!(entries.is_empty());
    assert_eq!(rest, 12);
}

#[test]
fn magic_file_stops_at_what_it_cannot_read() {
    let mut data = magic_file();
    let good = data.len();
    data.extend_from_slice(b"[70:broken\n>0=\x00\x01a\n");
    let (entries, rest) = from_u8_to_entries(&data).unwrap();
    assert_eq!(entries.len(), 2);
    assert_eq!(rest, good);
    assert_eq!(read_magic_from_bytes(&data).len(), 2);
}
