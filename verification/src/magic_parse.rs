//! The binary format of the magic table.
//!
//! A table starts with the bytes `MIME-Magic\0\n`. Entries follow, each a
//! header `[priority:mime]\n` and one or more rules of the form
//!
//! ```text
//! [indent] ">" offset "=" length value ["&" mask] ["~" word-size] ["+" range] "\n"
//! ```
//!
//! where `length` is two bytes, big endian, and `value` and `mask` have that
//! many bytes each.

use crate::magic::{
    buf_to_u32, entries_view, number_or, rules_view, to_string, EntryView, MagicEntry, MagicRule,
    RuleView,
};
use crate::media_type::{parsed_mime, Mime, MimeView};
use vstd::prelude::*;
use vstd::utf8::{decode_utf8, valid_utf8};

verus! {

/// The position of the first `b` in `s` at or after `from`.
pub open spec fn find_byte(s: Seq<u8>, from: int, b: u8) -> Option<int>
    decreases s.len() - from,
{
    if from < 0 || from >= s.len() {
        None
    } else if s[from] == b {
        Some(from)
    } else {
        find_byte(s, from + 1, b)
    }
}

/// The position of the first `a` directly followed by `b` in `s`, at or
/// after `from`.
pub open spec fn find_pair(s: Seq<u8>, from: int, a: u8, b: u8) -> Option<int>
    decreases s.len() - from,
{
    if from < 0 || from + 1 >= s.len() {
        None
    } else if s[from] == a && s[from + 1] == b {
        Some(from)
    } else {
        find_pair(s, from + 1, a, b)
    }
}

/// Whether `b` is an ASCII digit.
pub open spec fn is_digit_byte(b: u8) -> bool {
    0x30 <= b <= 0x39
}

/// Whether `b` is an ASCII hexadecimal digit.
pub open spec fn is_hex_digit_byte(b: u8) -> bool {
    (0x30 <= b <= 0x39) || (0x41 <= b <= 0x46) || (0x61 <= b <= 0x66)
}

/// The end of the run of hexadecimal digits that starts at `from`.
pub open spec fn hex_run_end(s: Seq<u8>, from: int) -> int
    decreases s.len() - from,
{
    if 0 <= from < s.len() && is_hex_digit_byte(s[from]) {
        hex_run_end(s, from + 1)
    } else {
        from
    }
}

/// A position of the exec parser as a position of the model.
pub open spec fn pos_view(p: Option<usize>) -> Option<int> {
    match p {
        Some(i) => Some(i as int),
        None => None,
    }
}

/// What `find_byte` finds lies at or after `from`, inside `s`, and holds `b`.
pub proof fn lemma_find_byte(s: Seq<u8>, from: int, b: u8)
    ensures
        find_byte(s, from, b) matches Some(i) ==> from <= i < s.len() && s[i] == b,
    decreases s.len() - from,
{
    if 0 <= from < s.len() && s[from] != b {
        lemma_find_byte(s, from + 1, b);
    }
}

/// What `find_pair` finds lies at or after `from`, with both bytes inside `s`.
pub proof fn lemma_find_pair(s: Seq<u8>, from: int, a: u8, b: u8)
    ensures
        find_pair(s, from, a, b) matches Some(i) ==> from <= i && i + 1 < s.len() && s[i] == a
            && s[i + 1] == b,
    decreases s.len() - from,
{
    if 0 <= from && from + 1 < s.len() && !(s[from] == a && s[from + 1] == b) {
        lemma_find_pair(s, from + 1, a, b);
    }
}

/// A run of hexadecimal digits ends at or after its start, inside `s`.
pub proof fn lemma_hex_run_end(s: Seq<u8>, from: int)
    requires
        0 <= from <= s.len(),
    ensures
        from <= hex_run_end(s, from) <= s.len(),
    decreases s.len() - from,
{
    if from < s.len() && is_hex_digit_byte(s[from]) {
        lemma_hex_run_end(s, from + 1);
    }
}

/// Finds the first `b` in `bytes` at or after `from`.
fn find(bytes: &[u8], from: usize, b: u8) -> (r: Option<usize>)
    ensures
        pos_view(r) == find_byte(bytes@, from as int, b),
        r matches Some(i) ==> from <= i < bytes@.len() && bytes@[i as int] == b,
{
    let n = bytes.len();
    let mut i: usize = from;
    while i < n
        invariant
            n == bytes@.len(),
            from <= i,
            find_byte(bytes@, from as int, b) == find_byte(bytes@, i as int, b),
        decreases n - i,
    {
        if bytes[i] == b {
            return Some(i);
        }
        i += 1;
    }
    None
}

/// Finds the first `a` directly followed by `b` in `bytes`, at or after `from`.
fn find_two(bytes: &[u8], from: usize, a: u8, b: u8) -> (r: Option<usize>)
    ensures
        pos_view(r) == find_pair(bytes@, from as int, a, b),
        r matches Some(i) ==> from <= i && i + 1 < bytes@.len(),
{
    let n = bytes.len();
    let mut i: usize = from;
    while i < n && n - i >= 2
        invariant
            n == bytes@.len(),
            from <= i,
            find_pair(bytes@, from as int, a, b) == find_pair(bytes@, i as int, a, b),
        decreases n - i,
    {
        if bytes[i] == a && bytes[i + 1] == b {
            return Some(i);
        }
        i += 1;
    }
    None
}

/// The number that stands from `p` up to the first `stop`, with the position
/// of that `stop`; a text that is no number counts as 0.
pub open spec fn number_until(s: Seq<u8>, p: int, stop: u8) -> Option<(u32, int)> {
    match find_byte(s, p, stop) {
        Some(i) => Some((number_or(s.subrange(p, i), 0), i)),
        None => None,
    }
}

/// The two bytes at `p` read as a big-endian length, with the position after them.
pub open spec fn length_at(s: Seq<u8>, p: int) -> Option<(int, int)> {
    if 0 <= p && p + 2 <= s.len() {
        Some((s[p] as int * 256 + s[p + 1] as int, p + 2))
    } else {
        None
    }
}

/// The `n` bytes at `p`, with the position after them.
pub open spec fn bytes_at(s: Seq<u8>, p: int, n: int) -> Option<(Seq<u8>, int)> {
    if 0 <= p && 0 <= n && p + n <= s.len() {
        Some((s.subrange(p, p + n), p + n))
    } else {
        None
    }
}

/// An optional mask at `p`: `&` and `n` bytes. Where it is absent or cut
/// short, nothing is read.
pub open spec fn mask_at(s: Seq<u8>, p: int, n: int) -> (Option<Seq<u8>>, int) {
    if 0 <= p < s.len() && 0 <= n && s[p] == 0x26 && p + 1 + n <= s.len() {
        (Some(s.subrange(p + 1, p + 1 + n)), p + 1 + n)
    } else {
        (None, p)
    }
}

/// An optional word size at `p`: `~` and one of the digits 0, 1, 2 and 4.
pub open spec fn word_size_at(s: Seq<u8>, p: int) -> (Option<u32>, int) {
    if 0 <= p && p + 1 < s.len() && s[p] == 0x7e && (s[p + 1] == 0x30 || s[p + 1] == 0x31 || s[p
        + 1] == 0x32 || s[p + 1] == 0x34) {
        (Some((s[p + 1] - 0x30) as u32), p + 2)
    } else {
        (None, p)
    }
}

/// An optional range length at `p`: `+` and a run of hexadecimal digits, read
/// as a number in base ten; a run that is no such number counts as 1.
pub open spec fn range_length_at(s: Seq<u8>, p: int) -> (Option<u32>, int) {
    if 0 <= p < s.len() && s[p] == 0x2b {
        let end = hex_run_end(s, p + 1);
        (Some(number_or(s.subrange(p + 1, end), 1)), end)
    } else {
        (None, p)
    }
}

/// The position after the line ending at `p`, either `\n` or `\r\n`.
pub open spec fn line_end_at(s: Seq<u8>, p: int) -> Option<int> {
    if 0 <= p < s.len() && s[p] == 0x0a {
        Some(p + 1)
    } else if 0 <= p && p + 1 < s.len() && s[p] == 0x0d && s[p + 1] == 0x0a {
        Some(p + 2)
    } else {
        None
    }
}

/// The value of an optional number, or `default` where it is absent.
pub open spec fn or_default(v: Option<u32>, default: u32) -> u32 {
    match v {
        Some(x) => x,
        None => default,
    }
}

/// The rule written at `p`, with the position after it.
#[verifier::opaque]
pub open spec fn rule_at(s: Seq<u8>, p: int) -> Option<(RuleView, int)> {
    if !(0 <= p < s.len() && (is_digit_byte(s[p]) || s[p] == 0x3e)) {
        None
    } else {
        match number_until(s, p, 0x3e) {
            None => None,
            Some((indent, gt)) => match number_until(s, gt + 1, 0x3d) {
                None => None,
                Some((start_offset, eq)) => match length_at(s, eq + 1) {
                    None => None,
                    Some((n, v0)) => match bytes_at(s, v0, n) {
                        None => None,
                        Some((value, after_value)) => {
                            let (mask, after_mask) = mask_at(s, after_value, n);
                            let (word_size, after_word) = word_size_at(s, after_mask);
                            let (range_length, after_range) = range_length_at(s, after_word);
                            match line_end_at(s, after_range) {
                                None => None,
                                Some(next) => Some(
                                    (
                                        RuleView {
                                            indent,
                                            start_offset,
                                            value,
                                            mask,
                                            word_size: or_default(word_size, 1),
                                            range_length: or_default(range_length, 1),
                                        },
                                        next,
                                    ),
                                ),
                            }
                        },
                    },
                },
            },
        }
    }
}

/// A rule takes at least one byte, stays inside the input, and is well formed.
pub proof fn lemma_rule_at(s: Seq<u8>, p: int)
    ensures
        rule_at(s, p) matches Some((rule, next)) ==> p < next <= s.len() && rule.well_formed(),
{
    reveal(rule_at);
    if 0 <= p < s.len() {
        lemma_find_byte(s, p, 0x3e);
        if let Some((indent, gt)) = number_until(s, p, 0x3e) {
            lemma_find_byte(s, gt + 1, 0x3d);
            if let Some((start_offset, eq)) = number_until(s, gt + 1, 0x3d) {
                if let Some((n, v0)) = length_at(s, eq + 1) {
                    if let Some((value, after_value)) = bytes_at(s, v0, n) {
                        let (mask, after_mask) = mask_at(s, after_value, n);
                        let (word_size, after_word) = word_size_at(s, after_mask);
                        if 0 <= after_word < s.len() {
                            lemma_hex_run_end(s, after_word + 1);
                        }
                    }
                }
            }
        }
    }
}

/// Reads a number that ends before the first `stop`; gives it with the
/// position of that `stop`.
fn number_before(bytes: &[u8], pos: usize, stop: u8) -> (r: Option<(u32, usize)>)
    requires
        pos <= bytes@.len(),
    ensures
        match r {
            Some((v, i)) => number_until(bytes@, pos as int, stop) == Some((v, i as int)) && pos
                <= i < bytes@.len(),
            None => number_until(bytes@, pos as int, stop) is None,
        },
{
    match find(bytes, pos, stop) {
        Some(i) => Some((buf_to_u32(&bytes[pos..i], 0), i)),
        None => None,
    }
}

/// Indentation level, can be 0: the number before `>`.
fn indent_level(bytes: &[u8], pos: usize) -> (r: Option<(u32, usize)>)
    requires
        pos <= bytes@.len(),
    ensures
        match r {
            Some((v, i)) => number_until(bytes@, pos as int, 0x3e) == Some((v, i as int)) && pos
                <= i < bytes@.len(),
            None => number_until(bytes@, pos as int, 0x3e) is None,
        },
{
    number_before(bytes, pos, 0x3e)
}

/// Offset, can be 0: the number before `=`.
fn start_offset(bytes: &[u8], pos: usize) -> (r: Option<(u32, usize)>)
    requires
        pos <= bytes@.len(),
    ensures
        match r {
            Some((v, i)) => number_until(bytes@, pos as int, 0x3d) == Some((v, i as int)) && pos
                <= i < bytes@.len(),
            None => number_until(bytes@, pos as int, 0x3d) is None,
        },
{
    number_before(bytes, pos, 0x3d)
}

/// Copies `bytes[from..to]`.
fn copy_bytes(bytes: &[u8], from: usize, to: usize) -> (r: Vec<u8>)
    requires
        from <= to <= bytes@.len(),
    ensures
        r@ == bytes@.subrange(from as int, to as int),
{
    let mut out: Vec<u8> = Vec::new();
    let mut i: usize = from;
    while i < to
        invariant
            from <= i <= to <= bytes@.len(),
            out@ == bytes@.subrange(from as int, i as int),
        decreases to - i,
    {
        out.push(bytes[i]);
        assert(out@ =~= bytes@.subrange(from as int, i + 1));
        i += 1;
    }
    out
}

/// The value: `length` bytes.
fn value(bytes: &[u8], pos: usize, length: u16) -> (r: Option<(Vec<u8>, usize)>)
    requires
        pos <= bytes@.len(),
    ensures
        match r {
            Some((v, next)) => bytes_at(bytes@, pos as int, length as int) == Some(
                (v@, next as int),
            ),
            None => bytes_at(bytes@, pos as int, length as int) is None,
        },
{
    if bytes.len() - pos < length as usize {
        return None;
    }
    let end = pos + length as usize;
    Some((copy_bytes(bytes, pos, end), end))
}

/// The mask, if there is one: `&` and `length` bytes.
fn mask(bytes: &[u8], pos: usize, length: u16) -> (r: (Option<Vec<u8>>, usize))
    requires
        pos <= bytes@.len(),
    ensures
        ({
            let m = mask_at(bytes@, pos as int, length as int);
            &&& r.1 == m.1
            &&& match r.0 {
                Some(v) => m.0 == Some(v@),
                None => m.0 is None,
            }
        }),
{
    if pos < bytes.len() && bytes[pos] == 0x26 && bytes.len() - pos - 1 >= length as usize {
        let end = pos + 1 + length as usize;
        (Some(copy_bytes(bytes, pos + 1, end)), end)
    } else {
        (None, pos)
    }
}

/// The word size, if there is one: `~` and one of 0, 1, 2 and 4.
fn word_size(bytes: &[u8], pos: usize) -> (r: (Option<u32>, usize))
    requires
        pos <= bytes@.len(),
    ensures
        r.0 == word_size_at(bytes@, pos as int).0,
        r.1 == word_size_at(bytes@, pos as int).1,
{
    if pos < bytes.len() && bytes.len() - pos >= 2 && bytes[pos] == 0x7e {
        let d = bytes[pos + 1];
        if d == 0x30 || d == 0x31 || d == 0x32 || d == 0x34 {
            return (Some((d - 0x30) as u32), pos + 2);
        }
    }
    (None, pos)
}

/// The range length, if there is one: `+` and a number.
fn range_length(bytes: &[u8], pos: usize) -> (r: (Option<u32>, usize))
    requires
        pos <= bytes@.len(),
    ensures
        r.0 == range_length_at(bytes@, pos as int).0,
        r.1 == range_length_at(bytes@, pos as int).1,
        pos <= r.1 <= bytes@.len(),
{
    let n = bytes.len();
    if pos < n && bytes[pos] == 0x2b {
        let mut end: usize = pos + 1;
        while end < n && ((0x30 <= bytes[end] && bytes[end] <= 0x39) || (0x41 <= bytes[end]
            && bytes[end] <= 0x46) || (0x61 <= bytes[end] && bytes[end] <= 0x66))
            invariant
                n == bytes@.len(),
                pos + 1 <= end <= n,
                hex_run_end(bytes@, pos + 1) == hex_run_end(bytes@, end as int),
            decreases n - end,
        {
            end += 1;
        }
        (Some(buf_to_u32(&bytes[pos + 1..end], 1)), end)
    } else {
        (None, pos)
    }
}

/// The line ending: `\n` or `\r\n`.
fn line_ending(bytes: &[u8], pos: usize) -> (r: Option<usize>)
    requires
        pos <= bytes@.len(),
    ensures
        pos_view(r) == line_end_at(bytes@, pos as int),
{
    let n = bytes.len();
    if pos < n && bytes[pos] == 0x0a {
        Some(pos + 1)
    } else if pos < n && n - pos >= 2 && bytes[pos] == 0x0d && bytes[pos + 1] == 0x0a {
        Some(pos + 2)
    } else {
        None
    }
}

/// Reads the rule written at `pos`; gives it with the position after it.
pub fn magic_rule(bytes: &[u8], pos: usize) -> (r: Option<(MagicRule, usize)>)
    ensures
        match r {
            Some((rule, next)) => rule_at(bytes@, pos as int) == Some((rule@, next as int)),
            None => rule_at(bytes@, pos as int) is None,
        },
{
    reveal(rule_at);
    let n = bytes.len();
    if pos >= n || !((0x30 <= bytes[pos] && bytes[pos] <= 0x39) || bytes[pos] == 0x3e) {
        return None;
    }
    let (indent, gt) = match indent_level(bytes, pos) {
        Some(v) => v,
        None => { return None; },
    };
    let (offset, eq) = match start_offset(bytes, gt + 1) {
        Some(v) => v,
        None => { return None; },
    };
    if n - eq < 3 {
        return None;
    }
    let length: u16 = (bytes[eq + 1] as u16) * 256 + bytes[eq + 2] as u16;
    let (val, after_value) = match value(bytes, eq + 3, length) {
        Some(v) => v,
        None => { return None; },
    };
    let (msk, after_mask) = mask(bytes, after_value, length);
    let (ws, after_word) = word_size(bytes, after_mask);
    let (rl, after_range) = range_length(bytes, after_word);
    let next = match line_ending(bytes, after_range) {
        Some(v) => v,
        None => { return None; },
    };
    let ws = match ws {
        Some(v) => v,
        None => 1,
    };
    let rl = match rl {
        Some(v) => v,
        None => 1,
    };
    Some((MagicRule::new(indent, offset, val, msk, ws, rl), next))
}

/// The MIME type that the bytes `b` name, where they are text that names one.
pub open spec fn mime_of_bytes(b: Seq<u8>) -> Option<MimeView> {
    if valid_utf8(b) {
        parsed_mime(decode_utf8(b))
    } else {
        None
    }
}

/// The header `[priority:mime]\n` written at `p`, with the position after it.
/// A priority that is no number counts as 0.
pub open spec fn header_at(s: Seq<u8>, p: int) -> Option<((u32, MimeView), int)> {
    if !(0 <= p < s.len() && s[p] == 0x5b) {
        None
    } else {
        match number_until(s, p + 1, 0x3a) {
            None => None,
            Some((priority, colon)) => match find_pair(s, colon + 1, 0x5d, 0x0a) {
                None => None,
                Some(close) => match mime_of_bytes(s.subrange(colon + 1, close)) {
                    None => None,
                    Some(mime) => Some(((priority, mime), close + 2)),
                },
            },
        }
    }
}

/// The rules written one after another from `p` on, up to the first place
/// where no rule can be read, with that place.
pub open spec fn rules_at(s: Seq<u8>, p: int) -> (Seq<RuleView>, int)
    decreases s.len() - p,
{
    match rule_at(s, p) {
        Some((rule, next)) => {
            proof {
                lemma_rule_at(s, p);
            }
            let rest = rules_at(s, next);
            (seq![rule] + rest.0, rest.1)
        },
        None => (Seq::empty(), p),
    }
}

/// The entry written at `p`: a header and at least one rule, with the
/// position after it.
#[verifier::opaque]
pub open spec fn entry_at(s: Seq<u8>, p: int) -> Option<(EntryView, int)> {
    match header_at(s, p) {
        None => None,
        Some(((priority, mime), q)) => {
            let (rules, next) = rules_at(s, q);
            if rules.len() == 0 {
                None
            } else {
                Some((EntryView { mime, priority, rules }, next))
            }
        },
    }
}

/// The rules read from `p` on end at or after `p`, inside the input.
pub proof fn lemma_rules_at(s: Seq<u8>, p: int)
    requires
        0 <= p <= s.len(),
    ensures
        p <= rules_at(s, p).1 <= s.len(),
        rules_at(s, p).0.len() > 0 ==> p < rules_at(s, p).1,
    decreases s.len() - p,
{
    lemma_rule_at(s, p);
    if let Some((rule, next)) = rule_at(s, p) {
        lemma_rules_at(s, next);
    }
}

/// An entry takes at least one byte and stays inside the input.
pub proof fn lemma_entry_at(s: Seq<u8>, p: int)
    ensures
        entry_at(s, p) matches Some((entry, next)) ==> p < next <= s.len(),
{
    reveal(entry_at);
    if 0 <= p < s.len() {
        lemma_find_byte(s, p + 1, 0x3a);
        if let Some((priority, colon)) = number_until(s, p + 1, 0x3a) {
            lemma_find_pair(s, colon + 1, 0x5d, 0x0a);
            if let Some(close) = find_pair(s, colon + 1, 0x5d, 0x0a) {
                lemma_rules_at(s, close + 2);
            }
        }
    }
}

/// The entries written one after another from `p` on, up to the first place
/// where no entry can be read, with that place.
pub open spec fn entries_at(s: Seq<u8>, p: int) -> (Seq<EntryView>, int)
    decreases s.len() - p,
{
    match entry_at(s, p) {
        Some((entry, next)) => {
            proof {
                lemma_entry_at(s, p);
            }
            let rest = entries_at(s, next);
            (seq![entry] + rest.0, rest.1)
        },
        None => (Seq::empty(), p),
    }
}

/// The twelve bytes `MIME-Magic\0\n` that a magic table starts with.
pub open spec fn table_start() -> Seq<u8> {
    seq![0x4du8, 0x49, 0x4d, 0x45, 0x2d, 0x4d, 0x61, 0x67, 0x69, 0x63, 0x00, 0x0a]
}

/// The entries of the table `s`, with the position where reading stopped;
/// `None` where `s` does not start as a table does.
pub open spec fn table_of(s: Seq<u8>) -> Option<(Seq<EntryView>, int)> {
    if s.len() >= 12 && s.subrange(0, 12) == table_start() {
        Some(entries_at(s, 12))
    } else {
        None
    }
}

/// The entries of the table `s`; none where `s` does not start as a table does.
pub open spec fn magic_entries_of(s: Seq<u8>) -> Seq<EntryView> {
    match table_of(s) {
        Some((entries, _)) => entries,
        None => Seq::empty(),
    }
}

/// Reads the priority of a header: the number before `:`.
fn priority(bytes: &[u8], pos: usize) -> (r: Option<(u32, usize)>)
    requires
        pos <= bytes@.len(),
    ensures
        match r {
            Some((v, i)) => number_until(bytes@, pos as int, 0x3a) == Some((v, i as int)) && pos
                <= i < bytes@.len(),
            None => number_until(bytes@, pos as int, 0x3a) is None,
        },
{
    number_before(bytes, pos, 0x3a)
}

/// Reads the MIME type of a header: the text before `]\n`. Gives it with the
/// position of the `]`.
fn mime_type(bytes: &[u8], pos: usize) -> (r: Option<(Mime, usize)>)
    requires
        pos <= bytes@.len(),
    ensures
        match r {
            Some((m, close)) => find_pair(bytes@, pos as int, 0x5d, 0x0a) == Some(close as int)
                && mime_of_bytes(bytes@.subrange(pos as int, close as int)) == Some(m@) && close
                + 1 < bytes@.len(),
            None => match find_pair(bytes@, pos as int, 0x5d, 0x0a) {
                Some(close) => mime_of_bytes(bytes@.subrange(pos as int, close)) is None,
                None => true,
            },
        },
{
    let close = match find_two(bytes, pos, 0x5d, 0x0a) {
        Some(i) => i,
        None => { return None; },
    };
    match to_string(&bytes[pos..close]) {
        Ok(text) => match Mime::parse(text) {
            Some(m) => Some((m, close)),
            None => None,
        },
        Err(_) => None,
    }
}

/// Reads the header `[priority:mime]\n` written at `pos`; gives the priority
/// and the MIME type with the position after the header.
pub fn magic_header(bytes: &[u8], pos: usize) -> (r: Option<((u32, Mime), usize)>)
    ensures
        match r {
            Some(((p, m), next)) => header_at(bytes@, pos as int) == Some(
                ((p, m@), next as int),
            ),
            None => header_at(bytes@, pos as int) is None,
        },
{
    if pos >= bytes.len() || bytes[pos] != 0x5b {
        return None;
    }
    let (prio, colon) = match priority(bytes, pos + 1) {
        Some(v) => v,
        None => { return None; },
    };
    match mime_type(bytes, colon + 1) {
        Some((m, close)) => Some(((prio, m), close + 2)),
        None => None,
    }
}

/// Reads the rules written one after another from `pos` on.
fn magic_rules(bytes: &[u8], pos: usize) -> (r: (Vec<MagicRule>, usize))
    requires
        pos <= bytes@.len(),
    ensures
        rules_view(r.0@) == rules_at(bytes@, pos as int).0,
        r.1 == rules_at(bytes@, pos as int).1,
        pos <= r.1 <= bytes@.len(),
{
    let mut rules: Vec<MagicRule> = Vec::new();
    let mut cur: usize = pos;
    assert(rules_view(rules@) + rules_at(bytes@, cur as int).0 =~= rules_at(bytes@, pos as int).0);
    loop
        invariant
            pos <= cur <= bytes@.len(),
            rules_view(rules@) + rules_at(bytes@, cur as int).0 == rules_at(bytes@, pos as int).0,
            rules_at(bytes@, cur as int).1 == rules_at(bytes@, pos as int).1,
        decreases bytes@.len() - cur,
    {
        proof {
            lemma_rule_at(bytes@, cur as int);
        }
        match magic_rule(bytes, cur) {
            Some((rule, next)) => {
                let ghost before = rules_view(rules@);
                let ghost view = rule@;
                rules.push(rule);
                assert(rules_view(rules@) =~= before.push(view));
                assert(before.push(view) + rules_at(bytes@, next as int).0 =~= before + (seq![
                    view,
                ] + rules_at(bytes@, next as int).0));
                cur = next;
            },
            None => {
                assert(rules_view(rules@) + Seq::<RuleView>::empty() =~= rules_view(rules@));
                return (rules, cur);
            },
        }
    }
}

/// Reads the entry written at `pos`: a header and at least one rule. Gives
/// it with the position after it.
pub fn magic_entry(bytes: &[u8], pos: usize) -> (r: Option<(MagicEntry, usize)>)
    ensures
        match r {
            Some((entry, next)) => entry_at(bytes@, pos as int) == Some((entry@, next as int)),
            None => entry_at(bytes@, pos as int) is None,
        },
{
    reveal(entry_at);
    let ((prio, mime), after_header) = match magic_header(bytes, pos) {
        Some(v) => v,
        None => { return None; },
    };
    proof {
        lemma_find_byte(bytes@, pos + 1, 0x3a);
        if let Some((p, colon)) = number_until(bytes@, pos + 1, 0x3a) {
            lemma_find_pair(bytes@, colon + 1, 0x5d, 0x0a);
        }
    }
    let (rules, next) = magic_rules(bytes, after_header);
    if rules.len() == 0 {
        return None;
    }
    Some((MagicEntry::new(mime, prio, rules), next))
}

/// Reads a magic table: the bytes `MIME-Magic\0\n` and then entries, as many
/// as can be read. Gives the entries with the position where reading
/// stopped; `None` where the table does not start with those bytes.
pub fn from_u8_to_entries(bytes: &[u8]) -> (r: Option<(Vec<MagicEntry>, usize)>)
    ensures
        match r {
            Some((entries, rest)) => table_of(bytes@) == Some(
                (entries_view(entries@), rest as int),
            ),
            None => table_of(bytes@) is None,
        },
{
    if bytes.len() < 12 {
        return None;
    }
    if !(bytes[0] == 0x4d && bytes[1] == 0x49 && bytes[2] == 0x4d && bytes[3] == 0x45 && bytes[4]
        == 0x2d && bytes[5] == 0x4d && bytes[6] == 0x61 && bytes[7] == 0x67 && bytes[8] == 0x69
        && bytes[9] == 0x63 && bytes[10] == 0x00 && bytes[11] == 0x0a) {
        assert(bytes@.subrange(0, 12) != table_start()) by {
            let w = bytes@.subrange(0, 12);
            let t = table_start();
            assert(w[0] == bytes@[0] && w[1] == bytes@[1] && w[2] == bytes@[2] && w[3] == bytes@[3]
                && w[4] == bytes@[4] && w[5] == bytes@[5] && w[6] == bytes@[6] && w[7]
                == bytes@[7] && w[8] == bytes@[8] && w[9] == bytes@[9] && w[10] == bytes@[10]
                && w[11] == bytes@[11]);
            assert(t[0] == 0x4d && t[1] == 0x49 && t[2] == 0x4d && t[3] == 0x45 && t[4] == 0x2d
                && t[5] == 0x4d && t[6] == 0x61 && t[7] == 0x67 && t[8] == 0x69 && t[9] == 0x63
                && t[10] == 0x00 && t[11] == 0x0a);
        }
        return None;
    }
    assert(bytes@.subrange(0, 12) =~= table_start());
    let mut entries: Vec<MagicEntry> = Vec::new();
    let mut cur: usize = 12;
    assert(entries_view(entries@) + entries_at(bytes@, cur as int).0 =~= entries_at(bytes@, 12).0);
    loop
        invariant
            12 <= cur <= bytes@.len(),
            bytes@.subrange(0, 12) == table_start(),
            entries_view(entries@) + entries_at(bytes@, cur as int).0 == entries_at(bytes@, 12).0,
            entries_at(bytes@, cur as int).1 == entries_at(bytes@, 12).1,
        decreases bytes@.len() - cur,
    {
        proof {
            lemma_entry_at(bytes@, cur as int);
        }
        match magic_entry(bytes, cur) {
            Some((entry, next)) => {
                let ghost before = entries_view(entries@);
                let ghost view = entry@;
                entries.push(entry);
                assert(entries_view(entries@) =~= before.push(view));
                assert(before.push(view) + entries_at(bytes@, next as int).0 =~= before + (seq![
                    view,
                ] + entries_at(bytes@, next as int).0));
                cur = next;
            },
            None => {
                assert(entries_view(entries@) + Seq::<EntryView>::empty() =~= entries_view(
                    entries@,
                ));
                return Some((entries, cur));
            },
        }
    }
}

/// Reads the entries of a magic table; none where the bytes are no table.
pub fn read_magic_from_bytes(bytes: &[u8]) -> (r: Vec<MagicEntry>)
    ensures
        entries_view(r@) == magic_entries_of(bytes@),
{
    match from_u8_to_entries(bytes) {
        Some((entries, _)) => entries,
        None => Vec::new(),
    }
}

} // verus!
