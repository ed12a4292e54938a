//! Splitting of text lines into words and fields, and decimal numbers.

use vstd::prelude::*;

verus! {

/// The view of a list of strings: the list of their character sequences.
pub open spec fn strings_view(v: Seq<String>) -> Seq<Seq<char>> {
    v.map_values(|s: String| s@)
}

/// Whether `c` is a white space character (the Unicode property `White_Space`).
pub open spec fn is_space(c: char) -> bool {
    let u = c as u32;
    (0x09 <= u <= 0x0d) || u == 0x20 || u == 0x85 || u == 0xa0 || u == 0x1680 || (0x2000 <= u
        <= 0x200a) || u == 0x2028 || u == 0x2029 || u == 0x202f || u == 0x205f || u == 0x3000
}

/// Tests a character for white space.
pub fn char_is_space(c: char) -> (r: bool)
    ensures
        r == is_space(c),
{
    let u: u32 = c as u32;
    (0x09 <= u && u <= 0x0d) || u == 0x20 || u == 0x85 || u == 0xa0 || u == 0x1680 || (0x2000 <= u
        && u <= 0x200a) || u == 0x2028 || u == 0x2029 || u == 0x202f || u == 0x205f || u == 0x3000
}

/// The maximal runs of characters of `s` that hold no white space, in order.
pub open spec fn words(s: Seq<char>) -> Seq<Seq<char>>
    decreases s.len(),
{
    if s.len() == 0 {
        Seq::empty()
    } else {
        let init = words(s.drop_last());
        if is_space(s.last()) {
            init
        } else if s.len() >= 2 && !is_space(s[s.len() - 2]) {
            init.update(init.len() - 1, init.last().push(s.last()))
        } else {
            init.push(seq![s.last()])
        }
    }
}

/// The pieces of `s` between occurrences of `sep`: one more than `sep` occurs,
/// empty ones included.
pub open spec fn fields(s: Seq<char>, sep: char) -> Seq<Seq<char>>
    decreases s.len(),
{
    if s.len() == 0 {
        seq![Seq::<char>::empty()]
    } else {
        let init = fields(s.drop_last(), sep);
        if s.last() == sep {
            init.push(Seq::empty())
        } else {
            init.update(init.len() - 1, init.last().push(s.last()))
        }
    }
}

/// Copies the characters `from..to` of `s` into a new string.
pub fn copy_range(s: &str, from: usize, to: usize) -> (r: String)
    requires
        from <= to <= s@.len(),
    ensures
        r@ == s@.subrange(from as int, to as int),
{
    s.substring_char(from, to).to_owned()
}

/// Splits `s` at white space into its words.
pub fn split_words(s: &str) -> (out: Vec<String>)
    ensures
        strings_view(out@) == words(s@),
{
    let n = s.unicode_len();
    let mut out: Vec<String> = Vec::new();
    let mut in_word = false;
    let mut start: usize = 0;
    let mut i: usize = 0;
    assert(strings_view(out@) =~= words(s@.subrange(0, 0)));
    while i < n
        invariant
            n == s@.len(),
            start <= i <= n,
            in_word ==> start < i && !is_space(s@[i - 1]) && words(s@.subrange(0, i as int))
                == strings_view(out@).push(s@.subrange(start as int, i as int)),
            !in_word ==> (i == 0 || is_space(s@[i - 1])) && words(s@.subrange(0, i as int))
                == strings_view(out@),
        decreases n - i,
    {
        let c = s.get_char(i);
        let ghost before = s@.subrange(0, i as int);
        let ghost after = s@.subrange(0, i + 1);
        assert(after.drop_last() =~= before);
        assert(after.last() == c);
        if char_is_space(c) {
            if in_word {
                let w = copy_range(s, start, i);
                let ghost old_out = strings_view(out@);
                out.push(w);
                assert(strings_view(out@) =~= old_out.push(s@.subrange(start as int, i as int)));
                in_word = false;
            }
        } else {
            if in_word {
                assert(after[after.len() - 2] == s@[i - 1]);
                assert(s@.subrange(start as int, i as int).push(c) =~= s@.subrange(
                    start as int,
                    i + 1,
                ));
                assert(words(after) =~= strings_view(out@).push(
                    s@.subrange(start as int, i + 1),
                ));
            } else {
                start = i;
                in_word = true;
                assert(i > 0 ==> after[after.len() - 2] == s@[i - 1]);
                assert(seq![c] =~= s@.subrange(i as int, i + 1));
            }
        }
        i += 1;
    }
    assert(s@.subrange(0, n as int) =~= s@);
    if in_word {
        let w = copy_range(s, start, n);
        let ghost old_out = strings_view(out@);
        out.push(w);
        assert(strings_view(out@) =~= old_out.push(s@.subrange(start as int, n as int)));
    }
    out
}

/// Splits `s` at every occurrence of `sep`.
pub fn split_fields(s: &str, sep: char) -> (out: Vec<String>)
    ensures
        strings_view(out@) == fields(s@, sep),
        out@.len() >= 1,
{
    let n = s.unicode_len();
    let mut out: Vec<String> = Vec::new();
    let mut start: usize = 0;
    let mut i: usize = 0;
    assert(s@.subrange(0, 0) =~= Seq::<char>::empty());
    assert(fields(s@.subrange(0, 0), sep) =~= strings_view(out@).push(s@.subrange(0, 0)));
    while i < n
        invariant
            n == s@.len(),
            start <= i <= n,
            fields(s@.subrange(0, i as int), sep) == strings_view(out@).push(
                s@.subrange(start as int, i as int),
            ),
        decreases n - i,
    {
        let c = s.get_char(i);
        let ghost before = s@.subrange(0, i as int);
        let ghost after = s@.subrange(0, i + 1);
        assert(after.drop_last() =~= before);
        assert(after.last() == c);
        if c == sep {
            let w = copy_range(s, start, i);
            let ghost old_out = strings_view(out@);
            out.push(w);
            assert(strings_view(out@) =~= old_out.push(s@.subrange(start as int, i as int)));
            start = i + 1;
            assert(s@.subrange(start as int, i + 1) =~= Seq::<char>::empty());
        } else {
            assert(s@.subrange(start as int, i as int).push(c) =~= s@.subrange(
                start as int,
                i + 1,
            ));
            assert(fields(after, sep) =~= strings_view(out@).push(
                s@.subrange(start as int, i + 1),
            ));
        }
        i += 1;
    }
    assert(s@.subrange(0, n as int) =~= s@);
    let w = copy_range(s, start, n);
    let ghost old_out = strings_view(out@);
    out.push(w);
    assert(strings_view(out@) =~= old_out.push(s@.subrange(start as int, n as int)));
    out
}

/// Whether `suffix` stands at the end of `s`.
pub open spec fn is_suffix(s: Seq<char>, suffix: Seq<char>) -> bool {
    suffix.len() <= s.len() && s.subrange(s.len() - suffix.len(), s.len() as int) == suffix
}

/// Tests whether `s` ends with `suffix`.
pub fn ends_with(s: &str, suffix: &str) -> (r: bool)
    ensures
        r == is_suffix(s@, suffix@),
{
    let n = s.unicode_len();
    let k = suffix.unicode_len();
    if k > n {
        return false;
    }
    let base = n - k;
    let mut j: usize = 0;
    while j < k
        invariant
            n == s@.len(),
            k == suffix@.len(),
            base == n - k,
            j <= k,
            forall|t: int| 0 <= t < j ==> s@[base + t] == suffix@[t],
        decreases k - j,
    {
        if s.get_char(base + j) != suffix.get_char(j) {
            assert(s@.subrange(n - k, n as int)[j as int] != suffix@[j as int]);
            return false;
        }
        j += 1;
    }
    assert(s@.subrange(n - k, n as int) =~= suffix@);
    true
}

/// Tests whether two strings hold the same characters.
pub fn same_text(a: &str, b: &str) -> (r: bool)
    ensures
        r == (a@ == b@),
{
    let n = a.unicode_len();
    if b.unicode_len() != n {
        return false;
    }
    let mut i: usize = 0;
    while i < n
        invariant
            n == a@.len(),
            n == b@.len(),
            i <= n,
            forall|t: int| 0 <= t < i ==> a@[t] == b@[t],
        decreases n - i,
    {
        if a.get_char(i) != b.get_char(i) {
            return false;
        }
        i += 1;
    }
    assert(a@ =~= b@);
    true
}

/// Whether `c` is one of the ASCII digits `0` to `9`.
pub open spec fn is_digit(c: char) -> bool {
    0x30 <= c as u32 <= 0x39
}

/// Whether `s` holds ASCII digits only.
pub open spec fn all_digits(s: Seq<char>) -> bool {
    forall|i: int| 0 <= i < s.len() ==> is_digit(#[trigger] s[i])
}

/// The number that the digits of `s` write in base ten.
pub open spec fn decimal_value(s: Seq<char>) -> nat
    decreases s.len(),
{
    if s.len() == 0 {
        0
    } else {
        decimal_value(s.drop_last()) * 10 + (s.last() as u32 - 0x30) as nat
    }
}

/// The number written by `s` as an optional `+` followed by at least one digit.
pub open spec fn unsigned_decimal(s: Seq<char>) -> Option<nat> {
    let digits = if s.len() > 0 && s[0] == '+' {
        s.subrange(1, s.len() as int)
    } else {
        s
    };
    if digits.len() > 0 && all_digits(digits) {
        Some(decimal_value(digits))
    } else {
        None
    }
}

/// The number written by `s` as an optional sign followed by at least one digit.
pub open spec fn signed_decimal(s: Seq<char>) -> Option<int> {
    if s.len() > 0 && s[0] == '-' {
        let digits = s.subrange(1, s.len() as int);
        if digits.len() > 0 && all_digits(digits) {
            Some(-(decimal_value(digits) as int))
        } else {
            None
        }
    } else {
        match unsigned_decimal(s) {
            Some(v) => Some(v as int),
            None => None,
        }
    }
}

/// What `s` denotes as a `u32`: an optional `+`, then digits whose value fits.
pub open spec fn u32_of(s: Seq<char>) -> Option<u32> {
    match unsigned_decimal(s) {
        Some(v) => if v <= u32::MAX {
            Some(v as u32)
        } else {
            None
        },
        None => None,
    }
}

/// What `s` denotes as an `i32`: an optional sign, then digits whose value fits.
pub open spec fn i32_of(s: Seq<char>) -> Option<i32> {
    match signed_decimal(s) {
        Some(v) => if i32::MIN <= v <= i32::MAX {
            Some(v as i32)
        } else {
            None
        },
        None => None,
    }
}

/// The digits of a prefix never write a larger number than the whole.
pub proof fn lemma_decimal_prefix(d: Seq<char>, k: int)
    requires
        0 <= k <= d.len(),
        all_digits(d),
    ensures
        decimal_value(d.subrange(0, k)) <= decimal_value(d),
    decreases d.len(),
{
    if k < d.len() {
        lemma_decimal_prefix(d.drop_last(), k);
        assert(d.drop_last().subrange(0, k) =~= d.subrange(0, k));
        assert(is_digit(d[d.len() - 1]));
    } else {
        assert(d.subrange(0, k) =~= d);
    }
}

/// Reads the characters of `s` from `from` on as a run of digits.
/// Gives their value where there is at least one, all are digits, and the
/// value is at most `limit`.
fn read_digits(s: &str, from: usize, limit: u64) -> (r: Option<u64>)
    requires
        from <= s@.len(),
        limit <= 0x1_0000_0000,
    ensures
        ({
            let d = s@.subrange(from as int, s@.len() as int);
            match r {
                Some(v) => d.len() > 0 && all_digits(d) && decimal_value(d) == v && v <= limit,
                None => !(d.len() > 0 && all_digits(d) && decimal_value(d) <= limit),
            }
        }),
{
    let n = s.unicode_len();
    if from == n {
        return None;
    }
    let ghost d = s@.subrange(from as int, n as int);
    let mut acc: u64 = 0;
    let mut i: usize = from;
    assert(d.subrange(0, 0) =~= Seq::<char>::empty());
    while i < n
        invariant
            n == s@.len(),
            from <= i <= n,
            limit <= 0x1_0000_0000,
            d == s@.subrange(from as int, n as int),
            all_digits(d.subrange(0, i - from)),
            acc == decimal_value(d.subrange(0, i - from)),
            acc <= limit,
        decreases n - i,
    {
        let c = s.get_char(i);
        let u: u32 = c as u32;
        assert(d[i - from] == c);
        if u < 0x30 || u > 0x39 {
            assert(!is_digit(d[i - from]));
            return None;
        }
        let ghost before = d.subrange(0, i - from);
        let ghost after = d.subrange(0, i - from + 1);
        assert(after.drop_last() =~= before);
        assert(after.last() == c);
        assert(all_digits(after)) by {
            assert forall|t: int| 0 <= t < after.len() implies is_digit(#[trigger] after[t]) by {
                if t < before.len() {
                    assert(after[t] == before[t]);
                }
            }
        }
        let next: u64 = acc * 10 + (u - 0x30) as u64;
        if next > limit {
            proof {
                if all_digits(d) {
                    lemma_decimal_prefix(d, i - from + 1);
                }
            }
            return None;
        }
        acc = next;
        i += 1;
    }
    assert(d.subrange(0, n - from) =~= d);
    Some(acc)
}

/// Reads `s` as a `u32` written in base ten.
pub fn parse_u32(s: &str) -> (r: Option<u32>)
    ensures
        r == u32_of(s@),
{
    let n = s.unicode_len();
    let from: usize = if n > 0 && s.get_char(0) == '+' {
        1
    } else {
        0
    };
    assert(s@.subrange(0, n as int) =~= s@);
    match read_digits(s, from, 0xffff_ffff) {
        Some(v) => Some(v as u32),
        None => None,
    }
}

/// Reads `s` as an `i32` written in base ten.
pub fn parse_i32(s: &str) -> (r: Option<i32>)
    ensures
        r == i32_of(s@),
{
    let n = s.unicode_len();
    assert(s@.subrange(0, n as int) =~= s@);
    if n > 0 && s.get_char(0) == '-' {
        match read_digits(s, 1, 0x8000_0000) {
            Some(v) => {
                let w: i64 = 0 - (v as i64);
                Some(w as i32)
            },
            None => None,
        }
    } else {
        let from: usize = if n > 0 && s.get_char(0) == '+' {
            1
        } else {
            0
        };
        match read_digits(s, from, 0x7fff_ffff) {
            Some(v) => Some(v as i32),
            None => None,
        }
    }
}

/// Whether a line of a table is passed over: an empty line, or a comment
/// that starts with `#`.
pub open spec fn is_skipped(line: Seq<char>) -> bool {
    line.len() == 0 || line[0] == '#'
}

/// The records that `read` makes of `lines`, in order; lines that are passed
/// over and lines of which `read` makes nothing leave no record.
pub open spec fn read_lines<T>(
    lines: Seq<Seq<char>>,
    read: spec_fn(Seq<char>) -> Option<T>,
) -> Seq<T>
    decreases lines.len(),
{
    if lines.len() == 0 {
        Seq::empty()
    } else {
        let init = read_lines(lines.drop_last(), read);
        let line = lines.last();
        if is_skipped(line) {
            init
        } else {
            match read(line) {
                Some(x) => init.push(x),
                None => init,
            }
        }
    }
}

/// Tests whether a line of a table is passed over.
pub fn line_is_skipped(line: &str) -> (r: bool)
    ensures
        r == is_skipped(line@),
{
    line.unicode_len() == 0 || line.get_char(0) == '#'
}

/// `s` with `to` in the place of every `from`.
pub open spec fn replaced(s: Seq<char>, from: char, to: Seq<char>) -> Seq<char>
    decreases s.len(),
{
    if s.len() == 0 {
        Seq::empty()
    } else {
        replaced(s.drop_last(), from, to) + if s.last() == from {
            to
        } else {
            seq![s.last()]
        }
    }
}

/// Copies `s` with `to` in the place of every `from`.
pub fn replace_char(s: &str, from: char, to: &str) -> (r: String)
    ensures
        r@ == replaced(s@, from, to@),
{
    let n = s.unicode_len();
    let mut out = String::new();
    let mut i: usize = 0;
    assert(s@.subrange(0, 0) =~= Seq::<char>::empty());
    while i < n
        invariant
            n == s@.len(),
            i <= n,
            out@ == replaced(s@.subrange(0, i as int), from, to@),
        decreases n - i,
    {
        assert(s@.subrange(0, i + 1).drop_last() =~= s@.subrange(0, i as int));
        assert(s@.subrange(0, i + 1).last() == s@[i as int]);
        if s.get_char(i) == from {
            out.append(to);
        } else {
            out.append(s.substring_char(i, i + 1));
            assert(s@.subrange(i as int, i + 1) =~= seq![s@[i as int]]);
        }
        i += 1;
    }
    assert(s@.subrange(0, n as int) =~= s@);
    out
}

} // verus!
