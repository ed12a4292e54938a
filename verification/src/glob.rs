//! File name patterns: which names belong to which MIME types.

use crate::media_type::{mimes_view, parsed_mime, Mime, MimeView};
use crate::text::{
    ends_with, fields, i32_of, is_suffix, line_is_skipped, parse_i32, read_lines, same_text,
    split_fields, strings_view,
};
use vstd::prelude::*;
use vstd::std_specs::cmp::PartialEqSpecImpl;
use vstd::utf8::is_ascii_chars;

verus! {

/// What a pattern is, by its text.
pub enum GlobTypeView {
    /// A whole file name, to be matched without regard to case.
    Literal(Seq<char>),
    /// The end of a file name: the text that stood after a leading `*`.
    Simple(Seq<char>),
    /// Any other pattern, kept as its text.
    Full(Seq<char>),
}

/// The kind of a pattern: a whole file name, the end of one, or a pattern
/// with wildcards, character classes or escapes.
#[derive(Debug)]
pub enum GlobType {
    Literal(String),
    Simple(String),
    Full(String),
}

impl View for GlobType {
    type V = GlobTypeView;

    open spec fn view(&self) -> GlobTypeView {
        match self {
            GlobType::Literal(s) => GlobTypeView::Literal(s@),
            GlobType::Simple(s) => GlobTypeView::Simple(s@),
            GlobType::Full(s) => GlobTypeView::Full(s@),
        }
    }
}

impl Clone for GlobType {
    fn clone(&self) -> (r: Self)
        ensures
            r@ == self@,
    {
        match self {
            GlobType::Literal(s) => GlobType::Literal(s.clone()),
            GlobType::Simple(s) => GlobType::Simple(s.clone()),
            GlobType::Full(s) => GlobType::Full(s.clone()),
        }
    }
}

impl PartialEq for GlobType {
    fn eq(&self, other: &GlobType) -> (r: bool) {
        match self {
            GlobType::Literal(a) => match other {
                GlobType::Literal(b) => *a == *b,
                _ => false,
            },
            GlobType::Simple(a) => match other {
                GlobType::Simple(b) => *a == *b,
                _ => false,
            },
            GlobType::Full(a) => match other {
                GlobType::Full(b) => *a == *b,
                _ => false,
            },
        }
    }
}

impl PartialEqSpecImpl for GlobType {
    open spec fn obeys_eq_spec() -> bool {
        true
    }

    open spec fn eq_spec(&self, other: &GlobType) -> bool {
        self@ == other@
    }
}

/// Whether the character of `s` at `i` makes `s` a full pattern: a backslash,
/// `[` or `?` anywhere, or a `*` that is not the first character.
pub open spec fn is_meta_at(s: Seq<char>, i: int) -> bool {
    s[i] == '\\' || s[i] == '[' || s[i] == '?' || (s[i] == '*' && i > 0)
}

/// Whether `s` holds a character that makes it a full pattern.
pub open spec fn has_meta(s: Seq<char>) -> bool {
    exists|i: int| 0 <= i < s.len() && is_meta_at(s, i)
}

/// The kind of the pattern `s`.
pub open spec fn glob_type_of(s: Seq<char>) -> GlobTypeView {
    if has_meta(s) {
        GlobTypeView::Full(s)
    } else if s.len() > 0 && s[0] == '*' {
        GlobTypeView::Simple(s.subrange(1, s.len() as int))
    } else {
        GlobTypeView::Literal(s)
    }
}

/// Whether the `glob` crate takes the text `pattern` for a pattern.
pub uninterp spec fn glob_valid(pattern: Seq<char>) -> bool;

/// Whether `s` opens a character class with `[` and holds no `]` to close it.
pub open spec fn unclosed_class(s: Seq<char>) -> bool {
    s.contains('[') && !s.contains(']')
}

/// Whether `s` is a pattern of the `glob` crate. A text that opens a
/// character class and never closes one is none; of others the crate decides.
pub open spec fn is_full_pattern(s: Seq<char>) -> bool {
    !unclosed_class(s) && glob_valid(s)
}

/// Whether `s` can stand in a record: it is a whole file name or the end of
/// one, or it is a pattern of the `glob` crate.
pub open spec fn is_glob(s: Seq<char>) -> bool {
    has_meta(s) ==> is_full_pattern(s)
}

/// Whether a pattern of the kind `kind` can be compared with file names: a
/// full pattern is one of the `glob` crate.
pub open spec fn kind_is_sound(kind: GlobTypeView) -> bool {
    kind matches GlobTypeView::Full(p) ==> is_full_pattern(p)
}

/// Asks `glob::Pattern::new` whether it takes `pattern`. The contract names
/// the answer `glob_valid(pattern@)`, and says of it what the crate says of
/// character classes: an unclosed bracket is invalid.
#[verifier::external_body]
fn is_pattern(pattern: &str) -> (r: bool)
    ensures
        r == glob_valid(pattern@),
        unclosed_class(pattern@) ==> !r,
{
    ::glob::Pattern::new(pattern).is_ok()
}

/// Tests whether `glob` holds a character that makes it a full pattern.
pub fn has_meta_character(glob: &str) -> (r: bool)
    ensures
        r == has_meta(glob@),
{
    let n = glob.unicode_len();
    let mut i: usize = 0;
    while i < n
        invariant
            n == glob@.len(),
            i <= n,
            forall|j: int| 0 <= j < i ==> !is_meta_at(glob@, j),
        decreases n - i,
    {
        let ch = glob.get_char(i);
        if ch == '\\' || ch == '[' || ch == '?' || (ch == '*' && i > 0) {
            assert(is_meta_at(glob@, i as int));
            return true;
        }
        i += 1;
    }
    false
}

/// Tests whether `glob` can stand in a record.
pub fn is_glob_text(glob: &str) -> (r: bool)
    ensures
        r == is_glob(glob@),
{
    !has_meta_character(glob) || is_pattern(glob)
}

/// Finds the kind of `glob`, where it can stand in a record; `None` where it
/// holds a character of a full pattern and is no pattern.
pub fn checked_type(glob: &str) -> (r: Option<GlobType>)
    ensures
        match r {
            Some(t) => t@ == glob_type_of(glob@) && is_glob(glob@),
            None => !is_glob(glob@),
        },
{
    if is_glob_text(glob) {
        Some(determine_type(glob))
    } else {
        None
    }
}

/// Finds the kind of the pattern `glob`.
pub fn determine_type(glob: &str) -> (r: GlobType)
    requires
        is_glob(glob@),
    ensures
        r@ == glob_type_of(glob@),
        kind_is_sound(r@),
{
    let n = glob.unicode_len();
    let mut maybe_simple = false;
    let mut i: usize = 0;
    while i < n
        invariant
            n == glob@.len(),
            i <= n,
            is_glob(glob@),
            forall|j: int| 0 <= j < i ==> !is_meta_at(glob@, j),
            maybe_simple == (i > 0 && glob@[0] == '*'),
        decreases n - i,
    {
        let ch = glob.get_char(i);
        if i == 0 && ch == '*' {
            maybe_simple = true;
        } else if ch == '\\' || ch == '[' || ch == '*' || ch == '?' {
            assert(is_meta_at(glob@, i as int));
            return GlobType::Full(glob.to_owned());
        }
        i += 1;
    }
    if maybe_simple {
        GlobType::Simple(crate::text::copy_range(glob, 1, n))
    } else {
        GlobType::Literal(glob.to_owned())
    }
}

/// `c` with an upper case ASCII letter turned into its lower case.
pub open spec fn ascii_fold(c: char) -> char {
    if 0x41 <= c as u32 <= 0x5a {
        ((c as u32 + 0x20) as u32) as char
    } else {
        c
    }
}

/// Whether `a` and `b` are the same but for the case of ASCII letters.
pub open spec fn ascii_caseless_eq(a: Seq<char>, b: Seq<char>) -> bool {
    a.len() == b.len() && forall|i: int|
        0 <= i < a.len() ==> ascii_fold(#[trigger] a[i]) == ascii_fold(b[i])
}

/// `s` with every upper case ASCII letter turned into its lower case.
pub open spec fn ascii_lower(s: Seq<char>) -> Seq<char> {
    s.map_values(|c: char| ascii_fold(c))
}

/// Whether the `unicase` crate holds `a` and `b` to be the same text but for
/// their case.
pub uninterp spec fn unicase_eq(a: Seq<char>, b: Seq<char>) -> bool;

/// The lower case of `s`, as `str::to_lowercase` makes it.
pub uninterp spec fn lowercase_of(s: Seq<char>) -> Seq<char>;

/// Whether the pattern of the `glob` crate that the text `pattern` writes
/// matches the whole of `name`, with that crate's default options.
pub uninterp spec fn glob_match(pattern: Seq<char>, name: Seq<char>) -> bool;

/// Whether `a` and `b` are the same text but for their case. Of two ASCII
/// texts this is said letter by letter; of others the `unicase` crate decides.
pub open spec fn caseless(a: Seq<char>, b: Seq<char>) -> bool {
    if is_ascii_chars(a) && is_ascii_chars(b) {
        ascii_caseless_eq(a, b)
    } else {
        unicase_eq(a, b)
    }
}

/// The lower case of `s`. Of an ASCII text this is said letter by letter; of
/// others `str::to_lowercase` decides.
pub open spec fn lowered(s: Seq<char>) -> Seq<char> {
    if is_ascii_chars(s) {
        ascii_lower(s)
    } else {
        lowercase_of(s)
    }
}

/// Compares `unicase::UniCase::new(a)` with `unicase::UniCase::new(b)`.
/// The contract names the outcome `unicase_eq(a@, b@)`, and says of it what
/// the crate does where both texts are ASCII: it compares them with
/// `str::eq_ignore_ascii_case`.
#[verifier::external_body]
fn caseless_eq(a: &str, b: &str) -> (r: bool)
    ensures
        r == unicase_eq(a@, b@),
        is_ascii_chars(a@) && is_ascii_chars(b@) ==> r == ascii_caseless_eq(a@, b@),
{
    ::unicase::UniCase::new(a) == ::unicase::UniCase::new(b)
}

/// Calls `str::to_lowercase`. The contract names the outcome
/// `lowercase_of(s@)`, and says of it what the standard library promises of
/// ASCII characters: the letters `A` to `Z` become `a` to `z`, and no other
/// ASCII character has a lower case of its own.
#[verifier::external_body]
fn lowercase(s: &str) -> (r: String)
    ensures
        r@ == lowercase_of(s@),
        is_ascii_chars(s@) ==> r@ == ascii_lower(s@),
{
    s.to_lowercase()
}

/// Compiles `pattern` with `glob::Pattern::new` and asks `Pattern::matches`
/// whether it matches `name`. The text must be one that `Pattern::new`
/// takes. The contract names the outcome `glob_match(pattern@, name@)`.
#[verifier::external_body]
fn pattern_matches(pattern: &str, name: &str) -> (r: bool)
    requires
        glob_valid(pattern@),
    ensures
        r == glob_match(pattern@, name@),
{
    match ::glob::Pattern::new(pattern) {
        Ok(p) => p.matches(name),
        Err(_) => false,
    }
}

/// What a pattern record says.
pub struct GlobView {
    pub glob: GlobTypeView,
    pub weight: i32,
    pub case_sensitive: bool,
    pub mime_type: MimeView,
}

impl GlobView {
    /// Whether the two records have the same pattern and the same MIME type,
    /// whatever their weights: the table keeps one of such records only.
    pub open spec fn same_key(self, other: GlobView) -> bool {
        self.glob == other.glob && self.mime_type == other.mime_type
    }

    /// Whether the record can be compared with file names.
    pub open spec fn well_formed(self) -> bool {
        kind_is_sound(self.glob)
    }

    /// Whether the record's pattern matches the file name `name`.
    ///
    /// A literal matches a name that is the same but for case. A suffix
    /// matches a name that ends with it, or, unless the record is case
    /// sensitive, whose lower case ends with it. A full pattern matches as
    /// the pattern says.
    pub open spec fn matches(self, name: Seq<char>) -> bool {
        match self.glob {
            GlobTypeView::Literal(s) => caseless(s, name),
            GlobTypeView::Simple(s) => is_suffix(name, s) || (!self.case_sensitive && is_suffix(
                lowered(name),
                s,
            )),
            GlobTypeView::Full(p) => glob_match(p, name),
        }
    }
}

/// A pattern record: file names that match the pattern belong to the MIME
/// type, with the given weight. A full pattern in a record is always one
/// that the `glob` crate takes.
#[derive(Debug)]
pub struct Glob {
    glob: GlobType,
    weight: i32,
    case_sensitive: bool,
    mime_type: Mime,
}

impl View for Glob {
    type V = GlobView;

    closed spec fn view(&self) -> GlobView {
        GlobView {
            glob: self.glob@,
            weight: self.weight,
            case_sensitive: self.case_sensitive,
            mime_type: self.mime_type@,
        }
    }
}

impl Clone for Glob {
    fn clone(&self) -> (r: Self)
        ensures
            r@ == self@,
    {
        proof {
            use_type_invariant(self);
        }
        Glob {
            glob: self.glob.clone(),
            weight: self.weight,
            case_sensitive: self.case_sensitive,
            mime_type: self.mime_type.clone(),
        }
    }
}

impl PartialEq for Glob {
    fn eq(&self, other: &Glob) -> (r: bool) {
        let same_glob = self.glob == other.glob;
        let same_type = self.mime_type == other.mime_type;
        same_glob && same_type
    }
}

impl PartialEqSpecImpl for Glob {
    open spec fn obeys_eq_spec() -> bool {
        true
    }

    open spec fn eq_spec(&self, other: &Glob) -> bool {
        self@.same_key(other@)
    }
}

/// The record that a line of the first format writes, `mime:pattern`, with
/// weight 50 and without regard to case. A line whose pattern is none writes
/// no record.
pub open spec fn glob_v1_of_line(line: Seq<char>) -> Option<GlobView> {
    let f = fields(line, ':');
    if f.len() == 2 && f[1].len() > 0 && is_glob(f[1]) {
        match parsed_mime(f[0]) {
            Some(mime_type) => Some(
                GlobView { glob: glob_type_of(f[1]), weight: 50, case_sensitive: false, mime_type },
            ),
            None => None,
        }
    } else {
        None
    }
}

/// The record that a line of the second format writes,
/// `weight:mime:pattern[:flags]`. The flags are separated by commas; `cs`
/// makes the record case sensitive, any other flag and any further field
/// says nothing. A line whose pattern is none writes no record.
pub open spec fn glob_v2_of_line(line: Seq<char>) -> Option<GlobView> {
    let f = fields(line, ':');
    if f.len() >= 3 && is_glob(f[2]) {
        match (i32_of(f[0]), parsed_mime(f[1])) {
            (Some(weight), Some(mime_type)) => if weight >= 0 {
                Some(
                    GlobView {
                        glob: glob_type_of(f[2]),
                        weight,
                        case_sensitive: f.len() >= 4 && fields(f[3], ',').contains("cs"@),
                        mime_type,
                    },
                )
            } else {
                None
            },
            _ => None,
        }
    } else {
        None
    }
}

/// `glob_v1_of_line` as a value.
pub open spec fn glob_v1_reader() -> spec_fn(Seq<char>) -> Option<GlobView> {
    |line: Seq<char>| glob_v1_of_line(line)
}

/// `glob_v2_of_line` as a value.
pub open spec fn glob_v2_reader() -> spec_fn(Seq<char>) -> Option<GlobView> {
    |line: Seq<char>| glob_v2_of_line(line)
}

/// The view of a record that may be absent.
pub open spec fn glob_option_view(g: Option<Glob>) -> Option<GlobView> {
    match g {
        Some(g) => Some(g@),
        None => None,
    }
}

/// The views of a list of records.
pub open spec fn globs_view(v: Seq<Glob>) -> Seq<GlobView> {
    v.map_values(|g: Glob| g@)
}

/// Tests whether one of `flags` is `cs`.
fn has_case_flag(flags: &Vec<String>) -> (r: bool)
    ensures
        r == strings_view(flags@).contains("cs"@),
{
    let n = flags.len();
    let mut i: usize = 0;
    while i < n
        invariant
            n == flags@.len(),
            i <= n,
            forall|j: int| 0 <= j < i ==> strings_view(flags@)[j] != "cs"@,
        decreases n - i,
    {
        if same_text(flags[i].as_str(), "cs") {
            assert(strings_view(flags@)[i as int] == "cs"@);
            return true;
        }
        i += 1;
    }
    false
}

impl Glob {
    #[verifier::type_invariant]
    spec fn pattern_is_sound(self) -> bool {
        kind_is_sound(self.glob@)
    }

    /// A record with weight 50 that matches without regard to case.
    pub fn simple(mime_type: &Mime, glob: &str) -> (r: Glob)
        requires
            is_glob(glob@),
        ensures
            r@ == (GlobView {
                glob: glob_type_of(glob@),
                weight: 50,
                case_sensitive: false,
                mime_type: mime_type@,
            }),
    {
        Glob {
            mime_type: mime_type.clone(),
            glob: determine_type(glob),
            weight: 50,
            case_sensitive: false,
        }
    }

    /// A record with the given weight that matches without regard to case.
    pub fn with_weight(mime_type: &Mime, glob: &str, weight: i32) -> (r: Glob)
        requires
            is_glob(glob@),
        ensures
            r@ == (GlobView {
                glob: glob_type_of(glob@),
                weight,
                case_sensitive: false,
                mime_type: mime_type@,
            }),
    {
        Glob { mime_type: mime_type.clone(), glob: determine_type(glob), weight, case_sensitive: false }
    }

    /// A record for the pattern `glob`.
    pub fn new(mime_type: &Mime, glob: &str, weight: i32, cs: bool) -> (r: Glob)
        requires
            is_glob(glob@),
        ensures
            r@ == (GlobView {
                glob: glob_type_of(glob@),
                weight,
                case_sensitive: cs,
                mime_type: mime_type@,
            }),
    {
        Glob { mime_type: mime_type.clone(), glob: determine_type(glob), weight, case_sensitive: cs }
    }

    /// A record for `glob`, where it can stand in one; `None` where it holds
    /// a character of a full pattern and is no pattern.
    pub fn checked_new(mime_type: &Mime, glob: &str, weight: i32, cs: bool) -> (r: Option<Glob>)
        ensures
            glob_option_view(r) == if is_glob(glob@) {
                Some(
                    GlobView {
                        glob: glob_type_of(glob@),
                        weight,
                        case_sensitive: cs,
                        mime_type: mime_type@,
                    },
                )
            } else {
                None
            },
    {
        if is_glob_text(glob) {
            Some(Glob::new(mime_type, glob, weight, cs))
        } else {
            None
        }
    }

    /// Reads a record from a line of the first format, `mime:pattern`.
    pub fn from_v1_string(s: &str) -> (r: Option<Glob>)
        ensures
            glob_option_view(r) == glob_v1_of_line(s@),
    {
        let f = split_fields(s, ':');
        if f.len() != 2 {
            return None;
        }
        assert(strings_view(f@)[0] == f@[0]@);
        assert(strings_view(f@)[1] == f@[1]@);
        let mime_type = match Mime::parse(f[0].as_str()) {
            Some(m) => m,
            None => { return None; },
        };
        if f[1].as_str().unicode_len() == 0 {
            return None;
        }
        if !is_glob_text(f[1].as_str()) {
            return None;
        }
        Some(Glob::simple(&mime_type, f[1].as_str()))
    }

    /// Reads a record from a line of the second format,
    /// `weight:mime:pattern[:flags]`.
    pub fn from_v2_string(s: &str) -> (r: Option<Glob>)
        ensures
            glob_option_view(r) == glob_v2_of_line(s@),
    {
        let f = split_fields(s, ':');
        if f.len() < 3 {
            return None;
        }
        assert(strings_view(f@)[0] == f@[0]@);
        assert(strings_view(f@)[1] == f@[1]@);
        assert(strings_view(f@)[2] == f@[2]@);
        let weight = match parse_i32(f[0].as_str()) {
            Some(w) => w,
            None => { return None; },
        };
        if weight < 0 {
            return None;
        }
        let mime_type = match Mime::parse(f[1].as_str()) {
            Some(m) => m,
            None => { return None; },
        };
        let mut case_sensitive = false;
        if f.len() >= 4 {
            assert(strings_view(f@)[3] == f@[3]@);
            let flags = split_fields(f[3].as_str(), ',');
            case_sensitive = has_case_flag(&flags);
        }
        if !is_glob_text(f[2].as_str()) {
            return None;
        }
        if case_sensitive {
            Some(Glob::new(&mime_type, f[2].as_str(), weight, true))
        } else {
            Some(Glob::with_weight(&mime_type, f[2].as_str(), weight))
        }
    }

    /// The weight of the record.
    pub fn weight(&self) -> (r: i32)
        ensures
            r == self@.weight,
    {
        self.weight
    }

    /// The MIME type of the record.
    pub fn mime_type(&self) -> (r: &Mime)
        ensures
            r@ == self@.mime_type,
    {
        &self.mime_type
    }

    /// Tests whether the record's pattern matches `file_name`.
    pub fn compare(&self, file_name: &str) -> (r: bool)
        ensures
            r == self@.matches(file_name@),
    {
        proof {
            use_type_invariant(self);
        }
        match &self.glob {
            GlobType::Literal(s) => caseless_eq(s.as_str(), file_name),
            GlobType::Simple(s) => {
                if ends_with(file_name, s.as_str()) {
                    return true;
                }
                if !self.case_sensitive {
                    let lc_file_name = lowercase(file_name);
                    if ends_with(lc_file_name.as_str(), s.as_str()) {
                        return true;
                    }
                }
                false
            },
            GlobType::Full(p) => pattern_matches(p.as_str(), file_name),
        }
    }
}

/// Reads the records that the lines of a table in the first format write.
pub fn globs_v1_from_lines(lines: &Vec<String>) -> (r: Vec<Glob>)
    ensures
        globs_view(r@) == read_lines(strings_view(lines@), glob_v1_reader()),
{
    let n = lines.len();
    let ghost all = strings_view(lines@);
    let mut out: Vec<Glob> = Vec::new();
    let mut i: usize = 0;
    assert(all.subrange(0, 0) =~= Seq::<Seq<char>>::empty());
    assert(globs_view(out@) =~= Seq::<GlobView>::empty());
    while i < n
        invariant
            n == lines@.len(),
            i <= n,
            all == strings_view(lines@),
            globs_view(out@) == read_lines(all.subrange(0, i as int), glob_v1_reader()),
        decreases n - i,
    {
        let line = lines[i].as_str();
        assert(all.subrange(0, i + 1).drop_last() =~= all.subrange(0, i as int));
        assert(all.subrange(0, i + 1).last() == line@);
        if !line_is_skipped(line) {
            match Glob::from_v1_string(line) {
                Some(g) => {
                    let ghost before = globs_view(out@);
                    let ghost view = g@;
                    out.push(g);
                    assert(globs_view(out@) =~= before.push(view));
                },
                None => {},
            }
        }
        i += 1;
    }
    assert(all.subrange(0, n as int) =~= all);
    out
}

/// Reads the records that the lines of a table in the second format write.
pub fn globs_v2_from_lines(lines: &Vec<String>) -> (r: Vec<Glob>)
    ensures
        globs_view(r@) == read_lines(strings_view(lines@), glob_v2_reader()),
{
    let n = lines.len();
    let ghost all = strings_view(lines@);
    let mut out: Vec<Glob> = Vec::new();
    let mut i: usize = 0;
    assert(all.subrange(0, 0) =~= Seq::<Seq<char>>::empty());
    assert(globs_view(out@) =~= Seq::<GlobView>::empty());
    while i < n
        invariant
            n == lines@.len(),
            i <= n,
            all == strings_view(lines@),
            globs_view(out@) == read_lines(all.subrange(0, i as int), glob_v2_reader()),
        decreases n - i,
    {
        let line = lines[i].as_str();
        assert(all.subrange(0, i + 1).drop_last() =~= all.subrange(0, i as int));
        assert(all.subrange(0, i + 1).last() == line@);
        if !line_is_skipped(line) {
            match Glob::from_v2_string(line) {
                Some(g) => {
                    let ghost before = globs_view(out@);
                    let ghost view = g@;
                    out.push(g);
                    assert(globs_view(out@) =~= before.push(view));
                },
                None => {},
            }
        }
        i += 1;
    }
    assert(all.subrange(0, n as int) =~= all);
    out
}

/// Whether `globs` holds a record with the pattern and MIME type of `g`.
pub open spec fn holds_key(globs: Seq<GlobView>, g: GlobView) -> bool {
    exists|i: int| 0 <= i < globs.len() && (#[trigger] globs[i]).same_key(g)
}

/// No two records of `globs` have the same pattern and MIME type.
pub open spec fn no_twins(globs: Seq<GlobView>) -> bool {
    forall|i: int, j: int|
        0 <= i < j < globs.len() ==> !(#[trigger] globs[i]).same_key(#[trigger] globs[j])
}

/// `globs` with `g` at its end, unless it holds a record with the pattern
/// and MIME type of `g` already: the record that came first stays.
pub open spec fn with_glob(globs: Seq<GlobView>, g: GlobView) -> Seq<GlobView> {
    if holds_key(globs, g) {
        globs
    } else {
        globs.push(g)
    }
}

/// `globs` after the records `more` were added one by one, in order.
pub open spec fn with_globs(globs: Seq<GlobView>, more: Seq<GlobView>) -> Seq<GlobView>
    decreases more.len(),
{
    if more.len() == 0 {
        globs
    } else {
        with_glob(with_globs(globs, more.drop_last()), more.last())
    }
}

/// The records of `globs` that `hits` marks, in order: the record at `i` is
/// one of them where `hits` has a `true` at `i`.
pub open spec fn selected(globs: Seq<GlobView>, hits: Seq<bool>) -> Seq<GlobView>
    decreases globs.len(),
{
    if globs.len() == 0 {
        Seq::empty()
    } else {
        let init = selected(globs.drop_last(), hits);
        if globs.len() <= hits.len() && hits[globs.len() - 1] {
            init.push(globs.last())
        } else {
            init
        }
    }
}

/// For each record of `globs`, whether it matches `name`.
pub open spec fn hits_of(globs: Seq<GlobView>, name: Seq<char>) -> Seq<bool> {
    Seq::new(globs.len(), |i: int| globs[i].matches(name))
}

/// The records of `globs` that match `name`, in order.
pub open spec fn matching(globs: Seq<GlobView>, name: Seq<char>) -> Seq<GlobView> {
    selected(globs, hits_of(globs, name))
}

/// `sorted` with `g` put in behind the last record whose weight is at most
/// that of `g`.
pub open spec fn insert_by_weight(sorted: Seq<GlobView>, g: GlobView) -> Seq<GlobView>
    decreases sorted.len(),
{
    if sorted.len() == 0 {
        seq![g]
    } else if sorted.last().weight <= g.weight {
        sorted.push(g)
    } else {
        insert_by_weight(sorted.drop_last(), g).push(sorted.last())
    }
}

/// `globs` in the order of their weights, lightest first; records of the
/// same weight stay in the order they have in `globs`.
pub open spec fn sort_by_weight(globs: Seq<GlobView>) -> Seq<GlobView>
    decreases globs.len(),
{
    if globs.len() == 0 {
        Seq::empty()
    } else {
        insert_by_weight(sort_by_weight(globs.drop_last()), globs.last())
    }
}

/// Whether the weights of `globs` never fall from one record to the next.
pub open spec fn ascending(globs: Seq<GlobView>) -> bool {
    forall|i: int, j: int|
        0 <= i < j < globs.len() ==> (#[trigger] globs[i]).weight <= (#[trigger] globs[j]).weight
}

/// The MIME types of the records of `globs` that `hits` marks, lightest
/// record first, records of one weight in their order; `None` where `hits`
/// marks none.
pub open spec fn ranked(globs: Seq<GlobView>, hits: Seq<bool>) -> Option<Seq<MimeView>> {
    let found = sort_by_weight(selected(globs, hits));
    if found.len() == 0 {
        None
    } else {
        Some(found.map_values(|g: GlobView| g.mime_type))
    }
}

/// The MIME types of the records of `globs` that match `name`, lightest
/// record first; `None` where no record matches.
pub open spec fn lookup_globs(globs: Seq<GlobView>, name: Seq<char>) -> Option<Seq<MimeView>> {
    ranked(globs, hits_of(globs, name))
}

/// What `hits` marks among the first records of `globs` does not depend on
/// the records behind them.
pub proof fn lemma_selected_prefix(globs: Seq<GlobView>, hits: Seq<bool>, k: int)
    requires
        0 <= k < globs.len(),
    ensures
        selected(globs.subrange(0, k + 1), hits) == if k < hits.len() && hits[k] {
            selected(globs.subrange(0, k), hits).push(globs[k])
        } else {
            selected(globs.subrange(0, k), hits)
        },
{
    assert(globs.subrange(0, k + 1).drop_last() =~= globs.subrange(0, k));
    assert(globs.subrange(0, k + 1).last() == globs[k]);
}

/// Putting `g` in by weight is putting it in at the place `j` behind which
/// all records are heavier than `g` and before which the last one is not.
pub proof fn lemma_insert_position(sorted: Seq<GlobView>, g: GlobView, j: int)
    requires
        0 <= j <= sorted.len(),
        forall|k: int| j <= k < sorted.len() ==> (#[trigger] sorted[k]).weight > g.weight,
        j > 0 ==> sorted[j - 1].weight <= g.weight,
    ensures
        insert_by_weight(sorted, g) == sorted.insert(j, g),
    decreases sorted.len(),
{
    if sorted.len() == 0 {
        assert(seq![g] =~= sorted.insert(j, g));
    } else if j == sorted.len() {
        assert(sorted.push(g) =~= sorted.insert(j, g));
    } else {
        assert(sorted.last().weight > g.weight);
        let init = sorted.drop_last();
        assert forall|k: int| j <= k < init.len() implies (#[trigger] init[k]).weight
            > g.weight by {
            assert(init[k] == sorted[k]);
        }
        lemma_insert_position(init, g, j);
        assert(init.insert(j, g).push(sorted.last()) =~= sorted.insert(j, g));
    }
}

/// Putting a record in by weight adds one record and keeps the order of weights.
pub proof fn lemma_insert_by_weight(sorted: Seq<GlobView>, g: GlobView)
    requires
        ascending(sorted),
    ensures
        ascending(insert_by_weight(sorted, g)),
        insert_by_weight(sorted, g).len() == sorted.len() + 1,
        insert_by_weight(sorted, g).to_multiset() == sorted.to_multiset().insert(g),
    decreases sorted.len(),
{
    broadcast use vstd::seq_lib::group_to_multiset_ensures;

    if sorted.len() == 0 {
        assert(seq![g] =~= sorted.push(g));
    } else if sorted.last().weight <= g.weight {
        let r = sorted.push(g);
        assert forall|i: int, j: int| 0 <= i < j < r.len() implies (#[trigger] r[i]).weight <= (
        #[trigger] r[j]).weight by {
            if j == sorted.len() {
                if i < sorted.len() - 1 {
                    assert(sorted[i].weight <= sorted[sorted.len() - 1].weight);
                }
            } else {
                assert(sorted[i].weight <= sorted[j].weight);
            }
        }
    } else {
        let init = sorted.drop_last();
        assert(ascending(init)) by {
            assert forall|i: int, j: int| 0 <= i < j < init.len() implies (
            #[trigger] init[i]).weight <= (#[trigger] init[j]).weight by {
                assert(sorted[i].weight <= sorted[j].weight);
            }
        }
        lemma_insert_by_weight(init, g);
        let mid = insert_by_weight(init, g);
        let r = mid.push(sorted.last());
        assert(sorted =~= init.push(sorted.last()));
        assert forall|x: GlobView| #[trigger] mid.contains(x) implies x.weight
            <= sorted.last().weight by {
            assert(mid.to_multiset().count(x) > 0);
            if x != g {
                assert(init.to_multiset().count(x) > 0);
                assert(init.contains(x));
                let k = choose|k: int| 0 <= k < init.len() && init[k] == x;
                assert(sorted[k].weight <= sorted[sorted.len() - 1].weight);
            }
        }
        assert forall|i: int, j: int| 0 <= i < j < r.len() implies (#[trigger] r[i]).weight <= (
        #[trigger] r[j]).weight by {
            if j == mid.len() {
                assert(mid.contains(mid[i]));
            } else {
                assert(mid[i].weight <= mid[j].weight);
            }
        }
    }
}

/// Sorting by weight keeps every record, as often as it occurs, and puts the
/// weights in ascending order.
pub proof fn lemma_sort_by_weight(globs: Seq<GlobView>)
    ensures
        ascending(sort_by_weight(globs)),
        sort_by_weight(globs).len() == globs.len(),
        sort_by_weight(globs).to_multiset() == globs.to_multiset(),
    decreases globs.len(),
{
    broadcast use vstd::seq_lib::group_to_multiset_ensures;

    if globs.len() > 0 {
        lemma_sort_by_weight(globs.drop_last());
        lemma_insert_by_weight(sort_by_weight(globs.drop_last()), globs.last());
        assert(globs =~= globs.drop_last().push(globs.last()));
    } else {
        assert(sort_by_weight(globs) =~= globs);
    }
}

/// The records that `order` picks out of `globs`.
pub open spec fn pick(globs: Seq<GlobView>, order: Seq<usize>) -> Seq<GlobView> {
    order.map_values(|i: usize| globs[i as int])
}

/// The table of patterns. It holds no two records with the same pattern and
/// the same MIME type, and keeps its records in the order in which they came.
pub struct GlobMap {
    globs: Vec<Glob>,
}

impl View for GlobMap {
    type V = Seq<GlobView>;

    closed spec fn view(&self) -> Seq<GlobView> {
        globs_view(self.globs@)
    }
}

impl GlobMap {
    #[verifier::type_invariant]
    spec fn holds_no_twins(self) -> bool {
        no_twins(globs_view(self.globs@))
    }

    /// An empty table.
    pub fn new() -> (r: GlobMap)
        ensures
            r@ == Seq::<GlobView>::empty(),
    {
        let r = GlobMap { globs: Vec::new() };
        assert(r@ =~= Seq::<GlobView>::empty());
        r
    }

    /// How many records the table holds; no two of them are twins.
    pub fn len(&self) -> (r: usize)
        ensures
            r == self@.len(),
            no_twins(self@),
    {
        proof {
            use_type_invariant(self);
        }
        self.globs.len()
    }

    /// Tests whether the table holds a record with the pattern and MIME type
    /// of `glob`.
    fn holds(&self, glob: &Glob) -> (r: bool)
        ensures
            r == holds_key(self@, glob@),
    {
        let n = self.globs.len();
        let mut i: usize = 0;
        while i < n
            invariant
                n == self.globs@.len(),
                i <= n,
                forall|j: int| 0 <= j < i ==> !(#[trigger] self@[j]).same_key(glob@),
            decreases n - i,
        {
            assert(self@[i as int] == self.globs@[i as int]@);
            if self.globs[i] == *glob {
                return true;
            }
            i += 1;
        }
        false
    }

    /// Adds a record, unless the table holds one with the same pattern and
    /// MIME type already.
    pub fn add_glob(&mut self, glob: Glob)
        ensures
            final(self)@ == with_glob(old(self)@, glob@),
    {
        proof {
            use_type_invariant(&*self);
        }
        if !self.holds(&glob) {
            let ghost before = self@;
            let mut taken = GlobMap { globs: Vec::new() };
            core::mem::swap(self, &mut taken);
            let mut globs = taken.globs;
            globs.push(glob);
            assert(globs_view(globs@) =~= before.push(glob@));
            assert(no_twins(globs_view(globs@))) by {
                let after = globs_view(globs@);
                assert forall|i: int, j: int| 0 <= i < j < after.len() implies !(
                #[trigger] after[i]).same_key(#[trigger] after[j]) by {
                    if j < before.len() {
                        assert(!before[i].same_key(before[j]));
                    } else {
                        assert(!before[i].same_key(glob@));
                    }
                }
            }
            *self = GlobMap { globs };
        }
    }

    /// Adds records one by one, in their order.
    pub fn add_globs(&mut self, globs: &[Glob])
        ensures
            final(self)@ == with_globs(old(self)@, globs_view(globs@)),
    {
        let n = globs.len();
        let ghost all = globs_view(globs@);
        let mut i: usize = 0;
        assert(all.subrange(0, 0) =~= Seq::<GlobView>::empty());
        while i < n
            invariant
                n == globs@.len(),
                i <= n,
                all == globs_view(globs@),
                self@ == with_globs(old(self)@, all.subrange(0, i as int)),
            decreases n - i,
        {
            assert(all.subrange(0, i + 1).drop_last() =~= all.subrange(0, i as int));
            assert(all.subrange(0, i + 1).last() == globs@[i as int]@);
            self.add_glob(globs[i].clone());
            i += 1;
        }
        assert(all.subrange(0, n as int) =~= all);
    }

    /// For each record of the table, whether it matches `file_name`.
    pub fn hits(&self, file_name: &str) -> (r: Vec<bool>)
        ensures
            r@ == hits_of(self@, file_name@),
    {
        let n = self.globs.len();
        let mut out: Vec<bool> = Vec::new();
        let mut i: usize = 0;
        while i < n
            invariant
                n == self.globs@.len(),
                i <= n,
                out@.len() == i,
                forall|k: int| 0 <= k < i ==> out@[k] == (#[trigger] self@[k]).matches(file_name@),
            decreases n - i,
        {
            assert(self@[i as int] == self.globs@[i as int]@);
            out.push(self.globs[i].compare(file_name));
            i += 1;
        }
        assert(out@ =~= hits_of(self@, file_name@));
        out
    }

    /// The MIME types of the records that `hits` marks, lightest record
    /// first, records of one weight in the order in which they came; `None`
    /// where `hits` marks none.
    pub fn rank(&self, hits: &Vec<bool>) -> (r: Option<Vec<Mime>>)
        ensures
            match r {
                Some(v) => ranked(self@, hits@) == Some(mimes_view(v@)),
                None => ranked(self@, hits@) is None,
            },
    {
        let n = self.globs.len();
        let mut order: Vec<usize> = Vec::new();
        let mut i: usize = 0;
        assert(self@.subrange(0, 0) =~= Seq::<GlobView>::empty());
        assert(pick(self@, order@) =~= Seq::<GlobView>::empty());
        while i < n
            invariant
                n == self.globs@.len(),
                i <= n,
                forall|k: int| 0 <= k < order@.len() ==> (#[trigger] order@[k]) < n,
                pick(self@, order@) == sort_by_weight(selected(self@.subrange(0, i as int), hits@)),
            decreases n - i,
        {
            proof {
                lemma_selected_prefix(self@, hits@, i as int);
            }
            assert(self@[i as int] == self.globs@[i as int]@);
            if i < hits.len() && hits[i] {
                let w = self.globs[i].weight();
                let ghost sorted = pick(self@, order@);
                let mut j: usize = order.len();
                while j > 0 && self.globs[order[j - 1]].weight() > w
                    invariant
                        n == self.globs@.len(),
                        j <= order@.len(),
                        sorted == pick(self@, order@),
                        forall|k: int| 0 <= k < order@.len() ==> (#[trigger] order@[k]) < n,
                        forall|k: int| j <= k < sorted.len() ==> (#[trigger] sorted[k]).weight > w,
                    decreases j,
                {
                    assert(sorted[j - 1] == self.globs@[order@[j - 1] as int]@);
                    j -= 1;
                }
                proof {
                    if j > 0 {
                        assert(sorted[j - 1] == self.globs@[order@[j - 1] as int]@);
                    }
                    lemma_insert_position(sorted, self.globs@[i as int]@, j as int);
                }
                order.insert(j, i);
                assert(pick(self@, order@) =~= sorted.insert(j as int, self.globs@[i as int]@));
                proof {
                    let g = self.globs@[i as int]@;
                    let init = selected(self@.subrange(0, i as int), hits@);
                    assert(init.push(g).drop_last() =~= init);
                    assert(init.push(g).last() == g);
                }
            }
            i += 1;
        }
        assert(self@.subrange(0, n as int) =~= self@);
        let m = order.len();
        if m == 0 {
            return None;
        }
        let ghost found = pick(self@, order@);
        let mut out: Vec<Mime> = Vec::new();
        let mut k: usize = 0;
        assert(mimes_view(out@) =~= found.map_values(|g: GlobView| g.mime_type).subrange(0, 0));
        while k < m
            invariant
                n == self.globs@.len(),
                m == order@.len(),
                k <= m,
                found == pick(self@, order@),
                forall|t: int| 0 <= t < order@.len() ==> (#[trigger] order@[t]) < n,
                mimes_view(out@) == found.map_values(|g: GlobView| g.mime_type).subrange(
                    0,
                    k as int,
                ),
            decreases m - k,
        {
            let ghost before = mimes_view(out@);
            let mime = self.globs[order[k]].mime_type().clone();
            assert(found[k as int] == self.globs@[order@[k as int] as int]@);
            out.push(mime);
            assert(mimes_view(out@) =~= before.push(mime@));
            assert(before.push(mime@) =~= found.map_values(|g: GlobView| g.mime_type).subrange(
                0,
                k + 1,
            ));
            k += 1;
        }
        assert(found.map_values(|g: GlobView| g.mime_type).subrange(0, m as int)
            =~= found.map_values(|g: GlobView| g.mime_type));
        Some(out)
    }

    /// The MIME types of the records that match `file_name`, lightest record
    /// first, records of one weight in the order in which they came; `None`
    /// where no record matches.
    pub fn lookup_mime_type_for_file_name(&self, file_name: &str) -> (r: Option<Vec<Mime>>)
        ensures
            match r {
                Some(v) => lookup_globs(self@, file_name@) == Some(mimes_view(v@)),
                None => lookup_globs(self@, file_name@) is None,
            },
    {
        let hits = self.hits(file_name);
        self.rank(&hits)
    }

    /// Empties the table.
    pub fn clear(&mut self)
        ensures
            final(self)@ == Seq::<GlobView>::empty(),
    {
        *self = GlobMap { globs: Vec::new() };
        assert(self@ =~= Seq::<GlobView>::empty());
    }
}

} // verus!
