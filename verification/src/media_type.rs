//! MIME identifiers: a top-level type, a subtype and an optional suffix.

use crate::text::same_text;
use vstd::prelude::*;
use vstd::std_specs::cmp::PartialEqSpecImpl;

verus! {

/// What a MIME identifier says: its top-level type, its subtype without
/// suffix, and the suffix that follows the last `+`, if there is one.
pub struct MimeView {
    pub ty: Seq<char>,
    pub sub: Seq<char>,
    pub suffix: Option<Seq<char>>,
}

impl MimeView {
    /// The identifier as text: `type/subtype`, and `+suffix` where there is one.
    pub open spec fn essence(self) -> Seq<char> {
        self.ty + seq!['/'] + self.sub + match self.suffix {
            Some(x) => seq!['+'] + x,
            None => Seq::empty(),
        }
    }

    /// Whether the subtype is the wildcard `*`.
    pub open spec fn is_star(self) -> bool {
        self.sub == "*"@
    }
}

/// Whether the text `a` comes before the text `b`, or is the same, in the
/// order of the dictionary, character by character.
pub open spec fn text_le(a: Seq<char>, b: Seq<char>) -> bool
    decreases a.len(),
{
    if a.len() == 0 {
        true
    } else if b.len() == 0 {
        false
    } else if a[0] != b[0] {
        (a[0] as u32) < (b[0] as u32)
    } else {
        text_le(a.drop_first(), b.drop_first())
    }
}

/// Every text comes before or is the same as itself.
pub proof fn lemma_text_le_reflexive(a: Seq<char>)
    ensures
        text_le(a, a),
    decreases a.len(),
{
    if a.len() > 0 {
        lemma_text_le_reflexive(a.drop_first());
    }
}

/// Whether `a` comes before `b`, or is the same, when the two are ordered as
/// their texts are.
pub open spec fn mime_le(a: MimeView, b: MimeView) -> bool {
    text_le(a.essence(), b.essence())
}

/// `text/plain`.
pub open spec fn text_plain() -> MimeView {
    MimeView { ty: "text"@, sub: "plain"@, suffix: None }
}

/// `application/octet-stream`, the type of data of which nothing is known.
pub open spec fn octet_stream() -> MimeView {
    MimeView { ty: "application"@, sub: "octet-stream"@, suffix: None }
}

/// `application/x-zerosize`, the type of an empty file.
pub open spec fn zerosize() -> MimeView {
    MimeView { ty: "application"@, sub: "x-zerosize"@, suffix: None }
}

/// `inode/directory`.
pub open spec fn inode_directory() -> MimeView {
    MimeView { ty: "inode"@, sub: "directory"@, suffix: None }
}

/// `inode/symlink`.
pub open spec fn inode_symlink() -> MimeView {
    MimeView { ty: "inode"@, sub: "symlink"@, suffix: None }
}

/// The views of a list of identifiers.
pub open spec fn mimes_view(v: Seq<Mime>) -> Seq<MimeView> {
    v.map_values(|m: Mime| m@)
}

/// A MIME identifier, such as `image/svg+xml`.
///
/// An identifier is read from text by [`Mime::parse`], which leaves the
/// reading to the `mime` crate. That crate hands out the parts in lower
/// case, so that texts that differ only in case give the same identifier.
/// Two identifiers are equal when their parts are.
#[derive(Debug, Eq)]
pub struct Mime {
    type_: String,
    subtype: String,
    suffix: Option<String>,
}

impl View for Mime {
    type V = MimeView;

    closed spec fn view(&self) -> MimeView {
        MimeView {
            ty: self.type_@,
            sub: self.subtype@,
            suffix: match self.suffix {
                Some(s) => Some(s@),
                None => None,
            },
        }
    }
}

/// What the `mime` crate makes of the text `s`: the parts of the identifier it
/// reads, in lower case, or `None` where it rejects `s`.
pub uninterp spec fn parsed_mime(s: Seq<char>) -> Option<MimeView>;

/// The view of an identifier that may be absent.
pub open spec fn mime_option_view(m: Option<Mime>) -> Option<MimeView> {
    match m {
        Some(m) => Some(m@),
        None => None,
    }
}

/// Calls `mime::Mime::from_str` on `s` and copies out what `type_`, `subtype`
/// and `suffix` return of the result. The contract names the outcome
/// `parsed_mime(s@)`; any parameters after a `;` are not kept.
#[verifier::external_body]
fn mime_from_str(s: &str) -> (r: Option<Mime>)
    ensures
        mime_option_view(r) == parsed_mime(s@),
{
    match s.parse::<::mime::Mime>() {
        Ok(m) => Some(
            Mime {
                type_: m.type_().as_str().to_string(),
                subtype: m.subtype().as_str().to_string(),
                suffix: m.suffix().map(|n| n.as_str().to_string()),
            },
        ),
        Err(_) => None,
    }
}

impl Clone for Mime {
    fn clone(&self) -> (r: Self)
        ensures
            r@ == self@,
    {
        Mime {
            type_: self.type_.clone(),
            subtype: self.subtype.clone(),
            suffix: match &self.suffix {
                Some(s) => Some(s.clone()),
                None => None,
            },
        }
    }
}

impl PartialEq for Mime {
    fn eq(&self, other: &Mime) -> (r: bool) {
        let same_suffix = match &self.suffix {
            Some(a) => match &other.suffix {
                Some(b) => *a == *b,
                None => false,
            },
            None => other.suffix.is_none(),
        };
        assert(same_suffix == (self@.suffix == other@.suffix));
        let same_type = self.type_ == other.type_;
        assert(same_type == (self@.ty == other@.ty));
        let same_subtype = self.subtype == other.subtype;
        assert(same_subtype == (self@.sub == other@.sub));
        same_type && same_subtype && same_suffix
    }
}

impl PartialEqSpecImpl for Mime {
    open spec fn obeys_eq_spec() -> bool {
        true
    }

    open spec fn eq_spec(&self, other: &Mime) -> bool {
        self@ == other@
    }
}

impl Mime {
    /// Reads a MIME identifier from text such as `text/plain`.
    pub fn parse(s: &str) -> (r: Option<Mime>)
        ensures
            mime_option_view(r) == parsed_mime(s@),
    {
        mime_from_str(s)
    }

    /// The top-level type, such as `text`.
    pub fn type_(&self) -> (r: &str)
        ensures
            r@ == self@.ty,
    {
        self.type_.as_str()
    }

    /// The subtype without its suffix, such as `svg` of `image/svg+xml`.
    pub fn subtype(&self) -> (r: &str)
        ensures
            r@ == self@.sub,
    {
        self.subtype.as_str()
    }

    /// The suffix, such as `xml` of `image/svg+xml`.
    pub fn suffix(&self) -> (r: Option<&str>)
        ensures
            match r {
                Some(x) => self@.suffix == Some(x@),
                None => self@.suffix is None,
            },
    {
        match &self.suffix {
            Some(x) => Some(x.as_str()),
            None => None,
        }
    }

    /// The identifier as text: `type/subtype`, and `+suffix` where there is one.
    pub fn essence_str(&self) -> (r: String)
        ensures
            r@ == self@.essence(),
    {
        proof {
            reveal_strlit("/");
            reveal_strlit("+");
        }
        let mut out = self.type_.clone();
        out.append("/");
        out.append(self.subtype.as_str());
        match &self.suffix {
            Some(x) => {
                out.append("+");
                out.append(x.as_str());
                assert(out@ =~= self@.essence());
            },
            None => {
                assert(out@ =~= self@.essence());
            },
        }
        out
    }

    /// Whether this identifier comes before `other`, or is the same, when
    /// the two are ordered as their texts are.
    pub fn le(&self, other: &Mime) -> (r: bool)
        ensures
            r == mime_le(self@, other@),
    {
        let a = self.essence_str();
        let b = other.essence_str();
        let a = a.as_str();
        let b = b.as_str();
        let n = a.unicode_len();
        let m = b.unicode_len();
        let mut i: usize = 0;
        assert(a@.subrange(0, n as int) =~= a@);
        assert(b@.subrange(0, m as int) =~= b@);
        while i < n && i < m
            invariant
                n == a@.len(),
                m == b@.len(),
                i <= n,
                i <= m,
                a@ == self@.essence(),
                b@ == other@.essence(),
                text_le(a@, b@) == text_le(
                    a@.subrange(i as int, n as int),
                    b@.subrange(i as int, m as int),
                ),
            decreases n - i,
        {
            let x = a.get_char(i);
            let y = b.get_char(i);
            let ghost ra = a@.subrange(i as int, n as int);
            let ghost rb = b@.subrange(i as int, m as int);
            assert(ra[0] == x && rb[0] == y);
            assert(ra.drop_first() =~= a@.subrange(i + 1, n as int));
            assert(rb.drop_first() =~= b@.subrange(i + 1, m as int));
            if x != y {
                return (x as u32) < (y as u32);
            }
            i += 1;
        }
        i == n
    }

    /// Whether the top-level type is `name`.
    pub fn has_type(&self, name: &str) -> (r: bool)
        ensures
            r == (self@.ty == name@),
    {
        same_text(self.type_.as_str(), name)
    }

    /// Whether the subtype is the wildcard `*`.
    pub fn is_star(&self) -> (r: bool)
        ensures
            r == self@.is_star(),
    {
        same_text(self.subtype.as_str(), "*")
    }

    /// Whether the two identifiers have the same top-level type.
    pub fn same_type(&self, other: &Mime) -> (r: bool)
        ensures
            r == (self@.ty == other@.ty),
    {
        self.type_ == other.type_
    }

    /// `text/plain`.
    pub fn text_plain() -> (r: Mime)
        ensures
            r@ == text_plain(),
    {
        Mime { type_: "text".to_owned(), subtype: "plain".to_owned(), suffix: None }
    }

    /// `application/octet-stream`.
    pub fn octet_stream() -> (r: Mime)
        ensures
            r@ == octet_stream(),
    {
        Mime { type_: "application".to_owned(), subtype: "octet-stream".to_owned(), suffix: None }
    }

    /// `application/x-zerosize`.
    pub fn zerosize() -> (r: Mime)
        ensures
            r@ == zerosize(),
    {
        Mime { type_: "application".to_owned(), subtype: "x-zerosize".to_owned(), suffix: None }
    }

    /// `inode/directory`.
    pub fn inode_directory() -> (r: Mime)
        ensures
            r@ == inode_directory(),
    {
        Mime { type_: "inode".to_owned(), subtype: "directory".to_owned(), suffix: None }
    }

    /// `inode/symlink`.
    pub fn inode_symlink() -> (r: Mime)
        ensures
            r@ == inode_symlink(),
    {
        Mime { type_: "inode".to_owned(), subtype: "symlink".to_owned(), suffix: None }
    }
}

} // verus!
