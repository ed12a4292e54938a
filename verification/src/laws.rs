//! Laws of the relations between MIME types that a database defines.

use crate::glob::{lemma_sort_by_weight, matching};
use crate::media_type::{octet_stream, text_plain, MimeView};
use crate::subclass::{derives, directly_under, lemma_derives_self};
use crate::{is_binary_byte, text_like, DatabaseView};
use vstd::prelude::*;

verus! {

/// Every MIME type is a subclass of itself.
pub proof fn lemma_subclass_reflexive(db: DatabaseView, m: MimeView)
    ensures
        db.subclass(m, m),
{
    lemma_derives_self(db.aliases, db.parents, db.canonical(m));
}

/// In a database in which `application/octet-stream` is no alias, a MIME
/// type that stands for no `inode` type is a subclass of
/// `application/octet-stream`.
pub proof fn lemma_streamable_is_octet_stream(db: DatabaseView, m: MimeView)
    requires
        db.canonical(octet_stream()) == octet_stream(),
        db.canonical(m).ty != "inode"@,
    ensures
        db.subclass(m, octet_stream()),
{
    lemma_derives_self(db.aliases, db.parents, db.canonical(m));
}

/// In a database in which `application/octet-stream` is no alias, a MIME
/// type is a subclass of `application/octet-stream` if and only if it stands
/// for no `inode` type. This holds of each type that, where it stands for an
/// `inode` type, has `inode` types for ancestors only.
pub proof fn lemma_octet_stream_iff_not_inode(db: DatabaseView, m: MimeView)
    requires
        db.canonical(octet_stream()) == octet_stream(),
        db.canonical(m).ty == "inode"@ ==> forall|n: MimeView|
            (#[trigger] derives(db.aliases, db.parents, db.canonical(m), n)) ==> n.ty
                == "inode"@,
    ensures
        db.subclass(m, octet_stream()) <==> db.canonical(m).ty != "inode"@,
{
    reveal_strlit("inode");
    reveal_strlit("application");
    reveal_strlit("octet-stream");
    reveal_strlit("text");
    reveal_strlit("plain");
    reveal_strlit("*");
    let start = db.canonical(m);
    if start.ty != "inode"@ {
        lemma_derives_self(db.aliases, db.parents, start);
    }
    if db.subclass(m, octet_stream()) {
        let n = choose|n: MimeView|
            (#[trigger] derives(db.aliases, db.parents, start, n)) && directly_under(
                n,
                octet_stream(),
            );
        assert("application"@.len() == 11);
        assert("inode"@.len() == 5);
        assert("octet-stream"@.len() == 12);
        assert("*"@.len() == 1);
        assert(n.ty != "inode"@);
    }
}

/// In a database in which `text/plain` is no alias, a MIME type that stands
/// for a text type is a subclass of `text/plain`.
pub proof fn lemma_text_is_text_plain(db: DatabaseView, m: MimeView)
    requires
        db.canonical(text_plain()) == text_plain(),
        db.canonical(m).ty == "text"@,
    ensures
        db.subclass(m, text_plain()),
{
    lemma_derives_self(db.aliases, db.parents, db.canonical(m));
}

/// A MIME type is a subclass of a wildcard `T/*` if and only if what it
/// stands for, or one of its ancestors, has the top-level type `T`.
pub proof fn lemma_subclass_of_wildcard(db: DatabaseView, m: MimeView, base: MimeView)
    requires
        db.canonical(base).is_star(),
    ensures
        db.subclass(m, base) <==> exists|n: MimeView|
            (#[trigger] derives(db.aliases, db.parents, db.canonical(m), n)) && n.ty
                == db.canonical(base).ty,
{
    reveal_strlit("*");
    reveal_strlit("plain");
    reveal_strlit("octet-stream");
    let start = db.canonical(m);
    let target = db.canonical(base);
    assert("*"@.len() == 1);
    assert("plain"@.len() == 5);
    assert("octet-stream"@.len() == 12);
    assert(target != text_plain());
    assert(target != octet_stream());
    if db.subclass(m, base) {
        let n = choose|n: MimeView|
            (#[trigger] derives(db.aliases, db.parents, start, n)) && directly_under(n, target);
        assert(n.ty == target.ty);
    }
    if exists|n: MimeView|
        (#[trigger] derives(db.aliases, db.parents, start, n)) && n.ty == target.ty {
        let n = choose|n: MimeView|
            (#[trigger] derives(db.aliases, db.parents, start, n)) && n.ty == target.ty;
        assert(directly_under(n, target));
    }
}

/// A MIME type with the top-level type `T` that is no alias is a subclass of
/// the wildcard `T/*`.
pub proof fn lemma_type_is_under_its_wildcard(db: DatabaseView, m: MimeView, base: MimeView)
    requires
        db.canonical(base).is_star(),
        db.canonical(m).ty == db.canonical(base).ty,
    ensures
        db.subclass(m, base),
{
    lemma_derives_self(db.aliases, db.parents, db.canonical(m));
}

/// Equality of MIME types under aliases is reflexive.
pub proof fn lemma_equal_reflexive(db: DatabaseView, a: MimeView)
    ensures
        db.equal(a, a),
{
}

/// Equality of MIME types under aliases is symmetric.
pub proof fn lemma_equal_symmetric(db: DatabaseView, a: MimeView, b: MimeView)
    ensures
        db.equal(a, b) == db.equal(b, a),
{
}

/// Equality of MIME types under aliases is transitive.
pub proof fn lemma_equal_transitive(db: DatabaseView, a: MimeView, b: MimeView, c: MimeView)
    requires
        db.equal(a, b),
        db.equal(b, c),
    ensures
        db.equal(a, c),
{
}

/// MIME types that are equal under aliases are subclasses of each other.
pub proof fn lemma_equal_is_subclass(db: DatabaseView, a: MimeView, b: MimeView)
    requires
        db.equal(a, b),
    ensures
        db.subclass(a, b),
{
    lemma_derives_self(db.aliases, db.parents, db.canonical(a));
}

/// The list of MIME types for a file name is never empty.
pub proof fn lemma_types_for_name_nonempty(db: DatabaseView, name: Seq<char>)
    ensures
        db.types_for_name(name).len() >= 1,
{
    lemma_sort_by_weight(matching(db.globs, name));
}

/// No data at all look like text.
pub proof fn lemma_empty_looks_like_text()
    ensures
        text_like(Seq::<u8>::empty()),
{
}

/// Data with an ASCII control byte other than tab, line feed, vertical tab,
/// form feed and carriage return among their first 128 bytes do not look
/// like text.
pub proof fn lemma_binary_byte_is_no_text(data: Seq<u8>, i: int)
    requires
        0 <= i < data.len(),
        i < 128,
        is_binary_byte(data[i]),
    ensures
        !text_like(data),
{
}

} // verus!
