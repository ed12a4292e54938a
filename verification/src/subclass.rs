//! The subclass relation between MIME types: what the table of subclasses,
//! the table of aliases and a few fixed rules make of it.

use crate::alias::{canonical, AliasView, AliasesList};
use crate::media_type::{mimes_view, octet_stream, text_plain, Mime, MimeView};
use crate::parent::{
    distinct_keys, families_map, has_key, key_index, lemma_key_index, FamilyView, ParentsMap,
};
use vstd::prelude::*;

verus! {

/// Whether `n` is a special case of `base` by one of the fixed rules: they are
/// the same; `base` is the wildcard of the type of `n`; `base` is
/// `text/plain` and `n` is a text type; `base` is `application/octet-stream`
/// and `n` is no `inode` type.
pub open spec fn directly_under(n: MimeView, base: MimeView) -> bool {
    ||| n == base
    ||| (base.is_star() && base.ty == n.ty)
    ||| (base == text_plain() && n.ty == "text"@)
    ||| (base == octet_stream() && n.ty != "inode"@)
}

/// Whether the table gives `a` a parent that stands for `b`.
pub open spec fn step(
    aliases: Seq<AliasView>,
    parents: Map<MimeView, Seq<MimeView>>,
    a: MimeView,
    b: MimeView,
) -> bool {
    parents.contains_key(a) && exists|j: int|
        0 <= j < parents[a].len() && canonical(aliases, #[trigger] parents[a][j]) == b
}

/// Whether `path` is a chain: it is not empty, and the table gives each of
/// its types a parent that stands for the next.
pub open spec fn is_chain(
    aliases: Seq<AliasView>,
    parents: Map<MimeView, Seq<MimeView>>,
    path: Seq<MimeView>,
) -> bool {
    path.len() > 0 && forall|i: int|
        0 <= i < path.len() - 1 ==> step(aliases, parents, #[trigger] path[i], path[i + 1])
}

/// Whether `b` is `a` or one of its ancestors: a chain leads from `a` to `b`.
pub open spec fn derives(
    aliases: Seq<AliasView>,
    parents: Map<MimeView, Seq<MimeView>>,
    a: MimeView,
    b: MimeView,
) -> bool {
    exists|path: Seq<MimeView>|
        (#[trigger] is_chain(aliases, parents, path)) && path[0] == a && path.last() == b
}

/// Whether `m` is a subclass of `base`: what stands for `m`, or one of its
/// ancestors, is a special case of what stands for `base` by a fixed rule.
pub open spec fn is_subclass(
    aliases: Seq<AliasView>,
    parents: Map<MimeView, Seq<MimeView>>,
    m: MimeView,
    base: MimeView,
) -> bool {
    exists|n: MimeView|
        (#[trigger] derives(aliases, parents, canonical(aliases, m), n)) && directly_under(
            n,
            canonical(aliases, base),
        )
}

/// Tests whether `n` is a special case of `base` by one of the fixed rules.
pub fn is_directly_under(n: &Mime, base: &Mime) -> (r: bool)
    ensures
        r == directly_under(n@, base@),
{
    if *n == *base {
        return true;
    }
    if base.is_star() && base.same_type(n) {
        return true;
    }
    let text = Mime::text_plain();
    if *base == text && n.has_type("text") {
        return true;
    }
    let stream = Mime::octet_stream();
    if *base == stream && !n.has_type("inode") {
        return true;
    }
    false
}

/// How many of `done` are false.
pub open spec fn count_false(done: Seq<bool>) -> nat
    decreases done.len(),
{
    if done.len() == 0 {
        0
    } else {
        count_false(done.drop_last()) + if done.last() {
            0nat
        } else {
            1nat
        }
    }
}

/// Setting a false flag leaves one false flag fewer.
pub proof fn lemma_count_false_update(done: Seq<bool>, i: int)
    requires
        0 <= i < done.len(),
        !done[i],
    ensures
        count_false(done.update(i, true)) + 1 == count_false(done),
    decreases done.len(),
{
    let after = done.update(i, true);
    if i == done.len() - 1 {
        assert(after.drop_last() =~= done.drop_last());
    } else {
        lemma_count_false_update(done.drop_last(), i);
        assert(after.drop_last() =~= done.drop_last().update(i, true));
    }
}

/// Whether the search is through with `y`: `y` is no special case of `t`,
/// and if it has a family, its parents were taken up.
pub open spec fn handled(fs: Seq<FamilyView>, done: Seq<bool>, t: MimeView, y: MimeView) -> bool {
    !directly_under(y, t) && forall|i: int|
        0 <= i < fs.len() && (#[trigger] fs[i]).child == y ==> done[i]
}

/// Whether `y` waits in `work` or the search is through with it.
pub open spec fn settled(
    fs: Seq<FamilyView>,
    done: Seq<bool>,
    work: Seq<MimeView>,
    t: MimeView,
    y: MimeView,
) -> bool {
    work.contains(y) || handled(fs, done, t, y)
}

/// Whether the family at `i`, if its parents were taken up, is no special
/// case of `t` and has each of its parents settled.
pub open spec fn family_closed(
    aliases: Seq<AliasView>,
    fs: Seq<FamilyView>,
    done: Seq<bool>,
    work: Seq<MimeView>,
    t: MimeView,
    i: int,
) -> bool {
    done[i] ==> !directly_under(fs[i].child, t) && forall|j: int|
        0 <= j < fs[i].parents.len() ==> settled(
            fs,
            done,
            work,
            t,
            canonical(aliases, #[trigger] fs[i].parents[j]),
        )
}

/// What holds between two rounds of the search from `s` for `t`.
pub open spec fn search_inv(
    aliases: Seq<AliasView>,
    fs: Seq<FamilyView>,
    done: Seq<bool>,
    work: Seq<MimeView>,
    s: MimeView,
    t: MimeView,
) -> bool {
    &&& distinct_keys(fs)
    &&& done.len() == fs.len()
    &&& forall|w: int|
        0 <= w < work.len() ==> derives(aliases, families_map(fs), s, #[trigger] work[w])
    &&& settled(fs, done, work, t, s)
    &&& forall|i: int| 0 <= i < fs.len() ==> #[trigger] family_closed(aliases, fs, done, work, t, i)
}

/// When nothing waits any more, the search is through with every type of a
/// chain that starts at `s`.
pub proof fn lemma_search_complete(
    aliases: Seq<AliasView>,
    fs: Seq<FamilyView>,
    done: Seq<bool>,
    s: MimeView,
    t: MimeView,
    path: Seq<MimeView>,
    at: int,
)
    requires
        search_inv(aliases, fs, done, Seq::empty(), s, t),
        is_chain(aliases, families_map(fs), path),
        path[0] == s,
        0 <= at < path.len(),
    ensures
        handled(fs, done, t, path[at]),
    decreases at,
{
    let parents = families_map(fs);
    let work = Seq::<MimeView>::empty();
    if at > 0 {
        lemma_search_complete(aliases, fs, done, s, t, path, at - 1);
        let mid = path[at - 1];
        let x = path[at];
        assert(step(aliases, parents, mid, x));
        let i = key_index(fs, mid);
        assert(has_key(fs, mid));
        assert(fs[i].child == mid);
        assert(done[i]);
        assert(family_closed(aliases, fs, done, work, t, i));
        lemma_key_index(fs, i);
        let j = choose|j: int|
            0 <= j < parents[mid].len() && canonical(aliases, #[trigger] parents[mid][j]) == x;
        assert(parents[mid] == fs[i].parents);
        assert(settled(fs, done, work, t, canonical(aliases, fs[i].parents[j])));
    }
}

/// One more step at the end of a chain from `a` makes a chain from `a`.
pub proof fn lemma_derives_step(
    aliases: Seq<AliasView>,
    parents: Map<MimeView, Seq<MimeView>>,
    a: MimeView,
    mid: MimeView,
    b: MimeView,
)
    requires
        derives(aliases, parents, a, mid),
        step(aliases, parents, mid, b),
    ensures
        derives(aliases, parents, a, b),
{
    let path = choose|path: Seq<MimeView>|
        (#[trigger] is_chain(aliases, parents, path)) && path[0] == a && path.last() == mid;
    let longer = path.push(b);
    assert forall|i: int| 0 <= i < longer.len() - 1 implies step(
        aliases,
        parents,
        #[trigger] longer[i],
        longer[i + 1],
    ) by {
        if i < path.len() - 1 {
            assert(step(aliases, parents, path[i], path[i + 1]));
        }
    }
    assert(is_chain(aliases, parents, longer));
}

/// Every type derives from itself.
pub proof fn lemma_derives_self(
    aliases: Seq<AliasView>,
    parents: Map<MimeView, Seq<MimeView>>,
    a: MimeView,
)
    ensures
        derives(aliases, parents, a, a),
{
    assert(is_chain(aliases, parents, seq![a]));
}

/// What was settled stays settled when more flags are set and the last type
/// that waited is dealt with, as long as the others that waited still wait.
pub proof fn lemma_settled_carries(
    fs: Seq<FamilyView>,
    done0: Seq<bool>,
    done1: Seq<bool>,
    work0: Seq<MimeView>,
    work1: Seq<MimeView>,
    t: MimeView,
    y: MimeView,
)
    requires
        settled(fs, done0, work0, t, y),
        done0.len() == fs.len(),
        done0.len() == done1.len(),
        forall|i: int| 0 <= i < done0.len() && done0[i] ==> done1[i],
        work0.len() > 0,
        forall|w: int| 0 <= w < work0.len() - 1 ==> work1.contains(#[trigger] work0[w]),
        handled(fs, done1, t, work0.last()),
    ensures
        settled(fs, done1, work1, t, y),
{
    if work0.contains(y) {
        let w = choose|w: int| 0 <= w < work0.len() && work0[w] == y;
        if w < work0.len() - 1 {
            assert(work1.contains(work0[w]));
        }
    }
}

/// The search stays in order when the last type that waited is dropped and
/// the search is through with it.
pub proof fn lemma_after_pop(
    aliases: Seq<AliasView>,
    fs: Seq<FamilyView>,
    done: Seq<bool>,
    work0: Seq<MimeView>,
    s: MimeView,
    t: MimeView,
)
    requires
        search_inv(aliases, fs, done, work0, s, t),
        work0.len() > 0,
        handled(fs, done, t, work0.last()),
    ensures
        search_inv(aliases, fs, done, work0.drop_last(), s, t),
{
    let work1 = work0.drop_last();
    assert forall|w: int| 0 <= w < work0.len() - 1 implies work1.contains(
        #[trigger] work0[w],
    ) by {
        assert(work1[w] == work0[w]);
    }
    assert forall|w: int| 0 <= w < work1.len() implies derives(
        aliases,
        families_map(fs),
        s,
        #[trigger] work1[w],
    ) by {
        assert(work1[w] == work0[w]);
    }
    lemma_settled_carries(fs, done, done, work0, work1, t, s);
    assert forall|i: int| 0 <= i < fs.len() implies #[trigger] family_closed(
        aliases,
        fs,
        done,
        work1,
        t,
        i,
    ) by {
        assert(family_closed(aliases, fs, done, work0, t, i));
        if done[i] {
            assert forall|j: int| 0 <= j < fs[i].parents.len() implies settled(
                fs,
                done,
                work1,
                t,
                canonical(aliases, #[trigger] fs[i].parents[j]),
            ) by {
                lemma_settled_carries(
                    fs,
                    done,
                    done,
                    work0,
                    work1,
                    t,
                    canonical(aliases, fs[i].parents[j]),
                );
            }
        }
    }
}

/// What stands for each of `parents`, in order.
pub open spec fn canonical_all(aliases: Seq<AliasView>, parents: Seq<MimeView>) -> Seq<MimeView> {
    Seq::new(parents.len(), |j: int| canonical(aliases, parents[j]))
}

/// The search stays in order when the last type that waited is dropped, its
/// family is marked, and what stands for its parents is put in its place.
pub proof fn lemma_after_expand(
    aliases: Seq<AliasView>,
    fs: Seq<FamilyView>,
    done0: Seq<bool>,
    work0: Seq<MimeView>,
    s: MimeView,
    t: MimeView,
    i: int,
)
    requires
        search_inv(aliases, fs, done0, work0, s, t),
        work0.len() > 0,
        0 <= i < fs.len(),
        fs[i].child == work0.last(),
        !done0[i],
        !directly_under(work0.last(), t),
    ensures
        search_inv(
            aliases,
            fs,
            done0.update(i, true),
            work0.drop_last() + canonical_all(aliases, fs[i].parents),
            s,
            t,
        ),
{
    let n = work0.last();
    let done1 = done0.update(i, true);
    let pushed = canonical_all(aliases, fs[i].parents);
    let kept = work0.drop_last();
    let work1 = kept + pushed;
    let parents = families_map(fs);
    lemma_key_index(fs, i);
    assert(parents[n] == fs[i].parents);
    assert forall|w: int| 0 <= w < work0.len() - 1 implies work1.contains(
        #[trigger] work0[w],
    ) by {
        assert(work1[w] == work0[w]);
    }
    assert(handled(fs, done1, t, n)) by {
        assert forall|k: int| 0 <= k < fs.len() && (#[trigger] fs[k]).child == n implies done1[k] by {
            if k < i {
                assert(fs[k].child != fs[i].child);
            } else if i < k {
                assert(fs[i].child != fs[k].child);
            }
        }
    }
    assert forall|w: int| 0 <= w < work1.len() implies derives(
        aliases,
        parents,
        s,
        #[trigger] work1[w],
    ) by {
        if w < kept.len() {
            assert(work1[w] == work0[w]);
        } else {
            let j = w - kept.len();
            assert(work1[w] == canonical(aliases, fs[i].parents[j]));
            assert(derives(aliases, parents, s, work0[work0.len() - 1]));
            assert(canonical(aliases, parents[n][j]) == work1[w]);
            assert(step(aliases, parents, n, work1[w]));
            lemma_derives_step(aliases, parents, s, n, work1[w]);
        }
    }
    lemma_settled_carries(fs, done0, done1, work0, work1, t, s);
    assert forall|k: int| 0 <= k < fs.len() implies #[trigger] family_closed(
        aliases,
        fs,
        done1,
        work1,
        t,
        k,
    ) by {
        if k == i {
            assert forall|j: int| 0 <= j < fs[k].parents.len() implies settled(
                fs,
                done1,
                work1,
                t,
                canonical(aliases, #[trigger] fs[k].parents[j]),
            ) by {
                assert(work1[kept.len() + j] == canonical(aliases, fs[k].parents[j]));
            }
        } else if done1[k] {
            assert(family_closed(aliases, fs, done0, work0, t, k));
            assert forall|j: int| 0 <= j < fs[k].parents.len() implies settled(
                fs,
                done1,
                work1,
                t,
                canonical(aliases, #[trigger] fs[k].parents[j]),
            ) by {
                lemma_settled_carries(
                    fs,
                    done0,
                    done1,
                    work0,
                    work1,
                    t,
                    canonical(aliases, fs[k].parents[j]),
                );
            }
        }
    }
}

/// Tests whether `mime_type` is a subclass of `base`.
///
/// The search goes from what stands for `mime_type` up through the parents;
/// it takes up the parents of each type once only, so that it ends on any
/// table, also on one that runs in circles.
pub fn search(aliases: &AliasesList, parents: &ParentsMap, mime_type: &Mime, base: &Mime) -> (r:
    bool)
    ensures
        r == is_subclass(aliases@, parents@, mime_type@, base@),
{
    let start = aliases.canonical(mime_type);
    let target = aliases.canonical(base);
    let count = parents.len();
    let ghost fs = parents.families();
    let ghost al = aliases@;
    let ghost s = start@;
    let ghost t = target@;
    let mut done: Vec<bool> = Vec::new();
    let mut c: usize = 0;
    while c < count
        invariant
            c <= count,
            done@.len() == c,
            forall|i: int| 0 <= i < c ==> !done@[i],
        decreases count - c,
    {
        done.push(false);
        c += 1;
    }
    let mut work: Vec<Mime> = Vec::new();
    work.push(start);
    proof {
        lemma_derives_self(al, families_map(fs), s);
        assert(mimes_view(work@)[0] == s);
        assert(mimes_view(work@).contains(s));
    }
    while work.len() > 0
        invariant
            fs == parents.families(),
            al == aliases@,
            t == target@,
            s == canonical(al, mime_type@),
            t == canonical(al, base@),
            search_inv(al, fs, done@, mimes_view(work@), s, t),
        decreases count_false(done@), work@.len(),
    {
        let ghost work0 = mimes_view(work@);
        let ghost done0 = done@;
        let n = match work.pop() {
            Some(n) => n,
            None => { return false; },
        };
        assert(n@ == work0.last());
        assert(mimes_view(work@) =~= work0.drop_last());
        if is_directly_under(&n, &target) {
            proof {
                assert(derives(al, families_map(fs), s, work0[work0.len() - 1]));
            }
            return true;
        }
        match parents.position(&n) {
            Some(i) => {
                if !done[i] {
                    done.set(i, true);
                    let list = parents.parents_at(i);
                    let m = list.len();
                    let ghost pushed = canonical_all(al, fs[i as int].parents);
                    let mut j: usize = 0;
                    assert(mimes_view(work@) =~= work0.drop_last() + pushed.subrange(0, 0));
                    while j < m
                        invariant
                            al == aliases@,
                            m == list@.len(),
                            j <= m,
                            i < fs.len(),
                            work0.len() > 0,
                            mimes_view(list@) == fs[i as int].parents,
                            pushed == canonical_all(al, fs[i as int].parents),
                            mimes_view(work@) == work0.drop_last() + pushed.subrange(0, j as int),
                        decreases m - j,
                    {
                        let ghost before = mimes_view(work@);
                        let p = aliases.canonical(&list[j]);
                        assert(mimes_view(list@)[j as int] == list@[j as int]@);
                        assert(p@ == pushed[j as int]);
                        work.push(p);
                        assert(mimes_view(work@) =~= before.push(pushed[j as int]));
                        assert(before.push(pushed[j as int]) =~= work0.drop_last()
                            + pushed.subrange(0, j + 1));
                        j += 1;
                    }
                    proof {
                        assert(pushed.subrange(0, m as int) =~= pushed);
                        lemma_after_expand(al, fs, done0, work0, s, t, i as int);
                        lemma_count_false_update(done0, i as int);
                    }
                } else {
                    proof {
                        assert(handled(fs, done0, t, n@)) by {
                            assert forall|k: int| 0 <= k < fs.len() && (#[trigger] fs[k]).child
                                == n@ implies done0[k] by {
                                if k < i {
                                    assert(fs[k].child != fs[i as int].child);
                                } else if i < k {
                                    assert(fs[i as int].child != fs[k].child);
                                }
                            }
                        }
                        lemma_after_pop(al, fs, done0, work0, s, t);
                    }
                }
            },
            None => {
                proof {
                    assert(handled(fs, done0, t, n@)) by {
                        assert forall|k: int| 0 <= k < fs.len() && (#[trigger] fs[k]).child
                            == n@ implies done0[k] by {
                            assert(has_key(fs, n@));
                        }
                    }
                    lemma_after_pop(al, fs, done0, work0, s, t);
                }
            },
        }
    }
    proof {
        assert(mimes_view(work@) =~= Seq::<MimeView>::empty());
        assert forall|x: MimeView| #[trigger]
            derives(al, families_map(fs), s, x) implies !directly_under(x, t) by {
            let path = choose|path: Seq<MimeView>|
                (#[trigger] is_chain(al, families_map(fs), path)) && path[0] == s && path.last()
                    == x;
            lemma_search_complete(al, fs, done@, s, t, path, path.len() - 1);
        }
    }
    false
}

} // verus!
