//! Subclasses: which MIME types are special cases of which others.

use crate::media_type::{mimes_view, parsed_mime, Mime, MimeView};
use crate::text::{line_is_skipped, read_lines, split_words, strings_view, words};
use vstd::prelude::*;
use vstd::std_specs::cmp::PartialEqSpecImpl;

verus! {

/// What a subclass record says: `mime_type` is a special case of `parent_type`.
pub struct SubclassView {
    pub mime_type: MimeView,
    pub parent_type: MimeView,
}

/// A subclass record.
#[derive(Debug)]
pub struct Subclass {
    mime_type: Mime,
    parent_type: Mime,
}

impl View for Subclass {
    type V = SubclassView;

    closed spec fn view(&self) -> SubclassView {
        SubclassView { mime_type: self.mime_type@, parent_type: self.parent_type@ }
    }
}

impl Clone for Subclass {
    fn clone(&self) -> (r: Self)
        ensures
            r@ == self@,
    {
        Subclass { mime_type: self.mime_type.clone(), parent_type: self.parent_type.clone() }
    }
}

impl PartialEq for Subclass {
    fn eq(&self, other: &Subclass) -> (r: bool) {
        let same_type = self.mime_type == other.mime_type;
        let same_parent = self.parent_type == other.parent_type;
        same_type && same_parent
    }
}

impl PartialEqSpecImpl for Subclass {
    open spec fn obeys_eq_spec() -> bool {
        true
    }

    open spec fn eq_spec(&self, other: &Subclass) -> bool {
        self@ == other@
    }
}

/// The record that a line of the table writes: two words, each a MIME type,
/// and nothing after them.
pub open spec fn subclass_of_line(line: Seq<char>) -> Option<SubclassView> {
    let w = words(line);
    if w.len() == 2 {
        match (parsed_mime(w[0]), parsed_mime(w[1])) {
            (Some(mime_type), Some(parent_type)) => Some(SubclassView { mime_type, parent_type }),
            _ => None,
        }
    } else {
        None
    }
}

/// `subclass_of_line` as a value.
pub open spec fn subclass_reader() -> spec_fn(Seq<char>) -> Option<SubclassView> {
    |line: Seq<char>| subclass_of_line(line)
}

/// The view of a record that may be absent.
pub open spec fn subclass_option_view(s: Option<Subclass>) -> Option<SubclassView> {
    match s {
        Some(s) => Some(s@),
        None => None,
    }
}

/// The views of a list of records.
pub open spec fn subclasses_view(v: Seq<Subclass>) -> Seq<SubclassView> {
    v.map_values(|s: Subclass| s@)
}

impl Subclass {
    /// Makes `mime_type` a special case of `parent_type`.
    pub fn new(mime_type: &Mime, parent_type: &Mime) -> (r: Subclass)
        ensures
            r@ == (SubclassView { mime_type: mime_type@, parent_type: parent_type@ }),
    {
        Subclass { mime_type: mime_type.clone(), parent_type: parent_type.clone() }
    }

    /// Reads a record from a line of the table.
    pub fn from_string(s: &str) -> (r: Option<Subclass>)
        ensures
            subclass_option_view(r) == subclass_of_line(s@),
    {
        let w = split_words(s);
        if w.len() != 2 {
            return None;
        }
        assert(strings_view(w@)[0] == w@[0]@);
        assert(strings_view(w@)[1] == w@[1]@);
        let mime_type = match Mime::parse(w[0].as_str()) {
            Some(m) => m,
            None => { return None; },
        };
        let parent_type = match Mime::parse(w[1].as_str()) {
            Some(m) => m,
            None => { return None; },
        };
        Some(Subclass { mime_type, parent_type })
    }
}

/// A MIME type with the types it is a direct special case of.
pub struct FamilyView {
    pub child: MimeView,
    pub parents: Seq<MimeView>,
}

/// A MIME type with its direct parents, in the order in which they were added.
pub struct Family {
    child: Mime,
    parents: Vec<Mime>,
}

impl View for Family {
    type V = FamilyView;

    closed spec fn view(&self) -> FamilyView {
        FamilyView { child: self.child@, parents: mimes_view(self.parents@) }
    }
}

/// The views of a list of families.
pub open spec fn families_view(v: Seq<Family>) -> Seq<FamilyView> {
    v.map_values(|f: Family| f@)
}

/// Whether `k` has a family in `fs`.
pub open spec fn has_key(fs: Seq<FamilyView>, k: MimeView) -> bool {
    exists|i: int| 0 <= i < fs.len() && (#[trigger] fs[i]).child == k
}

/// Where the family of `k` stands in `fs`.
pub open spec fn key_index(fs: Seq<FamilyView>, k: MimeView) -> int {
    choose|i: int| 0 <= i < fs.len() && (#[trigger] fs[i]).child == k
}

/// No two families of `fs` belong to the same type.
pub open spec fn distinct_keys(fs: Seq<FamilyView>) -> bool {
    forall|i: int, j: int|
        0 <= i < j < fs.len() ==> (#[trigger] fs[i]).child != (#[trigger] fs[j]).child
}

/// The map from each type of `fs` to its parents.
pub open spec fn families_map(fs: Seq<FamilyView>) -> Map<MimeView, Seq<MimeView>> {
    Map::new(|k: MimeView| has_key(fs, k), |k: MimeView| fs[key_index(fs, k)].parents)
}

/// `list` with `p` at its end, unless `p` is in it already.
pub open spec fn with_parent(list: Seq<MimeView>, p: MimeView) -> Seq<MimeView> {
    if list.contains(p) {
        list
    } else {
        list.push(p)
    }
}

/// The parents that `map` gives `k`; none where `k` is not in it.
pub open spec fn parents_in(map: Map<MimeView, Seq<MimeView>>, k: MimeView) -> Seq<MimeView> {
    if map.contains_key(k) {
        map[k]
    } else {
        Seq::empty()
    }
}

/// `map` after the record `s`: the parent of `s` joins the parents of its type.
pub open spec fn record(map: Map<MimeView, Seq<MimeView>>, s: SubclassView) -> Map<
    MimeView,
    Seq<MimeView>,
> {
    map.insert(s.mime_type, with_parent(parents_in(map, s.mime_type), s.parent_type))
}

/// `map` after the records `records`, taken in order.
pub open spec fn record_all(map: Map<MimeView, Seq<MimeView>>, records: Seq<SubclassView>) -> Map<
    MimeView,
    Seq<MimeView>,
>
    decreases records.len(),
{
    if records.len() == 0 {
        map
    } else {
        record(record_all(map, records.drop_last()), records.last())
    }
}

/// With distinct keys, each family is found where it stands.
pub proof fn lemma_key_index(fs: Seq<FamilyView>, i: int)
    requires
        distinct_keys(fs),
        0 <= i < fs.len(),
    ensures
        has_key(fs, fs[i].child),
        key_index(fs, fs[i].child) == i,
{
    let k = fs[i].child;
    let j = key_index(fs, k);
    assert(0 <= j < fs.len() && fs[j].child == k);
    if j < i {
        assert(fs[j].child != fs[i].child);
    } else if i < j {
        assert(fs[i].child != fs[j].child);
    }
}

/// A family for a new type extends the map by that type.
pub proof fn lemma_map_push(fs: Seq<FamilyView>, f: FamilyView)
    requires
        distinct_keys(fs),
        !has_key(fs, f.child),
    ensures
        distinct_keys(fs.push(f)),
        families_map(fs.push(f)) == families_map(fs).insert(f.child, f.parents),
{
    let fs2 = fs.push(f);
    assert(distinct_keys(fs2)) by {
        assert forall|i: int, j: int| 0 <= i < j < fs2.len() implies (#[trigger] fs2[i]).child != (
        #[trigger] fs2[j]).child by {
            if j < fs.len() {
                assert(fs[i].child != fs[j].child);
            } else {
                assert(fs2[i] == fs[i]);
            }
        }
    }
    let m1 = families_map(fs2);
    let m2 = families_map(fs).insert(f.child, f.parents);
    assert forall|k: MimeView| m1.contains_key(k) == m2.contains_key(k) by {
        if has_key(fs2, k) {
            let i = key_index(fs2, k);
            if i < fs.len() {
                assert(fs[i].child == k);
            }
        }
        if has_key(fs, k) {
            let i = key_index(fs, k);
            assert(fs2[i].child == k);
        }
        if k == f.child {
            assert(fs2[fs.len() as int].child == k);
        }
    }
    assert forall|k: MimeView| m1.contains_key(k) implies m1[k] == m2[k] by {
        let i = key_index(fs2, k);
        lemma_key_index(fs2, i);
        if i < fs.len() {
            assert(fs[i] == fs2[i]);
            lemma_key_index(fs, i);
        }
    }
    assert(m1 =~= m2);
}

/// New parents for a type that has a family replace its entry in the map.
pub proof fn lemma_map_update(fs: Seq<FamilyView>, i: int, parents: Seq<MimeView>)
    requires
        distinct_keys(fs),
        0 <= i < fs.len(),
    ensures
        distinct_keys(fs.update(i, FamilyView { child: fs[i].child, parents })),
        families_map(fs.update(i, FamilyView { child: fs[i].child, parents })) == families_map(
            fs,
        ).insert(fs[i].child, parents),
{
    let f = FamilyView { child: fs[i].child, parents };
    let fs2 = fs.update(i, f);
    assert(distinct_keys(fs2)) by {
        assert forall|a: int, b: int| 0 <= a < b < fs2.len() implies (#[trigger] fs2[a]).child != (
        #[trigger] fs2[b]).child by {
            assert(fs[a].child != fs[b].child);
        }
    }
    let m1 = families_map(fs2);
    let m2 = families_map(fs).insert(fs[i].child, parents);
    assert forall|k: MimeView| m1.contains_key(k) == m2.contains_key(k) by {
        if has_key(fs2, k) {
            let j = key_index(fs2, k);
            assert(fs[j].child == k);
        }
        if has_key(fs, k) {
            let j = key_index(fs, k);
            assert(fs2[j].child == k);
        }
        if k == fs[i].child {
            assert(fs2[i].child == k);
        }
    }
    assert forall|k: MimeView| m1.contains_key(k) implies m1[k] == m2[k] by {
        let j = key_index(fs2, k);
        lemma_key_index(fs2, j);
        assert(fs[j].child == k);
        lemma_key_index(fs, j);
    }
    assert(m1 =~= m2);
}

/// The table of subclasses: for each MIME type that has any, its direct parents.
pub struct ParentsMap {
    families: Vec<Family>,
}

impl View for ParentsMap {
    type V = Map<MimeView, Seq<MimeView>>;

    open spec fn view(&self) -> Map<MimeView, Seq<MimeView>> {
        families_map(self.families())
    }
}

/// Tests whether `p` is in `list`.
pub fn contains_mime(list: &Vec<Mime>, p: &Mime) -> (r: bool)
    ensures
        r == mimes_view(list@).contains(p@),
{
    let n = list.len();
    let mut i: usize = 0;
    while i < n
        invariant
            n == list@.len(),
            i <= n,
            forall|j: int| 0 <= j < i ==> mimes_view(list@)[j] != p@,
        decreases n - i,
    {
        if list[i] == *p {
            assert(mimes_view(list@)[i as int] == p@);
            return true;
        }
        i += 1;
    }
    false
}

/// Copies a list of MIME types.
pub fn clone_mimes(list: &Vec<Mime>) -> (r: Vec<Mime>)
    ensures
        mimes_view(r@) == mimes_view(list@),
{
    let n = list.len();
    let mut out: Vec<Mime> = Vec::new();
    let mut i: usize = 0;
    assert(mimes_view(out@) =~= mimes_view(list@).subrange(0, 0));
    while i < n
        invariant
            n == list@.len(),
            i <= n,
            mimes_view(out@) == mimes_view(list@).subrange(0, i as int),
        decreases n - i,
    {
        let ghost before = mimes_view(out@);
        let m = list[i].clone();
        out.push(m);
        assert(mimes_view(out@) =~= before.push(m@));
        assert(before.push(m@) =~= mimes_view(list@).subrange(0, i + 1));
        i += 1;
    }
    assert(mimes_view(list@).subrange(0, n as int) =~= mimes_view(list@));
    out
}

impl ParentsMap {
    #[verifier::type_invariant]
    spec fn keys_are_distinct(self) -> bool {
        distinct_keys(families_view(self.families@))
    }

    /// The families of the table, in the order in which their types came in.
    pub closed spec fn families(&self) -> Seq<FamilyView> {
        families_view(self.families@)
    }

    /// An empty table.
    pub fn new() -> (r: ParentsMap)
        ensures
            r.families() == Seq::<FamilyView>::empty(),
            r@ == Map::<MimeView, Seq<MimeView>>::empty(),
    {
        let r = ParentsMap { families: Vec::new() };
        assert(r.families() =~= Seq::<FamilyView>::empty());
        assert(r@ =~= Map::<MimeView, Seq<MimeView>>::empty());
        r
    }

    /// How many types have a family.
    pub fn len(&self) -> (r: usize)
        ensures
            r == self.families().len(),
            distinct_keys(self.families()),
    {
        proof {
            use_type_invariant(self);
        }
        self.families.len()
    }

    /// Where the family of `mime_type` stands, if it has one.
    pub fn position(&self, mime_type: &Mime) -> (r: Option<usize>)
        ensures
            distinct_keys(self.families()),
            match r {
                Some(i) => i < self.families().len() && self.families()[i as int].child
                    == mime_type@,
                None => !has_key(self.families(), mime_type@),
            },
    {
        proof {
            use_type_invariant(self);
        }
        let n = self.families.len();
        let mut i: usize = 0;
        while i < n
            invariant
                n == self.families@.len(),
                i <= n,
                distinct_keys(self.families()),
                forall|j: int| 0 <= j < i ==> (#[trigger] self.families()[j]).child != mime_type@,
            decreases n - i,
        {
            if self.families[i].child == *mime_type {
                assert(self.families()[i as int] == self.families@[i as int]@);
                return Some(i);
            }
            assert(self.families()[i as int] == self.families@[i as int]@);
            i += 1;
        }
        None
    }

    /// The parents of the family at `i`.
    pub fn parents_at(&self, i: usize) -> (r: &Vec<Mime>)
        requires
            i < self.families().len(),
        ensures
            mimes_view(r@) == self.families()[i as int].parents,
    {
        &self.families[i].parents
    }

    /// Takes a record into the table: its parent joins the parents of its
    /// type, unless it is among them already.
    pub fn add_subclass(&mut self, subclass: Subclass)
        ensures
            final(self)@ == record(old(self)@, subclass@),
    {
        proof {
            use_type_invariant(&*self);
        }
        let ghost fs = self.families();
        let found = self.position(&subclass.mime_type);
        let mut taken = ParentsMap { families: Vec::new() };
        core::mem::swap(self, &mut taken);
        let mut families = taken.families;
        match found {
            Some(i) => {
                proof {
                    lemma_key_index(fs, i as int);
                }
                if !contains_mime(&families[i].parents, &subclass.parent_type) {
                    let mut parents = clone_mimes(&families[i].parents);
                    let ghost before = mimes_view(parents@);
                    parents.push(subclass.parent_type);
                    assert(mimes_view(parents@) =~= before.push(subclass@.parent_type));
                    let family = Family { child: subclass.mime_type, parents };
                    proof {
                        lemma_map_update(fs, i as int, family@.parents);
                    }
                    families.set(i, family);
                    assert(families_view(families@) =~= fs.update(i as int, family@));
                    *self = ParentsMap { families };
                } else {
                    *self = ParentsMap { families };
                    assert(self@ =~= record(old(self)@, subclass@));
                }
            },
            None => {
                let mut parents: Vec<Mime> = Vec::new();
                parents.push(subclass.parent_type);
                assert(mimes_view(parents@) =~= Seq::<MimeView>::empty().push(
                    subclass@.parent_type,
                ));
                let family = Family { child: subclass.mime_type, parents };
                proof {
                    lemma_map_push(fs, family@);
                }
                families.push(family);
                assert(families_view(families@) =~= fs.push(family@));
                *self = ParentsMap { families };
            },
        }
    }

    /// Takes records into the table, in their order.
    pub fn add_subclasses(&mut self, subclasses: Vec<Subclass>)
        ensures
            final(self)@ == record_all(old(self)@, subclasses_view(subclasses@)),
    {
        let n = subclasses.len();
        let ghost all = subclasses_view(subclasses@);
        let mut i: usize = 0;
        assert(all.subrange(0, 0) =~= Seq::<SubclassView>::empty());
        while i < n
            invariant
                n == subclasses@.len(),
                i <= n,
                all == subclasses_view(subclasses@),
                self@ == record_all(old(self)@, all.subrange(0, i as int)),
            decreases n - i,
        {
            assert(all.subrange(0, i + 1).drop_last() =~= all.subrange(0, i as int));
            assert(all.subrange(0, i + 1).last() == subclasses@[i as int]@);
            self.add_subclass(subclasses[i].clone());
            i += 1;
        }
        assert(all.subrange(0, n as int) =~= all);
    }

    /// The direct parents of `mime_type`, if it has any.
    pub fn lookup(&self, mime_type: &Mime) -> (r: Option<&Vec<Mime>>)
        ensures
            r is Some <==> self@.contains_key(mime_type@),
            r matches Some(v) ==> mimes_view(v@) == self@[mime_type@],
    {
        match self.position(mime_type) {
            Some(i) => {
                proof {
                    lemma_key_index(self.families(), i as int);
                }
                Some(&self.families[i].parents)
            },
            None => None,
        }
    }

    /// Empties the table.
    pub fn clear(&mut self)
        ensures
            final(self).families() == Seq::<FamilyView>::empty(),
            final(self)@ == Map::<MimeView, Seq<MimeView>>::empty(),
    {
        *self = ParentsMap { families: Vec::new() };
        assert(self.families() =~= Seq::<FamilyView>::empty());
        assert(self@ =~= Map::<MimeView, Seq<MimeView>>::empty());
    }
}

/// Reads the records that the lines of a table write. Empty lines, comments
/// and lines that write no record are passed over.
pub fn subclasses_from_lines(lines: &Vec<String>) -> (r: Vec<Subclass>)
    ensures
        subclasses_view(r@) == read_lines(strings_view(lines@), subclass_reader()),
{
    let n = lines.len();
    let ghost all = strings_view(lines@);
    let mut out: Vec<Subclass> = Vec::new();
    let mut i: usize = 0;
    assert(all.subrange(0, 0) =~= Seq::<Seq<char>>::empty());
    assert(subclasses_view(out@) =~= Seq::<SubclassView>::empty());
    while i < n
        invariant
            n == lines@.len(),
            i <= n,
            all == strings_view(lines@),
            subclasses_view(out@) == read_lines(all.subrange(0, i as int), subclass_reader()),
        decreases n - i,
    {
        let line = lines[i].as_str();
        assert(all.subrange(0, i + 1).drop_last() =~= all.subrange(0, i as int));
        assert(all.subrange(0, i + 1).last() == line@);
        if !line_is_skipped(line) {
            match Subclass::from_string(line) {
                Some(s) => {
                    let ghost before = subclasses_view(out@);
                    let ghost view = s@;
                    out.push(s);
                    assert(subclasses_view(out@) =~= before.push(view));
                },
                None => {},
            }
        }
        i += 1;
    }
    assert(all.subrange(0, n as int) =~= all);
    out
}

} // verus!
