//! Aliases: deprecated or vendor names of MIME types, each with the name
//! that stands for it.

use crate::media_type::{lemma_text_le_reflexive, mime_le, parsed_mime, Mime, MimeView};
use crate::text::{line_is_skipped, read_lines, split_words, strings_view, words};
use vstd::prelude::*;
use vstd::std_specs::cmp::PartialEqSpecImpl;

verus! {

/// What an alias says: `alias` is another name of `mime_type`.
pub struct AliasView {
    pub alias: MimeView,
    pub mime_type: MimeView,
}

/// An alias of a MIME type.
#[derive(Debug)]
pub struct Alias {
    pub alias: Mime,
    pub mime_type: Mime,
}

impl View for Alias {
    type V = AliasView;

    open spec fn view(&self) -> AliasView {
        AliasView { alias: self.alias@, mime_type: self.mime_type@ }
    }
}

impl Clone for Alias {
    fn clone(&self) -> (r: Self)
        ensures
            r@ == self@,
    {
        Alias { alias: self.alias.clone(), mime_type: self.mime_type.clone() }
    }
}

impl PartialEq for Alias {
    fn eq(&self, other: &Alias) -> (r: bool) {
        let same_alias = self.alias == other.alias;
        let same_type = self.mime_type == other.mime_type;
        same_alias && same_type
    }
}

impl PartialEqSpecImpl for Alias {
    open spec fn obeys_eq_spec() -> bool {
        true
    }

    open spec fn eq_spec(&self, other: &Alias) -> bool {
        self@ == other@
    }
}

/// The alias that a line of the table writes: two words, each a MIME type,
/// and nothing after them.
pub open spec fn alias_of_line(line: Seq<char>) -> Option<AliasView> {
    let w = words(line);
    if w.len() == 2 {
        match (parsed_mime(w[0]), parsed_mime(w[1])) {
            (Some(alias), Some(mime_type)) => Some(AliasView { alias, mime_type }),
            _ => None,
        }
    } else {
        None
    }
}

/// `alias_of_line` as a value.
pub open spec fn alias_reader() -> spec_fn(Seq<char>) -> Option<AliasView> {
    |line: Seq<char>| alias_of_line(line)
}

/// The view of an alias that may be absent.
pub open spec fn alias_option_view(a: Option<Alias>) -> Option<AliasView> {
    match a {
        Some(a) => Some(a@),
        None => None,
    }
}

impl Alias {
    /// Makes `alias` another name of `mime_type`.
    pub fn new(alias: &Mime, mime_type: &Mime) -> (r: Alias)
        ensures
            r@ == (AliasView { alias: alias@, mime_type: mime_type@ }),
    {
        Alias { alias: alias.clone(), mime_type: mime_type.clone() }
    }

    /// Reads an alias from a line of the table.
    pub fn from_string(s: &str) -> (r: Option<Alias>)
        ensures
            alias_option_view(r) == alias_of_line(s@),
    {
        let w = split_words(s);
        if w.len() != 2 {
            return None;
        }
        assert(strings_view(w@)[0] == w@[0]@);
        assert(strings_view(w@)[1] == w@[1]@);
        let alias = match Mime::parse(w[0].as_str()) {
            Some(m) => m,
            None => { return None; },
        };
        let mime_type = match Mime::parse(w[1].as_str()) {
            Some(m) => m,
            None => { return None; },
        };
        Some(Alias { alias, mime_type })
    }

    /// Whether the two are aliases of the same name.
    pub fn is_equivalent(&self, other: &Alias) -> (r: bool)
        ensures
            r == (self@.alias == other@.alias),
    {
        self.alias == other.alias
    }
}

/// The views of a list of aliases.
pub open spec fn aliases_view(v: Seq<Alias>) -> Seq<AliasView> {
    v.map_values(|a: Alias| a@)
}

/// What the first alias of `table` with the name `m` stands for.
pub open spec fn lookup_alias(table: Seq<AliasView>, m: MimeView) -> Option<MimeView>
    decreases table.len(),
{
    if table.len() == 0 {
        None
    } else if table[0].alias == m {
        Some(table[0].mime_type)
    } else {
        lookup_alias(table.drop_first(), m)
    }
}

/// The name that stands for `m`: what `m` is an alias of, or `m` itself
/// where it is no alias. One hop only.
pub open spec fn canonical(table: Seq<AliasView>, m: MimeView) -> MimeView {
    match lookup_alias(table, m) {
        Some(c) => c,
        None => m,
    }
}

/// `sorted` with `a` put in behind the last alias whose name does not come
/// after that of `a`.
pub open spec fn insert_alias(sorted: Seq<AliasView>, a: AliasView) -> Seq<AliasView>
    decreases sorted.len(),
{
    if sorted.len() == 0 {
        seq![a]
    } else if mime_le(sorted.last().alias, a.alias) {
        sorted.push(a)
    } else {
        insert_alias(sorted.drop_last(), a).push(sorted.last())
    }
}

/// `table` in the order of the names of its aliases; aliases of the same
/// name stay in the order they have in `table`.
pub open spec fn sorted_aliases(table: Seq<AliasView>) -> Seq<AliasView>
    decreases table.len(),
{
    if table.len() == 0 {
        Seq::empty()
    } else {
        insert_alias(sorted_aliases(table.drop_last()), table.last())
    }
}

/// Putting `a` in by name is putting it in at the place `j` behind which
/// every name comes after that of `a` and before which the last one does not.
pub proof fn lemma_insert_alias_position(sorted: Seq<AliasView>, a: AliasView, j: int)
    requires
        0 <= j <= sorted.len(),
        forall|k: int| j <= k < sorted.len() ==> !mime_le((#[trigger] sorted[k]).alias, a.alias),
        j > 0 ==> mime_le(sorted[j - 1].alias, a.alias),
    ensures
        insert_alias(sorted, a) == sorted.insert(j, a),
    decreases sorted.len(),
{
    if sorted.len() == 0 {
        assert(seq![a] =~= sorted.insert(j, a));
    } else if j == sorted.len() {
        assert(sorted.push(a) =~= sorted.insert(j, a));
    } else {
        assert(!mime_le(sorted[sorted.len() - 1].alias, a.alias));
        let init = sorted.drop_last();
        assert forall|k: int| j <= k < init.len() implies !mime_le(
            (#[trigger] init[k]).alias,
            a.alias,
        ) by {
            assert(init[k] == sorted[k]);
        }
        lemma_insert_alias_position(init, a, j);
        assert(init.insert(j, a).push(sorted.last()) =~= sorted.insert(j, a));
    }
}

/// What an alias at the end of a table stands for is asked only where no
/// alias before it has the name.
pub proof fn lemma_lookup_alias_push(table: Seq<AliasView>, a: AliasView, m: MimeView)
    ensures
        lookup_alias(table.push(a), m) == match lookup_alias(table, m) {
            Some(c) => Some(c),
            None => if a.alias == m {
                Some(a.mime_type)
            } else {
                None
            },
        },
    decreases table.len(),
{
    if table.len() == 0 {
        assert(table.push(a).drop_first() =~= table);
    } else {
        assert(table.push(a)[0] == table[0]);
        assert(table.push(a).drop_first() =~= table.drop_first().push(a));
        lemma_lookup_alias_push(table.drop_first(), a, m);
    }
}

/// Putting an alias in by name answers as putting it at the end does.
pub proof fn lemma_lookup_alias_insert(sorted: Seq<AliasView>, a: AliasView, m: MimeView)
    ensures
        lookup_alias(insert_alias(sorted, a), m) == lookup_alias(sorted.push(a), m),
    decreases sorted.len(),
{
    if sorted.len() == 0 {
        assert(seq![a] =~= sorted.push(a));
    } else if mime_le(sorted.last().alias, a.alias) {
    } else {
        let init = sorted.drop_last();
        let last = sorted.last();
        assert(last.alias != a.alias) by {
            lemma_text_le_reflexive(a.alias.essence());
        }
        assert(sorted =~= init.push(last));
        lemma_lookup_alias_insert(init, a, m);
        lemma_lookup_alias_push(insert_alias(init, a), last, m);
        lemma_lookup_alias_push(init, a, m);
        lemma_lookup_alias_push(init, last, m);
        lemma_lookup_alias_push(sorted, a, m);
    }
}

/// Sorting the table changes no answer: every name stands for what it stood
/// for before.
pub proof fn lemma_sort_keeps_answers(table: Seq<AliasView>, m: MimeView)
    ensures
        lookup_alias(sorted_aliases(table), m) == lookup_alias(table, m),
    decreases table.len(),
{
    if table.len() > 0 {
        let init = table.drop_last();
        let last = table.last();
        assert(table =~= init.push(last));
        lemma_sort_keeps_answers(init, m);
        lemma_lookup_alias_insert(sorted_aliases(init), last, m);
        lemma_lookup_alias_push(sorted_aliases(init), last, m);
        lemma_lookup_alias_push(init, last, m);
    }
}

/// The table of aliases, in the order in which they were added.
pub struct AliasesList {
    aliases: Vec<Alias>,
}

impl View for AliasesList {
    type V = Seq<AliasView>;

    closed spec fn view(&self) -> Seq<AliasView> {
        aliases_view(self.aliases@)
    }
}

impl AliasesList {
    /// An empty table.
    pub fn new() -> (r: AliasesList)
        ensures
            r@ == Seq::<AliasView>::empty(),
    {
        let r = AliasesList { aliases: Vec::new() };
        assert(r@ =~= Seq::<AliasView>::empty());
        r
    }

    /// Adds an alias at the end of the table.
    pub fn add_alias(&mut self, alias: Alias)
        ensures
            final(self)@ == old(self)@.push(alias@),
    {
        self.aliases.push(alias);
        assert(self@ =~= old(self)@.push(alias@));
    }

    /// Adds aliases at the end of the table, in their order.
    pub fn add_aliases(&mut self, aliases: Vec<Alias>)
        ensures
            final(self)@ == old(self)@ + aliases_view(aliases@),
    {
        let ghost added = aliases_view(aliases@);
        let mut aliases = aliases;
        self.aliases.append(&mut aliases);
        assert(self@ =~= old(self)@ + added);
    }

    /// Sorts the table by the names of its aliases. Aliases of the same name
    /// stay in their order, so that every name stands for what it stood for.
    pub fn sort(&mut self)
        ensures
            final(self)@ == sorted_aliases(old(self)@),
            forall|m: MimeView| lookup_alias(final(self)@, m) == lookup_alias(old(self)@, m),
    {
        let n = self.aliases.len();
        let ghost all = self@;
        let mut out: Vec<Alias> = Vec::new();
        let mut i: usize = 0;
        assert(all.subrange(0, 0) =~= Seq::<AliasView>::empty());
        assert(aliases_view(out@) =~= Seq::<AliasView>::empty());
        while i < n
            invariant
                n == self.aliases@.len(),
                i <= n,
                all == self@,
                aliases_view(out@) == sorted_aliases(all.subrange(0, i as int)),
            decreases n - i,
        {
            let alias = self.aliases[i].clone();
            assert(all.subrange(0, i + 1).drop_last() =~= all.subrange(0, i as int));
            assert(all.subrange(0, i + 1).last() == alias@);
            let ghost sorted = aliases_view(out@);
            let mut j: usize = out.len();
            while j > 0 && !out[j - 1].alias.le(&alias.alias)
                invariant
                    j <= out@.len(),
                    sorted == aliases_view(out@),
                    forall|k: int|
                        j <= k < sorted.len() ==> !mime_le(
                            (#[trigger] sorted[k]).alias,
                            alias@.alias,
                        ),
                decreases j,
            {
                assert(sorted[j - 1] == out@[j - 1]@);
                j -= 1;
            }
            proof {
                if j > 0 {
                    assert(sorted[j - 1] == out@[j - 1]@);
                }
                lemma_insert_alias_position(sorted, alias@, j as int);
            }
            let ghost view = alias@;
            out.insert(j, alias);
            assert(aliases_view(out@) =~= sorted.insert(j as int, view));
            i += 1;
        }
        assert(all.subrange(0, n as int) =~= all);
        self.aliases = out;
        proof {
            assert forall|m: MimeView| lookup_alias(self@, m) == lookup_alias(all, m) by {
                lemma_sort_keeps_answers(all, m);
            }
        }
    }

    /// What `mime_type` is an alias of, if it is one: the entry that was
    /// added first decides.
    pub fn unalias_mime_type(&self, mime_type: &Mime) -> (r: Option<Mime>)
        ensures
            match r {
                Some(c) => lookup_alias(self@, mime_type@) == Some(c@),
                None => lookup_alias(self@, mime_type@) is None,
            },
    {
        let n = self.aliases.len();
        let mut i: usize = 0;
        assert(self@.subrange(0, n as int) =~= self@);
        while i < n
            invariant
                n == self.aliases@.len(),
                i <= n,
                lookup_alias(self@, mime_type@) == lookup_alias(
                    self@.subrange(i as int, n as int),
                    mime_type@,
                ),
            decreases n - i,
        {
            let ghost rest = self@.subrange(i as int, n as int);
            assert(rest[0] == self.aliases@[i as int]@);
            assert(rest.drop_first() =~= self@.subrange(i + 1, n as int));
            if self.aliases[i].alias == *mime_type {
                return Some(self.aliases[i].mime_type.clone());
            }
            i += 1;
        }
        None
    }

    /// The name that stands for `mime_type`: what it is an alias of, or a
    /// copy of `mime_type` where it is no alias.
    pub fn canonical(&self, mime_type: &Mime) -> (r: Mime)
        ensures
            r@ == canonical(self@, mime_type@),
    {
        match self.unalias_mime_type(mime_type) {
            Some(c) => c,
            None => mime_type.clone(),
        }
    }

    /// Empties the table.
    pub fn clear(&mut self)
        ensures
            final(self)@ == Seq::<AliasView>::empty(),
    {
        self.aliases.clear();
        assert(self@ =~= Seq::<AliasView>::empty());
    }
}

/// Reads the aliases that the lines of a table write. Empty lines, comments
/// and lines that write no alias are passed over.
pub fn aliases_from_lines(lines: &Vec<String>) -> (r: Vec<Alias>)
    ensures
        aliases_view(r@) == read_lines(strings_view(lines@), alias_reader()),
{
    let n = lines.len();
    let ghost all = strings_view(lines@);
    let mut out: Vec<Alias> = Vec::new();
    let mut i: usize = 0;
    assert(all.subrange(0, 0) =~= Seq::<Seq<char>>::empty());
    assert(aliases_view(out@) =~= Seq::<AliasView>::empty());
    while i < n
        invariant
            n == lines@.len(),
            i <= n,
            all == strings_view(lines@),
            aliases_view(out@) == read_lines(all.subrange(0, i as int), alias_reader()),
        decreases n - i,
    {
        let line = lines[i].as_str();
        assert(all.subrange(0, i + 1).drop_last() =~= all.subrange(0, i as int));
        assert(all.subrange(0, i + 1).last() == line@);
        if !line_is_skipped(line) {
            match Alias::from_string(line) {
                Some(a) => {
                    let ghost before = aliases_view(out@);
                    let ghost view = a@;
                    out.push(a);
                    assert(aliases_view(out@) =~= before.push(view));
                },
                None => {},
            }
        }
        i += 1;
    }
    assert(all.subrange(0, n as int) =~= all);
    out
}

} // verus!
