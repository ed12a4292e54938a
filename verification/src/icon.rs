//! Icons: the names of the icons that stand for MIME types.

use crate::media_type::{lemma_text_le_reflexive, mime_le, parsed_mime, Mime, MimeView};
use crate::text::{fields, line_is_skipped, read_lines, split_fields, strings_view};
use vstd::prelude::*;
use vstd::std_specs::cmp::PartialEqSpecImpl;

verus! {

/// What an icon record says: `icon_name` is the icon of `mime_type`.
pub struct IconView {
    pub icon_name: Seq<char>,
    pub mime_type: MimeView,
}

/// The name of the icon of a MIME type.
#[derive(Debug)]
pub struct Icon {
    icon_name: String,
    mime_type: Mime,
}

impl View for Icon {
    type V = IconView;

    closed spec fn view(&self) -> IconView {
        IconView { icon_name: self.icon_name@, mime_type: self.mime_type@ }
    }
}

impl Clone for Icon {
    fn clone(&self) -> (r: Self)
        ensures
            r@ == self@,
    {
        Icon { icon_name: self.icon_name.clone(), mime_type: self.mime_type.clone() }
    }
}

impl PartialEq for Icon {
    fn eq(&self, other: &Icon) -> (r: bool) {
        let same_name = self.icon_name == other.icon_name;
        let same_type = self.mime_type == other.mime_type;
        same_name && same_type
    }
}

impl PartialEqSpecImpl for Icon {
    open spec fn obeys_eq_spec() -> bool {
        true
    }

    open spec fn eq_spec(&self, other: &Icon) -> bool {
        self@ == other@
    }
}

/// The record that a line of the table writes: a MIME type, a colon and a
/// name that is not empty, and nothing after them.
pub open spec fn icon_of_line(line: Seq<char>) -> Option<IconView> {
    let f = fields(line, ':');
    if f.len() == 2 && f[1].len() > 0 {
        match parsed_mime(f[0]) {
            Some(mime_type) => Some(IconView { icon_name: f[1], mime_type }),
            None => None,
        }
    } else {
        None
    }
}

/// `icon_of_line` as a value.
pub open spec fn icon_reader() -> spec_fn(Seq<char>) -> Option<IconView> {
    |line: Seq<char>| icon_of_line(line)
}

/// The view of a record that may be absent.
pub open spec fn icon_option_view(i: Option<Icon>) -> Option<IconView> {
    match i {
        Some(i) => Some(i@),
        None => None,
    }
}

/// The views of a list of records.
pub open spec fn icons_view(v: Seq<Icon>) -> Seq<IconView> {
    v.map_values(|i: Icon| i@)
}

/// The icon name of the first record of `icons` for `m`.
pub open spec fn lookup_icon(icons: Seq<IconView>, m: MimeView) -> Option<Seq<char>>
    decreases icons.len(),
{
    if icons.len() == 0 {
        None
    } else if icons[0].mime_type == m {
        Some(icons[0].icon_name)
    } else {
        lookup_icon(icons.drop_first(), m)
    }
}

impl Icon {
    /// Makes `icon_name` the icon of `mime_type`.
    pub fn new(icon_name: &str, mime_type: &Mime) -> (r: Icon)
        ensures
            r@ == (IconView { icon_name: icon_name@, mime_type: mime_type@ }),
    {
        Icon { icon_name: icon_name.to_owned(), mime_type: mime_type.clone() }
    }

    /// Reads a record from a line of the table.
    pub fn from_string(s: &str) -> (r: Option<Icon>)
        ensures
            icon_option_view(r) == icon_of_line(s@),
    {
        let f = split_fields(s, ':');
        if f.len() != 2 {
            return None;
        }
        assert(strings_view(f@)[0] == f@[0]@);
        assert(strings_view(f@)[1] == f@[1]@);
        let mime_type = match Mime::parse(f[0].as_str()) {
            Some(m) => m,
            None => { return None; },
        };
        if f[1].as_str().unicode_len() == 0 {
            return None;
        }
        Some(Icon { icon_name: f[1].clone(), mime_type })
    }
}

/// The icon name of the first record of `icons` for `mime_type`.
pub fn find_icon(icons: &[Icon], mime_type: &Mime) -> (r: Option<String>)
    ensures
        match r {
            Some(name) => lookup_icon(icons_view(icons@), mime_type@) == Some(name@),
            None => lookup_icon(icons_view(icons@), mime_type@) is None,
        },
{
    let n = icons.len();
    let ghost all = icons_view(icons@);
    let mut i: usize = 0;
    assert(all.subrange(0, n as int) =~= all);
    while i < n
        invariant
            n == icons@.len(),
            i <= n,
            all == icons_view(icons@),
            lookup_icon(all, mime_type@) == lookup_icon(
                all.subrange(i as int, n as int),
                mime_type@,
            ),
        decreases n - i,
    {
        let ghost rest = all.subrange(i as int, n as int);
        assert(rest[0] == icons@[i as int]@);
        assert(rest.drop_first() =~= all.subrange(i + 1, n as int));
        if icons[i].mime_type == *mime_type {
            return Some(icons[i].icon_name.clone());
        }
        i += 1;
    }
    None
}

/// `sorted` with `x` put in behind the last record whose MIME type does not
/// come after that of `x`.
pub open spec fn insert_icon(sorted: Seq<IconView>, x: IconView) -> Seq<IconView>
    decreases sorted.len(),
{
    if sorted.len() == 0 {
        seq![x]
    } else if mime_le(sorted.last().mime_type, x.mime_type) {
        sorted.push(x)
    } else {
        insert_icon(sorted.drop_last(), x).push(sorted.last())
    }
}

/// `icons` in the order of their MIME types; records of the same type stay
/// in the order they have in `icons`.
pub open spec fn sorted_icons(icons: Seq<IconView>) -> Seq<IconView>
    decreases icons.len(),
{
    if icons.len() == 0 {
        Seq::empty()
    } else {
        insert_icon(sorted_icons(icons.drop_last()), icons.last())
    }
}

/// Putting `x` in by type is putting it in at the place `j` behind which
/// every type comes after that of `x` and before which the last one does not.
pub proof fn lemma_insert_icon_position(sorted: Seq<IconView>, x: IconView, j: int)
    requires
        0 <= j <= sorted.len(),
        forall|k: int|
            j <= k < sorted.len() ==> !mime_le((#[trigger] sorted[k]).mime_type, x.mime_type),
        j > 0 ==> mime_le(sorted[j - 1].mime_type, x.mime_type),
    ensures
        insert_icon(sorted, x) == sorted.insert(j, x),
    decreases sorted.len(),
{
    if sorted.len() == 0 {
        assert(seq![x] =~= sorted.insert(j, x));
    } else if j == sorted.len() {
        assert(sorted.push(x) =~= sorted.insert(j, x));
    } else {
        assert(!mime_le(sorted[sorted.len() - 1].mime_type, x.mime_type));
        let init = sorted.drop_last();
        assert forall|k: int| j <= k < init.len() implies !mime_le(
            (#[trigger] init[k]).mime_type,
            x.mime_type,
        ) by {
            assert(init[k] == sorted[k]);
        }
        lemma_insert_icon_position(init, x, j);
        assert(init.insert(j, x).push(sorted.last()) =~= sorted.insert(j, x));
    }
}

/// The record at the end of a list is asked only where no record before it
/// is for the type.
pub proof fn lemma_lookup_icon_push(icons: Seq<IconView>, x: IconView, m: MimeView)
    ensures
        lookup_icon(icons.push(x), m) == match lookup_icon(icons, m) {
            Some(name) => Some(name),
            None => if x.mime_type == m {
                Some(x.icon_name)
            } else {
                None
            },
        },
    decreases icons.len(),
{
    if icons.len() == 0 {
        assert(icons.push(x).drop_first() =~= icons);
    } else {
        assert(icons.push(x)[0] == icons[0]);
        assert(icons.push(x).drop_first() =~= icons.drop_first().push(x));
        lemma_lookup_icon_push(icons.drop_first(), x, m);
    }
}

/// Putting a record in by type answers as putting it at the end does.
pub proof fn lemma_lookup_icon_insert(sorted: Seq<IconView>, x: IconView, m: MimeView)
    ensures
        lookup_icon(insert_icon(sorted, x), m) == lookup_icon(sorted.push(x), m),
    decreases sorted.len(),
{
    if sorted.len() == 0 {
        assert(seq![x] =~= sorted.push(x));
    } else if mime_le(sorted.last().mime_type, x.mime_type) {
    } else {
        let init = sorted.drop_last();
        let last = sorted.last();
        assert(last.mime_type != x.mime_type) by {
            lemma_text_le_reflexive(x.mime_type.essence());
        }
        assert(sorted =~= init.push(last));
        lemma_lookup_icon_insert(init, x, m);
        lemma_lookup_icon_push(insert_icon(init, x), last, m);
        lemma_lookup_icon_push(init, x, m);
        lemma_lookup_icon_push(init, last, m);
        lemma_lookup_icon_push(sorted, x, m);
    }
}

/// Sorting a list of records changes no answer: every type has the icon it
/// had before.
pub proof fn lemma_sort_keeps_icons(icons: Seq<IconView>, m: MimeView)
    ensures
        lookup_icon(sorted_icons(icons), m) == lookup_icon(icons, m),
    decreases icons.len(),
{
    if icons.len() > 0 {
        let init = icons.drop_last();
        let last = icons.last();
        assert(icons =~= init.push(last));
        lemma_sort_keeps_icons(init, m);
        lemma_lookup_icon_insert(sorted_icons(init), last, m);
        lemma_lookup_icon_push(sorted_icons(init), last, m);
        lemma_lookup_icon_push(init, last, m);
    }
}

/// Sorts records by their MIME types. Records of the same type stay in
/// their order.
pub fn sort_icons(icons: Vec<Icon>) -> (r: Vec<Icon>)
    ensures
        icons_view(r@) == sorted_icons(icons_view(icons@)),
        forall|m: MimeView|
            #[trigger] lookup_icon(icons_view(r@), m) == lookup_icon(icons_view(icons@), m),
{
    let n = icons.len();
    let ghost all = icons_view(icons@);
    let mut out: Vec<Icon> = Vec::new();
    let mut i: usize = 0;
    assert(all.subrange(0, 0) =~= Seq::<IconView>::empty());
    assert(icons_view(out@) =~= Seq::<IconView>::empty());
    while i < n
        invariant
            n == icons@.len(),
            i <= n,
            all == icons_view(icons@),
            icons_view(out@) == sorted_icons(all.subrange(0, i as int)),
        decreases n - i,
    {
        let icon = icons[i].clone();
        assert(all.subrange(0, i + 1).drop_last() =~= all.subrange(0, i as int));
        assert(all.subrange(0, i + 1).last() == icon@);
        let ghost sorted = icons_view(out@);
        let mut j: usize = out.len();
        while j > 0 && !out[j - 1].mime_type.le(&icon.mime_type)
            invariant
                j <= out@.len(),
                sorted == icons_view(out@),
                forall|k: int|
                    j <= k < sorted.len() ==> !mime_le(
                        (#[trigger] sorted[k]).mime_type,
                        icon@.mime_type,
                    ),
            decreases j,
        {
            assert(sorted[j - 1] == out@[j - 1]@);
            j -= 1;
        }
        proof {
            if j > 0 {
                assert(sorted[j - 1] == out@[j - 1]@);
            }
            lemma_insert_icon_position(sorted, icon@, j as int);
        }
        let ghost view = icon@;
        out.insert(j, icon);
        assert(icons_view(out@) =~= sorted.insert(j as int, view));
        i += 1;
    }
    assert(all.subrange(0, n as int) =~= all);
    proof {
        assert forall|m: MimeView| lookup_icon(icons_view(out@), m) == lookup_icon(all, m) by {
            lemma_sort_keeps_icons(all, m);
        }
    }
    out
}

/// The records that the lines of a table write, in the order of their MIME
/// types.
pub open spec fn icons_of_lines(lines: Seq<Seq<char>>) -> Seq<IconView> {
    sorted_icons(read_lines(lines, icon_reader()))
}

/// Reads the records that the lines of a table write, and sorts them by
/// their MIME types. Empty lines, comments and lines that write no record
/// are passed over.
pub fn icons_from_lines(lines: &Vec<String>) -> (r: Vec<Icon>)
    ensures
        icons_view(r@) == icons_of_lines(strings_view(lines@)),
{
    sort_icons(read_icons(lines))
}

/// Reads the records that the lines of a table write, in the order of the lines.
fn read_icons(lines: &Vec<String>) -> (r: Vec<Icon>)
    ensures
        icons_view(r@) == read_lines(strings_view(lines@), icon_reader()),
{
    let n = lines.len();
    let ghost all = strings_view(lines@);
    let mut out: Vec<Icon> = Vec::new();
    let mut i: usize = 0;
    assert(all.subrange(0, 0) =~= Seq::<Seq<char>>::empty());
    assert(icons_view(out@) =~= Seq::<IconView>::empty());
    while i < n
        invariant
            n == lines@.len(),
            i <= n,
            all == strings_view(lines@),
            icons_view(out@) == read_lines(all.subrange(0, i as int), icon_reader()),
        decreases n - i,
    {
        let line = lines[i].as_str();
        assert(all.subrange(0, i + 1).drop_last() =~= all.subrange(0, i as int));
        assert(all.subrange(0, i + 1).last() == line@);
        if !line_is_skipped(line) {
            match Icon::from_string(line) {
                Some(icon) => {
                    let ghost before = icons_view(out@);
                    let ghost view = icon@;
                    out.push(icon);
                    assert(icons_view(out@) =~= before.push(view));
                },
                None => {},
            }
        }
        i += 1;
    }
    assert(all.subrange(0, n as int) =~= all);
    out
}

} // verus!
