//! Content sniffing: rules that look for byte patterns in the first bytes of
//! a file, grouped in entries that name a MIME type and a priority.

use crate::media_type::{Mime, MimeView};
use crate::text::{parse_u32, u32_of};
use core::str::Utf8Error;
use vstd::prelude::*;
use vstd::utf8::{decode_utf8, valid_utf8};

verus! {

/// What a magic rule says.
pub struct RuleView {
    /// Depth of the rule in the tree of its entry; 0 for a root.
    pub indent: u32,
    /// First position at which the value may start.
    pub start_offset: u32,
    /// The bytes looked for.
    pub value: Seq<u8>,
    /// Where present, the bits of each byte that are compared.
    pub mask: Option<Seq<u8>>,
    /// Width of the words the value is made of; kept, and not used in matching.
    pub word_size: u32,
    /// Number of positions, from `start_offset` on, at which the value may start.
    pub range_length: u32,
}

/// Whether `a` and `b` agree in every bit that `mask` selects.
pub open spec fn masked_eq(a: Seq<u8>, b: Seq<u8>, mask: Seq<u8>) -> bool {
    a.len() == b.len() && forall|j: int|
        0 <= j < a.len() ==> (#[trigger] a[j] & mask[j]) == (b[j] & mask[j])
}

impl RuleView {
    /// A mask, where there is one, is as long as the value.
    pub open spec fn well_formed(self) -> bool {
        self.mask matches Some(m) ==> m.len() == self.value.len()
    }

    /// Whether the window `w` holds the value, under the mask if there is one.
    pub open spec fn window_matches(self, w: Seq<u8>) -> bool {
        match self.mask {
            Some(m) => masked_eq(w, self.value, m),
            None => w == self.value,
        }
    }

    /// Whether the value stands in `data` at position `i`.
    pub open spec fn matches_at(self, data: Seq<u8>, i: int) -> bool {
        0 <= i && i + self.value.len() <= data.len() && self.window_matches(
            data.subrange(i, i + self.value.len()),
        )
    }

    /// Whether the value stands in `data` at one of the positions
    /// `start_offset .. start_offset + range_length`.
    pub open spec fn matches(self, data: Seq<u8>) -> bool {
        exists|i: int|
            self.start_offset <= i < self.start_offset + self.range_length
                && #[trigger] self.matches_at(data, i)
    }

    /// One more than the last position of `data` that the rule may read.
    pub open spec fn extent(self) -> nat {
        (self.start_offset + self.range_length + self.value.len()) as nat
    }
}

/// A rule of a magic entry: a byte pattern, where to look for it, and its
/// depth in the entry's tree of rules.
#[derive(Debug)]
pub struct MagicRule {
    indent: u32,
    start_offset: u32,
    value: Vec<u8>,
    mask: Option<Vec<u8>>,
    word_size: u32,
    range_length: u32,
}

impl View for MagicRule {
    type V = RuleView;

    closed spec fn view(&self) -> RuleView {
        RuleView {
            indent: self.indent,
            start_offset: self.start_offset,
            value: self.value@,
            mask: match self.mask {
                Some(m) => Some(m@),
                None => None,
            },
            word_size: self.word_size,
            range_length: self.range_length,
        }
    }
}

/// Tests whether `a` and `b` agree in every bit that `mask` selects.
pub fn masked_slices_are_equal(a: &[u8], b: &[u8], mask: &[u8]) -> (r: bool)
    requires
        a@.len() == b@.len(),
        a@.len() == mask@.len(),
    ensures
        r == masked_eq(a@, b@, mask@),
{
    let n = a.len();
    let mut j: usize = 0;
    while j < n
        invariant
            n == a@.len(),
            n == b@.len(),
            n == mask@.len(),
            j <= n,
            forall|t: int| 0 <= t < j ==> (#[trigger] a@[t] & mask@[t]) == (b@[t] & mask@[t]),
        decreases n - j,
    {
        if (a[j] & mask[j]) != (b[j] & mask[j]) {
            return false;
        }
        j += 1;
    }
    true
}

/// Tests whether `a` and `b` hold the same bytes.
pub fn slices_are_equal(a: &[u8], b: &[u8]) -> (r: bool)
    ensures
        r == (a@ == b@),
{
    let n = a.len();
    if b.len() != n {
        return false;
    }
    let mut j: usize = 0;
    while j < n
        invariant
            n == a@.len(),
            n == b@.len(),
            j <= n,
            forall|t: int| 0 <= t < j ==> a@[t] == b@[t],
        decreases n - j,
    {
        if a[j] != b[j] {
            return false;
        }
        j += 1;
    }
    assert(a@ =~= b@);
    true
}

impl MagicRule {
    #[verifier::type_invariant]
    spec fn mask_fits(self) -> bool {
        self.mask matches Some(m) ==> m@.len() == self.value@.len()
    }

    /// Makes a rule from its parts.
    pub fn new(
        indent: u32,
        start_offset: u32,
        value: Vec<u8>,
        mask: Option<Vec<u8>>,
        word_size: u32,
        range_length: u32,
    ) -> (r: MagicRule)
        requires
            mask matches Some(m) ==> m@.len() == value@.len(),
        ensures
            r@ == (RuleView {
                indent,
                start_offset,
                value: value@,
                mask: match mask {
                    Some(m) => Some(m@),
                    None => None,
                },
                word_size,
                range_length,
            }),
    {
        MagicRule { indent, start_offset, value, mask, word_size, range_length }
    }

    /// The depth of the rule in its entry's tree.
    pub fn indent(&self) -> (r: u32)
        ensures
            r == self@.indent,
    {
        self.indent
    }

    /// Tests whether the value stands in `data` at position `i`.
    fn matches_window(&self, data: &[u8], i: usize) -> (r: bool)
        requires
            i + self@.value.len() <= data@.len(),
        ensures
            r == self@.matches_at(data@, i as int),
    {
        proof {
            use_type_invariant(self);
        }
        let total = data.len();
        let window = &data[i..i + self.value.len()];
        match &self.mask {
            Some(mask) => masked_slices_are_equal(window, self.value.as_slice(), mask.as_slice()),
            None => slices_are_equal(window, self.value.as_slice()),
        }
    }

    /// Tests whether the value stands in `data` at one of the rule's positions.
    pub fn matches_data(&self, data: &[u8]) -> (r: bool)
        ensures
            r == self@.matches(data@),
    {
        let len = self.value.len();
        if len > data.len() {
            return false;
        }
        let last: usize = data.len() - len;
        let end: u64 = self.start_offset as u64 + self.range_length as u64;
        let mut i: u64 = self.start_offset as u64;
        while i < end && i <= last as u64
            invariant
                len == self@.value.len(),
                last == data@.len() - len,
                end == self@.start_offset + self@.range_length,
                self@.start_offset <= i <= end,
                forall|k: int| self@.start_offset <= k < i ==> !self@.matches_at(data@, k),
            decreases end - i,
        {
            if self.matches_window(data, i as usize) {
                return true;
            }
            i += 1;
        }
        false
    }

    /// One more than the last position of `data` that the rule may read, or
    /// `usize::MAX` where that does not fit.
    pub fn extent(&self) -> (r: usize)
        ensures
            r == if self@.extent() <= usize::MAX {
                self@.extent()
            } else {
                usize::MAX as nat
            },
    {
        let window: u64 = self.start_offset as u64 + self.range_length as u64;
        if window > usize::MAX as u64 {
            usize::MAX
        } else {
            (window as usize).saturating_add(self.value.len())
        }
    }
}

/// Whether the bytes of `d` from `i` on differ from the value of `rule` in no
/// bit that its mask selects.
pub open spec fn masked_xor_zero(rule: RuleView, d: Seq<u8>, i: int) -> bool {
    forall|j: int|
        0 <= j < rule.value.len() ==> #[trigger] ((d[i + j] ^ rule.value[j]) & rule.mask->0[j])
            == 0
}

/// A masked comparison is the same as asking that the two sides differ in no
/// bit that the mask selects.
pub proof fn lemma_masked_eq_is_masked_xor_zero(a: Seq<u8>, b: Seq<u8>, mask: Seq<u8>)
    requires
        a.len() == b.len(),
    ensures
        masked_eq(a, b, mask) <==> forall|j: int|
            0 <= j < a.len() ==> #[trigger] ((a[j] ^ b[j]) & mask[j]) == 0,
{
    assert forall|j: int| 0 <= j < a.len() implies ((#[trigger] a[j] & mask[j]) == (b[j] & mask[j])
        <==> ((a[j] ^ b[j]) & mask[j]) == 0) by {
        let x = a[j];
        let y = b[j];
        let m = mask[j];
        assert(((x & m) == (y & m)) <==> (((x ^ y) & m) == 0)) by (bit_vector);
    }
    if masked_eq(a, b, mask) {
        assert forall|j: int| 0 <= j < a.len() implies #[trigger] ((a[j] ^ b[j]) & mask[j])
            == 0 by {
            assert((a[j] & mask[j]) == (b[j] & mask[j]));
        }
    }
    if forall|j: int| 0 <= j < a.len() ==> #[trigger] ((a[j] ^ b[j]) & mask[j]) == 0 {
        assert forall|j: int| 0 <= j < a.len() implies (#[trigger] a[j] & mask[j]) == (b[j]
            & mask[j]) by {
            assert(((a[j] ^ b[j]) & mask[j]) == 0);
        }
    }
}

/// A rule with the mask `m` and the value `v` matches `d` if and only if, at
/// one of its positions, the window of `d` differs from `v` in no bit that
/// `m` selects: `(d ^ v) & m` is zero all along the window.
pub proof fn lemma_masked_rule_matches(rule: RuleView, d: Seq<u8>)
    requires
        rule.well_formed(),
        rule.mask is Some,
    ensures
        rule.matches(d) <==> exists|i: int|
            rule.start_offset <= i < rule.start_offset + rule.range_length && i
                + rule.value.len() <= d.len() && #[trigger] masked_xor_zero(rule, d, i),
{
    assert forall|i: int| 0 <= i && i + rule.value.len() <= d.len() implies (rule.matches_at(d, i)
        <==> #[trigger] masked_xor_zero(rule, d, i)) by {
        let w = d.subrange(i, i + rule.value.len());
        lemma_masked_eq_is_masked_xor_zero(w, rule.value, rule.mask->0);
        if masked_eq(w, rule.value, rule.mask->0) {
            assert forall|j: int| 0 <= j < rule.value.len() implies #[trigger] ((d[i + j]
                ^ rule.value[j]) & rule.mask->0[j]) == 0 by {
                assert(((w[j] ^ rule.value[j]) & rule.mask->0[j]) == 0);
            }
        }
        if masked_xor_zero(rule, d, i) {
            assert forall|j: int| 0 <= j < w.len() implies #[trigger] ((w[j] ^ rule.value[j])
                & rule.mask->0[j]) == 0 by {
                assert(((d[i + j] ^ rule.value[j]) & rule.mask->0[j]) == 0);
            }
        }
    }
    if rule.matches(d) {
        let i = choose|i: int|
            rule.start_offset <= i < rule.start_offset + rule.range_length
                && #[trigger] rule.matches_at(d, i);
        assert(masked_xor_zero(rule, d, i));
    }
    if exists|i: int|
        rule.start_offset <= i < rule.start_offset + rule.range_length && i + rule.value.len()
            <= d.len() && #[trigger] masked_xor_zero(rule, d, i) {
        let i = choose|i: int|
            rule.start_offset <= i < rule.start_offset + rule.range_length && i
                + rule.value.len() <= d.len() && #[trigger] masked_xor_zero(rule, d, i);
        assert(rule.matches_at(d, i));
    }
}

/// A rule with a mask matches at a position of `d1` if and only if it matches
/// there in any `d2` that agrees with `d1`, under the mask laid over that
/// position, in every selected bit. So it matches `d1` there if and only if
/// it matches `d1` with all other bits of the window cleared.
pub proof fn lemma_mask_hides_other_bits(rule: RuleView, d1: Seq<u8>, d2: Seq<u8>, i: int)
    requires
        rule.well_formed(),
        rule.mask is Some,
        d1.len() == d2.len(),
        forall|j: int|
            0 <= j < rule.value.len() && 0 <= i + j < d1.len() ==> (#[trigger] d1[i + j]
                & rule.mask->0[j]) == (d2[i + j] & rule.mask->0[j]),
    ensures
        rule.matches_at(d1, i) == rule.matches_at(d2, i),
{
    let m = rule.mask->0;
    let len = rule.value.len() as int;
    if 0 <= i && i + len <= d1.len() {
        let w1 = d1.subrange(i, i + len);
        let w2 = d2.subrange(i, i + len);
        assert forall|j: int| 0 <= j < len implies (#[trigger] w1[j] & m[j]) == (w2[j]
            & m[j]) by {
            assert((d1[i + j] & m[j]) == (d2[i + j] & m[j]));
        }
        if masked_eq(w1, rule.value, m) {
            assert forall|j: int| 0 <= j < len implies (#[trigger] w2[j] & m[j]) == (
            rule.value[j] & m[j]) by {
                assert((w1[j] & m[j]) == (rule.value[j] & m[j]));
            }
        }
        if masked_eq(w2, rule.value, m) {
            assert forall|j: int| 0 <= j < len implies (#[trigger] w1[j] & m[j]) == (
            rule.value[j] & m[j]) by {
                assert((w2[j] & m[j]) == (rule.value[j] & m[j]));
            }
        }
    }
}

/// What a magic entry says: the MIME type it stands for, its priority, and
/// its rules, a tree written down in pre-order with each rule's depth.
pub struct EntryView {
    pub mime: MimeView,
    pub priority: u32,
    pub rules: Seq<RuleView>,
}

/// The largest extent among `rules`; 0 where there is none.
pub open spec fn max_rule_extent(rules: Seq<RuleView>) -> nat
    decreases rules.len(),
{
    if rules.len() == 0 {
        0
    } else {
        let rest = max_rule_extent(rules.drop_last());
        if rules.last().extent() > rest {
            rules.last().extent()
        } else {
            rest
        }
    }
}

impl EntryView {
    /// Walks the rules from `idx` on, looking for a rule at depth `level` that
    /// matches. Such a rule ends the walk with a match when it is the last
    /// rule or the next rule is no deeper; otherwise the walk goes on one level
    /// further down.
    pub open spec fn matches_from(self, data: Seq<u8>, idx: int, level: int) -> bool
        decreases self.rules.len() - idx,
    {
        if idx < 0 || idx >= self.rules.len() {
            false
        } else if self.rules[idx].indent == level && self.rules[idx].matches(data) {
            if idx + 1 == self.rules.len() || self.rules[idx + 1].indent <= level {
                true
            } else {
                self.matches_from(data, idx + 1, level + 1)
            }
        } else {
            self.matches_from(data, idx + 1, level)
        }
    }

    /// Whether the entry matches `data`.
    pub open spec fn matches(self, data: Seq<u8>) -> bool {
        self.matches_from(data, 0, 0)
    }

    /// The largest extent among the entry's rules.
    pub open spec fn max_extent(self) -> nat {
        max_rule_extent(self.rules)
    }
}

/// The views of a list of rules.
pub open spec fn rules_view(rules: Seq<MagicRule>) -> Seq<RuleView> {
    rules.map_values(|r: MagicRule| r@)
}

/// The views of a list of entries.
pub open spec fn entries_view(entries: Seq<MagicEntry>) -> Seq<EntryView> {
    entries.map_values(|e: MagicEntry| e@)
}

/// `n` as a `usize`, or `usize::MAX` where it does not fit.
pub open spec fn clip(n: nat) -> usize {
    if n <= usize::MAX {
        n as usize
    } else {
        usize::MAX
    }
}

/// A magic entry: the rules that recognise one MIME type in a file's content.
#[derive(Debug)]
pub struct MagicEntry {
    mime_type: Mime,
    priority: u32,
    rules: Vec<MagicRule>,
}

impl View for MagicEntry {
    type V = EntryView;

    closed spec fn view(&self) -> EntryView {
        EntryView {
            mime: self.mime_type@,
            priority: self.priority,
            rules: rules_view(self.rules@),
        }
    }
}

impl MagicEntry {
    /// Makes an entry from its parts.
    pub fn new(mime_type: Mime, priority: u32, rules: Vec<MagicRule>) -> (r: MagicEntry)
        ensures
            r@ == (EntryView { mime: mime_type@, priority, rules: rules_view(rules@) }),
    {
        MagicEntry { mime_type, priority, rules }
    }

    /// Matches the entry against `data`; on a match gives the entry's MIME
    /// type and priority.
    pub fn matches(&self, data: &[u8]) -> (r: Option<(&Mime, u32)>)
        ensures
            r is Some <==> self@.matches(data@),
            r matches Some((m, p)) ==> m@ == self@.mime && p == self@.priority,
    {
        let n = self.rules.len();
        let mut level: usize = 0;
        let mut i: usize = 0;
        while i < n
            invariant
                n == self.rules@.len(),
                i <= n,
                level <= i,
                self@.matches(data@) == self@.matches_from(data@, i as int, level as int),
            decreases n - i,
        {
            let rule = &self.rules[i];
            assert(self@.rules[i as int] == rule@);
            if rule.indent() as usize == level && rule.matches_data(data) {
                if i + 1 == n {
                    return Some((&self.mime_type, self.priority));
                }
                let next = &self.rules[i + 1];
                assert(self@.rules[i + 1] == next@);
                if next.indent() as usize <= level {
                    return Some((&self.mime_type, self.priority));
                }
                level += 1;
            }
            i += 1;
        }
        None
    }

    /// The largest extent among the entry's rules, or `usize::MAX` where that
    /// does not fit.
    pub fn max_extents(&self) -> (r: usize)
        ensures
            r == clip(self@.max_extent()),
    {
        let n = self.rules.len();
        let mut best: usize = 0;
        let mut i: usize = 0;
        assert(rules_view(self.rules@).subrange(0, 0) =~= Seq::<RuleView>::empty());
        while i < n
            invariant
                n == self.rules@.len(),
                i <= n,
                best == clip(max_rule_extent(self@.rules.subrange(0, i as int))),
            decreases n - i,
        {
            let e = self.rules[i].extent();
            assert(self@.rules.subrange(0, i + 1).drop_last() =~= self@.rules.subrange(
                0,
                i as int,
            ));
            assert(self@.rules.subrange(0, i + 1).last() == self.rules@[i as int]@);
            if e > best {
                best = e;
            }
            i += 1;
        }
        assert(self@.rules.subrange(0, n as int) =~= self@.rules);
        best
    }
}

/// What the first entry of `entries` that matches `data` stands for.
pub open spec fn first_match(entries: Seq<EntryView>, data: Seq<u8>) -> Option<(MimeView, u32)>
    decreases entries.len(),
{
    if entries.len() == 0 {
        None
    } else if entries[0].matches(data) {
        Some((entries[0].mime, entries[0].priority))
    } else {
        first_match(entries.drop_first(), data)
    }
}

/// The largest extent among the rules of `entries`; 0 where there is none.
pub open spec fn max_entry_extent(entries: Seq<EntryView>) -> nat
    decreases entries.len(),
{
    if entries.len() == 0 {
        0
    } else {
        let rest = max_entry_extent(entries.drop_last());
        if entries.last().max_extent() > rest {
            entries.last().max_extent()
        } else {
            rest
        }
    }
}

/// No rule reaches further than the largest extent of its list.
pub proof fn lemma_max_rule_extent(rules: Seq<RuleView>, j: int)
    requires
        0 <= j < rules.len(),
    ensures
        max_rule_extent(rules) >= rules[j].extent(),
    decreases rules.len(),
{
    if j < rules.len() - 1 {
        lemma_max_rule_extent(rules.drop_last(), j);
    }
}

/// No rule of any entry reaches further than the largest extent of the table.
pub proof fn lemma_max_extents_bounds_every_rule(entries: Seq<EntryView>, i: int, j: int)
    requires
        0 <= i < entries.len(),
        0 <= j < entries[i].rules.len(),
    ensures
        max_entry_extent(entries) >= entries[i].rules[j].extent(),
    decreases entries.len(),
{
    if i < entries.len() - 1 {
        lemma_max_extents_bounds_every_rule(entries.drop_last(), i, j);
    } else {
        lemma_max_rule_extent(entries[i].rules, j);
    }
}

/// Looks `data` up in `entries`: the MIME type and priority of the first
/// entry that matches.
pub fn lookup_data(entries: &[MagicEntry], data: &[u8]) -> (r: Option<(Mime, u32)>)
    ensures
        match r {
            Some((m, p)) => first_match(entries_view(entries@), data@) == Some((m@, p)),
            None => first_match(entries_view(entries@), data@) is None,
        },
{
    let n = entries.len();
    let ghost all = entries_view(entries@);
    let mut i: usize = 0;
    assert(all.subrange(0, n as int) =~= all);
    while i < n
        invariant
            n == entries@.len(),
            i <= n,
            all == entries_view(entries@),
            first_match(all, data@) == first_match(all.subrange(i as int, n as int), data@),
        decreases n - i,
    {
        let ghost rest = all.subrange(i as int, n as int);
        assert(rest[0] == entries@[i as int]@);
        assert(rest.drop_first() =~= all.subrange(i + 1, n as int));
        match entries[i].matches(data) {
            Some((m, p)) => {
                return Some((m.clone(), p));
            },
            None => {},
        }
        i += 1;
    }
    None
}

/// How many bytes from the start of a file the rules of `entries` may read,
/// or `usize::MAX` where that does not fit.
pub fn max_extents(entries: &[MagicEntry]) -> (r: usize)
    ensures
        r == clip(max_entry_extent(entries_view(entries@))),
{
    let n = entries.len();
    let ghost all = entries_view(entries@);
    let mut best: usize = 0;
    let mut i: usize = 0;
    assert(all.subrange(0, 0) =~= Seq::<EntryView>::empty());
    while i < n
        invariant
            n == entries@.len(),
            i <= n,
            all == entries_view(entries@),
            best == clip(max_entry_extent(all.subrange(0, i as int))),
        decreases n - i,
    {
        let e = entries[i].max_extents();
        assert(all.subrange(0, i + 1).drop_last() =~= all.subrange(0, i as int));
        assert(all.subrange(0, i + 1).last() == entries@[i as int]@);
        if e > best {
            best = e;
        }
        i += 1;
    }
    assert(all.subrange(0, n as int) =~= all);
    best
}

/// What `bytes` denote as a `u32`: the number that their text writes in base
/// ten, or `default` where they are no text or the text is no such number.
pub open spec fn number_or(bytes: Seq<u8>, default: u32) -> u32 {
    if valid_utf8(bytes) {
        match u32_of(decode_utf8(bytes)) {
            Some(v) => v,
            None => default,
        }
    } else {
        default
    }
}

#[verifier::external_type_specification]
#[verifier::external_body]
pub struct ExUtf8Error(Utf8Error);

/// `core::str::from_utf8` succeeds exactly on well-formed UTF-8, and the text
/// it gives is what the bytes it was given encode.
pub assume_specification[ core::str::from_utf8 ](v: &[u8]) -> (r: Result<&str, Utf8Error>)
    ensures
        r is Ok <==> valid_utf8(v@),
        r matches Ok(s) ==> s@ == decode_utf8(v@),
;

/// Reads `s` as UTF-8 text.
pub fn to_string(s: &[u8]) -> (r: Result<&str, Utf8Error>)
    ensures
        r is Ok <==> valid_utf8(s@),
        r matches Ok(t) ==> t@ == decode_utf8(s@),
{
    core::str::from_utf8(s)
}

/// Reads the text `s` as a `u32` in base ten; `or_default` where there is no
/// text or it is no such number.
pub fn to_u32(s: Result<&str, Utf8Error>, or_default: u32) -> (r: u32)
    ensures
        r == match s {
            Ok(t) => match u32_of(t@) {
                Some(v) => v,
                None => or_default,
            },
            Err(_) => or_default,
        },
{
    match s {
        Ok(t) => match parse_u32(t) {
            Some(v) => v,
            None => or_default,
        },
        Err(_) => or_default,
    }
}

/// Reads the bytes `s` as a `u32` written in base ten; `or_default` where
/// they are no such number.
pub fn buf_to_u32(s: &[u8], or_default: u32) -> (r: u32)
    ensures
        r == number_or(s@, or_default),
{
    to_u32(to_string(s), or_default)
}

} // verus!
