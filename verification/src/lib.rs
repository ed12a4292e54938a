//! Classification of files by MIME type, following the Freedesktop.org
//! shared MIME-info database.
//!
//! A [`SharedMimeInfo`] holds the tables of the database: aliases,
//! subclasses, icons, file name patterns and magic rules. It answers what a
//! file name or the first bytes of a file say about the type of the file, and
//! [`GuessBuilder`] weighs the two against each other.

use vstd::prelude::*;

pub mod alias;
pub mod glob;
pub mod icon;
pub mod laws;
pub mod magic;
pub mod magic_parse;
pub mod media_type;
pub mod parent;
pub mod subclass;
pub mod text;

pub use crate::media_type::Mime;

use crate::alias::{alias_reader, aliases_from_lines, canonical, lookup_alias, AliasView, AliasesList};
use crate::glob::{
    glob_v1_reader, glob_v2_reader, globs_v1_from_lines, globs_v2_from_lines, lookup_globs,
    with_globs, Glob, GlobMap, GlobView,
};
use crate::icon::{find_icon, icons_from_lines, icons_of_lines, icons_view, lookup_icon, Icon, IconView};
use crate::magic::{clip, entries_view, first_match, max_entry_extent, EntryView, MagicEntry};
use crate::magic_parse::{magic_entries_of, read_magic_from_bytes};
use crate::media_type::{
    inode_directory, inode_symlink, mime_option_view, mimes_view, octet_stream, text_plain,
    zerosize, MimeView,
};
use crate::parent::{
    clone_mimes, record_all, subclass_reader, subclasses_from_lines, ParentsMap,
};
use crate::subclass::is_subclass;
use crate::text::{read_lines, replace_char, replaced, strings_view};

verus! {

/// Whether `b` is an ASCII control byte other than the whitespace bytes
/// tab, line feed, vertical tab, form feed and carriage return.
pub open spec fn is_binary_byte(b: u8) -> bool {
    (b < 0x20 || b == 0x7f) && !(0x09 <= b <= 0x0d)
}

/// Whether the first 128 bytes of `data` hold no binary byte.
pub open spec fn text_like(data: Seq<u8>) -> bool {
    forall|i: int| 0 <= i < data.len() && i < 128 ==> !is_binary_byte(#[trigger] data[i])
}

/// Guesses whether `data` is text by inspecting its first 128 bytes.
pub fn looks_like_text(data: &[u8]) -> (r: bool)
    ensures
        r == text_like(data@),
{
    let mut i: usize = 0;
    while i < data.len() && i < 128
        invariant
            i <= data.len(),
            i <= 128,
            forall|j: int| 0 <= j < i ==> !is_binary_byte(#[trigger] data@[j]),
        decreases data.len() - i,
    {
        let b = data[i];
        if (b < 0x20 || b == 0x7f) && !(0x09 <= b && b <= 0x0d) {
            return false;
        }
        i += 1;
    }
    true
}

/// The lines of an optional file.
pub open spec fn optional_lines(lines: Option<Vec<String>>) -> Option<Seq<Seq<char>>> {
    match lines {
        Some(l) => Some(strings_view(l@)),
        None => None,
    }
}

/// What one directory of the database holds, as it was read.
pub struct DirectoryView {
    pub path: Seq<char>,
    pub mtime: u64,
    pub aliases: Seq<Seq<char>>,
    pub subclasses: Seq<Seq<char>>,
    pub icons: Seq<Seq<char>>,
    pub generic_icons: Seq<Seq<char>>,
    pub globs2: Option<Seq<Seq<char>>>,
    pub globs: Option<Seq<Seq<char>>>,
    pub magic: Seq<u8>,
}

/// What one directory of the database holds, as it was read: the lines of
/// its text tables and the bytes of its magic table. A table that is missing
/// is empty; of the two tables of patterns, a missing one is `None`.
#[derive(Debug)]
pub struct DirectoryContents {
    /// The path of the directory.
    pub path: String,
    /// When the directory was last changed.
    pub mtime: u64,
    /// The lines of `aliases`.
    pub aliases: Vec<String>,
    /// The lines of `subclasses`.
    pub subclasses: Vec<String>,
    /// The lines of `icons`.
    pub icons: Vec<String>,
    /// The lines of `generic-icons`.
    pub generic_icons: Vec<String>,
    /// The lines of `globs2`, where it could be read.
    pub globs2: Option<Vec<String>>,
    /// The lines of `globs`, where it could be read.
    pub globs: Option<Vec<String>>,
    /// The bytes of `magic`.
    pub magic: Vec<u8>,
}

impl View for DirectoryContents {
    type V = DirectoryView;

    open spec fn view(&self) -> DirectoryView {
        DirectoryView {
            path: self.path@,
            mtime: self.mtime,
            aliases: strings_view(self.aliases@),
            subclasses: strings_view(self.subclasses@),
            icons: strings_view(self.icons@),
            generic_icons: strings_view(self.generic_icons@),
            globs2: optional_lines(self.globs2),
            globs: optional_lines(self.globs),
            magic: self.magic@,
        }
    }
}

/// The views of a list of directories.
pub open spec fn directories_view(dirs: Seq<DirectoryContents>) -> Seq<DirectoryView> {
    dirs.map_values(|d: DirectoryContents| d@)
}

impl DirectoryView {
    /// The pattern records of the directory: those of `globs2` where it could
    /// be read, else those of `globs`; the two are never mixed.
    pub open spec fn glob_records(self) -> Seq<GlobView> {
        match self.globs2 {
            Some(lines) => read_lines(lines, glob_v2_reader()),
            None => match self.globs {
                Some(lines) => read_lines(lines, glob_v1_reader()),
                None => Seq::empty(),
            },
        }
    }
}

/// The kind of a file, as its metadata tell it.
#[derive(Clone, Copy, Debug, PartialEq, Eq, Structural)]
pub enum FileKind {
    Directory,
    Symlink,
    Regular,
    Other,
}

/// What is known of a file without reading it.
#[derive(Clone, Copy, Debug, PartialEq, Eq, Structural)]
pub struct FileMetadata {
    /// The kind of the file.
    pub kind: FileKind,
    /// The size of the file in bytes.
    pub len: u64,
}

/// What a guess says.
pub struct GuessView {
    pub mime: MimeView,
    pub uncertain: bool,
}

/// What the database holds.
pub struct DatabaseView {
    pub aliases: Seq<AliasView>,
    pub parents: Map<MimeView, Seq<MimeView>>,
    pub icons: Seq<IconView>,
    pub generic_icons: Seq<IconView>,
    pub globs: Seq<GlobView>,
    pub magic: Seq<EntryView>,
    /// The directories that were loaded, each with the time of its last change.
    pub dirs: Seq<(Seq<char>, u64)>,
}

/// Whether the time `now`, where it is known, is later than `recorded`.
pub open spec fn newer(now: Option<u64>, recorded: u64) -> bool {
    match now {
        Some(t) => recorded < t,
        None => false,
    }
}

/// The first of `names` that is a subclass of `sniffed`.
pub open spec fn first_refining(
    db: DatabaseView,
    names: Seq<MimeView>,
    sniffed: MimeView,
) -> Option<MimeView>
    decreases names.len(),
{
    if names.len() == 0 {
        None
    } else if db.subclass(names[0], sniffed) {
        Some(names[0])
    } else {
        first_refining(db, names.drop_first(), sniffed)
    }
}

impl DatabaseView {
    /// The database that holds nothing.
    pub open spec fn empty() -> DatabaseView {
        DatabaseView {
            aliases: Seq::empty(),
            parents: Map::empty(),
            icons: Seq::empty(),
            generic_icons: Seq::empty(),
            globs: Seq::empty(),
            magic: Seq::empty(),
            dirs: Seq::empty(),
        }
    }

    /// The database after the tables of `dir` were added to its own.
    pub open spec fn load(self, dir: DirectoryView) -> DatabaseView {
        DatabaseView {
            aliases: self.aliases + read_lines(dir.aliases, alias_reader()),
            parents: record_all(self.parents, read_lines(dir.subclasses, subclass_reader())),
            icons: self.icons + icons_of_lines(dir.icons),
            generic_icons: self.generic_icons + icons_of_lines(dir.generic_icons),
            globs: with_globs(self.globs, dir.glob_records()),
            magic: self.magic + magic_entries_of(dir.magic),
            dirs: self.dirs.push((dir.path, dir.mtime)),
        }
    }

    /// The database after `dirs` were loaded one after another.
    pub open spec fn load_all(self, dirs: Seq<DirectoryView>) -> DatabaseView
        decreases dirs.len(),
    {
        if dirs.len() == 0 {
            self
        } else {
            self.load_all(dirs.drop_last()).load(dirs.last())
        }
    }

    /// Whether one of the directories was changed after it was loaded.
    /// `observed` gives, for each directory in order, the time of its last
    /// change as it is now, where that could be found out.
    pub open spec fn stale(self, observed: Seq<Option<u64>>) -> bool {
        exists|i: int|
            0 <= i < self.dirs.len() && i < observed.len() && newer(
                #[trigger] observed[i],
                self.dirs[i].1,
            )
    }

    /// The name that stands for `m`: what `m` is an alias of, or `m` itself.
    pub open spec fn canonical(self, m: MimeView) -> MimeView {
        canonical(self.aliases, m)
    }

    /// Whether `a` and `b` stand for the same type.
    pub open spec fn equal(self, a: MimeView, b: MimeView) -> bool {
        self.canonical(a) == self.canonical(b)
    }

    /// Whether `m` is a subclass of `base`.
    pub open spec fn subclass(self, m: MimeView, base: MimeView) -> bool {
        is_subclass(self.aliases, self.parents, m, base)
    }

    /// What `m` stands for, followed by the direct parents of that; `None`
    /// where `m` is no alias.
    pub open spec fn parents_of(self, m: MimeView) -> Option<Seq<MimeView>> {
        match lookup_alias(self.aliases, m) {
            Some(c) => Some(
                seq![c] + if self.parents.contains_key(c) {
                    self.parents[c]
                } else {
                    Seq::empty()
                },
            ),
            None => None,
        }
    }

    /// The generic icon of `m`: the one the table gives, else the top-level
    /// type followed by `-x-generic`.
    pub open spec fn generic_icon_name(self, m: MimeView) -> Seq<char> {
        match lookup_icon(self.generic_icons, m) {
            Some(name) => name,
            None => m.ty + "-x-generic"@,
        }
    }

    /// The icon names of `m`: the one the table gives, if any; the
    /// identifier with `/` turned into `-`; the generic icon.
    pub open spec fn icon_names(self, m: MimeView) -> Seq<Seq<char>> {
        let own = match lookup_icon(self.icons, m) {
            Some(name) => seq![name],
            None => Seq::empty(),
        };
        own + seq![replaced(m.essence(), '/', "-"@), self.generic_icon_name(m)]
    }

    /// The MIME types that the patterns give the file name `name`, lightest
    /// pattern first; `application/octet-stream` alone where none matches.
    pub open spec fn types_for_name(self, name: Seq<char>) -> Seq<MimeView> {
        match lookup_globs(self.globs, name) {
            Some(v) => v,
            None => seq![octet_stream()],
        }
    }

    /// The MIME type that the magic rules give `data`, with its priority.
    /// Empty data are `application/x-zerosize` with priority 100.
    pub open spec fn type_for_data(self, data: Seq<u8>) -> Option<(MimeView, u32)> {
        if data.len() == 0 {
            Some((zerosize(), 100))
        } else {
            first_match(self.magic, data)
        }
    }

    /// How many bytes from the start of a file the magic rules may read.
    pub open spec fn max_extents(self) -> nat {
        max_entry_extent(self.magic)
    }

    /// What the content says: the type and priority that the magic rules give
    /// `data`; `application/octet-stream` with priority 80 where there are no
    /// data or no rule matches.
    pub open spec fn sniff(self, data: Seq<u8>) -> (MimeView, u32) {
        if data.len() == 0 {
            (octet_stream(), 80)
        } else {
            match first_match(self.magic, data) {
                Some(found) => found,
                None => (octet_stream(), 80),
            }
        }
    }

    /// What the content says, with data that look like text taken for
    /// `text/plain` where the magic rules know nothing better.
    pub open spec fn sniff_text(self, data: Seq<u8>) -> (MimeView, u32) {
        let sniffed = self.sniff(data);
        if sniffed.0 == octet_stream() && data.len() > 0 && text_like(data) {
            (text_plain(), sniffed.1)
        } else {
            sniffed
        }
    }

    /// The guess for a file whose name the patterns give the types `names`,
    /// none where no name is known, and of which the first bytes and the
    /// metadata may be known.
    ///
    /// A directory, a symbolic link and an empty regular file are known by
    /// their metadata, uncertainly. Else a name that the patterns give one
    /// type other than `application/octet-stream` decides. Else the content
    /// is asked: without a name it decides, certainly unless it is
    /// `application/octet-stream`; with a name it decides where its priority
    /// is at least 80; else the first type of the name that is a subclass of
    /// it does; else the first type of the name, uncertainly.
    pub open spec fn guess_from_names(
        self,
        names: Seq<MimeView>,
        data: Seq<u8>,
        metadata: Option<FileMetadata>,
    ) -> GuessView {
        if metadata matches Some(md) && md.kind == FileKind::Directory {
            GuessView { mime: inode_directory(), uncertain: true }
        } else if metadata matches Some(md) && md.kind == FileKind::Symlink {
            GuessView { mime: inode_symlink(), uncertain: true }
        } else if metadata matches Some(md) && md.kind == FileKind::Regular && md.len == 0 {
            GuessView { mime: zerosize(), uncertain: true }
        } else if names.len() == 1 && names[0] != octet_stream() {
            GuessView { mime: names[0], uncertain: false }
        } else {
            let sniffed = self.sniff_text(data);
            if names.len() == 0 {
                GuessView { mime: sniffed.0, uncertain: sniffed.0 == octet_stream() }
            } else if sniffed.1 >= 80 {
                GuessView { mime: sniffed.0, uncertain: false }
            } else {
                match first_refining(self, names, sniffed.0) {
                    Some(n) => GuessView { mime: n, uncertain: false },
                    None => GuessView { mime: names[0], uncertain: true },
                }
            }
        }
    }

    /// The guess for a file of which a name, the first bytes and the
    /// metadata may be known: the guess from the types that the patterns
    /// give the name.
    pub open spec fn guess(
        self,
        file_name: Option<Seq<char>>,
        data: Seq<u8>,
        metadata: Option<FileMetadata>,
    ) -> GuessView {
        self.guess_from_names(
            match file_name {
                Some(name) => self.types_for_name(name),
                None => Seq::empty(),
            },
            data,
            metadata,
        )
    }
}

/// A directory that was loaded, with the time of its last change then.
struct MimeDirectory {
    path: String,
    mtime: u64,
}

/// The views of a list of loaded directories.
spec fn loaded_view(dirs: Seq<MimeDirectory>) -> Seq<(Seq<char>, u64)> {
    dirs.map_values(|d: MimeDirectory| (d.path@, d.mtime))
}

/// The shared MIME info database.
pub struct SharedMimeInfo {
    aliases: AliasesList,
    parents: ParentsMap,
    icons: Vec<Icon>,
    generic_icons: Vec<Icon>,
    globs: GlobMap,
    magic: Vec<MagicEntry>,
    mime_dirs: Vec<MimeDirectory>,
}

impl View for SharedMimeInfo {
    type V = DatabaseView;

    closed spec fn view(&self) -> DatabaseView {
        DatabaseView {
            aliases: self.aliases@,
            parents: self.parents@,
            icons: icons_view(self.icons@),
            generic_icons: icons_view(self.generic_icons@),
            globs: self.globs@,
            magic: entries_view(self.magic@),
            dirs: loaded_view(self.mime_dirs@),
        }
    }
}

impl SharedMimeInfo {
    /// A database that holds nothing.
    pub fn create() -> (r: SharedMimeInfo)
        ensures
            r@ == DatabaseView::empty(),
    {
        let r = SharedMimeInfo {
            aliases: AliasesList::new(),
            parents: ParentsMap::new(),
            icons: Vec::new(),
            generic_icons: Vec::new(),
            globs: GlobMap::new(),
            magic: Vec::new(),
            mime_dirs: Vec::new(),
        };
        assert(icons_view(r.icons@) =~= Seq::<IconView>::empty());
        assert(icons_view(r.generic_icons@) =~= Seq::<IconView>::empty());
        assert(entries_view(r.magic@) =~= Seq::<EntryView>::empty());
        assert(loaded_view(r.mime_dirs@) =~= Seq::<(Seq<char>, u64)>::empty());
        r
    }

    /// Adds the tables of `dir` to the database, and takes down the
    /// directory with the time of its last change.
    pub fn load_directory(&mut self, dir: &DirectoryContents)
        ensures
            final(self)@ == old(self)@.load(dir@),
    {
        let aliases = aliases_from_lines(&dir.aliases);
        self.aliases.add_aliases(aliases);

        let ghost icons_before = icons_view(self.icons@);
        let mut icons = icons_from_lines(&dir.icons);
        let ghost icons_added = icons_view(icons@);
        self.icons.append(&mut icons);
        assert(icons_view(self.icons@) =~= icons_before + icons_added);

        let ghost generic_before = icons_view(self.generic_icons@);
        let mut generic_icons = icons_from_lines(&dir.generic_icons);
        let ghost generic_added = icons_view(generic_icons@);
        self.generic_icons.append(&mut generic_icons);
        assert(icons_view(self.generic_icons@) =~= generic_before + generic_added);

        let subclasses = subclasses_from_lines(&dir.subclasses);
        self.parents.add_subclasses(subclasses);

        let globs: Vec<Glob> = match &dir.globs2 {
            Some(lines) => globs_v2_from_lines(lines),
            None => match &dir.globs {
                Some(lines) => globs_v1_from_lines(lines),
                None => Vec::new(),
            },
        };
        assert(crate::glob::globs_view(globs@) =~= dir@.glob_records());
        self.globs.add_globs(globs.as_slice());

        let ghost magic_before = entries_view(self.magic@);
        let mut magic_entries = read_magic_from_bytes(dir.magic.as_slice());
        let ghost magic_added = entries_view(magic_entries@);
        self.magic.append(&mut magic_entries);
        assert(entries_view(self.magic@) =~= magic_before + magic_added);

        let ghost dirs_before = loaded_view(self.mime_dirs@);
        self.mime_dirs.push(MimeDirectory { path: dir.path.clone(), mtime: dir.mtime });
        assert(loaded_view(self.mime_dirs@) =~= dirs_before.push((dir.path@, dir.mtime)));
    }

    /// A database that holds the tables of `dir`.
    pub fn new_for_directory(dir: &DirectoryContents) -> (r: SharedMimeInfo)
        ensures
            r@ == DatabaseView::empty().load(dir@),
    {
        let mut db = SharedMimeInfo::create();
        db.load_directory(dir);
        db
    }

    /// What `mime_type` is an alias of, if it is one.
    pub fn unalias_mime_type(&self, mime_type: &Mime) -> (r: Option<Mime>)
        ensures
            mime_option_view(r) == lookup_alias(self@.aliases, mime_type@),
    {
        self.aliases.unalias_mime_type(mime_type)
    }

    /// Checks whether two MIME types are equal, taking aliases into account.
    pub fn mime_type_equal(&self, mime_a: &Mime, mime_b: &Mime) -> (r: bool)
        ensures
            r == self@.equal(mime_a@, mime_b@),
    {
        let unaliased_a = self.aliases.canonical(mime_a);
        let unaliased_b = self.aliases.canonical(mime_b);
        unaliased_a == unaliased_b
    }

    /// Checks whether a MIME type is a subclass of another MIME type.
    pub fn mime_type_subclass(&self, mime_type: &Mime, base: &Mime) -> (r: bool)
        ensures
            r == self@.subclass(mime_type@, base@),
    {
        crate::subclass::search(&self.aliases, &self.parents, mime_type, base)
    }

    /// The paths of the directories that were loaded, in order.
    pub fn directories(&self) -> (r: Vec<String>)
        ensures
            r@.len() == self@.dirs.len(),
            forall|i: int| 0 <= i < r@.len() ==> (#[trigger] r@[i])@ == self@.dirs[i].0,
    {
        let n = self.mime_dirs.len();
        let mut out: Vec<String> = Vec::new();
        let mut i: usize = 0;
        while i < n
            invariant
                n == self.mime_dirs@.len(),
                i <= n,
                out@.len() == i,
                forall|j: int| 0 <= j < i ==> (#[trigger] out@[j])@ == self@.dirs[j].0,
            decreases n - i,
        {
            out.push(self.mime_dirs[i].path.clone());
            i += 1;
        }
        out
    }

    /// Tests whether one of the directories was changed after it was loaded.
    /// `observed` gives, for each directory in order, the time of its last
    /// change as it is now, or `None` where that could not be found out.
    pub fn stale(&self, observed: &Vec<Option<u64>>) -> (r: bool)
        ensures
            r == self@.stale(observed@),
    {
        let n = self.mime_dirs.len();
        let mut i: usize = 0;
        while i < n && i < observed.len()
            invariant
                n == self.mime_dirs@.len(),
                i <= n,
                i <= observed@.len(),
                forall|j: int| 0 <= j < i ==> !newer(#[trigger] observed@[j], self@.dirs[j].1),
            decreases n - i,
        {
            match observed[i] {
                Some(now) => {
                    if self.mime_dirs[i].mtime < now {
                        assert(newer(observed@[i as int], self@.dirs[i as int].1));
                        return true;
                    }
                },
                None => {},
            }
            i += 1;
        }
        false
    }

    /// Reloads the database if one of its directories was changed after it
    /// was loaded: all tables are emptied, and `fresh`, the directories as
    /// they are now, are loaded in order. Tells whether that was done; if
    /// not, the database is left as it is.
    pub fn reload(&mut self, observed: &Vec<Option<u64>>, fresh: &Vec<DirectoryContents>) -> (r:
        bool)
        ensures
            r == old(self)@.stale(observed@),
            r ==> final(self)@ == DatabaseView::empty().load_all(directories_view(fresh@)),
            !r ==> *final(self) == *old(self),
    {
        if !self.stale(observed) {
            return false;
        }
        *self = SharedMimeInfo::create();
        let n = fresh.len();
        let ghost all = directories_view(fresh@);
        let mut i: usize = 0;
        assert(all.subrange(0, 0) =~= Seq::<DirectoryView>::empty());
        while i < n
            invariant
                n == fresh@.len(),
                i <= n,
                all == directories_view(fresh@),
                self@ == DatabaseView::empty().load_all(all.subrange(0, i as int)),
            decreases n - i,
        {
            assert(all.subrange(0, i + 1).drop_last() =~= all.subrange(0, i as int));
            assert(all.subrange(0, i + 1).last() == fresh@[i as int]@);
            self.load_directory(&fresh[i]);
            i += 1;
        }
        assert(all.subrange(0, n as int) =~= all);
        true
    }

    /// Looks up the generic icon associated to a MIME type.
    pub fn lookup_generic_icon_name(&self, mime_type: &Mime) -> (r: Option<String>)
        ensures
            r matches Some(name) && name@ == self@.generic_icon_name(mime_type@),
    {
        let res = match find_icon(self.generic_icons.as_slice(), mime_type) {
            Some(v) => v,
            None => {
                let mut generic = mime_type.type_().to_owned();
                generic.append("-x-generic");
                generic
            },
        };
        Some(res)
    }

    /// Looks up the icons associated to a MIME type: the icon that the table
    /// gives it, if any; its identifier with `/` turned into `-`; its
    /// generic icon.
    pub fn lookup_icon_names(&self, mime_type: &Mime) -> (r: Vec<String>)
        ensures
            strings_view(r@) == self@.icon_names(mime_type@),
    {
        let mut res: Vec<String> = Vec::new();
        assert(strings_view(res@) =~= Seq::<Seq<char>>::empty());
        match find_icon(self.icons.as_slice(), mime_type) {
            Some(v) => {
                let ghost name = v@;
                res.push(v);
                assert(strings_view(res@) =~= seq![name]);
            },
            None => {},
        }
        let ghost own = strings_view(res@);
        let essence = mime_type.essence_str();
        let dashed = replace_char(essence.as_str(), '/', "-");
        let generic = match self.lookup_generic_icon_name(mime_type) {
            Some(v) => v,
            None => String::new(),
        };
        let ghost d = dashed@;
        let ghost g = generic@;
        res.push(dashed);
        res.push(generic);
        assert(strings_view(res@) =~= own + seq![d, g]);
        res
    }

    /// Retrieves what `mime_type` is an alias of, followed by the direct
    /// parents of that; `None` where `mime_type` is no alias.
    pub fn get_parents(&self, mime_type: &Mime) -> (r: Option<Vec<Mime>>)
        ensures
            match r {
                Some(v) => self@.parents_of(mime_type@) == Some(mimes_view(v@)),
                None => self@.parents_of(mime_type@) is None,
            },
    {
        let unaliased = match self.aliases.unalias_mime_type(mime_type) {
            Some(v) => v,
            None => { return None; },
        };
        let mut res: Vec<Mime> = Vec::new();
        let ghost c = unaliased@;
        match self.parents.lookup(&unaliased) {
            Some(parents) => {
                let mut rest = clone_mimes(parents);
                let ghost tail = mimes_view(rest@);
                res.push(unaliased);
                res.append(&mut rest);
                assert(mimes_view(res@) =~= seq![c] + tail);
            },
            None => {
                res.push(unaliased);
                assert(mimes_view(res@) =~= seq![c] + Seq::<MimeView>::empty());
            },
        }
        Some(res)
    }

    /// Retrieves the list of matching MIME types for the given file name,
    /// without looking at the data inside the file. The list is never
    /// empty: where no pattern matches, it holds `application/octet-stream`.
    pub fn get_mime_types_from_file_name(&self, file_name: &str) -> (r: Vec<Mime>)
        ensures
            mimes_view(r@) == self@.types_for_name(file_name@),
            r@.len() >= 1,
    {
        match self.globs.lookup_mime_type_for_file_name(file_name) {
            Some(v) => {
                proof {
                    crate::glob::lemma_sort_by_weight(
                        crate::glob::matching(self@.globs, file_name@),
                    );
                    assert(mimes_view(v@).len() == v@.len());
                }
                v
            },
            None => {
                let mut res: Vec<Mime> = Vec::new();
                res.push(Mime::octet_stream());
                assert(mimes_view(res@) =~= seq![octet_stream()]);
                res
            },
        }
    }

    /// Retrieves the MIME type for the given data, and the priority of the
    /// match. A priority of 80 or more means a certain match.
    pub fn get_mime_type_for_data(&self, data: &[u8]) -> (r: Option<(Mime, u32)>)
        ensures
            match r {
                Some((m, p)) => self@.type_for_data(data@) == Some((m@, p)),
                None => self@.type_for_data(data@) is None,
            },
    {
        if data.len() == 0 {
            return Some((Mime::zerosize(), 100));
        }
        crate::magic::lookup_data(self.magic.as_slice(), data)
    }

    /// How many bytes from the start of a file the magic rules may read, or
    /// `usize::MAX` where that does not fit.
    pub fn max_extents(&self) -> (r: usize)
        ensures
            r == clip(self@.max_extents()),
    {
        crate::magic::max_extents(self.magic.as_slice())
    }

    /// How many bytes to read from the start of a file for a guess: as many
    /// as the magic rules may read, and no more than the file holds where its
    /// size `file_len` is known.
    pub fn bytes_to_read(&self, file_len: Option<u64>) -> (r: usize)
        ensures
            r == match file_len {
                Some(n) => if n < clip(self@.max_extents()) {
                    n as usize
                } else {
                    clip(self@.max_extents())
                },
                None => clip(self@.max_extents()),
            },
    {
        let max_data_size = self.max_extents();
        match file_len {
            Some(n) => if n < max_data_size as u64 {
                n as usize
            } else {
                max_data_size
            },
            None => max_data_size,
        }
    }

    /// What the content says: the type and priority that the magic rules
    /// give `data`, `application/octet-stream` with priority 80 where there
    /// are no data or no rule matches, and `text/plain` in its place where
    /// the data look like text.
    pub fn sniff_text(&self, data: &[u8]) -> (r: (Mime, u32))
        ensures
            (r.0@, r.1) == self@.sniff_text(data@),
    {
        let found = if data.len() == 0 {
            None
        } else {
            crate::magic::lookup_data(self.magic.as_slice(), data)
        };
        let (mime, priority) = match found {
            Some(v) => v,
            None => (Mime::octet_stream(), 80),
        };
        let stream = Mime::octet_stream();
        if mime == stream && data.len() > 0 && looks_like_text(data) {
            (Mime::text_plain(), priority)
        } else {
            (mime, priority)
        }
    }

    /// The first of `names` that is a subclass of `sniffed`.
    pub fn refine(&self, names: &Vec<Mime>, sniffed: &Mime) -> (r: Option<Mime>)
        ensures
            mime_option_view(r) == first_refining(self@, mimes_view(names@), sniffed@),
    {
        let n = names.len();
        let ghost all = mimes_view(names@);
        let mut i: usize = 0;
        assert(all.subrange(0, n as int) =~= all);
        while i < n
            invariant
                n == names@.len(),
                i <= n,
                all == mimes_view(names@),
                first_refining(self@, all, sniffed@) == first_refining(
                    self@,
                    all.subrange(i as int, n as int),
                    sniffed@,
                ),
            decreases n - i,
        {
            let ghost rest = all.subrange(i as int, n as int);
            assert(rest[0] == names@[i as int]@);
            assert(rest.drop_first() =~= all.subrange(i + 1, n as int));
            if self.mime_type_subclass(&names[i], sniffed) {
                return Some(names[i].clone());
            }
            i += 1;
        }
        None
    }

    /// Guesses the MIME type of a file whose name the patterns give the
    /// types `names`, none where no name is known, from these, the first
    /// bytes of its content and its metadata.
    pub fn guess_from_names(
        &self,
        names: &Vec<Mime>,
        data: &[u8],
        metadata: Option<FileMetadata>,
    ) -> (r: Guess)
        ensures
            r@ == self@.guess_from_names(mimes_view(names@), data@, metadata),
    {
        match metadata {
            Some(md) => match md.kind {
                FileKind::Directory => {
                    return Guess { mime: Mime::inode_directory(), uncertain: true };
                },
                FileKind::Symlink => {
                    return Guess { mime: Mime::inode_symlink(), uncertain: true };
                },
                FileKind::Regular => {
                    if md.len == 0 {
                        return Guess { mime: Mime::zerosize(), uncertain: true };
                    }
                },
                FileKind::Other => {},
            },
            None => {},
        }
        let ghost views = mimes_view(names@);
        let stream = Mime::octet_stream();
        if names.len() == 1 {
            assert(views[0] == names@[0]@);
            if !(names[0] == stream) {
                return Guess { mime: names[0].clone(), uncertain: false };
            }
        }
        let (mime, priority) = self.sniff_text(data);
        if names.len() == 0 {
            let uncertain = mime == stream;
            return Guess { mime, uncertain };
        }
        assert(views[0] == names@[0]@);
        if priority >= 80 {
            return Guess { mime, uncertain: false };
        }
        match self.refine(names, &mime) {
            Some(n) => Guess { mime: n, uncertain: false },
            None => Guess { mime: names[0].clone(), uncertain: true },
        }
    }

    /// Creates a new [`GuessBuilder`] that can be used to guess the MIME type
    /// of a file name, its contents, or both.
    pub fn guess_mime_type(&self) -> (r: GuessBuilder<'_>)
        ensures
            r@ == (BuilderView {
                db: self@,
                file_name: None,
                data: Seq::empty(),
                metadata: None,
            }),
    {
        GuessBuilder { db: self, file_name: None, data: Vec::new(), metadata: None }
    }
}

/// The result of the `guess` method of [`GuessBuilder`].
#[derive(Debug)]
pub struct Guess {
    mime: Mime,
    uncertain: bool,
}

impl View for Guess {
    type V = GuessView;

    closed spec fn view(&self) -> GuessView {
        GuessView { mime: self.mime@, uncertain: self.uncertain }
    }
}

impl Guess {
    /// The guessed MIME type.
    pub fn mime_type(&self) -> (r: &Mime)
        ensures
            r@ == self@.mime,
    {
        &self.mime
    }

    /// Whether the guessed MIME type is uncertain.
    pub fn uncertain(&self) -> (r: bool)
        ensures
            r == self@.uncertain,
    {
        self.uncertain
    }
}

/// A builder type to specify the parameters for guessing a MIME type: the
/// name of the file, the first bytes of its content, and its metadata.
pub struct GuessBuilder<'a> {
    db: &'a SharedMimeInfo,
    file_name: Option<String>,
    data: Vec<u8>,
    metadata: Option<FileMetadata>,
}

/// What a builder holds.
pub struct BuilderView {
    /// The database that is asked.
    pub db: DatabaseView,
    /// The file name that was set, if one was.
    pub file_name: Option<Seq<char>>,
    /// The data that were set.
    pub data: Seq<u8>,
    /// The metadata that were set, if any were.
    pub metadata: Option<FileMetadata>,
}

/// The first `n` items of `s`, or all of `s` where it has fewer.
pub open spec fn at_most<T>(s: Seq<T>, n: nat) -> Seq<T> {
    if s.len() > n {
        s.subrange(0, n as int)
    } else {
        s
    }
}

impl<'a> View for GuessBuilder<'a> {
    type V = BuilderView;

    closed spec fn view(&self) -> BuilderView {
        BuilderView {
            db: self.db@,
            file_name: match self.file_name {
                Some(name) => Some(name@),
                None => None,
            },
            data: self.data@,
            metadata: self.metadata,
        }
    }
}

impl<'a> GuessBuilder<'a> {
    /// Sets the file name to be used to guess its MIME type: the last
    /// component of a path.
    pub fn file_name(&mut self, name: &str) -> (r: &mut Self)
        ensures
            r@ == (BuilderView { file_name: Some(name@), ..old(self)@ }),
            *final(self) == *final(r),
    {
        self.file_name = Some(name.to_owned());
        self
    }

    /// Adds data for which the MIME type is to be guessed: of `data`, as
    /// many bytes as the magic rules may read.
    pub fn data(&mut self, data: &[u8]) -> (r: &mut Self)
        ensures
            r@ == (BuilderView {
                data: old(self)@.data + at_most(data@, old(self)@.db.max_extents()),
                ..old(self)@
            }),
            *final(self) == *final(r),
    {
        let max_data_size = self.db.max_extents();
        let n = if data.len() > max_data_size {
            max_data_size
        } else {
            data.len()
        };
        let ghost before = self.data@;
        let mut i: usize = 0;
        while i < n
            invariant
                n <= data@.len(),
                i <= n,
                self.data@ == before + data@.subrange(0, i as int),
                self.db == old(self).db,
                self.file_name == old(self).file_name,
                self.metadata == old(self).metadata,
            decreases n - i,
        {
            self.data.push(data[i]);
            assert(self.data@ =~= before + data@.subrange(0, i + 1));
            i += 1;
        }
        assert(data@.subrange(0, data@.len() as int) =~= data@);
        self
    }

    /// Sets the metadata of the file for which the MIME type is to be guessed.
    pub fn metadata(&mut self, metadata: FileMetadata) -> (r: &mut Self)
        ensures
            r@ == (BuilderView { metadata: Some(metadata), ..old(self)@ }),
            *final(self) == *final(r),
    {
        self.metadata = Some(metadata);
        self
    }

    /// Guesses the MIME type from what was set on the builder. The result
    /// holds the guessed MIME type and whether the guess is uncertain.
    pub fn guess(&self) -> (r: Guess)
        ensures
            r@ == self@.db.guess(self@.file_name, self@.data, self@.metadata),
    {
        let known = match self.metadata {
            Some(md) => match md.kind {
                FileKind::Directory => true,
                FileKind::Symlink => true,
                FileKind::Regular => md.len == 0,
                FileKind::Other => false,
            },
            None => false,
        };
        let names: Vec<Mime> = if known {
            Vec::new()
        } else {
            match &self.file_name {
                Some(name) => self.db.get_mime_types_from_file_name(name.as_str()),
                None => Vec::new(),
            }
        };
        assert(self@.file_name is None ==> mimes_view(names@) =~= Seq::<MimeView>::empty());
        self.db.guess_from_names(&names, self.data.as_slice(), self.metadata)
    }
}

} // verus!
