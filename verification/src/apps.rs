//! The entries of the launcher: what they are, and how the list of them is put
//! together.
use vstd::hash_map::StringHashMap;
use vstd::prelude::*;
use vstd::utf8::encode_utf8;
use crate::index::{AppEntry, AppModel};
use crate::json;
use crate::text;

verus! {

/// Side length of an icon, in pixels.
pub const ICON_SIZE: u32 = 48;

/// Bytes of an icon: four to a pixel.
pub const ICON_BYTES: usize = 9216;

/// What an entry is, which decides the section that shows it.
#[derive(Debug, Clone, Copy, PartialEq, Eq, Structural)]
pub enum EntryKind {
    App,
    File,
    /// A package in the Install section.
    Package,
    /// A box of applications.
    Group,
    /// An invisible carrier of an icon.
    Asset,
}

/// One file of the home directory, for searching.
#[derive(Debug, Clone)]
pub struct FileEntry {
    /// What a search matches.
    pub name: String,
    /// Its absolute path.
    pub path: String,
    pub is_dir: bool,
}

// ---------------------------------------------------------------------------
// Rescans
// ---------------------------------------------------------------------------

/// The requests for a rescan of the applications.
#[derive(Debug, Clone, Copy, PartialEq, Eq)]
pub struct Indexer {
    /// Whether a rescan is asked for and not yet begun.
    pub requested: bool,
    /// Whether anyone takes requests.
    pub alive: bool,
}

impl Indexer {
    /// The first scan is asked for from the start.
    pub fn new() -> (r: Self)
        ensures
            r.requested,
            r.alive,
    {
        Indexer { requested: true, alive: true }
    }

    /// Ask for a rescan. Requests that wait are one; where nobody takes them,
    /// nothing happens.
    pub fn request_rescan(&mut self)
        ensures
            *final(self) == (Indexer {
                requested: old(self).requested || old(self).alive,
                ..*old(self)
            }),
    {
        if self.alive {
            self.requested = true;
        }
    }

    /// Take the request that waits, if one does.
    pub fn take_request(&mut self) -> (r: bool)
        ensures
            r == old(self).requested,
            *final(self) == (Indexer { requested: false, ..*old(self) }),
    {
        let r: bool = self.requested;
        self.requested = false;
        r
    }
}

/// Requests that come before the first is taken are one: after it, none waits.
pub proof fn law_requests_coalesce(before: Indexer, once: Indexer, twice: Indexer)
    requires
        once == (Indexer { requested: before.requested || before.alive, ..before }),
        twice == (Indexer { requested: once.requested || once.alive, ..once }),
    ensures
        twice == once,
{
}

// ---------------------------------------------------------------------------
// The list of entries
// ---------------------------------------------------------------------------

/// The id and the icon of an invisible entry that carries an icon for others.
pub open spec fn asset(k: int) -> (Seq<char>, Seq<char>) {
    if k == 0 {
        ("asset-folder"@, "folder"@)
    } else if k == 1 {
        ("asset-file"@, "text-x-generic"@)
    } else if k == 2 {
        ("asset-pkg"@, "package-x-generic"@)
    } else if k == 3 {
        ("asset-audio"@, "audio-x-generic"@)
    } else if k == 4 {
        ("asset-video"@, "video-x-generic"@)
    } else if k == 5 {
        ("asset-image"@, "image-x-generic"@)
    } else if k == 6 {
        ("asset-pdf"@, "application-pdf"@)
    } else if k == 7 {
        ("asset-archive"@, "application-x-archive"@)
    } else if k == 8 {
        ("asset-doc"@, "x-office-document"@)
    } else {
        ("asset-code"@, "text-x-script"@)
    }
}

/// How many such entries there are.
pub const ASSETS: usize = 10;

/// An invisible entry: it has no name, so that no search finds it.
pub open spec fn asset_model(k: int) -> AppModel {
    AppModel {
        id: asset(k).0,
        name: Seq::empty(),
        description: None,
        command: "true"@,
        icon: Some(asset(k).1),
        needs_terminal: false,
    }
}

fn asset_entry(id: &str, icon: &str) -> (r: AppEntry)
    ensures
        r@ == (AppModel {
            id: id@,
            name: Seq::empty(),
            description: None,
            command: "true"@,
            icon: Some(icon@),
            needs_terminal: false,
        }),
{
    let r = AppEntry {
        id: text::copy_text(id),
        name: String::new(),
        description: None,
        command: text::copy_text("true"),
        icon: Some(text::copy_text(icon)),
        needs_terminal: false,
    };
    assert(r@.name == Seq::<char>::empty());
    r
}

/// Entries as plain text.
pub open spec fn models(v: Seq<AppEntry>) -> Seq<AppModel> {
    Seq::new(v.len(), |i: int| v[i]@)
}

/// The invisible entries.
pub fn icon_assets() -> (r: Vec<AppEntry>)
    ensures
        models(r@) == Seq::new(ASSETS as nat, |k: int| asset_model(k)),
{
    let mut v: Vec<AppEntry> = Vec::new();
    v.push(asset_entry("asset-folder", "folder"));
    v.push(asset_entry("asset-file", "text-x-generic"));
    v.push(asset_entry("asset-pkg", "package-x-generic"));
    v.push(asset_entry("asset-audio", "audio-x-generic"));
    v.push(asset_entry("asset-video", "video-x-generic"));
    v.push(asset_entry("asset-image", "image-x-generic"));
    v.push(asset_entry("asset-pdf", "application-pdf"));
    v.push(asset_entry("asset-archive", "application-x-archive"));
    v.push(asset_entry("asset-doc", "x-office-document"));
    v.push(asset_entry("asset-code", "text-x-script"));
    v
}

/// A package that the launcher manages: its attribute, and the desktop ids that
/// it brings.
#[derive(Debug)]
pub struct ManagedPackage {
    pub attr: String,
    pub desktop_ids: Vec<String>,
    /// The command that prints its banner.
    pub banner: String,
}

/// Whether one of the applications comes from a package.
pub open spec fn covered(p: ManagedPackage, ids: Seq<Seq<char>>) -> bool {
    exists|i: int| 0 <= i < p.desktop_ids@.len() && ids.contains((#[trigger] p.desktop_ids@[i])@)
}

/// The entry of a package without an application of its own: a terminal in
/// which the tool can be run.
pub open spec fn cli_model(p: ManagedPackage) -> AppModel {
    AppModel {
        id: p.attr@,
        name: p.attr@,
        description: Some("Command-line tool"@),
        command: p.banner@ + " exec \"${SHELL:-bash}\""@,
        icon: Some("package-x-generic"@),
        needs_terminal: true,
    }
}

/// The entries of the packages that no application stands for.
pub open spec fn cli_models(managed: Seq<ManagedPackage>, ids: Seq<Seq<char>>) -> Seq<AppModel>
    decreases managed.len(),
{
    if managed.len() == 0 {
        Seq::empty()
    } else {
        let before = cli_models(managed.drop_last(), ids);
        if covered(managed.last(), ids) {
            before
        } else {
            before.push(cli_model(managed.last()))
        }
    }
}

fn is_covered(p: &ManagedPackage, ids: &[String]) -> (r: bool)
    ensures
        r == covered(*p, text::texts(ids@)),
{
    for i in 0..p.desktop_ids.len()
        invariant
            forall|k: int|
                0 <= k < i ==> !text::texts(ids@).contains((#[trigger] p.desktop_ids@[k])@),
    {
        if text::any_same(ids, &p.desktop_ids[i]) {
            assert(text::texts(ids@).contains(p.desktop_ids@[i as int]@));
            return true;
        }
    }
    false
}

/// The entries of the packages that no application stands for. `ids` are the ids
/// of the applications.
pub fn managed_cli_tiles(ids: &[String], managed: &[ManagedPackage]) -> (r: Vec<AppEntry>)
    ensures
        models(r@) == cli_models(managed@, text::texts(ids@)),
{
    let mut out: Vec<AppEntry> = Vec::new();
    assert(managed@.take(0) == Seq::<ManagedPackage>::empty());
    assert(models(out@) == cli_models(managed@.take(0), text::texts(ids@)));
    for i in 0..managed.len()
        invariant
            models(out@) == cli_models(managed@.take(i as int), text::texts(ids@)),
    {
        assert(managed@.take(i + 1).drop_last() == managed@.take(i as int));
        assert(managed@.take(i + 1).last() == managed@[i as int]);
        let p: &ManagedPackage = &managed[i];
        if !is_covered(p, ids) {
            let e = AppEntry {
                id: text::copy_text(&p.attr),
                name: text::copy_text(&p.attr),
                description: Some(text::copy_text("Command-line tool")),
                command: text::concat(&p.banner, " exec \"${SHELL:-bash}\""),
                icon: Some(text::copy_text("package-x-generic")),
                needs_terminal: true,
            };
            assert(e@ == cli_model(managed@[i as int]));
            let ghost before = out@;
            out.push(e);
            assert(models(out@) == models(before).push(e@));
        }
    }
    assert(managed@.take(managed@.len() as int) == managed@);
    out
}

/// The whole list: applications, tools, folders, then the invisible entries,
/// and the kind of each.
pub fn assemble_entries(apps: Vec<AppEntry>, tools: Vec<AppEntry>, folders: Vec<AppEntry>) -> (r: (
    Vec<AppEntry>,
    Vec<EntryKind>,
))
    requires
        apps@.len() + tools@.len() + folders@.len() + ASSETS <= usize::MAX,
    ensures
        models(r.0@) == models(apps@) + models(tools@) + models(folders@) + Seq::new(
            ASSETS as nat,
            |k: int| asset_model(k),
        ),
        r.1@ == Seq::new(
            (apps@.len() + tools@.len() + folders@.len() + ASSETS) as nat,
            |i: int|
                if i < apps@.len() + tools@.len() {
                    EntryKind::App
                } else if i < apps@.len() + tools@.len() + folders@.len() {
                    EntryKind::File
                } else {
                    EntryKind::Asset
                },
        ),
{
    let n_apps: usize = apps.len() + tools.len();
    let n_files: usize = n_apps + folders.len();
    let mut entries = apps;
    let mut tools = tools;
    let mut folders = folders;
    let mut assets = icon_assets();
    let ghost parts = (apps@, tools@, folders@, assets@);
    entries.append(&mut tools);
    entries.append(&mut folders);
    entries.append(&mut assets);
    assert(entries@ == parts.0 + parts.1 + parts.2 + parts.3);
    assert(models(entries@) == models(parts.0) + models(parts.1) + models(parts.2) + models(
        parts.3,
    ));
    assert(models(parts.3).len() == parts.3.len());
    let n: usize = entries.len();
    let mut kinds: Vec<EntryKind> = Vec::new();
    for i in 0..n
        invariant
            n_apps <= n_files <= n,
            kinds@ == Seq::new(
                i as nat,
                |k: int|
                    if k < n_apps {
                        EntryKind::App
                    } else if k < n_files {
                        EntryKind::File
                    } else {
                        EntryKind::Asset
                    },
            ),
    {
        if i < n_apps {
            kinds.push(EntryKind::App);
        } else if i < n_files {
            kinds.push(EntryKind::File);
        } else {
            kinds.push(EntryKind::Asset);
        }
    }
    (entries, kinds)
}

// ---------------------------------------------------------------------------
// The walk through the home directory
// ---------------------------------------------------------------------------

/// Most files that are kept for searching.
pub const FILE_INDEX_CAP: usize = 50_000;

/// How many levels of directories are walked.
pub const FILE_WALK_DEPTH: usize = 6;

/// What a directory holds, as the walk sees it.
#[derive(Debug)]
pub struct WalkChild {
    pub name: String,
    pub path: String,
    /// Whether it is a directory; `None` where its type is unknown, or it is a
    /// link.
    pub is_dir: Option<bool>,
}

/// A walk through directories, level by level.
#[derive(Debug)]
pub struct HomeWalk {
    /// The directories still to visit, with their depths.
    pub queue: Vec<(String, usize)>,
    /// The files found so far.
    pub found: Vec<FileEntry>,
}

/// Whether the walk keeps an entry: not a hidden one, not a tree of build
/// products, not a link.
pub open spec fn is_walked(c: WalkChild) -> bool {
    &&& !text::begins_with(c.name@, "."@)
    &&& c.name@ != "target"@
    &&& c.name@ != "node_modules"@
    &&& c.is_dir is Some
}

/// What is kept of an entry.
pub open spec fn file_model(f: FileEntry) -> (Seq<char>, Seq<char>, bool) {
    (f.name@, f.path@, f.is_dir)
}

/// The files as plain values.
pub open spec fn file_models(v: Seq<FileEntry>) -> Seq<(Seq<char>, Seq<char>, bool)> {
    Seq::new(v.len(), |i: int| file_model(v[i]))
}

/// The queue as plain values.
pub open spec fn queue_model(v: Seq<(String, usize)>) -> Seq<(Seq<char>, int)> {
    Seq::new(v.len(), |i: int| (v[i].0@, v[i].1 as int))
}

/// What the entries of a directory at depth `depth` add to the files, up to
/// `room` of them.
pub open spec fn walked_files(children: Seq<WalkChild>, room: int) -> Seq<
    (Seq<char>, Seq<char>, bool),
>
    decreases children.len(),
{
    if children.len() == 0 {
        Seq::empty()
    } else {
        let before = walked_files(children.drop_last(), room);
        let c = children.last();
        if is_walked(c) && before.len() < room {
            before.push((c.name@, c.path@, c.is_dir->Some_0))
        } else {
            before
        }
    }
}

/// What they add to the directories to visit.
pub open spec fn walked_dirs(children: Seq<WalkChild>, depth: int, room: int) -> Seq<
    (Seq<char>, int),
>
    decreases children.len(),
{
    if children.len() == 0 {
        Seq::empty()
    } else {
        let before = walked_dirs(children.drop_last(), depth, room);
        let c = children.last();
        if is_walked(c) && walked_files(children.drop_last(), room).len() < room && c.is_dir
            == Some(true) && depth + 1 < FILE_WALK_DEPTH {
            before.push((c.path@, depth + 1))
        } else {
            before
        }
    }
}

fn walks(c: &WalkChild) -> (r: bool)
    ensures
        r == is_walked(*c),
{
    !text::starts_with(&c.name, ".") && !text::same(&c.name, "target") && !text::same(
        &c.name,
        "node_modules",
    ) && c.is_dir.is_some()
}

impl HomeWalk {
    /// The walk keeps at most [`FILE_INDEX_CAP`] files and goes no deeper than
    /// [`FILE_WALK_DEPTH`] levels.
    pub open spec fn wf(self) -> bool {
        &&& self.found@.len() <= FILE_INDEX_CAP
        &&& forall|i: int| 0 <= i < self.queue@.len() ==> (#[trigger] self.queue@[i]).1
            < FILE_WALK_DEPTH
    }

    /// Begin at the home directory.
    pub fn begin(home: &str) -> (r: Self)
        ensures
            r.wf(),
            r.found@.len() == 0,
            queue_model(r.queue@) == seq![(home@, 0int)],
    {
        let mut queue: Vec<(String, usize)> = Vec::new();
        queue.push((text::copy_text(home), 0));
        assert(queue_model(queue@) == seq![(home@, 0int)]);
        HomeWalk { queue, found: Vec::new() }
    }

    /// The directory to read next, with its depth; none where the walk is over
    /// or has found enough.
    pub fn next_dir(&mut self) -> (r: Option<(String, usize)>)
        requires
            old(self).wf(),
        ensures
            final(self).wf(),
            final(self).found == old(self).found,
            match r {
                Some(d) => old(self).found@.len() < FILE_INDEX_CAP && old(self).queue@.len() > 0
                    && d == old(self).queue@[0] && final(self).queue@ == old(self).queue@.skip(1)
                    && d.1 < FILE_WALK_DEPTH,
                None => (old(self).found@.len() >= FILE_INDEX_CAP || old(self).queue@.len() == 0)
                    && final(self).queue == old(self).queue,
            },
    {
        if self.found.len() >= FILE_INDEX_CAP || self.queue.len() == 0 {
            return None;
        }
        let d = self.queue.remove(0);
        assert(self.queue@ == old(self).queue@.skip(1));
        Some(d)
    }

    /// A directory at depth `depth` has been read.
    pub fn visit(&mut self, depth: usize, children: &[WalkChild])
        requires
            old(self).wf(),
            depth < FILE_WALK_DEPTH,
        ensures
            final(self).wf(),
            ({
                let room = FILE_INDEX_CAP - old(self).found@.len();
                &&& file_models(final(self).found@) == file_models(old(self).found@)
                    + walked_files(children@, room)
                &&& queue_model(final(self).queue@) == queue_model(old(self).queue@)
                    + walked_dirs(children@, depth as int, room)
            }),
    {
        let ghost room = FILE_INDEX_CAP - self.found@.len();
        let ghost files = file_models(self.found@);
        let ghost dirs = queue_model(self.queue@);
        assert(children@.take(0) == Seq::<WalkChild>::empty());
        assert(files + walked_files(children@.take(0), room) == files);
        assert(dirs + walked_dirs(children@.take(0), depth as int, room) == dirs);
        for i in 0..children.len()
            invariant
                self.wf(),
                depth < FILE_WALK_DEPTH,
                room == FILE_INDEX_CAP - files.len(),
                file_models(self.found@) == files + walked_files(children@.take(i as int), room),
                queue_model(self.queue@) == dirs + walked_dirs(
                    children@.take(i as int),
                    depth as int,
                    room,
                ),
        {
            assert(children@.take(i + 1).drop_last() == children@.take(i as int));
            assert(children@.take(i + 1).last() == children@[i as int]);
            assert(file_models(self.found@).len() == self.found@.len());
            let c: &WalkChild = &children[i];
            if walks(c) && self.found.len() < FILE_INDEX_CAP {
                let is_dir: bool = match c.is_dir {
                    Some(d) => d,
                    None => false,
                };
                if is_dir && depth + 1 < FILE_WALK_DEPTH {
                    let ghost before = self.queue@;
                    self.queue.push((text::copy_text(&c.path), depth + 1));
                    assert(queue_model(self.queue@) == queue_model(before).push(
                        (c.path@, depth + 1),
                    ));
                }
                let ghost had = self.found@;
                self.found.push(
                    FileEntry {
                        name: text::copy_text(&c.name),
                        path: text::copy_text(&c.path),
                        is_dir,
                    },
                );
                assert(file_models(self.found@) == file_models(had).push(
                    (c.name@, c.path@, is_dir),
                ));
            }
        }
        assert(children@.take(children@.len() as int) == children@);
    }
}

/// A visit finds no hidden file and no build tree, and no more than there is
/// room for.
pub proof fn law_the_walk_is_bounded(children: Seq<WalkChild>, room: int, k: int)
    requires
        0 <= room,
        0 <= k < walked_files(children, room).len(),
    ensures
        walked_files(children, room).len() <= room,
        ({
            let f = walked_files(children, room)[k];
            &&& !text::begins_with(f.0, "."@)
            &&& f.0 != "target"@
            &&& f.0 != "node_modules"@
        }),
    decreases children.len(),
{
    let before = walked_files(children.drop_last(), room);
    lemma_walk_has_room(children, room);
    if k < before.len() {
        law_the_walk_is_bounded(children.drop_last(), room, k);
        assert(walked_files(children, room)[k] == before[k]);
    }
}

proof fn lemma_walk_has_room(children: Seq<WalkChild>, room: int)
    requires
        0 <= room,
    ensures
        walked_files(children, room).len() <= room,
    decreases children.len(),
{
    if children.len() > 0 {
        lemma_walk_has_room(children.drop_last(), room);
    }
}

// ---------------------------------------------------------------------------
// Icons on disk
// ---------------------------------------------------------------------------

/// One step of the 64-bit FNV-1a hash.
pub open spec fn fnv_step(h: u64, b: u8) -> u64 {
    (((h ^ (b as u64)) * 0x100000001b3) % 0x1_0000_0000_0000_0000) as u64
}

/// The 64-bit FNV-1a hash.
pub open spec fn fnv(bytes: Seq<u8>) -> u64
    decreases bytes.len(),
{
    if bytes.len() == 0 {
        0xcbf29ce484222325
    } else {
        fnv_step(fnv(bytes.drop_last()), bytes.last())
    }
}

/// The 64-bit FNV-1a hash of a text.
pub fn fnv1a64(s: &str) -> (r: u64)
    ensures
        r == fnv(encode_utf8(s@)),
{
    let bytes = s.as_bytes();
    assert(bytes@ == encode_utf8(s@));
    let mut h: u64 = 0xcbf29ce484222325;
    assert(bytes@.take(0) == Seq::<u8>::empty());
    for i in 0..bytes.len()
        invariant
            h == fnv(bytes@.take(i as int)),
    {
        assert(bytes@.take(i + 1).drop_last() == bytes@.take(i as int));
        assert(bytes@.take(i + 1).last() == bytes@[i as int]);
        let x: u64 = h ^ (bytes[i] as u64);
        h = x.wrapping_mul(0x100000001b3);
    }
    assert(bytes@.take(bytes@.len() as int) == bytes@);
    h
}

/// One step of the 32-bit FNV-1a hash.
pub open spec fn fnv32_step(h: u32, b: u8) -> u32 {
    (((h ^ (b as u32)) * 16777619) % 0x1_0000_0000) as u32
}

/// The 32-bit FNV-1a hash.
pub open spec fn fnv32(bytes: Seq<u8>) -> u32
    decreases bytes.len(),
{
    if bytes.len() == 0 {
        2166136261
    } else {
        fnv32_step(fnv32(bytes.drop_last()), bytes.last())
    }
}

/// The hue, in degrees, of the tile of an application without an icon: from its
/// name alone, so that it is the same every time.
pub fn placeholder_hue(name: &str) -> (r: u32)
    ensures
        r == fnv32(encode_utf8(name@)) % 360,
        r < 360,
{
    let bytes = name.as_bytes();
    assert(bytes@ == encode_utf8(name@));
    let mut h: u32 = 2166136261;
    assert(bytes@.take(0) == Seq::<u8>::empty());
    for i in 0..bytes.len()
        invariant
            h == fnv32(bytes@.take(i as int)),
    {
        assert(bytes@.take(i + 1).drop_last() == bytes@.take(i as int));
        assert(bytes@.take(i + 1).last() == bytes@[i as int]);
        let x: u32 = h ^ (bytes[i] as u32);
        h = x.wrapping_mul(16777619);
    }
    assert(bytes@.take(bytes@.len() as int) == bytes@);
    h % 360
}

/// The name of the file in which the pixels of an icon are kept: a hash of the
/// icon's path, its length, and the second of its last change.
pub fn cache_file_name(path: &str, len: u64, mtime: u64) -> (r: String)
    ensures
        r@ == text::hex_digits(
            fnv(
                encode_utf8(
                    path@ + "|"@ + text::decimal(len as nat) + "|"@ + text::decimal(mtime as nat),
                ),
            ) as nat,
            16,
        ),
{
    let a = text::concat(&text::concat(path, "|"), &text::number(len));
    let key = text::concat(&text::concat(&a, "|"), &text::number(mtime));
    text::hex16(fnv1a64(&key))
}

/// Pixels read back from disk, where they are whole: a file of another size is
/// cut short, or of another icon size.
pub fn accept_raster(pixels: Vec<u8>) -> (r: Option<Vec<u8>>)
    ensures
        r == (if pixels@.len() == ICON_BYTES {
            Some(pixels)
        } else {
            None
        }),
{
    if pixels.len() == ICON_BYTES {
        Some(pixels)
    } else {
        None
    }
}

/// What is known of an icon before any file is read.
#[derive(Debug)]
pub enum IconName {
    /// The entry names none.
    Missing,
    /// It is named by its path.
    Path(String),
    /// It is to be looked up by its name.
    Themed(String),
}

/// How an entry names its icon.
pub fn icon_name(icon: &Option<String>) -> (r: IconName)
    ensures
        match (*icon, r) {
            (None, IconName::Missing) => true,
            (Some(n), IconName::Path(p)) => text::begins_with(n@, "/"@) && p@ == n@,
            (Some(n), IconName::Themed(t)) => !text::begins_with(n@, "/"@) && t@ == n@,
            _ => false,
        },
{
    match icon {
        Some(n) => if text::starts_with(n, "/") {
            IconName::Path(text::copy_text(n))
        } else {
            IconName::Themed(text::copy_text(n))
        },
        None => IconName::Missing,
    }
}

/// The key under which the pixels of an entry are kept: the path of its icon,
/// else one made of its name.
pub fn raster_key(path: &Option<String>, name: &str) -> (r: String)
    ensures
        r@ == (match *path {
            Some(p) => p@,
            None => "placeholder:"@ + name@,
        }),
{
    match path {
        Some(p) => text::copy_text(p),
        None => text::concat("placeholder:", name),
    }
}

/// Where the pixels of an icon come from: from disk, else from its file, which
/// are then to be kept on disk, else from a tile made of its name. Returns the
/// pixels, whether they are such a tile, and whether to keep them.
pub fn icon_for(
    disk: Option<Vec<u8>>,
    rasterized: Option<Vec<u8>>,
    placeholder: Vec<u8>,
) -> (r: (Vec<u8>, bool, bool))
    ensures
        r == (match (disk, rasterized) {
            (Some(p), _) => (p, false, false),
            (None, Some(p)) => (p, false, true),
            (None, None) => (placeholder, true, false),
        }),
{
    match disk {
        Some(p) => (p, false, false),
        None => match rasterized {
            Some(p) => (p, false, true),
            None => (placeholder, true, false),
        },
    }
}

// ---------------------------------------------------------------------------
// Where icons are
// ---------------------------------------------------------------------------

/// The directories in which icons may be: of the data home, of each data
/// directory, of the home directory, and the flat one of the system.
pub open spec fn icon_dirs_of(
    home: Seq<char>,
    data_home: Option<Seq<char>>,
    data_dirs: Option<Seq<char>>,
) -> Seq<Seq<char>> {
    let own = match data_home {
        Some(d) => d,
        None => home + "/.local/share"@,
    };
    let dirs = match data_dirs {
        Some(d) => d,
        None => "/usr/local/share:/usr/share"@,
    };
    seq![own + "/icons"@] + text::parts(dirs, ':').map_values(|d: Seq<char>| d + "/icons"@)
        + seq![home + "/.icons"@, "/usr/share/pixmaps"@]
}

/// The directories in which icons may be.
pub fn icon_dirs(home: &str, data_home: Option<&str>, data_dirs: Option<&str>) -> (r: Vec<String>)
    ensures
        text::texts(r@) == icon_dirs_of(
            home@,
            match data_home {
                Some(d) => Some(d@),
                None => None,
            },
            match data_dirs {
                Some(d) => Some(d@),
                None => None,
            },
        ),
{
    let own: String = match data_home {
        Some(d) => text::copy_text(d),
        None => text::concat(home, "/.local/share"),
    };
    let dirs: Vec<String> = match data_dirs {
        Some(d) => text::split_on(d, ':'),
        None => text::split_on("/usr/local/share:/usr/share", ':'),
    };
    let mut out: Vec<String> = Vec::new();
    out.push(text::concat(&own, "/icons"));
    let ghost head = seq![own@ + "/icons"@];
    let ghost all = text::texts(dirs@);
    let ghost within = |d: Seq<char>| d + "/icons"@;
    assert(text::texts(out@) == head + all.take(0).map_values(within));
    for i in 0..dirs.len()
        invariant
            all == text::texts(dirs@),
            within == (|d: Seq<char>| d + "/icons"@),
            text::texts(out@) == head + all.take(i as int).map_values(within),
    {
        let ghost before = out@;
        out.push(text::concat(&dirs[i], "/icons"));
        assert(all.take(i + 1) == all.take(i as int).push(dirs@[i as int]@));
        assert(text::texts(out@) == text::texts(before).push(dirs@[i as int]@ + "/icons"@));
        assert(all.take(i + 1).map_values(within) == all.take(i as int).map_values(within).push(
            dirs@[i as int]@ + "/icons"@,
        ));
    }
    assert(all.take(all.len() as int) == all);
    let ghost before = out@;
    out.push(text::concat(home, "/.icons"));
    out.push(text::copy_text("/usr/share/pixmaps"));
    assert(text::texts(out@) == text::texts(before) + seq![
        home@ + "/.icons"@,
        "/usr/share/pixmaps"@,
    ]);
    out
}

/// The themes to look in: the configured one, then those of the well-known ones
/// that are installed.
pub open spec fn chain_of(configured: Seq<char>, installed: Seq<Seq<char>>, n: int) -> Seq<Seq<char>>
    decreases n,
{
    if n <= 0 {
        seq![configured]
    } else {
        let before = chain_of(configured, installed, n - 1);
        let t = if n == 1 {
            "Papirus-Dark"@
        } else if n == 2 {
            "Papirus"@
        } else {
            "breeze"@
        };
        if before.contains(t) || !installed.contains(t) {
            before
        } else {
            before.push(t)
        }
    }
}

/// The themes to look in, best first.
pub fn theme_chain(configured: &str, installed: &[String]) -> (r: Vec<String>)
    ensures
        text::texts(r@) == chain_of(configured@, text::texts(installed@), 3),
{
    let mut chain: Vec<String> = Vec::new();
    chain.push(text::copy_text(configured));
    assert(text::texts(chain@) == chain_of(configured@, text::texts(installed@), 0));
    for n in 0..3
        invariant
            text::texts(chain@) == chain_of(configured@, text::texts(installed@), n as int),
    {
        let n: usize = n;
        let t: &str = if n == 0 {
            "Papirus-Dark"
        } else if n == 1 {
            "Papirus"
        } else {
            "breeze"
        };
        if !text::any_same(&chain, t) && text::any_same(installed, t) {
            let ghost before = chain@;
            chain.push(text::copy_text(t));
            assert(text::texts(chain@) == text::texts(before).push(t@));
        }
    }
    chain
}

/// The names of the icons that exist, each under its lowercase; the first of two
/// that read the same there stays.
pub struct IconNames {
    pub names: StringHashMap<String>,
}

impl IconNames {
    /// No names.
    pub fn new() -> (r: Self)
        ensures
            r.names@ == Map::<Seq<char>, String>::empty(),
    {
        IconNames { names: StringHashMap::new() }
    }

    /// An icon file with this stem exists.
    pub fn note(&mut self, stem: &str)
        ensures
            ({
                let key = text::lowercase(stem@);
                if old(self).names@.contains_key(key) {
                    final(self).names@ == old(self).names@
                } else {
                    &&& final(self).names@.dom() == old(self).names@.dom().insert(key)
                    &&& final(self).names@[key]@ == stem@
                    &&& forall|k: Seq<char>|
                        k != key && old(self).names@.contains_key(k) ==> #[trigger] final(
                            self).names@[k] == old(self).names@[k]
                }
            }),
    {
        self.note_as(text::to_lower(stem), stem);
    }

    /// An icon file with this stem exists, which reads `key` in lowercase.
    pub fn note_as(&mut self, key: String, stem: &str)
        ensures
            if old(self).names@.contains_key(key@) {
                final(self).names@ == old(self).names@
            } else {
                &&& final(self).names@.dom() == old(self).names@.dom().insert(key@)
                &&& final(self).names@[key@]@ == stem@
                &&& forall|k: Seq<char>|
                    k != key@ && old(self).names@.contains_key(k) ==> #[trigger] final(
                        self).names@[k] == old(self).names@[k]
            },
    {
        if !self.names.contains_key(&key) {
            self.names.insert(key, text::copy_text(stem));
        }
    }
}

/// What tells whether remembered icon paths still hold: a hash of the themes,
/// the icon size, and each directory with the second of its last change.
pub open spec fn fence_text(theme: Seq<char>, dirs: Seq<(Seq<char>, u64)>) -> Seq<char>
    decreases dirs.len(),
{
    if dirs.len() == 0 {
        theme + "|48"@
    } else {
        fence_text(theme, dirs.drop_last()) + "|"@ + dirs.last().0 + ":"@ + text::decimal(
            dirs.last().1 as nat,
        )
    }
}

/// Directories and the seconds of their last changes, as plain values.
pub open spec fn stamped(v: Seq<(String, u64)>) -> Seq<(Seq<char>, u64)> {
    Seq::new(v.len(), |i: int| (v[i].0@, v[i].1))
}

/// What tells whether remembered icon paths still hold.
pub fn fence(theme: &str, dirs: &[(String, u64)]) -> (r: String)
    ensures
        r@ == text::hex_digits(
            fnv(encode_utf8(fence_text(theme@, stamped(dirs@)))) as nat,
            16,
        ),
{
    let mut all = text::concat(theme, "|48");
    let ghost d = stamped(dirs@);
    assert(d.take(0) == Seq::<(Seq<char>, u64)>::empty());
    for i in 0..dirs.len()
        invariant
            d == stamped(dirs@),
            all@ == fence_text(theme@, d.take(i as int)),
    {
        assert(d.take(i + 1).drop_last() == d.take(i as int));
        assert(d.take(i + 1).last() == (dirs@[i as int].0@, dirs@[i as int].1));
        let dir = text::concat(&text::concat(&all, "|"), &dirs[i].0);
        all = text::concat(&text::concat(&dir, ":"), &text::number(dirs[i].1));
    }
    assert(d.take(d.len() as int) == d);
    text::hex16(fnv1a64(&all))
}

// ---------------------------------------------------------------------------
// Icon files
// ---------------------------------------------------------------------------

/// How an icon file is drawn.
#[derive(Debug, Clone, Copy, PartialEq, Eq, Structural)]
pub enum IconFormat {
    /// Rendered from its shapes.
    Svg,
    /// Scaled from its pixels.
    Png,
    /// Not at all: a placeholder takes its place.
    Other,
}

/// How an icon file with this extension is drawn. Extensions are taken as they
/// are written.
pub fn icon_format(ext: Option<&str>) -> (r: IconFormat)
    ensures
        r == (match ext {
            Some(e) => if e@ == "svg"@ || e@ == "svgz"@ {
                IconFormat::Svg
            } else if e@ == "png"@ {
                IconFormat::Png
            } else {
                IconFormat::Other
            },
            None => IconFormat::Other,
        }),
{
    match ext {
        Some(e) => {
            if text::same(e, "svg") || text::same(e, "svgz") {
                IconFormat::Svg
            } else if text::same(e, "png") {
                IconFormat::Png
            } else {
                IconFormat::Other
            }
        },
        None => IconFormat::Other,
    }
}

// ---------------------------------------------------------------------------
// Remembered icon paths
// ---------------------------------------------------------------------------

/// Where icons were found, by name; `None` for one that was found nowhere.
pub struct ResolutionCache {
    pub fence: String,
    /// The names, each once.
    pub names: Vec<String>,
    pub map: StringHashMap<Option<String>>,
    /// Whether anything was learnt since the last save.
    pub dirty: bool,
}

/// A table of paths as plain text.
pub open spec fn table(m: Map<Seq<char>, Option<String>>) -> Map<Seq<char>, Option<Seq<char>>> {
    m.map_values(|o: Option<String>| text::text_in(o))
}

/// What the cache says of a name.
#[derive(Debug)]
pub enum Ask {
    /// It was found nowhere.
    Nowhere,
    /// It was found here; look whether the file still exists.
    Check(String),
    /// Nothing is known: look it up.
    Lookup,
}

/// What a saved cache holds: the table in it, where it has this fence and every
/// entry is a path or `null`.
pub open spec fn saved_table(document: Seq<char>, fence: Seq<char>) -> Option<
    Map<Seq<char>, Option<Seq<char>>>,
> {
    match json::member_in(document, "fence"@) {
        Some(f) => if json::json_text(encode_utf8(f)) == Some(fence) {
            match json::member_in(document, "entries"@) {
                Some(t) => match json::json_fields(encode_utf8(t)) {
                    Some(fields) => if json::all_texts(fields) {
                        Some(json::table_of(fields))
                    } else {
                        None
                    },
                    None => None,
                },
                None => None,
            }
        } else {
            None
        },
        None => None,
    }
}

/// The table of an object, where all its members are paths or `null`, which
/// stands for an icon that was found nowhere.
fn read_table(fields: &[(String, String)]) -> (r: Option<
    (StringHashMap<Option<String>>, Vec<String>),
>)
    ensures
        match r {
            Some((m, names)) => {
                &&& json::all_texts(json::pairs(fields@))
                &&& table(m@) == json::table_of(json::pairs(fields@))
                &&& text::texts(names@).no_duplicates()
                &&& forall|k: Seq<char>| m@.contains_key(k) == text::texts(names@).contains(k)
            },
            None => !json::all_texts(json::pairs(fields@)),
        },
{
    let mut map: StringHashMap<Option<String>> = StringHashMap::new();
    let mut names: Vec<String> = Vec::new();
    let ghost p = json::pairs(fields@);
    assert(p.take(0) == Seq::<(Seq<char>, Seq<char>)>::empty());
    assert(table(map@) == json::table_of(p.take(0)));
    for i in 0..fields.len()
        invariant
            p == json::pairs(fields@),
            forall|k: int| 0 <= k < i ==> json::text_or_null((#[trigger] p[k]).1),
            table(map@) == json::table_of(p.take(i as int)),
            text::texts(names@).no_duplicates(),
            forall|k: Seq<char>| map@.contains_key(k) == text::texts(names@).contains(k),
    {
        assert(p.take(i + 1).drop_last() == p.take(i as int));
        assert(p.take(i + 1).last() == (fields@[i as int].0@, fields@[i as int].1@));
        assert(p[i as int].1 == fields@[i as int].1@);
        let path = json::string_of(&fields[i].1);
        if path.is_none() && !text::same(&fields[i].1, "null") {
            assert(!json::text_or_null(p[i as int].1));
            return None;
        }
        let ghost key = fields@[i as int].0@;
        let ghost had = map@;
        let ghost was = names@;
        if !map.contains_key(&fields[i].0) {
            names.push(text::copy_text(&fields[i].0));
            assert(text::texts(names@) == text::texts(was).push(key));
            proof {
                lemma_pushed(text::texts(was), key);
            }
        }
        map.insert(text::copy_text(&fields[i].0), path);
        assert(table(map@) == table(had).insert(key, text::text_in(path)));
        assert forall|k: Seq<char>| map@.contains_key(k) == text::texts(names@).contains(k) by {
            assert(had.contains_key(k) == text::texts(was).contains(k));
        }
    }
    assert(p.take(p.len() as int) == p);
    Some((map, names))
}

proof fn lemma_pushed(v: Seq<Seq<char>>, s: Seq<char>)
    ensures
        forall|k: Seq<char>| v.push(s).contains(k) == (v.contains(k) || k == s),
{
    assert forall|k: Seq<char>| v.push(s).contains(k) == (v.contains(k) || k == s) by {
        if v.contains(k) {
            let i = choose|i: int| 0 <= i < v.len() && v[i] == k;
            assert(v.push(s)[i] == k);
        }
        if k == s {
            assert(v.push(s)[v.len() as int] == k);
        }
        if v.push(s).contains(k) {
            let i = choose|i: int| 0 <= i < v.push(s).len() && v.push(s)[i] == k;
            if i < v.len() {
                assert(v[i] == k);
            }
        }
    }
}

/// Read a saved cache. What is not whole, or has another fence, is no cache.
pub fn parse_resolutions(document: &str, fence: &str) -> (r: Option<StringHashMap<Option<String>>>)
    ensures
        match r {
            Some(m) => saved_table(document@, fence@) == Some(table(m@)),
            None => saved_table(document@, fence@) is None,
        },
{
    match read_saved(document, fence) {
        Some((m, _)) => Some(m),
        None => None,
    }
}

fn read_saved(document: &str, fence: &str) -> (r: Option<
    (StringHashMap<Option<String>>, Vec<String>),
>)
    ensures
        match r {
            Some((m, names)) => {
                &&& saved_table(document@, fence@) == Some(table(m@))
                &&& text::texts(names@).no_duplicates()
                &&& forall|k: Seq<char>| m@.contains_key(k) == text::texts(names@).contains(k)
            },
            None => saved_table(document@, fence@) is None,
        },
{
    let saved = match json::member_of(document, "fence") {
        Some(f) => json::string_of(&f),
        None => return None,
    };
    match saved {
        Some(s) => {
            if !text::same(&s, fence) {
                return None;
            }
        },
        None => return None,
    }
    let entries = match json::member_of(document, "entries") {
        Some(t) => t,
        None => return None,
    };
    let bytes = entries.as_str().as_bytes();
    assert(bytes@ == encode_utf8(entries@));
    match json::fields(bytes) {
        Some(fields) => read_table(&fields),
        None => None,
    }
}

impl ResolutionCache {
    /// The names are those of the table, each once.
    pub open spec fn wf(self) -> bool {
        &&& text::texts(self.names@).no_duplicates()
        &&& forall|k: Seq<char>|
            self.map@.contains_key(k) == text::texts(self.names@).contains(k)
    }

    /// Take over a saved cache, or begin an empty one.
    pub fn load(document: Option<&str>, fence: String) -> (r: Self)
        ensures
            r.wf(),
            r.fence == fence,
            !r.dirty,
            table(r.map@) == (match document {
                Some(d) => match saved_table(d@, fence@) {
                    Some(t) => t,
                    None => Map::empty(),
                },
                None => Map::empty(),
            }),
    {
        if let Some(d) = document {
            if let Some((map, names)) = read_saved(d, &fence) {
                return ResolutionCache { fence, names, map, dirty: false };
            }
        }
        let map: StringHashMap<Option<String>> = StringHashMap::new();
        assert(table(map@) =~= Map::empty());
        ResolutionCache { fence, names: Vec::new(), map, dirty: false }
    }

    /// What is known of a name.
    pub fn ask(&self, name: &str) -> (r: Ask)
        ensures
            match r {
                Ask::Lookup => !self.map@.contains_key(name@),
                Ask::Nowhere => self.map@.contains_key(name@) && self.map@[name@] is None,
                Ask::Check(p) => self.map@.contains_key(name@) && text::text_in(self.map@[name@])
                    == Some(p@),
            },
    {
        match self.map.get(name) {
            Some(o) => match o {
                Some(p) => Ask::Check(text::copy_text(p)),
                None => Ask::Nowhere,
            },
            None => Ask::Lookup,
        }
    }

    /// A lookup has ended: remember what it found.
    pub fn learn(&mut self, name: &str, found: Option<String>)
        requires
            old(self).wf(),
        ensures
            final(self).wf(),
            final(self).fence == old(self).fence,
            final(self).map@ == old(self).map@.insert(name@, found),
            final(self).dirty,
    {
        let ghost was = self.names@;
        let ghost had = self.map@;
        if !self.map.contains_key(name) {
            self.names.push(text::copy_text(name));
            assert(text::texts(self.names@) == text::texts(was).push(name@));
            proof {
                lemma_pushed(text::texts(was), name@);
            }
        }
        self.map.insert(text::copy_text(name), found);
        self.dirty = true;
        assert forall|k: Seq<char>| self.map@.contains_key(k) == text::texts(
            self.names@,
        ).contains(k) by {
            assert(had.contains_key(k) == text::texts(was).contains(k));
        }
    }

    /// What to write to disk, where anything was learnt since the last time.
    pub fn save(&mut self) -> (r: Option<String>)
        requires
            old(self).wf(),
        ensures
            final(self).wf(),
            final(self).fence == old(self).fence,
            final(self).map == old(self).map,
            !final(self).dirty,
            match r {
                Some(d) => old(self).dirty && saved_table(d@, old(self).fence@) == Some(
                    table(old(self).map@),
                ),
                None => !old(self).dirty,
            },
    {
        if !self.dirty {
            return None;
        }
        self.dirty = false;
        let mut rows: Vec<(String, Option<String>)> = Vec::new();
        let ghost t = text::texts(self.names@);
        let ghost whole = table(self.map@);
        assert(json::rows(rows@) == Seq::<(Seq<char>, Option<Seq<char>>)>::empty());
        assert(json::listed(json::rows(rows@)) == whole.restrict(t.take(0).to_set())) by {
            assert(t.take(0).to_set() == Set::<Seq<char>>::empty());
        }
        for i in 0..self.names.len()
            invariant
                self.wf(),
                self.fence == old(self).fence,
                self.map == old(self).map,
                !self.dirty,
                t == text::texts(self.names@),
                whole == table(self.map@),
                json::listed(json::rows(rows@)) == whole.restrict(t.take(i as int).to_set()),
        {
            let ghost name = self.names@[i as int]@;
            assert(t[i as int] == name);
            assert(t.contains(name));
            assert(self.map@.contains_key(name));
            let path: Option<String> = match self.map.get(&self.names[i]) {
                Some(o) => text::copy_opt(o),
                None => None,
            };
            assert(text::text_in(path) == whole[name]);
            let ghost before = rows@;
            rows.push((text::copy_text(&self.names[i]), path));
            proof {
                let now = json::rows(rows@);
                assert(now.drop_last() == json::rows(before));
                assert(now.last() == (name, whole[name]));
                assert(t.take(i + 1) == t.take(i as int).push(name));
                let seen = t.take(i as int);
                lemma_pushed(seen, name);
                assert forall|k: Seq<char>| seen.push(name).to_set().contains(k)
                    == seen.to_set().insert(name).contains(k) by {
                    assert(seen.push(name).contains(k) == (seen.contains(k) || k == name));
                }
                assert(seen.push(name).to_set() =~= seen.to_set().insert(name));
                assert(whole.restrict(t.take(i + 1).to_set()) =~= whole.restrict(
                    t.take(i as int).to_set(),
                ).insert(name, whole[name]));
            }
        }
        proof {
            assert(t.take(t.len() as int) == t);
            assert(whole.restrict(t.to_set()) =~= whole) by {
                assert forall|k: Seq<char>| whole.contains_key(k) implies t.to_set().contains(
                    k,
                ) by {
                    assert(self.map@.contains_key(k));
                }
            }
            reveal_strlit("fence");
            reveal_strlit("entries");
            assert("fence"@.len() != "entries"@.len());
        }
        Some(json::document("fence", &self.fence, "entries", &rows))
    }
}

/// What was saved under one fence is nothing under another.
pub proof fn law_another_fence_reads_nothing(
    document: Seq<char>,
    fence: Seq<char>,
    other: Seq<char>,
)
    requires
        saved_table(document, fence) is Some,
        other != fence,
    ensures
        saved_table(document, other) is None,
{
}

// ---------------------------------------------------------------------------
// What the lists hold
// ---------------------------------------------------------------------------

/// The invisible entries: each kind of file has its own, under its own id and with the
/// icon of that kind. None has a name that a search could find.
pub proof fn law_each_kind_has_its_icon(k: int)
    requires
        0 <= k < 10,
    ensures
        k == 0 ==> asset_model(k).id == "asset-folder"@ && asset_model(k).icon == Some("folder"@),
        k == 1 ==> asset_model(k).id == "asset-file"@ && asset_model(k).icon == Some(
            "text-x-generic"@,
        ),
        k == 2 ==> asset_model(k).id == "asset-pkg"@ && asset_model(k).icon == Some(
            "package-x-generic"@,
        ),
        k == 3 ==> asset_model(k).id == "asset-audio"@ && asset_model(k).icon == Some(
            "audio-x-generic"@,
        ),
        k == 4 ==> asset_model(k).id == "asset-video"@ && asset_model(k).icon == Some(
            "video-x-generic"@,
        ),
        k == 5 ==> asset_model(k).id == "asset-image"@ && asset_model(k).icon == Some(
            "image-x-generic"@,
        ),
        k == 6 ==> asset_model(k).id == "asset-pdf"@ && asset_model(k).icon == Some(
            "application-pdf"@,
        ),
        k == 7 ==> asset_model(k).id == "asset-archive"@ && asset_model(k).icon == Some(
            "application-x-archive"@,
        ),
        k == 8 ==> asset_model(k).id == "asset-doc"@ && asset_model(k).icon == Some(
            "x-office-document"@,
        ),
        k == 9 ==> asset_model(k).id == "asset-code"@ && asset_model(k).icon == Some(
            "text-x-script"@,
        ),
        asset_model(k).name.len() == 0,
        asset_model(k).description is None,
        asset_model(k).command == "true"@,
        !asset_model(k).needs_terminal,
        ASSETS == 10,
{
}

/// Every package of which no desktop id is an application's gets an entry of its own,
/// in the order of the packages: a terminal that shows its banner and stays open. `at`
/// says which packages they are.
pub proof fn law_tools_without_an_application_get_a_tile(
    managed: Seq<ManagedPackage>,
    ids: Seq<Seq<char>>,
) -> (at: Seq<int>)
    ensures
        at.len() == cli_models(managed, ids).len(),
        forall|a: int|
            0 <= a < at.len() ==> {
                let p = managed[#[trigger] at[a]];
                let t = cli_models(managed, ids)[a];
                &&& 0 <= at[a] < managed.len()
                &&& t.id == p.attr@
                &&& t.name == p.attr@
                &&& t.command == p.banner@ + " exec \"${SHELL:-bash}\""@
                &&& t.needs_terminal
                &&& t.description == Some("Command-line tool"@)
                &&& t.icon == Some("package-x-generic"@)
                &&& forall|i: int|
                    0 <= i < p.desktop_ids@.len() ==> !ids.contains(
                        (#[trigger] p.desktop_ids@[i])@,
                    )
            },
        forall|a: int, b: int| 0 <= a < b < at.len() ==> #[trigger] at[a] < #[trigger] at[b],
        forall|k: int|
            #![trigger at.contains(k)]
            0 <= k < managed.len() ==> at.contains(k) || exists|i: int|
                0 <= i < managed[k].desktop_ids@.len() && ids.contains(
                    (#[trigger] managed[k].desktop_ids@[i])@,
                ),
    decreases managed.len(),
{
    if managed.len() == 0 {
        Seq::empty()
    } else {
        let d = managed.drop_last();
        let n = managed.len() - 1;
        let was = law_tools_without_an_application_get_a_tile(d, ids);
        assert(forall|i: int| 0 <= i < n ==> managed[i] == d[i]);
        let now = if covered(managed[n], ids) {
            was
        } else {
            was.push(n)
        };
        assert forall|k: int|
            #![trigger now.contains(k)]
            0 <= k < managed.len() implies now.contains(k) || exists|i: int|
            0 <= i < managed[k].desktop_ids@.len() && ids.contains(
                (#[trigger] managed[k].desktop_ids@[i])@,
            ) by {
            if k < n {
                assert(d[k] == managed[k]);
                assert(was.contains(k) || exists|i: int|
                    0 <= i < d[k].desktop_ids@.len() && ids.contains(
                        (#[trigger] d[k].desktop_ids@[i])@,
                    ));
                if was.contains(k) {
                    let a = choose|a: int| 0 <= a < was.len() && was[a] == k;
                    assert(now[a] == k);
                }
            } else if !covered(managed[n], ids) {
                assert(now[was.len() as int] == n);
            }
        }
        now
    }
}

/// With room for all of them a visit keeps every entry that is neither hidden nor a
/// build tree and of which the kind is known, in their order. `at` says which.
pub proof fn law_a_visit_keeps_what_is_there(children: Seq<WalkChild>, room: int) -> (at: Seq<int>)
    requires
        children.len() <= room,
    ensures
        at.len() == walked_files(children, room).len(),
        at.len() <= children.len(),
        forall|a: int|
            0 <= a < at.len() ==> {
                let c = children[#[trigger] at[a]];
                let f = walked_files(children, room)[a];
                &&& 0 <= at[a] < children.len()
                &&& f.0 == c.name@
                &&& f.1 == c.path@
                &&& c.is_dir == Some(f.2)
            },
        forall|a: int, b: int| 0 <= a < b < at.len() ==> #[trigger] at[a] < #[trigger] at[b],
        forall|i: int|
            0 <= i < children.len() && !text::begins_with((#[trigger] children[i]).name@, "."@)
                && children[i].name@ != "target"@ && children[i].name@ != "node_modules"@
                && children[i].is_dir is Some ==> at.contains(i),
    decreases children.len(),
{
    if children.len() == 0 {
        Seq::empty()
    } else {
        let d = children.drop_last();
        let n = children.len() - 1;
        let was = law_a_visit_keeps_what_is_there(d, room);
        assert(forall|i: int| 0 <= i < n ==> children[i] == d[i]);
        let now = if is_walked(children[n]) {
            was.push(n)
        } else {
            was
        };
        assert forall|i: int|
            0 <= i < children.len() && !text::begins_with((#[trigger] children[i]).name@, "."@)
                && children[i].name@ != "target"@ && children[i].name@ != "node_modules"@
                && children[i].is_dir is Some implies now.contains(i) by {
            if i < n {
                assert(d[i] == children[i]);
                assert(was.contains(i));
                let a = choose|a: int| 0 <= a < was.len() && was[a] == i;
                assert(now[a] == i);
            } else {
                assert(now[was.len() as int] == n);
            }
        }
        now
    }
}

/// With less room a visit keeps the first ones that it would keep with more.
pub proof fn law_less_room_keeps_the_first(children: Seq<WalkChild>, room: int, more: int)
    requires
        0 <= room <= more,
    ensures
        walked_files(children, room) == walked_files(children, more).take(
            if walked_files(children, more).len() <= room {
                walked_files(children, more).len() as int
            } else {
                room
            },
        ),
    decreases children.len(),
{
    if children.len() > 0 {
        let d = children.drop_last();
        law_less_room_keeps_the_first(d, room, more);
        lemma_walk_has_room(d, more);
        let all = walked_files(d, more);
        let few = walked_files(d, room);
        assert(all.take(all.len() as int) == all);
    }
}

/// The directories that a visit adds to those still to be read are the directories
/// among the entries that it keeps, one level deeper; at the last of six levels it
/// adds none. `at` says which of the kept ones they are.
pub proof fn law_directories_are_visited_later(
    children: Seq<WalkChild>,
    depth: int,
    room: int,
) -> (at: Seq<int>)
    ensures
        at.len() == walked_dirs(children, depth, room).len(),
        depth >= 5 ==> at.len() == 0,
        forall|a: int|
            0 <= a < at.len() ==> {
                &&& 0 <= (#[trigger] at[a]) < walked_files(children, room).len()
                &&& walked_files(children, room)[at[a]].2
                &&& walked_dirs(children, depth, room)[a] == (
                    walked_files(children, room)[at[a]].1,
                    depth + 1,
                )
            },
        forall|a: int, b: int| 0 <= a < b < at.len() ==> #[trigger] at[a] < #[trigger] at[b],
        depth < 5 ==> forall|i: int|
            0 <= i < walked_files(children, room).len() && (#[trigger] walked_files(
                children,
                room,
            )[i]).2 ==> at.contains(i),
    decreases children.len(),
{
    if children.len() == 0 {
        Seq::empty()
    } else {
        let d = children.drop_last();
        let c = children.last();
        let was = law_directories_are_visited_later(d, depth, room);
        let old_files = walked_files(d, room);
        let files = walked_files(children, room);
        let n = old_files.len() as int;
        assert(forall|i: int| 0 <= i < n ==> files[i] == old_files[i]);
        let now = if is_walked(c) && n < room && c.is_dir == Some(true) && depth < 5 {
            was.push(n)
        } else {
            was
        };
        if depth < 5 {
            assert forall|i: int| 0 <= i < files.len() && (#[trigger] files[i]).2 implies now.contains(
                i,
            ) by {
                if i < n {
                    assert(old_files[i].2);
                    assert(was.contains(i));
                    let a = choose|a: int| 0 <= a < was.len() && was[a] == i;
                    assert(now[a] == i);
                } else {
                    assert(now[was.len() as int] == n);
                }
            }
        }
        now
    }
}

/// The hash of a text begins at the offset basis, and each byte is mixed in by an
/// exclusive or and a multiplication by the prime, both of the 64-bit FNV-1a hash.
pub proof fn law_the_hash_is_fnv(bytes: Seq<u8>, b: u8)
    ensures
        fnv(Seq::empty()) == 14695981039346656037,
        fnv(bytes.push(b)) == ((fnv(bytes) ^ (b as u64)) * 1099511628211)
            % 18446744073709551616,
        fnv32(Seq::empty()) == 2166136261,
        fnv32(bytes.push(b)) == ((fnv32(bytes) ^ (b as u32)) * 16777619) % 4294967296,
{
    assert(bytes.push(b).drop_last() == bytes);
}

/// Icons are looked for in the data home, in each data directory in order, in the home
/// directory and last in the flat directory of the system; what is not set has the
/// usual place.
pub proof fn law_where_icons_are_looked_for(
    home: Seq<char>,
    own: Seq<char>,
    dirs: Seq<char>,
    i: int,
)
    ensures
        ({
            let r = icon_dirs_of(home, Some(own), Some(dirs));
            let n = text::parts(dirs, ':').len();
            &&& r.len() == n + 3
            &&& r[0] == own + "/icons"@
            &&& 0 <= i < n ==> r[i + 1] == text::parts(dirs, ':')[i] + "/icons"@
            &&& r[n as int + 1] == home + "/.icons"@
            &&& r[n as int + 2] == "/usr/share/pixmaps"@
        }),
        icon_dirs_of(home, None, Some(dirs)) == icon_dirs_of(
            home,
            Some(home + "/.local/share"@),
            Some(dirs),
        ),
        icon_dirs_of(home, Some(own), None) == icon_dirs_of(
            home,
            Some(own),
            Some("/usr/local/share:/usr/share"@),
        ),
{
}

/// The themes to look in are the configured one and, behind it, the installed ones of
/// Papirus-Dark, Papirus and breeze, in this order and none twice.
pub proof fn law_which_themes_are_looked_in(configured: Seq<char>, installed: Seq<Seq<char>>)
    ensures
        ({
            let r = chain_of(configured, installed, 3);
            let a = if installed.contains("Papirus-Dark"@) && configured != "Papirus-Dark"@ {
                seq!["Papirus-Dark"@]
            } else {
                Seq::empty()
            };
            let b = if installed.contains("Papirus"@) && configured != "Papirus"@ {
                seq!["Papirus"@]
            } else {
                Seq::empty()
            };
            let c = if installed.contains("breeze"@) && configured != "breeze"@ {
                seq!["breeze"@]
            } else {
                Seq::empty()
            };
            r == seq![configured] + a + b + c
        }),
{
    reveal_strlit("Papirus-Dark");
    reveal_strlit("Papirus");
    reveal_strlit("breeze");
    assert("Papirus-Dark"@.len() == 12 && "Papirus"@.len() == 7 && "breeze"@.len() == 6);
    let c0 = chain_of(configured, installed, 0);
    let c1 = chain_of(configured, installed, 1);
    let c2 = chain_of(configured, installed, 2);
    assert(c0 == seq![configured]);
    assert forall|t: Seq<char>| c0.contains(t) <==> t == configured by {
        assert(c0[0] == configured);
    }
    lemma_pushed(c0, "Papirus-Dark"@);
    lemma_pushed(c1, "Papirus"@);
    let a = if installed.contains("Papirus-Dark"@) && configured != "Papirus-Dark"@ {
        seq!["Papirus-Dark"@]
    } else {
        Seq::empty()
    };
    let b = if installed.contains("Papirus"@) && configured != "Papirus"@ {
        seq!["Papirus"@]
    } else {
        Seq::empty()
    };
    assert(c0.contains("Papirus-Dark"@) <==> configured == "Papirus-Dark"@);
    assert(c1 == c0 + a);
    assert(c0.push("Papirus-Dark"@).contains("Papirus"@) == c0.contains("Papirus"@));
    assert(c0.push("Papirus-Dark"@).contains("breeze"@) == c0.contains("breeze"@));
    assert(c1 == c0 || c1 == c0.push("Papirus-Dark"@));
    assert(c1.contains("Papirus"@) <==> configured == "Papirus"@);
    assert(c2 == c1 + b);
    assert(c1.push("Papirus"@).contains("breeze"@) == c1.contains("breeze"@));
    assert(c2 == c1 || c2 == c1.push("Papirus"@));
    assert(c2.contains("breeze"@) <==> configured == "breeze"@);
}

/// The text that a fence hashes holds the themes, the icon size and each directory
/// with its stamp.
pub proof fn law_what_a_fence_is_made_of(
    theme: Seq<char>,
    dirs: Seq<(Seq<char>, u64)>,
    dir: Seq<char>,
    stamp: u64,
)
    ensures
        fence_text(theme, Seq::empty()) == theme + "|48"@,
        fence_text(theme, dirs.push((dir, stamp))) == fence_text(theme, dirs) + "|"@ + dir + ":"@
            + text::decimal(stamp as nat),
{
    assert(dirs.push((dir, stamp)).drop_last() == dirs);
}

/// Lists of entries, files and directories are seen item by item.
pub proof fn law_lists_are_seen_item_by_item(
    list: Seq<AppEntry>,
    files: Seq<FileEntry>,
    queue: Seq<(String, usize)>,
    dirs: Seq<(String, u64)>,
    i: int,
)
    ensures
        models(list).len() == list.len(),
        0 <= i < list.len() ==> models(list)[i] == list[i]@,
        file_models(files).len() == files.len(),
        0 <= i < files.len() ==> file_models(files)[i] == (
            files[i].name@,
            files[i].path@,
            files[i].is_dir,
        ),
        queue_model(queue).len() == queue.len(),
        0 <= i < queue.len() ==> queue_model(queue)[i] == (queue[i].0@, queue[i].1 as int),
        stamped(dirs).len() == dirs.len(),
        0 <= i < dirs.len() ==> stamped(dirs)[i] == (dirs[i].0@, dirs[i].1),
{
}

} // verus!
