//! The Files section: what a search finds, what a directory shows, and moving
//! between directories.
use vstd::prelude::*;
use crate::apps::{EntryKind, FileEntry};
use crate::index::AppEntry;
use crate::order;
use crate::paths;
use crate::search;
use crate::search::Searcher;
use crate::text;

verus! {

/// Most results of a search that are shown.
pub const FILE_RESULTS_MAX: usize = 24;

/// Most entries of a directory that are shown.
pub const FILES_LIST_MAX: usize = 300;

/// An entry of a directory.
#[derive(Debug)]
pub struct DirChild {
    pub is_dir: bool,
    pub name: String,
    pub path: String,
}

// ---------------------------------------------------------------------------
// Entries
// ---------------------------------------------------------------------------

/// The entry of a file. `quoted` is its path quoted for a shell.
pub fn file_entry(path: &str, name: &str, quoted: &str) -> (r: AppEntry)
    ensures
        r.id@ == path@,
        r.name@ == name@,
        text::text_in(r.description) == Some(path@),
        r.command@ == "xdg-open "@ + quoted@,
        r.icon is None,
        !r.needs_terminal,
{
    AppEntry {
        id: text::copy_text(path),
        name: text::copy_text(name),
        description: Some(text::copy_text(path)),
        command: text::concat("xdg-open ", quoted),
        icon: None,
        needs_terminal: false,
    }
}

/// The icon of a file: the layer of a folder or of a file, and whether it is
/// only a letter for want of one.
pub fn file_layer(
    is_dir: bool,
    folder: Option<(u32, bool)>,
    file: Option<(u32, bool)>,
) -> (r: (u32, bool))
    ensures
        r == (match if is_dir {
            folder
        } else {
            file
        } {
            Some(a) => a,
            None => (0u32, true),
        }),
{
    let asset: Option<(u32, bool)> = if is_dir {
        folder
    } else {
        file
    };
    match asset {
        Some(a) => a,
        None => (0, true),
    }
}

// ---------------------------------------------------------------------------
// Searching
// ---------------------------------------------------------------------------

/// The names of files.
pub open spec fn file_names(files: Seq<FileEntry>) -> Seq<Seq<char>> {
    Seq::new(files.len(), |i: int| files[i].name@)
}

/// The first of a list.
pub open spec fn first_positions(v: Seq<usize>, n: int) -> Seq<usize> {
    if v.len() <= n {
        v
    } else {
        v.take(n)
    }
}

/// Whether a query can be matched against the names of files.
pub open spec fn matchable(query: Seq<char>, files: Seq<FileEntry>) -> bool {
    query.len() == 0 || (search::parsable(query) && forall|i: int|
        0 <= i < files.len() ==> search::scorable(query, (#[trigger] files[i]).name@))
}

fn names_of(files: &[FileEntry]) -> (r: Vec<&str>)
    ensures
        reads_as(r@, files@),
{
    let mut names: Vec<&str> = Vec::new();
    for i in 0..files.len()
        invariant
            names@.len() == i,
            forall|k: int| 0 <= k < i ==> (#[trigger] names@[k])@ == files@[k].name@,
    {
        names.push(files[i].name.as_str());
    }
    names
}

/// The positions of the files that a search shows, the best match first.
pub fn file_results(searcher: &mut Searcher, query: &str, files: &[FileEntry]) -> (r: Vec<usize>)
    requires
        matchable(query@, files@),
    ensures
        exists|names: Seq<&str>| #[trigger]
            reads_as(names, files@) && r@ == first_positions(
                if query@.len() == 0 {
                    Seq::new(files@.len(), |i: int| i as usize)
                } else {
                    search::ranked(query@, names)
                },
                FILE_RESULTS_MAX as int,
            ),
{
    let names = names_of(files);
    assert(search::fits(query@, names@));
    let mut ranked = searcher.rank(query, names.as_slice());
    let ghost all = ranked@;
    if ranked.len() > FILE_RESULTS_MAX {
        ranked.truncate(FILE_RESULTS_MAX);
    }
    assert(ranked@ == first_positions(all, FILE_RESULTS_MAX as int));
    ranked
}

/// The positions of the files that a search shows as `file_results` has them,
/// `None` where the query cannot be matched against the names.
pub fn try_file_results(searcher: &mut Searcher, query: &str, files: &[FileEntry]) -> (r: Option<
    Vec<usize>,
>)
    ensures
        r is Some <==> matchable(query@, files@),
        r is Some ==> exists|names: Seq<&str>| #[trigger]
            reads_as(names, files@) && r->Some_0@ == first_positions(
                if query@.len() == 0 {
                    Seq::new(files@.len(), |i: int| i as usize)
                } else {
                    search::ranked(query@, names)
                },
                FILE_RESULTS_MAX as int,
            ),
{
    let names = names_of(files);
    if !search::can_match(query, names.as_slice()) {
        assert(!matchable(query@, files@)) by {
            if search::parsable(query@) {
                let k = choose|k: int|
                    0 <= k < names@.len() && !search::scorable(query@, (#[trigger] names@[k])@);
                assert(files@[k].name@ == names@[k]@);
            }
        }
        return None;
    }
    assert forall|i: int| 0 <= i < files@.len() && query@.len() > 0 implies
        search::scorable(query@, (#[trigger] files@[i]).name@) by {
        assert(names@[i]@ == files@[i].name@);
    }
    Some(file_results(searcher, query, files))
}

/// Whether `names` are the names of the files.
pub open spec fn reads_as(names: Seq<&str>, files: Seq<FileEntry>) -> bool {
    names.len() == files.len() && forall|k: int|
        0 <= k < names.len() ==> (#[trigger] names[k])@ == files[k].name@
}

// ---------------------------------------------------------------------------
// Listing
// ---------------------------------------------------------------------------

/// Whether an entry is listed: a visible one, and a folder where only those
/// are.
pub open spec fn is_listed(c: DirChild, folders_only: bool) -> bool {
    !text::begins_with(c.name@, "."@) && (c.is_dir || !folders_only)
}

/// The positions of the entries that are listed.
pub open spec fn listed(children: Seq<DirChild>, folders_only: bool) -> Seq<usize>
    decreases children.len(),
{
    if children.len() == 0 {
        Seq::empty()
    } else {
        let before = listed(children.drop_last(), folders_only);
        if is_listed(children.last(), folders_only) {
            before.push((children.len() - 1) as usize)
        } else {
            before
        }
    }
}

/// Whether one listed entry comes before another: a folder before a file, then
/// by name.
pub open spec fn child_before(children: Seq<DirChild>, kept: Seq<usize>) -> spec_fn(
    int,
    int,
) -> bool {
    |i: int, j: int|
        {
            let a = children[kept[i] as int];
            let b = children[kept[j] as int];
            if a.is_dir != b.is_dir {
                a.is_dir
            } else {
                text::text_lt(a.name@, b.name@)
            }
        }
}

/// The positions of the listed entries in their order.
pub open spec fn listing(children: Seq<DirChild>, folders_only: bool) -> Seq<usize> {
    let kept = listed(children, folders_only);
    let p = order::sorted_positions(kept.len() as int, child_before(children, kept));
    Seq::new(p.len(), |k: int| kept[p[k] as int])
}

proof fn lemma_child_order(children: Seq<DirChild>, kept: Seq<usize>)
    ensures
        order::orders(kept.len() as int, child_before(children, kept)),
{
    let n = kept.len() as int;
    let lt = child_before(children, kept);
    let name = |i: int| children[kept[i] as int].name@;
    assert forall|i: int| 0 <= i < n implies !#[trigger] lt(i, i) by {
        text::lemma_text_lt_total(name(i), name(i));
    }
    assert forall|i: int, j: int, k: int|
        #![trigger lt(i, j), lt(j, k)]
        0 <= i < n && 0 <= j < n && 0 <= k < n && lt(i, j) && lt(j, k) implies lt(i, k) by {
        if text::text_lt(name(i), name(j)) && text::text_lt(name(j), name(k)) {
            text::lemma_text_lt_trans(name(i), name(j), name(k));
        }
    }
    assert forall|i: int, j: int, k: int|
        #![trigger lt(i, j), lt(j, k)]
        0 <= i < n && 0 <= j < n && 0 <= k < n && !lt(i, j) && !lt(j, k) implies !lt(i, k) by {
        if !text::text_lt(name(i), name(j)) && !text::text_lt(name(j), name(k)) {
            text::lemma_not_text_lt_trans(name(i), name(j), name(k));
        }
    }
}

/// The positions of the listed entries: folders first, then files, each by
/// name.
fn list_children(children: &[DirChild], folders_only: bool) -> (r: Vec<usize>)
    ensures
        r@ == listing(children@, folders_only),
{
    let mut kept: Vec<usize> = Vec::new();
    assert(children@.take(0) == Seq::<DirChild>::empty());
    for i in 0..children.len()
        invariant
            kept@ == listed(children@.take(i as int), folders_only),
    {
        assert(children@.take(i + 1).drop_last() == children@.take(i as int));
        assert(children@.take(i + 1).last() == children@[i as int]);
        if !text::starts_with(&children[i].name, ".") && (children[i].is_dir || !folders_only) {
            kept.push(i);
        }
    }
    assert(children@.take(children@.len() as int) == children@);
    let total: usize = children.len();
    proof {
        lemma_listed_are(children@, folders_only);
        lemma_child_order(children@, kept@);
    }
    let ghost lt = child_before(children@, kept@);
    let keys: &Vec<usize> = &kept;
    let less = |i: usize, j: usize| -> (b: bool)
        requires
            i < keys@.len(),
            j < keys@.len(),
            forall|k: int| 0 <= k < keys@.len() ==> (#[trigger] keys@[k]) < children@.len(),
        ensures
            b == child_before(children@, keys@)(i as int, j as int),
        {
            let a: &DirChild = &children[keys[i]];
            let b: &DirChild = &children[keys[j]];
            if a.is_dir != b.is_dir {
                a.is_dir
            } else {
                text::before(&a.name, &b.name)
            }
        };
    let p = order::stable_sort(keys.len(), less, Ghost(lt));
    let mut out: Vec<usize> = Vec::new();
    for k in 0..p.len()
        invariant
            order::permutes(p@, kept@.len() as int),
            out@ == Seq::new(k as nat, |j: int| kept@[p@[j] as int]),
    {
        out.push(kept[p[k]]);
    }
    assert(out@ == listing(children@, folders_only));
    out
}

/// What a directory shows: the positions of its visible entries, folders first,
/// then files, each by name, as many as are shown.
pub fn dir_listing(children: &[DirChild]) -> (r: Vec<usize>)
    ensures
        r@ == first_positions(listing(children@, false), FILES_LIST_MAX as int),
{
    let mut out = list_children(children, false);
    let ghost all = out@;
    if out.len() > FILES_LIST_MAX {
        out.truncate(FILES_LIST_MAX);
    }
    assert(out@ == first_positions(all, FILES_LIST_MAX as int));
    out
}

/// The visible folders of a home directory, by name: their positions.
pub fn home_folders(children: &[DirChild]) -> (r: Vec<usize>)
    ensures
        r@ == listing(children@, true),
{
    list_children(children, true)
}

/// The entry of a folder in the home directory. `quoted` is its path quoted for
/// a shell.
pub fn home_folder_entry(home: &str, name: &str, quoted: &str) -> (r: AppEntry)
    ensures
        r.id@ == "folder-"@ + name@,
        r.name@ == name@,
        text::text_in(r.description) == Some(home@ + "/"@ + name@),
        r.command@ == "xdg-open "@ + quoted@,
        text::text_in(r.icon) == Some("folder"@),
        !r.needs_terminal,
{
    AppEntry {
        id: text::concat("folder-", name),
        name: text::copy_text(name),
        description: Some(text::concat(&text::concat(home, "/"), name)),
        command: text::concat("xdg-open ", quoted),
        icon: Some(text::copy_text("folder")),
        needs_terminal: false,
    }
}

/// A listing shows no hidden entry, folders before files, and each entry once.
pub proof fn law_listings_hold_visible_entries(
    children: Seq<DirChild>,
    folders_only: bool,
    a: int,
    b: int,
)
    requires
        children.len() <= usize::MAX,
        0 <= a < b < listing(children, folders_only).len(),
    ensures
        ({
            let l = listing(children, folders_only);
            &&& is_listed(children[l[a] as int], folders_only)
            &&& is_listed(children[l[b] as int], folders_only)
            &&& l[a] != l[b]
            &&& children[l[b] as int].is_dir ==> children[l[a] as int].is_dir
            &&& children[l[a] as int].is_dir == children[l[b] as int].is_dir ==> !text::text_lt(
                children[l[b] as int].name@,
                children[l[a] as int].name@,
            )
        }),
{
    let kept = listed(children, folders_only);
    let n = kept.len() as int;
    let lt = child_before(children, kept);
    lemma_child_order(children, kept);
    lemma_listed_are(children, folders_only);
    order::lemma_sort_exists(n, lt);
    let p = order::sorted_positions(n, lt);
    assert(order::stably_sorted(p, n, lt));
    assert(!lt(p[b] as int, p[a] as int));
    let i = p[a] as int;
    let j = p[b] as int;
    assert(p[a] != p[b]);
    assert(is_listed(children[kept[i] as int], folders_only));
    assert(is_listed(children[kept[j] as int], folders_only));
    assert(kept[i] != kept[j]);
}

proof fn lemma_listed_are(children: Seq<DirChild>, folders_only: bool)
    requires
        children.len() <= usize::MAX,
    ensures
        ({
            let kept = listed(children, folders_only);
            &&& kept.len() <= children.len()
            &&& forall|k: int|
                0 <= k < kept.len() ==> (#[trigger] kept[k]) < children.len() && is_listed(
                    children[kept[k] as int],
                    folders_only,
                )
            &&& forall|i: int, j: int|
                0 <= i < j < kept.len() ==> #[trigger] kept[i] < #[trigger] kept[j]
        }),
    decreases children.len(),
{
    if children.len() > 0 {
        lemma_listed_are(children.drop_last(), folders_only);
        let before = listed(children.drop_last(), folders_only);
        assert forall|k: int| 0 <= k < before.len() implies children[before[k] as int]
            == children.drop_last()[before[k] as int] by {}
    }
}

// ---------------------------------------------------------------------------
// Moving between directories
// ---------------------------------------------------------------------------

/// The directory to move into when an entry is clicked: the one it stands for,
/// where it is one.
pub fn try_navigate(
    kind: Option<EntryKind>,
    description: &Option<String>,
    is_dir: bool,
) -> (r: Option<String>)
    ensures
        text::text_in(r) == (if kind == Some(EntryKind::File) && is_dir {
            text::text_in(*description)
        } else {
            None
        }),
{
    match kind {
        Some(EntryKind::File) => {
            if is_dir {
                text::copy_opt(description)
            } else {
                None
            }
        },
        _ => None,
    }
}

/// Where going up leads: to the parent, unless that is the home directory or
/// not below it, or the home directory is unknown.
pub open spec fn up_from(
    parent: Option<Seq<char>>,
    home: Seq<char>,
    under: bool,
    same: bool,
) -> Option<Seq<char>> {
    if parent is Some && home.len() > 0 && under && !same {
        parent
    } else {
        None
    }
}

/// Where going up from a directory leads, given its parent, whether that is
/// below the home directory, and whether it is the home directory.
pub fn nav_target(parent: Option<String>, home: &str, under: bool, same: bool) -> (r: Option<
    String,
>)
    ensures
        text::text_in(r) == up_from(text::text_in(parent), home@, under, same),
{
    match parent {
        Some(p) => {
            if home.unicode_len() > 0 && under && !same {
                Some(p)
            } else {
                None
            }
        },
        None => None,
    }
}

/// The directory one level up. At the home directory, or beside it, the strip
/// of home folders shows again.
pub fn files_nav_up(dir: Option<&str>, home: &str) -> (r: Option<String>)
    ensures
        text::text_in(r) == (match dir {
            Some(d) => match paths::parent_path(d@) {
                Some(p) => up_from(
                    Some(p),
                    home@,
                    paths::path_under(p, home@),
                    paths::path_same(p, home@),
                ),
                None => None,
            },
            None => None,
        }),
{
    match dir {
        Some(d) => match paths::parent_of(d) {
            Some(p) => {
                let under: bool = paths::is_under(&p, home);
                let same: bool = paths::is_same(&p, home);
                nav_target(Some(p), home, under, same)
            },
            None => None,
        },
        None => None,
    }
}

/// The directory that an entry stands for: itself, or the one that a file is
/// in. `is_dir` is `None` where the path cannot be looked at.
pub fn entry_dir_path(
    kind: Option<EntryKind>,
    description: &Option<String>,
    is_dir: Option<bool>,
) -> (r: Option<String>)
    ensures
        text::text_in(r) == (match (kind, *description, is_dir) {
            (Some(EntryKind::File), Some(path), Some(dir)) => if dir {
                Some(path@)
            } else {
                paths::parent_path(path@)
            },
            _ => None,
        }),
{
    match kind {
        Some(EntryKind::File) => match (description, is_dir) {
            (Some(path), Some(dir)) => if dir {
                Some(text::copy_text(path))
            } else {
                paths::parent_of(path)
            },
            _ => None,
        },
        _ => None,
    }
}

/// The command that opens a terminal in a directory, which comes quoted for a
/// shell.
pub fn terminal_command(quoted: &str, terminal: &str) -> (r: String)
    ensures
        r@ == "cd "@ + quoted@ + " && exec "@ + terminal@,
{
    text::concat(&text::concat(&text::concat("cd ", quoted), " && exec "), terminal)
}

/// How a directory reads in the title: with `~` for the home directory.
pub open spec fn display_path(dir: Option<Seq<char>>, home: Seq<char>) -> Seq<char> {
    match dir {
        Some(d) => if home.len() > 0 && text::begins_with(d, home) {
            "~"@ + text::without_prefix(d, home)
        } else {
            d
        },
        None => Seq::empty(),
    }
}

/// How the directory that is shown reads in the title; nothing at the top.
pub fn files_path_display(dir: Option<&str>, home: &str) -> (r: String)
    ensures
        r@ == display_path(
            match dir {
                Some(d) => Some(d@),
                None => None,
            },
            home@,
        ),
{
    match dir {
        Some(d) => {
            if home.unicode_len() > 0 && text::starts_with(d, home) {
                text::concat("~", &text::drop_prefix(d, home))
            } else {
                text::copy_text(d)
            }
        },
        None => String::new(),
    }
}

/// Below the home directory, a title gives the path back when `~` is replaced.
pub proof fn law_home_paths_read_back(rest: Seq<char>, home: Seq<char>)
    requires
        home.len() > 0,
    ensures
        display_path(Some(home + rest), home) == "~"@ + rest,
{
    let d = home + rest;
    assert(d.subrange(0, home.len() as int) == home);
    assert(text::begins_with(d, home));
    assert(text::without_prefix(d, home) == rest);
}

/// Only the first of many are shown: as many as there is room for, in their order.
pub proof fn law_the_first_of_many_show(v: Seq<usize>, n: int, i: int)
    requires
        0 <= n,
    ensures
        v.len() <= n ==> first_positions(v, n) == v,
        v.len() > n ==> first_positions(v, n).len() == n,
        0 <= i < first_positions(v, n).len() ==> first_positions(v, n)[i] == v[i],
{
}

/// A listing holds every entry that does not begin with a dot, and of those only the
/// folders where only folders are asked for.
pub proof fn law_a_listing_holds_every_visible_entry(
    children: Seq<DirChild>,
    folders_only: bool,
    i: int,
)
    requires
        0 <= i < children.len() <= usize::MAX,
    ensures
        listing(children, folders_only).contains(i as usize) <==> !text::begins_with(
            children[i].name@,
            "."@,
        ) && (!folders_only || children[i].is_dir),
        forall|k: int|
            0 <= k < listing(children, folders_only).len() ==> (#[trigger] listing(
                children,
                folders_only,
            )[k]) < children.len(),
{
    let kept = listed(children, folders_only);
    let n = kept.len() as int;
    let lt = child_before(children, kept);
    lemma_child_order(children, kept);
    lemma_listed_are(children, folders_only);
    let q = order::lemma_sort_exists(n, lt);
    let p = order::sorted_positions(n, lt);
    order::lemma_stable_sort_unique(q, p, n, lt);
    let l = listing(children, folders_only);
    if is_listed(children[i], folders_only) {
        lemma_listed_holds(children, folders_only, i);
        let c = choose|c: int| 0 <= c < kept.len() && kept[c] == i as usize;
        order::lemma_permutes_covers(p, n, c);
        let a = choose|a: int| 0 <= a < n && p[a] == c;
        assert(l[a] == i as usize);
    }
    if l.contains(i as usize) {
        let a = choose|a: int| 0 <= a < l.len() && l[a] == i as usize;
        assert(l[a] == kept[p[a] as int]);
    }
    assert forall|k: int| 0 <= k < l.len() implies (#[trigger] l[k]) < children.len() by {
        assert(l[k] == kept[p[k] as int]);
    }
}

proof fn lemma_listed_holds(children: Seq<DirChild>, folders_only: bool, i: int)
    requires
        0 <= i < children.len() <= usize::MAX,
        is_listed(children[i], folders_only),
    ensures
        listed(children, folders_only).contains(i as usize),
    decreases children.len(),
{
    let d = children.drop_last();
    let l = listed(children, folders_only);
    let before = listed(d, folders_only);
    if i < d.len() {
        assert(d[i] == children[i]);
        lemma_listed_holds(d, folders_only, i);
        let a = choose|a: int| 0 <= a < before.len() && before[a] == i as usize;
        assert(l[a] == i as usize);
    } else {
        assert(l[before.len() as int] == i as usize);
    }
}

/// Going up leads to the parent while that is below the home directory, and to the
/// home folders where it is the home directory, is not below it, or none is known.
pub proof fn law_going_up_ends_at_home(parent: Seq<char>, home: Seq<char>, under: bool, same: bool)
    ensures
        home.len() > 0 && under && !same ==> up_from(Some(parent), home, under, same) == Some(
            parent,
        ),
        home.len() == 0 || !under || same ==> up_from(Some(parent), home, under, same) is None,
        up_from(None, home, under, same) is None,
{
}

/// A directory that is not below the home directory reads as it is, and at the top
/// there is none to read.
pub proof fn law_other_paths_read_as_they_are(dir: Seq<char>, home: Seq<char>)
    ensures
        display_path(None, home).len() == 0,
        !text::begins_with(dir, home) || home.len() == 0 ==> display_path(Some(dir), home) == dir,
{
}

/// Every query can be matched that the searcher can read, against names that it can
/// score; the empty one always can.
pub proof fn law_which_queries_are_matched(query: Seq<char>, files: Seq<FileEntry>, i: int)
    requires
        query.len() > 0,
    ensures
        matchable(Seq::empty(), files),
        !search::parsable(query) ==> !matchable(query, files),
        0 <= i < files.len() && !search::scorable(query, files[i].name@) ==> !matchable(
            query,
            files,
        ),
        search::parsable(query) && (forall|k: int|
            0 <= k < files.len() ==> search::scorable(query, (#[trigger] files[k]).name@))
            ==> matchable(query, files),
{
}

/// Names read as the files where they are as many and each is the name of its file.
pub proof fn law_names_are_those_of_the_files(names: Seq<&str>, files: Seq<FileEntry>)
    ensures
        reads_as(names, files) <==> names.len() == files.len() && forall|k: int|
            0 <= k < names.len() ==> (#[trigger] names[k])@ == files[k].name@,
{
}

} // verus!
