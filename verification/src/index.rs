//! The index of launchable applications.
//!
//! Desktop entries come in precedence order. The first one that claims a
//! desktop-file id keeps it: an entry that is hidden claims its id too, which
//! is how a user hides a system-wide application.
use freedesktop_desktop_entry::DesktopEntry;
use vstd::prelude::*;
use crate::order;
use crate::text;

verus! {

/// What one desktop file says, as plain values.
#[derive(Debug)]
pub struct RawEntry {
    /// The desktop-file id.
    pub id: String,
    /// `Type=`.
    pub kind: Option<String>,
    pub no_display: bool,
    pub hidden: bool,
    /// `Exec=`, with its field codes.
    pub exec_line: Option<String>,
    /// `Name=`, localized.
    pub name: Option<String>,
    /// `Comment=`, localized.
    pub comment: Option<String>,
    /// `GenericName=`, localized.
    pub generic_name: Option<String>,
    pub icon: Option<String>,
    pub terminal: bool,
}

/// What one desktop file says, as plain text.
pub struct RawModel {
    pub id: Seq<char>,
    pub kind: Option<Seq<char>>,
    pub no_display: bool,
    pub hidden: bool,
    pub exec_line: Option<Seq<char>>,
    pub name: Option<Seq<char>>,
    pub comment: Option<Seq<char>>,
    pub generic_name: Option<Seq<char>>,
    pub icon: Option<Seq<char>>,
    pub terminal: bool,
}

impl View for RawEntry {
    type V = RawModel;

    open spec fn view(&self) -> RawModel {
        RawModel {
            id: self.id@,
            kind: text::text_in(self.kind),
            no_display: self.no_display,
            hidden: self.hidden,
            exec_line: text::text_in(self.exec_line),
            name: text::text_in(self.name),
            comment: text::text_in(self.comment),
            generic_name: text::text_in(self.generic_name),
            icon: text::text_in(self.icon),
            terminal: self.terminal,
        }
    }
}

/// The entries as plain text.
pub open spec fn raws(found: Seq<RawEntry>) -> Seq<RawModel> {
    Seq::new(found.len(), |i: int| found[i]@)
}

/// A desktop file: where it is and what is in it.
#[derive(Debug)]
pub struct DesktopFile {
    pub path: String,
    pub text: String,
}

/// What a desktop file says in the languages that are preferred; `None` for one
/// that is not well formed.
pub uninterp spec fn desktop_file(
    path: Seq<char>,
    text: Seq<char>,
    locales: Seq<Seq<char>>,
) -> Option<RawModel>;

/// `freedesktop_desktop_entry::DesktopEntry::from_str` and the fields of what it
/// gives: they depend on the path, the text and the languages alone.
#[verifier::external_body]
pub(crate) fn parse_file(path: &str, text: &str, locales: &[String]) -> (r: Option<RawEntry>)
    ensures
        match r {
            Some(e) => desktop_file(path@, text@, text::texts(locales@)) == Some(e@),
            None => desktop_file(path@, text@, text::texts(locales@)) is None,
        },
{
    let e = DesktopEntry::from_str(path, text, Some(locales)).ok()?;
    Some(RawEntry {
        id: e.id().to_string(),
        kind: e.type_().map(str::to_string),
        no_display: e.no_display(),
        hidden: e.hidden(),
        exec_line: e.exec().map(str::to_string),
        name: e.name(locales).map(|n| n.to_string()),
        comment: e.comment(locales).map(|c| c.to_string()),
        generic_name: e.generic_name(locales).map(|g| g.to_string()),
        icon: e.icon().map(str::to_string),
        terminal: e.terminal(),
    })
}

/// One launchable application.
#[derive(Debug, Clone, PartialEq, Eq)]
pub struct AppEntry {
    /// The desktop-file id.
    pub id: String,
    /// The display name.
    pub name: String,
    /// A subtitle.
    pub description: Option<String>,
    /// The command line, without field codes.
    pub command: String,
    /// The icon's name.
    pub icon: Option<String>,
    /// Whether it needs a terminal around it.
    pub needs_terminal: bool,
}

/// An application as plain text.
pub struct AppModel {
    pub id: Seq<char>,
    pub name: Seq<char>,
    pub description: Option<Seq<char>>,
    pub command: Seq<char>,
    pub icon: Option<Seq<char>>,
    pub needs_terminal: bool,
}

impl View for AppEntry {
    type V = AppModel;

    open spec fn view(&self) -> AppModel {
        AppModel {
            id: self.id@,
            name: self.name@,
            description: text::text_in(self.description),
            command: self.command@,
            icon: text::text_in(self.icon),
            needs_terminal: self.needs_terminal,
        }
    }
}

/// The full index.
#[derive(Debug, Clone)]
pub struct DesktopIndex {
    /// All entries, one for each id, sorted by display name.
    pub entries: Vec<AppEntry>,
}

// ---------------------------------------------------------------------------
// Command lines
// ---------------------------------------------------------------------------

/// `s` without its field codes: `%%` stands for a percent sign, and any other
/// code, or a percent sign at the end, is dropped.
pub open spec fn without_codes(s: Seq<char>) -> Seq<char>
    decreases s.len(),
{
    if s.len() == 0 {
        Seq::empty()
    } else if s[0] != '%' {
        seq![s[0]] + without_codes(s.drop_first())
    } else if s.len() == 1 {
        Seq::empty()
    } else if s[1] == '%' {
        seq!['%'] + without_codes(s.skip(2))
    } else {
        without_codes(s.skip(2))
    }
}

/// `s` with each run of spaces made one.
pub open spec fn single_spaced(s: Seq<char>) -> Seq<char>
    decreases s.len(),
{
    if s.len() == 0 {
        Seq::empty()
    } else if s.last() == ' ' && s.len() > 1 && s[s.len() - 2] == ' ' {
        single_spaced(s.drop_last())
    } else {
        single_spaced(s.drop_last()).push(s.last())
    }
}

/// A command line ready to run: no field codes, trimmed, single spaced.
pub open spec fn command_line(line: Seq<char>) -> Seq<char> {
    single_spaced(text::trimmed(without_codes(line)))
}

/// Remove the field codes from an `Exec=` line.
pub fn strip_field_codes(line: &str) -> (r: String)
    ensures
        r@ == command_line(line@),
{
    let v = text::chars_of(line);
    let mut out: Vec<char> = Vec::new();
    let mut i: usize = 0;
    assert(v@.skip(0) == line@);
    assert(out@ + without_codes(line@) == without_codes(line@));
    while i < v.len()
        invariant
            i <= v@.len(),
            out@ + without_codes(v@.skip(i as int)) == without_codes(line@),
        decreases v@.len() - i,
    {
        let ghost rest = v@.skip(i as int);
        let ghost was = out@;
        assert(rest[0] == v@[i as int]);
        if v[i] != '%' {
            out.push(v[i]);
            assert(rest.drop_first() == v@.skip(i + 1));
            assert(out@ + without_codes(v@.skip(i + 1)) == was + without_codes(rest));
            i = i + 1;
        } else if i + 1 == v.len() {
            assert(without_codes(rest) == Seq::<char>::empty());
            assert(v@.skip(i + 1) == Seq::<char>::empty());
            assert(without_codes(v@.skip(i + 1)) == Seq::<char>::empty());
            i = i + 1;
        } else {
            assert(rest[1] == v@[i + 1]);
            assert(rest.skip(2) == v@.skip(i + 2));
            if v[i + 1] == '%' {
                out.push('%');
            }
            assert(out@ + without_codes(v@.skip(i + 2)) == was + without_codes(rest));
            i = i + 2;
        }
    }
    assert(v@.skip(i as int) == Seq::<char>::empty());
    assert(out@ == without_codes(line@));
    let t = text::trim_chars(&out);
    let mut r = String::new();
    assert(t@.take(0) == Seq::<char>::empty());
    for k in 0..t.len()
        invariant
            r@ == single_spaced(t@.take(k as int)),
    {
        let ghost now = t@.take(k + 1);
        assert(now.drop_last() == t@.take(k as int));
        assert(now.last() == t@[k as int]);
        if k > 0 {
            assert(now[now.len() - 2] == t@[k - 1]);
        }
        if !(t[k] == ' ' && k > 0 && t[k - 1] == ' ') {
            r.push(t[k]);
        }
    }
    assert(t@.take(t@.len() as int) == t@);
    r
}

proof fn lemma_single_spaced(s: Seq<char>)
    ensures
        s.len() > 0 ==> single_spaced(s).len() > 0 && single_spaced(s).last() == s.last()
            && single_spaced(s)[0] == s[0],
        forall|i: int|
            0 <= i < single_spaced(s).len() - 1 ==> !(#[trigger] single_spaced(s)[i] == ' '
                && single_spaced(s)[i + 1] == ' '),
    decreases s.len(),
{
    if s.len() > 0 {
        lemma_single_spaced(s.drop_last());
        if s.len() == 1 {
            assert(s.drop_last() == Seq::<char>::empty());
            assert(single_spaced(s.drop_last()) == Seq::<char>::empty());
        }
    }
}

/// A command line holds no two spaces in a row and no white space at its ends.
pub proof fn law_command_lines_are_tidy(line: Seq<char>)
    ensures
        text::is_trimmed(command_line(line)),
        forall|i: int|
            0 <= i < command_line(line).len() - 1 ==> !(#[trigger] command_line(line)[i] == ' '
                && command_line(line)[i + 1] == ' '),
{
    let t = text::trimmed(without_codes(line));
    text::lemma_trimmed(without_codes(line));
    lemma_single_spaced(t);
    if t.len() == 0 {
        assert(command_line(line) == Seq::<char>::empty());
    }
}

// ---------------------------------------------------------------------------
// The index
// ---------------------------------------------------------------------------

/// What the first `n` files say, those that are well formed.
pub open spec fn read_files(
    files: Seq<DesktopFile>,
    locales: Seq<Seq<char>>,
    n: int,
) -> Seq<RawModel>
    decreases n,
{
    if n <= 0 {
        Seq::empty()
    } else {
        let before = read_files(files, locales, n - 1);
        match desktop_file(files[n - 1].path@, files[n - 1].text@, locales) {
            Some(e) => before.push(e),
            None => before,
        }
    }
}

/// Whether the entry is an application, or does not say.
pub open spec fn is_application(e: RawModel) -> bool {
    e.kind matches Some(k) ==> k == "Application"@
}

/// Whether the entry is one to show: an application, not hidden, with a command
/// to run.
pub open spec fn shown(e: RawModel) -> bool {
    &&& is_application(e)
    &&& !e.no_display
    &&& !e.hidden
    &&& e.exec_line is Some
    &&& command_line(e.exec_line->Some_0).len() > 0
}

/// Whether the entry keeps later entries from using its id.
pub open spec fn claims(e: RawModel) -> bool {
    shown(e) || is_application(e) && (e.no_display || e.hidden)
}

/// Whether an entry before place `i` claims the id `id`.
pub open spec fn claimed(found: Seq<RawModel>, i: int, id: Seq<char>) -> bool {
    exists|j: int| 0 <= j < i && (#[trigger] found[j]).id == id && claims(found[j])
}

/// Whether the entry at place `i` gets into the index.
pub open spec fn kept(found: Seq<RawModel>, i: int) -> bool {
    shown(found[i]) && !claimed(found, i, found[i].id)
}

/// The application that an entry stands for: its name is its id where it has
/// none, and its description the comment, else the generic name.
pub open spec fn application(e: RawModel) -> AppModel {
    AppModel {
        id: e.id,
        name: match e.name {
            Some(n) => n,
            None => e.id,
        },
        description: if e.comment is Some {
            e.comment
        } else {
            e.generic_name
        },
        command: command_line(e.exec_line->Some_0),
        icon: e.icon,
        needs_terminal: e.terminal,
    }
}

/// The applications among the first `n` entries, in order.
pub open spec fn listed(found: Seq<RawModel>, n: int) -> Seq<AppModel>
    decreases n,
{
    if n <= 0 {
        Seq::empty()
    } else if kept(found, n - 1) {
        listed(found, n - 1).push(application(found[n - 1]))
    } else {
        listed(found, n - 1)
    }
}

/// Whether application `i` comes before application `j` by its lowercase name.
pub open spec fn name_before(apps: Seq<AppModel>) -> spec_fn(int, int) -> bool {
    |i: int, j: int|
        text::text_lt(text::lowercase(apps[i].name), text::lowercase(apps[j].name))
}

/// The applications sorted by lowercase name, equal names in their order.
pub open spec fn by_name(apps: Seq<AppModel>) -> Seq<AppModel> {
    let p = order::sorted_positions(apps.len() as int, name_before(apps));
    Seq::new(p.len(), |k: int| apps[p[k] as int])
}

/// The plain applications of an index.
pub open spec fn models(entries: Seq<AppEntry>) -> Seq<AppModel> {
    Seq::new(entries.len(), |i: int| entries[i]@)
}

pub proof fn lemma_name_before_orders(apps: Seq<AppModel>)
    ensures
        order::orders(apps.len() as int, name_before(apps)),
{
    let lt = name_before(apps);
    let n = apps.len() as int;
    assert forall|i: int| 0 <= i < n implies !#[trigger] lt(i, i) by {
        text::lemma_text_lt_total(text::lowercase(apps[i].name), text::lowercase(apps[i].name));
    }
    assert forall|i: int, j: int, k: int|
        #![trigger lt(i, j), lt(j, k)]
        0 <= i < n && 0 <= j < n && 0 <= k < n && lt(i, j) && lt(j, k) implies lt(i, k) by {
        text::lemma_text_lt_trans(
            text::lowercase(apps[i].name),
            text::lowercase(apps[j].name),
            text::lowercase(apps[k].name),
        );
    }
    assert forall|i: int, j: int, k: int|
        #![trigger lt(i, j), lt(j, k)]
        0 <= i < n && 0 <= j < n && 0 <= k < n && !lt(i, j) && !lt(j, k) implies !lt(i, k) by {
        text::lemma_not_text_lt_trans(
            text::lowercase(apps[i].name),
            text::lowercase(apps[j].name),
            text::lowercase(apps[k].name),
        );
    }
}

fn copy_app(e: &AppEntry) -> (r: AppEntry)
    ensures
        r@ == e@,
{
    AppEntry {
        id: text::copy_text(e.id.as_str()),
        name: text::copy_text(e.name.as_str()),
        description: text::copy_opt(&e.description),
        command: text::copy_text(e.command.as_str()),
        icon: text::copy_opt(&e.icon),
        needs_terminal: e.needs_terminal,
    }
}

impl DesktopIndex {
    /// Build the index from desktop files, in precedence order. Those that are
    /// not well formed are passed over.
    pub fn scan_paths(files: &[DesktopFile], locales: &[String]) -> (r: DesktopIndex)
        ensures
            ({
                let found = read_files(files@, text::texts(locales@), files@.len() as int);
                models(r.entries@) == by_name(listed(found, found.len() as int))
            }),
    {
        let mut found: Vec<RawEntry> = Vec::new();
        assert(raws(found@) == read_files(files@, text::texts(locales@), 0));
        for i in 0..files.len()
            invariant
                raws(found@) == read_files(files@, text::texts(locales@), i as int),
        {
            let ghost before = found@;
            if let Some(e) = parse_file(&files[i].path, &files[i].text, locales) {
                found.push(e);
                assert(raws(found@) == raws(before).push(e@));
            }
        }
        assert(raws(found@).len() == found@.len());
        DesktopIndex::from_entries(&found)
    }

    /// Build the index from the desktop entries found, in precedence order.
    pub fn from_entries(found: &[RawEntry]) -> (r: DesktopIndex)
        ensures
            models(r.entries@) == by_name(listed(raws(found@), found@.len() as int)),
    {
        let ghost all = raws(found@);
        let mut seen: Vec<String> = Vec::new();
        let mut apps: Vec<AppEntry> = Vec::new();
        for i in 0..found.len()
            invariant
                all == raws(found@),
                forall|id: Seq<char>| #[trigger]
                    text::texts(seen@).contains(id) <==> claimed(all, i as int, id),
                models(apps@) == listed(all, i as int),
        {
            let e = &found[i];
            assert(all[i as int] == e@);
            let ghost was = text::texts(seen@);
            let ghost listed_before = models(apps@);
            let ghost mut claiming = false;
            if !text::any_same(&seen, e.id.as_str()) {
                let runs: bool = match &e.kind {
                    Some(k) => text::same(k.as_str(), "Application"),
                    None => true,
                };
                if runs {
                    if e.no_display || e.hidden {
                        seen.push(text::copy_text(e.id.as_str()));
                        proof {
                            claiming = true;
                        }
                    } else if let Some(line) = &e.exec_line {
                        let command = strip_field_codes(line.as_str());
                        if !command.as_str().is_empty() {
                            let name = match &e.name {
                                Some(n) => text::copy_text(n.as_str()),
                                None => text::copy_text(e.id.as_str()),
                            };
                            let description = if e.comment.is_some() {
                                text::copy_opt(&e.comment)
                            } else {
                                text::copy_opt(&e.generic_name)
                            };
                            let app = AppEntry {
                                id: text::copy_text(e.id.as_str()),
                                name,
                                description,
                                command,
                                icon: text::copy_opt(&e.icon),
                                needs_terminal: e.terminal,
                            };
                            assert(app@ == application(all[i as int]));
                            apps.push(app);
                            assert(models(apps@) == listed_before.push(
                                application(all[i as int]),
                            ));
                            seen.push(text::copy_text(e.id.as_str()));
                            proof {
                                claiming = true;
                            }
                        }
                    }
                }
            }
            proof {
                let id0 = all[i as int].id;
                assert(claiming ==> text::texts(seen@) == was.push(id0));
                assert(was.contains(id0) <==> claimed(all, i as int, id0));
                assert forall|id: Seq<char>| #[trigger]
                    text::texts(seen@).contains(id) <==> claimed(all, i + 1, id) by {
                    assert(was.contains(id) <==> claimed(all, i as int, id));
                    if claimed(all, i as int, id) {
                        let j = choose|j: int|
                            0 <= j < i && (#[trigger] all[j]).id == id && claims(all[j]);
                        assert(claimed(all, i + 1, id));
                    }
                    if claimed(all, i + 1, id) && !claimed(all, i as int, id) {
                        let j = choose|j: int|
                            0 <= j < i + 1 && (#[trigger] all[j]).id == id && claims(all[j]);
                        assert(j == i);
                    }
                    if claiming {
                        let now = text::texts(seen@);
                        assert(now[was.len() as int] == id0);
                        if was.contains(id) {
                            let k = choose|k: int| 0 <= k < was.len() && was[k] == id;
                            assert(now[k] == id);
                        }
                        if now.contains(id) && id != id0 {
                            let k = choose|k: int| 0 <= k < now.len() && now[k] == id;
                            assert(was[k] == id);
                        }
                        if id == id0 {
                            assert(claims(all[i as int]));
                        }
                    }
                }
            }
        }
        DesktopIndex { entries: sort_apps(&apps) }
    }

    /// The names of all entries, in index order.
    pub fn names(&self) -> (r: Vec<&str>)
        ensures
            r@.len() == self.entries@.len(),
            forall|i: int| 0 <= i < r@.len() ==> (#[trigger] r@[i])@ == self.entries@[i].name@,
    {
        let mut r: Vec<&str> = Vec::new();
        for i in 0..self.entries.len()
            invariant
                r@.len() == i,
                forall|k: int| 0 <= k < i ==> (#[trigger] r@[k])@ == self.entries@[k].name@,
        {
            r.push(self.entries[i].name.as_str());
        }
        r
    }
}

impl Default for DesktopIndex {
    /// An index without entries.
    fn default() -> (r: DesktopIndex)
        ensures
            r.entries@.len() == 0,
    {
        DesktopIndex { entries: Vec::new() }
    }
}

fn sort_apps(apps: &[AppEntry]) -> (r: Vec<AppEntry>)
    ensures
        models(r@) == by_name(models(apps@)),
{
    let ghost all = models(apps@);
    let mut keys: Vec<String> = Vec::new();
    for i in 0..apps.len()
        invariant
            all == models(apps@),
            keys@.len() == i,
            forall|k: int| 0 <= k < i ==> (#[trigger] keys@[k])@ == text::lowercase(all[k].name),
    {
        keys.push(text::to_lower(apps[i].name.as_str()));
    }
    let ghost lt = name_before(all);
    proof {
        lemma_name_before_orders(all);
    }
    let less = |i: usize, j: usize| -> (b: bool)
        requires
            i < keys@.len(),
            j < keys@.len(),
        ensures
            b == text::text_lt(keys@[i as int]@, keys@[j as int]@),
        {
            text::before(keys[i].as_str(), keys[j].as_str())
        };
    let p = order::stable_sort(apps.len(), less, Ghost(lt));
    let mut r: Vec<AppEntry> = Vec::new();
    for k in 0..p.len()
        invariant
            all == models(apps@),
            order::permutes(p@, apps@.len() as int),
            p@ == order::sorted_positions(all.len() as int, name_before(all)),
            r@.len() == k,
            models(r@) == by_name(all).take(k as int),
    {
        r.push(copy_app(&apps[p[k]]));
        assert(models(r@) == by_name(all).take(k + 1));
    }
    assert(by_name(all).take(p@.len() as int) == by_name(all));
    r
}

proof fn lemma_listed(found: Seq<RawModel>, n: int)
    requires
        0 <= n <= found.len(),
    ensures
        listed(found, n).len() <= n,
        forall|a: int|
            0 <= a < listed(found, n).len() ==> exists|i: int|
                0 <= i < n && kept(found, i) && #[trigger] listed(found, n)[a] == #[trigger]
                application(found[i]),
        forall|a: int, b: int|
            0 <= a < b < listed(found, n).len() ==> (#[trigger] listed(found, n)[a]).id != (
            #[trigger] listed(found, n)[b]).id,
    decreases n,
{
    if n > 0 {
        lemma_listed(found, n - 1);
        let l = listed(found, n - 1);
        let r = listed(found, n);
        assert forall|a: int| 0 <= a < r.len() implies exists|i: int|
            0 <= i < n && kept(found, i) && #[trigger] r[a] == #[trigger] application(found[i]) by {
            if a < l.len() {
                let i = choose|i: int|
                    0 <= i < n - 1 && kept(found, i) && #[trigger] l[a] == #[trigger] application(
                        found[i],
                    );
                assert(r[a] == application(found[i]));
            } else {
                assert(r[a] == application(found[n - 1]));
            }
        }
        assert forall|a: int, b: int| 0 <= a < b < r.len() implies (#[trigger] r[a]).id != (
        #[trigger] r[b]).id by {
            if b == l.len() {
                let i = choose|i: int|
                    0 <= i < n - 1 && kept(found, i) && #[trigger] l[a] == #[trigger] application(
                        found[i],
                    );
                if r[a].id == r[b].id {
                    assert(claims(found[i]));
                    assert(found[i].id == found[n - 1].id);
                    assert(claimed(found, n - 1, found[n - 1].id));
                }
            } else {
                assert(l[a].id != l[b].id);
            }
        }
    }
}

/// No id stands in the index twice.
pub proof fn law_ids_are_unique(found: Seq<RawModel>)
    requires
        found.len() <= usize::MAX,
    ensures
        forall|a: int, b: int|
            #![trigger by_name(listed(found, found.len() as int))[a], by_name(
                listed(found, found.len() as int),
            )[b]]
            0 <= a < b < by_name(listed(found, found.len() as int)).len() ==> by_name(
                listed(found, found.len() as int),
            )[a].id != by_name(listed(found, found.len() as int))[b].id,
{
    let l = listed(found, found.len() as int);
    let n = l.len() as int;
    let lt = name_before(l);
    lemma_listed(found, found.len() as int);
    lemma_name_before_orders(l);
    let p = order::lemma_sort_exists(n, lt);
    order::lemma_stable_sort_unique(p, order::sorted_positions(n, lt), n, lt);
    assert forall|a: int, b: int|
        #![trigger by_name(l)[a], by_name(l)[b]]
        0 <= a < b < by_name(l).len() implies by_name(l)[a].id != by_name(l)[b].id by {
        assert(by_name(l)[a] == l[p[a] as int]);
        assert(by_name(l)[b] == l[p[b] as int]);
        assert(p[a] != p[b]);
        if p[a] < p[b] {
            assert(l[p[a] as int].id != l[p[b] as int].id);
        } else {
            assert(l[p[b] as int].id != l[p[a] as int].id);
        }
    }
}

/// The index is sorted by lowercase name.
pub proof fn law_the_index_is_sorted(found: Seq<RawModel>)
    requires
        found.len() <= usize::MAX,
    ensures
        forall|a: int, b: int|
            #![trigger by_name(listed(found, found.len() as int))[a], by_name(
                listed(found, found.len() as int),
            )[b]]
            0 <= a < b < by_name(listed(found, found.len() as int)).len() ==> !text::text_lt(
                text::lowercase(by_name(listed(found, found.len() as int))[b].name),
                text::lowercase(by_name(listed(found, found.len() as int))[a].name),
            ),
{
    let l = listed(found, found.len() as int);
    let n = l.len() as int;
    let lt = name_before(l);
    lemma_listed(found, found.len() as int);
    lemma_name_before_orders(l);
    let p = order::lemma_sort_exists(n, lt);
    order::lemma_stable_sort_unique(p, order::sorted_positions(n, lt), n, lt);
    assert forall|a: int, b: int|
        #![trigger by_name(l)[a], by_name(l)[b]]
        0 <= a < b < by_name(l).len() implies !text::text_lt(
        text::lowercase(by_name(l)[b].name),
        text::lowercase(by_name(l)[a].name),
    ) by {
        assert(!lt(p[b] as int, p[a] as int));
    }
}

/// A hidden entry hides every later one with its id, and an earlier entry wins
/// over a later one.
pub proof fn law_the_first_claim_wins(found: Seq<RawModel>, first: int, later: int)
    requires
        0 <= first < later < found.len(),
        claims(found[first]),
        found[first].id == found[later].id,
    ensures
        !kept(found, later),
{
    assert(claimed(found, later, found[later].id));
}

// ---------------------------------------------------------------------------
// Which entries are in the index
// ---------------------------------------------------------------------------

proof fn lemma_listed_places(found: Seq<RawModel>, n: int) -> (at: Seq<int>)
    requires
        0 <= n <= found.len(),
    ensures
        at.len() == listed(found, n).len(),
        forall|a: int|
            0 <= a < at.len() ==> 0 <= (#[trigger] at[a]) < n && kept(found, at[a]) && listed(
                found,
                n,
            )[a] == application(found[at[a]]),
        forall|i: int| 0 <= i < n && #[trigger] kept(found, i) ==> at.contains(i),
    decreases n,
{
    if n == 0 {
        Seq::empty()
    } else {
        let was = lemma_listed_places(found, n - 1);
        let now = if kept(found, n - 1) {
            was.push(n - 1)
        } else {
            was
        };
        assert forall|i: int| 0 <= i < n && #[trigger] kept(found, i) implies now.contains(i) by {
            if i < n - 1 {
                assert(was.contains(i));
                let a = choose|a: int| 0 <= a < was.len() && was[a] == i;
                assert(now[a] == i);
            } else {
                assert(now[was.len() as int] == n - 1);
            }
        }
        now
    }
}

/// Every application of the index comes from one of the entries: one that is an
/// application or does not say, is neither hidden nor kept from display, and has
/// something to run. It has that entry's id, name, description, icon and terminal.
/// No earlier entry of an application with its id is hidden, kept from display or
/// has something to run; and every entry of which all this holds is in the index.
/// `at` says where the applications come from.
pub proof fn law_the_index_holds_what_the_entries_say(found: Seq<RawModel>) -> (at: Seq<int>)
    requires
        found.len() <= usize::MAX,
    ensures
        ({
            let r = by_name(listed(found, found.len() as int));
            &&& at.len() == r.len()
            &&& forall|a: int|
                0 <= a < at.len() ==> {
                    let e = found[#[trigger] at[a]];
                    &&& 0 <= at[a] < found.len()
                    &&& e.kind is None || e.kind == Some("Application"@)
                    &&& !e.no_display && !e.hidden
                    &&& e.exec_line matches Some(line) && command_line(line).len() > 0
                        && r[a].command == command_line(line)
                    &&& r[a].id == e.id
                    &&& r[a].name == (if e.name is Some {
                        e.name->Some_0
                    } else {
                        e.id
                    })
                    &&& e.comment is Some ==> r[a].description == e.comment
                    &&& e.comment is None ==> r[a].description == e.generic_name
                    &&& r[a].icon == e.icon
                    &&& r[a].needs_terminal == e.terminal
                }
            &&& forall|a: int, j: int|
                #![trigger at[a], found[j]]
                0 <= a < at.len() && 0 <= j < at[a] && found[j].id == r[a].id && (found[j].kind
                    is None || found[j].kind == Some("Application"@)) ==> !found[j].no_display
                    && !found[j].hidden && (found[j].exec_line matches Some(line) ==> command_line(
                    line,
                ).len() == 0)
            &&& forall|i: int|
                0 <= i < found.len() && ((#[trigger] found[i]).kind is None || found[i].kind
                    == Some("Application"@)) && !found[i].no_display && !found[i].hidden && (
                found[i].exec_line matches Some(line) && command_line(line).len() > 0) && (forall|
                    j: int,
                |
                    0 <= j < i && (#[trigger] found[j]).id == found[i].id && (found[j].kind is None
                        || found[j].kind == Some("Application"@)) ==> !found[j].no_display
                        && !found[j].hidden && (found[j].exec_line matches Some(line)
                        ==> command_line(line).len() == 0)) ==> at.contains(i)
        }),
{
    let n = found.len() as int;
    let l = listed(found, n);
    let r = by_name(l);
    let places = lemma_listed_places(found, n);
    lemma_listed(found, n);
    lemma_name_before_orders(l);
    let m = l.len() as int;
    let lt = name_before(l);
    let p = order::lemma_sort_exists(m, lt);
    order::lemma_stable_sort_unique(p, order::sorted_positions(m, lt), m, lt);
    let at = Seq::new(p.len(), |a: int| places[p[a] as int]);
    assert forall|a: int| 0 <= a < at.len() implies r[a] == application(found[#[trigger] at[a]])
        && kept(found, at[a]) && 0 <= at[a] < n by {
        assert(at[a] == places[p[a] as int]);
        assert(r[a] == l[p[a] as int]);
    }
    assert forall|a: int, j: int|
        #![trigger at[a], found[j]]
        0 <= a < at.len() && 0 <= j < at[a] && found[j].id == r[a].id && (found[j].kind is None
            || found[j].kind == Some("Application"@)) implies !found[j].no_display
        && !found[j].hidden && (found[j].exec_line matches Some(line) ==> command_line(line).len()
        == 0) by {
        assert(kept(found, at[a]));
        assert(!claimed(found, at[a], found[at[a]].id));
        assert(!claims(found[j]));
    }
    assert forall|i: int|
        0 <= i < found.len() && ((#[trigger] found[i]).kind is None || found[i].kind == Some(
            "Application"@,
        )) && !found[i].no_display && !found[i].hidden && (found[i].exec_line matches Some(line)
            && command_line(line).len() > 0) && (forall|j: int|
            0 <= j < i && (#[trigger] found[j]).id == found[i].id && (found[j].kind is None
                || found[j].kind == Some("Application"@)) ==> !found[j].no_display
                && !found[j].hidden && (found[j].exec_line matches Some(line) ==> command_line(
                line,
            ).len() == 0)) implies at.contains(i) by {
        assert(shown(found[i]));
        if claimed(found, i, found[i].id) {
            let j = choose|j: int|
                0 <= j < i && (#[trigger] found[j]).id == found[i].id && claims(found[j]);
            assert(false);
        }
        assert(kept(found, i));
        let c = choose|c: int| 0 <= c < places.len() && places[c] == i;
        order::lemma_permutes_covers(p, m, c);
        let a = choose|a: int| 0 <= a < m && p[a] == c;
        assert(at[a] == i);
    }
    at
}

/// An application entry that is hidden or kept from display hides every later entry
/// with its id: what the index holds under that id, if anything, comes from an
/// earlier one.
pub proof fn law_a_hidden_entry_hides_its_id(found: Seq<RawModel>, first: int, a: int)
    requires
        found.len() <= usize::MAX,
        0 <= first < found.len(),
        found[first].kind is None || found[first].kind == Some("Application"@),
        found[first].no_display || found[first].hidden,
        0 <= a < by_name(listed(found, found.len() as int)).len(),
        by_name(listed(found, found.len() as int))[a].id == found[first].id,
    ensures
        exists|i: int|
            0 <= i < first && (#[trigger] found[i]).id == found[first].id && !found[i].no_display
                && !found[i].hidden,
{
    let at = law_the_index_holds_what_the_entries_say(found);
    let i = at[a];
    assert(found[i].id == found[first].id);
    assert(found[first].id == found[first].id);
    assert(i != first);
    assert(i < first);
}

// ---------------------------------------------------------------------------
// What a command line keeps
// ---------------------------------------------------------------------------

/// Field codes go and everything else stays: what stands before the first percent
/// sign is kept, two of them stand for one, and one with another character behind it
/// is dropped with it.
pub proof fn law_field_codes_are_dropped(lead: Seq<char>, code: char, rest: Seq<char>)
    requires
        forall|i: int| 0 <= i < lead.len() ==> #[trigger] lead[i] != '%',
    ensures
        without_codes(lead) == lead,
        without_codes(lead + rest) == lead + without_codes(rest),
        without_codes(lead.push('%')) == lead,
        without_codes(lead.push('%').push('%') + rest) == lead.push('%') + without_codes(rest),
        code != '%' ==> without_codes(lead.push('%').push(code) + rest) == lead + without_codes(
            rest,
        ),
{
    lemma_codes_behind(lead, rest);
    lemma_codes_behind(lead, Seq::empty());
    assert(lead + Seq::<char>::empty() == lead);
    let one = seq!['%'];
    lemma_codes_behind(lead, one);
    assert(lead + one == lead.push('%'));
    assert(without_codes(one) == Seq::<char>::empty());
    assert(lead + without_codes(one) == lead);
    let two = seq!['%', '%'] + rest;
    lemma_codes_behind(lead, two);
    assert(lead + two == lead.push('%').push('%') + rest);
    assert(two.skip(2) == rest);
    assert(lead + (seq!['%'] + without_codes(rest)) == lead.push('%') + without_codes(rest));
    if code != '%' {
        let other = seq!['%', code] + rest;
        lemma_codes_behind(lead, other);
        assert(lead + other == lead.push('%').push(code) + rest);
        assert(other.skip(2) == rest);
    }
}

proof fn lemma_codes_behind(lead: Seq<char>, rest: Seq<char>)
    requires
        forall|i: int| 0 <= i < lead.len() ==> #[trigger] lead[i] != '%',
    ensures
        without_codes(lead + rest) == lead + without_codes(rest),
    decreases lead.len(),
{
    if lead.len() == 0 {
        assert(lead + rest == rest);
        assert(lead + without_codes(rest) == without_codes(rest));
    } else {
        let d = lead.drop_first();
        lemma_codes_behind(d, rest);
        assert((lead + rest).drop_first() == d + rest);
        assert(seq![lead[0]] + (d + without_codes(rest)) == lead + without_codes(rest));
    }
}

/// Only the second of two spaces goes: a line that has no two in a row is kept, and
/// one more space beside a space changes nothing.
pub proof fn law_runs_of_spaces_become_one(lead: Seq<char>, rest: Seq<char>)
    ensures
        (forall|i: int|
            0 <= i < lead.len() - 1 ==> !(#[trigger] lead[i] == ' ' && lead[i + 1] == ' '))
            ==> single_spaced(lead) == lead,
        single_spaced(lead.push(' ').push(' ') + rest) == single_spaced(lead.push(' ') + rest),
{
    lemma_kept_spaces(lead);
    lemma_one_more_space(lead, rest);
}

proof fn lemma_kept_spaces(s: Seq<char>)
    ensures
        (forall|i: int| 0 <= i < s.len() - 1 ==> !(#[trigger] s[i] == ' ' && s[i + 1] == ' '))
            ==> single_spaced(s) == s,
    decreases s.len(),
{
    if s.len() > 0 && forall|i: int|
        0 <= i < s.len() - 1 ==> !(#[trigger] s[i] == ' ' && s[i + 1] == ' ') {
        let d = s.drop_last();
        assert forall|i: int| 0 <= i < d.len() - 1 implies !(#[trigger] d[i] == ' ' && d[i + 1]
            == ' ') by {
            assert(d[i] == s[i]);
        }
        lemma_kept_spaces(d);
        if s.len() > 1 {
            assert(!(s[s.len() - 2] == ' ' && s[s.len() - 1] == ' '));
        }
        assert(d.push(s.last()) == s);
    }
}

proof fn lemma_one_more_space(lead: Seq<char>, rest: Seq<char>)
    ensures
        single_spaced(lead.push(' ').push(' ') + rest) == single_spaced(lead.push(' ') + rest),
    decreases rest.len(),
{
    let x = lead.push(' ').push(' ');
    let y = lead.push(' ');
    if rest.len() == 0 {
        assert(x + rest == x);
        assert(y + rest == y);
        assert(x.drop_last() == y);
    } else {
        let d = rest.drop_last();
        lemma_one_more_space(lead, d);
        assert((x + rest).drop_last() == x + d);
        assert((y + rest).drop_last() == y + d);
        assert((x + rest)[(x + rest).len() - 2] == (y + rest)[(y + rest).len() - 2]);
    }
}

/// Files that are not well formed are passed over, and the others are read in their
/// order. `at` says which files were read.
pub proof fn law_files_are_read_in_order(
    files: Seq<DesktopFile>,
    locales: Seq<Seq<char>>,
    n: int,
) -> (at: Seq<int>)
    requires
        0 <= n <= files.len(),
    ensures
        at.len() == read_files(files, locales, n).len(),
        forall|a: int|
            0 <= a < at.len() ==> 0 <= (#[trigger] at[a]) < n && desktop_file(
                files[at[a]].path@,
                files[at[a]].text@,
                locales,
            ) == Some(read_files(files, locales, n)[a]),
        forall|a: int, b: int| 0 <= a < b < at.len() ==> #[trigger] at[a] < #[trigger] at[b],
        forall|i: int|
            0 <= i < n && desktop_file((#[trigger] files[i]).path@, files[i].text@, locales) is Some
                ==> at.contains(i),
    decreases n,
{
    if n == 0 {
        Seq::empty()
    } else {
        let was = law_files_are_read_in_order(files, locales, n - 1);
        let now = if desktop_file(files[n - 1].path@, files[n - 1].text@, locales) is Some {
            was.push(n - 1)
        } else {
            was
        };
        assert forall|i: int|
            0 <= i < n && desktop_file((#[trigger] files[i]).path@, files[i].text@, locales)
                is Some implies now.contains(i) by {
            if i < n - 1 {
                let a = choose|a: int| 0 <= a < was.len() && was[a] == i;
                assert(now[a] == i);
            } else {
                assert(now[was.len() as int] == n - 1);
            }
        }
        now
    }
}

/// An entry and a desktop file are seen field by field, and a list entry by entry.
pub proof fn law_entries_are_seen_as_they_are(
    e: RawEntry,
    a: AppEntry,
    found: Seq<RawEntry>,
    list: Seq<AppEntry>,
    i: int,
)
    ensures
        e@.id == e.id@,
        e@.kind == text::text_in(e.kind),
        e@.no_display == e.no_display,
        e@.hidden == e.hidden,
        e@.exec_line == text::text_in(e.exec_line),
        e@.name == text::text_in(e.name),
        e@.comment == text::text_in(e.comment),
        e@.generic_name == text::text_in(e.generic_name),
        e@.icon == text::text_in(e.icon),
        e@.terminal == e.terminal,
        a@.id == a.id@,
        a@.name == a.name@,
        a@.description == text::text_in(a.description),
        a@.command == a.command@,
        a@.icon == text::text_in(a.icon),
        a@.needs_terminal == a.needs_terminal,
        raws(found).len() == found.len(),
        0 <= i < found.len() ==> raws(found)[i] == found[i]@,
        models(list).len() == list.len(),
        0 <= i < list.len() ==> models(list)[i] == list[i]@,
{
}

} // verus!
