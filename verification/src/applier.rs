//! Declarative install and uninstall: the package list that the user owns and
//! the wait for the privileged helper that applies it.
//!
//! The list is a plain text file with one attribute per line. A helper watches
//! it, rebuilds the system when it changes and reports in a status file.
//! Declared in the list counts as installed only once a successful run
//! *started* after the list was last written: only such a run read that list.
//!
//! Nothing here touches a file or a clock. What stands on disk comes in as a
//! [`ListFile`] and an [`ApplyStatus`], and what has to be written goes out as
//! text.
use vstd::prelude::*;
use crate::text;

verus! {

/// How long nothing may run and nothing may be picked up before the trigger
/// counts as unwired, in milliseconds.
pub const START_TIMEOUT: u64 = 120_000;

/// Hard cap on the whole wait, in milliseconds.
pub const BUILD_TIMEOUT: u64 = 3_600_000;

/// Pause between two looks at the status, in milliseconds.
pub const POLL: u64 = 500;

/// How long to watch an idle status before the list is written again, in
/// milliseconds.
pub const NUDGE_AFTER: u64 = 5_000;

/// How often the list is written again at most.
pub const MAX_NUDGES: u32 = 3;

/// How long an answer about the helper being alive is good for, in
/// milliseconds.
pub const LIVENESS_EVERY: u64 = 5_000;

/// What the helper wrote into its status file.
#[derive(Debug)]
pub struct ApplyStatus {
    /// "building" while the rebuild runs, "done" when it finished.
    pub phase: String,
    /// `Some` on a finished run, `None` while building.
    pub ok: Option<bool>,
    /// When the run started: a stamp on the scale of [`ListFile::written`].
    pub started: u64,
    /// The end of the rebuild's error output on failure.
    pub error: Option<String>,
}

/// The package list as it stands on disk.
#[derive(Debug)]
pub struct ListFile {
    /// Whether the file is there.
    pub exists: bool,
    /// Its text; empty where it is missing or cannot be read.
    pub text: String,
    /// When it was last written, 0 where that is unknown. Stamps only have to
    /// be ordered as the moments are.
    pub written: u64,
}

// ---------------------------------------------------------------------------
// Waiting for a run
// ---------------------------------------------------------------------------

/// How long ago `then` was at `now`; 0 for a moment still to come.
pub open spec fn elapsed(now: u64, then: u64) -> int {
    if now >= then {
        now - then
    } else {
        0
    }
}

/// The state of one wait: moments are in milliseconds on one clock.
#[derive(Debug, Clone, Copy, PartialEq, Eq)]
pub struct Wait {
    /// When the wait began.
    pub start: u64,
    /// How often the list was written again.
    pub nudges: u32,
    /// Since when nothing has been running (or since the last nudge).
    pub idle_since: u64,
    /// When the helper was last asked for, and whether it was alive.
    pub liveness: Option<(u64, bool)>,
}

/// What one look at the status decided.
#[derive(Debug, Clone, Copy, PartialEq, Eq)]
pub struct WaitStep {
    /// Write the unchanged list again, to trip the watch.
    pub nudge: bool,
    /// The answer of the wait, or `None` to look again after [`POLL`].
    pub outcome: Option<bool>,
}

/// Whether the status is a finished run that read a list written at `since`.
pub open spec fn answers(status: Option<ApplyStatus>, since: u64) -> bool {
    status matches Some(st) && st.phase@ == "done"@ && st.started >= since
}

/// Whether the status claims that a run is under way.
pub open spec fn claims_building(status: Option<ApplyStatus>) -> bool {
    status matches Some(st) && st.phase@ == "building"@
}

proof fn lemma_phases_differ()
    ensures
        "done"@ != "building"@,
{
    reveal_strlit("done");
    reveal_strlit("building");
    assert("done"@.len() != "building"@.len());
}

/// How one look at the status takes a wait from `before` to `after` and what
/// it decides.
pub open spec fn polled(
    before: Wait,
    after: Wait,
    status: Option<ApplyStatus>,
    since: u64,
    now: u64,
    asked: bool,
    step: WaitStep,
) -> bool {
    if answers(status, since) {
        &&& after == before
        &&& step == (WaitStep { nudge: false, outcome: Some(status->Some_0.ok == Some(true)) })
    } else {
        let busy = before.busy(status, now, asked);
        let idle_since = if busy {
            now
        } else {
            before.idle_since
        };
        let nudge = !busy && before.nudges < MAX_NUDGES && elapsed(now, idle_since) > NUDGE_AFTER;
        let idle_after = if nudge {
            now
        } else {
            idle_since
        };
        &&& after.start == before.start
        &&& after.idle_since == idle_after
        &&& after.nudges == before.nudges + (if nudge {
            1int
        } else {
            0
        })
        &&& after.liveness == (if claims_building(status) && !before.knows_liveness(now) {
            Some((now, asked))
        } else {
            before.liveness
        })
        &&& step.nudge == nudge
        &&& step.outcome == (if !busy && elapsed(now, idle_after) > START_TIMEOUT || elapsed(
            now,
            before.start,
        ) > BUILD_TIMEOUT {
            Some(false)
        } else {
            None
        })
    }
}

/// Whether the unit that watches the list is there, by the answer to the question
/// for it: it counts as present where it could not be asked for.
pub open spec fn unit_present(answer: Option<bool>) -> bool {
    answer != Some(false)
}

/// How a wait opens, by the answer to the question for the unit that watches the
/// list. Without that unit no run will ever come: the wait is over at once with
/// `false`, and the list is not written again. With it the wait begins at `now`.
pub fn wait_for_apply(answer: Option<bool>, now: u64) -> (r: (Wait, WaitStep))
    ensures
        r.0 == (Wait { start: now, nudges: 0, idle_since: now, liveness: None }),
        !r.1.nudge,
        r.1.outcome == (if unit_present(answer) {
            None
        } else {
            Some(false)
        }),
{
    let outcome = match answer {
        Some(false) => Some(false),
        _ => None,
    };
    (Wait::begin(now), WaitStep { nudge: false, outcome })
}

impl Wait {
    /// Whether the last answer about the helper is still good.
    pub open spec fn knows_liveness(self, now: u64) -> bool {
        self.liveness matches Some(l) && elapsed(now, l.0) < LIVENESS_EVERY
    }

    /// Whether the helper is taken to be alive, where `asked` is the answer to
    /// a question put now.
    pub open spec fn taken_alive(self, now: u64, asked: bool) -> bool {
        if self.knows_liveness(now) {
            self.liveness->Some_0.1
        } else {
            asked
        }
    }

    /// Whether a live run is under way: ours or another's.
    pub open spec fn busy(
        self,
        status: Option<ApplyStatus>,
        now: u64,
        asked: bool,
    ) -> bool {
        claims_building(status) && self.taken_alive(now, asked)
    }

    /// A wait that begins at `now`.
    pub fn begin(now: u64) -> (r: Wait)
        ensures
            r == (Wait { start: now, nudges: 0, idle_since: now, liveness: None }),
    {
        Wait { start: now, nudges: 0, idle_since: now, liveness: None }
    }

    /// Whether the helper has to be asked before [`Wait::poll`]: a run claims
    /// to be under way and the last answer is too old.
    pub fn must_ask(&self, status: &Option<ApplyStatus>, now: u64) -> (r: bool)
        ensures
            r == (claims_building(*status) && !self.knows_liveness(now)),
    {
        match status {
            Some(st) => {
                if !text::same(st.phase.as_str(), "building") {
                    return false;
                }
                match self.liveness {
                    Some(l) => now.saturating_sub(l.0) >= LIVENESS_EVERY,
                    None => true,
                }
            },
            None => false,
        }
    }

    /// One look at the status at `now`, for a list written at `since`. `asked`
    /// is the helper's answer where [`Wait::must_ask`] wants one; elsewhere it
    /// does not matter.
    pub fn poll(
        &mut self,
        status: &Option<ApplyStatus>,
        since: u64,
        now: u64,
        asked: bool,
    ) -> (r: WaitStep)
        ensures
            polled(*old(self), *final(self), *status, since, now, asked, r),
    {
        proof {
            lemma_phases_differ();
        }
        let ask: bool = self.must_ask(status, now);
        let mut busy = false;
        match status {
            Some(st) => {
                if text::same(st.phase.as_str(), "done") && st.started >= since {
                    let ok: bool = match st.ok {
                        Some(b) => b,
                        None => false,
                    };
                    return WaitStep { nudge: false, outcome: Some(ok) };
                }
                if text::same(st.phase.as_str(), "building") {
                    if ask {
                        self.liveness = Some((now, asked));
                        busy = asked;
                    } else {
                        busy = match self.liveness {
                            Some(l) => l.1,
                            None => asked,
                        };
                    }
                    if busy {
                        self.idle_since = now;
                    }
                }
            },
            None => {},
        }
        let mut nudge = false;
        if !busy && self.nudges < MAX_NUDGES && now.saturating_sub(self.idle_since) > NUDGE_AFTER {
            nudge = true;
            self.nudges = self.nudges + 1;
            self.idle_since = now;
        }
        if !busy && now.saturating_sub(self.idle_since) > START_TIMEOUT {
            return WaitStep { nudge, outcome: Some(false) };
        }
        if now.saturating_sub(self.start) > BUILD_TIMEOUT {
            return WaitStep { nudge, outcome: Some(false) };
        }
        WaitStep { nudge, outcome: None }
    }
}

/// Only a finished run that started at or after the write ends a wait with
/// success; a run that started before it, however late it finished, does not
/// answer.
pub proof fn law_only_a_covering_run_succeeds(
    before: Wait,
    after: Wait,
    status: Option<ApplyStatus>,
    since: u64,
    now: u64,
    asked: bool,
    step: WaitStep,
)
    requires
        polled(before, after, status, since, now, asked, step),
        step.outcome == Some(true),
    ensures
        status matches Some(st) && st.phase@ == "done"@ && st.started >= since && st.ok == Some(
            true,
        ),
{
}

/// While a live run is under way the list is not written again, and the wait
/// ends only at the hard cap.
pub proof fn law_a_live_run_is_left_alone(
    before: Wait,
    after: Wait,
    status: Option<ApplyStatus>,
    since: u64,
    now: u64,
    asked: bool,
    step: WaitStep,
)
    requires
        polled(before, after, status, since, now, asked, step),
        before.busy(status, now, asked),
        elapsed(now, before.start) <= BUILD_TIMEOUT,
    ensures
        step == (WaitStep { nudge: false, outcome: None }),
        after.idle_since == now,
{
    lemma_phases_differ();
}

/// A run that claims to be under way with the helper dead counts as idle: the
/// list is written again as if no run were reported at all.
pub proof fn law_a_dead_run_counts_as_idle(
    before: Wait,
    after: Wait,
    status: Option<ApplyStatus>,
    since: u64,
    now: u64,
    step: WaitStep,
    after_none: Wait,
    step_none: WaitStep,
)
    requires
        polled(before, after, status, since, now, false, step),
        polled(before, after_none, None, since, now, false, step_none),
        claims_building(status),
        !before.taken_alive(now, false),
    ensures
        step == step_none,
        after.idle_since == after_none.idle_since,
        after.nudges == after_none.nudges,
{
    lemma_phases_differ();
}

/// The list is written again at most [`MAX_NUDGES`] times in one wait, and a
/// wait is over at the first look past the hard cap.
pub proof fn law_a_wait_is_bounded(
    before: Wait,
    after: Wait,
    status: Option<ApplyStatus>,
    since: u64,
    now: u64,
    asked: bool,
    step: WaitStep,
)
    requires
        polled(before, after, status, since, now, asked, step),
        before.nudges <= MAX_NUDGES,
    ensures
        after.nudges <= MAX_NUDGES,
        after.start == before.start,
        elapsed(now, before.start) > BUILD_TIMEOUT ==> step.outcome is Some,
{
}

// ---------------------------------------------------------------------------
// The list
// ---------------------------------------------------------------------------

/// The configuration directory: `XDG_CONFIG_HOME`, or `.config` in the home
/// directory, and `waverunner` below it.
pub open spec fn config_dir_of(xdg: Option<String>, home: Option<String>) -> Seq<char> {
    let base = match xdg {
        Some(x) => x@,
        None => text::below(
            match home {
                Some(h) => h@,
                None => Seq::empty(),
            },
            ".config"@,
        ),
    };
    text::below(base, "waverunner"@)
}

/// The configuration directory, from the two environment variables.
pub fn config_dir(xdg: &Option<String>, home: &Option<String>) -> (r: String)
    ensures
        r@ == config_dir_of(*xdg, *home),
{
    let base = match xdg {
        Some(x) => text::copy_text(x.as_str()),
        None => match home {
            Some(h) => text::join_path(h.as_str(), ".config"),
            None => text::join_path("", ".config"),
        },
    };
    proof {
        reveal_strlit("");
        assert(""@ == Seq::<char>::empty());
    }
    text::join_path(base.as_str(), "waverunner")
}

/// Where the package list is.
pub fn list_path(xdg: &Option<String>, home: &Option<String>) -> (r: String)
    ensures
        r@ == text::below(config_dir_of(*xdg, *home), "packages.list"@),
{
    text::join_path(config_dir(xdg, home).as_str(), "packages.list")
}

/// Where the helper writes its status.
pub fn status_path(xdg: &Option<String>, home: &Option<String>) -> (r: String)
    ensures
        r@ == text::below(config_dir_of(*xdg, *home), "apply-status.json"@),
{
    text::join_path(config_dir(xdg, home).as_str(), "apply-status.json")
}

/// An ASCII letter or digit.
pub open spec fn is_alnum(c: char) -> bool {
    'a' <= c <= 'z' || 'A' <= c <= 'Z' || '0' <= c <= '9'
}

/// A character that an attribute may hold.
pub open spec fn attr_char(c: char) -> bool {
    is_alnum(c) || c == '.' || c == '_' || c == '-'
}

/// An attribute: a letter or digit first, and only [`attr_char`]s.
pub open spec fn valid_attr(s: Seq<char>) -> bool {
    &&& s.len() > 0
    &&& is_alnum(s[0])
    &&& forall|i: int| 0 <= i < s.len() ==> attr_char(#[trigger] s[i])
}

fn alnum(c: char) -> (r: bool)
    ensures
        r == is_alnum(c),
{
    ('a' <= c && c <= 'z') || ('A' <= c && c <= 'Z') || ('0' <= c && c <= '9')
}

/// Whether `s` is an attribute that the helper accepts.
pub fn is_valid_attr(s: &str) -> (r: bool)
    ensures
        r == valid_attr(s@),
{
    let v = text::chars_of(s);
    if v.len() == 0 || !alnum(v[0]) {
        return false;
    }
    for i in 0..v.len()
        invariant
            v@ == s@,
            forall|k: int| 0 <= k < i ==> attr_char(#[trigger] v@[k]),
    {
        if !(alnum(v[i]) || v[i] == '.' || v[i] == '_' || v[i] == '-') {
            assert(!attr_char(s@[i as int]));
            return false;
        }
    }
    true
}

/// What a line declares: the text before any `#`, trimmed.
pub open spec fn declared_on(line: Seq<char>) -> Seq<char> {
    text::trimmed(line.take(text::span_to(line, '#')))
}

/// Whether the list text declares `attr`: some line does, and it is valid.
pub open spec fn declares(list: Seq<char>, attr: Seq<char>) -> bool {
    &&& valid_attr(attr)
    &&& exists|i: int|
        0 <= i < text::lines(list).len() && declared_on(#[trigger] text::lines(list)[i]) == attr
}

/// The attributes that a list text declares: ascending, each once.
pub open spec fn declared(list: Seq<char>) -> Seq<Seq<char>> {
    choose|l: Seq<Seq<char>>|
        text::ascending(l) && forall|x: Seq<char>| #[trigger] l.contains(x) <==> declares(list, x)
}

fn line_entry(line: &str) -> (r: String)
    ensures
        r@ == declared_on(line@),
{
    let v = text::chars_of(line);
    let mut n: usize = 0;
    while n < v.len() && v[n] != '#'
        invariant
            n <= v@.len(),
            v@ == line@,
            forall|i: int| 0 <= i < n ==> v@[i] != '#',
        decreases v@.len() - n,
    {
        n = n + 1;
    }
    proof {
        text::lemma_span_to_at(line@, '#', n as int);
        assert(line@.subrange(0, n as int) == line@.take(n as int));
    }
    let head = text::slice_text(&v, 0, n);
    text::trim(head.as_str())
}

/// The attributes that the text of a list file declares, sorted and each once.
/// Comments, blank lines and lines that are no attribute are passed over.
pub fn parse_list(list: &str) -> (r: Vec<String>)
    ensures
        text::texts(r@) == declared(list@),
        text::ascending(text::texts(r@)),
        forall|x: Seq<char>| #[trigger]
            text::texts(r@).contains(x) <==> declares(list@, x),
{
    let lines = text::lines_of(list);
    let ghost ls = text::lines(list@);
    let mut out: Vec<String> = Vec::new();
    for i in 0..lines.len()
        invariant
            text::texts(lines@) == ls,
            text::ascending(text::texts(out@)),
            forall|x: Seq<char>|
                #![trigger text::texts(out@).contains(x)]
                text::texts(out@).contains(x) <==> valid_attr(x) && exists|k: int|
                    0 <= k < i && declared_on(#[trigger] ls[k]) == x,
    {
        let ghost was = text::texts(out@);
        let entry = line_entry(lines[i].as_str());
        assert(ls[i as int] == lines@[i as int]@);
        let ghost e = entry@;
        if is_valid_attr(entry.as_str()) {
            text::insert_sorted(&mut out, entry);
        }
        proof {
            assert forall|x: Seq<char>|
                #![trigger text::texts(out@).contains(x)]
                text::texts(out@).contains(x) <==> valid_attr(x) && exists|k: int|
                    0 <= k < i + 1 && declared_on(#[trigger] ls[k]) == x by {
                assert(text::texts(out@).contains(x) <==> was.contains(x) || (valid_attr(e) && x
                    == e));
                if valid_attr(x) && exists|k: int|
                    0 <= k < i + 1 && declared_on(#[trigger] ls[k]) == x {
                    let k = choose|k: int| 0 <= k < i + 1 && declared_on(#[trigger] ls[k]) == x;
                    if k < i {
                        assert(was.contains(x));
                    }
                }
            }
        }
    }
    let ghost l = text::texts(out@);
    proof {
        assert(forall|x: Seq<char>| #[trigger] l.contains(x) <==> declares(list@, x));
        lemma_declared(list@, l);
    }
    out
}

/// The declared attributes are the one ascending list of them.
proof fn lemma_declared(list: Seq<char>, l: Seq<Seq<char>>)
    requires
        text::ascending(l),
        forall|x: Seq<char>| #[trigger] l.contains(x) <==> declares(list, x),
    ensures
        declared(list) == l,
{
    let d = declared(list);
    assert(text::ascending(d) && forall|x: Seq<char>| #[trigger]
        d.contains(x) <==> declares(list, x));
    assert forall|x: Seq<char>| d.contains(x) <==> l.contains(x) by {
        assert(l.contains(x) <==> declares(list, x));
    }
    text::lemma_ascending_unique(d, l);
}

/// The members of `attrs`, ascending and each once.
pub open spec fn sorted_members(attrs: Seq<Seq<char>>) -> Seq<Seq<char>> {
    choose|l: Seq<Seq<char>>|
        text::ascending(l) && forall|x: Seq<char>| #[trigger] l.contains(x) <==> attrs.contains(x)
}

proof fn lemma_sorted_members(attrs: Seq<Seq<char>>, l: Seq<Seq<char>>)
    requires
        text::ascending(l),
        forall|x: Seq<char>| #[trigger] l.contains(x) <==> attrs.contains(x),
    ensures
        sorted_members(attrs) == l,
{
    let d = sorted_members(attrs);
    assert(text::ascending(d) && forall|x: Seq<char>| #[trigger]
        d.contains(x) <==> attrs.contains(x));
    assert forall|x: Seq<char>| d.contains(x) <==> l.contains(x) by {
        assert(l.contains(x) <==> attrs.contains(x));
    }
    text::lemma_ascending_unique(d, l);
}

/// The first line of a list file.
pub open spec fn header() -> Seq<char> {
    "# waverunner declarative packages — one nixpkgs attr per line."@
}

/// One line for each of `attrs`.
pub open spec fn attr_lines(attrs: Seq<Seq<char>>) -> Seq<char>
    decreases attrs.len(),
{
    if attrs.len() == 0 {
        Seq::empty()
    } else {
        attr_lines(attrs.drop_last()) + attrs.last().push('\n')
    }
}

/// The text of a list file that declares `attrs`.
pub open spec fn rendered(attrs: Seq<Seq<char>>) -> Seq<char> {
    header().push('\n') + attr_lines(sorted_members(attrs))
}

/// The text of a list file for `attrs`: a header, then one line for each,
/// sorted and each once.
pub fn render_list(attrs: &[String]) -> (r: String)
    ensures
        r@ == rendered(text::texts(attrs@)),
{
    let sorted = text::sorted_set(attrs);
    let ghost l = text::texts(sorted@);
    proof {
        assert(forall|x: Seq<char>| #[trigger]
            l.contains(x) <==> text::texts(attrs@).contains(x));
        lemma_sorted_members(text::texts(attrs@), l);
    }
    let mut out = text::copy_text(
        "# waverunner declarative packages — one nixpkgs attr per line.",
    );
    out.push('\n');
    assert(l.take(0) == Seq::<Seq<char>>::empty());
    assert(out@ == header().push('\n') + attr_lines(l.take(0)));
    for i in 0..sorted.len()
        invariant
            l == text::texts(sorted@),
            out@ == header().push('\n') + attr_lines(l.take(i as int)),
    {
        out.append(sorted[i].as_str());
        out.push('\n');
        assert(l.take(i + 1).drop_last() == l.take(i as int));
        assert(l.take(i + 1).last() == sorted@[i as int]@);
    }
    assert(l.take(l.len() as int) == l);
    out
}

proof fn lemma_valid_attr_line(a: Seq<char>)
    requires
        valid_attr(a),
    ensures
        !a.contains('\n'),
        text::without_cr(a) == a,
        declared_on(a) == a,
{
    if a.contains('\n') {
        let i = choose|i: int| 0 <= i < a.len() && a[i] == '\n';
        assert(attr_char(a[i]));
    }
    assert(attr_char(a[a.len() - 1]));
    assert forall|i: int| 0 <= i < a.len() implies a[i] != '#' by {
        assert(attr_char(a[i]));
    }
    text::lemma_span_to_at(a, '#', a.len() as int);
    assert(a.take(a.len() as int) == a);
    text::lemma_trim_of_trimmed(a);
}

proof fn lemma_attr_lines_front(l: Seq<Seq<char>>)
    requires
        l.len() > 0,
    ensures
        attr_lines(l) == l[0].push('\n') + attr_lines(l.drop_first()),
    decreases l.len(),
{
    if l.len() == 1 {
        assert(l.drop_last() == Seq::<Seq<char>>::empty());
        assert(l.drop_first() == Seq::<Seq<char>>::empty());
        assert(attr_lines(l.drop_last()) == Seq::<char>::empty());
        assert(attr_lines(l) == l[0].push('\n'));
        assert(l[0].push('\n') + attr_lines(l.drop_first()) == l[0].push('\n'));
    } else {
        lemma_attr_lines_front(l.drop_last());
        assert(l.drop_last().drop_first() == l.drop_first().drop_last());
        assert(l.drop_first().last() == l.last());
        assert(attr_lines(l) == l[0].push('\n') + attr_lines(l.drop_first()));
    }
}

proof fn lemma_attr_lines_split(l: Seq<Seq<char>>)
    requires
        forall|i: int| 0 <= i < l.len() ==> valid_attr(#[trigger] l[i]),
    ensures
        text::lines(attr_lines(l)) == l,
    decreases l.len(),
{
    if l.len() > 0 {
        lemma_attr_lines_front(l);
        lemma_valid_attr_line(l[0]);
        text::lemma_lines_front(l[0], attr_lines(l.drop_first()));
        lemma_attr_lines_split(l.drop_first());
        assert(seq![l[0]] + l.drop_first() == l);
    } else {
        assert(text::lines(attr_lines(l)) == l);
    }
}

/// What is written is what is read: the attributes of a rendered list are the
/// rendered ones, sorted and each once.
pub proof fn law_render_round_trips_through_parse(attrs: Seq<Seq<char>>)
    requires
        forall|i: int| 0 <= i < attrs.len() ==> valid_attr(#[trigger] attrs[i]),
    ensures
        declared(rendered(attrs)) == sorted_members(attrs),
        text::ascending(sorted_members(attrs)),
        forall|x: Seq<char>| #[trigger] sorted_members(attrs).contains(x) <==> attrs.contains(x),
{
    let sorted = lemma_sorted_exists(attrs);
    lemma_sorted_members(attrs, sorted);
    let h = header();
    let all = rendered(attrs);
    reveal_strlit("# waverunner declarative packages — one nixpkgs attr per line.");
    assert(h[0] == '#');
    assert(!h.contains('\n'));
    text::lemma_lines_front(h, attr_lines(sorted));
    assert forall|i: int| 0 <= i < sorted.len() implies valid_attr(#[trigger] sorted[i]) by {
        assert(sorted.contains(sorted[i]));
        let k = choose|k: int| 0 <= k < attrs.len() && attrs[k] == sorted[i];
        assert(valid_attr(attrs[k]));
    }
    lemma_attr_lines_split(sorted);
    let ls = text::lines(all);
    assert(ls == seq![text::without_cr(h)] + sorted);
    assert(text::without_cr(h)[0] == '#');
    text::lemma_span_to_at(ls[0], '#', 0);
    assert(declared_on(ls[0]).len() == 0) by {
        assert(ls[0].take(0) == Seq::<char>::empty());
    }
    assert forall|x: Seq<char>| #[trigger] sorted.contains(x) <==> declares(all, x) by {
        if sorted.contains(x) {
            let i = choose|i: int| 0 <= i < sorted.len() && sorted[i] == x;
            assert(valid_attr(sorted[i]));
            lemma_valid_attr_line(x);
            assert(ls[i + 1] == x);
        }
        if declares(all, x) {
            let i = choose|i: int|
                0 <= i < text::lines(all).len() && declared_on(#[trigger] text::lines(all)[i])
                    == x;
            assert(i > 0);
            assert(ls[i] == sorted[i - 1]);
            lemma_valid_attr_line(sorted[i - 1]);
        }
    }
    lemma_declared(all, sorted);
}

/// Whether every line of a list text is a comment or a valid attribute.
pub open spec fn only_attrs(list: Seq<char>) -> bool {
    forall|i: int|
        0 <= i < text::lines(list).len() ==> comment_or_attr(#[trigger] text::lines(list)[i])
}

/// Whether a line is a comment or a valid attribute.
pub open spec fn comment_or_attr(line: Seq<char>) -> bool {
    valid_attr(line) || (line.len() > 0 && line[0] == '#')
}

/// Whether all of `attrs` are valid.
pub open spec fn all_valid(attrs: Seq<Seq<char>>) -> bool {
    forall|x: Seq<char>| #[trigger] attrs.contains(x) ==> valid_attr(x)
}

/// A list that is written for valid attributes holds nothing but its header and
/// valid attributes.
pub proof fn law_written_lists_hold_attributes_only(attrs: Seq<Seq<char>>)
    requires
        all_valid(attrs),
    ensures
        only_attrs(rendered(attrs)),
{
    let sorted = lemma_sorted_exists(attrs);
    lemma_sorted_members(attrs, sorted);
    let h = header();
    reveal_strlit("# waverunner declarative packages — one nixpkgs attr per line.");
    assert(h[0] == '#');
    assert(!h.contains('\n'));
    text::lemma_lines_front(h, attr_lines(sorted));
    assert forall|i: int| 0 <= i < sorted.len() implies valid_attr(#[trigger] sorted[i]) by {
        assert(sorted.contains(sorted[i]));
    }
    lemma_attr_lines_split(sorted);
    let ls = text::lines(rendered(attrs));
    assert(ls == seq![text::without_cr(h)] + sorted);
    assert(text::without_cr(h)[0] == '#');
    assert forall|i: int| 0 <= i < ls.len() implies comment_or_attr(#[trigger] ls[i]) by {
        if i > 0 {
            assert(ls[i] == sorted[i - 1]);
        }
    }
}

proof fn lemma_declared_valid(list: Seq<char>)
    ensures
        all_valid(declared(list)),
{
    assert forall|x: Seq<char>| #[trigger] declared(list).contains(x) implies valid_attr(x) by {
        lemma_declares_members(list, x);
    }
}

proof fn lemma_push_valid(attrs: Seq<Seq<char>>, attr: Seq<char>)
    requires
        all_valid(attrs),
        valid_attr(attr),
    ensures
        all_valid(attrs.push(attr)),
{
    let pushed = attrs.push(attr);
    assert forall|x: Seq<char>| #[trigger] pushed.contains(x) implies valid_attr(x) by {
        let k = choose|k: int| 0 <= k < pushed.len() && pushed[k] == x;
        if k < attrs.len() {
            assert(attrs[k] == x);
            assert(attrs.contains(x));
        }
    }
}

// ---------------------------------------------------------------------------
// Installing and removing
// ---------------------------------------------------------------------------

/// Whether a successful run covers the last write of the list: it started at
/// or after it.
pub open spec fn covered(list: ListFile, status: Option<ApplyStatus>) -> bool {
    status matches Some(st) && st.phase@ == "done"@ && st.ok == Some(true) && st.started
        >= list.written
}

/// Whether what the list declares is what the system has.
pub fn applied_since_list_write(list: &ListFile, status: &Option<ApplyStatus>) -> (r: bool)
    ensures
        r == covered(*list, *status),
{
    match status {
        Some(st) => {
            let ok: bool = match st.ok {
                Some(b) => b,
                None => false,
            };
            text::same(st.phase.as_str(), "done") && ok && st.started >= list.written
        },
        None => false,
    }
}

/// The declared packages, in sorted order.
pub fn list_attrs(list: &ListFile) -> (r: Vec<String>)
    ensures
        text::texts(r@) == declared(list.text@),
        text::ascending(text::texts(r@)),
        forall|x: Seq<char>| #[trigger]
            text::texts(r@).contains(x) <==> declares(list.text@, x),
{
    parse_list(list.text.as_str())
}

/// Whether `attr` is installed: declared, and covered by a successful run.
pub fn is_installed(attr: &str, list: &ListFile, status: &Option<ApplyStatus>) -> (r: bool)
    ensures
        r == (declares(list.text@, attr@) && covered(*list, *status)),
{
    let attrs = list_attrs(list);
    text::any_same(&attrs, attr) && applied_since_list_write(list, status)
}

/// Whether there is anything to reconcile at startup: packages are declared
/// and no successful run covers them. A missing or empty list needs nothing.
pub fn needs_apply(list: &ListFile, status: &Option<ApplyStatus>) -> (r: bool)
    ensures
        r == (list.exists && declared(list.text@).len() > 0 && !covered(*list, *status)),
{
    let attrs = list_attrs(list);
    list.exists && attrs.len() > 0 && !applied_since_list_write(list, status)
}

/// The valid ones among `attrs`, in order.
pub open spec fn valid_ones(attrs: Seq<Seq<char>>) -> Seq<Seq<char>>
    decreases attrs.len(),
{
    if attrs.len() == 0 {
        Seq::empty()
    } else if valid_attr(attrs.last()) {
        valid_ones(attrs.drop_last()).push(attrs.last())
    } else {
        valid_ones(attrs.drop_last())
    }
}

/// The text to write into a list file that is still missing, or `None` where
/// nothing is to be written: a list that is there is left alone, and an empty
/// one would only trigger a run for nothing.
pub fn seed_if_missing(list: &ListFile, attrs: &[String]) -> (r: Option<String>)
    ensures
        match r {
            Some(t) => !list.exists && valid_ones(text::texts(attrs@)).len() > 0 && t@ == rendered(
                valid_ones(text::texts(attrs@)),
            ) && only_attrs(t@),
            None => list.exists || valid_ones(text::texts(attrs@)).len() == 0,
        },
{
    if list.exists {
        return None;
    }
    let ghost all = text::texts(attrs@);
    let mut valid: Vec<String> = Vec::new();
    assert(all.take(0) == Seq::<Seq<char>>::empty());
    for i in 0..attrs.len()
        invariant
            all == text::texts(attrs@),
            text::texts(valid@) == valid_ones(all.take(i as int)),
    {
        let ghost was = text::texts(valid@);
        assert(all.take(i + 1).drop_last() == all.take(i as int));
        assert(all.take(i + 1).last() == attrs@[i as int]@);
        if is_valid_attr(attrs[i].as_str()) {
            valid.push(text::copy_text(attrs[i].as_str()));
            assert(text::texts(valid@) == was.push(attrs@[i as int]@));
        }
    }
    assert(all.take(all.len() as int) == all);
    assert(text::texts(valid@).len() == valid@.len());
    if valid.len() == 0 {
        return None;
    }
    proof {
        lemma_valid_ones(all);
        law_written_lists_hold_attributes_only(valid_ones(all));
    }
    Some(render_list(&valid))
}

proof fn lemma_valid_ones(attrs: Seq<Seq<char>>)
    ensures
        all_valid(valid_ones(attrs)),
    decreases attrs.len(),
{
    if attrs.len() > 0 {
        lemma_valid_ones(attrs.drop_last());
        if valid_attr(attrs.last()) {
            lemma_push_valid(valid_ones(attrs.drop_last()), attrs.last());
        }
    }
}

/// How a request on the list is to be carried out.
#[derive(Debug)]
pub enum ApplyPlan {
    /// It is already so: report success without a run.
    Settled,
    /// The list already says so: wait for a run that covers it.
    Join,
    /// Write this text into the list, then wait.
    Edit(String),
    /// No attribute the helper would take: report failure and write nothing.
    Refused,
}

/// `l` without `attr`.
pub open spec fn without(l: Seq<Seq<char>>, attr: Seq<char>) -> Seq<Seq<char>>
    decreases l.len(),
{
    if l.len() == 0 {
        Seq::empty()
    } else if l.last() == attr {
        without(l.drop_last(), attr)
    } else {
        without(l.drop_last(), attr).push(l.last())
    }
}

/// The members of `without` are all the others.
pub proof fn lemma_without(l: Seq<Seq<char>>, attr: Seq<char>)
    ensures
        forall|x: Seq<char>| #[trigger]
            without(l, attr).contains(x) <==> l.contains(x) && x != attr,
    decreases l.len(),
{
    if l.len() > 0 {
        let d = l.drop_last();
        lemma_without(d, attr);
        let w = without(l, attr);
        assert forall|x: Seq<char>| #[trigger] w.contains(x) <==> l.contains(x) && x != attr by {
            assert(without(d, attr).contains(x) <==> d.contains(x) && x != attr);
            if d.contains(x) {
                let k = choose|k: int| 0 <= k < d.len() && d[k] == x;
                assert(l[k] == x);
            }
            if l.contains(x) && x != l.last() {
                let k = choose|k: int| 0 <= k < l.len() && l[k] == x;
                assert(d[k] == x);
            }
            if l.last() != attr {
                if without(d, attr).contains(x) {
                    let k = choose|k: int|
                        0 <= k < without(d, attr).len() && without(d, attr)[k] == x;
                    assert(w[k] == x);
                }
                assert(w[w.len() - 1] == l.last());
                if w.contains(x) && x != l.last() {
                    let k = choose|k: int| 0 <= k < w.len() && w[k] == x;
                    assert(without(d, attr)[k] == x);
                }
                if x == l.last() {
                    assert(l[l.len() - 1] == x);
                }
            }
        }
    }
}

fn drop_attr(l: &[String], attr: &str) -> (r: Vec<String>)
    ensures
        text::texts(r@) == without(text::texts(l@), attr@),
{
    let ghost all = text::texts(l@);
    let mut r: Vec<String> = Vec::new();
    assert(all.take(0) == Seq::<Seq<char>>::empty());
    for i in 0..l.len()
        invariant
            all == text::texts(l@),
            text::texts(r@) == without(all.take(i as int), attr@),
    {
        let ghost was = text::texts(r@);
        assert(all.take(i + 1).drop_last() == all.take(i as int));
        assert(all.take(i + 1).last() == l@[i as int]@);
        if !text::same(l[i].as_str(), attr) {
            r.push(text::copy_text(l[i].as_str()));
            assert(text::texts(r@) == was.push(l@[i as int]@));
        }
    }
    assert(all.take(all.len() as int) == all);
    r
}

/// How to install `attr`: nothing to do where it is declared and covered, a
/// plain wait where it is declared only, else a list with it. What is no valid
/// attribute is refused.
pub fn apply_install(attr: &str, list: &ListFile, status: &Option<ApplyStatus>) -> (r: ApplyPlan)
    ensures
        match r {
            ApplyPlan::Settled => declares(list.text@, attr@) && covered(*list, *status),
            ApplyPlan::Join => declares(list.text@, attr@) && !covered(*list, *status),
            ApplyPlan::Edit(t) => valid_attr(attr@) && !declares(list.text@, attr@) && t@
                == rendered(declared(list.text@).push(attr@)) && only_attrs(t@),
            ApplyPlan::Refused => !valid_attr(attr@),
        },
{
    if !is_valid_attr(attr) {
        return ApplyPlan::Refused;
    }
    let mut attrs = list_attrs(list);
    if text::any_same(&attrs, attr) {
        if applied_since_list_write(list, status) {
            return ApplyPlan::Settled;
        }
        return ApplyPlan::Join;
    }
    let ghost was = text::texts(attrs@);
    attrs.push(text::copy_text(attr));
    assert(text::texts(attrs@) == was.push(attr@));
    proof {
        lemma_declared_valid(list.text@);
        lemma_push_valid(was, attr@);
        law_written_lists_hold_attributes_only(was.push(attr@));
    }
    ApplyPlan::Edit(render_list(&attrs))
}

proof fn lemma_without_valid(list: Seq<char>, attr: Seq<char>)
    ensures
        only_attrs(rendered(without(declared(list), attr))),
{
    lemma_declared_valid(list);
    lemma_without(declared(list), attr);
    law_written_lists_hold_attributes_only(without(declared(list), attr));
}

/// The list text after an install that failed: `attr` is taken out again.
pub fn revert_install(attr: &str, list: &ListFile) -> (r: String)
    ensures
        r@ == rendered(without(declared(list.text@), attr@)),
        only_attrs(r@),
{
    let attrs = list_attrs(list);
    proof {
        lemma_without_valid(list.text@, attr@);
    }
    render_list(&drop_attr(&attrs, attr))
}

/// How to remove `attr`: nothing to do where it is gone and covered, a plain
/// wait where it is gone only, else a list without it.
pub fn apply_uninstall(attr: &str, list: &ListFile, status: &Option<ApplyStatus>) -> (r:
    ApplyPlan)
    ensures
        match r {
            ApplyPlan::Settled => !declares(list.text@, attr@) && covered(*list, *status),
            ApplyPlan::Join => !declares(list.text@, attr@) && !covered(*list, *status),
            ApplyPlan::Edit(t) => declares(list.text@, attr@) && t@ == rendered(
                without(declared(list.text@), attr@),
            ) && only_attrs(t@),
            ApplyPlan::Refused => false,
        },
{
    let attrs = list_attrs(list);
    if !text::any_same(&attrs, attr) {
        if applied_since_list_write(list, status) {
            return ApplyPlan::Settled;
        }
        return ApplyPlan::Join;
    }
    proof {
        lemma_without_valid(list.text@, attr@);
    }
    ApplyPlan::Edit(render_list(&drop_attr(&attrs, attr)))
}

/// The list text after a removal that failed: `attr` is put back where it is
/// missing. What is no valid attribute was never there.
pub fn revert_uninstall(attr: &str, list: &ListFile) -> (r: String)
    ensures
        r@ == rendered(
            if declares(list.text@, attr@) || !valid_attr(attr@) {
                declared(list.text@)
            } else {
                declared(list.text@).push(attr@)
            },
        ),
        only_attrs(r@),
{
    let mut attrs = list_attrs(list);
    let ghost was = text::texts(attrs@);
    proof {
        lemma_declared_valid(list.text@);
    }
    if is_valid_attr(attr) && !text::any_same(&attrs, attr) {
        attrs.push(text::copy_text(attr));
        assert(text::texts(attrs@) == was.push(attr@));
        proof {
            lemma_push_valid(was, attr@);
        }
    }
    proof {
        law_written_lists_hold_attributes_only(text::texts(attrs@));
    }
    render_list(&attrs)
}

/// How to make the system match the list. `force` writes the list again even
/// where the status claims that it is applied. A missing list is never made.
pub fn ensure_applied(force: bool, list: &ListFile, status: &Option<ApplyStatus>) -> (r: ApplyPlan)
    ensures
        match r {
            ApplyPlan::Settled => !force && covered(*list, *status) || !list.exists,
            ApplyPlan::Join => !force && !covered(*list, *status) && list.exists,
            ApplyPlan::Edit(t) => force && list.exists && t@ == rendered(declared(list.text@))
                && only_attrs(t@),
            ApplyPlan::Refused => false,
        },
{
    proof {
        lemma_declared_valid(list.text@);
        law_written_lists_hold_attributes_only(declared(list.text@));
    }
    if !force && applied_since_list_write(list, status) {
        return ApplyPlan::Settled;
    }
    if !list.exists {
        return ApplyPlan::Settled;
    }
    if force {
        return ApplyPlan::Edit(render_list(&list_attrs(list)));
    }
    ApplyPlan::Join
}

/// The text that trips the watch again: the list as it is declared.
pub fn nudge_text(list: &ListFile) -> (r: String)
    ensures
        r@ == rendered(declared(list.text@)),
        only_attrs(r@),
{
    proof {
        lemma_declared_valid(list.text@);
        law_written_lists_hold_attributes_only(declared(list.text@));
    }
    render_list(&list_attrs(list))
}

/// Whether the helper's unit state, as `systemctl show` prints it, means that
/// it is running. `None`, where the question itself failed, counts as running.
pub open spec fn state_means_running(output: Option<Seq<char>>) -> bool {
    match output {
        Some(o) => {
            let t = text::trimmed(o);
            t == "active"@ || t == "activating"@ || t == "reloading"@ || t == "deactivating"@
        },
        None => true,
    }
}

/// Whether the helper is running, from the bytes that `systemctl show` printed.
pub fn helper_active(output: Option<&[u8]>) -> (r: bool)
    ensures
        r == state_means_running(
            match output {
                Some(b) => Some(text::lossy(b@)),
                None => None,
            },
        ),
{
    match output {
        Some(b) => helper_state(text::decode_lossy(b).as_str()),
        None => true,
    }
}

/// Whether a unit state means that the helper is running. A one-shot service
/// is `activating` for the whole of its run.
pub fn helper_state(output: &str) -> (r: bool)
    ensures
        r == state_means_running(Some(output@)),
{
    let t = text::trim(output);
    text::same(t.as_str(), "active") || text::same(t.as_str(), "activating") || text::same(
        t.as_str(),
        "reloading",
    ) || text::same(t.as_str(), "deactivating")
}

// ---------------------------------------------------------------------------
// Batches
// ---------------------------------------------------------------------------

/// One operation of a batch: an install or a removal.
#[derive(Debug)]
pub struct BatchOp {
    pub attr: String,
    pub install: bool,
}

/// What was decided for one operation.
#[derive(Debug, Clone, Copy, PartialEq, Eq, Structural)]
pub enum BatchAction {
    /// Its outcome is known without a run: it is already so, and covered, or
    /// it is refused.
    Fast(bool),
    /// It rides the batch's one run.
    Ride,
}

/// Whether an operation is refused: it would install what is no valid
/// attribute.
pub open spec fn refused(op: BatchOp) -> bool {
    op.install && !valid_attr(op.attr@)
}

/// The list after one operation.
pub open spec fn after_op(l: Seq<Seq<char>>, op: BatchOp) -> Seq<Seq<char>> {
    if refused(op) {
        l
    } else if op.install && !l.contains(op.attr@) {
        l.push(op.attr@)
    } else if !op.install && l.contains(op.attr@) {
        without(l, op.attr@)
    } else {
        l
    }
}

/// The list after a batch, folded in order.
pub open spec fn after_ops(l: Seq<Seq<char>>, ops: Seq<BatchOp>) -> Seq<Seq<char>>
    decreases ops.len(),
{
    if ops.len() == 0 {
        l
    } else {
        after_op(after_ops(l, ops.drop_last()), ops.last())
    }
}

/// What is decided for an operation on the list `l`.
pub open spec fn action_on(l: Seq<Seq<char>>, op: BatchOp, applied: bool) -> BatchAction {
    if refused(op) {
        BatchAction::Fast(false)
    } else if applied && op.install == l.contains(op.attr@) {
        BatchAction::Fast(true)
    } else {
        BatchAction::Ride
    }
}

/// Fold every operation's edit into one new list, and decide for each whether
/// it needs the run. `applied` says whether the current list is covered.
pub fn plan_batch(current: &[String], ops: &[BatchOp], applied: bool) -> (r: (
    Vec<String>,
    Vec<BatchAction>,
))
    ensures
        text::texts(r.0@) == after_ops(text::texts(current@), ops@),
        r.1@ == Seq::new(
            ops@.len(),
            |i: int|
                action_on(after_ops(text::texts(current@), ops@.take(i)), ops@[i], applied),
        ),
{
    let mut list = text::copy_texts(current);
    let mut actions: Vec<BatchAction> = Vec::new();
    let ghost start = text::texts(current@);
    for i in 0..ops.len()
        invariant
            start == text::texts(current@),
            text::texts(list@) == after_ops(start, ops@.take(i as int)),
            actions@ == Seq::new(
                i as nat,
                |k: int| action_on(after_ops(start, ops@.take(k)), ops@[k], applied),
            ),
    {
        let ghost l = text::texts(list@);
        assert(ops@.take(i + 1).drop_last() == ops@.take(i as int));
        assert(ops@.take(i + 1).last() == ops@[i as int]);
        let op = &ops[i];
        let present: bool = text::any_same(&list, op.attr.as_str());
        if op.install && !is_valid_attr(op.attr.as_str()) {
            actions.push(BatchAction::Fast(false));
        } else if op.install == present {
            if applied {
                actions.push(BatchAction::Fast(true));
            } else {
                actions.push(BatchAction::Ride);
            }
        } else if op.install {
            list.push(text::copy_text(op.attr.as_str()));
            assert(text::texts(list@) == l.push(op.attr@));
            actions.push(BatchAction::Ride);
        } else {
            list = drop_attr(&list, op.attr.as_str());
            actions.push(BatchAction::Ride);
        }
        assert(text::texts(list@) == after_op(l, ops@[i as int]));
    }
    assert(ops@.take(ops@.len() as int) == ops@);
    (list, actions)
}

/// How a batch is to be carried out.
#[derive(Debug)]
pub enum BatchPlan {
    /// Every operation is settled without a run; the outcomes, in order.
    Settled(Vec<bool>),
    /// Write the text where there is one, wait for one run, then hand the
    /// actions to [`batch_outcomes`].
    Run(Option<String>, Vec<BatchAction>),
}

/// The actions planned for a batch on a list file.
pub open spec fn planned(list: ListFile, status: Option<ApplyStatus>, ops: Seq<BatchOp>) -> Seq<
    BatchAction,
> {
    Seq::new(
        ops.len(),
        |i: int|
            action_on(
                after_ops(declared(list.text@), ops.take(i)),
                ops[i],
                covered(list, status),
            ),
    )
}

/// The outcome of an action, where `ok` is that of the run.
pub open spec fn outcome_of(action: BatchAction, ok: bool) -> bool {
    match action {
        BatchAction::Fast(v) => v,
        BatchAction::Ride => ok,
    }
}

/// Whether no planned action needs a run.
pub open spec fn all_fast(actions: Seq<BatchAction>) -> bool {
    forall|i: int| 0 <= i < actions.len() ==> (#[trigger] actions[i]) is Fast
}

fn same_list(a: &[String], b: &[String]) -> (r: bool)
    ensures
        r == (text::texts(a@) == text::texts(b@)),
{
    let ghost x = text::texts(a@);
    let ghost y = text::texts(b@);
    if a.len() != b.len() {
        assert(x.len() != y.len());
        return false;
    }
    for i in 0..a.len()
        invariant
            x == text::texts(a@),
            y == text::texts(b@),
            a@.len() == b@.len(),
            forall|k: int| 0 <= k < i ==> x[k] == y[k],
    {
        if !text::same(a[i].as_str(), b[i].as_str()) {
            assert(x[i as int] != y[i as int]);
            return false;
        }
    }
    assert(x == y);
    true
}

/// Plan a batch with one list write and one run for all of it. The list is
/// written only where the batch changes it.
pub fn apply_batch(ops: &[BatchOp], list: &ListFile, status: &Option<ApplyStatus>) -> (r: BatchPlan)
    ensures
        match r {
            BatchPlan::Settled(outcomes) => all_fast(planned(*list, *status, ops@)) && outcomes@
                == Seq::new(
                ops@.len(),
                |i: int| outcome_of(planned(*list, *status, ops@)[i], false),
            ),
            BatchPlan::Run(edit, actions) => {
                &&& !all_fast(planned(*list, *status, ops@))
                &&& actions@ == planned(*list, *status, ops@)
                &&& match edit {
                    Some(t) => after_ops(declared(list.text@), ops@) != declared(list.text@) && t@
                        == rendered(after_ops(declared(list.text@), ops@)) && only_attrs(t@),
                    None => after_ops(declared(list.text@), ops@) == declared(list.text@),
                }
            },
        },
{
    let current = list_attrs(list);
    let (new_list, actions) = plan_batch(&current, ops, applied_since_list_write(list, status));
    let ghost p = planned(*list, *status, ops@);
    assert(actions@ == p);
    let mut outcomes: Vec<bool> = Vec::new();
    let mut ride = false;
    for i in 0..actions.len()
        invariant
            actions@ == p,
            p == planned(*list, *status, ops@),
            outcomes@.len() == i,
            forall|k: int| 0 <= k < i ==> outcomes@[k] == outcome_of(#[trigger] p[k], false),
            !ride ==> forall|k: int| 0 <= k < i ==> (#[trigger] p[k]) is Fast,
            ride ==> !all_fast(p),
    {
        match actions[i] {
            BatchAction::Fast(v) => {
                assert(p[i as int] is Fast);
                outcomes.push(v);
            },
            BatchAction::Ride => {
                assert(p[i as int] is Ride);
                ride = true;
                outcomes.push(false);
            },
        }
    }
    if !ride {
        assert(outcomes@ == Seq::new(ops@.len(), |i: int| outcome_of(p[i], false)));
        return BatchPlan::Settled(outcomes);
    }
    if same_list(&new_list, &current) {
        BatchPlan::Run(None, actions)
    } else {
        proof {
            lemma_declared_valid(list.text@);
            lemma_after_ops_valid(declared(list.text@), ops@);
            law_written_lists_hold_attributes_only(after_ops(declared(list.text@), ops@));
        }
        BatchPlan::Run(Some(render_list(&new_list)), actions)
    }
}

proof fn lemma_after_ops_valid(l: Seq<Seq<char>>, ops: Seq<BatchOp>)
    requires
        all_valid(l),
    ensures
        all_valid(after_ops(l, ops)),
    decreases ops.len(),
{
    if ops.len() > 0 {
        let before = after_ops(l, ops.drop_last());
        let op = ops.last();
        lemma_after_ops_valid(l, ops.drop_last());
        lemma_without(before, op.attr@);
        if op.install && valid_attr(op.attr@) {
            lemma_push_valid(before, op.attr@);
        }
    }
}

/// Each operation's outcome, where `ok` is that of the run.
pub fn batch_outcomes(actions: &[BatchAction], ok: bool) -> (r: Vec<bool>)
    ensures
        r@ == Seq::new(actions@.len(), |i: int| outcome_of(actions@[i], ok)),
{
    let mut r: Vec<bool> = Vec::new();
    for i in 0..actions.len()
        invariant
            r@ == Seq::new(i as nat, |k: int| outcome_of(actions@[k], ok)),
    {
        match actions[i] {
            BatchAction::Fast(v) => r.push(v),
            BatchAction::Ride => r.push(ok),
        }
    }
    r
}

/// One step of taking a batch back: the attribute is declared again exactly
/// where it was before.
pub open spec fn reverted_op(
    before: Seq<Seq<char>>,
    now: Seq<Seq<char>>,
    attr: Seq<char>,
) -> Seq<Seq<char>> {
    if before.contains(attr) && !now.contains(attr) {
        now.push(attr)
    } else if !before.contains(attr) && now.contains(attr) {
        without(now, attr)
    } else {
        now
    }
}

/// The list with a batch taken back.
pub open spec fn reverted(
    before: Seq<Seq<char>>,
    now: Seq<Seq<char>>,
    ops: Seq<BatchOp>,
) -> Seq<Seq<char>>
    decreases ops.len(),
{
    if ops.len() == 0 {
        now
    } else {
        reverted_op(before, reverted(before, now, ops.drop_last()), ops.last().attr@)
    }
}

/// The list text after a failed batch: its own attributes are as they were in
/// `before`, and what others did to the list meanwhile stays.
pub fn revert_batch(ops: &[BatchOp], before: &ListFile, now: &ListFile) -> (r: String)
    ensures
        r@ == rendered(reverted(declared(before.text@), declared(now.text@), ops@)),
        only_attrs(r@),
{
    let current = list_attrs(before);
    let mut list = list_attrs(now);
    let ghost b = declared(before.text@);
    let ghost n = declared(now.text@);
    for i in 0..ops.len()
        invariant
            text::texts(current@) == b,
            text::texts(list@) == reverted(b, n, ops@.take(i as int)),
    {
        let ghost l = text::texts(list@);
        assert(ops@.take(i + 1).drop_last() == ops@.take(i as int));
        assert(ops@.take(i + 1).last() == ops@[i as int]);
        let attr = ops[i].attr.as_str();
        let was: bool = text::any_same(&current, attr);
        let stays: bool = text::any_same(&list, attr);
        if was && !stays {
            list.push(text::copy_text(attr));
            assert(text::texts(list@) == l.push(attr@));
        } else if !was && stays {
            list = drop_attr(&list, attr);
        }
    }
    assert(ops@.take(ops@.len() as int) == ops@);
    proof {
        lemma_declared_valid(before.text@);
        lemma_declared_valid(now.text@);
        lemma_reverted_valid(b, n, ops@);
        law_written_lists_hold_attributes_only(reverted(b, n, ops@));
    }
    render_list(&list)
}

proof fn lemma_reverted_valid(before: Seq<Seq<char>>, now: Seq<Seq<char>>, ops: Seq<BatchOp>)
    requires
        all_valid(before),
        all_valid(now),
    ensures
        all_valid(reverted(before, now, ops)),
    decreases ops.len(),
{
    if ops.len() > 0 {
        let mid = reverted(before, now, ops.drop_last());
        let attr = ops.last().attr@;
        lemma_reverted_valid(before, now, ops.drop_last());
        lemma_without(mid, attr);
        if before.contains(attr) {
            lemma_push_valid(mid, attr);
        }
    }
}

/// The last operation on an attribute decides whether the list has it; an
/// attribute that no operation names stays as it was. What is no valid attribute
/// does not come into the list.
pub proof fn law_last_op_wins_the_list(l: Seq<Seq<char>>, ops: Seq<BatchOp>, attr: Seq<char>)
    requires
        l.contains(attr) ==> valid_attr(attr),
    ensures
        after_ops(l, ops).contains(attr) ==> valid_attr(attr),
        forall|i: int|
            0 <= i < ops.len() && (#[trigger] ops[i]).attr@ == attr && (forall|j: int|
                i < j < ops.len() ==> (#[trigger] ops[j]).attr@ != attr) ==> after_ops(
                l,
                ops,
            ).contains(attr) == (ops[i].install && valid_attr(attr)),
        (forall|i: int| 0 <= i < ops.len() ==> (#[trigger] ops[i]).attr@ != attr) ==> after_ops(
            l,
            ops,
        ).contains(attr) == l.contains(attr),
    decreases ops.len(),
{
    if ops.len() > 0 {
        let d = ops.drop_last();
        let before = after_ops(l, d);
        law_last_op_wins_the_list(l, d, attr);
        lemma_without(before, ops.last().attr@);
        let pushed = before.push(ops.last().attr@);
        assert(pushed[before.len() as int] == ops.last().attr@);
        assert(pushed.contains(attr) <==> before.contains(attr) || attr == ops.last().attr@) by {
            if before.contains(attr) {
                let k = choose|k: int| 0 <= k < before.len() && before[k] == attr;
                assert(pushed[k] == attr);
            }
            if pushed.contains(attr) && attr != ops.last().attr@ {
                let k = choose|k: int| 0 <= k < pushed.len() && pushed[k] == attr;
                assert(before[k] == attr);
            }
        }
        assert forall|i: int|
            0 <= i < ops.len() && (#[trigger] ops[i]).attr@ == attr && (forall|j: int|
                i < j < ops.len() ==> (#[trigger] ops[j]).attr@ != attr) implies after_ops(
            l,
            ops,
        ).contains(attr) == (ops[i].install && valid_attr(attr)) by {
            if i < d.len() {
                assert(d[i] == ops[i]);
                assert(ops[ops.len() - 1].attr@ != attr);
                assert forall|j: int| i < j < d.len() implies (#[trigger] d[j]).attr@ != attr by {
                    assert(d[j] == ops[j]);
                }
            }
        }
        if forall|i: int| 0 <= i < ops.len() ==> (#[trigger] ops[i]).attr@ != attr {
            assert(ops[ops.len() - 1].attr@ != attr);
            assert forall|i: int| 0 <= i < d.len() implies (#[trigger] d[i]).attr@ != attr by {
                assert(d[i] == ops[i]);
            }
        }
    }
}

/// Without a run that covers the list no operation is settled at once, but for
/// one that is refused: what is declared but not applied joins the run too.
pub proof fn law_uncovered_list_settles_nothing(
    list: ListFile,
    status: Option<ApplyStatus>,
    ops: Seq<BatchOp>,
)
    requires
        !covered(list, status),
    ensures
        forall|i: int|
            0 <= i < ops.len() ==> #[trigger] planned(list, status, ops)[i] == (if refused(ops[i]) {
                BatchAction::Fast(false)
            } else {
                BatchAction::Ride
            }),
{
}

/// Taking a batch back restores its own attributes and touches no other.
pub proof fn law_revert_restores_the_batch(
    before: Seq<Seq<char>>,
    now: Seq<Seq<char>>,
    ops: Seq<BatchOp>,
    attr: Seq<char>,
)
    ensures
        (exists|i: int| 0 <= i < ops.len() && (#[trigger] ops[i]).attr@ == attr) ==> reverted(
            before,
            now,
            ops,
        ).contains(attr) == before.contains(attr),
        (forall|i: int| 0 <= i < ops.len() ==> (#[trigger] ops[i]).attr@ != attr) ==> reverted(
            before,
            now,
            ops,
        ).contains(attr) == now.contains(attr),
    decreases ops.len(),
{
    if ops.len() > 0 {
        let d = ops.drop_last();
        let mid = reverted(before, now, d);
        let last = ops.last().attr@;
        law_revert_restores_the_batch(before, now, d, attr);
        lemma_without(mid, last);
        let pushed = mid.push(last);
        assert(pushed[mid.len() as int] == last);
        assert(pushed.contains(attr) <==> mid.contains(attr) || attr == last) by {
            if mid.contains(attr) {
                let k = choose|k: int| 0 <= k < mid.len() && mid[k] == attr;
                assert(pushed[k] == attr);
            }
            if pushed.contains(attr) && attr != last {
                let k = choose|k: int| 0 <= k < pushed.len() && pushed[k] == attr;
                assert(mid[k] == attr);
            }
        }
        if last != attr {
            if exists|i: int| 0 <= i < ops.len() && (#[trigger] ops[i]).attr@ == attr {
                let i = choose|i: int| 0 <= i < ops.len() && (#[trigger] ops[i]).attr@ == attr;
                assert(d[i].attr@ == attr);
            }
            if forall|i: int| 0 <= i < ops.len() ==> (#[trigger] ops[i]).attr@ != attr {
                assert forall|i: int| 0 <= i < d.len() implies (#[trigger] d[i]).attr@
                    != attr by {
                    assert(d[i] == ops[i]);
                }
            }
        } else {
            assert(ops[ops.len() - 1].attr@ == attr);
        }
    }
}

/// An installed package reads back as declared, with all that was declared
/// before and nothing else.
pub proof fn law_install_declares(list: Seq<char>, attr: Seq<char>)
    requires
        valid_attr(attr),
    ensures
        forall|x: Seq<char>|
            declares(rendered(declared(list).push(attr)), x) <==> declares(list, x) || x == attr,
{
    let known = declared(list);
    assert forall|x: Seq<char>| #[trigger] known.contains(x) <==> declares(list, x) by {
        lemma_declares_members(list, x);
    }
    let attrs = known.push(attr);
    assert(attrs[known.len() as int] == attr);
    assert forall|x: Seq<char>| #[trigger] attrs.contains(x) <==> known.contains(x) || x
        == attr by {
        if known.contains(x) {
            let k = choose|k: int| 0 <= k < known.len() && known[k] == x;
            assert(attrs[k] == x);
        }
        if attrs.contains(x) && x != attr {
            let k = choose|k: int| 0 <= k < attrs.len() && attrs[k] == x;
            assert(known[k] == x);
        }
    }
    lemma_rendered_declares(attrs);
    assert forall|x: Seq<char>| declares(rendered(attrs), x) <==> declares(list, x) || x
        == attr by {
        assert(declares(rendered(attrs), x) <==> attrs.contains(x));
        assert(known.contains(x) <==> declares(list, x));
    }
}

/// A removed package reads back as not declared, and no other changes.
pub proof fn law_uninstall_undeclares(list: Seq<char>, attr: Seq<char>)
    ensures
        forall|x: Seq<char>|
            declares(rendered(without(declared(list), attr)), x) <==> declares(list, x) && x
                != attr,
{
    let known = declared(list);
    assert forall|x: Seq<char>| #[trigger] known.contains(x) <==> declares(list, x) by {
        lemma_declares_members(list, x);
    }
    lemma_without(known, attr);
    let attrs = without(known, attr);
    lemma_rendered_declares(attrs);
    assert forall|x: Seq<char>| declares(rendered(attrs), x) <==> declares(list, x) && x
        != attr by {
        assert(declares(rendered(attrs), x) <==> attrs.contains(x));
        assert(known.contains(x) <==> declares(list, x));
    }
}

/// An install that failed leaves the list declaring what it declared before.
pub proof fn law_a_failed_install_is_taken_back(list: Seq<char>, attr: Seq<char>)
    requires
        valid_attr(attr),
        !declares(list, attr),
    ensures
        ({
            let edited = rendered(declared(list).push(attr));
            let taken_back = rendered(without(declared(edited), attr));
            forall|x: Seq<char>| declares(taken_back, x) <==> declares(list, x)
        }),
{
    law_install_declares(list, attr);
    law_uninstall_undeclares(rendered(declared(list).push(attr)), attr);
}

/// A removal that failed leaves the list declaring what it declared before.
pub proof fn law_a_failed_removal_is_taken_back(list: Seq<char>, attr: Seq<char>)
    requires
        declares(list, attr),
    ensures
        ({
            let edited = rendered(without(declared(list), attr));
            let taken_back = rendered(declared(edited).push(attr));
            !declares(edited, attr) && forall|x: Seq<char>|
                declares(taken_back, x) <==> declares(list, x)
        }),
{
    law_uninstall_undeclares(list, attr);
    law_install_declares(rendered(without(declared(list), attr)), attr);
}

/// A sorted list with the members of `attrs` can always be had.
proof fn lemma_sorted_exists(attrs: Seq<Seq<char>>) -> (l: Seq<Seq<char>>)
    ensures
        text::ascending(l),
        forall|x: Seq<char>| #[trigger] l.contains(x) <==> attrs.contains(x),
    decreases attrs.len(),
{
    if attrs.len() == 0 {
        Seq::empty()
    } else {
        let d = attrs.drop_last();
        let l = lemma_sorted_exists(d);
        let r = text::lemma_insert_ascending(l, attrs.last());
        assert forall|x: Seq<char>| #[trigger] r.contains(x) <==> attrs.contains(x) by {
            assert(r.contains(x) <==> l.contains(x) || x == attrs.last());
            assert(l.contains(x) <==> d.contains(x));
            if d.contains(x) {
                let k = choose|k: int| 0 <= k < d.len() && d[k] == x;
                assert(attrs[k] == x);
            }
            if attrs.contains(x) && x != attrs.last() {
                let k = choose|k: int| 0 <= k < attrs.len() && attrs[k] == x;
                assert(d[k] == x);
            }
            assert(attrs[attrs.len() - 1] == attrs.last());
        }
        r
    }
}

proof fn lemma_rendered_declares(attrs: Seq<Seq<char>>)
    requires
        forall|x: Seq<char>| #[trigger] attrs.contains(x) ==> valid_attr(x),
    ensures
        forall|x: Seq<char>| declares(rendered(attrs), x) <==> attrs.contains(x),
{
    assert forall|i: int| 0 <= i < attrs.len() implies valid_attr(#[trigger] attrs[i]) by {
        assert(attrs.contains(attrs[i]));
    }
    law_render_round_trips_through_parse(attrs);
    assert forall|x: Seq<char>| declares(rendered(attrs), x) <==> attrs.contains(x) by {
        lemma_declares_members(rendered(attrs), x);
    }
}

proof fn lemma_declares_members(list: Seq<char>, x: Seq<char>)
    ensures
        declared(list).contains(x) <==> declares(list, x),
{
    let l = lemma_declared_exists(list, text::lines(list).len() as int);
    lemma_declared(list, l);
}

proof fn lemma_declared_exists(list: Seq<char>, n: int) -> (l: Seq<Seq<char>>)
    requires
        0 <= n <= text::lines(list).len(),
    ensures
        text::ascending(l),
        forall|x: Seq<char>| #[trigger]
            l.contains(x) <==> valid_attr(x) && exists|i: int|
                0 <= i < n && declared_on(#[trigger] text::lines(list)[i]) == x,
    decreases n,
{
    if n == 0 {
        Seq::empty()
    } else {
        let l = lemma_declared_exists(list, n - 1);
        let e = declared_on(text::lines(list)[n - 1]);
        let r = if valid_attr(e) {
            text::lemma_insert_ascending(l, e)
        } else {
            l
        };
        assert forall|x: Seq<char>| #[trigger]
            r.contains(x) <==> valid_attr(x) && exists|i: int|
                0 <= i < n && declared_on(#[trigger] text::lines(list)[i]) == x by {
            assert(l.contains(x) <==> valid_attr(x) && exists|i: int|
                0 <= i < n - 1 && declared_on(#[trigger] text::lines(list)[i]) == x);
            assert(r.contains(x) <==> l.contains(x) || (valid_attr(e) && x == e));
        }
        r
    }
}

// ---------------------------------------------------------------------------
// What one look and one line mean
// ---------------------------------------------------------------------------

/// A finished run that started at or after the write ends the wait with its own
/// outcome. While a run is under way with the helper alive, the idle clock stands at
/// now and the list is left alone. Otherwise the list is written again after five
/// idle seconds, three times at most, and each time the idle clock starts anew; two
/// idle minutes without that, or an hour in all, end the wait without success. An answer
/// about the helper is good for five seconds. A moment still to come is no time ago.
pub proof fn law_one_look_decides(
    before: Wait,
    after: Wait,
    status: Option<ApplyStatus>,
    since: u64,
    now: u64,
    asked: bool,
    step: WaitStep,
)
    requires
        polled(before, after, status, since, now, asked, step),
    ensures
        ({
            let done = status matches Some(st) && st.phase@ == "done"@ && st.started >= since;
            let building = status matches Some(st) && st.phase@ == "building"@;
            let known = before.liveness matches Some(l) && now < l.0 + 5_000;
            let alive = if known {
                before.liveness->Some_0.1
            } else {
                asked
            };
            let idle = if now > before.idle_since {
                now - before.idle_since
            } else {
                0
            };
            let overdue = now > before.start + 3_600_000;
            &&& done ==> after == before && !step.nudge && step.outcome == Some(
                status->Some_0.ok == Some(true),
            )
            &&& !done ==> after.start == before.start
            &&& !done && building && !known ==> after.liveness == Some((now, asked))
            &&& !done && (!building || known) ==> after.liveness == before.liveness
            &&& !done && building && alive ==> after.idle_since == now && after.nudges
                == before.nudges && !step.nudge && (overdue ==> step.outcome == Some(false)) && (
            !overdue ==> step.outcome is None)
            &&& !done && !(building && alive) && idle > 5_000 && before.nudges < 3 ==> step.nudge
                && after.nudges == before.nudges + 1 && after.idle_since == now && (overdue
                ==> step.outcome == Some(false)) && (!overdue ==> step.outcome is None)
            &&& !done && !(building && alive) && (idle <= 5_000 || before.nudges >= 3)
                ==> !step.nudge && after.nudges == before.nudges && after.idle_since
                == before.idle_since && (overdue || idle > 120_000 ==> step.outcome == Some(false))
                && (!overdue && idle <= 120_000 ==> step.outcome is None)
        }),
{
    lemma_phases_differ();
}

/// The unit that watches the list counts as missing only where the answer says so.
pub proof fn law_only_a_plain_no_means_no_unit(answer: Option<bool>)
    ensures
        unit_present(None),
        unit_present(Some(true)),
        !unit_present(Some(false)),
{
}

/// The configuration directory is `waverunner` below the one that the environment
/// names, and below `.config` in the home directory where it names none.
pub proof fn law_the_configuration_is_below_its_base(base: String, other: Option<String>)
    requires
        base@.len() > 0,
        base@.last() != '/',
    ensures
        config_dir_of(Some(base), other) == base@ + "/waverunner"@,
        config_dir_of(None, Some(base)) == base@ + "/.config/waverunner"@,
{
    reveal_strlit("/waverunner");
    reveal_strlit("waverunner");
    reveal_strlit(".config");
    reveal_strlit("/.config/waverunner");
    text::law_one_slash_stands_between(base@, "waverunner"@);
    text::law_one_slash_stands_between(base@, ".config"@);
    let mid = base@.push('/') + ".config"@;
    assert(text::below(base@, ".config"@) == mid);
    text::law_one_slash_stands_between(mid, "waverunner"@);
    assert(base@.push('/') + "waverunner"@ == base@ + "/waverunner"@);
    assert(mid.push('/') + "waverunner"@ == base@ + "/.config/waverunner"@);
}

/// An attribute begins with a letter or digit; letters, digits, dots, underscores and
/// hyphens may follow, and nothing else may.
pub proof fn law_what_an_attribute_is(s: Seq<char>, c: char)
    ensures
        ({
            let letter = (97 <= c as int <= 122) || (65 <= c as int <= 90) || (48 <= c as int
                <= 57);
            let inner = letter || c == '.' || c == '_' || c == '-';
            &&& !valid_attr(Seq::empty())
            &&& valid_attr(seq![c]) == letter
            &&& s.len() > 0 ==> valid_attr(s.push(c)) == (valid_attr(s) && inner)
        }),
{
    let one = seq![c];
    assert(one[0] == c);
    assert forall|i: int| 0 <= i < one.len() && is_alnum(c) implies attr_char(#[trigger] one[i]) by {
        assert(one[i] == c);
    }
    if s.len() > 0 {
        let t = s.push(c);
        assert(t[s.len() as int] == c);
        assert(t[0] == s[0]);
        assert(forall|i: int| 0 <= i < s.len() ==> t[i] == s[i]);
        if valid_attr(t) {
            assert forall|i: int| 0 <= i < s.len() implies attr_char(#[trigger] s[i]) by {
                assert(attr_char(t[i]));
            }
            assert(attr_char(t[s.len() as int]));
        }
        if valid_attr(s) && attr_char(c) {
            assert forall|i: int| 0 <= i < t.len() implies attr_char(#[trigger] t[i]) by {
                if i < s.len() {
                    assert(attr_char(s[i]));
                }
            }
        }
    }
}

/// A line declares what stands on it, without the white space around it and without
/// a comment behind it.
pub proof fn law_a_line_declares_what_stands_on_it(
    lead: Seq<char>,
    entry: Seq<char>,
    trail: Seq<char>,
    comment: Seq<char>,
)
    requires
        forall|i: int| 0 <= i < lead.len() ==> text::is_space(#[trigger] lead[i]),
        forall|i: int| 0 <= i < trail.len() ==> text::is_space(#[trigger] trail[i]),
        text::is_trimmed(entry),
        !entry.contains('#'),
    ensures
        declared_on(lead + entry + trail) == entry,
        declared_on((lead + entry + trail).push('#') + comment) == entry,
{
    let body = lead + entry + trail;
    let line = body.push('#') + comment;
    assert(!text::is_space('#')) by {
        text::law_what_is_blank('#');
    }
    assert forall|i: int| 0 <= i < body.len() implies #[trigger] body[i] != '#' by {
        if i < lead.len() {
            assert(body[i] == lead[i]);
        } else if i < lead.len() + entry.len() {
            assert(body[i] == entry[i - lead.len()]);
        } else {
            assert(body[i] == trail[i - lead.len() - entry.len()]);
        }
    }
    text::law_trimming_takes_the_blanks_around(lead, entry, trail);
    text::lemma_span_to_at(body, '#', body.len() as int);
    assert(body.take(body.len() as int) == body);
    assert forall|i: int| 0 <= i < body.len() implies line[i] != '#' by {
        assert(line[i] == body[i]);
    }
    assert(line[body.len() as int] == '#');
    text::lemma_span_to_at(line, '#', body.len() as int);
    assert(line.take(body.len() as int) == body);
}

/// A list declares what its first line declares and what the lines behind it do, as
/// far as those are attributes.
pub proof fn law_a_list_declares_line_by_line(line: Seq<char>, rest: Seq<char>, attr: Seq<char>)
    requires
        !line.contains('\n'),
        line.len() == 0 || line.last() != '\r',
    ensures
        declares(line.push('\n') + rest, attr) <==> valid_attr(attr) && declared_on(line) == attr
            || declares(rest, attr),
        declared(line.push('\n') + rest).contains(attr) <==> declares(line.push('\n') + rest, attr),
        text::ascending(declared(line.push('\n') + rest)),
{
    let list = line.push('\n') + rest;
    text::lemma_lines_front(line, rest);
    let ls = text::lines(list);
    let rs = text::lines(rest);
    assert(ls == seq![line] + rs);
    if declares(rest, attr) {
        let i = choose|i: int| 0 <= i < rs.len() && declared_on(#[trigger] rs[i]) == attr;
        assert(ls[i + 1] == rs[i]);
    }
    if declares(list, attr) && declared_on(line) != attr {
        let i = choose|i: int| 0 <= i < ls.len() && declared_on(#[trigger] ls[i]) == attr;
        assert(i > 0);
        assert(rs[i - 1] == ls[i]);
    }
    if valid_attr(attr) && declared_on(line) == attr {
        assert(ls[0] == line);
    }
    lemma_declares_members(list, attr);
    let l = lemma_declared_exists(list, ls.len() as int);
    lemma_declared(list, l);
}

/// A written list is a comment and one line for each attribute, ascending and each
/// once.
pub proof fn law_a_written_list_has_a_line_for_each(attrs: Seq<Seq<char>>)
    requires
        forall|x: Seq<char>| #[trigger] attrs.contains(x) ==> valid_attr(x),
    ensures
        text::lines(rendered(attrs)) == seq![
            "# waverunner declarative packages — one nixpkgs attr per line."@,
        ] + sorted_members(attrs),
        text::ascending(sorted_members(attrs)),
        forall|x: Seq<char>| #[trigger] sorted_members(attrs).contains(x) <==> attrs.contains(x),
{
    let sorted = lemma_sorted_exists(attrs);
    lemma_sorted_members(attrs, sorted);
    let h = header();
    reveal_strlit("# waverunner declarative packages — one nixpkgs attr per line.");
    assert(!h.contains('\n'));
    assert(h.last() == '.');
    text::lemma_lines_front(h, attr_lines(sorted));
    assert forall|i: int| 0 <= i < sorted.len() implies valid_attr(#[trigger] sorted[i]) by {
        assert(sorted.contains(sorted[i]));
    }
    lemma_attr_lines_split(sorted);
}

/// The list counts as applied exactly where a run is done, was successful and started
/// no earlier than the list was written.
pub proof fn law_a_run_covers_what_it_read(list: ListFile, st: ApplyStatus)
    ensures
        !covered(list, None),
        st.phase@ != "done"@ ==> !covered(list, Some(st)),
        st.ok != Some(true) ==> !covered(list, Some(st)),
        st.started < list.written ==> !covered(list, Some(st)),
        st.phase@ == "done"@ && st.ok == Some(true) && st.started >= list.written ==> covered(
            list,
            Some(st),
        ),
{
}

/// A list is seeded with the attributes that are valid, in their order, and with no
/// other. `at` says which they are.
pub proof fn law_only_valid_attributes_are_seeded(attrs: Seq<Seq<char>>) -> (at: Seq<int>)
    ensures
        at.len() == valid_ones(attrs).len(),
        forall|a: int|
            0 <= a < at.len() ==> 0 <= (#[trigger] at[a]) < attrs.len() && valid_ones(attrs)[a]
                == attrs[at[a]] && valid_attr(attrs[at[a]]),
        forall|a: int, b: int| 0 <= a < b < at.len() ==> #[trigger] at[a] < #[trigger] at[b],
        forall|i: int| 0 <= i < attrs.len() && valid_attr(#[trigger] attrs[i]) ==> at.contains(i),
    decreases attrs.len(),
{
    if attrs.len() == 0 {
        Seq::empty()
    } else {
        let d = attrs.drop_last();
        let n = attrs.len() - 1;
        let was = law_only_valid_attributes_are_seeded(d);
        assert(forall|i: int| 0 <= i < n ==> attrs[i] == d[i]);
        let now = if valid_attr(attrs[n]) {
            was.push(n)
        } else {
            was
        };
        assert forall|i: int|
            0 <= i < attrs.len() && valid_attr(#[trigger] attrs[i]) implies now.contains(i) by {
            if i < n {
                assert(valid_attr(d[i]));
                let a = choose|a: int| 0 <= a < was.len() && was[a] == i;
                assert(now[a] == i);
            } else {
                assert(now[was.len() as int] == n);
            }
        }
        now
    }
}

/// With the list applied an operation is settled with success exactly where the list
/// already is as it wants it; an install of what is no attribute fails at once; and
/// every other operation takes the outcome of the run.
pub proof fn law_what_an_operation_waits_for(
    list: ListFile,
    status: Option<ApplyStatus>,
    ops: Seq<BatchOp>,
    i: int,
    ok: bool,
)
    requires
        0 <= i < ops.len(),
    ensures
        ({
            let there = after_ops(declared(list.text@), ops.take(i)).contains(ops[i].attr@);
            let applied = status matches Some(st) && st.phase@ == "done"@ && st.ok == Some(true)
                && st.started >= list.written;
            let action = planned(list, status, ops)[i];
            &&& planned(list, status, ops).len() == ops.len()
            &&& ops[i].install && !valid_attr(ops[i].attr@) ==> outcome_of(action, ok) == false
                && action is Fast
            &&& !(ops[i].install && !valid_attr(ops[i].attr@)) && applied && ops[i].install == there
                ==> outcome_of(action, ok) == true && action is Fast
            &&& !(ops[i].install && !valid_attr(ops[i].attr@)) && (!applied || ops[i].install
                != there) ==> outcome_of(action, ok) == ok && action is Ride
        }),
{
}

/// A helper that is active, starting, reloading or stopping is running, and so is one
/// that could not be asked; in any other state it is not.
pub proof fn law_which_states_are_running(lead: Seq<char>, state: Seq<char>, trail: Seq<char>)
    requires
        forall|i: int| 0 <= i < lead.len() ==> text::is_space(#[trigger] lead[i]),
        forall|i: int| 0 <= i < trail.len() ==> text::is_space(#[trigger] trail[i]),
        text::is_trimmed(state),
    ensures
        state_means_running(None),
        state_means_running(Some(lead + state + trail)) == (state == "active"@ || state
            == "activating"@ || state == "reloading"@ || state == "deactivating"@),
{
    text::law_trimming_takes_the_blanks_around(lead, state, trail);
}

} // verus!
