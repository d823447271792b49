//! Which tasks make sound: the streams that sound, and the processes above
//! them.
//!
//! Sampling and reading the process table happen outside; what they bring is
//! read here.
use vstd::prelude::*;
use vstd::utf8::encode_utf8;
use crate::json;
use crate::text;

verus! {

/// A stream that sounds: its process and those above it.
#[derive(Debug)]
pub struct Stream {
    pub ancestors: Vec<i64>,
}

/// Whether the deck is up, so that sound is sampled.
#[derive(Debug)]
pub struct DeckAudio {
    pub active: bool,
    /// Whether the last sample was silent.
    pub last_empty: bool,
}

impl DeckAudio {
    /// Nothing is sampled yet.
    pub fn new() -> (r: Self)
        ensures
            !r.active,
            r.last_empty,
    {
        DeckAudio { active: false, last_empty: true }
    }

    /// Start or stop sampling.
    pub fn set_active(&mut self, on: bool)
        ensures
            *final(self) == (DeckAudio { active: on, ..*old(self) }),
    {
        self.active = on;
    }

    /// A beat while nothing is sampled: the next sample counts as the first.
    pub fn rest(&mut self)
        ensures
            *final(self) == (DeckAudio { last_empty: true, ..*old(self) }),
    {
        self.last_empty = true;
    }

    /// A sample has come. Returns whether to pass it on: silence only once,
    /// after sound.
    pub fn sampled(&mut self, streams: &[Stream]) -> (r: bool)
        ensures
            r == (streams@.len() > 0 || !old(self).last_empty),
            *final(self) == (DeckAudio { last_empty: streams@.len() == 0, ..*old(self) }),
    {
        let empty: bool = streams.len() == 0;
        let pass: bool = !(empty && self.last_empty);
        self.last_empty = empty;
        pass
    }
}

// ---------------------------------------------------------------------------
// Streams
// ---------------------------------------------------------------------------

/// What a node of the audio graph says of itself, as far as it is asked.
#[derive(Debug)]
pub struct NodeFacts {
    pub class: Option<String>,
    pub state: Option<String>,
    pub mute: Option<bool>,
    pub pid: Option<i64>,
}

/// Whether a node is an output stream that runs and is not muted.
pub open spec fn sounds(
    class: Option<Seq<char>>,
    state: Option<Seq<char>>,
    mute: Option<bool>,
) -> bool {
    class == Some("Stream/Output/Audio"@) && state == Some("running"@) && mute != Some(true)
}

/// The process of a node that sounds.
pub fn stream_pid(f: &NodeFacts) -> (r: Option<i64>)
    ensures
        r == (if sounds(text::text_in(f.class), text::text_in(f.state), f.mute) {
            f.pid
        } else {
            None
        }),
{
    let output: bool = match &f.class {
        Some(c) => text::same(c, "Stream/Output/Audio"),
        None => false,
    };
    let running: bool = match &f.state {
        Some(s) => text::same(s, "running"),
        None => false,
    };
    let muted: bool = match f.mute {
        Some(m) => m,
        None => false,
    };
    if output && running && !muted {
        f.pid
    } else {
        None
    }
}

/// A member of a member, where both exist.
pub open spec fn inner(document: Option<Seq<char>>, key: Seq<char>) -> Option<Seq<char>> {
    match document {
        Some(d) => json::member_in(d, key),
        None => None,
    }
}

/// The first element of a document that is an array.
pub open spec fn first_item(document: Option<Seq<char>>) -> Option<Seq<char>> {
    match document {
        Some(d) => match json::json_items(encode_utf8(d)) {
            Some(v) => if v.len() > 0 {
                Some(v[0])
            } else {
                None
            },
            None => None,
        },
        None => None,
    }
}

/// The text of a document that is a string.
pub open spec fn text_at(document: Option<Seq<char>>) -> Option<Seq<char>> {
    match document {
        Some(d) => json::json_text(encode_utf8(d)),
        None => None,
    }
}

/// The integer of a document that is one.
pub open spec fn int_at(document: Option<Seq<char>>) -> Option<i64> {
    match document {
        Some(d) => json::json_int(encode_utf8(d)),
        None => None,
    }
}

/// Whether a document is `true` or `false`.
pub open spec fn bool_at(document: Option<Seq<char>>) -> Option<bool> {
    if document == Some("true"@) {
        Some(true)
    } else if document == Some("false"@) {
        Some(false)
    } else {
        None
    }
}

fn member_at(document: &Option<String>, key: &str) -> (r: Option<String>)
    ensures
        text::text_in(r) == inner(text::text_in(*document), key@),
{
    match document {
        Some(d) => json::member_of(d, key),
        None => None,
    }
}

fn item_at(document: &Option<String>) -> (r: Option<String>)
    ensures
        text::text_in(r) == first_item(text::text_in(*document)),
{
    match document {
        Some(d) => {
            let bytes = d.as_str().as_bytes();
            assert(bytes@ == encode_utf8(d@));
            match json::items(bytes) {
                Some(v) => {
                    if v.len() > 0 {
                        assert(text::texts(v@)[0] == v@[0]@);
                        Some(text::copy_text(&v[0]))
                    } else {
                        None
                    }
                },
                None => None,
            }
        },
        None => None,
    }
}

/// The process of the stream that a node describes, where it sounds.
pub open spec fn node_pid(node: Seq<char>) -> Option<i64> {
    let info = json::member_in(node, "info"@);
    let props = inner(info, "props"@);
    let mute = inner(first_item(inner(inner(info, "params"@), "Props"@)), "mute"@);
    if sounds(
        text_at(inner(props, "media.class"@)),
        text_at(inner(info, "state"@)),
        bool_at(mute),
    ) {
        int_at(inner(props, "application.process.id"@))
    } else {
        None
    }
}

/// What a node of the audio graph says of itself.
pub fn node_facts(node: &str) -> (r: NodeFacts)
    ensures
        ({
            let info = json::member_in(node@, "info"@);
            let props = inner(info, "props"@);
            &&& text::text_in(r.class) == text_at(inner(props, "media.class"@))
            &&& text::text_in(r.state) == text_at(inner(info, "state"@))
            &&& r.mute == bool_at(
                inner(first_item(inner(inner(info, "params"@), "Props"@)), "mute"@),
            )
            &&& r.pid == int_at(inner(props, "application.process.id"@))
        }),
{
    let info = json::member_of(node, "info");
    let props = member_at(&info, "props");
    let class = match member_at(&props, "media.class") {
        Some(d) => json::string_of(&d),
        None => None,
    };
    let state = match member_at(&info, "state") {
        Some(d) => json::string_of(&d),
        None => None,
    };
    let params = member_at(&member_at(&info, "params"), "Props");
    let mute: Option<bool> = match member_at(&item_at(&params), "mute") {
        Some(d) => {
            if text::same(&d, "true") {
                Some(true)
            } else if text::same(&d, "false") {
                Some(false)
            } else {
                None
            }
        },
        None => None,
    };
    let pid: Option<i64> = match member_at(&props, "application.process.id") {
        Some(d) => {
            let bytes = d.as_str().as_bytes();
            assert(bytes@ == encode_utf8(d@));
            json::integer(bytes)
        },
        None => None,
    };
    NodeFacts { class, state, mute, pid }
}

/// The processes of the nodes that sound, in order.
pub open spec fn sounding_pids(nodes: Seq<Seq<char>>) -> Seq<i64>
    decreases nodes.len(),
{
    if nodes.len() == 0 {
        Seq::empty()
    } else {
        let before = sounding_pids(nodes.drop_last());
        match node_pid(nodes.last()) {
            Some(pid) => before.push(pid),
            None => before,
        }
    }
}

/// The processes of the streams that sound in a dump of the audio graph; none
/// in what is no such dump.
pub fn sample(dump: &[u8]) -> (r: Vec<i64>)
    ensures
        r@ == (match json::json_items(dump@) {
            Some(nodes) => sounding_pids(nodes),
            None => Seq::empty(),
        }),
{
    let mut pids: Vec<i64> = Vec::new();
    let nodes = match json::items(dump) {
        Some(v) => v,
        None => return pids,
    };
    let ghost t = text::texts(nodes@);
    assert(t.take(0) == Seq::<Seq<char>>::empty());
    for i in 0..nodes.len()
        invariant
            t == text::texts(nodes@),
            pids@ == sounding_pids(t.take(i as int)),
    {
        assert(t.take(i + 1).drop_last() == t.take(i as int));
        assert(t.take(i + 1).last() == nodes@[i as int]@);
        if let Some(pid) = stream_pid(&node_facts(&nodes[i])) {
            pids.push(pid);
        }
    }
    assert(t.take(t.len() as int) == t);
    pids
}

// ---------------------------------------------------------------------------
// Ancestry
// ---------------------------------------------------------------------------

/// The parent that a process's `stat` line names: the second word behind the
/// last closing bracket, for the name in front of it may hold anything.
pub open spec fn parent_pid(stat: Seq<char>) -> Option<i64> {
    if !stat.contains(')') {
        None
    } else {
        let words = text::words(text::tail_after(stat, ')'));
        if words.len() > 1 {
            text::integer(words[1])
        } else {
            None
        }
    }
}

/// The parent that a process's `stat` line names.
pub fn parse_parent(stat: &str) -> (r: Option<i64>)
    ensures
        r == parent_pid(stat@),
{
    if !text::contains_char(stat, ')') {
        return None;
    }
    let v = text::chars_of(stat);
    let tail = text::tail_of(&v, ')');
    let words = text::words_of(&tail);
    if words.len() > 1 {
        assert(text::texts(words@)[1] == words@[1]@);
        text::parse_integer(&words[1])
    } else {
        None
    }
}

/// How many processes of a chain are followed.
pub const CHAIN_MAX: usize = 12;

/// A walk up from a process.
#[derive(Debug)]
pub struct Ancestry {
    pub chain: Vec<i64>,
    /// The process to ask about next, if any.
    pub asks: Option<i64>,
}

impl Ancestry {
    /// A walk keeps at most [`CHAIN_MAX`] processes, none of them the first
    /// process of the system.
    pub open spec fn wf(self) -> bool {
        &&& self.chain@.len() <= CHAIN_MAX
        &&& forall|i: int| 0 <= i < self.chain@.len() ==> 1 < #[trigger] self.chain@[i]
        &&& self.asks matches Some(p) ==> self.chain@.len() > 0 && self.chain@.last() == p
    }

    /// Begin a walk at `pid`.
    pub fn begin(pid: i64) -> (r: Self)
        ensures
            r.wf(),
            r.chain@ == (if pid > 1 {
                seq![pid]
            } else {
                Seq::empty()
            }),
            r.asks == (if pid > 1 {
                Some(pid)
            } else {
                None
            }),
    {
        let mut chain: Vec<i64> = Vec::new();
        if pid > 1 {
            chain.push(pid);
            assert(chain@ == seq![pid]);
            Ancestry { chain, asks: Some(pid) }
        } else {
            Ancestry { chain, asks: None }
        }
    }

    /// The `stat` line of the process that was asked about has come, or could
    /// not be read. Its parent joins the chain, unless it is the first process
    /// or the chain is full.
    pub fn answer(&mut self, stat: Option<&str>)
        requires
            old(self).wf(),
        ensures
            final(self).wf(),
            ({
                let parent = match stat {
                    Some(s) => parent_pid(s@),
                    None => None,
                };
                let goes_on = old(self).asks is Some && old(self).chain@.len() < CHAIN_MAX
                    && parent is Some && parent->Some_0 > 1;
                &&& final(self).chain@ == (if goes_on {
                    old(self).chain@.push(parent->Some_0)
                } else {
                    old(self).chain@
                })
                &&& final(self).asks == (if goes_on {
                    parent
                } else {
                    None
                })
            }),
    {
        let asked: bool = self.asks.is_some();
        self.asks = None;
        if !asked || self.chain.len() >= CHAIN_MAX {
            return;
        }
        if let Some(s) = stat {
            if let Some(p) = parse_parent(s) {
                if p > 1 {
                    self.chain.push(p);
                    self.asks = Some(p);
                }
            }
        }
    }
}

/// Which nodes sound: output streams that run and are not known to be muted.
pub proof fn law_which_nodes_sound(class: Seq<char>, state: Seq<char>, mute: Option<bool>)
    ensures
        sounds(Some(class), Some(state), mute) == (class == "Stream/Output/Audio"@ && state
            == "running"@ && mute != Some(true)),
        !sounds(None, Some(state), mute),
        !sounds(Some(class), None, mute),
        bool_at(Some("true"@)) == Some(true),
        bool_at(Some("false"@)) == Some(false),
        bool_at(None) is None,
{
    reveal_strlit("true");
    reveal_strlit("false");
    assert("true"@.len() == 4 && "false"@.len() == 5);
}

/// A node gives its process where its class is that of an output stream, its state is
/// running and it is not muted; all three and the process stand in its description.
pub proof fn law_a_node_gives_its_process(node: Seq<char>)
    ensures
        ({
            let info = json::member_in(node, "info"@);
            let props = inner(info, "props"@);
            let params = inner(inner(info, "params"@), "Props"@);
            let pid = int_at(inner(props, "application.process.id"@));
            let running = text_at(inner(info, "state"@)) == Some("running"@);
            let output = text_at(inner(props, "media.class"@)) == Some("Stream/Output/Audio"@);
            let muted = inner(first_item(params), "mute"@) == Some("true"@);
            &&& output && running && !muted ==> node_pid(node) == pid
            &&& !output || !running || muted ==> node_pid(node) is None
            &&& info is None ==> node_pid(node) is None
        }),
{
    reveal_strlit("true");
    reveal_strlit("false");
    assert("true"@.len() == 4 && "false"@.len() == 5);
}

/// The processes come in the order of the nodes, one for each that sounds.
pub proof fn law_processes_come_in_order(nodes: Seq<Seq<char>>, node: Seq<char>)
    ensures
        sounding_pids(Seq::empty()) == Seq::<i64>::empty(),
        node_pid(node) is None ==> sounding_pids(nodes.push(node)) == sounding_pids(nodes),
        node_pid(node) matches Some(p) ==> sounding_pids(nodes.push(node)) == sounding_pids(
            nodes,
        ).push(p),
{
    assert(nodes.push(node).drop_last() == nodes);
}

/// The parent is the second word behind the last closing bracket, whatever stands in
/// front of it; without a bracket, or with fewer words, there is none.
pub proof fn law_the_parent_stands_behind_the_name(
    head: Seq<char>,
    state: Seq<char>,
    parent: Seq<char>,
    rest: Seq<char>,
)
    requires
        state.len() > 0,
        parent.len() > 0,
        forall|i: int| 0 <= i < state.len() ==> !text::is_space(#[trigger] state[i]),
        forall|i: int| 0 <= i < parent.len() ==> !text::is_space(#[trigger] parent[i]),
        !state.contains(')'),
        !parent.contains(')'),
        !rest.contains(')'),
    ensures
        parent_pid(
            head.push(')') + (seq![' '] + (state.push(' ') + (parent.push(' ') + rest))),
        ) == text::integer(parent),
        !head.contains(')') ==> parent_pid(head) is None,
{
    let tail = seq![' '] + (state.push(' ') + (parent.push(' ') + rest));
    assert(text::is_space(' ')) by {
        text::law_what_is_blank(' ');
    }
    text::law_words_come_apart_at_blanks(parent, ' ', rest);
    text::law_words_come_apart_at_blanks(state, ' ', parent.push(' ') + rest);
    text::law_words_come_apart_at_blanks(state, ' ', state.push(' ') + (parent.push(' ') + rest));
    let ws = text::words(tail);
    assert(ws == seq![state] + (seq![parent] + text::words(rest)));
    assert(ws[1] == parent);
    assert(!tail.contains(')')) by {
        if tail.contains(')') {
            let k = choose|k: int| 0 <= k < tail.len() && tail[k] == ')';
            let a = state.len() as int;
            let b = parent.len() as int;
            if 1 <= k < 1 + a {
                assert(state[k - 1] == ')');
            } else if a + 2 <= k < a + 2 + b {
                assert(parent[k - a - 2] == ')');
            } else if k >= a + b + 3 {
                assert(rest[k - a - b - 3] == ')');
            }
        }
    }
    text::law_the_tail_is_behind_the_last(head, ')', tail);
    let stat = head.push(')') + tail;
    assert(stat[head.len() as int] == ')');
    assert(stat.contains(')'));
}

} // verus!
