//! What the files of an agent, and of the process it runs in, say: which client
//! it is, the model it runs, how full its context is and what it is doing.

use vstd::prelude::*;
use crate::labels;
use crate::labels::Context;
use crate::text;
use crate::text::{at, chars, contains, extend, find_at, index_from, is, is_white, parse_digits, push_chars, push_decimal, push_str, range, rfind_at, skip_white, split_lines, string, trimmed};

verus! {

// ── clients ─────────────────────────────────────────────────────────────────

/// Where a model name can be read from, tried in order.
pub enum Source {
    /// A `$HOME`-relative JSON file and the key holding the model string.
    Settings(String, String),
    /// An environment variable whose value is JSON, and the key holding the
    /// model string.
    EnvJson(String, String),
    /// An environment variable whose value is the model string directly.
    EnvPlain(String),
    /// The last `key=value` in the newest `*.log` of a `$HOME`-relative folder.
    LogTail(String, String),
    /// The model of the session transcript kept for the folder the agent runs
    /// in, under a `$HOME`-relative folder: the model that answered last.
    SessionTail(String),
    /// opencode's per-directory selected model.
    OpencodeSelected,
}

/// Where an agent's context usage can be read from.
pub enum Usage {
    /// The session transcript kept under a `$HOME`-relative folder.
    Session(String),
    /// opencode's message store.
    Opencode,
}

/// A detectable AI coding agent: the process name to look for, and an ordered
/// list of places its current model can be read from (first hit wins; if none
/// resolve, the agent's own name is shown as the label).
pub struct AgentSpec {
    pub comm: String,
    pub sources: Vec<Source>,
    pub usage: Usage,
}

/// What a `Source` stands for.
pub enum Place {
    Settings(Seq<char>, Seq<char>),
    EnvJson(Seq<char>, Seq<char>),
    EnvPlain(Seq<char>),
    LogTail(Seq<char>, Seq<char>),
    SessionTail(Seq<char>),
    OpencodeSelected,
}

impl View for Source {
    type V = Place;

    open spec fn view(&self) -> Place {
        match *self {
            Source::Settings(rel, key) => Place::Settings(rel@, key@),
            Source::EnvJson(var, key) => Place::EnvJson(var@, key@),
            Source::EnvPlain(var) => Place::EnvPlain(var@),
            Source::LogTail(dir, key) => Place::LogTail(dir@, key@),
            Source::SessionTail(dir) => Place::SessionTail(dir@),
            Source::OpencodeSelected => Place::OpencodeSelected,
        }
    }
}

/// The places a list of sources stands for.
pub open spec fn places(v: Seq<Source>) -> Seq<Place> {
    v.map_values(|s: Source| s@)
}

/// The fork of the first client: same transcript and settings, in a
/// configuration folder of its own.
pub const FORK: &'static str = "openclaude";

/// The client the fork was made from; its name is the fork's without `open`.
pub open spec fn upstream() -> Seq<char> {
    FORK@.skip(4)
}

/// The clients that are detected: their process names.
pub open spec fn clients() -> Seq<Seq<char>> {
    seq![upstream(), FORK@, "opencode"@]
}

/// Where a client that keeps its configuration in `.{name}` has its model.
pub open spec fn session_places(name: Seq<char>) -> Seq<Place> {
    seq![
        Place::SessionTail("."@ + name + "/projects"@),
        Place::Settings("."@ + name + "/settings.json"@, "model"@),
        Place::EnvPlain("ANTHROPIC_MODEL"@),
    ]
}

/// Where opencode has its model.
pub open spec fn opencode_places() -> Seq<Place> {
    seq![
        Place::OpencodeSelected,
        Place::EnvJson("OPENCODE_CONFIG_CONTENT"@, "model"@),
        Place::LogTail(".local/share/opencode/log"@, "llm.model"@),
        Place::Settings(".config/opencode/opencode.jsonc"@, "model"@),
        Place::EnvPlain("OPENCODE_MODEL"@),
    ]
}

/// Whether `spec` describes a client that keeps its configuration in `.{name}`.
pub open spec fn session_client(spec: AgentSpec, name: Seq<char>) -> bool {
    &&& spec.comm@ == name
    &&& places(spec.sources@) == session_places(name)
    &&& spec.usage matches Usage::Session(dir) && dir@ == "."@ + name + "/projects"@
}

fn below_config(name: &str, rest: &str) -> (t: String)
    ensures
        t@ == "."@ + name@ + rest@,
{
    let mut t: String = text::copy(".");
    push_str(&mut t, name);
    push_str(&mut t, rest);
    t
}

fn session_agent(name: &str) -> (spec: AgentSpec)
    ensures
        session_client(spec, name@),
{
    // The live session transcript first: the settings usually carry no model at
    // all, and the variable is frozen at launch.
    let sources: Vec<Source> = vec![
        Source::SessionTail(below_config(name, "/projects")),
        Source::Settings(below_config(name, "/settings.json"), text::copy("model")),
        Source::EnvPlain(text::copy("ANTHROPIC_MODEL")),
    ];
    assert(places(sources@) =~= session_places(name@));
    AgentSpec {
        comm: text::copy(name),
        sources,
        usage: Usage::Session(below_config(name, "/projects")),
    }
}

/// The name of the client the fork was made from.
pub fn upstream_name() -> (t: String)
    ensures
        t@ == upstream(),
{
    proof {
        reveal_strlit("openclaude");
    }
    let v: Vec<char> = chars(FORK);
    let name: &[char] = range(v.as_slice(), 4, v.len());
    assert(name@ =~= upstream());
    string(name)
}

/// The detectable agents, in the order of `clients`.
pub fn agents() -> (v: Vec<AgentSpec>)
    ensures
        v@.len() == 3,
        session_client(v@[0], upstream()),
        session_client(v@[1], FORK@),
        v@[2].comm@ == "opencode"@,
        places(v@[2].sources@) == opencode_places(),
        v@[2].usage is Opencode,
{
    // The per-directory selection, then the launch model, then the last logged
    // request, then static configuration.
    let sources: Vec<Source> = vec![
        Source::OpencodeSelected,
        Source::EnvJson(text::copy("OPENCODE_CONFIG_CONTENT"), text::copy("model")),
        Source::LogTail(text::copy(".local/share/opencode/log"), text::copy("llm.model")),
        Source::Settings(text::copy(".config/opencode/opencode.jsonc"), text::copy("model")),
        Source::EnvPlain(text::copy("OPENCODE_MODEL")),
    ];
    assert(places(sources@) =~= opencode_places());
    let name: String = upstream_name();
    let opencode: AgentSpec = AgentSpec {
        comm: text::copy("opencode"),
        sources,
        usage: Usage::Opencode,
    };
    vec![session_agent(name.as_str()), session_agent(FORK), opencode]
}

/// The index among the detectable agents of the one whose process is named
/// `comm`.
pub fn agent_index(comm: &str) -> (r: Option<usize>)
    ensures
        match r {
            Some(i) => i < clients().len() && clients()[i as int] == comm@,
            None => !clients().contains(comm@),
        },
{
    let v: Vec<char> = chars(comm);
    let name: String = upstream_name();
    if is(v.as_slice(), name.as_str()) {
        Some(0)
    } else if is(v.as_slice(), FORK) {
        Some(1)
    } else if is(v.as_slice(), "opencode") {
        Some(2)
    } else {
        None
    }
}

/// An agent's own account of its state: busy, or idle since a wall-clock moment
/// (nanoseconds since the Unix epoch).
#[derive(Clone, Copy, Debug, PartialEq, Eq, Structural)]
pub enum Status {
    Busy,
    Idle(u128),
}

/// An agent detected in a shell: its client's process name, the model it runs,
/// its process, how full its context is and what it says it is doing.
#[derive(Clone, Debug, PartialEq)]
pub struct AgentInfo {
    pub name: String,
    pub model: String,
    pub pid: u32,
    pub context: Option<Context>,
    pub status: Option<Status>,
}

/// What an `AgentInfo` stands for.
pub struct Agent {
    pub name: Seq<char>,
    pub model: Seq<char>,
    pub pid: u32,
    pub context: Option<Context>,
    pub status: Option<Status>,
}

impl View for AgentInfo {
    type V = Agent;

    open spec fn view(&self) -> Agent {
        Agent {
            name: self.name@,
            model: self.model@,
            pid: self.pid,
            context: self.context,
            status: self.status,
        }
    }
}

/// What an optional agent stands for.
pub open spec fn opt_agent(a: Option<AgentInfo>) -> Option<Agent> {
    match a {
        Some(a) => Some(a@),
        None => None,
    }
}

// ── processes ───────────────────────────────────────────────────────────────

/// Longest chain of parents that is climbed.
pub const CLIMB: u32 = 64;

/// Whether a process whose parents, nearest first, are `parents` descends from
/// `target`: the chain is climbed through living parents, never past `init`,
/// and at most `left` steps.
pub open spec fn descends(parents: Seq<Option<u32>>, target: u32, left: nat) -> bool
    decreases left,
{
    if left == 0 || parents.len() == 0 {
        false
    } else {
        match parents[0] {
            Some(ppid) => ppid == target || (ppid > 1 && descends(
                parents.skip(1),
                target,
                (left - 1) as nat,
            )),
            None => false,
        }
    }
}

/// What to do after one step up a chain of parents.
#[derive(Clone, Copy, Debug, PartialEq, Eq, Structural)]
pub enum Climb {
    Found,
    /// Look at this process's parent next.
    Up(u32),
    Lost,
}

/// One step up a chain of parents towards `target`: `ppid` is the parent just
/// read, and `taken` the steps taken before this one.
pub fn climb(ppid: Option<u32>, target: u32, taken: u32) -> (c: Climb)
    ensures
        c == (if taken >= CLIMB {
            Climb::Lost
        } else {
            match ppid {
                Some(p) => if p == target {
                    Climb::Found
                } else if p > 1 {
                    Climb::Up(p)
                } else {
                    Climb::Lost
                },
                None => Climb::Lost,
            }
        }),
{
    if taken >= CLIMB {
        return Climb::Lost;
    }
    match ppid {
        Some(p) => if p == target {
            Climb::Found
        } else if p > 1 {
            Climb::Up(p)
        } else {
            Climb::Lost
        },
        None => Climb::Lost,
    }
}

/// Whether `pid` has `target` as an ancestor, given the parents met on the way
/// up, nearest first.
pub fn descends_from(parents: &[Option<u32>], target: u32) -> (r: bool)
    ensures
        r == descends(parents@, target, CLIMB as nat),
{
    let mut i: usize = 0;
    assert(parents@.skip(0) =~= parents@);
    while i < parents.len() && i < CLIMB as usize
        invariant
            i <= CLIMB,
            i <= parents@.len(),
            descends(parents@.skip(i as int), target, (CLIMB - i) as nat) == descends(
                parents@,
                target,
                CLIMB as nat,
            ),
        decreases parents.len() - i,
    {
        assert(parents@.skip(i as int).skip(1) =~= parents@.skip(i + 1));
        match climb(parents[i], target, i as u32) {
            Climb::Found => {
                return true;
            },
            Climb::Up(_) => {},
            Climb::Lost => {
                return false;
            },
        }
        i += 1;
    }
    false
}

/// Whether `s` is empty or begins with white space.
pub open spec fn word_end(s: Seq<char>) -> bool {
    s.len() == 0 || text::white(s[0])
}

/// How many characters `s` has before its first white space.
pub open spec fn word_len(s: Seq<char>) -> int
    decreases s.len(),
{
    if word_end(s) {
        0
    } else {
        1 + word_len(s.skip(1))
    }
}

/// The `n`th word of `s`, counted from zero.
pub open spec fn word(s: Seq<char>, n: nat) -> Option<Seq<char>>
    decreases n,
{
    let t = text::trim_start(s);
    if t.len() == 0 {
        None
    } else if n == 0 {
        Some(t.take(word_len(t)))
    } else {
        word(t.skip(word_len(t)), (n - 1) as nat)
    }
}

/// Field `n` of a process's stat line, counted from the state letter behind its
/// parenthesised name.
pub open spec fn stat_word(stat: Seq<char>, n: nat) -> Option<Seq<char>> {
    match text::rfind(stat, seq![')']) {
        Some(i) => if i + 2 <= stat.len() {
            word(stat.skip(i + 2), n)
        } else {
            None
        },
        None => None,
    }
}

/// The number `s` stands for, with an optional `+`, when it is at most `max`.
pub open spec fn number(s: Seq<char>, max: int) -> Option<u32> {
    let d = if s.len() > 0 && s[0] == '+' {
        s.skip(1)
    } else {
        s
    };
    if text::numeral(d) && text::value(d) <= max {
        Some(text::value(d) as u32)
    } else {
        None
    }
}

proof fn lemma_word_len(s: Seq<char>, i: int)
    requires
        0 <= i <= s.len(),
        i < s.len() ==> text::white(s[i]),
        forall|k: int| 0 <= k < i ==> !text::white(#[trigger] s[k]),
    ensures
        word_len(s) == i,
    decreases s.len(),
{
    if i > 0 {
        assert(!text::white(s[0]));
        let r = s.skip(1);
        assert forall|k: int| 0 <= k < i - 1 implies !text::white(#[trigger] r[k]) by {
            assert(!text::white(s[k + 1]));
        }
        lemma_word_len(r, i - 1);
    }
}

fn white_from(s: &[char], from: usize) -> (i: usize)
    requires
        from <= s@.len(),
    ensures
        from <= i <= s@.len(),
        word_len(s@.skip(from as int)) == i - from,
{
    let mut i: usize = from;
    while i < s.len() && !is_white(s[i])
        invariant
            from <= i <= s@.len(),
            forall|k: int| from <= k < i ==> !text::white(#[trigger] s@[k]),
        decreases s.len() - i,
    {
        i += 1;
    }
    proof {
        let t = s@.skip(from as int);
        assert forall|k: int| 0 <= k < i - from implies !text::white(#[trigger] t[k]) by {
            assert(!text::white(s@[from + k]));
        }
        lemma_word_len(t, i - from);
    }
    i
}

fn nth_word(s: &[char], n: usize) -> (r: Option<&[char]>)
    ensures
        match r {
            Some(w) => word(s@, n as nat) == Some(w@),
            None => word(s@, n as nat) is None,
        },
{
    let mut i: usize = 0;
    let mut left: usize = n;
    assert(s@.skip(0) =~= s@);
    loop
        invariant
            i <= s@.len(),
            left <= n,
            word(s@.skip(i as int), left as nat) == word(s@, n as nat),
        decreases left,
    {
        let from: usize = skip_white(s, i);
        if from == s.len() {
            return None;
        }
        let to: usize = white_from(s, from);
        if left == 0 {
            let w: &[char] = range(s, from, to);
            assert(w@ =~= s@.skip(from as int).take(to - from));
            return Some(w);
        }
        assert(s@.skip(from as int).skip(to - from) =~= s@.skip(to as int));
        i = to;
        left = left - 1;
    }
}

fn stat_field(stat: &[char], n: usize) -> (r: Option<&[char]>)
    ensures
        match r {
            Some(w) => stat_word(stat@, n as nat) == Some(w@),
            None => stat_word(stat@, n as nat) is None,
        },
{
    let close: Vec<char> = vec![')'];
    assert(close@ =~= seq![')']);
    match rfind_at(stat, close.as_slice()) {
        Some(i) => {
            let len: usize = stat.len();
            if len >= 2 && i <= len - 2 {
                let rest: &[char] = range(stat, i + 2, len);
                assert(rest@ =~= stat@.skip(i + 2));
                nth_word(rest, n)
            } else {
                None
            }
        },
        None => None,
    }
}

fn parse_number(s: &[char], max: u32) -> (r: Option<u32>)
    ensures
        r == number(s@, max as int),
{
    let from: usize = if s.len() > 0 && s[0] == '+' {
        1
    } else {
        0
    };
    let d: &[char] = range(s, from, s.len());
    assert(s@.skip(0) =~= s@);
    assert(d@ =~= s@.skip(from as int));
    match parse_digits(d) {
        Some(n) => if n <= max as u64 {
            Some(n as u32)
        } else {
            None
        },
        None => None,
    }
}

/// The parent in a process's stat line.
pub fn proc_ppid(stat: &str) -> (r: Option<u32>)
    ensures
        r == (match stat_word(stat@, 1) {
            Some(w) => number(w, u32::MAX as int),
            None => None,
        }),
{
    let v: Vec<char> = chars(stat);
    match stat_field(v.as_slice(), 1) {
        Some(w) => parse_number(w, u32::MAX),
        None => None,
    }
}

/// The process group in a process's stat line.
pub fn proc_pgrp(stat: &str) -> (r: Option<u32>)
    ensures
        r == (match stat_word(stat@, 2) {
            Some(w) => number(w, u32::MAX as int),
            None => None,
        }),
{
    let v: Vec<char> = chars(stat);
    match stat_field(v.as_slice(), 2) {
        Some(w) => parse_number(w, u32::MAX),
        None => None,
    }
}

/// The process group holding the terminal of shell `shell`, as its stat line
/// says, when it is another than the shell.
pub open spec fn foreground(stat: Seq<char>, shell: u32) -> Option<u32> {
    match stat_word(stat, 5) {
        Some(w) => match number(w, i32::MAX as int) {
            Some(fg) => if fg > 0 && fg != shell {
                Some(fg)
            } else {
                None
            },
            None => None,
        },
        None => None,
    }
}

/// Foreground process group of the shell's terminal (from the shell's stat
/// line), only when a process other than the shell holds it.
pub fn foreground_pid(stat: &str, shell: u32) -> (r: Option<u32>)
    ensures
        r == foreground(stat@, shell),
{
    let v: Vec<char> = chars(stat);
    match stat_field(v.as_slice(), 5) {
        Some(w) => match parse_number(w, i32::MAX as u32) {
            Some(fg) => if fg > 0 && fg != shell {
                Some(fg)
            } else {
                None
            },
            None => None,
        },
        None => None,
    }
}

/// A process's name, as its comm file holds it.
pub fn proc_comm(comm: &str) -> (t: String)
    ensures
        t@ == text::trim(comm@),
{
    let v: Vec<char> = chars(comm);
    string(trimmed(v.as_slice()))
}

/// The text `String::from_utf8_lossy` makes of some bytes.
pub uninterp spec fn lossy(bytes: Seq<u8>) -> Seq<char>;

/// `String::from_utf8_lossy`: the text of the bytes, ill-formed sequences
/// replaced — a function of the bytes alone, and their own text when they are
/// well-formed.
#[verifier::external_body]
fn from_utf8_lossy(bytes: &[u8]) -> (s: String)
    ensures
        s@ == lossy(bytes@),
        vstd::utf8::valid_utf8(bytes@) ==> s@ == vstd::utf8::decode_utf8(bytes@),
{
    String::from_utf8_lossy(bytes).into_owned()
}

/// `std::str::from_utf8`: the text of the bytes when they are well-formed UTF-8,
/// and nothing otherwise.
#[verifier::external_body]
fn from_utf8(bytes: &[u8]) -> (s: Option<String>)
    ensures
        match s {
            Some(s) => vstd::utf8::valid_utf8(bytes@) && s@ == vstd::utf8::decode_utf8(bytes@),
            None => !vstd::utf8::valid_utf8(bytes@),
        },
{
    std::str::from_utf8(bytes).ok().map(|s| s.to_string())
}

/// The index of the first zero byte, or the length.
pub open spec fn zero_at(b: Seq<u8>) -> int
    decreases b.len(),
{
    if b.len() == 0 || b[0] == 0 {
        0
    } else {
        1 + zero_at(b.skip(1))
    }
}

/// The pieces of `b` between its zero bytes.
pub open spec fn zero_split(b: Seq<u8>) -> Seq<Seq<u8>>
    decreases b.len(),
{
    let i = zero_at(b);
    if 0 <= i < b.len() {
        seq![b.take(i)] + zero_split(b.skip(i + 1))
    } else {
        seq![b]
    }
}

proof fn lemma_zero_at(b: Seq<u8>, i: int)
    requires
        0 <= i <= b.len(),
        i < b.len() ==> b[i] == 0,
        forall|k: int| 0 <= k < i ==> b[k] != 0,
    ensures
        zero_at(b) == i,
    decreases b.len(),
{
    if i > 0 {
        lemma_zero_at(b.skip(1), i - 1);
    }
}

fn zero_from(b: &[u8], from: usize) -> (i: usize)
    requires
        from <= b@.len(),
    ensures
        from <= i <= b@.len(),
        zero_at(b@.skip(from as int)) == i - from,
{
    let mut i: usize = from;
    while i < b.len() && b[i] != 0
        invariant
            from <= i <= b@.len(),
            forall|k: int| from <= k < i ==> b@[k] != 0,
        decreases b.len() - i,
    {
        i += 1;
    }
    proof {
        lemma_zero_at(b@.skip(from as int), i - from);
    }
    i
}

/// The text of the pieces that hold anything, with a space between them.
pub open spec fn spaced(pieces: Seq<Seq<u8>>) -> Seq<char>
    decreases pieces.len(),
{
    if pieces.len() == 0 {
        Seq::empty()
    } else {
        with_piece(spaced(pieces.drop_last()), has_piece(pieces.drop_last()), pieces.last())
    }
}

/// Whether any of the pieces holds anything.
pub open spec fn has_piece(pieces: Seq<Seq<u8>>) -> bool
    decreases pieces.len(),
{
    pieces.len() > 0 && (pieces.last().len() > 0 || has_piece(pieces.drop_last()))
}

/// `s` with one more piece behind it.
pub open spec fn with_piece(s: Seq<char>, any: bool, piece: Seq<u8>) -> Seq<char> {
    if piece.len() == 0 {
        s
    } else if any {
        s + seq![' '] + lossy(piece)
    } else {
        lossy(piece)
    }
}

/// A process's command line, its arguments joined with spaces; `None` when it
/// says nothing.
pub open spec fn command_line(raw: Seq<u8>) -> Option<Seq<char>> {
    let s = spaced(zero_split(raw));
    if s.len() == 0 {
        None
    } else {
        Some(s)
    }
}

/// Full command line of a process: the zero-separated arguments joined with
/// spaces.
pub fn proc_cmdline(raw: &[u8]) -> (t: Option<String>)
    ensures
        text::opt(t) == command_line(raw@),
{
    let mut out: Vec<char> = Vec::new();
    let mut any: bool = false;
    let mut from: usize = 0;
    let ghost mut done: Seq<Seq<u8>> = Seq::empty();
    assert(raw@.skip(0) =~= raw@);
    assert(done + zero_split(raw@) =~= zero_split(raw@));
    loop
        invariant_except_break
            from <= raw@.len(),
            done + zero_split(raw@.skip(from as int)) == zero_split(raw@),
            out@ == spaced(done),
            any == has_piece(done),
            !any ==> out@.len() == 0,
        ensures
            out@ == spaced(zero_split(raw@)),
        decreases raw@.len() - from,
    {
        let ghost rest = raw@.skip(from as int);
        let i: usize = zero_from(raw, from);
        let piece: &[u8] = vstd::slice::slice_subrange(raw, from, i);
        assert(piece@ =~= rest.take(i - from));
        let ghost was = out@;
        if piece.len() > 0 {
            let s: String = from_utf8_lossy(piece);
            let s: Vec<char> = chars(s.as_str());
            if any {
                out.push(' ');
            }
            extend(&mut out, s.as_slice());
        }
        assert(out@ =~= with_piece(was, any, piece@));
        any = any || piece.len() > 0;
        proof {
            let next = done.push(piece@);
            assert(next.drop_last() =~= done);
            if i == raw@.len() {
                assert(rest.take(i - from) =~= rest);
                assert(zero_split(rest) =~= seq![rest]);
                assert(next =~= done + zero_split(rest));
            } else {
                assert(rest.skip(i - from + 1) =~= raw@.skip(i + 1));
                assert(next + zero_split(raw@.skip(i + 1)) =~= done + zero_split(rest));
            }
            done = next;
        }
        if i == raw.len() {
            break;
        }
        from = i + 1;
    }
    if out.len() == 0 {
        None
    } else {
        Some(string(out.as_slice()))
    }
}

/// The value an environment entry gives to the variable named before the `=`
/// that ends `prefix`.
pub open spec fn entry_value(entry: Seq<u8>, prefix: Seq<char>) -> Option<Seq<char>> {
    let s = vstd::utf8::decode_utf8(entry);
    if vstd::utf8::valid_utf8(entry) && text::starts(s, prefix) {
        Some(s.skip(prefix.len() as int))
    } else {
        None
    }
}

/// The first value in a list of environment entries.
pub open spec fn first_value(entries: Seq<Seq<u8>>, prefix: Seq<char>) -> Option<Seq<char>>
    decreases entries.len(),
{
    if entries.len() == 0 {
        None
    } else if entry_value(entries[0], prefix) is Some {
        entry_value(entries[0], prefix)
    } else {
        first_value(entries.skip(1), prefix)
    }
}

/// `s` when it holds anything.
pub open spec fn nonempty(s: Option<Seq<char>>) -> Option<Seq<char>> {
    match s {
        Some(t) => if t.len() > 0 {
            s
        } else {
            None
        },
        None => None,
    }
}

/// Value of the environment variable `var` in a process's environment, when it
/// is set to anything.
pub fn env_var(environ: &[u8], var: &str) -> (t: Option<String>)
    ensures
        text::opt(t) == nonempty(first_value(zero_split(environ@), var@ + seq!['='])),
{
    let mut prefix: Vec<char> = chars(var);
    prefix.push('=');
    assert(prefix@ =~= var@ + seq!['=']);
    let mut from: usize = 0;
    assert(environ@.skip(0) =~= environ@);
    loop
        invariant
            from <= environ@.len(),
            prefix@ == var@ + seq!['='],
            first_value(zero_split(environ@.skip(from as int)), prefix@) == first_value(
                zero_split(environ@),
                prefix@,
            ),
        decreases environ@.len() - from,
    {
        let ghost rest = environ@.skip(from as int);
        let i: usize = zero_from(environ, from);
        let entry: &[u8] = vstd::slice::slice_subrange(environ, from, i);
        assert(entry@ =~= rest.take(i - from));
        proof {
            let all = zero_split(rest);
            if i == environ@.len() {
                assert(rest.take(i - from) =~= rest);
                assert(all =~= seq![entry@]);
                assert(all.skip(1) =~= Seq::empty());
            } else {
                assert(rest.skip(i - from + 1) =~= environ@.skip(i + 1));
                assert(all =~= seq![entry@] + zero_split(environ@.skip(i + 1)));
                assert(all.skip(1) =~= zero_split(environ@.skip(i + 1)));
            }
            assert(all[0] == entry@);
        }
        if let Some(s) = from_utf8(entry) {
            let s: Vec<char> = chars(s.as_str());
            if at(s.as_slice(), prefix.as_slice(), 0) {
                let value: &[char] = range(s.as_slice(), prefix.len(), s.len());
                assert(value@ =~= s@.skip(prefix@.len() as int));
                if value.len() == 0 {
                    return None;
                }
                return Some(string(value));
            }
        }
        if i == environ.len() {
            assert(first_value(zero_split(rest).skip(1), prefix@) is None);
            return None;
        }
        from = i + 1;
    }
}

// ── JSON ────────────────────────────────────────────────────────────────────

/// `key` in quotes.
pub open spec fn quoted(key: Seq<char>) -> Seq<char> {
    seq!['"'] + key + seq!['"']
}

/// The first `"key"`, from `i` on, that is followed by a `:`.
pub open spec fn key_from(s: Seq<char>, needle: Seq<char>, i: int) -> Option<int>
    decreases s.len() - i,
{
    match text::find_from(s, needle, i) {
        Some(k) => if 0 <= i <= k && needle.len() > 0 && k + needle.len() <= s.len() {
            let rest = text::trim_start(s.skip(k + needle.len()));
            if rest.len() > 0 && rest[0] == ':' {
                Some(k)
            } else {
                key_from(s, needle, k + needle.len())
            }
        } else {
            None
        },
        None => None,
    }
}

/// The text of a JSON string that `s` begins with, up to its next quote.
pub open spec fn string_value(s: Seq<char>) -> Option<Seq<char>> {
    if s.len() > 0 && s[0] == '"' {
        let rest = s.skip(1);
        let i = text::index_of(rest, '"');
        if i < rest.len() {
            Some(rest.take(i))
        } else {
            None
        }
    } else {
        None
    }
}

/// The string value of the first `"key"` that is a key.
pub open spec fn json_text(s: Seq<char>, key: Seq<char>) -> Option<Seq<char>> {
    let needle = quoted(key);
    match key_from(s, needle, 0) {
        Some(k) => {
            let rest = text::trim_start(s.skip(k + needle.len()));
            nonempty(string_value(text::trim_start(rest.skip(1))))
        },
        None => None,
    }
}

fn quote(key: &str) -> (v: Vec<char>)
    ensures
        v@ == quoted(key@),
{
    let mut v: Vec<char> = vec!['"'];
    let k: Vec<char> = chars(key);
    extend(&mut v, k.as_slice());
    v.push('"');
    assert(v@ =~= quoted(key@));
    v
}

/// First string value for `"key"` in a JSON blob (naive, brace-agnostic — good
/// enough for flat settings; `"key"` matches only the exact key, not `"keys"`).
/// The first occurrence that is a key holds the value: `"model": null` is no
/// model and must not borrow the next key's value, and a `"model"` that is
/// itself a value is no key at all.
pub fn json_string(s: &str, key: &str) -> (t: Option<String>)
    ensures
        text::opt(t) == json_text(s@, key@),
{
    let v: Vec<char> = chars(s);
    let needle: Vec<char> = quote(key);
    let len: usize = v.len();
    let n: usize = needle.len();
    let mut i: usize = 0;
    loop
        invariant
            v@ == s@,
            needle@ == quoted(key@),
            len == v@.len(),
            n == needle@.len(),
            n >= 2,
            i <= len,
            key_from(s@, needle@, i as int) == key_from(s@, needle@, 0),
        decreases len - i,
    {
        proof {
            text::lemma_find_from(s@, needle@, i as int);
        }
        let k: usize = match find_at(v.as_slice(), needle.as_slice(), i) {
            Some(k) => k,
            None => {
                return None;
            },
        };
        let colon: usize = skip_white(v.as_slice(), k + n);
        if colon < len && v[colon] == ':' {
            let from: usize = skip_white(v.as_slice(), colon + 1);
            assert(s@.skip(colon as int).skip(1) =~= s@.skip(colon + 1));
            if from >= len || v[from] != '"' {
                return None;
            }
            assert(s@.skip(from as int).skip(1) =~= s@.skip(from + 1));
            let to: usize = index_from(v.as_slice(), '"', from + 1);
            if to >= len || to == from + 1 {
                return None;
            }
            let value: &[char] = range(v.as_slice(), from + 1, to);
            assert(value@ =~= s@.skip(from + 1).take(to - from - 1));
            return Some(string(value));
        }
        i = k + n;
    }
}

/// How many digits `s` begins with.
pub open spec fn digits_len(s: Seq<char>) -> int
    decreases s.len(),
{
    if s.len() > 0 && '0' <= s[0] <= '9' {
        1 + digits_len(s.skip(1))
    } else {
        0
    }
}

/// The number behind the first `"key":`.
pub open spec fn json_int(s: Seq<char>, key: Seq<char>) -> Option<u64> {
    let needle = quoted(key).push(':');
    match text::find(s, needle) {
        Some(k) => {
            let rest = text::trim_start(s.skip(k + needle.len()));
            let d = rest.take(digits_len(rest));
            if text::numeral(d) && text::value(d) <= u64::MAX {
                Some(text::value(d) as u64)
            } else {
                None
            }
        },
        None => None,
    }
}

proof fn lemma_digits_len(s: Seq<char>, i: int)
    requires
        0 <= i <= s.len(),
        i < s.len() ==> !('0' <= s[i] <= '9'),
        forall|k: int| 0 <= k < i ==> '0' <= #[trigger] s[k] <= '9',
    ensures
        digits_len(s) == i,
    decreases s.len(),
{
    if i > 0 {
        assert('0' <= s[0] <= '9');
        let r = s.skip(1);
        assert forall|k: int| 0 <= k < i - 1 implies '0' <= #[trigger] r[k] <= '9' by {
            assert('0' <= s[k + 1] <= '9');
        }
        lemma_digits_len(r, i - 1);
    }
}

fn number_at(v: &[char], key: &str) -> (r: Option<u64>)
    ensures
        r == json_int(v@, key@),
{
    let mut needle: Vec<char> = quote(key);
    needle.push(':');
    let k: usize = match find_at(v, needle.as_slice(), 0) {
        Some(k) => k,
        None => {
            return None;
        },
    };
    proof {
        text::lemma_find_from(v@, needle@, 0);
    }
    let len: usize = v.len();
    let from: usize = skip_white(v, k + needle.len());
    let mut to: usize = from;
    while to < len && '0' <= v[to] && v[to] <= '9'
        invariant
            len == v@.len(),
            from <= to <= len,
            forall|j: int| from <= j < to ==> '0' <= #[trigger] v@[j] <= '9',
        decreases len - to,
    {
        to += 1;
    }
    let d: &[char] = range(v, from, to);
    proof {
        let rest = v@.skip(from as int);
        assert forall|j: int| 0 <= j < to - from implies '0' <= #[trigger] rest[j] <= '9' by {
            assert('0' <= v@[from + j] <= '9');
        }
        lemma_digits_len(rest, to - from);
        assert(d@ =~= rest.take(to - from));
    }
    parse_digits(d)
}

/// First integer value for `"key":` in a JSON blob (naive, like `json_string`).
pub fn json_number(s: &str, key: &str) -> (r: Option<u64>)
    ensures
        r == json_int(s@, key@),
{
    let v: Vec<char> = chars(s);
    number_at(v.as_slice(), key)
}

// ── session transcripts ─────────────────────────────────────────────────────

/// What marks a subagent's line.
pub const SIDECHAIN: &'static str = "\"isSidechain\":true";

/// What a model stands behind.
pub const MODEL_KEY: &'static str = "\"model\":\"";

/// What an answer's usage stands behind.
pub const USAGE_KEY: &'static str = "\"usage\":{";

/// The model named at the front of `rest`: the text up to the next quote, unless
/// it is empty or a `<…>` placeholder.
pub open spec fn model_at(rest: Seq<char>) -> Option<Seq<char>> {
    let i = text::index_of(rest, '"');
    if 0 < i < rest.len() && rest[0] != '<' {
        Some(rest.take(i))
    } else {
        None
    }
}

/// The last model named in `line` from `i` on, or `best` when there is none.
pub open spec fn model_from(line: Seq<char>, i: int, best: Option<Seq<char>>) -> Option<Seq<char>>
    decreases line.len() - i,
{
    let n = MODEL_KEY@.len() as int;
    match text::find_from(line, MODEL_KEY@, i) {
        Some(k) => if 0 <= i <= k && n > 0 && k + n <= line.len() {
            let found = model_at(line.skip(k + n));
            model_from(
                line,
                k + n,
                if found is Some {
                    found
                } else {
                    best
                },
            )
        } else {
            best
        },
        None => best,
    }
}

/// The model the main session answered with in `line`.
pub open spec fn line_model(line: Seq<char>) -> Option<Seq<char>> {
    if text::has(line, SIDECHAIN@) {
        None
    } else {
        model_from(line, 0, None)
    }
}

/// The model of the last line that names one.
pub open spec fn last_model(lines: Seq<Seq<char>>) -> Option<Seq<char>>
    decreases lines.len(),
{
    if lines.len() == 0 {
        None
    } else if line_model(lines.last()) is Some {
        line_model(lines.last())
    } else {
        last_model(lines.drop_last())
    }
}

fn model_in(line: &[char]) -> (r: Option<String>)
    ensures
        text::opt(r) == line_model(line@),
{
    let side: Vec<char> = chars(SIDECHAIN);
    if contains(line, side.as_slice()) {
        return None;
    }
    proof {
        reveal_strlit("\"model\":\"");
    }
    let key: Vec<char> = chars(MODEL_KEY);
    let n: usize = key.len();
    let len: usize = line.len();
    let mut best: Option<String> = None;
    let mut i: usize = 0;
    loop
        invariant
            !text::has(line@, SIDECHAIN@),
            key@ == MODEL_KEY@,
            n == key@.len(),
            n > 0,
            len == line@.len(),
            i <= len,
            model_from(line@, i as int, text::opt(best)) == model_from(line@, 0, None),
        decreases len - i,
    {
        proof {
            text::lemma_find_from(line@, key@, i as int);
        }
        let k: usize = match find_at(line, key.as_slice(), i) {
            Some(k) => k,
            None => {
                return best;
            },
        };
        let from: usize = k + n;
        let to: usize = index_from(line, '"', from);
        let ghost rest = line@.skip(from as int);
        if from < to && to < len && line[from] != '<' {
            let value: &[char] = range(line, from, to);
            assert(value@ =~= rest.take(to - from));
            best = Some(string(value));
        }
        i = from;
    }
}

/// The model of the last main-session answer in a transcript tail: one JSON
/// object per line, the model in a `"model":"…"` field. Subagent turns land in
/// the same file with their own model and are marked as such; they are skipped,
/// as are the `<…>` placeholders written for messages no model produced.
pub fn last_session_model(s: &str) -> (r: Option<String>)
    ensures
        text::opt(r) == last_model(text::lines(s@)),
{
    let v: Vec<char> = chars(s);
    let rows: Vec<&[char]> = split_lines(v.as_slice());
    let ghost ls: Seq<Seq<char>> = rows@.map_values(|l: &[char]| l@);
    let mut n: usize = rows.len();
    assert(ls.take(n as int) =~= ls);
    while n > 0
        invariant
            n <= rows@.len(),
            ls == rows@.map_values(|l: &[char]| l@),
            ls == text::lines(s@),
            last_model(ls.take(n as int)) == last_model(ls),
        decreases n,
    {
        let line: &[char] = rows[n - 1];
        assert(ls.take(n as int).last() == line@);
        assert(ls.take(n as int).drop_last() =~= ls.take(n - 1));
        let found: Option<String> = model_in(line);
        if found.is_some() {
            return found;
        }
        n -= 1;
    }
    None
}

/// What stands behind the usage of the main session's answer in `line`.
pub open spec fn line_usage(line: Seq<char>) -> Option<Seq<char>> {
    match text::find(line, USAGE_KEY@) {
        Some(k) => if text::has(line, SIDECHAIN@) {
            None
        } else {
            Some(line.skip(k + USAGE_KEY@.len()))
        },
        None => None,
    }
}

/// The usage of the last line that carries one.
pub open spec fn last_usage(lines: Seq<Seq<char>>) -> Option<Seq<char>>
    decreases lines.len(),
{
    if lines.len() == 0 {
        None
    } else if line_usage(lines.last()) is Some {
        line_usage(lines.last())
    } else {
        last_usage(lines.drop_last())
    }
}

/// A usage field; one that is missing counts as zero.
pub open spec fn usage_field(usage: Seq<char>, key: Seq<char>) -> int {
    match json_int(usage, key) {
        Some(n) => n as int,
        None => 0,
    }
}

/// The tokens a usage was billed for as input, held to what fits: the prompt,
/// plus the cache written and read.
pub open spec fn usage_tokens(usage: Seq<char>) -> u64 {
    let sum = usage_field(usage, "input_tokens"@) + usage_field(
        usage,
        "cache_creation_input_tokens"@,
    ) + usage_field(usage, "cache_read_input_tokens"@);
    if sum <= u64::MAX {
        sum as u64
    } else {
        u64::MAX
    }
}

/// The tokens of the last line that carries a usage.
pub open spec fn tokens_in(lines: Seq<Seq<char>>) -> Option<u64> {
    match last_usage(lines) {
        Some(usage) => Some(usage_tokens(usage)),
        None => None,
    }
}

proof fn lemma_digits_push(s: Seq<char>)
    ensures
        digits_len(s.push('\r')) == digits_len(s),
        0 <= digits_len(s) <= s.len(),
    decreases s.len(),
{
    if s.len() > 0 && '0' <= s[0] <= '9' {
        assert(s.push('\r').skip(1) =~= s.skip(1).push('\r'));
        lemma_digits_push(s.skip(1));
    }
}

proof fn lemma_int_push(s: Seq<char>, key: Seq<char>)
    ensures
        json_int(s.push('\r'), key) == json_int(s, key),
{
    let needle = quoted(key).push(':');
    text::lemma_find_push(s, '\r', needle, 0);
    text::lemma_find_from(s, needle, 0);
    if let Some(k) = text::find(s, needle) {
        let rest = s.skip(k + needle.len());
        assert(s.push('\r').skip(k + needle.len()) =~= rest.push('\r'));
        text::lemma_trim_start_push(rest, '\r');
        let t = text::trim_start(rest);
        lemma_digits_push(t);
        if t.len() == 0 {
            assert(t =~= Seq::empty());
        } else {
            assert(t.push('\r').take(digits_len(t)) =~= t.take(digits_len(t)));
        }
    }
}

proof fn lemma_usage_push(s: Seq<char>)
    ensures
        tokens_in(seq![s.push('\r')]) == tokens_in(seq![s]),
{
    reveal_strlit("\"isSidechain\":true");
    reveal_strlit("\"usage\":{");
    let t = s.push('\r');
    text::lemma_find_push(s, '\r', SIDECHAIN@, 0);
    text::lemma_find_push(s, '\r', USAGE_KEY@, 0);
    text::lemma_find_from(s, USAGE_KEY@, 0);
    lemma_last_usage_first(t, Seq::empty());
    lemma_last_usage_first(s, Seq::empty());
    assert(seq![t] + Seq::<Seq<char>>::empty() =~= seq![t]);
    assert(seq![s] + Seq::<Seq<char>>::empty() =~= seq![s]);
    if let Some(k) = text::find(s, USAGE_KEY@) {
        let usage = s.skip(k + USAGE_KEY@.len());
        assert(t.skip(k + USAGE_KEY@.len()) =~= usage.push('\r'));
        lemma_int_push(usage, "input_tokens"@);
        lemma_int_push(usage, "cache_creation_input_tokens"@);
        lemma_int_push(usage, "cache_read_input_tokens"@);
    }
}

proof fn lemma_last_usage_first(first: Seq<char>, lines: Seq<Seq<char>>)
    ensures
        last_usage(seq![first] + lines) == if last_usage(lines) is Some {
            last_usage(lines)
        } else {
            line_usage(first)
        },
    decreases lines.len(),
{
    let all = seq![first] + lines;
    if lines.len() == 0 {
        assert(all.drop_last() =~= Seq::empty());
        assert(last_usage(all.drop_last()) is None);
        assert(all.last() == first);
    } else {
        assert(all.last() == lines.last());
        assert(all.drop_last() =~= seq![first] + lines.drop_last());
        lemma_last_usage_first(first, lines.drop_last());
    }
}

/// Only the main session's answers count: a line of a subagent, or one without a usage,
/// appended to the text changes nothing of the reading.
pub proof fn other_lines_change_no_usage(s: Seq<char>, line: Seq<char>)
    requires
        !line.contains('\n'),
        text::has(line, SIDECHAIN@) || !text::has(line, USAGE_KEY@),
    ensures
        tokens_in(text::lines(s + seq!['\n'] + line)) == tokens_in(text::lines(s)),
    decreases s.len(),
{
    let w = s + seq!['\n'] + line;
    let i = text::index_of(s, '\n');
    text::lemma_index_of(s, '\n');
    text::lemma_index_is(w, '\n', i);
    if i < s.len() {
        let head = text::without_cr(s.take(i));
        assert(w.take(i) =~= s.take(i));
        assert(w.skip(i + 1) =~= s.skip(i + 1) + seq!['\n'] + line);
        other_lines_change_no_usage(s.skip(i + 1), line);
        lemma_last_usage_first(head, text::lines(w.skip(i + 1)));
        lemma_last_usage_first(head, text::lines(s.skip(i + 1)));
    } else {
        assert(w.take(i) =~= s);
        assert(w.skip(i + 1) =~= line);
        assert forall|j: int| 0 <= j < line.len() implies line[j] != '\n' by {
            assert(line.contains(line[j]));
        }
        text::lemma_index_is(line, '\n', line.len() as int);
        let head = text::without_cr(s);
        let rest = text::lines(line);
        assert(line_usage(line) is None);
        assert(last_usage(rest) is None) by {
            if line.len() > 0 {
                assert(rest =~= seq![line]);
                assert(rest.drop_last() =~= Seq::empty());
                assert(last_usage(rest.drop_last()) is None);
            }
        }
        lemma_last_usage_first(head, rest);
        assert(tokens_in(text::lines(w)) == tokens_in(seq![head])) by {
            lemma_last_usage_first(head, Seq::empty());
            assert(seq![head] + Seq::<Seq<char>>::empty() =~= seq![head]);
        }
        if s.len() > 0 && s.last() == '\r' {
            assert(s =~= head.push('\r'));
            lemma_usage_push(head);
        }
        if s.len() == 0 {
            reveal_strlit("\"usage\":{");
            lemma_last_usage_first(head, Seq::empty());
            assert(seq![head] + Seq::<Seq<char>>::empty() =~= seq![head]);
            assert(line_usage(head) is None);
        }
    }
}

fn field(usage: &[char], key: &str) -> (n: u64)
    ensures
        n == usage_field(usage@, key@),
{
    match number_at(usage, key) {
        Some(n) => n,
        None => 0,
    }
}

/// The context the last main-session answer in a transcript tail was billed
/// for: its `usage` — prompt tokens, plus the cache written and read, which is
/// the rest of the conversation. The first of each field after `"usage":{` is
/// the answer's own.
pub fn last_session_usage(s: &str) -> (r: Option<u64>)
    ensures
        r == tokens_in(text::lines(s@)),
{
    let v: Vec<char> = chars(s);
    let rows: Vec<&[char]> = split_lines(v.as_slice());
    let ghost ls: Seq<Seq<char>> = rows@.map_values(|l: &[char]| l@);
    let side: Vec<char> = chars(SIDECHAIN);
    let key: Vec<char> = chars(USAGE_KEY);
    let mut n: usize = rows.len();
    assert(ls.take(n as int) =~= ls);
    while n > 0
        invariant
            n <= rows@.len(),
            ls == rows@.map_values(|l: &[char]| l@),
            ls == text::lines(s@),
            side@ == SIDECHAIN@,
            key@ == USAGE_KEY@,
            last_usage(ls.take(n as int)) == last_usage(ls),
        decreases n,
    {
        let line: &[char] = rows[n - 1];
        assert(ls.take(n as int).last() == line@);
        assert(ls.take(n as int).drop_last() =~= ls.take(n - 1));
        proof {
            text::lemma_find_from(line@, key@, 0);
        }
        if let Some(k) = find_at(line, key.as_slice(), 0) {
            if !contains(line, side.as_slice()) {
                let len: usize = line.len();
                let usage: &[char] = range(line, k + key.len(), len);
                assert(usage@ =~= line@.skip(k + key@.len()));
                let sum: u128 = field(usage, "input_tokens") as u128 + field(
                    usage,
                    "cache_creation_input_tokens",
                ) as u128 + field(usage, "cache_read_input_tokens") as u128;
                return Some(
                    if sum <= u64::MAX as u128 {
                        sum as u64
                    } else {
                        u64::MAX
                    },
                );
            }
        }
        n -= 1;
    }
    None
}

/// The context window a session has by default.
pub const CONTEXT_WINDOW: u64 = 200_000;

/// The one a `[1m]` model carries.
pub const WIDE_CONTEXT_WINDOW: u64 = 1_000_000;

/// Whether an optional text names a wide model.
pub open spec fn names_wide(s: Option<Seq<char>>) -> bool {
    s is Some && text::has(s->Some_0, "[1m]"@)
}

/// Context usage of a session that used `used` tokens, in the window of the
/// model it was launched or configured with. A usage past the narrow window is
/// proof of the wide one whatever the configuration says.
pub fn session_context(used: u64, launched: Option<&str>, configured: Option<&str>) -> (c: Context)
    ensures
        c.used == used,
        c.max == Some(
            if names_wide(labels::opt_str(launched)) || names_wide(labels::opt_str(configured))
                || used > CONTEXT_WINDOW {
                WIDE_CONTEXT_WINDOW
            } else {
                CONTEXT_WINDOW
            },
        ),
        c.max == Some(1_000_000u64) || c.max == Some(200_000u64),
        used > 200_000 ==> c.max == Some(1_000_000u64),
{
    let mark: Vec<char> = chars("[1m]");
    let launched: bool = match launched {
        Some(s) => {
            let v: Vec<char> = chars(s);
            contains(v.as_slice(), mark.as_slice())
        },
        None => false,
    };
    let configured: bool = match configured {
        Some(s) => {
            let v: Vec<char> = chars(s);
            contains(v.as_slice(), mark.as_slice())
        },
        None => false,
    };
    let wide: bool = launched || configured || used > CONTEXT_WINDOW;
    Context {
        used,
        max: Some(
            if wide {
                WIDE_CONTEXT_WINDOW
            } else {
                CONTEXT_WINDOW
            },
        ),
    }
}

/// The status a session registration reports at wall-clock moment `wall`.
pub open spec fn reported(json: Seq<char>, wall: u128) -> Option<Status> {
    match json_text(json, "status"@) {
        Some(status) => if status == "idle"@ {
            match json_int(json, "statusUpdatedAt"@) {
                Some(ms) => Some(Status::Idle((ms * 1_000_000) as u128)),
                None => Some(Status::Idle(wall)),
            }
        } else {
            Some(Status::Busy)
        },
        None => None,
    }
}

/// The status in a session registration: anything but `idle` is busy, and an
/// idle one says since when (milliseconds since the epoch), or else it is since
/// `wall`.
pub fn session_status(json: &str, wall: u128) -> (r: Option<Status>)
    ensures
        r == reported(json@, wall),
{
    let status: String = match json_string(json, "status") {
        Some(s) => s,
        None => {
            return None;
        },
    };
    let status: Vec<char> = chars(status.as_str());
    if is(status.as_slice(), "idle") {
        match json_number(json, "statusUpdatedAt") {
            Some(ms) => Some(Status::Idle(ms as u128 * 1_000_000)),
            None => Some(Status::Idle(wall)),
        }
    } else {
        Some(Status::Busy)
    }
}

/// A folder's name among the session transcripts: every character that is not an
/// ASCII letter or digit is a `-`.
pub open spec fn slug_text(cwd: Seq<char>) -> Seq<char> {
    cwd.map_values(
        |c: char|
            if ('a' <= c <= 'z') || ('A' <= c <= 'Z') || ('0' <= c <= '9') {
                c
            } else {
                '-'
            },
    )
}

/// The name of the transcript folder of the project in `cwd`.
pub fn slug(cwd: &str) -> (t: String)
    ensures
        t@ == slug_text(cwd@),
{
    let v: Vec<char> = chars(cwd);
    let mut t: String = String::new();
    let mut i: usize = 0;
    while i < v.len()
        invariant
            v@ == cwd@,
            i <= v@.len(),
            t@ == slug_text(cwd@.take(i as int)),
        decreases v.len() - i,
    {
        let c: char = v[i];
        let keep: bool = ('a' <= c && c <= 'z') || ('A' <= c && c <= 'Z') || ('0' <= c && c <= '9');
        t.push(
            if keep {
                c
            } else {
                '-'
            },
        );
        i += 1;
        assert(t@ =~= slug_text(cwd@.take(i as int)));
    }
    assert(cwd@.take(i as int) =~= cwd@);
    t
}

/// The folder `dir` lies in, if any.
pub open spec fn base_of(dir: Seq<char>) -> Seq<char> {
    match folder_above(dir) {
        Some(up) => up,
        None => Seq::empty(),
    }
}

/// The client's configuration folder, given the folder of its transcripts.
pub fn config_base(dir: &str) -> (t: String)
    ensures
        t@ == base_of(dir@),
{
    let v: Vec<char> = chars(dir);
    match above(v.as_slice()) {
        Some(up) => string(up.as_slice()),
        None => {
            let t: String = String::new();
            assert(t@ =~= Seq::empty());
            t
        },
    }
}

/// `{home}/{dir}/{slug of cwd}`: where the transcripts of the project in `cwd`
/// are kept.
pub fn project_path(home: &str, dir: &str, cwd: &str) -> (t: String)
    ensures
        t@ == home@ + seq!['/'] + dir@ + seq!['/'] + slug_text(cwd@),
{
    let mut t: String = text::copy(home);
    t.push('/');
    push_str(&mut t, dir);
    t.push('/');
    let s: String = slug(cwd);
    push_str(&mut t, s.as_str());
    assert(t@ =~= home@ + seq!['/'] + dir@ + seq!['/'] + slug_text(cwd@));
    t
}

/// `{home}/{base}/sessions/{pid}.json`: where a client registers its session.
pub fn registration_path(home: &str, dir: &str, pid: u32) -> (t: String)
    ensures
        t@ == home@ + seq!['/'] + base_of(dir@) + "/sessions/"@ + text::decimal(pid as nat)
            + ".json"@,
{
    let mut t: String = text::copy(home);
    t.push('/');
    let base: String = config_base(dir);
    push_str(&mut t, base.as_str());
    push_str(&mut t, "/sessions/");
    push_decimal(&mut t, pid as u64);
    push_str(&mut t, ".json");
    assert(t@ =~= home@ + seq!['/'] + base_of(dir@) + "/sessions/"@ + text::decimal(
        pid as nat,
    ) + ".json"@);
    t
}

/// How much of a file's tail is read, each try wider than the last. Transcript
/// lines are unbounded, so a fixed tail can hold nothing but the line written
/// after the answer being looked for.
pub fn tail_sizes() -> (v: Vec<u64>)
    ensures
        v@ == seq![65_536u64, 1_048_576, 8_388_608],
{
    let v: Vec<u64> = vec![65_536, 1_048_576, 8_388_608];
    assert(v@ =~= seq![65_536u64, 1_048_576, 8_388_608]);
    v
}

/// The whole lines of a tail of a file `len` bytes long, of which at most `max`
/// were read.
pub open spec fn whole_lines(bytes: Seq<u8>, len: u64, max: u64) -> Seq<char> {
    let s = lossy(bytes);
    if len > max {
        let i = text::index_of(s, '\n');
        if i < s.len() {
            s.skip(i + 1)
        } else {
            Seq::empty()
        }
    } else {
        s
    }
}

/// The text of a tail of a file `len` bytes long, of which at most `max` were
/// read. The line the tail starts inside is dropped: it is not whole, and a cut
/// line can lose the very marker that disqualifies it.
pub fn tail_text(bytes: &[u8], len: u64, max: u64) -> (t: String)
    ensures
        t@ == whole_lines(bytes@, len, max),
{
    let s: String = from_utf8_lossy(bytes);
    whole_text(s.as_str(), len > max)
}

/// `s` without the line it starts inside, when it starts inside one.
pub fn whole_text(s: &str, cut: bool) -> (t: String)
    ensures
        t@ == (if cut {
            let i = text::index_of(s@, '\n');
            if i < s@.len() {
                s@.skip(i + 1)
            } else {
                Seq::empty()
            }
        } else {
            s@
        }),
{
    let v: Vec<char> = chars(s);
    if !cut {
        return string(v.as_slice());
    }
    let i: usize = index_from(v.as_slice(), '\n', 0);
    assert(v@.skip(0) =~= v@);
    if i < v.len() {
        let rest: &[char] = range(v.as_slice(), i + 1, v.len());
        assert(rest@ =~= v@.skip(i + 1));
        string(rest)
    } else {
        String::new()
    }
}

/// Should a wider tail be tried? Not once the answer is found, and not past the
/// whole file: a wider read would find nothing new.
pub fn widen(found: bool, len: u64, max: u64) -> (r: bool)
    ensures
        r == (!found && len > max),
{
    !found && len > max
}

/// The index of the greatest time, the last of equal ones.
pub fn newest(times: &[u128]) -> (r: Option<usize>)
    ensures
        match r {
            Some(i) => i < times@.len() && (forall|k: int|
                0 <= k < times@.len() ==> #[trigger] times@[k] <= times@[i as int]) && (forall|k: int|
                i < k < times@.len() ==> #[trigger] times@[k] < times@[i as int]),
            None => times@.len() == 0,
        },
{
    if times.len() == 0 {
        return None;
    }
    let mut best: usize = 0;
    let mut i: usize = 1;
    while i < times.len()
        invariant
            best < i <= times@.len(),
            forall|k: int| 0 <= k < i ==> #[trigger] times@[k] <= times@[best as int],
            forall|k: int| best < k < i ==> #[trigger] times@[k] < times@[best as int],
        decreases times.len() - i,
    {
        if times[i] >= times[best] {
            best = i;
        }
        i += 1;
    }
    Some(best)
}

// ── logs ────────────────────────────────────────────────────────────────────

/// `s` without the quotes around it.
pub open spec fn unquoted_start(s: Seq<char>) -> Seq<char>
    decreases s.len(),
{
    if s.len() > 0 && s[0] == '"' {
        unquoted_start(s.skip(1))
    } else {
        s
    }
}

/// `s` without the quotes behind it.
pub open spec fn unquoted_end(s: Seq<char>) -> Seq<char>
    decreases s.len(),
{
    if s.len() > 0 && s.last() == '"' {
        unquoted_end(s.drop_last())
    } else {
        s
    }
}

/// The last `key=value` in a log.
pub open spec fn logged(log: Seq<char>, key: Seq<char>) -> Option<Seq<char>> {
    let needle = key.push('=');
    match text::rfind(log, needle) {
        Some(i) => {
            let rest = log.skip(i + needle.len());
            nonempty(Some(unquoted_end(unquoted_start(rest.take(word_len(rest))))))
        },
        None => None,
    }
}

fn unquote(s: &[char]) -> (t: &[char])
    ensures
        t@ == unquoted_end(unquoted_start(s@)),
{
    let mut from: usize = 0;
    assert(s@.skip(0) =~= s@);
    while from < s.len() && s[from] == '"'
        invariant
            from <= s@.len(),
            unquoted_start(s@.skip(from as int)) == unquoted_start(s@),
        decreases s.len() - from,
    {
        assert(s@.skip(from as int).skip(1) =~= s@.skip(from + 1));
        from += 1;
    }
    let ghost rest = s@.skip(from as int);
    let mut to: usize = s.len();
    assert(s@.subrange(from as int, to as int) =~= rest);
    while to > from && s[to - 1] == '"'
        invariant
            from <= to <= s@.len(),
            unquoted_end(s@.subrange(from as int, to as int)) == unquoted_end(rest),
        decreases to,
    {
        assert(s@.subrange(from as int, to as int).drop_last() =~= s@.subrange(
            from as int,
            to - 1,
        ));
        to -= 1;
    }
    range(s, from, to)
}

/// The value of the last `key=value` token in a log's text, without the quotes
/// around it.
pub fn log_value(log: &str, key: &str) -> (t: Option<String>)
    ensures
        text::opt(t) == logged(log@, key@),
{
    let v: Vec<char> = chars(log);
    let mut needle: Vec<char> = chars(key);
    needle.push('=');
    match rfind_at(v.as_slice(), needle.as_slice()) {
        Some(i) => {
            assert(v.len() == v@.len());
            let from: usize = i + needle.len();
            let to: usize = white_from(v.as_slice(), from);
            let token: &[char] = range(v.as_slice(), from, to);
            assert(token@ =~= v@.skip(from as int).take(to - from));
            let value: &[char] = unquote(token);
            if value.len() == 0 {
                None
            } else {
                Some(string(value))
            }
        },
        None => None,
    }
}

/// The last `key=value` in the tail of a log file.
pub fn log_tail_value(bytes: &[u8], key: &str) -> (t: Option<String>)
    ensures
        text::opt(t) == logged(lossy(bytes@), key@),
{
    let s: String = from_utf8_lossy(bytes);
    log_value(s.as_str(), key)
}

// ── opencode ────────────────────────────────────────────────────────────────

/// What SQLite's `json_extract` finds at a path of a JSON text, when it is an
/// integer.
pub uninterp spec fn json_extract(json: Seq<char>, path: Seq<char>) -> Option<i64>;

/// `rusqlite::Connection::query_row` of `json_extract(json, path)` on an
/// in-memory database: the integer at the path, a function of the two texts;
/// `None` when there is none there.
#[verifier::external_body]
fn sqlite_extract(json: &str, path: &str) -> (r: Option<i64>)
    ensures
        r == json_extract(json@, path@),
{
    rusqlite::Connection::open_in_memory()
        .and_then(|db| db.query_row("SELECT json_extract(?1, ?2)", [json, path], |row| row.get(0)))
        .ok()
        .flatten()
}

/// Where opencode's model catalog keeps a model's context limit.
pub open spec fn limit_path(provider: Seq<char>, id: Seq<char>) -> Seq<char> {
    "$.\""@ + provider + "\".models.\""@ + id + "\".limit.context"@
}

/// Whether a name can stand in a JSON path.
pub open spec fn addressable(name: Seq<char>) -> bool {
    forall|i: int| 0 <= i < name.len() ==> #[trigger] name[i] != '"'
}

fn is_addressable(name: &[char]) -> (r: bool)
    ensures
        r == addressable(name@),
{
    let i: usize = index_from(name, '"', 0);
    i == name.len()
}

/// The path of a model's context limit in opencode's model catalog; `None` when
/// the names cannot stand in a path. The catalog nests models under their
/// provider, and the same model is listed again under every aggregator reselling
/// it, so the entry is addressed by path, never searched for.
pub fn context_limit_path(provider: &str, id: &str) -> (t: Option<String>)
    ensures
        text::opt(t) == (if addressable(provider@) && addressable(id@) {
            Some(limit_path(provider@, id@))
        } else {
            None
        }),
{
    let p: Vec<char> = chars(provider);
    let m: Vec<char> = chars(id);
    if !is_addressable(p.as_slice()) || !is_addressable(m.as_slice()) {
        return None;
    }
    let mut t: String = text::copy("$.\"");
    push_chars(&mut t, p.as_slice());
    push_str(&mut t, "\".models.\"");
    push_chars(&mut t, m.as_slice());
    push_str(&mut t, "\".limit.context");
    Some(t)
}

/// The last limit read from the catalog: the catalog's modification time, the
/// path it was read at, and what was there.
pub struct LimitCache {
    pub at: u128,
    pub path: String,
    pub limit: Option<u64>,
}

/// The limit an integer in the catalog stands for.
pub open spec fn limit_of(n: Option<i64>) -> Option<u64> {
    match n {
        Some(n) => if n >= 0 {
            Some(n as u64)
        } else {
            None
        },
        None => None,
    }
}

/// A limit read earlier from a catalog that has not changed since.
pub fn cached_limit(cache: &Option<LimitCache>, modified: u128, path: &str) -> (r: Option<
    Option<u64>,
>)
    ensures
        r == (match *cache {
            Some(c) => if c.at == modified && c.path@ == path@ {
                Some(c.limit)
            } else {
                None
            },
            None => None,
        }),
{
    match cache {
        Some(c) => if c.at == modified && text::same_str(c.path.as_str(), path) {
            Some(c.limit)
        } else {
            None
        },
        None => None,
    }
}

/// The context limit at `path` of a catalog just read, kept for `cached_limit` until
/// the catalog changes.
pub fn opencode_context_limit(
    cache: &mut Option<LimitCache>,
    modified: u128,
    path: &str,
    catalog: &str,
) -> (limit: Option<u64>)
    ensures
        limit == limit_of(json_extract(catalog@, path@)),
        *final(cache) matches Some(c) && c.at == modified && c.path@ == path@ && c.limit == limit,
{
    let limit: Option<u64> = match sqlite_extract(catalog, path) {
        Some(n) => if n >= 0 {
            Some(n as u64)
        } else {
            None
        },
        None => None,
    };
    *cache = Some(LimitCache { at: modified, path: text::copy(path), limit });
    limit
}

// ── git ─────────────────────────────────────────────────────────────────────

/// How many bytes a character takes in UTF-8.
pub open spec fn utf8_len(c: char) -> int {
    if c as u32 <= 0x7f {
        1
    } else if c as u32 <= 0x7ff {
        2
    } else if c as u32 <= 0xffff {
        3
    } else {
        4
    }
}

/// The characters of `s` that take exactly `n` bytes, when a character ends
/// there.
pub open spec fn first_bytes(s: Seq<char>, n: int) -> Option<Seq<char>>
    decreases s.len(),
{
    if n == 0 {
        Some(Seq::empty())
    } else if n < 0 || s.len() == 0 {
        None
    } else {
        match first_bytes(s.skip(1), n - utf8_len(s[0])) {
            Some(r) => Some(seq![s[0]] + r),
            None => None,
        }
    }
}

/// What the footer shows for a repository's HEAD.
pub open spec fn head_text(head: Seq<char>) -> Seq<char> {
    let h = text::trim(head);
    if text::starts(h, "ref: refs/heads/"@) {
        h.skip("ref: refs/heads/"@.len() as int)
    } else {
        match first_bytes(h, 7) {
            Some(hash) => seq!['@'] + hash,
            None => seq!['@', '?'],
        }
    }
}

fn short_hash(s: &[char], n: usize) -> (k: Option<usize>)
    requires
        n <= 7,
    ensures
        match k {
            Some(k) => k <= s@.len() && first_bytes(s@, n as int) == Some(s@.take(k as int)),
            None => first_bytes(s@, n as int) is None,
        },
    decreases s@.len(),
{
    if n == 0 {
        assert(s@.take(0) =~= Seq::empty());
        return Some(0);
    }
    if s.len() == 0 {
        return None;
    }
    let c: char = s[0];
    let w: usize = if c as u32 <= 0x7f {
        1
    } else if c as u32 <= 0x7ff {
        2
    } else if c as u32 <= 0xffff {
        3
    } else {
        4
    };
    let rest: &[char] = range(s, 1, s.len());
    assert(rest@ =~= s@.skip(1));
    if w > n {
        proof {
            lemma_first_bytes_negative(rest@, n - w);
        }
        return None;
    }
    match short_hash(rest, n - w) {
        Some(k) => {
            assert(seq![c] + rest@.take(k as int) =~= s@.take(k + 1));
            Some(k + 1)
        },
        None => None,
    }
}

proof fn lemma_first_bytes_negative(s: Seq<char>, n: int)
    requires
        n < 0,
    ensures
        first_bytes(s, n) is None,
{
}

/// The active branch in a repository's HEAD file; a detached one shows the short
/// commit hash.
pub fn head_label(head: &str) -> (t: String)
    ensures
        t@ == head_text(head@),
{
    let v: Vec<char> = chars(head);
    let h: &[char] = trimmed(v.as_slice());
    let prefix: Vec<char> = chars("ref: refs/heads/");
    if at(h, prefix.as_slice(), 0) {
        let branch: &[char] = range(h, prefix.len(), h.len());
        assert(branch@ =~= h@.skip(prefix@.len() as int));
        return string(branch);
    }
    let mut t: String = String::new();
    t.push('@');
    match short_hash(h, 7) {
        Some(k) => {
            let hash: &[char] = range(h, 0, k);
            assert(hash@ =~= h@.take(k as int));
            push_chars(&mut t, hash);
        },
        None => t.push('?'),
    }
    assert(t@ =~= head_text(head@));
    t
}

/// The folder a worktree's `.git` file points to.
pub fn gitdir(link: &str) -> (t: Option<String>)
    ensures
        text::opt(t) == (if text::starts(link@, "gitdir:"@) {
            Some(text::trim(link@.skip("gitdir:"@.len() as int)))
        } else {
            None
        }),
{
    let v: Vec<char> = chars(link);
    let prefix: Vec<char> = chars("gitdir:");
    if at(v.as_slice(), prefix.as_slice(), 0) {
        let rest: &[char] = range(v.as_slice(), prefix.len(), v.len());
        assert(rest@ =~= v@.skip(prefix@.len() as int));
        Some(string(trimmed(rest)))
    } else {
        None
    }
}

/// The folder a path lies in; the root, and a path of no name, lie in none.
pub open spec fn folder_above(p: Seq<char>) -> Option<Seq<char>> {
    let name = labels::bare_path(p);
    if name.len() == 0 {
        None
    } else {
        match text::rfind(name, seq!['/']) {
            Some(i) => {
                let up = labels::bare_path(name.take(i));
                if up.len() == 0 {
                    Some(seq!['/'])
                } else {
                    Some(up)
                }
            },
            None => Some(Seq::empty()),
        }
    }
}

/// A path and the folders it lies in, nearest first.
pub open spec fn ancestry(p: Seq<char>) -> Seq<Seq<char>>
    decreases p.len(),
{
    match folder_above(p) {
        Some(up) => if up.len() < p.len() {
            seq![p] + ancestry(up)
        } else {
            seq![p]
        },
        None => seq![p],
    }
}

fn bare_len(p: &[char]) -> (n: usize)
    ensures
        n <= p@.len(),
        p@.take(n as int) == labels::bare_path(p@),
{
    let mut n: usize = p.len();
    assert(p@.take(n as int) =~= p@);
    while (n > 0 && p[n - 1] == '/') || (n > 1 && p[n - 1] == '.' && p[n - 2] == '/')
        invariant
            n <= p@.len(),
            labels::bare_path(p@.take(n as int)) == labels::bare_path(p@),
        decreases n,
    {
        assert(p@.take(n as int).drop_last() =~= p@.take(n - 1));
        n -= 1;
    }
    n
}

fn above(p: &[char]) -> (v: Option<Vec<char>>)
    ensures
        (match v {
            Some(v) => Some(v@),
            None => None,
        }) == folder_above(p@),
{
    let n: usize = bare_len(p);
    let name: &[char] = range(p, 0, n);
    assert(name@ =~= p@.take(n as int));
    if n == 0 {
        return None;
    }
    let mut v: Vec<char> = Vec::new();
    let slash: Vec<char> = vec!['/'];
    assert(slash@ =~= seq!['/']);
    match rfind_at(name, slash.as_slice()) {
        Some(i) => {
            let up: &[char] = range(name, 0, i);
            assert(up@ =~= name@.take(i as int));
            let m: usize = bare_len(up);
            if m == 0 {
                v.push('/');
                assert(v@ =~= seq!['/']);
            } else {
                extend(&mut v, range(up, 0, m));
                assert(v@ =~= up@.take(m as int));
            }
        },
        None => {
            assert(v@ =~= Seq::empty());
        },
    }
    Some(v)
}

/// The folders to look for a repository in: `dir` itself and those it lies in, nearest
/// first.
pub fn ancestors(dir: &str) -> (v: Vec<String>)
    ensures
        text::texts(v@) == ancestry(dir@),
{
    let mut v: Vec<String> = Vec::new();
    let mut p: Vec<char> = chars(dir);
    assert(text::texts(v@) + ancestry(p@) =~= ancestry(dir@));
    loop
        invariant
            text::texts(v@) + ancestry(p@) == ancestry(dir@),
        decreases p@.len(),
    {
        let ghost was = text::texts(v@);
        v.push(string(p.as_slice()));
        assert(text::texts(v@) =~= was + seq![p@]);
        match above(p.as_slice()) {
            Some(up) => {
                if up.len() >= p.len() {
                    return v;
                }
                assert(text::texts(v@) + ancestry(up@) =~= was + ancestry(p@));
                p = up;
            },
            None => {
                return v;
            },
        }
    }
}

// ── what is made of the answers ─────────────────────────────────────────────

/// The label of an agent: the first model found, else the client's own name.
pub fn model_label(comm: &str, found: Option<String>) -> (t: String)
    ensures
        t@ == (match found {
            Some(model) => model@,
            None => comm@,
        }),
{
    match found {
        Some(model) => model,
        None => text::copy(comm),
    }
}

/// The transcript file of a registered session, by its registration; `None` when
/// the client registered nothing, and the newest transcript stands in. A registered
/// session is the only answer, even before its transcript exists: the newest file
/// then belongs to another session.
pub fn registered_transcript(registration: Option<&str>) -> (t: Option<String>)
    ensures
        text::opt(t) == transcript_of(labels::opt_str(registration)),
{
    match registration {
        Some(json) => match json_string(json, "sessionId") {
            Some(id) => {
                let mut t: String = id;
                push_str(&mut t, ".jsonl");
                Some(t)
            },
            None => None,
        },
        None => None,
    }
}

/// The transcript file a registration names.
pub open spec fn transcript_of(registration: Option<Seq<char>>) -> Option<Seq<char>> {
    match registration {
        Some(json) => match json_text(json, "sessionId"@) {
            Some(id) => Some(id + ".jsonl"@),
            None => None,
        },
        None => None,
    }
}

/// The provider and the model in opencode's account of a session's model.
pub open spec fn catalog_ids(model: Seq<char>) -> Option<(Seq<char>, Seq<char>)> {
    match (json_text(model, "providerID"@), json_text(model, "id"@)) {
        (Some(provider), Some(id)) => Some((provider, id)),
        _ => None,
    }
}

/// The path in opencode's model catalog of the context limit of a session's model.
pub open spec fn limit_path_of(model: Seq<char>) -> Option<Seq<char>> {
    match catalog_ids(model) {
        Some((provider, id)) => if addressable(provider) && addressable(id) {
            Some(limit_path(provider, id))
        } else {
            None
        },
        None => None,
    }
}

/// The path in opencode's model catalog of the context limit of a session's model,
/// as opencode's message store describes it.
pub fn session_limit_path(model: &str) -> (t: Option<String>)
    ensures
        text::opt(t) == limit_path_of(model@),
{
    match (json_string(model, "providerID"), json_string(model, "id")) {
        (Some(provider), Some(id)) => context_limit_path(provider.as_str(), id.as_str()),
        _ => None,
    }
}

// ── what is read of a process ───────────────────────────────────────────────

/// Whether a climb from parent to parent goes on past a process: it has a parent, which
/// is not the first process of the machine.
pub open spec fn goes_on(parent: Option<u32>) -> bool {
    match parent {
        Some(p) => p > 1,
        None => false,
    }
}

/// Whether a climb comes to `target` at its step `k`.
pub open spec fn comes_to(parents: Seq<Option<u32>>, target: u32, k: int) -> bool {
    &&& 0 <= k < parents.len()
    &&& parents[k] == Some(target)
    &&& forall|j: int| 0 <= j < k ==> goes_on(#[trigger] parents[j])
}

/// A process descends from another when a climb from parent to parent comes to it, in so
/// many steps as are allowed.
pub proof fn descending_is_being_climbed_to(parents: Seq<Option<u32>>, target: u32, left: nat)
    ensures
        descends(parents, target, left) <==> exists|k: int|
            0 <= k < left && #[trigger] comes_to(parents, target, k),
        CLIMB == 64,
    decreases left,
{
    if left > 0 && parents.len() > 0 {
        let rest = parents.skip(1);
        descending_is_being_climbed_to(rest, target, (left - 1) as nat);
        if parents[0] == Some(target) {
            assert(comes_to(parents, target, 0));
        } else if goes_on(parents[0]) {
            if descends(parents, target, left) {
                let k = choose|k: int| 0 <= k < left - 1 && #[trigger] comes_to(rest, target, k);
                assert(parents[k + 1] == rest[k]);
                assert forall|j: int| 0 <= j < k + 1 implies goes_on(#[trigger] parents[j]) by {
                    if j > 0 {
                        assert(rest[j - 1] == parents[j]);
                    }
                }
                assert(comes_to(parents, target, k + 1));
            }
            if exists|k: int| 0 <= k < left && #[trigger] comes_to(parents, target, k) {
                let k = choose|k: int| 0 <= k < left && #[trigger] comes_to(parents, target, k);
                assert(k > 0);
                assert(rest[k - 1] == parents[k]);
                assert forall|j: int| 0 <= j < k - 1 implies goes_on(#[trigger] rest[j]) by {
                    assert(rest[j] == parents[j + 1]);
                }
                assert(comes_to(rest, target, k - 1));
            }
        } else {
            assert forall|k: int| 0 <= k < left implies !#[trigger] comes_to(parents, target, k) by {
                if k > 0 && comes_to(parents, target, k) {
                    assert(goes_on(parents[0]));
                }
            }
        }
    }
}

/// The words of a text are what white space parts: the first is what stands before it,
/// the next ones are those of the rest.
pub proof fn words_are_parted_by_white_space(
    lead: Seq<char>,
    w: Seq<char>,
    gap: Seq<char>,
    rest: Seq<char>,
    n: nat,
)
    requires
        text::blank(lead),
        text::blank(gap),
        gap.len() > 0,
        w.len() > 0,
        forall|i: int| 0 <= i < w.len() ==> !text::white(#[trigger] w[i]),
    ensures
        word(lead, n) is None,
        word(lead + w, 0) == Some(w),
        word(lead + w + gap + rest, 0) == Some(w),
        word(lead + w + gap + rest, n + 1) == word(rest, n),
{
    let none = Seq::<char>::empty();
    text::lemma_trim_start_blank(lead, none);
    assert(lead + none =~= lead);
    text::lemma_trim_start_blank(lead, w);
    lemma_word_len(w, w.len() as int);
    assert(w.take(w.len() as int) =~= w);
    let t = w + gap + rest;
    assert(lead + w + gap + rest =~= lead + t);
    text::lemma_trim_start_blank(lead, t);
    assert(t[0] == w[0]);
    assert(t[w.len() as int] == gap[0]);
    lemma_word_len(t, w.len() as int);
    assert(t.take(w.len() as int) =~= w);
    assert(t.skip(w.len() as int) =~= gap + rest);
    text::lemma_trim_start_blank(gap, rest);
    assert(word(lead + t, n + 1) == word(t.skip(word_len(t)), n));
}

/// The fields of a process's status come behind its name, which stands in parentheses
/// and may hold anything, parentheses too: the last one closes it.
pub proof fn the_fields_come_behind_the_name(head: Seq<char>, fields: Seq<char>, n: nat)
    requires
        !fields.contains(')'),
    ensures
        stat_word(head + seq![')'] + seq![' '] + fields, n) == word(fields, n),
        !head.contains(')') ==> stat_word(head, n) is None,
{
    let tail = seq![' '] + fields;
    let s = head + seq![')'] + tail;
    assert(head + seq![')'] + seq![' '] + fields =~= s);
    assert forall|i: int| head.len() < i implies !#[trigger] text::stands_at(s, seq![')'], i) by {
        if text::stands_at(s, seq![')'], i) {
            assert(s.subrange(i, i + 1)[0] == s[i]);
            if i == head.len() + 1 {
                assert(s[i] == ' ');
            } else {
                assert(s[i] == fields[i - head.len() - 2]);
                assert(fields.contains(fields[i - head.len() - 2]));
            }
        }
    }
    text::the_last_occurrence_is_found(head, seq![')'], tail);
    assert(s.skip((head.len() + 2) as int) =~= fields);
    if !head.contains(')') {
        assert forall|i: int| !#[trigger] text::stands_at(head, seq![')'], i) by {
            if text::stands_at(head, seq![')'], i) {
                assert(head.subrange(i, i + 1)[0] == head[i]);
            }
        }
        lemma_rfind_none(head, seq![')'], head.len() as int + 1);
    }
}

proof fn lemma_rfind_none(s: Seq<char>, needle: Seq<char>, to: int)
    requires
        forall|i: int| !#[trigger] text::stands_at(s, needle, i),
    ensures
        text::rfind_before(s, needle, to) is None,
    decreases to,
{
    if to > 0 {
        lemma_rfind_none(s, needle, to - 1);
    }
}

/// A number written out is read as that number, as far as it is allowed to go.
pub proof fn a_number_reads_back(n: u32, max: int)
    ensures
        number(text::decimal(n as nat), max) == if n <= max {
            Some(n)
        } else {
            None
        },
        number(seq!['-'] + text::decimal(n as nat), max) is None,
{
    text::decimal_reads_back(n as nat);
    let d = text::decimal(n as nat);
    assert('0' <= d[0] <= '9');
    let m = seq!['-'] + d;
    assert(m[0] == '-');
}

/// The process group a terminal belongs to is the eighth field of its shell's status,
/// the sixth behind the name; the shell itself there, or nobody, means that nothing
/// runs in the foreground.
pub proof fn the_foreground_is_who_holds_the_terminal(
    head: Seq<char>,
    fields: Seq<char>,
    fg: u32,
    shell: u32,
)
    requires
        !fields.contains(')'),
        word(fields, 5) == Some(text::decimal(fg as nat)),
        fg <= i32::MAX,
    ensures
        foreground(head + seq![')'] + seq![' '] + fields, shell) == if fg == 0 || fg == shell {
            None
        } else {
            Some(fg)
        },
{
    the_fields_come_behind_the_name(head, fields, 5);
    a_number_reads_back(fg, i32::MAX as int);
}

/// A zero byte ends an argument or an entry; what follows is taken apart alike.
pub proof fn zeros_part_the_pieces(piece: Seq<u8>, rest: Seq<u8>)
    requires
        !piece.contains(0),
    ensures
        zero_split(piece) == seq![piece],
        zero_split(piece + seq![0u8] + rest) == seq![piece] + zero_split(rest),
{
    assert forall|k: int| 0 <= k < piece.len() implies piece[k] != 0 by {
        assert(piece.contains(piece[k]));
    }
    lemma_zero_at(piece, piece.len() as int);
    let s = piece + seq![0u8] + rest;
    lemma_zero_at(s, piece.len() as int);
    assert(s.take(piece.len() as int) =~= piece);
    assert(s.skip((piece.len() + 1) as int) =~= rest);
}

/// A command line is its arguments with a space between each two, whatever empty ones
/// stand among them.
pub proof fn arguments_are_joined_by_spaces(before: Seq<Seq<u8>>, piece: Seq<u8>, after: Seq<Seq<u8>>)
    requires
        piece.len() > 0,
    ensures
        spaced(seq![piece]) == lossy(piece),
        before.len() > 0 && before.last().len() > 0 ==> spaced(before.push(piece)) == spaced(before)
            + seq![' '] + lossy(piece),
        spaced(before + seq![Seq::<u8>::empty()] + after) == spaced(before + after),
    decreases after.len(),
{
    reveal_with_fuel(spaced, 2);
    reveal_with_fuel(has_piece, 2);
    assert(seq![piece].drop_last() =~= Seq::<Seq<u8>>::empty());
    assert(before.push(piece).drop_last() =~= before);
    lemma_spaced_empty(before, after);
}

proof fn lemma_spaced_empty(before: Seq<Seq<u8>>, after: Seq<Seq<u8>>)
    ensures
        spaced(before + seq![Seq::<u8>::empty()] + after) == spaced(before + after),
        has_piece(before + seq![Seq::<u8>::empty()] + after) == has_piece(before + after),
    decreases after.len(),
{
    let with = before + seq![Seq::<u8>::empty()] + after;
    if after.len() == 0 {
        assert(with.drop_last() =~= before);
        assert(before + after =~= before);
    } else {
        assert(with.drop_last() =~= before + seq![Seq::<u8>::empty()] + after.drop_last());
        assert((before + after).drop_last() =~= before + after.drop_last());
        lemma_spaced_empty(before, after.drop_last());
    }
}

/// The value of a variable is what stands behind its name and the equals sign, in the
/// first entry that begins with them.
pub proof fn a_variable_is_what_its_entry_says(
    before: Seq<Seq<u8>>,
    name: Seq<char>,
    value: Seq<char>,
    after: Seq<Seq<u8>>,
)
    requires
        forall|i: int|
            0 <= i < before.len() ==> entry_value(#[trigger] before[i], name + seq!['=']) is None,
    ensures
        first_value(
            before + seq![vstd::utf8::encode_utf8(name + seq!['='] + value)] + after,
            name + seq!['='],
        ) == Some(value),
        first_value(before, name + seq!['=']) is None,
    decreases before.len(),
{
    let entry = vstd::utf8::encode_utf8(name + seq!['='] + value);
    let all = before + seq![entry] + after;
    let prefix = name + seq!['='];
    if before.len() == 0 {
        vstd::utf8::encode_utf8_valid_utf8(name + seq!['='] + value);
        vstd::utf8::encode_utf8_decode_utf8(name + seq!['='] + value);
        let s = name + seq!['='] + value;
        assert(s.subrange(0, 0 + prefix.len() as int) =~= prefix);
        assert(s.skip(prefix.len() as int) =~= value);
        assert(all[0] == entry);
    } else {
        let rest = before.skip(1);
        assert forall|i: int| 0 <= i < rest.len() implies entry_value(
            #[trigger] rest[i],
            name + seq!['='],
        ) is None by {
            assert(rest[i] == before[i + 1]);
        }
        a_variable_is_what_its_entry_says(rest, name, value, after);
        assert(all[0] == before[0]);
        assert(all.skip(1) =~= rest + seq![entry] + after);
    }
}

/// An entry for another name is no entry for this one.
pub proof fn other_variables_are_other_entries(name: Seq<char>, other: Seq<char>, value: Seq<char>)
    requires
        name != other,
        !name.contains('='),
        !other.contains('='),
    ensures
        entry_value(
            vstd::utf8::encode_utf8(other + seq!['='] + value),
            name + seq!['='],
        ) is None,
{
    let s = other + seq!['='] + value;
    let p = name + seq!['='];
    vstd::utf8::encode_utf8_valid_utf8(s);
    vstd::utf8::encode_utf8_decode_utf8(s);
    if text::starts(s, p) {
        let t = s.subrange(0, p.len() as int);
        assert(t == p);
        if name.len() < other.len() {
            assert(t[name.len() as int] == '=');
            assert(other.contains(other[name.len() as int]));
        } else if other.len() < name.len() {
            assert(t[other.len() as int] == '=');
            assert(name[other.len() as int] == '=');
            assert(name.contains(name[other.len() as int]));
        } else {
            assert forall|i: int| 0 <= i < name.len() implies name[i] == other[i] by {
                assert(t[i] == s[i]);
                assert(t[i] == p[i]);
            }
            assert(name =~= other);
        }
    }
}

// ── what is read of an agent's files ────────────────────────────────────────

proof fn lemma_key_shift(a: Seq<char>, b: Seq<char>, needle: Seq<char>, from: int)
    requires
        0 <= from,
    ensures
        key_from(a + b, needle, a.len() + from) == match key_from(b, needle, from) {
            Some(k) => Some(k + a.len()),
            None => None,
        },
    decreases b.len() - from,
{
    text::lemma_find_moved(a, b, needle, from);
    match text::find_from(b, needle, from) {
        Some(k) => {
            text::lemma_find_from(b, needle, from);
            if needle.len() > 0 {
                assert((a + b).skip(a.len() + k + needle.len()) =~= b.skip(k + needle.len()));
                lemma_key_shift(a, b, needle, k + needle.len());
            }
        },
        None => {},
    }
}

/// A text field is read as what stands between its quotes, whatever white space stands
/// around the colon.
pub proof fn a_text_field_is_read(
    before: Seq<char>,
    key: Seq<char>,
    gap: Seq<char>,
    next: Seq<char>,
    value: Seq<char>,
    after: Seq<char>,
)
    requires
        text::blank(gap),
        text::blank(next),
        value.len() > 0,
        !value.contains('"'),
        text::none_before(
            before + (seq!['"'] + key + seq!['"']) + (gap + seq![':'] + next + seq!['"'] + value
                    + seq!['"'] + after),
                seq!['"'] + key + seq!['"'],
            before.len() as int,
        ),
    ensures
        json_text(
            before + (seq!['"'] + key + seq!['"']) + (gap + seq![':'] + next + seq!['"'] + value
                + seq!['"'] + after),
            key,
        ) == Some(value),
{
    let needle = seq!['"'] + key + seq!['"'];
    let tail = gap + seq![':'] + next + seq!['"'] + value + seq!['"'] + after;
    let s = before + needle + tail;
    text::the_first_occurrence_is_found(before, needle, tail);
    assert(s.skip((before.len() + needle.len()) as int) =~= tail);
    let behind = next + seq!['"'] + value + seq!['"'] + after;
    assert(tail =~= gap + (seq![':'] + behind));
    text::lemma_trim_start_blank(gap, seq![':'] + behind);
    assert((seq![':'] + behind)[0] == ':');
    assert((seq![':'] + behind).skip(1) =~= behind);
    let quote = seq!['"'] + value + seq!['"'] + after;
    assert(behind =~= next + quote);
    text::lemma_trim_start_blank(next, quote);
    assert(quote[0] == '"');
    let rest = quote.skip(1);
    assert(rest =~= value + seq!['"'] + after);
    assert forall|j: int| 0 <= j < value.len() implies rest[j] != '"' by {
        assert(value.contains(value[j]));
    }
    text::lemma_index_is(rest, '"', value.len() as int);
    assert(rest.take(value.len() as int) =~= value);
    assert(key_from(s, needle, 0) == Some(before.len() as int));
}

/// A key's name that no colon follows is a value that looks like it, and is passed over.
pub proof fn a_value_like_the_key_is_passed_over(before: Seq<char>, key: Seq<char>, after: Seq<char>)
    requires
        text::none_before(
            before + (seq!['"'] + key + seq!['"']) + after,
                seq!['"'] + key + seq!['"'],
            before.len() as int,
        ),
        text::trim_start(after).len() == 0 || text::trim_start(after)[0] != ':',
    ensures
        json_text(before + (seq!['"'] + key + seq!['"']) + after, key) == json_text(after, key),
{
    let needle = seq!['"'] + key + seq!['"'];
    let s = before + needle + after;
    text::the_first_occurrence_is_found(before, needle, after);
    assert(s.skip((before.len() + needle.len()) as int) =~= after);
    let a = before + needle;
    assert(a + after =~= s);
    lemma_key_shift(a, after, needle, 0);
    lemma_key_bound(after, needle, 0);
    assert(key_from(s, needle, 0) == key_from(s, needle, a.len() as int));
    match key_from(after, needle, 0) {
        Some(k) => {
            assert(s.skip(k + a.len() + needle.len()) =~= after.skip(k + needle.len()));
        },
        None => {},
    }
}

proof fn lemma_key_bound(s: Seq<char>, needle: Seq<char>, from: int)
    requires
        0 <= from,
    ensures
        key_from(s, needle, from) matches Some(k) ==> from <= k && k + needle.len() <= s.len(),
    decreases s.len() - from,
{
    text::lemma_find_from(s, needle, from);
    match text::find_from(s, needle, from) {
        Some(k) => {
            if needle.len() > 0 {
                lemma_key_bound(s, needle, k + needle.len());
            }
        },
        None => {},
    }
}

/// A number field is read as the number behind its colon.
pub proof fn a_number_field_is_read(
    before: Seq<char>,
    key: Seq<char>,
    gap: Seq<char>,
    n: u64,
    after: Seq<char>,
)
    requires
        text::blank(gap),
        after.len() == 0 || !('0' <= after[0] <= '9'),
        text::none_before(
            before + (seq!['"'] + key + seq!['"', ':']) + (gap + text::decimal(n as nat)
                    + after),
                seq!['"'] + key + seq!['"', ':'],
            before.len() as int,
        ),
    ensures
        json_int(
            before + (seq!['"'] + key + seq!['"', ':']) + (gap + text::decimal(n as nat) + after),
            key,
        ) == Some(n),
{
    let needle = seq!['"'] + key + seq!['"', ':'];
    let d = text::decimal(n as nat);
    let tail = gap + d + after;
    let s = before + needle + tail;
    assert(quoted(key).push(':') =~= needle);
    text::the_first_occurrence_is_found(before, needle, tail);
    assert(s.skip((before.len() + needle.len()) as int) =~= tail);
    text::decimal_reads_back(n as nat);
    assert('0' <= d[0] <= '9');
    let rest = d + after;
    assert(tail =~= gap + rest);
    text::lemma_trim_start_blank(gap, rest);
    assert(rest[0] == d[0]);
    assert forall|k: int| 0 <= k < d.len() implies '0' <= #[trigger] rest[k] <= '9' by {
        assert(rest[k] == d[k]);
    }
    if after.len() > 0 {
        assert(rest[d.len() as int] == after[0]);
    }
    lemma_digits_len(rest, d.len() as int);
    assert(rest.take(d.len() as int) =~= d);
}

proof fn lemma_model_overlap(line: Seq<char>, k: int, b: int)
    requires
        text::stands_at(line, "\"model\":\""@, k),
        text::stands_at(line, "\"model\":\""@, b),
        k < b < k + 9,
    ensures
        b == k + 8,
{
    reveal_strlit("\"model\":\"");
    let key = "\"model\":\""@;
    let one = line.subrange(k, k + 9);
    let two = line.subrange(b, b + 9);
    assert(one == key && two == key);
    assert(two[0] == one[b - k]);
    assert(b - k == 6 ==> two[1] == one[7]);
}

proof fn lemma_model_last(line: Seq<char>, b: int, i: int, best: Option<Seq<char>>)
    requires
        0 <= i <= b,
        text::stands_at(line, "\"model\":\""@, b),
        !text::stands_at(line, "\"model\":\""@, b - 8),
        forall|j: int| b < j ==> !#[trigger] text::stands_at(line, "\"model\":\""@, j),
        model_at(line.skip(b + 9)) is Some,
    ensures
        model_from(line, i, best) == model_at(line.skip(b + 9)),
    decreases b - i,
{
    reveal_strlit("\"model\":\"");
    let key = "\"model\":\""@;
    text::lemma_find_from(line, key, i);
    let k = text::find_from(line, key, i)->Some_0;
    let found = model_at(line.skip(k + 9));
    if k == b {
        text::lemma_find_from(line, key, b + 9);
        assert(text::find_from(line, key, b + 9) is None);
        assert(model_from(line, b + 9, found) == found);
    } else {
        if b < k + 9 {
            lemma_model_overlap(line, k, b);
        }
        lemma_model_last(
            line,
            b,
            k + 9,
            if found is Some {
                found
            } else {
                best
            },
        );
    }
}

/// The model of a session is the one named last, on the last line of its own that names
/// one; lines of a subagent's, and lines that name none, make no difference.
pub proof fn the_model_that_answered_last_counts(
    lines: Seq<Seq<char>>,
    before: Seq<char>,
    model: Seq<char>,
    after: Seq<char>,
)
    requires
        model.len() > 0,
        !model.contains('"'),
        model[0] != '<',
        forall|j: int|
            before.len() < j || j == before.len() - 8 ==> !#[trigger] text::stands_at(
                before + "\"model\":\""@ + (model + seq!['"'] + after),
                "\"model\":\""@,
                j,
            ),
        !text::has(
            before + "\"model\":\""@ + (model + seq!['"'] + after),
            "\"isSidechain\":true"@,
        ),
    ensures
        last_model(lines.push(before + "\"model\":\""@ + (model + seq!['"'] + after))) == Some(
            model,
        ),
{
    reveal_strlit("\"model\":\"");
    let key = "\"model\":\""@;
    let tail = model + seq!['"'] + after;
    let line = before + key + tail;
    assert(line.subrange(before.len() as int, (before.len() + 9) as int) =~= key);
    assert(line.skip((before.len() + 9) as int) =~= tail);
    assert forall|j: int| 0 <= j < model.len() implies tail[j] != '"' by {
        assert(model.contains(model[j]));
    }
    text::lemma_index_is(tail, '"', model.len() as int);
    assert(tail.take(model.len() as int) =~= model);
    assert(tail[0] == model[0]);
    lemma_model_last(line, before.len() as int, 0, None);
    assert(lines.push(line).last() == line);
}

/// A line of a subagent's, one that names no model, and one whose only model stands in
/// angle brackets, leave the model what it was.
pub proof fn other_lines_change_no_model(lines: Seq<Seq<char>>, line: Seq<char>)
    requires
        ({
            ||| text::has(line, "\"isSidechain\":true"@)
            ||| !text::has(line, "\"model\":\""@)
            ||| forall|j: int| #[trigger]
                text::stands_at(line, "\"model\":\""@, j) ==> j + 9 < line.len() && line[j + 9] == '<'
        }),
    ensures
        last_model(lines.push(line)) == last_model(lines),
{
    reveal_strlit("\"model\":\"");
    assert(lines.push(line).drop_last() =~= lines);
    if !text::has(line, "\"isSidechain\":true"@) {
        text::lemma_find_from(line, "\"model\":\""@, 0);
        lemma_no_model(line, 0);
    }
}

proof fn lemma_no_model(line: Seq<char>, i: int)
    requires
        0 <= i,
        forall|j: int| #[trigger]
            text::stands_at(line, "\"model\":\""@, j) && 0 <= j ==> j + 9 < line.len() && line[j + 9]
                == '<',
    ensures
        model_from(line, i, None) is None,
    decreases line.len() - i,
{
    reveal_strlit("\"model\":\"");
    text::lemma_find_from(line, "\"model\":\""@, i);
    match text::find_from(line, "\"model\":\""@, i) {
        Some(k) => {
            assert(text::stands_at(line, "\"model\":\""@, k));
            assert(line.skip(k + 9)[0] == line[k + 9]);
            lemma_no_model(line, k + 9);
        },
        None => {},
    }
}

/// The context used is that of the last answer of the session's own: all that was put
/// into it, whether it was new, was kept for later, or had been kept.
pub proof fn the_context_is_what_the_last_answer_read(
    lines: Seq<Seq<char>>,
    before: Seq<char>,
    usage: Seq<char>,
    input: u64,
    kept: u64,
    read: u64,
)
    requires
        text::none_before(
            before + "\"usage\":{"@ + usage,
                "\"usage\":{"@,
            before.len() as int,
        ),
        !text::has(before + "\"usage\":{"@ + usage, "\"isSidechain\":true"@),
        json_int(usage, "input_tokens"@) == Some(input),
        json_int(usage, "cache_creation_input_tokens"@) == Some(kept),
        json_int(usage, "cache_read_input_tokens"@) == Some(read),
        input + kept + read <= u64::MAX,
    ensures
        tokens_in(lines.push(before + "\"usage\":{"@ + usage)) == Some(
            (input + kept + read) as u64,
        ),
{
    let line = before + "\"usage\":{"@ + usage;
    text::the_first_occurrence_is_found(before, "\"usage\":{"@, usage);
    assert(line.skip((before.len() + "\"usage\":{"@.len()) as int) =~= usage);
    assert(lines.push(line).last() == line);
}

/// A client that says it is idle is so since the moment it gives, in milliseconds, or
/// since now where it gives none; one that says anything else is busy, and one that says
/// nothing is not heard.
pub proof fn a_client_is_what_it_says(json: Seq<char>, wall: u128, ms: u64)
    ensures
        json_text(json, "status"@) == Some("idle"@) && json_int(json, "statusUpdatedAt"@) == Some(ms)
            ==> reported(json, wall) == Some(Status::Idle((ms * 1_000_000) as u128)),
        json_text(json, "status"@) == Some("idle"@) && json_int(json, "statusUpdatedAt"@) is None
            ==> reported(json, wall) == Some(Status::Idle(wall)),
        json_text(json, "status"@) is Some && json_text(json, "status"@) != Some("idle"@)
            ==> reported(json, wall) == Some(Status::Busy),
        json_text(json, "status"@) is None ==> reported(json, wall) is None,
{
}

/// A folder's slug is as long as its path, letters and digits as they are and a dash in
/// place of everything else.
pub proof fn a_slug_keeps_letters_and_digits(cwd: Seq<char>, i: int)
    requires
        0 <= i < cwd.len(),
    ensures
        slug_text(cwd).len() == cwd.len(),
        ('a' <= cwd[i] <= 'z' || 'A' <= cwd[i] <= 'Z' || '0' <= cwd[i] <= '9') ==> slug_text(cwd)[i]
            == cwd[i],
        !('a' <= cwd[i] <= 'z' || 'A' <= cwd[i] <= 'Z' || '0' <= cwd[i] <= '9') ==> slug_text(cwd)[i]
            == '-',
{
}

/// Of a file whose end alone was read, the line that was cut into is left out; of one
/// read whole, nothing is.
pub proof fn a_line_cut_into_is_left_out(
    bytes: Seq<u8>,
    cut: Seq<char>,
    rest: Seq<char>,
    len: u64,
    max: u64,
)
    requires
        !cut.contains('\n'),
    ensures
        len <= max ==> whole_lines(bytes, len, max) == lossy(bytes),
        len > max && lossy(bytes) == cut + seq!['\n'] + rest ==> whole_lines(bytes, len, max) == rest,
        len > max && lossy(bytes) == cut ==> whole_lines(bytes, len, max).len() == 0,
{
    assert forall|j: int| 0 <= j < cut.len() implies cut[j] != '\n' by {
        assert(cut.contains(cut[j]));
    }
    text::lemma_index_is(cut, '\n', cut.len() as int);
    let s = cut + seq!['\n'] + rest;
    text::lemma_index_is(s, '\n', cut.len() as int);
    assert(s.skip((cut.len() + 1) as int) =~= rest);
}

proof fn lemma_unquoted(s: Seq<char>)
    requires
        s.len() > 0,
        s[0] != '"',
        s.last() != '"',
    ensures
        unquoted_end(unquoted_start(s)) == s,
        unquoted_end(unquoted_start(seq!['"'] + s + seq!['"'])) == s,
{
    reveal_with_fuel(unquoted_start, 2);
    reveal_with_fuel(unquoted_end, 2);
    let q = seq!['"'] + s + seq!['"'];
    let t = s + seq!['"'];
    assert(q.skip(1) =~= t);
    assert(t[0] == s[0]);
    assert(t.drop_last() =~= s);
}

/// The value logged is the one logged last: the word behind the key and its equals sign,
/// without quotes around it.
pub proof fn the_last_value_logged_counts(
    before: Seq<char>,
    key: Seq<char>,
    value: Seq<char>,
    after: Seq<char>,
    in_quotes: bool,
)
    requires
        value.len() > 0,
        value[0] != '"',
        value.last() != '"',
        forall|i: int| 0 <= i < value.len() ==> !text::white(#[trigger] value[i]),
        after.len() == 0 || text::white(after[0]),
        ({
            let written = if in_quotes {
                seq!['"'] + value + seq!['"']
            } else {
                value
            };
            text::none_behind(
                before + (key + seq!['=']) + (written + after),
                key + seq!['='],
                before.len() as int,
            )
        }),
    ensures
        logged(
            before + (key + seq!['=']) + ((if in_quotes {
                seq!['"'] + value + seq!['"']
            } else {
                value
            }) + after),
            key,
        ) == Some(value),
{
    let written = if in_quotes {
        seq!['"'] + value + seq!['"']
    } else {
        value
    };
    let needle = key + seq!['='];
    assert(key.push('=') =~= needle);
    let tail = written + after;
    let s = before + needle + tail;
    text::the_last_occurrence_is_found(before, needle, tail);
    assert(s.skip((before.len() + needle.len()) as int) =~= tail);
    assert forall|k: int| 0 <= k < written.len() implies !text::white(#[trigger] tail[k]) by {
        if in_quotes {
            if 0 < k < written.len() - 1 {
                assert(tail[k] == value[k - 1]);
            }
        } else {
            assert(tail[k] == value[k]);
        }
    }
    if after.len() > 0 {
        assert(tail[written.len() as int] == after[0]);
    }
    lemma_word_len(tail, written.len() as int);
    assert(tail.take(written.len() as int) =~= written);
    lemma_unquoted(value);
}

/// A negative limit is none.
pub proof fn a_limit_is_a_count(n: i64)
    ensures
        n >= 0 ==> limit_of(Some(n)) == Some(n as u64),
        n < 0 ==> limit_of(Some(n)) is None,
        limit_of(None) is None,
{
}

/// A client's transcript is the file named after its session; without a session there is
/// none.
pub proof fn a_transcript_is_named_after_its_session(json: Seq<char>, id: Seq<char>)
    ensures
        json_text(json, "sessionId"@) == Some(id) ==> transcript_of(Some(json)) == Some(
            id + ".jsonl"@,
        ),
        json_text(json, "sessionId"@) is None ==> transcript_of(Some(json)) is None,
        transcript_of(None) is None,
{
}

// ── what is read of a repository ────────────────────────────────────────────

/// A branch is named whole, slashes and all: whatever name stands behind the reference
/// in `HEAD`, it is the label.
pub proof fn a_branch_is_named_whole(branch: Seq<char>)
    requires
        branch.len() > 0,
        !text::white(branch[0]),
        !text::white(branch.last()),
    ensures
        head_text("ref: refs/heads/"@ + branch + seq!['\n']) == branch,
        head_text("ref: refs/heads/"@ + branch) == branch,
{
    reveal_strlit("ref: refs/heads/");
    let p = "ref: refs/heads/"@;
    let s = p + branch;
    let none = Seq::<char>::empty();
    let feed = seq!['\n'];
    assert(text::blank(feed));
    assert(s[0] == 'r');
    assert(s.last() == branch.last());
    text::trimming_takes_the_white_ends(none, s, feed);
    text::trimming_takes_the_white_ends(none, s, none);
    assert(none + s + feed =~= p + branch + feed);
    assert(none + s + none =~= s);
    assert(s.subrange(0, p.len() as int) =~= p);
    assert(s.skip(p.len() as int) =~= branch);
}

proof fn lemma_first_ascii(s: Seq<char>, n: int)
    requires
        0 <= n <= s.len(),
        forall|i: int| 0 <= i < n ==> (#[trigger] s[i]) as u32 <= 0x7f,
    ensures
        first_bytes(s, n) == Some(s.take(n)),
    decreases n,
{
    if n > 0 {
        let rest = s.skip(1);
        assert forall|i: int| 0 <= i < n - 1 implies (#[trigger] rest[i]) as u32 <= 0x7f by {
            assert(rest[i] == s[i + 1]);
        }
        lemma_first_ascii(rest, n - 1);
        assert(s[0] as u32 <= 0x7f);
        assert(seq![s[0]] + rest.take(n - 1) =~= s.take(n));
    } else {
        assert(s.take(0) =~= Seq::<char>::empty());
    }
}

/// A commit checked out by itself is shown by the first seven digits of its name.
pub proof fn a_detached_head_is_a_short_hash(hash: Seq<char>)
    requires
        hash.len() >= 7,
        forall|i: int|
            0 <= i < hash.len() ==> '0' <= #[trigger] hash[i] <= '9' || 'a' <= hash[i] <= 'f',
    ensures
        head_text(hash + seq!['\n']) == seq!['@'] + hash.take(7),
{
    reveal_strlit("ref: refs/heads/");
    let none = Seq::<char>::empty();
    let feed = seq!['\n'];
    assert(text::blank(feed));
    assert('0' <= hash[0] <= '9' || 'a' <= hash[0] <= 'f');
    assert('0' <= hash[hash.len() - 1] <= '9' || 'a' <= hash[hash.len() - 1] <= 'f');
    text::trimming_takes_the_white_ends(none, hash, feed);
    assert(none + hash + feed =~= hash + feed);
    let p = "ref: refs/heads/"@;
    if text::starts(hash, p) {
        assert(hash.subrange(0, p.len() as int)[0] == hash[0]);
    }
    lemma_first_ascii(hash, 7);
}

/// A folder's parent is what stands before the slash in front of its name.
pub proof fn the_folder_above_is_the_path_before(up: Seq<char>, name: Seq<char>)
    requires
        name.len() > 0,
        !name.contains('/'),
        name != seq!['.'],
        labels::bare_path(up) == up,
    ensures
        up.len() > 0 ==> folder_above(up + seq!['/'] + name) == Some(up),
        folder_above(seq!['/'] + name) == Some(seq!['/']),
        folder_above(name) == Some(Seq::<char>::empty()),
        folder_above(seq!['/']) is None,
        ancestry(up + seq!['/'] + name)[0] == up + seq!['/'] + name,
        up.len() > 0 ==> ancestry(up + seq!['/'] + name) == seq![up + seq!['/'] + name] + ancestry(up),
{
    let none = Seq::<char>::empty();
    assert forall|j: int| 0 <= j < name.len() implies name[j] != '/' by {
        assert(name.contains(name[j]));
    }
    lemma_folder_above(up, name);
    lemma_folder_above(none, name);
    assert(none + seq!['/'] + name =~= seq!['/'] + name);
    assert(labels::bare_path(none) =~= none);
    assert(seq!['/'].drop_last() =~= none);
    reveal_with_fuel(labels::bare_path, 2);
    assert(labels::bare_path(seq!['/']) =~= none);
    assert(folder_above(name) == Some(none)) by {
        assert(name.last() != '/');
        if name.len() > 1 {
            assert(name[name.len() - 2] != '/');
        }
        assert(labels::bare_path(name) == name);
        assert forall|i: int| !#[trigger] text::stands_at(name, seq!['/'], i) by {
            if text::stands_at(name, seq!['/'], i) {
                assert(name.subrange(i, i + 1)[0] == name[i]);
            }
        }
        lemma_rfind_none(name, seq!['/'], name.len() as int + 1);
    }
}

proof fn lemma_folder_above(up: Seq<char>, name: Seq<char>)
    requires
        name.len() > 0,
        forall|j: int| 0 <= j < name.len() ==> name[j] != '/',
        name != seq!['.'],
        labels::bare_path(up) == up,
    ensures
        folder_above(up + seq!['/'] + name) == Some(
            if up.len() == 0 {
                seq!['/']
            } else {
                up
            },
        ),
{
    let p = up + seq!['/'] + name;
    assert(p.last() == name[name.len() - 1]);
    if name.len() > 1 {
        assert(p[p.len() - 2] == name[name.len() - 2]);
    } else {
        assert(name[0] != '.') by {
            if name[0] == '.' {
                assert(name =~= seq!['.']);
            }
        }
    }
    assert(labels::bare_path(p) == p);
    assert forall|i: int| up.len() < i implies !#[trigger] text::stands_at(p, seq!['/'], i) by {
        if text::stands_at(p, seq!['/'], i) {
            assert(p.subrange(i, i + 1)[0] == p[i]);
            assert(p[i] == name[i - up.len() - 1]);
        }
    }
    text::the_last_occurrence_is_found(up, seq!['/'], name);
    assert(p.take(up.len() as int) =~= up);
}

/// A command line of two arguments reads as them, a space between; an empty one is none.
pub proof fn a_command_line_reads_as_its_arguments(a: Seq<u8>, b: Seq<u8>)
    requires
        a.len() > 0 && !a.contains(0),
        b.len() > 0 && !b.contains(0),
        lossy(a).len() > 0,
    ensures
        command_line(a + seq![0u8] + b + seq![0u8]) == Some(lossy(a) + seq![' '] + lossy(b)),
        command_line(a + seq![0u8]) == Some(lossy(a)),
        command_line(Seq::empty()) is None,
{
    let none = Seq::<u8>::empty();
    let empty = Seq::<Seq<u8>>::empty();
    zeros_part_the_pieces(a, b + seq![0u8]);
    zeros_part_the_pieces(b, none);
    zeros_part_the_pieces(a, none);
    zeros_part_the_pieces(none, none);
    assert(a + seq![0u8] + b + seq![0u8] =~= a + seq![0u8] + (b + seq![0u8]));
    assert(b + seq![0u8] =~= b + seq![0u8] + none);
    assert(a + seq![0u8] =~= a + seq![0u8] + none);
    let two = seq![a] + (seq![b] + seq![none]);
    let one = seq![a] + seq![none];
    assert(two =~= seq![a, b] + seq![none] + empty);
    assert(seq![a, b] + empty =~= seq![a].push(b));
    assert(one =~= seq![a] + seq![none] + empty);
    assert(seq![a] + empty =~= seq![a]);
    arguments_are_joined_by_spaces(seq![a, b], a, empty);
    arguments_are_joined_by_spaces(seq![a], b, empty);
    arguments_are_joined_by_spaces(seq![a], a, empty);
    assert(seq![a].last().len() > 0);
    assert(seq![none] =~= empty + seq![none] + empty);
    arguments_are_joined_by_spaces(empty, a, empty);
    assert(empty + empty =~= empty);
    assert(spaced(empty) =~= Seq::<char>::empty());
}

/// A model is a wide one when its name says so.
pub proof fn a_wide_model_says_so(before: Seq<char>, after: Seq<char>)
    ensures
        names_wide(Some(before + "[1m]"@ + after)),
        !names_wide(None),
{
    let s = before + "[1m]"@ + after;
    let n = "[1m]"@.len() as int;
    assert(s.subrange(before.len() as int, before.len() + n) =~= "[1m]"@);
    assert(text::stands_at(s, "[1m]"@, before.len() as int));
    text::lemma_find_from(s, "[1m]"@, 0);
}

/// The folder of a client's settings is the one its sessions stand in, and of a path
/// without a folder there is none.
pub proof fn the_base_is_the_folder_above(up: Seq<char>, name: Seq<char>)
    requires
        name.len() > 0,
        !name.contains('/'),
        name != seq!['.'],
        labels::bare_path(up) == up,
        up.len() > 0,
    ensures
        base_of(up + seq!['/'] + name) == up,
        base_of(name).len() == 0,
{
    the_folder_above_is_the_path_before(up, name);
}

/// The limit of a model is looked up by its provider and its name, both as they are named
/// in the description; a name with a quote in it is not looked up.
pub proof fn a_limit_is_looked_up_by_name(model: Seq<char>, provider: Seq<char>, id: Seq<char>)
    requires
        json_text(model, "providerID"@) == Some(provider),
        json_text(model, "id"@) == Some(id),
    ensures
        !provider.contains('"') && !id.contains('"') ==> limit_path_of(model) == Some(
            "$.\""@ + provider + "\".models.\""@ + id + "\".limit.context"@,
        ),
        provider.contains('"') || id.contains('"') ==> limit_path_of(model) is None,
{
    if !provider.contains('"') && !id.contains('"') {
        assert forall|i: int| 0 <= i < provider.len() implies #[trigger] provider[i] != '"' by {
            assert(provider.contains(provider[i]));
        }
        assert forall|i: int| 0 <= i < id.len() implies #[trigger] id[i] != '"' by {
            assert(id.contains(id[i]));
        }
    }
}

/// Each client keeps its files under its own name: what it answered last, then its
/// settings, then the environment say which model it runs.
pub proof fn a_client_is_looked_for_in_its_own_places(name: Seq<char>)
    ensures
        session_places(name) == seq![
            Place::SessionTail("."@ + name + "/projects"@),
            Place::Settings("."@ + name + "/settings.json"@, "model"@),
            Place::EnvPlain("ANTHROPIC_MODEL"@),
        ],
        opencode_places()[0] == Place::OpencodeSelected,
        opencode_places()[1] == Place::EnvJson("OPENCODE_CONFIG_CONTENT"@, "model"@),
        opencode_places()[2] == Place::LogTail(".local/share/opencode/log"@, "llm.model"@),
        opencode_places()[3] == Place::Settings(".config/opencode/opencode.jsonc"@, "model"@),
        opencode_places()[4] == Place::EnvPlain("OPENCODE_MODEL"@),
        opencode_places().len() == 5,
        clients().len() == 3,
        clients()[1] == "openclaude"@ && clients()[2] == "opencode"@,
        "open"@ + clients()[0] == clients()[1],
{
    reveal_strlit("openclaude");
    reveal_strlit("open");
    assert("open"@ + upstream() =~= "openclaude"@);
}

/// The first so many bytes of a text are those of whole characters, or there are none
/// such: each takes what it takes in UTF-8.
pub proof fn characters_are_not_cut_into(s: Seq<char>, c: char, n: int)
    requires
        n > 0,
    ensures
        first_bytes(seq![c] + s, n) == match first_bytes(s, n - (if c as u32 <= 0x7f {
            1int
        } else if c as u32 <= 0x7ff {
            2
        } else if c as u32 <= 0xffff {
            3
        } else {
            4
        })) {
            Some(rest) => Some(seq![c] + rest),
            None => None,
        },
        first_bytes(s, 0) == Some(Seq::<char>::empty()),
        first_bytes(Seq::empty(), n) is None,
{
    assert((seq![c] + s).skip(1) =~= s);
    assert((seq![c] + s)[0] == c);
}

/// A key that stands nowhere has no value, and neither has one whose text is empty; a
/// field that holds no digits holds no number.
pub proof fn a_missing_field_has_no_value(s: Seq<char>, key: Seq<char>)
    requires
        forall|i: int| !#[trigger] text::stands_at(s, quoted(key), i),
    ensures
        json_text(s, key) is None,
        json_int(s, key) is None,
{
    text::lemma_find_from(s, quoted(key), 0);
    let needle = quoted(key).push(':');
    text::lemma_find_from(s, needle, 0);
    if let Some(k) = text::find(s, needle) {
        let t = s.subrange(k, k + needle.len());
        assert(t == needle);
        assert(s.subrange(k, k + quoted(key).len()) =~= quoted(key)) by {
            assert forall|j: int| 0 <= j < quoted(key).len() implies s[k + j] == quoted(key)[j] by {
                assert(t[j] == s[k + j]);
                assert(needle[j] == quoted(key)[j]);
            }
        }
        assert(text::stands_at(s, quoted(key), k));
    }
}

/// What an answer does not say of its context counts as nothing.
pub proof fn what_is_not_said_counts_nothing(usage: Seq<char>)
    ensures
        ({
            let a = json_int(usage, "input_tokens"@);
            let b = json_int(usage, "cache_creation_input_tokens"@);
            let c = json_int(usage, "cache_read_input_tokens"@);
            &&& a is None && b is None && c is None ==> usage_tokens(usage) == 0
            &&& a matches Some(n) ==> (b is None && c is None ==> usage_tokens(usage) == n)
            &&& b matches Some(n) ==> (a is None && c is None ==> usage_tokens(usage) == n)
            &&& c matches Some(n) ==> (a is None && b is None ==> usage_tokens(usage) == n)
        }),
{
}

/// A head too short to be a commit is shown as unknown.
pub proof fn a_short_head_is_unknown(hash: Seq<char>)
    requires
        hash.len() < 7,
        forall|i: int|
            0 <= i < hash.len() ==> '0' <= #[trigger] hash[i] <= '9' || 'a' <= hash[i] <= 'f',
    ensures
        head_text(hash + seq!['\n']) == seq!['@', '?'],
{
    reveal_strlit("ref: refs/heads/");
    let none = Seq::<char>::empty();
    let feed = seq!['\n'];
    assert(text::blank(feed));
    if hash.len() > 0 {
        assert('0' <= hash[0] <= '9' || 'a' <= hash[0] <= 'f');
        assert('0' <= hash[hash.len() - 1] <= '9' || 'a' <= hash[hash.len() - 1] <= 'f');
    }
    text::trimming_takes_the_white_ends(none, hash, feed);
    assert(none + hash + feed =~= hash + feed);
    lemma_too_short(hash, 7);
}

proof fn lemma_too_short(s: Seq<char>, n: int)
    requires
        s.len() < n,
        forall|i: int| 0 <= i < s.len() ==> (#[trigger] s[i]) as u32 <= 0x7f,
    ensures
        first_bytes(s, n) is None,
    decreases s.len(),
{
    if s.len() > 0 {
        let rest = s.skip(1);
        assert forall|i: int| 0 <= i < rest.len() implies (#[trigger] rest[i]) as u32 <= 0x7f by {
            assert(rest[i] == s[i + 1]);
        }
        assert(s[0] as u32 <= 0x7f);
        lemma_too_short(rest, n - 1);
    }
}

/// Nothing is logged under a key that stands nowhere.
pub proof fn what_is_not_logged_has_no_value(log: Seq<char>, key: Seq<char>)
    requires
        forall|i: int| !#[trigger] text::stands_at(log, key.push('='), i),
    ensures
        logged(log, key) is None,
{
    lemma_rfind_none(log, key.push('='), log.len() as int + 1);
}

/// A field without digits behind its colon holds no number, and neither does one with
/// more of them than a number can have.
pub proof fn what_is_no_number_is_not_read(
    before: Seq<char>,
    key: Seq<char>,
    gap: Seq<char>,
    digits: Seq<char>,
    after: Seq<char>,
)
    requires
        text::blank(gap),
        after.len() == 0 || (!('0' <= after[0] <= '9') && !text::white(after[0])),
        digits.len() == 0 || (text::numeral(digits) && text::value(digits) > u64::MAX),
        text::none_before(
            before + (seq!['"'] + key + seq!['"', ':']) + (gap + digits + after),
            seq!['"'] + key + seq!['"', ':'],
            before.len() as int,
        ),
    ensures
        json_int(
            before + (seq!['"'] + key + seq!['"', ':']) + (gap + digits + after),
            key,
        ) is None,
{
    let needle = seq!['"'] + key + seq!['"', ':'];
    let tail = gap + digits + after;
    let s = before + needle + tail;
    assert(quoted(key).push(':') =~= needle);
    text::the_first_occurrence_is_found(before, needle, tail);
    assert(s.skip((before.len() + needle.len()) as int) =~= tail);
    let rest = digits + after;
    assert(tail =~= gap + rest);
    text::lemma_trim_start_blank(gap, rest);
    if digits.len() > 0 {
        assert('0' <= digits[0] <= '9');
        assert(rest[0] == digits[0]);
    } else {
        assert(rest =~= after);
    }
    assert(text::trim_start(rest) == rest);
    assert forall|k: int| 0 <= k < digits.len() implies '0' <= #[trigger] rest[k] <= '9' by {
        assert(rest[k] == digits[k]);
    }
    if after.len() > 0 {
        assert(rest[digits.len() as int] == after[0]);
    }
    lemma_digits_len(rest, digits.len() as int);
    assert(rest.take(digits.len() as int) =~= digits);
}

} // verus!
