//! One shell: what it shows, what was typed into it, the agent running in it,
//! and the auto feature that keeps that agent working.
//!
//! Moments are nanoseconds on a monotonic clock; wall-clock moments are
//! nanoseconds since the Unix epoch.

use tui_term::vt100::Screen;
use vstd::prelude::*;
use crate::keys;
use crate::keys::utf8;
use crate::labels;
use crate::labels::{folder_name, idle_notice, is_shell, PASTE_END, PASTE_START};
use crate::probe;
use crate::probe::{Agent, AgentInfo, Status};
use crate::screen;
use crate::screen::{contents, cursor_position, modes, screen_between, scroll};
use crate::stamp::stale;
use crate::text;
use crate::text::{chars, copy, copy_opt, push_str, same_str, string, trimmed};
use crate::transcript;
use crate::transcript::Meta;

verus! {

/// Silence after which the auto feature nudges a detected agent: no output change
/// for ten minutes means it is waiting rather than working.
pub const IDLE_NUDGE: u64 = 600_000_000_000;

/// How long a nudge mark stays up before the agent's next answer may clear it.
pub const NUDGE_MARK: u64 = 30_000_000_000;

/// The command typed first into an idle agent.
pub const COMPACT_COMMAND: &'static str = "/compact";

/// A compaction is done once the screen changed after the command was typed and
/// has then stood still this long.
pub const COMPACT_SETTLE: u64 = 15_000_000_000;

/// A compaction that never shows a change is not waited on forever.
pub const COMPACT_TIMEOUT: u64 = 300_000_000_000;

/// With the context this full, in percent, an agent that has been idle for
/// `CONTEXT_SETTLE` is compacted without waiting out the full silence — and never
/// twice within `CONTEXT_COMPACT_EVERY`.
pub const CONTEXT_COMPACT_AT: u64 = 70;

pub const CONTEXT_SETTLE: u64 = 60_000_000_000;

pub const CONTEXT_COMPACT_EVERY: u64 = 600_000_000_000;

/// The footer shows the countdown to the next nudge once an agent has been idle
/// this long.
pub const COUNTDOWN_FROM: u64 = 30_000_000_000;

/// An agent off screen that has been idle this long gets a desktop ping: a beat
/// when the client reports its own status, a full minute when only the screen
/// says so.
pub const PING_AFTER_STATUS: u64 = 3_000_000_000;

pub const PING_AFTER_SCREEN: u64 = 60_000_000_000;

/// The activity animation lasts one more second after output settles.
pub const SETTLE: u64 = 1_000_000_000;

/// Output within this window after a resize is the shell repainting its prompt,
/// not real activity.
pub const RESIZE_GRACE: u64 = 1_000_000_000;

/// What is derived from processes and files is refreshed this often.
pub const SAMPLE_EVERY: u64 = 500_000_000;

/// A shell is given this long to come up before a restored command is replayed.
pub const STARTUP: u64 = 250_000_000;

/// One item in a shell's outbound queue. `Settle` is a deliberate gap between two
/// writes: it keeps the application from reading them as a single chunk.
pub enum Out {
    Bytes(Vec<u8>),
    Settle,
}

/// What an `Out` stands for.
pub enum Sent {
    Bytes(Seq<u8>),
    Settle,
}

impl View for Out {
    type V = Sent;

    open spec fn view(&self) -> Sent {
        match *self {
            Out::Bytes(b) => Sent::Bytes(b@),
            Out::Settle => Sent::Settle,
        }
    }
}

/// What a queue of items stands for.
pub open spec fn sent(v: Seq<Out>) -> Seq<Sent> {
    v.map_values(|o: Out| o@)
}

/// The two steps of one nudge, each stamped with when it was typed: the compact
/// command, then — once the compaction has settled — the continue text.
#[derive(Clone, Copy, Debug, PartialEq, Eq, Structural)]
pub enum Nudge {
    Compacting(u64),
    Continued(u64),
}

/// A shell.
pub struct Shell {
    /// Tells the shells of a session apart.
    pub id: u64,
    pub pid: Option<u32>,
    /// Output activity last seen.
    pub seen_activity: u64,
    pub spawned: u64,
    /// When output last arrived.
    pub last_change: u64,
    /// When what is on screen last changed, which is what the auto feature calls
    /// activity: an agent waiting for the user keeps repainting the very same
    /// screen.
    pub last_content_change: u64,
    /// The screen at that moment.
    pub content: Option<String>,
    /// Last resize; repaints right after are not new output.
    pub resized: u64,
    pub animating: bool,
    /// Output arrived while this shell was not on screen.
    pub unseen_output: bool,
    /// Where the auto feature is in nudging this idle stretch.
    pub nudge: Option<Nudge>,
    /// When the auto feature last typed anything here.
    pub last_nudge: Option<u64>,
    /// When the user last typed into this shell.
    pub last_input: u64,
    /// When a due nudge last read whether its agent holds the terminal.
    pub tty_checked: u64,
    /// When the context usage last triggered a compaction.
    pub context_compacted: Option<u64>,
    /// The desktop ping for this idle stretch has gone out, or the stretch was
    /// seen on screen.
    pub pinged: bool,
    pub agent: Option<AgentInfo>,
    /// Working directory, foreground process name and foreground command line, as
    /// last sampled.
    pub cwd: Option<String>,
    pub process: String,
    pub fg_cmd: Option<String>,
    /// Last command the user typed and confirmed with Enter at this shell's
    /// prompt.
    pub last_cmd: Option<String>,
    /// Where the command line being typed begins on screen; `None` between
    /// commands.
    pub cmd_anchor: Option<(u16, u16)>,
    /// Restored command to replay once the shell's first prompt is up.
    pub pending_cmd: Option<String>,
}

/// What a `Shell` stands for.
#[verifier::ext_equal]
pub struct Sh {
    pub id: u64,
    pub pid: Option<u32>,
    pub seen_activity: u64,
    pub spawned: u64,
    pub last_change: u64,
    pub last_content_change: u64,
    pub content: Option<Seq<char>>,
    pub resized: u64,
    pub animating: bool,
    pub unseen_output: bool,
    pub nudge: Option<Nudge>,
    pub last_nudge: Option<u64>,
    pub last_input: u64,
    pub tty_checked: u64,
    pub context_compacted: Option<u64>,
    pub pinged: bool,
    pub agent: Option<Agent>,
    pub cwd: Option<Seq<char>>,
    pub process: Seq<char>,
    pub fg_cmd: Option<Seq<char>>,
    pub last_cmd: Option<Seq<char>>,
    pub cmd_anchor: Option<(u16, u16)>,
    pub pending_cmd: Option<Seq<char>>,
}

impl View for Shell {
    type V = Sh;

    open spec fn view(&self) -> Sh {
        Sh {
            id: self.id,
            pid: self.pid,
            seen_activity: self.seen_activity,
            spawned: self.spawned,
            last_change: self.last_change,
            last_content_change: self.last_content_change,
            content: text::opt(self.content),
            resized: self.resized,
            animating: self.animating,
            unseen_output: self.unseen_output,
            nudge: self.nudge,
            last_nudge: self.last_nudge,
            last_input: self.last_input,
            tty_checked: self.tty_checked,
            context_compacted: self.context_compacted,
            pinged: self.pinged,
            agent: probe::opt_agent(self.agent),
            cwd: text::opt(self.cwd),
            process: self.process@,
            fg_cmd: text::opt(self.fg_cmd),
            last_cmd: text::opt(self.last_cmd),
            cmd_anchor: self.cmd_anchor,
            pending_cmd: text::opt(self.pending_cmd),
        }
    }
}

/// Nanoseconds from `t` to `now`.
pub open spec fn since(t: u64, now: u64) -> int {
    transcript::since(t, now)
}

/// The smaller of two.
pub open spec fn min(a: int, b: int) -> int {
    if a < b {
        a
    } else {
        b
    }
}

// ── what is typed ───────────────────────────────────────────────────────────

/// The bytes of a line typed and confirmed with Enter.
pub open spec fn line_bytes(cmd: Seq<char>) -> Seq<u8> {
    vstd::utf8::encode_utf8(cmd).push(13)
}

/// The bytes of `cmd` and of the Enter that confirms it. For a shell, which reads
/// its terminal a line at a time, one write is enough.
pub fn typed_line(cmd: &str) -> (v: Vec<u8>)
    ensures
        v@ == line_bytes(cmd@),
{
    let mut v: Vec<u8> = utf8(cmd);
    v.push(13);
    v
}

/// `s` between paste markers.
pub open spec fn bracketed(s: Seq<char>) -> Seq<char> {
    PASTE_START@ + s + PASTE_END@
}

/// The bytes of a text handed over in one go: bracketed when the application
/// asked for that.
pub open spec fn paste_bytes(s: Seq<char>, asked: bool) -> Seq<u8> {
    vstd::utf8::encode_utf8(
        if asked {
            bracketed(s)
        } else {
            s
        },
    )
}

/// The bytes of a text handed over in one go: bracketed when the application
/// asked for that.
pub fn pasted_bytes(s: &str, asked: bool) -> (v: Vec<u8>)
    ensures
        v@ == paste_bytes(s@, asked),
{
    if asked {
        let mut t: String = copy(PASTE_START);
        push_str(&mut t, s);
        push_str(&mut t, PASTE_END);
        utf8(t.as_str())
    } else {
        utf8(s)
    }
}

/// A text typed into a full-screen client and confirmed: paste, pause, Enter.
pub open spec fn submitted(s: Seq<char>, asked: bool) -> Seq<Sent> {
    seq![Sent::Bytes(paste_bytes(s, asked)), Sent::Settle, Sent::Bytes(seq![13u8])]
}

/// Type `s` into a full-screen client and confirm it the way a person does:
/// paste, pause, Enter. Three separate items, because that is the whole point —
/// the client must finish taking the text before the confirmation arrives, and
/// the carriage return alone is an Enter that sends the message.
pub fn submit(s: &str, asked: bool) -> (v: Vec<Out>)
    ensures
        sent(v@) == submitted(s@, asked),
{
    let enter: Vec<u8> = vec![13];
    assert(enter@ =~= seq![13u8]);
    let v: Vec<Out> = vec![Out::Bytes(pasted_bytes(s, asked)), Out::Settle, Out::Bytes(enter)];
    assert(sent(v@) =~= submitted(s@, asked));
    v
}

// ── the shell's clocks ──────────────────────────────────────────────────────

/// The agent's own status, unless it predates what happened here since: an `idle`
/// stamped before the user's last keystroke or the last nudge was read before
/// them.
pub open spec fn status_of(s: Sh, now: u64, wall: u128) -> Option<Status> {
    match s.agent {
        None => None,
        Some(agent) => match agent.status {
            None => None,
            Some(Status::Busy) => Some(Status::Busy),
            Some(Status::Idle(at)) => if at + since(newest_event(s), now) < wall {
                None
            } else {
                Some(Status::Idle(at))
            },
        },
    }
}

/// When the user or the auto feature last typed here.
pub open spec fn newest_event(s: Sh) -> u64 {
    match s.last_nudge {
        Some(t) => if t > s.last_input {
            t
        } else {
            s.last_input
        },
        None => s.last_input,
    }
}

/// Nanoseconds from a wall-clock moment to `wall`.
pub open spec fn wall_since(at: u128, wall: u128) -> int {
    if wall >= at {
        wall - at
    } else {
        0
    }
}

/// How long this shell's agent has been waiting for the user — `None` with no
/// agent, or with one that says it is busy. Never longer than since the user last
/// typed here or the auto feature last did: both start the wait over.
pub open spec fn idle_time(s: Sh, now: u64, wall: u128) -> Option<int> {
    if s.agent is None {
        None
    } else {
        let waiting = match status_of(s, now, wall) {
            Some(Status::Busy) => None,
            Some(Status::Idle(at)) => Some(wall_since(at, wall)),
            None => Some(since(s.last_content_change, now)),
        };
        match waiting {
            None => None,
            Some(w) => {
                let typed = min(w, since(s.last_input, now));
                Some(
                    match s.last_nudge {
                        Some(t) => min(typed, since(t, now)),
                        None => typed,
                    },
                )
            },
        }
    }
}

/// Whether the context is full enough for a proactive compaction.
pub open spec fn context_is_full(s: Sh) -> bool {
    match s.agent {
        Some(agent) => match agent.context {
            Some(c) => labels::filled(c, CONTEXT_COMPACT_AT as int),
            None => false,
        },
        None => false,
    }
}

/// Whether a context-triggered compaction is allowed again.
pub open spec fn compact_allowed(s: Sh, now: u64) -> bool {
    match s.context_compacted {
        Some(at) => since(at, now) >= CONTEXT_COMPACT_EVERY,
        None => true,
    }
}

/// Whether a nudge is due: after the full silence — or, with the context nearly
/// full, after the short one.
pub open spec fn nudge_is_due(s: Sh, now: u64, wall: u128) -> bool {
    match idle_time(s, now, wall) {
        Some(idle) => idle >= IDLE_NUDGE || (context_is_full(s) && idle >= CONTEXT_SETTLE
            && compact_allowed(s, now)),
        None => false,
    }
}

/// Time left before the auto feature nudges this agent, once the idle stretch is
/// long enough to be worth showing.
pub open spec fn countdown_of(s: Sh, now: u64, wall: u128) -> Option<int> {
    match idle_time(s, now, wall) {
        Some(idle) => {
            let due = if context_is_full(s) && compact_allowed(s, now) {
                CONTEXT_SETTLE as int
            } else {
                IDLE_NUDGE as int
            };
            if s.nudge is None && idle >= min(COUNTDOWN_FROM as int, due) {
                Some(
                    if due > idle {
                        due - idle
                    } else {
                        0
                    },
                )
            } else {
                None
            }
        },
        None => None,
    }
}

/// Whether the compaction typed at `at` has finished: the screen changed after
/// the command and has then stood still — or the client itself reports idle again
/// since the command — or, failing any change at all, enough time has passed.
pub open spec fn compaction_over(s: Sh, at: u64, now: u64, wall: u128) -> bool {
    let changed = s.last_content_change > at;
    let reported = match s.agent {
        Some(agent) => agent.status matches Some(Status::Idle(idle)) && wall_since(idle, wall)
            < since(at, now),
        None => false,
    };
    ||| changed && since(s.last_content_change, now) >= COMPACT_SETTLE
    ||| reported
    ||| !changed && since(at, now) >= COMPACT_TIMEOUT
}

/// A compaction that still draws is not over, however long it takes: only the client
/// itself can report it done before the screen has stood still.
pub proof fn a_compaction_that_still_draws_is_not_over(s: Sh, at: u64, now: u64, wall: u128)
    requires
        s.last_content_change > at,
        since(s.last_content_change, now) < COMPACT_SETTLE,
        s.agent matches Some(agent) ==> !(agent.status matches Some(Status::Idle(idle))
            && wall_since(idle, wall) < since(at, now)),
    ensures
        !compaction_over(s, at, now, wall),
{
}

impl Shell {
    /// A shell just started in `cwd`, to replay `pending_cmd` once it is up.
    /// Nobody has typed into it yet: the other clocks bound the wait.
    pub fn new(id: u64, pid: Option<u32>, cwd: String, pending_cmd: Option<String>, now: u64) -> (s:
        Shell)
        ensures
            s@ == (Sh {
                id,
                pid,
                seen_activity: 0,
                spawned: now,
                last_change: now,
                last_content_change: now,
                content: None,
                resized: now,
                animating: false,
                unseen_output: false,
                nudge: None,
                last_nudge: None,
                last_input: if now >= IDLE_NUDGE {
                    (now - IDLE_NUDGE) as u64
                } else {
                    now
                },
                tty_checked: if now >= SAMPLE_EVERY {
                    (now - SAMPLE_EVERY) as u64
                } else {
                    now
                },
                context_compacted: None,
                pinged: false,
                agent: None,
                cwd: Some(cwd@),
                process: Seq::empty(),
                fg_cmd: None,
                last_cmd: None,
                cmd_anchor: None,
                pending_cmd: text::opt(pending_cmd),
            }),
            now >= 600_000_000_000 ==> s@.last_input + 600_000_000_000 == now,
            now >= 500_000_000 ==> s@.tty_checked + 500_000_000 == now,
    {
        let s: Shell = Shell {
            id,
            pid,
            seen_activity: 0,
            spawned: now,
            last_change: now,
            last_content_change: now,
            content: None,
            resized: now,
            animating: false,
            unseen_output: false,
            nudge: None,
            last_nudge: None,
            last_input: stale(now, IDLE_NUDGE),
            tty_checked: stale(now, SAMPLE_EVERY),
            context_compacted: None,
            pinged: false,
            agent: None,
            cwd: Some(cwd),
            process: String::new(),
            fg_cmd: None,
            last_cmd: None,
            cmd_anchor: None,
            pending_cmd,
        };
        assert(s@.process =~= Seq::empty());
        s
    }

    /// The agent's own status, unless it predates what happened here since.
    pub fn status(&self, now: u64, wall: u128) -> (r: Option<Status>)
        ensures
            r == status_of(self@, now, wall),
    {
        let agent: &AgentInfo = match &self.agent {
            Some(agent) => agent,
            None => {
                return None;
            },
        };
        let newest: u64 = match self.last_nudge {
            Some(t) => if t > self.last_input {
                t
            } else {
                self.last_input
            },
            None => self.last_input,
        };
        match agent.status {
            Some(Status::Idle(at)) => {
                let elapsed: u128 = now.saturating_sub(newest) as u128;
                if wall > elapsed && at < wall - elapsed {
                    None
                } else {
                    Some(Status::Idle(at))
                }
            },
            other => other,
        }
    }

    /// How long this shell's agent has been waiting for the user.
    pub fn idle_for(&self, now: u64, wall: u128) -> (r: Option<u64>)
        ensures
            match r {
                Some(n) => idle_time(self@, now, wall) == Some(n as int),
                None => idle_time(self@, now, wall) is None,
            },
    {
        if self.agent.is_none() {
            return None;
        }
        let waiting: u128 = match self.status(now, wall) {
            Some(Status::Busy) => {
                return None;
            },
            Some(Status::Idle(at)) => wall.saturating_sub(at),
            None => now.saturating_sub(self.last_content_change) as u128,
        };
        let typed: u64 = now.saturating_sub(self.last_input);
        let idle: u64 = if waiting < typed as u128 {
            waiting as u64
        } else {
            typed
        };
        match self.last_nudge {
            Some(t) => {
                let nudged: u64 = now.saturating_sub(t);
                Some(
                    if idle < nudged {
                        idle
                    } else {
                        nudged
                    },
                )
            },
            None => Some(idle),
        }
    }

    /// Is the context full enough for a proactive compaction?
    pub fn context_full(&self) -> (r: bool)
        ensures
            r == context_is_full(self@),
    {
        match &self.agent {
            Some(agent) => match agent.context {
                Some(c) => c.at_least(CONTEXT_COMPACT_AT),
                None => false,
            },
            None => false,
        }
    }

    /// The usage only drops once the agent has answered again after a compaction,
    /// so a context-triggered one is not repeated too soon.
    pub fn context_compact_allowed(&self, now: u64) -> (r: bool)
        ensures
            r == compact_allowed(self@, now),
    {
        match self.context_compacted {
            Some(at) => now.saturating_sub(at) >= CONTEXT_COMPACT_EVERY,
            None => true,
        }
    }

    /// Is a nudge due?
    pub fn nudge_due(&self, now: u64, wall: u128) -> (r: bool)
        ensures
            r == nudge_is_due(self@, now, wall),
    {
        match self.idle_for(now, wall) {
            Some(idle) => idle >= IDLE_NUDGE || (self.context_full() && idle >= CONTEXT_SETTLE
                && self.context_compact_allowed(now)),
            None => false,
        }
    }

    /// Time left before the auto feature nudges this agent.
    pub fn countdown(&self, now: u64, wall: u128) -> (r: Option<u64>)
        ensures
            match r {
                Some(n) => countdown_of(self@, now, wall) == Some(n as int),
                None => countdown_of(self@, now, wall) is None,
            },
    {
        let idle: u64 = match self.idle_for(now, wall) {
            Some(idle) => idle,
            None => {
                return None;
            },
        };
        if self.nudge.is_some() {
            return None;
        }
        let due: u64 = if self.context_full() && self.context_compact_allowed(now) {
            CONTEXT_SETTLE
        } else {
            IDLE_NUDGE
        };
        let from: u64 = if COUNTDOWN_FROM < due {
            COUNTDOWN_FROM
        } else {
            due
        };
        if idle >= from {
            Some(due.saturating_sub(idle))
        } else {
            None
        }
    }

    /// Has the compaction typed at `at` finished?
    pub fn compaction_done(&self, at: u64, now: u64, wall: u128) -> (r: bool)
        ensures
            r == compaction_over(self@, at, now, wall),
    {
        let changed: bool = self.last_content_change > at;
        let passed: u64 = now.saturating_sub(at);
        let reported: bool = match &self.agent {
            Some(agent) => match agent.status {
                Some(Status::Idle(idle)) => wall.saturating_sub(idle) < passed as u128,
                _ => false,
            },
            None => false,
        };
        (changed && now.saturating_sub(self.last_content_change) >= COMPACT_SETTLE) || reported
            || (!changed && passed >= COMPACT_TIMEOUT)
    }
}

// ── nudging an idle agent ───────────────────────────────────────────────────

/// What the auto feature needs to know before its next step.
#[derive(Clone, Copy, Debug, PartialEq, Eq, Structural)]
pub enum NudgeAsk {
    Nothing,
    /// Whether the agent holds the terminal: anything else in the foreground would
    /// swallow (or run) the text.
    Terminal,
}

/// One look at an idle agent: the state it leaves, and what has to be known next.
pub open spec fn nudge_look(s: Sh, now: u64, wall: u128) -> (Sh, NudgeAsk) {
    match s.nudge {
        None => if nudge_is_due(s, now, wall) && since(s.tty_checked, now) >= SAMPLE_EVERY {
            (Sh { tty_checked: now, ..s }, NudgeAsk::Terminal)
        } else {
            (s, NudgeAsk::Nothing)
        },
        Some(Nudge::Compacting(at)) => {
            let over = compaction_over(s, at, now, wall);
            let late = since(at, now) >= COMPACT_TIMEOUT;
            if !over && !late {
                (s, NudgeAsk::Nothing)
            } else if s.last_input > at {
                // The user came back and has been typing since: type nothing more.
                (Sh { nudge: None, ..s }, NudgeAsk::Nothing)
            } else if over {
                (s, NudgeAsk::Terminal)
            } else if since(s.tty_checked, now) >= SAMPLE_EVERY {
                // It still draws, long after it should have been done: is the agent
                // there at all?
                (Sh { tty_checked: now, ..s }, NudgeAsk::Terminal)
            } else {
                (s, NudgeAsk::Nothing)
            }
        },
        Some(Nudge::Continued(at)) => if since(at, now) >= NUDGE_MARK && s.last_content_change
            > at {
            (Sh { nudge: None, ..s }, NudgeAsk::Nothing)
        } else {
            (s, NudgeAsk::Nothing)
        },
    }
}

/// The step taken once it is known whether the agent holds the terminal: the
/// state it leaves, and what is typed.
pub open spec fn nudge_taken(
    s: Sh,
    held: bool,
    words: Seq<char>,
    asked: bool,
    now: u64,
    wall: u128,
) -> (Sh, Seq<Sent>) {
    match s.nudge {
        None => if held {
            (
                Sh {
                    last_content_change: now,
                    last_nudge: Some(now),
                    context_compacted: if context_is_full(s) {
                        Some(now)
                    } else {
                        s.context_compacted
                    },
                    nudge: Some(Nudge::Compacting(now)),
                    ..s
                },
                submitted(COMPACT_COMMAND@, asked),
            )
        } else {
            (s, Seq::empty())
        },
        Some(Nudge::Compacting(at)) => if !held {
            (Sh { nudge: None, ..s }, Seq::empty())
        } else if compaction_over(s, at, now, wall) {
            (
                Sh {
                    last_content_change: now,
                    last_nudge: Some(now),
                    nudge: Some(Nudge::Continued(now)),
                    ..s
                },
                submitted(words, asked),
            )
        } else {
            (s, Seq::empty())
        },
        Some(Nudge::Continued(_)) => (s, Seq::empty()),
    }
}

/// The wait never runs past the user's last keystroke, nor past the auto feature's own
/// last nudge: both start it over.
pub proof fn the_wait_never_runs_past_what_was_typed(s: Sh, now: u64, wall: u128)
    ensures
        idle_time(s, now, wall) matches Some(d) ==> d <= since(s.last_input, now) && (
        s.last_nudge matches Some(at) ==> d <= since(at, now)),
{
}

/// Typing during the compaction cancels the continue step: the nudge is dropped, and
/// nothing more is asked of it.
pub proof fn typing_cancels_the_continue_step(s: Sh, at: u64, now: u64, wall: u128)
    requires
        s.nudge == Some(Nudge::Compacting(at)),
        s.last_input > at,
        compaction_over(s, at, now, wall),
    ensures
        nudge_look(s, now, wall) == (Sh { nudge: None, ..s }, NudgeAsk::Nothing),
{
}

/// The mark of a nudge always stays up long enough to be seen, whatever the agent
/// shows meanwhile.
pub proof fn a_nudge_is_never_invisible(s: Sh, at: u64, now: u64, wall: u128)
    requires
        s.nudge == Some(Nudge::Continued(at)),
        since(at, now) < NUDGE_MARK,
    ensures
        nudge_look(s, now, wall).0.nudge == s.nudge,
{
}

/// A full context is compacted early once per window at most: until it is over, only
/// the whole silence makes a nudge due.
pub proof fn a_full_context_is_compacted_once_per_window(s: Sh, at: u64, now: u64, wall: u128)
    requires
        s.context_compacted == Some(at),
        since(at, now) < CONTEXT_COMPACT_EVERY,
        idle_time(s, now, wall) matches Some(d) && d < IDLE_NUDGE,
    ensures
        !nudge_is_due(s, now, wall),
{
}

/// Whatever a nudge typed, no further one is due for a while: the context's short
/// silence at least, and — unless the context is full and may be compacted again —
/// the whole ten minutes.
pub proof fn a_nudge_starts_the_silence_over(
    s: Sh,
    held: bool,
    words: Seq<char>,
    asked: bool,
    at: u64,
    clock: u128,
    now: u64,
    wall: u128,
)
    requires
        nudge_taken(s, held, words, asked, at, clock).1.len() > 0,
        at <= now,
    ensures
        ({
            let after = nudge_taken(s, held, words, asked, at, clock).0;
            &&& nudge_is_due(after, now, wall) ==> now - at >= CONTEXT_SETTLE
            &&& nudge_is_due(after, now, wall) && s.nudge is None ==> now - at >= IDLE_NUDGE
        }),
{
}

/// Typing into a shell defers its nudge: none is due within the short silence
/// after a keystroke.
pub proof fn typing_defers_a_nudge(s: Sh, now: u64, wall: u128)
    ensures
        nudge_is_due(s, now, wall) ==> since(s.last_input, now) >= CONTEXT_SETTLE,
        nudge_is_due(s, now, wall) && !context_is_full(s) ==> since(s.last_input, now)
            >= IDLE_NUDGE,
{
}

/// A busy agent is never nudged.
pub proof fn a_busy_agent_is_not_nudged(s: Sh, now: u64, wall: u128)
    requires
        s.agent matches Some(agent) && agent.status == Some(Status::Busy),
    ensures
        !nudge_is_due(s, now, wall),
        countdown_of(s, now, wall) is None,
{
}

/// Nothing is typed into a shell unless its agent holds the terminal.
pub proof fn nothing_is_typed_past_the_agent(
    s: Sh,
    words: Seq<char>,
    asked: bool,
    now: u64,
    wall: u128,
)
    ensures
        nudge_taken(s, false, words, asked, now, wall).1.len() == 0,
{
}

/// The continue text is typed once the compaction is over, and never before.
pub proof fn the_continue_step_waits_for_the_compaction(
    s: Sh,
    at: u64,
    held: bool,
    words: Seq<char>,
    asked: bool,
    now: u64,
    wall: u128,
)
    requires
        s.nudge == Some(Nudge::Compacting(at)),
        !compaction_over(s, at, now, wall),
    ensures
        nudge_taken(s, held, words, asked, now, wall).1.len() == 0,
{
}

/// While the countdown runs, no nudge is due before it reaches zero.
pub proof fn the_countdown_ends_with_the_nudge(s: Sh, now: u64, wall: u128)
    ensures
        countdown_of(s, now, wall) matches Some(left) ==> (nudge_is_due(s, now, wall) <==> left
            == 0),
{
}

impl Shell {
    /// Auto feature: a supported client is running in this shell and the console
    /// has shown the same content for long enough — it is waiting on the user.
    /// What has to be known before the next step, if any is due.
    pub fn nudge_ask(&mut self, now: u64, wall: u128) -> (ask: NudgeAsk)
        ensures
            (final(self)@, ask) == nudge_look(old(self)@, now, wall),
    {
        match self.nudge {
            None => {
                // Reading who holds the terminal is throttled: a due nudge whose
                // agent does not must not cost a read every frame.
                if self.nudge_due(now, wall) && now.saturating_sub(self.tty_checked)
                    >= SAMPLE_EVERY {
                    self.tty_checked = now;
                    return NudgeAsk::Terminal;
                }
            },
            Some(Nudge::Compacting(at)) => {
                let over: bool = self.compaction_done(at, now, wall);
                if over || now.saturating_sub(at) >= COMPACT_TIMEOUT {
                    if self.last_input > at {
                        self.nudge = None;
                    } else if over {
                        return NudgeAsk::Terminal;
                    } else if now.saturating_sub(self.tty_checked) >= SAMPLE_EVERY {
                        self.tty_checked = now;
                        return NudgeAsk::Terminal;
                    }
                }
            },
            Some(Nudge::Continued(at)) => {
                // Never before the mark has been up long enough to be seen.
                if now.saturating_sub(at) >= NUDGE_MARK && self.last_content_change > at {
                    self.nudge = None;
                }
            },
        }
        NudgeAsk::Nothing
    }

    /// The next step of a nudge, given whether the agent holds the terminal: the
    /// compact command first, then — once the compaction has settled — `words`.
    /// Each step starts a new silence, so nothing repeats per frame. An agent that is
    /// gone gets no further step.
    pub fn nudge_step(
        &mut self,
        held: bool,
        words: &str,
        asked: bool,
        now: u64,
        wall: u128,
    ) -> (v: Vec<Out>)
        ensures
            (final(self)@, sent(v@)) == nudge_taken(old(self)@, held, words@, asked, now, wall),
    {
        let none: Vec<Out> = Vec::new();
        assert(sent(none@) =~= Seq::empty());
        match self.nudge {
            None => {
                if !held {
                    return none;
                }
                if self.context_full() {
                    self.context_compacted = Some(now);
                }
                self.last_content_change = now;
                self.last_nudge = Some(now);
                self.nudge = Some(Nudge::Compacting(now));
                submit(COMPACT_COMMAND, asked)
            },
            Some(Nudge::Compacting(at)) => {
                if !held {
                    self.nudge = None;
                    return none;
                }
                if !self.compaction_done(at, now, wall) {
                    return none;
                }
                self.last_content_change = now;
                self.last_nudge = Some(now);
                self.nudge = Some(Nudge::Continued(now));
                submit(words, asked)
            },
            Some(Nudge::Continued(_)) => none,
        }
    }

    /// The half-done nudge is abandoned, and its mark taken down.
    pub fn drop_nudge(&mut self)
        ensures
            final(self)@ == (Sh { nudge: None, ..old(self)@ }),
    {
        self.nudge = None;
    }
}

// ── output ──────────────────────────────────────────────────────────────────

/// The state after a frame in which the output counter stood at `activity`.
pub open spec fn ticked(s: Sh, on_screen: bool, activity: u64, view: Seq<char>, now: u64) -> Sh {
    let fresh = activity != s.seen_activity && since(s.resized, now) > RESIZE_GRACE;
    let compared = fresh && s.agent is Some;
    let changed = fresh && (s.agent is None || s.content != Some(view));
    let last_change = if fresh {
        now
    } else {
        s.last_change
    };
    Sh {
        seen_activity: activity,
        last_change,
        last_content_change: if changed {
            now
        } else {
            s.last_content_change
        },
        content: if compared {
            Some(view)
        } else {
            s.content
        },
        unseen_output: if on_screen {
            false
        } else {
            s.unseen_output || fresh
        },
        animating: since(last_change, now) < SETTLE,
        ..s
    }
}

/// The state after a look at whether a ping is due, and the ping.
pub open spec fn pinged(s: Sh, on_screen: bool, now: u64, wall: u128) -> (Sh, Option<Seq<char>>) {
    let after = if status_of(s, now, wall) is Some {
        PING_AFTER_STATUS
    } else {
        PING_AFTER_SCREEN
    };
    let idle = match idle_time(s, now, wall) {
        Some(d) => d >= after,
        None => false,
    };
    let place = match s.cwd {
        Some(cwd) => labels::folder(cwd),
        None => seq!['?'],
    };
    (
        Sh { pinged: idle, ..s },
        if idle && !s.pinged && !on_screen && s.agent is Some {
            Some(labels::notice(s.agent->Some_0.name, place))
        } else {
            None
        },
    )
}

/// Once a stretch was announced, or seen on screen, nothing more is said of it,
/// however long it lasts and wherever it is looked at from.
pub proof fn a_told_stretch_is_not_told_again(s: Sh, on_screen: bool, now: u64, wall: u128)
    requires
        s.pinged,
    ensures
        pinged(s, on_screen, now, wall).1 is None,
{
}

/// An idle stretch is announced at most once: right after a look, another at the
/// same moment has nothing to say.
pub proof fn an_idle_stretch_pings_once(s: Sh, on_screen: bool, now: u64, wall: u128)
    ensures
        pinged(pinged(s, on_screen, now, wall).0, on_screen, now, wall).1 is None,
{
}

impl Shell {
    /// Has the text on screen changed since this was last asked?
    fn screen_changed(&mut self, screen: &Screen) -> (r: bool)
        ensures
            r == (old(self)@.content != Some(screen::text_of(*screen))),
            final(self)@ == (Sh { content: Some(screen::text_of(*screen)), ..old(self)@ }),
    {
        let view: String = contents(screen);
        let same: bool = match &self.content {
            Some(was) => same_str(was.as_str(), view.as_str()),
            None => false,
        };
        self.content = Some(view);
        !same
    }

    /// Advance the activity animation: it runs while output arrives and stops
    /// shortly after it settles. Output arriving off screen sets the unseen marker;
    /// being on screen clears it.
    pub fn tick_activity(&mut self, on_screen: bool, activity: u64, screen: &Screen, now: u64)
        ensures
            final(self)@ == ticked(
                old(self)@,
                on_screen,
                activity,
                screen::text_of(*screen),
                now,
            ),
    {
        if activity != self.seen_activity {
            self.seen_activity = activity;
            if now.saturating_sub(self.resized) > RESIZE_GRACE {
                self.last_change = now;
                if !on_screen {
                    self.unseen_output = true;
                }
                // The auto feature's silence is content, not bytes, so the screen
                // itself has to be compared — but only where a nudge could ever
                // fire, which is where there is an agent.
                if self.agent.is_none() || self.screen_changed(screen) {
                    self.last_content_change = now;
                }
            }
        }
        if on_screen {
            self.unseen_output = false;
        }
        self.animating = now.saturating_sub(self.last_change) < SETTLE;
        assert(self@ =~= ticked(old(self)@, on_screen, activity, screen::text_of(*screen), now));
    }

    /// Desktop ping: an agent in a shell that is not on screen has gone idle — say
    /// so, once per idle stretch. A stretch that is on screen needs no ping, and is
    /// marked as told so a later tab switch does not ring for old news.
    pub fn tick_ping(&mut self, on_screen: bool, now: u64, wall: u128) -> (ping: Option<String>)
        ensures
            (final(self)@, text::opt(ping)) == pinged(old(self)@, on_screen, now, wall),
    {
        let after: u64 = if self.status(now, wall).is_some() {
            PING_AFTER_STATUS
        } else {
            PING_AFTER_SCREEN
        };
        let idle: bool = match self.idle_for(now, wall) {
            Some(d) => d >= after,
            None => false,
        };
        let told: bool = self.pinged;
        self.pinged = idle;
        if idle && !told && !on_screen {
            if let Some(agent) = &self.agent {
                let place: String = match &self.cwd {
                    Some(cwd) => folder_name(cwd.as_str()),
                    None => {
                        let mut place: String = String::new();
                        place.push('?');
                        assert(place@ =~= seq!['?']);
                        place
                    },
                };
                return Some(idle_notice(agent.name.as_str(), place.as_str()));
            }
        }
        None
    }

    /// The terminal was resized.
    pub fn resize(&mut self, now: u64)
        ensures
            final(self)@ == (Sh { resized: now, ..old(self)@ }),
    {
        self.resized = now;
    }
}

// ── input ───────────────────────────────────────────────────────────────────

/// The state after the user sent `bytes` while the shell's prompt held the
/// terminal, or did not.
pub open spec fn noted(s: Sh, bytes: Seq<u8>, at_prompt: bool, screen: Screen) -> Sh {
    let cursor = screen::grid(screen).cursor;
    if !at_prompt {
        Sh { cmd_anchor: None, ..s }
    } else if bytes.contains(13) || bytes.contains(10) {
        let anchor = match s.cmd_anchor {
            Some(anchor) => anchor,
            None => cursor,
        };
        let line = text::trim(screen::text_between(screen, anchor, cursor));
        Sh {
            cmd_anchor: None,
            last_cmd: if line.len() > 0 {
                Some(line)
            } else {
                s.last_cmd
            },
            ..s
        }
    } else if bytes.contains(3) || bytes.contains(7) {
        Sh { cmd_anchor: None, ..s }
    } else if s.cmd_anchor is None {
        Sh { cmd_anchor: Some(cursor), ..s }
    } else {
        s
    }
}

/// The state after a restored command was looked at, and the bytes to send: the
/// command is typed once output has arrived and the shell is up, and is then the
/// last command.
pub open spec fn flushed(s: Sh, activity: u64, now: u64) -> (Sh, Option<Seq<u8>>) {
    match s.pending_cmd {
        Some(cmd) => if activity > 0 && since(s.spawned, now) > STARTUP {
            (Sh { last_cmd: Some(cmd), pending_cmd: None, ..s }, Some(line_bytes(cmd)))
        } else {
            (s, None)
        },
        None => (s, None),
    }
}

/// Whether a replay is offered: only while a shell owns the terminal and a command
/// has been captured to run again.
pub open spec fn can_replay(s: Sh) -> bool {
    s.last_cmd is Some && labels::shell_process(s.process)
}

fn has_byte(bytes: &[u8], b: u8) -> (r: bool)
    ensures
        r == bytes@.contains(b),
{
    let mut i: usize = 0;
    while i < bytes.len()
        invariant
            i <= bytes@.len(),
            forall|k: int| 0 <= k < i ==> bytes@[k] != b,
        decreases bytes.len() - i,
    {
        if bytes[i] == b {
            assert(bytes@[i as int] == b);
            return true;
        }
        i += 1;
    }
    false
}

impl Shell {
    /// Track input the user sends to the shell so that a replay runs exactly the
    /// last command typed and confirmed with Enter. The command is read straight
    /// off the shell's own echo — correct for fast commands, builtins, pipelines,
    /// history recall and completion alike. Called on the live view, before the
    /// bytes are sent.
    pub fn note_input(&mut self, bytes: &[u8], at_prompt: bool, screen: &Screen)
        ensures
            final(self)@ == noted(old(self)@, bytes@, at_prompt, *screen),
    {
        if !at_prompt {
            self.cmd_anchor = None;  // a program owns the terminal: keys aren't a command line
        } else if has_byte(bytes, 13) || has_byte(bytes, 10) {
            // Enter confirms the line: take the echoed text from prompt to cursor.
            let end: (u16, u16) = cursor_position(screen);
            let anchor: (u16, u16) = match self.cmd_anchor {
                Some(anchor) => anchor,
                None => end,
            };
            self.cmd_anchor = None;
            let line: String = screen_between(screen, anchor, end);
            let line: Vec<char> = chars(line.as_str());
            let line: &[char] = trimmed(line.as_slice());
            if line.len() > 0 {
                self.last_cmd = Some(string(line));
            }
        } else if has_byte(bytes, 3) || has_byte(bytes, 7) {
            self.cmd_anchor = None;  // Ctrl+C and Ctrl+G abandon the line
        } else if self.cmd_anchor.is_none() {
            self.cmd_anchor = Some(cursor_position(screen));  // first key: the prompt's end
        }
        assert(self@ =~= noted(old(self)@, bytes@, at_prompt, *screen));
    }

    /// The user typed `bytes`: the view snaps back to live output, a nudge waits,
    /// and the command being typed is tracked. Returns whether the view moved.
    pub fn typed(&mut self, bytes: &[u8], at_prompt: bool, screen: &mut Screen, now: u64) -> (moved:
        bool)
        ensures
            screen::view_moved(*old(screen), *final(screen)),
            screen::grid(*final(screen)).offset == 0,
            moved == (screen::grid(*old(screen)).offset != 0),
            final(self)@ == noted(
                Sh { last_input: now, ..old(self)@ },
                bytes@,
                at_prompt,
                *final(screen),
            ),
    {
        let moved: bool = scroll(screen, 0) != 0;
        self.last_input = now;
        self.note_input(bytes, at_prompt, screen);
        moved
    }

    /// Is a replay offered? Gates the sidebar button, its hit-test and the key.
    pub fn replayable(&self) -> (r: bool)
        ensures
            r == can_replay(self@),
    {
        self.last_cmd.is_some() && is_shell(self.process.as_str())
    }

    /// Replay the last command observed in this shell: the bytes that type it and
    /// confirm it with Enter. Nothing unless a shell is the foreground process.
    pub fn replay(&self, screen: &mut Screen) -> (v: Option<Vec<u8>>)
        ensures
            can_replay(self@) ==> v is Some && v->Some_0@ == line_bytes(self@.last_cmd->Some_0)
                && screen::view_moved(*old(screen), *final(screen)) && screen::grid(
                *final(screen),
            ).offset == 0,
            !can_replay(self@) ==> v is None && *final(screen) == *old(screen),
    {
        if !self.replayable() {
            return None;
        }
        match &self.last_cmd {
            Some(cmd) => {
                let _ = scroll(screen, 0);
                Some(typed_line(cmd.as_str()))
            },
            None => None,
        }
    }

    /// Replay a restored command once the shell has produced its first prompt
    /// (signalled by any output, plus a small settle), then forget it: the bytes
    /// to send.
    pub fn flush_pending(&mut self, activity: u64, now: u64) -> (v: Option<Vec<u8>>)
        ensures
            (final(self)@, keys::opt_bytes(v)) == flushed(old(self)@, activity, now),
    {
        if activity > 0 && now.saturating_sub(self.spawned) > STARTUP {
            if let Some(cmd) = self.pending_cmd.take() {
                let bytes: Vec<u8> = typed_line(cmd.as_str());
                self.last_cmd = Some(cmd);  // a restored command is replayable at once
                return Some(bytes);
            }
        }
        None
    }

    /// Is the terminal's foreground a shell at its prompt? True when the shell
    /// holds its own process group, or the foreground process is itself a shell.
    pub fn at_prompt(&self, foreground: Option<u32>, comm: Option<&str>) -> (r: bool)
        ensures
            r == (self@.pid is Some && (foreground is None || (comm is Some
                && labels::shell_process(comm->Some_0@)))),
    {
        if self.pid.is_none() {
            return false;
        }
        match foreground {
            None => true,
            Some(_) => match comm {
                Some(comm) => is_shell(comm),
                None => false,
            },
        }
    }

    /// Is this shell's detected agent the process reading the terminal right now?
    /// Its own process group must be the foreground one: that holds for an agent
    /// started through a wrapper, but not for one suspended under a nested shell.
    pub fn agent_has_tty(&self, foreground: Option<u32>, group: Option<u32>) -> (r: bool)
        ensures
            r == (self@.agent is Some && self@.pid is Some && foreground is Some && group
                == foreground),
    {
        if self.agent.is_none() || self.pid.is_none() {
            return false;
        }
        match (foreground, group) {
            (Some(fg), Some(group)) => fg == group,
            _ => false,
        }
    }

    /// Refresh what the sidebar shows and the session keeps: the working
    /// directory, the name of the foreground process (else of the shell's own) and
    /// the foreground command line. A failed read of the directory keeps the last
    /// known one.
    pub fn sampled(
        &mut self,
        cwd: Option<String>,
        comm: Option<String>,
        own: Option<String>,
        fg_cmd: Option<String>,
    )
        ensures
            final(self)@ == (Sh {
                cwd: if cwd is Some {
                    text::opt(cwd)
                } else {
                    old(self)@.cwd
                },
                process: if old(self)@.pid is None {
                    seq!['?']
                } else if comm is Some {
                    comm->Some_0@
                } else if own is Some {
                    own->Some_0@
                } else {
                    seq!['?']
                },
                fg_cmd: if old(self)@.pid is None {
                    None
                } else {
                    text::opt(fg_cmd)
                },
                ..old(self)@
            }),
    {
        if cwd.is_some() {
            self.cwd = cwd;
        }
        let mut unknown: String = String::new();
        unknown.push('?');
        assert(unknown@ =~= seq!['?']);
        if self.pid.is_none() {
            self.process = unknown;
            self.fg_cmd = None;
            return;
        }
        self.process =
        match (comm, own) {
            (Some(comm), _) => comm,
            (None, Some(own)) => own,
            (None, None) => unknown,
        };
        self.fg_cmd = fg_cmd;
    }

    /// Take the latest answer about the agent in this shell. Returns whether the
    /// one that was here has left (or was replaced), which ends its transcript.
    pub fn set_agent(&mut self, agent: Option<AgentInfo>) -> (left: bool)
        ensures
            final(self)@ == (Sh { agent: probe::opt_agent(agent), ..old(self)@ }),
            left == (old(self)@.agent matches Some(was) && (agent is None || agent->Some_0.pid
                != was.pid)),
    {
        let left: bool = match (&self.agent, &agent) {
            (Some(was), Some(now)) => was.pid != now.pid,
            (Some(_), None) => true,
            (None, _) => false,
        };
        self.agent = agent;
        left
    }

    /// What the transcript of the agent in this shell is opened for.
    pub fn log_meta(&self) -> (m: Option<Meta>)
        ensures
            match m {
                Some(m) => self@.agent matches Some(agent) && m.agent@ == agent.name && m.model@
                    == agent.model && m.cwd@ == (match self@.cwd {
                    Some(cwd) => cwd,
                    None => Seq::empty(),
                }) && m.pid == (match self@.pid {
                    Some(pid) => pid,
                    None => 0,
                }),
                None => self@.agent is None,
            },
    {
        match &self.agent {
            Some(agent) => {
                let none: String = String::new();
                assert(none@ =~= Seq::empty());
                Some(
                    Meta {
                        agent: copy(agent.name.as_str()),
                        model: copy(agent.model.as_str()),
                        cwd: match &self.cwd {
                            Some(cwd) => copy(cwd.as_str()),
                            None => none,
                        },
                        pid: match self.pid {
                            Some(pid) => pid,
                            None => 0,
                        },
                    },
                )
            },
            None => None,
        }
    }
}

// ── starting one ────────────────────────────────────────────────────────────

/// Rows of history each terminal keeps.
pub const SCROLLBACK_LINES: usize = 5000;

/// The gap between typing a sentence into a client and confirming it.
pub const SUBMIT_SETTLE: u64 = 500_000_000;

/// What a shell in here says its terminal is.
pub const TERM: &'static str = "xterm-256color";

/// Environment variables that describe the terminal the console was started from.
/// They say nothing true about the emulator a shell in here talks to, so each is
/// cleared before one is started.
pub fn host_terminal_vars() -> (v: Vec<&'static str>)
    ensures
        v@.map_values(|s: &'static str| s@) == seq![
            "VTE_VERSION"@,
            "TERM_PROGRAM"@,
            "TERM_PROGRAM_VERSION"@,
            "COLUMNS"@,
            "LINES"@,
        ],
{
    let v: Vec<&'static str> = vec![
        "VTE_VERSION",
        "TERM_PROGRAM",
        "TERM_PROGRAM_VERSION",
        "COLUMNS",
        "LINES",
    ];
    assert(v@.map_values(|s: &'static str| s@) =~= seq![
        "VTE_VERSION"@,
        "TERM_PROGRAM"@,
        "TERM_PROGRAM_VERSION"@,
        "COLUMNS"@,
        "LINES"@,
    ]);
    v
}

/// The program a shell is: the user's own, else bash. A setting left empty names none.
pub fn default_shell(setting: Option<String>) -> (t: String)
    ensures
        t@ == (match setting {
            Some(s) => if s@.len() > 0 {
                s@
            } else {
                "/bin/bash"@
            },
            None => "/bin/bash"@,
        }),
        t@.len() > 0,
{
    proof {
        reveal_strlit("/bin/bash");
    }
    match setting {
        Some(s) => {
            let v: Vec<char> = text::chars(s.as_str());
            if v.len() > 0 {
                s
            } else {
                copy("/bin/bash")
            }
        },
        None => copy("/bin/bash"),
    }
}

// ── what the auto feature is for ────────────────────────────────────────────

/// Nanoseconds in a second.
pub open spec fn seconds(n: int) -> int {
    n * 1_000_000_000
}

/// Whether an agent's own report of being idle since `at` counts: nothing was typed
/// after it was made, by the user or by the auto feature.
pub open spec fn report_counts(s: Sh, at: u128, now: u64, wall: u128) -> bool {
    &&& now >= s.last_input ==> wall - at <= now - s.last_input
    &&& s.last_nudge matches Some(t) ==> (now >= t ==> wall - at <= now - t)
}

/// The wait of an agent that says nothing of itself is exactly the shortest of three:
/// since the screen last changed, since the user last typed, since the last nudge. A new
/// silence is waited for whatever was nudged before.
pub proof fn the_wait_is_the_shortest_of_three(s: Sh, now: u64, wall: u128, d: int)
    requires
        s.agent matches Some(agent) && agent.status is None,
        s.last_content_change <= now,
        s.last_input <= now,
        s.last_nudge matches Some(t) ==> t <= now,
    ensures
        idle_time(s, now, wall) matches Some(w) && (d <= w <==> {
            &&& s.last_content_change + d <= now
            &&& s.last_input + d <= now
            &&& s.last_nudge matches Some(t) ==> t + d <= now
        }),
{
}

/// An agent that reports when it went idle has waited since then, but never longer than
/// since the user typed or since the last nudge.
pub proof fn a_reported_wait_is_the_reported_one(s: Sh, at: u128, now: u64, wall: u128, d: int)
    requires
        s.agent matches Some(agent) && agent.status == Some(Status::Idle(at)),
        at <= wall,
        s.last_input <= now,
        s.last_nudge matches Some(t) ==> t <= now,
        report_counts(s, at, now, wall),
    ensures
        idle_time(s, now, wall) matches Some(w) && (d <= w <==> {
            &&& at + d <= wall
            &&& s.last_input + d <= now
            &&& s.last_nudge matches Some(t) ==> t + d <= now
        }),
{
}

/// A report made before the last keystroke or nudge is old news: the screen says how
/// long the agent has waited, as if there were no report.
pub proof fn an_old_report_does_not_count(s: Sh, at: u128, now: u64, wall: u128, quiet: Sh)
    requires
        s.agent matches Some(agent) && agent.status == Some(Status::Idle(at)),
        s.last_input <= now,
        s.last_nudge matches Some(t) ==> t <= now,
        !report_counts(s, at, now, wall),
        quiet == (Sh { agent: Some(Agent { status: None, ..s.agent->Some_0 }), ..s }),
    ensures
        idle_time(s, now, wall) == idle_time(quiet, now, wall),
{
}

/// Without an agent, or while it reports to be busy, nobody waits.
pub proof fn only_a_waiting_agent_waits(s: Sh, now: u64, wall: u128)
    ensures
        s.agent is None ==> idle_time(s, now, wall) is None,
        s.agent matches Some(agent) && agent.status == Some(Status::Busy) ==> idle_time(
            s,
            now,
            wall,
        ) is None,
        s.agent matches Some(agent) && agent.status != Some(Status::Busy) ==> idle_time(
            s,
            now,
            wall,
        ) is Some,
{
}

/// Whether the conversation fills seven tenths of the model's window.
pub open spec fn nearly_full(s: Sh) -> bool {
    s.agent matches Some(agent) && agent.context matches Some(c) && c.max matches Some(max)
        && max > 0 && 10 * c.used >= 7 * max
}

/// A nudge is due after ten minutes of waiting, whatever else; after one minute already
/// when the context is nearly full and was not compacted for that within ten minutes; and
/// at no other time.
pub proof fn a_nudge_is_due_when_the_wait_is_over(s: Sh, now: u64, wall: u128, w: int)
    requires
        idle_time(s, now, wall) == Some(w),
        s.agent matches Some(agent) && agent.context matches Some(c) ==> c.max != Some(0u64),
        s.context_compacted matches Some(at) ==> at <= now,
    ensures
        nudge_is_due(s, now, wall) <==> {
            ||| w >= seconds(600)
            ||| {
                &&& w >= seconds(60)
                &&& nearly_full(s)
                &&& s.context_compacted matches Some(at) ==> now - at >= seconds(600)
            }
        },
{
}

/// The countdown is what is left of the wait: together they are the whole of it. It
/// shows from half a minute of waiting on, and never while a nudge is under way.
pub proof fn the_countdown_is_what_is_left(s: Sh, now: u64, wall: u128, w: int)
    requires
        idle_time(s, now, wall) == Some(w),
        s.agent matches Some(agent) && agent.context matches Some(c) ==> c.max != Some(0u64),
        s.context_compacted matches Some(at) ==> at <= now,
        w >= 0,
    ensures
        s.nudge is Some || w < seconds(30) ==> countdown_of(s, now, wall) is None,
        s.nudge is None && w >= seconds(30) ==> (countdown_of(s, now, wall) matches Some(left)
            && left >= 0 && (left > 0 ==> left + w == if nearly_full(s) && (
        s.context_compacted matches Some(at) ==> now - at >= seconds(600)) {
            seconds(60)
        } else {
            seconds(600)
        })),
        idle_time(s, now, wall) is None ==> countdown_of(s, now, wall) is None,
{
}

/// A due nudge asks who holds the terminal, at most twice a second, and of an agent that
/// does the compact command is typed. From then on the nudge is under way.
pub proof fn a_due_nudge_types_the_compact_command(
    s: Sh,
    words: Seq<char>,
    asked: bool,
    now: u64,
    wall: u128,
)
    requires
        s.nudge is None,
        nudge_is_due(s, now, wall),
        s.tty_checked + seconds(1) <= now + seconds(1) / 2,
    ensures
        ({
            let (look, ask) = nudge_look(s, now, wall);
            let (after, out) = nudge_taken(look, true, words, asked, now, wall);
            &&& ask == NudgeAsk::Terminal
            &&& look.tty_checked == now
            &&& out == keystrokes("/compact"@, asked)
            &&& after.nudge == Some(Nudge::Compacting(now))
            &&& after.last_nudge == Some(now)
            &&& after.last_content_change == now
            &&& nearly_full(s) ==> after.context_compacted == Some(now)
            &&& after.last_input == s.last_input && after.agent == s.agent
        }),
{
}

/// A text as a person would give it: pasted, between the markers of a paste where the
/// application asked for them, then a pause, then Enter by itself.
pub open spec fn keystrokes(s: Seq<char>, asked: bool) -> Seq<Sent> {
    seq![
        Sent::Bytes(
            if asked {
                vstd::utf8::encode_utf8("\x1b[200~"@ + s + "\x1b[201~"@)
            } else {
                vstd::utf8::encode_utf8(s)
            },
        ),
        Sent::Settle,
        Sent::Bytes(seq![13u8]),
    ]
}

/// Whatever the auto feature submits is given the way a person gives it.
pub proof fn a_text_is_submitted_as_by_hand(s: Seq<char>, asked: bool)
    ensures
        submitted(s, asked) == keystrokes(s, asked),
        paste_bytes(s, asked) == (keystrokes(s, asked)[0])->Bytes_0,
{
}

/// A compaction is over once the screen changed after the command and then stood still
/// for fifteen seconds, once the client reports to be idle since the command, or once
/// five minutes went by without any change — and not before.
pub proof fn a_compaction_is_over_when_it_settled(s: Sh, at: u64, now: u64, wall: u128)
    requires
        at <= now,
        s.last_content_change <= now,
    ensures
        compaction_over(s, at, now, wall) <==> {
            ||| s.last_content_change > at && now - s.last_content_change >= seconds(15)
            ||| s.agent matches Some(agent) && agent.status matches Some(Status::Idle(idle))
                && (if wall >= idle {
                wall - idle
            } else {
                0
            }) < now - at
            ||| s.last_content_change <= at && now - at >= seconds(300)
        },
{
}

/// Once the compaction is over, an agent that still holds the terminal gets the continue
/// text, unless the user has been typing since.
pub proof fn the_continue_text_follows_the_compaction(
    s: Sh,
    at: u64,
    words: Seq<char>,
    asked: bool,
    now: u64,
    wall: u128,
)
    requires
        s.nudge == Some(Nudge::Compacting(at)),
        compaction_over(s, at, now, wall),
        s.last_input <= at,
    ensures
        ({
            let (look, ask) = nudge_look(s, now, wall);
            let (after, out) = nudge_taken(look, true, words, asked, now, wall);
            &&& ask == NudgeAsk::Terminal
            &&& look == s
            &&& out == keystrokes(words, asked)
            &&& after == (Sh {
                nudge: Some(Nudge::Continued(now)),
                last_nudge: Some(now),
                last_content_change: now,
                ..s
            })
        }),
{
}

/// An agent that lost the terminal gets nothing more: a nudge under way is dropped, one
/// that is due waits.
pub proof fn a_gone_agent_ends_the_nudge(
    s: Sh,
    words: Seq<char>,
    asked: bool,
    now: u64,
    wall: u128,
)
    ensures
        s.nudge matches Some(Nudge::Compacting(_)) ==> nudge_taken(s, false, words, asked, now, wall)
            == (Sh { nudge: None, ..s }, Seq::<Sent>::empty()),
        s.nudge is None ==> nudge_taken(s, false, words, asked, now, wall) == (
            s,
            Seq::<Sent>::empty(),
        ),
{
}

/// The mark of a nudge comes down once it was up for half a minute and the screen has
/// changed since: the next silence gets a nudge of its own.
pub proof fn an_answered_nudge_is_over(s: Sh, at: u64, now: u64, wall: u128)
    requires
        s.nudge == Some(Nudge::Continued(at)),
        at <= now,
    ensures
        nudge_look(s, now, wall).1 == NudgeAsk::Nothing,
        now - at >= seconds(30) && s.last_content_change > at ==> nudge_look(s, now, wall).0
            == (Sh { nudge: None, ..s }),
        !(now - at >= seconds(30) && s.last_content_change > at) ==> nudge_look(s, now, wall).0
            == s,
{
}

// ── what the other clocks of a shell are for ────────────────────────────────

/// An agent off screen that waits is announced, unless this wait was: after three
/// seconds by its own report, after a minute by its screen. On screen nothing is said.
/// The announcement names the agent and its folder.
pub proof fn a_waiting_agent_is_announced(s: Sh, now: u64, wall: u128, w: int)
    requires
        s.agent is Some,
        idle_time(s, now, wall) == Some(w),
        !s.pinged,
    ensures
        ({
            let (after, said) = pinged(s, false, now, wall);
            let told = w >= if status_of(s, now, wall) is Some {
                seconds(3)
            } else {
                seconds(60)
            };
            &&& after == (Sh { pinged: told, ..s })
            &&& told <==> said is Some
            &&& told ==> said->Some_0 == labels::notice(
                s.agent->Some_0.name,
                match s.cwd {
                    Some(cwd) => labels::folder(cwd),
                    None => seq!['?'],
                },
            )
            &&& pinged(s, true, now, wall) == (after, None::<Seq<char>>)
        }),
{
}

/// An agent that works again will be announced again.
pub proof fn a_new_wait_is_announced_anew(s: Sh, on_screen: bool, now: u64, wall: u128)
    requires
        idle_time(s, now, wall) is None,
    ensures
        pinged(s, on_screen, now, wall) == (Sh { pinged: false, ..s }, None::<Seq<char>>),
{
}

/// New output marks a shell that is not on screen until it is looked at, keeps its tab
/// moving for a second, and starts the silence over — of an agent only where the text on
/// screen is not what it was.
pub proof fn output_is_noticed(
    s: Sh,
    on_screen: bool,
    activity: u64,
    view: Seq<char>,
    now: u64,
)
    requires
        activity != s.seen_activity,
        s.resized + seconds(1) < now,
    ensures
        ({
            let after = ticked(s, on_screen, activity, view, now);
            &&& after.seen_activity == activity
            &&& after.unseen_output == !on_screen
            &&& after.animating
            &&& after.last_change == now
            &&& s.agent is None ==> after.last_content_change == now
            &&& s.agent is Some ==> after.content == Some(view)
            &&& s.agent is Some && s.content == Some(view) ==> after.last_content_change
                == s.last_content_change
            &&& s.agent is Some && s.content != Some(view) ==> after.last_content_change == now
        }),
{
}

/// What a resize redraws is not new output, nor is silence: nothing is marked, and the
/// movement ends a second after the output did.
pub proof fn silence_is_not_output(
    s: Sh,
    on_screen: bool,
    activity: u64,
    view: Seq<char>,
    now: u64,
)
    requires
        activity == s.seen_activity || (s.resized <= now && now <= s.resized + seconds(1)),
        s.last_change <= now,
    ensures
        ticked(s, on_screen, activity, view, now) == (Sh {
            seen_activity: activity,
            unseen_output: s.unseen_output && !on_screen,
            animating: now - s.last_change < seconds(1),
            ..s
        }),
{
}

/// The command a shell would replay is what stood on screen between where the first key
/// was typed and where Enter was, without the blanks around it.
pub proof fn the_typed_line_is_the_command(
    s: Sh,
    key: Seq<u8>,
    enter: Seq<u8>,
    first: Screen,
    last: Screen,
)
    requires
        s.cmd_anchor is None,
        forall|b: u8| key.contains(b) ==> b != 13 && b != 10 && b != 3 && b != 7,
        enter.contains(13) || enter.contains(10),
    ensures
        ({
            let typing = noted(s, key, true, first);
            let done = noted(typing, enter, true, last);
            let line = text::trim(
                screen::text_between(last, screen::grid(first).cursor, screen::grid(last).cursor),
            );
            &&& typing == (Sh { cmd_anchor: Some(screen::grid(first).cursor), ..s })
            &&& done == (Sh {
                last_cmd: if line.len() > 0 {
                    Some(line)
                } else {
                    s.last_cmd
                },
                ..s
            })
        }),
{
    assert(!key.contains(13) && !key.contains(10) && !key.contains(3) && !key.contains(7));
}

/// Keys typed on keep where the line began; a line given up, or keys meant for a program,
/// are no command.
pub proof fn only_a_confirmed_line_is_a_command(s: Sh, bytes: Seq<u8>, screen: Screen)
    ensures
        noted(s, bytes, false, screen) == (Sh { cmd_anchor: None, ..s }),
        !bytes.contains(13) && !bytes.contains(10) ==> noted(s, bytes, true, screen).last_cmd
            == s.last_cmd,
        !bytes.contains(13) && !bytes.contains(10) && (bytes.contains(3) || bytes.contains(7))
            ==> noted(s, bytes, true, screen).cmd_anchor is None,
        !bytes.contains(13) && !bytes.contains(10) && !bytes.contains(3) && !bytes.contains(7)
            && s.cmd_anchor is Some ==> noted(s, bytes, true, screen) == s,
{
}

/// A restored command is typed once, when the shell has shown something and a quarter of
/// a second went by, and can be replayed from then on.
pub proof fn a_restored_command_is_typed_once(s: Sh, activity: u64, now: u64, cmd: Seq<char>)
    requires
        s.pending_cmd == Some(cmd),
        s.spawned <= now,
    ensures
        ({
            let (after, out) = flushed(s, activity, now);
            &&& activity > 0 && 4 * (now - s.spawned) > seconds(1) ==> after.pending_cmd is None
                && after.last_cmd == Some(cmd) && out == Some(
                vstd::utf8::encode_utf8(cmd).push(13u8),
            )
            &&& !(activity > 0 && 4 * (now - s.spawned) > seconds(1)) ==> after == s && out is None
            &&& out is Some ==> flushed(after, activity, now).1 is None
        }),
{
}

/// A command is replayed by typing it and confirming it with Enter.
pub proof fn a_replayed_command_is_the_command(cmd: Seq<char>)
    ensures
        line_bytes(cmd) == vstd::utf8::encode_utf8(cmd) + seq![13u8],
{
    assert(line_bytes(cmd) =~= vstd::utf8::encode_utf8(cmd) + seq![13u8]);
}

/// A command can be replayed where there is one and the shell itself holds the terminal.
pub proof fn a_command_is_replayed_at_the_prompt(s: Sh, up: Seq<char>, name: Seq<char>)
    requires
        name == "bash"@ || name == "zsh"@ || name == "fish"@ || name == "sh"@,
        s.process == name || s.process == up + seq!['/'] + name || s.process == seq!['-'] + name,
    ensures
        can_replay(s) <==> s.last_cmd is Some,
{
    labels::a_shell_is_told_by_its_name(up, name);
}

/// Ten minutes of silence are nudged, whatever was nudged before them: the agent says
/// nothing of itself, and neither the screen changed, nor the user typed, nor a nudge was
/// given within them.
pub proof fn a_new_silence_gets_a_nudge(s: Sh, now: u64, wall: u128)
    requires
        s.agent matches Some(agent) && agent.status is None,
        s.nudge is None,
        s.last_content_change + seconds(600) <= now,
        s.last_input + seconds(600) <= now,
        s.last_nudge matches Some(t) ==> t + seconds(600) <= now,
    ensures
        nudge_is_due(s, now, wall),
        s.tty_checked + seconds(1) <= now ==> nudge_look(s, now, wall).1 == NudgeAsk::Terminal,
{
    the_wait_is_the_shortest_of_three(s, now, wall, seconds(600));
}

/// Nothing is asked while no nudge is due, nor again within half a second of the last
/// time it was.
pub proof fn nothing_is_asked_without_need(s: Sh, now: u64, wall: u128)
    requires
        s.nudge is None,
        !nudge_is_due(s, now, wall) || (s.tty_checked <= now && 2 * (now - s.tty_checked) < seconds(
            1,
        )),
    ensures
        nudge_look(s, now, wall) == (s, NudgeAsk::Nothing),
{
}

/// A compaction that still draws is waited for; after five minutes it is asked, twice a
/// second at most, whether the agent is there at all — unless the user has been typing
/// since, which ends the nudge.
pub proof fn a_long_compaction_is_looked_after(s: Sh, at: u64, now: u64, wall: u128)
    requires
        s.nudge == Some(Nudge::Compacting(at)),
        !compaction_over(s, at, now, wall),
        at <= now,
        s.tty_checked <= now,
    ensures
        now - at < seconds(300) ==> nudge_look(s, now, wall) == (s, NudgeAsk::Nothing),
        now - at >= seconds(300) && s.last_input > at ==> nudge_look(s, now, wall) == (
            Sh { nudge: None, ..s },
            NudgeAsk::Nothing,
        ),
        now - at >= seconds(300) && s.last_input <= at && 2 * (now - s.tty_checked) >= seconds(1)
            ==> nudge_look(s, now, wall) == (Sh { tty_checked: now, ..s }, NudgeAsk::Terminal),
        now - at >= seconds(300) && s.last_input <= at && 2 * (now - s.tty_checked) < seconds(1)
            ==> nudge_look(s, now, wall) == (s, NudgeAsk::Nothing),
{
}

} // verus!
