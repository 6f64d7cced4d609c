//! One turn of the console's loop: when to look for shells that have exited, when
//! to stop, when a frame is due, and what a frame does to the shells.

use tui_term::vt100::Screen;
use vstd::prelude::*;
use crate::app;
use crate::app::{App, Ap, POLL_INTERVAL};
use crate::keys;
use crate::labels;
use crate::screen;
use crate::shell;
use crate::shell::{Sh, SAMPLE_EVERY};
use crate::tab::{tab_wf, Tab, Tb};
use crate::text;
use crate::text::{copy, same_str};

verus! {

/// Shells that have exited are looked for this often, in nanoseconds.
pub const REAP_EVERY: u64 = 100_000_000;

/// Events already queued are handled for at most this long, in nanoseconds, before
/// the next frame is drawn.
pub const DRAIN_BUDGET: u64 = 8_000_000;

/// What the loop does next.
pub enum Turn {
    /// Write this to the session file, if anything, and end.
    Stop(Option<String>),
    /// Draw a frame.
    Frame,
    /// Wait for an event at most this long.
    Wait(u64),
}

/// The console at the beginning of a frame: its filtered list is rebuilt, and a tab
/// that just became active is brought into view.
pub open spec fn framed(a: Ap) -> Ap {
    let b = app::refreshed(a);
    if b.active != b.shown_active {
        Ap { shown_active: b.active, ..app::revealed(b) }
    } else {
        b
    }
}

/// Whether shell `k` of tab `i` is the one on screen.
pub open spec fn is_on_screen(a: Ap, i: int, k: int) -> bool {
    app::on_screen(a) == Some((i, k))
}

/// What a frame does to a shell: the shell, a ping for the host terminal, and the
/// bytes of a restored command.
pub open spec fn shell_frame(
    s: Sh,
    on_screen: bool,
    activity: u64,
    view: Seq<char>,
    now: u64,
    wall: u128,
) -> (Sh, Option<Seq<char>>, Option<Seq<u8>>) {
    let ticked = shell::ticked(s, on_screen, activity, view, now);
    let (pinged, ping) = shell::pinged(ticked, on_screen, now, wall);
    let (flushed, bytes) = shell::flushed(pinged, activity, now);
    (flushed, ping, bytes)
}

/// The console with shell `k` of tab `i` replaced.
pub open spec fn with_shell(a: Ap, i: int, k: int, s: Sh) -> Ap {
    let t = a.tabs[i];
    Ap { tabs: a.tabs.update(i, Tb { shells: t.shells.update(k, s), ..t }), ..a }
}

/// Those of the first `k` shells of tab `i` that run process `pid`.
pub open spec fn running(shells: Seq<Sh>, pid: u32, i: usize, k: int) -> Seq<(usize, usize)>
    decreases k,
{
    if k <= 0 {
        Seq::empty()
    } else if shells[k - 1].pid == Some(pid) {
        running(shells, pid, i, k - 1).push((i, (k - 1) as usize))
    } else {
        running(shells, pid, i, k - 1)
    }
}

/// The shells of the first `n` tabs that run process `pid`, as tab and shell.
pub open spec fn running_in(tabs: Seq<Tb>, pid: u32, n: int) -> Seq<(usize, usize)>
    decreases n,
{
    if n <= 0 {
        Seq::empty()
    } else {
        running_in(tabs, pid, n - 1) + running(
            tabs[n - 1].shells,
            pid,
            (n - 1) as usize,
            tabs[n - 1].shells.len() as int,
        )
    }
}

impl App {
    /// Is it time to look for shells that have exited? Then the next look is a while
    /// away.
    pub fn reap_due(&mut self, now: u64) -> (due: bool)
        ensures
            due == (shell::since(old(self)@.reaped, now) >= REAP_EVERY),
            due <==> old(self)@.reaped + 100_000_000 <= now,
            final(self)@ == (Ap {
                reaped: if due {
                    now
                } else {
                    old(self)@.reaped
                },
                ..old(self)@
            }),
            app::app_wf(old(self)@) ==> app::app_wf(final(self)@),
    {
        if now.saturating_sub(self.reaped) >= REAP_EVERY {
            self.reaped = now;
            true
        } else {
            false
        }
    }

    /// The next turn: with a quit confirmed, or the last shell gone, the session is
    /// saved as it is (the last shell closed means a fresh start next time) and the
    /// loop ends; else a frame is drawn at most once per interval.
    pub fn turn(&mut self, now: u64) -> (turn: Turn)
        ensures
            ({
                let a = old(self)@;
                let waited = shell::since(a.drawn, now);
                if a.quit || a.tabs.len() == 0 {
                    turn matches Turn::Stop(t) && (final(self)@, text::opt(t)) == app::saved_now(a)
                } else if waited >= POLL_INTERVAL {
                    turn is Frame && final(self)@ == a
                } else {
                    turn == Turn::Wait((POLL_INTERVAL - waited) as u64) && final(self)@ == a
                }
            }),
            turn is Stop <==> old(self)@.quit || old(self)@.tabs.len() == 0,
            turn is Frame ==> old(self)@.drawn + 30_000_000 <= now,
            turn matches Turn::Wait(d) ==> 0 < d <= 30_000_000 && (old(self)@.drawn <= now ==> now + d
                == old(self)@.drawn + 30_000_000),
            app::app_wf(old(self)@) ==> app::app_wf(final(self)@),
    {
        assert(self@.tabs.len() == self.tabs@.len());
        if self.quit || self.tabs.len() == 0 {
            return Turn::Stop(self.persist_now());
        }
        let waited: u64 = now.saturating_sub(self.drawn);
        if waited >= POLL_INTERVAL {
            Turn::Frame
        } else {
            Turn::Wait(POLL_INTERVAL - waited)
        }
    }

    /// Stop draining events? When the console is going away, when the budget since
    /// `started` is spent, or when nothing more is queued.
    pub fn drained(&self, started: u64, now: u64, more: bool) -> (r: bool)
        ensures
            r == (self@.quit || self@.tabs.len() == 0 || shell::since(started, now) >= DRAIN_BUDGET
                || !more),
            !r ==> more && now < started + 8_000_000 && self@.tabs.len() > 0 && !self@.quit,
            r ==> !more || started + 8_000_000 <= now || self@.tabs.len() == 0 || self@.quit,
    {
        assert(self@.tabs.len() == self.tabs@.len());
        self.quit || self.tabs.len() == 0 || now.saturating_sub(started) >= DRAIN_BUDGET || !more
    }

    /// Begin a frame. The active tab is revealed only when it just changed: free
    /// scrolling of the list never is undone.
    pub fn begin_frame(&mut self)
        requires
            app::app_wf(old(self)@),
        ensures
            final(self)@ == framed(old(self)@),
            app::app_wf(final(self)@),
    {
        self.refresh_shown();
        if self.active != self.shown_active {
            self.reveal_active();
            self.shown_active = self.active;
        }
    }

    /// What a frame does to shell `k` of tab `i`: its activity animation advances, an
    /// agent gone idle off screen pings, and a restored command is typed once its
    /// prompt is up. `screen` is this shell's own, and `activity` counts its output.
    pub fn tick_shell(
        &mut self,
        i: usize,
        k: usize,
        activity: u64,
        screen: &Screen,
        now: u64,
        wall: u128,
    ) -> (r: (Option<String>, Option<Vec<u8>>))
        requires
            app::app_wf(old(self)@),
            i < old(self)@.tabs.len(),
            k < old(self)@.tabs[i as int].shells.len(),
        ensures
            ({
                let a = old(self)@;
                let (s, ping, bytes) = shell_frame(
                    a.tabs[i as int].shells[k as int],
                    is_on_screen(a, i as int, k as int),
                    activity,
                    screen::text_of(*screen),
                    now,
                    wall,
                );
                &&& final(self)@ == with_shell(a, i as int, k as int, s)
                &&& text::opt(r.0) == ping
                &&& keys::opt_bytes(r.1) == bytes
            }),
            app::app_wf(final(self)@),
    {
        let ghost a = self@;
        let ghost t = a.tabs[i as int];
        assert(self.tabs@[i as int]@ == t);
        assert(self.tabs@[i as int].shells@[k as int]@ == t.shells[k as int]);
        let on_screen: bool = i == self.active && k == self.tabs[i].active;
        self.tabs[i].shells[k].tick_activity(on_screen, activity, screen, now);
        let ping: Option<String> = self.tabs[i].shells[k].tick_ping(on_screen, now, wall);
        let bytes: Option<Vec<u8>> = self.tabs[i].shells[k].flush_pending(activity, now);
        proof {
            let now_tab = self.tabs@[i as int]@;
            assert(now_tab.shells =~= t.shells.update(
                k as int,
                self.tabs@[i as int].shells@[k as int]@,
            ));
            assert(self@.tabs =~= a.tabs.update(i as int, now_tab));
            assert forall|j: int| 0 <= j < self@.tabs.len() implies tab_wf(
                #[trigger] self@.tabs[j],
            ) by {
                assert(tab_wf(a.tabs[j]));
            }
        }
        (ping, bytes)
    }

    /// The shells running process `pid`, as tab and shell: those an answer about it
    /// is for.
    pub fn shells_running(&self, pid: u32) -> (v: Vec<(usize, usize)>)
        ensures
            v@ == running_in(self@.tabs, pid, self@.tabs.len() as int),
    {
        let ghost tabs = self@.tabs;
        let mut v: Vec<(usize, usize)> = Vec::new();
        let mut i: usize = 0;
        assert(v@ =~= Seq::empty());
        while i < self.tabs.len()
            invariant
                tabs == self@.tabs,
                i <= self.tabs@.len() == tabs.len(),
                v@ == running_in(tabs, pid, i as int),
            decreases self.tabs.len() - i,
        {
            let t: &Tab = &self.tabs[i];
            assert(tabs[i as int] == t@);
            let ghost shells = t@.shells;
            let ghost was = v@;
            let mut k: usize = 0;
            assert(v@ =~= was + running(shells, pid, i, 0));
            while k < t.shells.len()
                invariant
                    shells == t@.shells,
                    k <= t.shells@.len() == shells.len(),
                    v@ == was + running(shells, pid, i, k as int),
                decreases t.shells.len() - k,
            {
                assert(shells[k as int] == t.shells@[k as int]@);
                if let Some(p) = t.shells[k].pid {
                    if p == pid {
                        v.push((i, k));
                    }
                }
                assert(v@ =~= was + running(shells, pid, i, k + 1));
                k += 1;
            }
            i += 1;
        }
        v
    }

    /// Is the next agent to be asked about now? Not while an answer is pending, and
    /// twice a second at most.
    pub fn probe_due(&self, pending: bool, asked: u64, now: u64) -> (r: bool)
        ensures
            r == (!pending && shell::since(asked, now) >= SAMPLE_EVERY),
            r <==> !pending && asked + 500_000_000 <= now,
    {
        !pending && now.saturating_sub(asked) >= SAMPLE_EVERY
    }

    /// Is the branch shown for `cwd` to be read again? When the folder changed, or
    /// the last reading has aged.
    pub fn branch_due(&mut self, cwd: Option<&str>, now: u64) -> (due: bool)
        ensures
            due == (old(self)@.branch_cwd != labels::opt_str(cwd) || shell::since(
                old(self)@.branch_sampled,
                now,
            ) >= SAMPLE_EVERY),
            due ==> old(self)@.branch_cwd != labels::opt_str(cwd) || old(self)@.branch_sampled
                + 500_000_000 <= now,
            !due ==> old(self)@.branch_cwd == labels::opt_str(cwd) && now < old(
                self,
            )@.branch_sampled + 500_000_000,
            final(self)@ == if due {
                Ap { branch_sampled: now, branch_cwd: labels::opt_str(cwd), ..old(self)@ }
            } else {
                old(self)@
            },
            app::app_wf(old(self)@) ==> app::app_wf(final(self)@),
    {
        let same: bool = match (&self.branch_cwd, cwd) {
            (Some(a), Some(b)) => same_str(a.as_str(), b),
            (None, None) => true,
            _ => false,
        };
        if same && now.saturating_sub(self.branch_sampled) < SAMPLE_EVERY {
            return false;
        }
        self.branch_sampled = now;
        self.branch_cwd = match cwd {
            Some(cwd) => Some(copy(cwd)),
            None => None,
        };
        true
    }

    /// The folder a new shell starts in: the active shell's, when it can be read,
    /// else the one the console was started from.
    pub fn start_dir(&self, cwd: Option<String>) -> (dir: String)
        ensures
            dir@ == (match cwd {
                Some(cwd) => cwd@,
                None => self@.base,
            }),
    {
        match cwd {
            Some(cwd) => cwd,
            None => copy(self.base.as_str()),
        }
    }
}

// ── what a frame does to the shells ─────────────────────────────────────────

/// A process is found wherever it runs, tab by tab and shell by shell, and nothing else
/// is.
pub proof fn a_process_is_found_where_it_runs(tabs: Seq<Tb>, pid: u32, n: int, i: usize, k: usize)
    requires
        0 <= n <= tabs.len() <= usize::MAX,
        forall|j: int| 0 <= j < tabs.len() ==> (#[trigger] tabs[j]).shells.len() <= usize::MAX,
    ensures
        running_in(tabs, pid, n).contains((i, k)) <==> {
            &&& i < n
            &&& k < tabs[i as int].shells.len()
            &&& tabs[i as int].shells[k as int].pid == Some(pid)
        },
    decreases n,
{
    if n > 0 {
        let front = running_in(tabs, pid, n - 1);
        let shells = tabs[n - 1].shells;
        let last = running(shells, pid, (n - 1) as usize, shells.len() as int);
        a_process_is_found_where_it_runs(tabs, pid, n - 1, i, k);
        lemma_running(shells, pid, (n - 1) as usize, shells.len() as int, i, k);
        if front.contains((i, k)) {
            let j = choose|j: int| 0 <= j < front.len() && front[j] == (i, k);
            assert((front + last)[j] == (i, k));
        }
        if last.contains((i, k)) {
            let j = choose|j: int| 0 <= j < last.len() && last[j] == (i, k);
            assert((front + last)[front.len() + j] == (i, k));
        }
        if (front + last).contains((i, k)) {
            let j = choose|j: int| 0 <= j < (front + last).len() && (front + last)[j] == (i, k);
            if j < front.len() {
                assert(front[j] == (i, k));
            } else {
                assert(last[j - front.len()] == (i, k));
            }
        }
    }
}

proof fn lemma_running(shells: Seq<Sh>, pid: u32, t: usize, n: int, i: usize, k: usize)
    requires
        0 <= n <= shells.len() <= usize::MAX,
    ensures
        running(shells, pid, t, n).contains((i, k)) <==> i == t && k < n && shells[k as int].pid
            == Some(pid),
    decreases n,
{
    if n > 0 {
        let front = running(shells, pid, t, n - 1);
        lemma_running(shells, pid, t, n - 1, i, k);
        let all = front.push((t, (n - 1) as usize));
        if front.contains((i, k)) {
            let j = choose|j: int| 0 <= j < front.len() && front[j] == (i, k);
            assert(all[j] == (i, k));
        }
        if all.contains((i, k)) {
            let j = choose|j: int| 0 <= j < all.len() && all[j] == (i, k);
            if j < front.len() {
                assert(front[j] == (i, k));
            }
        }
        assert(all[front.len() as int] == (t, (n - 1) as usize));
    }
}

/// A change to one shell leaves all others alone.
pub proof fn one_shell_is_changed(a: Ap, i: int, k: int, s: Sh)
    requires
        0 <= i < a.tabs.len(),
        0 <= k < a.tabs[i].shells.len(),
    ensures
        ({
            let b = with_shell(a, i, k, s);
            &&& b.tabs[i].shells[k] == s
            &&& b.tabs.len() == a.tabs.len() && b.tabs[i].shells.len() == a.tabs[i].shells.len()
            &&& b.tabs[i].active == a.tabs[i].active && b.tabs[i].auto == a.tabs[i].auto
                && b.tabs[i].favorite == a.tabs[i].favorite
            &&& forall|j: int| 0 <= j < a.tabs.len() && j != i ==> b.tabs[j] == a.tabs[j]
            &&& forall|j: int|
                0 <= j < a.tabs[i].shells.len() && j != k ==> b.tabs[i].shells[j]
                    == a.tabs[i].shells[j]
            &&& b.active == a.active
        }),
{
}

/// A frame brings another tab into view once, when it has become the active one; while
/// it stays so, the list is left where it was scrolled to.
pub proof fn a_tab_is_brought_into_view_once(a: Ap)
    ensures
        framed(a).shown_active == a.active,
        framed(a).tabs == a.tabs && framed(a).active == a.active,
        a.active == a.shown_active ==> framed(a).list_offset == a.list_offset,
        framed(framed(a)).list_offset == framed(a).list_offset,
{
}

/// A shell on screen has nothing unseen, and is not announced.
pub proof fn what_is_on_screen_is_seen(
    s: Sh,
    activity: u64,
    view: Seq<char>,
    now: u64,
    wall: u128,
)
    ensures
        !shell_frame(s, true, activity, view, now, wall).0.unseen_output,
        shell_frame(s, true, activity, view, now, wall).1 is None,
        shell_frame(s, true, activity, view, now, wall).0.seen_activity == activity,
{
}

} // verus!
