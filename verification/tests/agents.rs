use ricon::footer::{status_bar, Footer, CONTEXT_WARN_FG, COPY_OFF_BUTTON, COPY_ON_BUTTON};
use ricon::labels::{clock, idle_notice, Context};
use ricon::probe::{upstream_name, AgentInfo, Status};
use ricon::screen::Terminal;
use ricon::shell::{
    default_shell, host_terminal_vars, pasted_bytes, submit, typed_line, Nudge, NudgeAsk, Out,
    Shell, COMPACT_COMMAND, COMPACT_SETTLE, COMPACT_TIMEOUT, CONTEXT_COMPACT_EVERY,
    CONTEXT_SETTLE, IDLE_NUDGE, NUDGE_MARK, PING_AFTER_SCREEN, PING_AFTER_STATUS, RESIZE_GRACE,
    SAMPLE_EVERY, SETTLE, TERM,
};
use ricon::style::{plain_text, Span};
use ricon::tab::Tab;

const SECOND: u64 = 1_000_000_000;
const NOW: u64 = 100_000 * SECOND;
const WALL: u128 = 1_789_000_000_000_000_000;

fn opus() -> String {
    format!("{}-opus-5", upstream_name())
}

fn agent(context: Option<Context>, status: Option<Status>) -> Option<AgentInfo> {
    Some(AgentInfo { name: upstream_name(), model: opus(), pid: 1, context, status })
}

fn idle(seconds: u64) -> Option<Status> {
    Some(Status::Idle(WALL - (seconds * SECOND) as u128))
}

fn test_shell() -> Shell {
    let mut shell = Shell::new(1, Some(4242), "/tmp/alpha".into(), None, NOW);
    shell.resized = NOW - RESIZE_GRACE * 2;
    shell
}

fn bytes(out: &[Out]) -> Vec<Option<Vec<u8>>> {
    out.iter()
        .map(|o| match o {
            Out::Bytes(b) => Some(b.clone()),
            Out::Settle => None,
        })
        .collect()
}

fn typed(text: &str) -> Vec<Option<Vec<u8>>> {
    vec![Some(text.as_bytes().to_vec()), None, Some(b"\r".to_vec())]
}

/// One look at a shell's agent, with the terminal held by it or not.
fn nudge_if_idle(shell: &mut Shell, held: bool, now: u64) -> Vec<Option<Vec<u8>>> {
    match shell.nudge_ask(now, WALL) {
        NudgeAsk::Nothing => Vec::new(),
        NudgeAsk::Terminal => bytes(&shell.nudge_step(held, "continue", false, now, WALL)),
    }
}

fn footer(shell: &Shell, auto: bool) -> Footer<'_> {
    Footer {
        index: 0,
        count: 1,
        shell,
        branch: None,
        width: 120,
        tabs_overflow: false,
        copy_mode: true,
        auto,
        home: None,
        now: NOW,
        wall: WALL,
    }
}

fn bar(shell: &Shell, auto: bool) -> String {
    plain_text(&status_bar(&footer(shell, auto)))
}

#[test]
fn status_bar_marks_an_unanswered_nudge_beside_the_model() {
    let mut shell = test_shell();
    shell.agent = agent(None, None);
    let quiet = bar(&shell, true);
    assert!(quiet.contains(&format!("✳ {}", opus())), "the model is shown: {quiet:?}");
    assert!(!quiet.contains('⟳'), "nothing typed yet, no mark: {quiet:?}");
    for nudge in [Nudge::Compacting(NOW), Nudge::Continued(NOW)] {
        shell.nudge = Some(nudge);
        let nudged = bar(&shell, true);
        assert!(nudged.contains(&format!("✳ {} ⟳", opus())), "the nudge is visible ({nudge:?}): {nudged:?}");
    }
    // Context usage sits between the model and the mark.
    shell.agent = agent(Some(Context { used: 123_456, max: Some(1_000_000) }), None);
    let full = bar(&shell, true);
    assert!(full.contains(&format!("✳ {} 123k/1M ⟳", opus())), "used/max: {full:?}");
    // The phase is named while compacting.
    shell.nudge = Some(Nudge::Compacting(NOW));
    let compacting = bar(&shell, true);
    assert!(compacting.contains("123k/1M ⟳ /compact"), "the step under way: {compacting:?}");
    shell.nudge = None;
    // With no agent detected there is nothing to mark, nudged or not.
    shell.agent = None;
    assert!(!bar(&shell, true).contains('⟳'), "no agent, no mark");
}

#[test]
fn status_bar_counts_down_to_the_nudge_and_paints_a_full_context_red() {
    let mut shell = test_shell();
    shell.last_input = NOW - IDLE_NUDGE * 2;
    // Idle 7 minutes: 3 minutes to go — with auto on only.
    shell.agent = agent(None, idle(7 * 60));
    let text = bar(&shell, true);
    assert!(text.contains(&format!("✳ {} ⏳ 3:00 → /compact", opus())), "{text:?}");
    assert!(!bar(&shell, false).contains('⏳'), "auto off: no countdown");
    // Busy: nothing to count.
    shell.agent = agent(None, Some(Status::Busy));
    assert!(!bar(&shell, true).contains('⏳'), "busy: no countdown");
    // Idle 10 s: too early to show.
    shell.agent = agent(None, idle(10));
    assert!(!bar(&shell, true).contains('⏳'), "too early to show");
    // Typing into the shell defers: idle for hours by status, typed 5 s ago.
    shell.agent = agent(None, idle(3600));
    shell.last_content_change = NOW - IDLE_NUDGE * 2;
    shell.last_input = NOW - 5 * SECOND;
    assert_eq!(shell.idle_for(NOW, WALL), Some(5 * SECOND), "the user's typing bounds the wait");
    assert!(shell.countdown(NOW, WALL).is_none(), "and hides the countdown");
    shell.last_input = NOW - IDLE_NUDGE * 2;
    // A nearly full context: the usage is painted red, and the countdown is the short
    // one — compaction comes after a minute of idling.
    shell.agent = agent(Some(Context { used: 850_000, max: Some(1_000_000) }), idle(40));
    let line: Vec<Span> = status_bar(&footer(&shell, true));
    let text = plain_text(&line);
    assert!(text.contains("850k/1M ⏳ 0:20 → /compact"), "{text:?}");
    let red = line.iter().find(|s| s.text.contains("850k/1M")).expect("usage span");
    assert_eq!(red.style.fg, Some(CONTEXT_WARN_FG), "nearly full reads red");
    assert!(!red.text.contains('✳'), "only the usage is red: {:?}", red.text);
    // Under the warning line the usage is plain.
    shell.agent = agent(Some(Context { used: 500_000, max: Some(1_000_000) }), idle(40));
    let line = status_bar(&footer(&shell, true));
    assert!(line.iter().all(|s| s.style.fg != Some(CONTEXT_WARN_FG)), "half full is not red");
    let text = plain_text(&line);
    assert!(text.contains("⏳ 9:20 → /compact"), "half full: the long silence applies: {text:?}");
    assert_eq!(clock(605 * SECOND), "10:05");
    assert_eq!(clock(59 * SECOND), "0:59");
}

#[test]
fn status_bar_truncates_left_but_pins_version_right() {
    let mut shell = test_shell();
    shell.cwd = Some("/a/folder/long/enough/to/be/cut".into());
    let text = |copy_mode| {
        plain_text(&status_bar(&Footer {
            count: 9,
            branch: Some("main"),
            width: 30,
            tabs_overflow: true,
            copy_mode,
            ..footer(&shell, true)
        }))
    };
    let on = text(true);
    assert_eq!(on.chars().count(), 30, "line exactly fills the width");
    assert!(on.starts_with(" ↕ 1/9"), "indicator and index: {on:?}");
    assert!(on.ends_with("v0.4.0 "), "version survives: {on:?}");
    // The button reads the mode.
    assert!(on.contains(COPY_ON_BUTTON), "copy mode on: {on:?}");
    assert!(text(false).contains(COPY_OFF_BUTTON), "copy mode off");
}

#[test]
fn a_wide_character_takes_two_cells_of_the_status_bar() {
    // Every glyph of the folder is two cells wide, so the button keeps its place.
    let mut shell = test_shell();
    shell.cwd = Some("/漢字漢字漢字漢字漢字漢字漢字漢字漢字漢字".into());
    let text = plain_text(&status_bar(&Footer { width: 40, ..footer(&shell, true) }));
    let cells: usize = text.chars().map(|c| if ('漢'..='漢').contains(&c) || c == '字' { 2 } else { 1 }).sum();
    assert_eq!(cells, 40, "{text:?}");
    assert!(text.ends_with(&format!("{COPY_ON_BUTTON}v0.4.0 ")), "{text:?}");
}

#[test]
fn the_clients_own_status_decides_idle_over_the_screen_hash() {
    let mut shell = test_shell();
    shell.last_input = NOW - IDLE_NUDGE * 2;
    // Screen still for an hour, but the client says busy: no nudge.
    shell.agent = agent(None, Some(Status::Busy));
    shell.last_content_change = NOW - IDLE_NUDGE * 6;
    assert_eq!(shell.idle_for(NOW, WALL), None);
    assert!(nudge_if_idle(&mut shell, true, NOW).is_empty());
    assert!(shell.nudge.is_none(), "busy: no nudge");
    // Screen changed just now, but the client has been idle for eleven minutes: nudge.
    shell.agent = agent(None, idle(660));
    shell.last_content_change = NOW;
    assert_eq!(nudge_if_idle(&mut shell, true, NOW), typed(COMPACT_COMMAND));
    assert!(matches!(shell.nudge, Some(Nudge::Compacting(_))), "idle by status: nudged");
    // The nudge itself restarts the wait, whatever the (stale) status says.
    assert!(shell.idle_for(NOW, WALL).expect("idle") < 5 * SECOND, "a nudge starts the clock over");
    // Compaction done: the client reports idle again *after* the command.
    let at = NOW - 30 * SECOND;
    assert!(!shell.compaction_done(at, NOW, WALL), "idle since before the command is not done");
    shell.agent = agent(None, idle(5));
    assert!(shell.compaction_done(at, NOW, WALL), "idle again since the command: done");
}

#[test]
fn a_full_context_is_compacted_after_a_short_idle_once_per_window() {
    let mut shell = test_shell();
    let used = |used| agent(Some(Context { used, max: Some(1_000_000) }), None);
    shell.last_input = NOW - IDLE_NUDGE * 2;
    // Half full, idle two minutes: not yet.
    shell.agent = used(500_000);
    shell.last_content_change = NOW - CONTEXT_SETTLE * 2;
    assert!(!shell.nudge_due(NOW, WALL));
    // 70 % full, idle two minutes: compact now.
    shell.agent = used(700_000);
    assert!(shell.context_full() && shell.nudge_due(NOW, WALL));
    assert_eq!(nudge_if_idle(&mut shell, true, NOW), typed(COMPACT_COMMAND));
    assert!(matches!(shell.nudge, Some(Nudge::Compacting(_))));
    assert!(shell.context_compacted.is_some(), "the context trigger is remembered");
    // Idle again with the (not yet refreshed) usage: the short trigger is spent, only
    // the full silence nudges.
    shell.nudge = None;
    shell.last_nudge = None;
    shell.last_content_change = NOW - CONTEXT_SETTLE * 2;
    assert!(!shell.nudge_due(NOW, WALL), "not twice within the window");
    shell.last_content_change = NOW - IDLE_NUDGE;
    assert!(shell.nudge_due(NOW, WALL), "the long silence still does");
    shell.context_compacted = Some(NOW - CONTEXT_COMPACT_EVERY);
    shell.last_content_change = NOW - CONTEXT_SETTLE;
    assert!(shell.nudge_due(NOW, WALL), "and the window over, the short one is back");
    let full = |used, max, percent| Context { used, max }.at_least(percent);
    assert!(full(700_000, Some(1_000_000), 70) && !full(699_999, Some(1_000_000), 70));
    assert!(!full(1, None, 0), "no window, no share of it");
}

#[test]
fn an_idle_agent_off_screen_pings_once_per_stretch() {
    let mut shell = test_shell();
    shell.last_input = NOW - IDLE_NUDGE;
    shell.agent = agent(None, Some(Status::Busy));
    assert!(shell.tick_ping(false, NOW, WALL).is_none());
    assert!(!shell.pinged, "busy: nothing");
    shell.agent = agent(None, idle(1));
    shell.tick_ping(false, NOW, WALL);
    assert!(!shell.pinged, "a beat of debounce first");
    shell.agent = agent(None, idle(PING_AFTER_STATUS / SECOND));
    let ping = shell.tick_ping(false, NOW, WALL);
    assert!(shell.pinged, "idle off screen: pinged");
    assert_eq!(ping, Some(idle_notice(&upstream_name(), "alpha")));
    assert!(shell.tick_ping(false, NOW, WALL).is_none());
    assert!(shell.pinged, "and only once");
    shell.agent = agent(None, Some(Status::Busy));
    shell.tick_ping(false, NOW, WALL);
    assert!(!shell.pinged, "busy again: armed for the next stretch");
    shell.agent = agent(None, idle(60));
    assert!(shell.tick_ping(true, NOW, WALL).is_none());
    assert!(shell.pinged, "seen on screen: marked as told, no ring later");
    // Without a status the screen needs a full minute of stillness.
    shell.agent = agent(None, None);
    shell.pinged = false;
    shell.last_content_change = NOW - 30 * SECOND;
    shell.tick_ping(false, NOW, WALL);
    assert!(!shell.pinged, "30 s of a still screen is a tool call, not idleness");
    shell.last_content_change = NOW - PING_AFTER_SCREEN;
    shell.tick_ping(false, NOW, WALL);
    assert!(shell.pinged);
    // What goes to the host: a bell, then every notification dialect.
    let name = upstream_name();
    let notice = idle_notice(&name, "ricon");
    assert!(notice.starts_with('\x07'), "bell first");
    for route in [
        format!("\x1b]9;ricon: {name} in ricon is waiting for you\x07"),
        "\x1b]777;notify;ricon;".to_string(),
        format!("\x1b]99;i=1:p=body;{name} in ricon"),
    ] {
        assert!(notice.contains(&route), "{route:?} in {notice:?}");
    }
}

#[test]
fn auto_nudges_an_idle_agent_once_per_silence() {
    let mut shell = test_shell();
    shell.last_content_change = NOW - IDLE_NUDGE;
    assert!(nudge_if_idle(&mut shell, true, NOW).is_empty(), "no agent in the shell: no nudge");
    shell.agent = agent(None, None);
    // The agent does not hold the terminal: nothing is typed at whatever does.
    assert!(nudge_if_idle(&mut shell, false, NOW).is_empty(), "the agent does not own the tty: no nudge");
    assert!(shell.nudge.is_none());
    // The look at the terminal is throttled, and the refusal above just spent it.
    assert!(nudge_if_idle(&mut shell, true, NOW).is_empty());
    shell.tty_checked = NOW - SAMPLE_EVERY;
    assert_eq!(nudge_if_idle(&mut shell, true, NOW), typed(COMPACT_COMMAND), "the compact command was typed");
    assert!(matches!(shell.nudge, Some(Nudge::Compacting(_))), "the compact step is recorded");
    // The nudge itself starts a new silence, so the next frame types nothing.
    assert!(nudge_if_idle(&mut shell, true, NOW).is_empty(), "one nudge per silence");
    // The client's echo of the command is fresh content — the compaction under way.
    let mut term = Terminal::new(24, 80, 100);
    term.process(b"/compact\r\n");
    shell.tick_activity(true, 1, term.screen(), NOW);
    assert!(matches!(shell.nudge, Some(Nudge::Compacting(_))), "still compacting");
    assert!(NOW - shell.last_content_change < IDLE_NUDGE, "new content re-arms the idle clock");
    assert!(nudge_if_idle(&mut shell, true, NOW).is_empty(), "a compaction under way is not interrupted");
    // Settled: the screen changed after the command and then stood still.
    shell.nudge = Some(Nudge::Compacting(NOW - COMPACT_SETTLE * 2));
    shell.last_content_change = NOW - COMPACT_SETTLE;
    assert_eq!(nudge_if_idle(&mut shell, true, NOW), typed("continue"), "the continue text was typed");
    assert!(matches!(shell.nudge, Some(Nudge::Continued(_))), "the continue step is recorded");
    // The agent's echo of the text is fresh content, but it must not take the mark
    // down with it.
    term.process(b"continue\r\n");
    shell.tick_activity(true, 2, term.screen(), NOW + SECOND);
    assert!(shell.nudge.is_some(), "the mark outlives the agent's own echo");
    assert!(nudge_if_idle(&mut shell, true, NOW + SECOND).is_empty(), "a busy agent is never interrupted");
    // Once the mark has had its time on screen, the agent's next answer clears it.
    shell.nudge = Some(Nudge::Continued(NOW - NUDGE_MARK));
    term.process(b"answered\r\n");
    shell.tick_activity(true, 3, term.screen(), NOW);
    nudge_if_idle(&mut shell, true, NOW);
    assert!(shell.nudge.is_none(), "an answered nudge, once seen, clears the mark");
    // An agent that answered within the mark's time and has been silent ever since is
    // cleared too.
    let at = NOW - NUDGE_MARK;
    shell.nudge = Some(Nudge::Continued(at));
    shell.last_content_change = at + SECOND;
    nudge_if_idle(&mut shell, true, NOW);
    assert!(shell.nudge.is_none(), "a quick answer clears the mark once it has been seen");
    // Switching auto off abandons a nudge under way, mark included.
    let mut tab = Tab { shells: vec![shell], active: 0, favorite: false, auto: false };
    tab.shells[0].nudge = Some(Nudge::Compacting(NOW));
    assert_eq!(tab.nudge_ask(0, NOW, WALL), NudgeAsk::Nothing);
    assert!(tab.shells[0].nudge.is_none(), "auto off: no half-done nudge survives");
}

#[test]
fn a_compaction_that_never_answers_times_out_into_continue() {
    let mut shell = test_shell();
    shell.agent = agent(None, None);
    let at = NOW - COMPACT_TIMEOUT;
    shell.nudge = Some(Nudge::Compacting(at));
    shell.last_content_change = at; // nothing changed since the command
    assert!(shell.compaction_done(at, NOW, WALL), "timed out");
    assert_eq!(nudge_if_idle(&mut shell, true, NOW), typed("continue"));
    assert!(matches!(shell.nudge, Some(Nudge::Continued(_))));
    // The agent gone mid-nudge: the second step is dropped, not typed at whatever took
    // the terminal.
    shell.nudge = Some(Nudge::Compacting(at));
    assert!(nudge_if_idle(&mut shell, false, NOW).is_empty());
    assert!(shell.nudge.is_none(), "no agent on the tty: the nudge is abandoned");
}

#[test]
fn a_compaction_that_still_draws_does_not_time_out() {
    let mut shell = test_shell();
    shell.agent = agent(None, None);
    let at = NOW - COMPACT_TIMEOUT * 2;
    shell.last_content_change = NOW - COMPACT_SETTLE + 1; // a spinner, still
    assert!(!shell.compaction_done(at, NOW, WALL));
    assert!(shell.compaction_done(at, NOW + 1, WALL), "it stood still");
    shell.nudge = Some(Nudge::Compacting(at));
    assert!(nudge_if_idle(&mut shell, true, NOW).is_empty(), "nothing is typed into it");
    assert_eq!(shell.nudge, Some(Nudge::Compacting(at)));
    shell.agent = agent(None, idle(1));
    assert!(shell.compaction_done(at, NOW, WALL), "the client says so");
}

#[test]
fn a_nudge_is_confirmed_by_an_enter_of_its_own() {
    for bracketed in [false, true] {
        for text in [COMPACT_COMMAND, "continue"] {
            let out = bytes(&submit(text, bracketed));
            let pasted = if bracketed { format!("\x1b[200~{text}\x1b[201~") } else { text.to_string() };
            assert_eq!(out, typed(&pasted), "the text whole, a pause, and Enter alone");
        }
    }
    assert_eq!(pasted_bytes("é", true), "\x1b[200~é\x1b[201~".as_bytes());
    assert_eq!(typed_line("ls"), b"ls\r");
}

#[test]
fn idle_is_the_screen_standing_still_not_the_absence_of_bytes() {
    let mut shell = test_shell();
    let mut term = Terminal::new(24, 80, 100);
    term.process(b"prompt$ ");
    shell.agent = agent(None, None);
    shell.tick_activity(true, 1, term.screen(), NOW);
    let idle_since = shell.last_content_change;
    // Bytes that leave the screen exactly as it was: the shell is still idle.
    shell.tick_activity(true, 2, term.screen(), NOW + SECOND);
    assert_eq!(shell.last_content_change, idle_since, "a repaint of the same screen is not activity");
    assert!(shell.last_change > idle_since, "the byte clock still moves — the spinner rides on it");
    // Content that actually changed does move it.
    term.process(b"echo alive\r\nalive\r\n");
    shell.tick_activity(true, 3, term.screen(), NOW + 2 * SECOND);
    assert!(shell.last_content_change > idle_since, "changed content is activity");
}

#[test]
fn auto_off_types_nothing_at_an_idle_agent() {
    assert_eq!(IDLE_NUDGE, 10 * 60 * SECOND, "ten minutes of silence");
    let mut shell = test_shell();
    shell.agent = agent(None, None);
    shell.last_content_change = NOW - IDLE_NUDGE;
    let mut tab = Tab::new(shell);
    assert!(!tab.auto);
    assert_eq!(tab.nudge_ask(0, NOW, WALL), NudgeAsk::Nothing, "auto off: nothing is typed");
    assert!(tab.shells[0].nudge.is_none(), "and no nudge is recorded");
    // The same tab with the button on does nudge: the flag is the only gate.
    tab.auto = true;
    assert_eq!(tab.nudge_ask(0, NOW, WALL), NudgeAsk::Terminal);
    let out = tab.shells[0].nudge_step(true, "continue", false, NOW, WALL);
    assert_eq!(bytes(&out), typed(COMPACT_COMMAND), "auto on: the compact command was typed");
}

#[test]
fn a_stale_idle_status_does_not_outlive_the_users_input() {
    let mut shell = test_shell();
    let status = idle(60);
    shell.agent = agent(None, status);
    shell.last_input = NOW - IDLE_NUDGE * 2;
    assert_eq!(shell.status(NOW, WALL), status, "idle since after the last keystroke");
    shell.last_input = NOW;
    assert_eq!(shell.status(NOW, WALL), None, "read before the Enter just sent: not trusted");
}

#[test]
fn the_continue_step_never_lands_in_what_the_user_is_typing() {
    let mut shell = test_shell();
    shell.agent = agent(None, None);
    let at = NOW - COMPACT_TIMEOUT;
    shell.nudge = Some(Nudge::Compacting(at));
    shell.last_content_change = at;
    shell.last_input = NOW; // the user came back mid-compaction
    assert!(nudge_if_idle(&mut shell, true, NOW).is_empty(), "nothing typed into the draft");
    assert!(shell.nudge.is_none(), "the nudge is abandoned");
}

#[test]
fn tick_activity_flags_unseen_output_and_animates() {
    let mut shell = test_shell();
    let term = Terminal::new(24, 80, 100);
    // Quiescent baseline: everything settled long ago.
    shell.seen_activity = 7;
    shell.last_change = NOW - SETTLE * 2;
    shell.tick_activity(false, 7, term.screen(), NOW);
    assert!(!shell.animating && !shell.unseen_output);
    // New output while the shell is off screen → marker + animation.
    shell.tick_activity(false, 8, term.screen(), NOW);
    assert!(shell.animating && shell.unseen_output);
    // Focusing the shell clears the marker but not the running animation.
    shell.tick_activity(true, 8, term.screen(), NOW);
    assert!(shell.animating && !shell.unseen_output);
}

#[test]
fn tick_activity_ignores_output_within_resize_grace() {
    let mut shell = test_shell();
    let term = Terminal::new(24, 80, 100);
    shell.last_change = NOW - SETTLE * 2;
    shell.resize(NOW); // a resize just happened
    shell.tick_activity(false, 1, term.screen(), NOW);
    assert!(!shell.animating && !shell.unseen_output);
}

#[test]
fn shell_replays_pending_command_after_prompt() {
    let mut shell = Shell::new(1, None, "/tmp".into(), Some("echo RICON_RESTORED".into()), NOW);
    assert_eq!(shell.flush_pending(0, NOW + SECOND), None, "no output yet: no prompt");
    assert_eq!(shell.flush_pending(1, NOW), None, "a beat to come up");
    assert_eq!(shell.flush_pending(1, NOW + SECOND), Some(b"echo RICON_RESTORED\r".to_vec()));
    assert!(shell.pending_cmd.is_none());
    assert_eq!(shell.last_cmd.as_deref(), Some("echo RICON_RESTORED"), "replayable at once");
    assert_eq!(shell.flush_pending(1, NOW + SECOND), None, "once");
}

#[test]
fn shell_reports_foreground_process_and_cmdline() {
    let mut shell = test_shell();
    shell.sampled(Some("/tmp/b".into()), Some("sleep".into()), Some("bash".into()), Some("sleep 30".into()));
    assert_eq!(shell.process, "sleep");
    assert_eq!(shell.fg_cmd.as_deref(), Some("sleep 30"));
    assert_eq!(shell.cwd.as_deref(), Some("/tmp/b"));
    shell.sampled(None, None, Some("bash".into()), None);
    assert_eq!(shell.process, "bash", "the shell's own name stands in");
    assert_eq!(shell.cwd.as_deref(), Some("/tmp/b"), "a failed read keeps the last known folder");
    shell.sampled(None, None, None, None);
    assert_eq!(shell.process, "?");
}

/// Type `text` at the prompt, echoed as a shell would.
fn type_echoed(shell: &mut Shell, term: &mut Terminal, text: &str) {
    for b in text.bytes() {
        shell.typed(&[b], true, term.screen_mut(), NOW);
        term.process(&[b]);
    }
}

#[test]
fn replay_captures_typed_command_from_echo() {
    let mut shell = test_shell();
    let mut term = Terminal::new(24, 80, 100);
    term.process(b"prompt$ ");
    type_echoed(&mut shell, &mut term, "sleep 30");
    shell.typed(b"\r", true, term.screen_mut(), NOW);
    assert_eq!(shell.last_cmd.as_deref(), Some("sleep 30"), "typed command captured at Enter");
    assert_eq!(shell.last_input, NOW);
}

#[test]
fn replay_captures_builtin_the_proc_scan_would_miss() {
    let mut shell = test_shell();
    let mut term = Terminal::new(24, 80, 100);
    term.process(b"prompt$ ");
    type_echoed(&mut shell, &mut term, ": RICON_BUILTIN");
    shell.typed(b"\r", true, term.screen_mut(), NOW);
    // Not one look at the processes could have caught it, yet it is replayable.
    shell.sampled(None, None, Some("bash".into()), None);
    assert!(shell.fg_cmd.is_none(), "builtin left no foreground process");
    assert_eq!(shell.last_cmd.as_deref(), Some(": RICON_BUILTIN"), "builtin captured anyway");
    assert!(shell.replayable());
}

#[test]
fn shell_resize_updates_screen_and_starts_grace() {
    let mut shell = test_shell();
    let mut term = Terminal::new(24, 80, 100);
    term.resize(30, 100);
    shell.resize(NOW);
    assert_eq!(term.screen().size(), (30, 100));
    assert!(NOW - shell.resized < RESIZE_GRACE);
}

#[test]
fn replay_captures_edited_line_as_executed() {
    let mut shell = test_shell();
    let mut term = Terminal::new(24, 80, 100);
    term.process(b"prompt$ ");
    // Type ": AB", backspace the B, type C → the shell shows ": AC".
    type_echoed(&mut shell, &mut term, ": AB");
    shell.typed(&[0x7f], true, term.screen_mut(), NOW);
    term.process(b"\x08 \x08");
    type_echoed(&mut shell, &mut term, "C");
    shell.typed(b"\r", true, term.screen_mut(), NOW);
    assert_eq!(shell.last_cmd.as_deref(), Some(": AC"), "captured the edited line, not the keystrokes");
}

#[test]
fn replay_ignores_input_while_a_program_owns_the_tty() {
    let mut shell = test_shell();
    let mut term = Terminal::new(24, 80, 100);
    term.process(b"prompt$ ");
    type_echoed(&mut shell, &mut term, "sleep 30");
    shell.typed(b"\r", true, term.screen_mut(), NOW);
    for b in b"ignored keys\r" {
        shell.typed(&[*b], false, term.screen_mut(), NOW);
    }
    assert_eq!(shell.last_cmd.as_deref(), Some("sleep 30"), "input to a program is not captured");
    assert!(shell.cmd_anchor.is_none(), "no command line armed under a program");
}

#[test]
fn an_abandoned_line_is_not_a_command() {
    let mut shell = test_shell();
    let mut term = Terminal::new(24, 80, 100);
    term.process(b"$ ");
    type_echoed(&mut shell, &mut term, "rm x");
    shell.typed(&[3], true, term.screen_mut(), NOW);
    term.process(b"^C\r\n$ ");
    assert!(shell.cmd_anchor.is_none());
    type_echoed(&mut shell, &mut term, "ls");
    shell.typed(b"\r", true, term.screen_mut(), NOW);
    assert_eq!(shell.last_cmd.as_deref(), Some("ls"));
    // Enter at an empty prompt keeps the last command.
    term.process(b"\r\n$ ");
    shell.typed(b"\r", true, term.screen_mut(), NOW);
    assert_eq!(shell.last_cmd.as_deref(), Some("ls"));
}

#[test]
fn who_holds_the_terminal_is_the_foreground_group() {
    let mut shell = test_shell();
    assert!(shell.at_prompt(None, None), "the shell itself");
    assert!(shell.at_prompt(Some(9), Some("zsh")), "a nested shell");
    assert!(!shell.at_prompt(Some(9), Some("vim")));
    assert!(!shell.at_prompt(Some(9), None));
    assert!(!shell.agent_has_tty(Some(9), Some(9)), "no agent");
    shell.agent = agent(None, None);
    assert!(shell.agent_has_tty(Some(9), Some(9)));
    assert!(!shell.agent_has_tty(Some(9), Some(8)), "another group");
    assert!(!shell.agent_has_tty(None, None), "the shell's prompt");
}

#[test]
fn an_agent_that_left_ends_its_transcript() {
    let mut shell = test_shell();
    assert!(shell.log_meta().is_none());
    assert!(!shell.set_agent(agent(None, None)), "one that came ends nothing");
    assert!(!shell.set_agent(agent(None, idle(1))), "nor does the same one");
    let meta = shell.log_meta().expect("an agent");
    assert_eq!((meta.agent, meta.model, meta.cwd.as_str(), meta.pid), (upstream_name(), opus(), "/tmp/alpha", 4242));
    let other = AgentInfo { pid: 2, ..agent(None, None).expect("agent") };
    assert!(shell.set_agent(Some(other)), "another took its place");
    assert!(shell.set_agent(None), "gone");
}

#[test]
fn spawned_shells_do_not_inherit_the_host_terminal_identity() {
    assert_eq!(TERM, "xterm-256color");
    assert_eq!(
        host_terminal_vars(),
        ["VTE_VERSION", "TERM_PROGRAM", "TERM_PROGRAM_VERSION", "COLUMNS", "LINES"]
    );
}

#[test]
fn default_shell_is_never_empty() {
    assert!(!default_shell(None).is_empty());
    assert_eq!(default_shell(None), "/bin/bash");
    assert_eq!(default_shell(Some("/bin/zsh".into())), "/bin/zsh");
    assert_eq!(default_shell(Some(String::new())), "/bin/bash");
}
