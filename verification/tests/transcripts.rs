use ricon::probe::upstream_name;
use ricon::screen::Terminal;
use ricon::stamp::{now, offset_read, stale, stamp, local_stamp, OffsetCache, Stamp};
use ricon::transcript::{
    block_text, compact, marker_due, sidecar_text, transcript_header, transcript_name, trimmed,
    worth_closing, worth_writing, Meta, Pump, Transcript, SNAPSHOT_EVERY, SNAPSHOT_SETTLE, TAIL_EVERY,
};

const SECOND: u64 = 1_000_000_000;
const NOW: u64 = 100_000 * SECOND;

fn stamp_of(year: i64, month: u32, day: u32, hour: u32, min: u32, sec: u32) -> Stamp {
    Stamp { year, month, day, hour, min, sec }
}

#[test]
fn stamp_reads_a_unix_second_as_civil_date_and_time() {
    assert_eq!(stamp(0), stamp_of(1970, 1, 1, 0, 0, 0), "the epoch itself");
    assert_eq!(stamp(1_771_632_896), stamp_of(2026, 2, 21, 0, 14, 56), "an ordinary moment");
    // A leap day, the day after it, and a century that is not a leap year.
    assert_eq!(stamp(1_709_209_800), stamp_of(2024, 2, 29, 12, 30, 0), "leap day");
    assert_eq!(stamp(1_709_296_200), stamp_of(2024, 3, 1, 12, 30, 0), "the day after");
    assert_eq!(stamp(4_107_542_400), stamp_of(2100, 3, 1, 0, 0, 0), "1900-rule century");
    // Before the epoch the arithmetic must floor, not truncate towards zero.
    assert_eq!(stamp(-1), stamp_of(1969, 12, 31, 23, 59, 59), "one second before");
}

#[test]
fn stamp_formats_the_dated_file_name_and_its_markers() {
    let at = stamp(1_771_632_896);
    assert_eq!(at.date(), "2026-02-21", "the dated directory");
    assert_eq!(at.time(), "00:14:56", "the marker inside the file");
    assert_eq!(at.compact(), "001456", "the file name carries no colons");
    assert_eq!(at.full(), "2026-02-21 00:14:56", "the header");
}

#[test]
fn the_wall_clock_is_read_with_the_local_offset() {
    assert_eq!(local_stamp(Some(0), 3600), stamp_of(1970, 1, 1, 1, 0, 0));
    assert_eq!(local_stamp(None, 0), stamp_of(1970, 1, 1, 0, 0, 0));
    let mut cache = OffsetCache { read: None };
    assert!(now(&mut cache, NOW).year >= 2024);
    let (at, offset) = cache.read.expect("the offset is kept");
    assert_eq!(at, NOW);
    assert!(offset.abs() <= 14 * 3600);
    assert_eq!(stale(10, 3), 7);
    assert_eq!(stale(2, 3), 2);
}

fn test_meta() -> Meta {
    Meta {
        agent: upstream_name(),
        model: format!("{}-opus-5", upstream_name()),
        cwd: "/home/dev/code/gen/ricon".into(),
        pid: 4242,
    }
}

/// A terminal, its transcript, and the file the transcript is written to.
struct Console {
    term: Terminal,
    log: Transcript,
    file: Option<String>,
    tail: Option<String>,
    files: Vec<String>,
    now: u64,
}

impl Console {
    fn new(rows: u16, cols: u16, scrollback: usize) -> Self {
        Console {
            term: Terminal::new(rows, cols, scrollback),
            log: Transcript::new(scrollback, NOW),
            file: None,
            tail: None,
            files: Vec::new(),
            now: NOW,
        }
    }

    fn armed(rows: u16, cols: u16, scrollback: usize) -> Self {
        let mut console = Self::new(rows, cols, scrollback);
        assert!(console.log.arm(test_meta(), true).is_some());
        console
    }

    fn open(&mut self) -> &mut String {
        self.file.get_or_insert_with(|| transcript_header(&test_meta(), &stamp(0)))
    }

    fn append(&mut self, lines: &Vec<String>, snapshot: bool) {
        if !lines.is_empty() {
            let dated = if marker_due(snapshot, self.now, self.now) { Some(stamp(0)) } else { None };
            let block = block_text(lines, &dated);
            self.open().push_str(&block);
        }
    }

    fn pump(&mut self, pump: Pump) {
        let Some(take) = self.log.pump(self.term.screen_mut(), pump, self.now) else { return };
        if !worth_writing(&take, self.file.is_some()) {
            return;
        }
        self.open();
        self.append(&take.history, false);
        self.append(&take.snapshot, true);
        if let Some(lines) = take.tail {
            self.tail = Some(sidecar_text(&lines));
            self.log.mirrored(lines);
        }
    }

    fn feed(&mut self, text: &str) {
        self.term.process(text.as_bytes());
        self.pump(Pump::Output);
    }

    /// Feed `text` through the transcript, which counts the rows it pushes.
    fn feed_counted(&mut self, text: &str) {
        self.log.process(&mut self.term, text.as_bytes());
        self.pump(Pump::Output);
    }

    fn close(&mut self) {
        let Some(closing) = self.log.close(self.term.screen_mut()) else { return };
        if worth_closing(&closing, self.file.is_some()) {
            self.open();
            self.append(&closing.history, false);
            self.append(&closing.screen, true);
            self.tail = None;
        }
        self.files.extend(self.file.take());
    }

    fn text(&self) -> &str {
        self.file.as_deref().or(self.files.last().map(|f| f.as_str())).expect("a transcript")
    }
}

#[test]
fn later_moments_read_later() {
    let fields = |t: i64| {
        let s = stamp(t);
        (s.year, s.month, s.day, s.hour, s.min, s.sec)
    };
    for t in [-86_401, -1, 0, 59, 86_399, 951_782_399, 951_868_799, 1_709_251_199, 4_107_542_399] {
        assert!(fields(t) < fields(t + 1), "{t}");
        assert!(fields(t) < fields(t + 100_000_000), "{t}");
    }
}

#[test]
fn padding_is_taken_out_at_once() {
    let lines: Vec<String> = ["", "", "a", " ", "", "b", "", ""].map(String::from).to_vec();
    let once = compact(lines);
    assert_eq!(once, ["", "a", "", "b", ""]);
    assert_eq!(compact(once.clone()), once);
    assert_eq!(trimmed(trimmed(once)), ["", "a", "", "b"]);
}

#[test]
fn an_offset_nobody_knows_is_none() {
    let mut cache = OffsetCache { read: None };
    assert_eq!(offset_read(&mut cache, Some(7200), 5), 7200);
    assert_eq!(cache.read, Some((5, 7200)));
    assert_eq!(offset_read(&mut cache, None, 6), 0);
    assert_eq!(cache.read, Some((6, 0)));
}

#[test]
fn transcript_commits_lines_as_they_scroll_off_the_screen() {
    let mut c = Console::armed(4, 40, 100);
    assert!(c.log.armed(), "an agent was detected in this shell");
    c.feed("alpha\r\nbeta\r\ngamma\r\ndelta\r\nepsilon\r\n");
    let header = format!("{0} ({0}-opus-5)", upstream_name());
    assert!(c.text().contains(&header), "the header names the session: {}", c.text());
    assert!(c.text().contains("alpha"), "the oldest line is committed: {}", c.text());
    assert!(c.text().contains("beta"), "and the ones behind it: {}", c.text());
    assert!(!c.text().contains("epsilon"), "the live screen is not committed twice: {}", c.text());
    c.pump(Pump::Flush); // the sidecar is the flush thread's
    let tail = c.tail.clone().expect("the uncommitted screen is mirrored beside it");
    assert!(tail.contains("epsilon"), "a power cut still finds the newest line: {tail}");
    c.close();
    assert!(c.text().contains("epsilon"), "closing folds the last screen in: {}", c.text());
    assert!(!c.log.armed(), "a closed transcript takes no more writes");
    assert!(c.tail.is_none(), "and the sidecar is gone");
}

#[test]
fn transcript_never_commits_the_same_line_twice() {
    let mut c = Console::armed(4, 40, 100);
    c.feed("alpha\r\nbeta\r\ngamma\r\ndelta\r\nepsilon\r\n");
    // Quiet passes and further output must not re-commit what is already in.
    c.feed("");
    c.pump(Pump::Flush);
    c.feed("zeta\r\n");
    c.close();
    let text = c.text();
    assert_eq!(text.matches("alpha").count(), 1, "committed once: {text}");
    assert_eq!(text.matches("epsilon").count(), 1, "even as it scrolls off later: {text}");
    assert_eq!(text.matches("zeta").count(), 1, "and the last screen is folded in once: {text}");
}

#[test]
fn transcript_starts_at_the_tail_of_history_that_predates_the_agent() {
    let mut c = Console::new(4, 40, 5000);
    // A shell with a long life behind it: a build log, not a session.
    let old: String = (0..900).map(|n| format!("old-{n}\r\n")).collect();
    c.feed(&old);
    c.log.arm(test_meta(), true);
    c.feed("hello agent\r\n");
    c.close();
    let text = c.text();
    assert!(!text.contains("old-1\n"), "history far behind the agent is left out");
    assert!(text.contains("old-899"), "the lines around it are context: {text}");
    assert!(text.contains("hello agent"), "and the session itself is in: {text}");
}

#[test]
fn transcript_snapshots_the_alternate_screen_where_nothing_scrolls_off() {
    let mut c = Console::armed(6, 40, 100);
    c.feed("\x1b[?1049h\x1b[H\x1b[2J opencode\r\n");
    c.pump(Pump::Flush);
    c.feed("> what does this do?\r\nit reads the code");
    let committed = c.file.as_deref().is_some_and(|text| text.contains("it reads the code"));
    assert!(!committed, "a frame still being drawn is never committed");
    c.now += SECOND / 2;
    c.pump(Pump::Flush); // the console went quiet: the frame is finished
    let text = c.text();
    assert!(text.contains("what does this do?"), "the screen is snapshotted: {text}");
    assert!(text.contains("it reads the code"), "all of it: {text}");
    assert!(c.tail.is_some(), "a crash mid-stream still leaves the live frame beside it");
    c.close();
    let text = c.text();
    assert_eq!(
        text.matches("it reads the code").count(),
        1,
        "the last snapshot is not folded in twice: {text}"
    );
    assert!(c.tail.is_none(), "and the sidecar is gone");
}

#[test]
fn transcript_capture_leaves_the_users_scroll_position_alone() {
    let mut c = Console::armed(4, 40, 100);
    c.feed("one\r\ntwo\r\nthree\r\nfour\r\nfive\r\nsix\r\n");
    c.term.screen_mut().set_scrollback(2); // the user scrolled back to read
    c.pump(Pump::Flush);
    assert_eq!(c.term.screen().scrollback(), 2, "the view is put back");
    c.feed("seven\r\n");
    assert_eq!(c.term.screen().scrollback(), 3, "and stays on its text as output arrives");
}

#[test]
fn no_transcript_is_written_for_a_shell_with_no_agent() {
    let mut c = Console::new(4, 40, 100);
    assert!(!c.log.armed(), "nothing is transcribed until a client is detected");
    c.feed("secret\r\nlines\r\nin\r\na\r\nplain\r\nshell\r\n");
    c.close();
    assert!(c.file.is_none() && c.files.is_empty(), "no file at all");
}

#[test]
fn transcript_keeps_writing_after_the_scrollback_is_full() {
    let (cap, rows) = (40, 4);
    let mut c = Console::armed(rows, 40, cap);
    // Chunks of every size up to the point the anchor itself would be pushed out,
    // crossing the cap many times over.
    let mut n = 0;
    for size in (1..=cap - 16).cycle().take(30) {
        let chunk: String = (n..n + size).map(|i| format!("line-{i:05}\r\n")).collect();
        c.feed(&chunk);
        n += size;
    }
    c.close();
    let got: Vec<usize> =
        c.text().lines().filter_map(|l| l.strip_prefix("line-")).filter_map(|l| l.parse().ok()).collect();
    let want: Vec<usize> = (0..n).collect();
    assert_eq!(got, want, "every line exactly once, in order");
}

#[test]
fn counted_lines_are_committed_once_and_in_order() {
    let (cap, rows) = (40, 4);
    let mut c = Console::armed(rows, 40, cap);
    // Counted chunks, the largest of which leave a single committed row in the history.
    let mut n = 0;
    for size in (1..=cap - 2).cycle().take(60) {
        let chunk: String = (n..n + size).map(|i| format!("line-{i:05}\r\n")).collect();
        c.feed_counted(&chunk);
        n += size;
    }
    c.close();
    let got: Vec<usize> =
        c.text().lines().filter_map(|l| l.strip_prefix("line-")).filter_map(|l| l.parse().ok()).collect();
    let want: Vec<usize> = (0..n).collect();
    assert_eq!(got, want);
}

#[test]
fn counted_rows_may_all_be_the_same() {
    let mut c = Console::armed(4, 40, 20);
    for _ in 0..30 {
        c.feed_counted("again\r\nagain\r\n");
    }
    c.close();
    assert_eq!(c.text().lines().filter(|l| *l == "again").count(), 60);
}

#[test]
fn an_uncounted_row_like_the_last_one_is_committed_too() {
    let mut c = Console::armed(4, 40, 100);
    c.feed("same\r\nsame\r\nsame\r\nsame\r\nsame\r\n");
    c.feed("same\r\n");
    c.feed("same\r\nother\r\n");
    c.close();
    let got: Vec<&str> = c.text().lines().filter(|l| *l == "same" || *l == "other").collect();
    assert_eq!(got, ["same", "same", "same", "same", "same", "same", "same", "other"]);
}

#[test]
fn counting_leaves_the_screen_a_plain_parse_leaves() {
    for view in [0, 2] {
        let chunks = ["a\r\nb\r\nc\r\nd\r\ne\r\n", "f\r\ng\r\n", "\x1b[?1049hfull\x1b[?1049l", "h\r\ni"];
        let mut c = Console::armed(4, 40, 6);
        let mut twin = Terminal::new(4, 40, 6);
        for chunk in chunks {
            c.term.screen_mut().set_scrollback(view);
            twin.screen_mut().set_scrollback(view);
            c.log.process(&mut c.term, chunk.as_bytes());
            twin.process(chunk.as_bytes());
            assert_eq!(c.term.screen().scrollback(), twin.screen().scrollback());
            assert_eq!(c.term.screen().contents(), twin.screen().contents());
            assert_eq!(c.term.screen().cursor_position(), twin.screen().cursor_position());
        }
    }
}

#[test]
fn a_second_close_hands_nothing_over() {
    let mut c = Console::armed(4, 40, 100);
    c.feed("a\r\nb\r\nc\r\nd\r\ne\r\n");
    assert!(c.log.close(c.term.screen_mut()).is_some());
    let (logged, pushed) = (c.log.capture.logged, c.log.pushed);
    c.term.process(b"f\r\ng\r\n");
    assert!(c.log.close(c.term.screen_mut()).is_none());
    assert!(!c.log.armed());
    assert_eq!((c.log.capture.logged, c.log.pushed), (logged, pushed));
}

#[test]
fn sessions_are_numbered_as_they_are_opened() {
    let mut c = Console::new(4, 40, 100);
    for n in 1..=3 {
        assert_eq!(c.log.arm(test_meta(), false), None, "transcripts are off");
        assert_eq!(c.log.arm(test_meta(), true), Some(n));
        assert_eq!(c.log.arm(test_meta(), true), None, "one is on");
        assert!(c.log.serves(n) && !c.log.serves(n + 1));
        c.close();
    }
}

#[test]
fn the_first_screen_is_recorded_at_once() {
    let log = Transcript::new(100, NOW);
    assert_eq!(log.capture.snapped, NOW - SNAPSHOT_EVERY);
    assert_eq!(log.capture.drawn, NOW - SNAPSHOT_SETTLE);
    assert_eq!(log.capture.burst, NOW);
    assert_eq!(log.capture.tailed, NOW - TAIL_EVERY);
}

#[test]
fn transcript_close_commits_what_scrolled_off_since_the_last_pass() {
    let mut c = Console::armed(4, 40, 100);
    c.feed("first\r\n");
    // Parsed, but never handed over: the tab closed.
    c.term.process(b"a\r\nb\r\nc\r\nd\r\ne\r\nf\r\n");
    c.close();
    let text = c.text();
    for line in ["first", "a", "b", "f"] {
        assert!(text.lines().any(|l| l == line), "{line:?} is in: {text}");
    }
}

#[test]
fn transcript_ends_with_its_agent_and_the_next_one_gets_a_file_of_its_own() {
    let mut c = Console::new(4, 40, 100);
    let first = c.log.arm(test_meta(), true).expect("first session");
    assert!(c.log.serves(first));
    c.feed("session-one\r\n1\r\n2\r\n3\r\n4\r\n");
    assert_eq!(c.log.arm(test_meta(), true), None, "one session at a time");
    c.close();
    assert!(!c.log.serves(first), "its flush thread retires");
    // The agent is gone: the shell's own output is nobody's transcript.
    c.feed("private\r\nshell\r\nwork\r\nhere\r\n");
    let second = c.log.arm(test_meta(), true).expect("second session");
    assert_ne!(first, second);
    c.feed("session-two\r\nx\r\ny\r\nz\r\nw\r\n");
    c.close();
    assert_eq!(c.files.len(), 2, "a file per session: {:?}", c.files);
    let one = c.files.iter().find(|t| t.contains("session-one")).expect("first file");
    let two = c.files.iter().find(|t| t.contains("session-two")).expect("second file");
    assert!(!two.contains("session-one"), "the first session is not written again: {two}");
    assert!(!one.contains("session-two"), "nor the second into the first: {one}");
    let off = Transcript::new(100, NOW).arm(test_meta(), false);
    assert_eq!(off, None, "transcripts off: nothing starts");
}

#[test]
fn a_wrapped_line_is_committed_whole() {
    let mut c = Console::armed(3, 10, 100);
    let long = "abcdefghijklmnopqrstuvwxyz";
    c.feed(&format!("{long}\r\none\r\ntwo\r\nthree\r\nfour\r\n"));
    assert!(c.text().lines().any(|l| l == long), "{}", c.text());
    // One that begins in the history and ends on screen is whole once closed.
    let mut c = Console::armed(2, 10, 100);
    c.feed(long);
    c.close();
    assert!(c.text().lines().any(|l| l == long), "{}", c.text());
}

#[test]
fn a_session_with_nowhere_to_write_stops() {
    let mut c = Console::armed(4, 40, 100);
    c.log.disarm();
    assert!(!c.log.armed());
    c.feed("a\r\nb\r\nc\r\nd\r\ne\r\n");
    assert!(c.file.is_none());
    assert_eq!(c.log.arm(test_meta(), true), None, "the same session is not retried");
}

#[test]
fn blocks_are_dated_after_a_quiet_stretch() {
    assert!(marker_due(true, NOW, NOW), "a snapshot always");
    assert!(!marker_due(false, NOW, NOW + 59 * SECOND));
    assert!(marker_due(false, NOW, NOW + 60 * SECOND));
    let lines = vec!["a  ".to_string(), "b".to_string()];
    assert_eq!(block_text(&lines, &None), "a\nb\n");
    assert_eq!(block_text(&lines, &Some(stamp(0))), "\n──── 00:00:00 ────\na\nb\n");
    assert_eq!(sidecar_text(&lines), "a  \nb\n");
}

#[test]
fn a_transcript_is_named_after_its_session() {
    let at = stamp(1_771_632_896);
    let name = upstream_name();
    assert_eq!(transcript_name(&test_meta(), &at), format!("001456-{name}-ricon-4242"));
    assert_eq!(
        transcript_header(&test_meta(), &at),
        format!(
            "# ricon session transcript\n# started 2026-02-21 00:14:56\n# agent   {name} ({name}-opus-5)\n# cwd     /home/dev/code/gen/ricon\n\n"
        )
    );
}

#[test]
fn a_screen_dump_loses_its_padding() {
    let lines = |v: &[&str]| v.iter().map(|s| s.to_string()).collect::<Vec<_>>();
    assert_eq!(trimmed(lines(&["a", " ", "b", "", "  "])), lines(&["a", " ", "b"]));
    assert_eq!(compact(lines(&["", " ", "a", "", "  ", "b", " "])), lines(&["", "a", "", "b", ""]));
}
