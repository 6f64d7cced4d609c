//! The saved session: the tabs and shells that reopen on the next start, and
//! the text file they are kept in.
//!
//! One shell per line as `[>][!][@][+][*]folder\tcommand`. A line without `+`
//! starts a new tab (its parent); `+` lines are that tab's subshells in order.
//! `>` marks the active tab, `!` a favorite tab, `@` a tab whose auto feature
//! is on (all three on the parent line only), `*` the active shell within its
//! tab, and the command is left out when only the shell itself ran. Paths are
//! absolute, so the markers are unambiguous. A leading `-` is an older spelling
//! of "auto off", still read so older files restore their tabs. A line starting
//! with `#` is an app-wide setting rather than a shell.

use vstd::prelude::*;
use crate::text;
use crate::text::{chars, copy, copy_opt, extend, index_from, is, push_joined, range, same_opt, same_str, split_lines, string};

verus! {

/// The line that records copy mode switched off; on is the default and is not
/// written.
pub const COPY_OFF_LINE: &'static str = "#copy off";

/// One saved shell: its folder and the command running in it, if any.
#[derive(Clone, Debug, PartialEq)]
pub struct ShellState {
    pub cwd: String,
    pub cmd: Option<String>,
}

/// One saved tab: its shells (parent first, then subshells in order), which of
/// them was active, whether it was the active tab, whether it was marked as a
/// favorite, and its auto-feature state.
#[derive(Clone, Debug, PartialEq)]
pub struct TabState {
    pub shells: Vec<ShellState>,
    pub active_shell: usize,
    pub active: bool,
    pub favorite: bool,
    pub auto: bool,
}

/// Everything the session file holds: the tabs, and the app-wide copy mode (on
/// unless it was switched off).
#[derive(Clone, Debug, PartialEq)]
pub struct Session {
    pub tabs: Vec<TabState>,
    pub copy_mode: bool,
}

/// What a `ShellState` stands for.
pub struct SavedShell {
    pub cwd: Seq<char>,
    pub cmd: Option<Seq<char>>,
}

/// What a `TabState` stands for.
#[verifier::ext_equal]
pub struct SavedTab {
    pub shells: Seq<SavedShell>,
    pub active_shell: int,
    pub active: bool,
    pub favorite: bool,
    pub auto: bool,
}

/// What a `Session` stands for.
#[verifier::ext_equal]
pub struct Saved {
    pub tabs: Seq<SavedTab>,
    pub copy_mode: bool,
}

impl View for ShellState {
    type V = SavedShell;

    open spec fn view(&self) -> SavedShell {
        SavedShell { cwd: self.cwd@, cmd: text::opt(self.cmd) }
    }
}

impl View for TabState {
    type V = SavedTab;

    open spec fn view(&self) -> SavedTab {
        SavedTab {
            shells: saved_shells(self.shells@),
            active_shell: self.active_shell as int,
            active: self.active,
            favorite: self.favorite,
            auto: self.auto,
        }
    }
}

impl View for Session {
    type V = Saved;

    open spec fn view(&self) -> Saved {
        Saved { tabs: saved_tabs(self.tabs@), copy_mode: self.copy_mode }
    }
}

pub open spec fn saved_shells(v: Seq<ShellState>) -> Seq<SavedShell> {
    v.map_values(|s: ShellState| s@)
}

pub open spec fn saved_tabs(v: Seq<TabState>) -> Seq<SavedTab> {
    v.map_values(|t: TabState| t@)
}

impl Default for Session {
    /// Nothing saved: no tabs, copy mode on.
    fn default() -> (s: Session)
        ensures
            s@ == (Saved { tabs: Seq::empty(), copy_mode: true }),
    {
        let s: Session = Session { tabs: Vec::new(), copy_mode: true };
        assert(s@.tabs =~= Seq::empty());
        s
    }
}

impl ShellState {
    /// A copy of this shell state.
    pub fn copy(&self) -> (s: ShellState)
        ensures
            s@ == self@,
    {
        ShellState { cwd: copy(self.cwd.as_str()), cmd: copy_opt(&self.cmd) }
    }

    /// Are the two states the same?
    pub fn same(&self, other: &ShellState) -> (r: bool)
        ensures
            r == (self@ == other@),
    {
        same_str(self.cwd.as_str(), other.cwd.as_str()) && same_opt(&self.cmd, &other.cmd)
    }
}

impl TabState {
    /// Are the two states the same?
    pub fn same(&self, other: &TabState) -> (r: bool)
        ensures
            r == (self@ == other@),
    {
        if self.active_shell != other.active_shell || self.active != other.active || self.favorite
            != other.favorite || self.auto != other.auto || self.shells.len()
            != other.shells.len() {
            assert(self@.shells.len() == self.shells@.len());
            assert(other@.shells.len() == other.shells@.len());
            return false;
        }
        let mut i: usize = 0;
        while i < self.shells.len()
            invariant
                i <= self.shells@.len() == other.shells@.len(),
                forall|k: int| 0 <= k < i ==> self.shells@[k]@ == other.shells@[k]@,
            decreases self.shells.len() - i,
        {
            if !self.shells[i].same(&other.shells[i]) {
                assert(self@.shells[i as int] != other@.shells[i as int]);
                return false;
            }
            i += 1;
        }
        assert(self@.shells =~= other@.shells);
        true
    }
}

impl Session {
    /// Are the two sessions the same?
    pub fn same(&self, other: &Session) -> (r: bool)
        ensures
            r == (self@ == other@),
    {
        if self.copy_mode != other.copy_mode || self.tabs.len() != other.tabs.len() {
            assert(self@.tabs.len() == self.tabs@.len());
            assert(other@.tabs.len() == other.tabs@.len());
            return false;
        }
        let mut i: usize = 0;
        while i < self.tabs.len()
            invariant
                i <= self.tabs@.len() == other.tabs@.len(),
                forall|k: int| 0 <= k < i ==> self.tabs@[k]@ == other.tabs@[k]@,
            decreases self.tabs.len() - i,
        {
            if !self.tabs[i].same(&other.tabs[i]) {
                assert(self@.tabs[i as int] != other@.tabs[i as int]);
                return false;
            }
            i += 1;
        }
        assert(self@.tabs =~= other@.tabs);
        true
    }
}

// ── writing ─────────────────────────────────────────────────────────────────

/// A character as it is kept in a session-file field.
pub open spec fn flat_char(c: char) -> char {
    if c == '\n' || c == '\r' || c == '\t' {
        ' '
    } else {
        c
    }
}

/// `s` as one session-file field: every line break and tab a space.
pub open spec fn flat(s: Seq<char>) -> Seq<char> {
    s.map_values(|c: char| flat_char(c))
}

/// Flatten `s` to a single session-file field: the format is one line per
/// shell, split once on a tab, so a newline or tab inside a path or a command
/// would be read back as a field boundary.
pub fn one_line(s: &str) -> (t: String)
    ensures
        t@ == flat(s@),
{
    let v: Vec<char> = chars(s);
    let mut t: String = String::new();
    let mut i: usize = 0;
    while i < v.len()
        invariant
            v@ == s@,
            i <= v@.len(),
            t@ == flat(s@.take(i as int)),
        decreases v.len() - i,
    {
        let c: char = v[i];
        t.push(
            if c == '\n' || c == '\r' || c == '\t' {
                ' '
            } else {
                c
            },
        );
        i += 1;
        assert(t@ =~= flat(s@.take(i as int)));
    }
    assert(s@.take(i as int) =~= s@);
    t
}

/// The markers in front of shell `i` of `tab`.
pub open spec fn marks(tab: SavedTab, i: int) -> Seq<char> {
    let active = if i == 0 && tab.active {
        seq!['>']
    } else {
        seq![]
    };
    let favorite = if i == 0 && tab.favorite {
        seq!['!']
    } else {
        seq![]
    };
    let auto = if i == 0 && tab.auto {
        seq!['@']
    } else {
        seq![]
    };
    let sub = if i > 0 {
        seq!['+']
    } else {
        seq![]
    };
    let shown = if i == tab.active_shell {
        seq!['*']
    } else {
        seq![]
    };
    active + favorite + auto + sub + shown
}

/// The fields of one shell's line.
pub open spec fn fields(shell: SavedShell) -> Seq<char> {
    match shell.cmd {
        Some(cmd) => flat(shell.cwd) + seq!['\t'] + flat(cmd),
        None => flat(shell.cwd),
    }
}

/// The line of shell `i` of `tab`.
pub open spec fn line_of(tab: SavedTab, i: int) -> Seq<char> {
    marks(tab, i) + fields(tab.shells[i])
}

/// The lines of the first `n` shells of `tab`.
pub open spec fn tab_lines(tab: SavedTab, n: nat) -> Seq<Seq<char>> {
    Seq::new(n, |i: int| line_of(tab, i))
}

/// The lines of every shell of every tab.
pub open spec fn tabs_lines(tabs: Seq<SavedTab>) -> Seq<Seq<char>>
    decreases tabs.len(),
{
    if tabs.len() == 0 {
        Seq::empty()
    } else {
        tabs_lines(tabs.drop_last()) + tab_lines(tabs.last(), tabs.last().shells.len())
    }
}

/// The settings lines.
pub open spec fn settings_lines(copy_mode: bool) -> Seq<Seq<char>> {
    if copy_mode {
        Seq::empty()
    } else {
        seq![COPY_OFF_LINE@]
    }
}

/// Every line of the session file.
pub open spec fn session_lines(session: Saved) -> Seq<Seq<char>> {
    settings_lines(session.copy_mode) + tabs_lines(session.tabs)
}

/// The text a session is saved as.
pub open spec fn saved_text(session: Saved) -> Seq<char> {
    text::join(session_lines(session), seq!['\n'])
}

fn shell_line(tab: &TabState, i: usize) -> (line: Vec<char>)
    requires
        i < tab.shells@.len(),
    ensures
        line@ == line_of(tab@, i as int),
{
    let mut line: Vec<char> = Vec::new();
    if i == 0 && tab.active {
        line.push('>');
    }
    if i == 0 && tab.favorite {
        line.push('!');
    }
    if i == 0 && tab.auto {
        line.push('@');
    }
    if i > 0 {
        line.push('+');
    }
    if i == tab.active_shell {
        line.push('*');
    }
    assert(line@ =~= marks(tab@, i as int));
    let shell: &ShellState = &tab.shells[i];
    assert(tab@.shells[i as int] == shell@);
    let cwd: String = one_line(shell.cwd.as_str());
    let cwd: Vec<char> = chars(cwd.as_str());
    extend(&mut line, cwd.as_slice());
    if let Some(cmd) = &shell.cmd {
        let cmd: String = one_line(cmd.as_str());
        let cmd: Vec<char> = chars(cmd.as_str());
        line.push('\t');
        extend(&mut line, cmd.as_slice());
    }
    assert(line@ =~= line_of(tab@, i as int));
    line
}

proof fn lemma_join_push(v: Seq<Seq<char>>, x: Seq<char>)
    ensures
        text::join(v.push(x), seq!['\n']) == if v.len() == 0 {
            x
        } else {
            text::join(v, seq!['\n']) + seq!['\n'] + x
        },
{
    assert(v.push(x).drop_last() =~= v);
}

/// The text of the session file for `session`: one line per shell, in order,
/// after the settings lines.
pub fn save_session(session: &Session) -> (text: String)
    ensures
        text@ == saved_text(session@),
{
    let mut out: String = String::new();
    let mut first: bool = true;
    let ghost mut done: Seq<Seq<char>> = Seq::empty();
    if !session.copy_mode {
        let line: Vec<char> = chars(COPY_OFF_LINE);
        push_joined(&mut out, true, '\n', line.as_slice());
        first = false;
        proof {
            lemma_join_push(done, line@);
            done = done.push(line@);
        }
        assert(out@ =~= text::join(done, seq!['\n']));
    }
    assert(done =~= settings_lines(session.copy_mode));
    assert(saved_tabs(session.tabs@).take(0) =~= Seq::empty());
    assert(done =~= settings_lines(session.copy_mode) + tabs_lines(
        saved_tabs(session.tabs@).take(0),
    ));
    let mut t: usize = 0;
    while t < session.tabs.len()
        invariant
            t <= session.tabs@.len(),
            done == settings_lines(session.copy_mode) + tabs_lines(
                saved_tabs(session.tabs@).take(t as int),
            ),
            out@ == text::join(done, seq!['\n']),
            first == (done.len() == 0),
        decreases session.tabs.len() - t,
    {
        let tab: &TabState = &session.tabs[t];
        let ghost before = done;
        assert(before + tab_lines(tab@, 0) =~= before);
        let mut i: usize = 0;
        while i < tab.shells.len()
            invariant
                i <= tab.shells@.len(),
                done == before + tab_lines(tab@, i as nat),
                out@ == text::join(done, seq!['\n']),
                first == (done.len() == 0),
            decreases tab.shells.len() - i,
        {
            let line: Vec<char> = shell_line(tab, i);
            push_joined(&mut out, first, '\n', line.as_slice());
            proof {
                lemma_join_push(done, line@);
                if done.len() == 0 {
                    assert(text::join(done, seq!['\n']) + line@ =~= line@);
                }
                done = done.push(line@);
                assert(done =~= before + tab_lines(tab@, (i + 1) as nat));
            }
            first = false;
            i += 1;
        }
        proof {
            let all = saved_tabs(session.tabs@);
            assert(all.take(t + 1).drop_last() =~= all.take(t as int));
            assert(all.take(t + 1).last() == tab@);
            assert(tab@.shells.len() == tab.shells@.len());
            assert(done =~= settings_lines(session.copy_mode) + tabs_lines(all.take(t + 1)));
        }
        t += 1;
    }
    assert(saved_tabs(session.tabs@).take(t as int) =~= session@.tabs);
    out
}

// ── reading ─────────────────────────────────────────────────────────────────

/// Whether `c` is one of the markers a line may begin with.
pub open spec fn mark(c: char) -> bool {
    c == '>' || c == '+' || c == '*' || c == '!' || c == '@' || c == '-'
}

/// How many markers `line` begins with.
pub open spec fn mark_count(line: Seq<char>) -> nat
    decreases line.len(),
{
    if line.len() > 0 && mark(line[0]) {
        1 + mark_count(line.skip(1))
    } else {
        0
    }
}

/// The shell a line without its markers describes.
pub open spec fn shell_of(rest: Seq<char>) -> SavedShell {
    let i = text::index_of(rest, '\t');
    if 0 <= i < rest.len() {
        SavedShell { cwd: rest.take(i), cmd: Some(rest.skip(i + 1)) }
    } else {
        SavedShell { cwd: rest, cmd: None }
    }
}

/// The tabs after reading one more line.
pub open spec fn with_line(tabs: Seq<SavedTab>, line: Seq<char>) -> Seq<SavedTab> {
    if line.len() == 0 || line[0] == '#' {
        tabs
    } else {
        let n = mark_count(line) as int;
        let head = line.take(n);
        let shell = shell_of(line.skip(n));
        if head.contains('+') && tabs.len() > 0 {
            let tab = tabs.last();
            tabs.drop_last().push(
                SavedTab {
                    shells: tab.shells.push(shell),
                    active_shell: if head.contains('*') {
                        tab.shells.len() as int
                    } else {
                        tab.active_shell
                    },
                    ..tab
                },
            )
        } else {
            tabs.push(
                SavedTab {
                    shells: seq![shell],
                    active_shell: 0,
                    active: head.contains('>'),
                    favorite: head.contains('!'),
                    auto: head.contains('@'),
                },
            )
        }
    }
}

/// The tabs a list of lines describes.
pub open spec fn tabs_of(lines: Seq<Seq<char>>) -> Seq<SavedTab>
    decreases lines.len(),
{
    if lines.len() == 0 {
        Seq::empty()
    } else {
        with_line(tabs_of(lines.drop_last()), lines.last())
    }
}

/// The session a text describes.
pub open spec fn loaded(text: Seq<char>) -> Saved {
    Saved { tabs: tabs_of(text::lines(text)), copy_mode: !text::lines(text).contains(COPY_OFF_LINE@) }
}

struct Marks {
    len: usize,
    active: bool,
    sub: bool,
    shown: bool,
    favorite: bool,
    auto: bool,
}

fn read_marks(line: &[char]) -> (m: Marks)
    ensures
        m.len == mark_count(line@),
        m.len <= line@.len(),
        m.active == line@.take(m.len as int).contains('>'),
        m.sub == line@.take(m.len as int).contains('+'),
        m.shown == line@.take(m.len as int).contains('*'),
        m.favorite == line@.take(m.len as int).contains('!'),
        m.auto == line@.take(m.len as int).contains('@'),
{
    let mut m: Marks = Marks {
        len: 0,
        active: false,
        sub: false,
        shown: false,
        favorite: false,
        auto: false,
    };
    assert(line@.skip(0) =~= line@);
    loop
        invariant
            m.len <= line@.len(),
            m.len + mark_count(line@.skip(m.len as int)) == mark_count(line@),
            m.active == line@.take(m.len as int).contains('>'),
            m.sub == line@.take(m.len as int).contains('+'),
            m.shown == line@.take(m.len as int).contains('*'),
            m.favorite == line@.take(m.len as int).contains('!'),
            m.auto == line@.take(m.len as int).contains('@'),
        ensures
            mark_count(line@.skip(m.len as int)) == 0,
        decreases line@.len() - m.len,
    {
        if m.len == line.len() {
            break;
        }
        let c: char = line[m.len];
        if !(c == '>' || c == '+' || c == '*' || c == '!' || c == '@' || c == '-') {
            break;
        }
        proof {
            let n = m.len as int;
            let was = line@.take(n);
            let is_now = line@.take(n + 1);
            assert(is_now =~= was.push(c));
            assert(line@.skip(n).skip(1) =~= line@.skip(n + 1));
            assert forall|d: char| is_now.contains(d) == (was.contains(d) || d == c) by {
                if was.contains(d) {
                    let k = was.index_of(d);
                    assert(is_now[k] == d);
                }
                if d == c {
                    assert(is_now[n] == d);
                }
                if is_now.contains(d) {
                    let k = is_now.index_of(d);
                    if k < n {
                        assert(was[k] == d);
                    }
                }
            }
        }
        if c == '>' {
            m.active = true;
        } else if c == '+' {
            m.sub = true;
        } else if c == '*' {
            m.shown = true;
        } else if c == '!' {
            m.favorite = true;
        } else if c == '@' {
            m.auto = true;
        }
        m.len = m.len + 1;
    }
    m
}

fn read_shell(rest: &[char]) -> (s: ShellState)
    ensures
        s@ == shell_of(rest@),
{
    let i: usize = index_from(rest, '\t', 0);
    assert(rest@.skip(0) =~= rest@);
    let cwd: String = string(range(rest, 0, i));
    assert(cwd@ =~= rest@.take(i as int));
    if i < rest.len() {
        let cmd: String = string(range(rest, i + 1, rest.len()));
        assert(cmd@ =~= rest@.skip(i + 1));
        ShellState { cwd, cmd: Some(cmd) }
    } else {
        assert(rest@.take(i as int) =~= rest@);
        ShellState { cwd, cmd: None }
    }
}

fn add_line(tabs: &mut Vec<TabState>, line: &[char])
    ensures
        saved_tabs(final(tabs)@) == with_line(saved_tabs(old(tabs)@), line@),
{
    if line.len() == 0 || line[0] == '#' {
        return;
    }
    let m: Marks = read_marks(line);
    let rest: &[char] = range(line, m.len, line.len());
    assert(rest@ =~= line@.skip(m.len as int));
    let shell: ShellState = read_shell(rest);
    let ghost was = saved_tabs(tabs@);
    if m.sub && tabs.len() > 0 {
        let mut tab: TabState = tabs.pop().unwrap();
        let ghost old_tab = tab@;
        assert(was.last() == tab@);
        assert(saved_tabs(tabs@) =~= was.drop_last());
        if m.shown {
            tab.active_shell = tab.shells.len();
        }
        tab.shells.push(shell);
        assert(tab@.shells =~= old_tab.shells.push(shell@));
        tabs.push(tab);
        assert(saved_tabs(tabs@) =~= was.drop_last().push(tab@));
    } else {
        let mut shells: Vec<ShellState> = Vec::new();
        shells.push(shell);
        let tab: TabState = TabState {
            shells,
            active_shell: 0,
            active: m.active,
            favorite: m.favorite,
            auto: m.auto,
        };
        assert(tab@.shells =~= seq![shell@]);
        tabs.push(tab);
        assert(saved_tabs(tabs@) =~= was.push(tab@));
    }
}

/// The session a session file's text describes: its tabs in order, each with
/// its shells, and the copy-mode setting.
pub fn load_session(text: &str) -> (s: Session)
    ensures
        s@ == loaded(text@),
{
    let all: Vec<char> = chars(text);
    let rows: Vec<&[char]> = split_lines(all.as_slice());
    let ghost ls: Seq<Seq<char>> = rows@.map_values(|l: &[char]| l@);
    let mut tabs: Vec<TabState> = Vec::new();
    let mut copy_mode: bool = true;
    let mut i: usize = 0;
    assert(ls.take(0) =~= Seq::empty());
    assert(saved_tabs(tabs@) =~= Seq::empty());
    while i < rows.len()
        invariant
            i <= rows@.len(),
            ls == rows@.map_values(|l: &[char]| l@),
            saved_tabs(tabs@) == tabs_of(ls.take(i as int)),
            copy_mode == !ls.take(i as int).contains(COPY_OFF_LINE@),
        decreases rows.len() - i,
    {
        let line: &[char] = rows[i];
        proof {
            assert(ls[i as int] == line@);
            assert(ls.take(i + 1).drop_last() =~= ls.take(i as int));
            let was = ls.take(i as int);
            let now = ls.take(i + 1);
            assert(now =~= was.push(line@));
            assert(now.contains(COPY_OFF_LINE@) == (was.contains(COPY_OFF_LINE@) || line@
                == COPY_OFF_LINE@)) by {
                if was.contains(COPY_OFF_LINE@) {
                    assert(now[was.index_of(COPY_OFF_LINE@)] == COPY_OFF_LINE@);
                }
                if line@ == COPY_OFF_LINE@ {
                    assert(now[i as int] == COPY_OFF_LINE@);
                }
                if now.contains(COPY_OFF_LINE@) {
                    let k = now.index_of(COPY_OFF_LINE@);
                    if k < i {
                        assert(was[k] == COPY_OFF_LINE@);
                    }
                }
            }
        }
        if is(line, COPY_OFF_LINE) {
            copy_mode = false;
        }
        add_line(&mut tabs, line);
        i += 1;
    }
    assert(ls.take(i as int) =~= ls);
    Session { tabs, copy_mode }
}

// ── what a load gives back of a save ────────────────────────────────────────

/// A shell as it reads back: its fields flattened to one line.
pub open spec fn flat_shell(shell: SavedShell) -> SavedShell {
    SavedShell {
        cwd: flat(shell.cwd),
        cmd: match shell.cmd {
            Some(cmd) => Some(flat(cmd)),
            None => None,
        },
    }
}

/// A tab as it reads back.
pub open spec fn flat_tab(tab: SavedTab) -> SavedTab {
    SavedTab { shells: tab.shells.map_values(|s: SavedShell| flat_shell(s)), ..tab }
}

/// A session as it reads back.
pub open spec fn flat_session(session: Saved) -> Saved {
    Saved { tabs: session.tabs.map_values(|t: SavedTab| flat_tab(t)), ..session }
}

/// What every open tab meets: at least one shell, the active one among them,
/// and absolute folders.
pub open spec fn storable(tab: SavedTab) -> bool {
    &&& 0 <= tab.active_shell < tab.shells.len()
    &&& forall|i: int|
        0 <= i < tab.shells.len() ==> #[trigger] tab.shells[i].cwd.len() > 0
            && tab.shells[i].cwd[0] == '/'
}

/// Whether `s` holds neither a line break nor a tab.
pub open spec fn single_line(s: Seq<char>) -> bool {
    forall|i: int| 0 <= i < s.len() ==> #[trigger] flat_char(s[i]) == s[i]
}

proof fn lemma_marks(tab: SavedTab, i: int, rest: Seq<char>)
    requires
        0 <= i,
        rest.len() > 0,
        !mark(rest[0]),
    ensures
        mark_count(marks(tab, i) + rest) == marks(tab, i).len(),
        marks(tab, i).contains('>') == (i == 0 && tab.active),
        marks(tab, i).contains('!') == (i == 0 && tab.favorite),
        marks(tab, i).contains('@') == (i == 0 && tab.auto),
        marks(tab, i).contains('+') == (i > 0),
        marks(tab, i).contains('*') == (i == tab.active_shell),
        forall|k: int| 0 <= k < marks(tab, i).len() ==> mark(#[trigger] marks(tab, i)[k]),
{
    let m = marks(tab, i);
    lemma_mark_count(m, rest);
    let a: int = if i == 0 && tab.active { 1 } else { 0 };
    let b: int = a + if i == 0 && tab.favorite { 1int } else { 0 };
    let c: int = b + if i == 0 && tab.auto { 1int } else { 0 };
    let d: int = c + if i > 0 { 1int } else { 0 };
    if i == 0 && tab.active {
        assert(m[0] == '>');
    }
    if i == 0 && tab.favorite {
        assert(m[a] == '!');
    }
    if i == 0 && tab.auto {
        assert(m[b] == '@');
    }
    if i > 0 {
        assert(m[c] == '+');
    }
    if i == tab.active_shell {
        assert(m[d] == '*');
    }
}

proof fn lemma_mark_count(m: Seq<char>, rest: Seq<char>)
    requires
        forall|k: int| 0 <= k < m.len() ==> mark(#[trigger] m[k]),
        rest.len() > 0,
        !mark(rest[0]),
    ensures
        mark_count(m + rest) == m.len(),
    decreases m.len(),
{
    if m.len() == 0 {
        assert(m + rest =~= rest);
    } else {
        assert((m + rest).skip(1) =~= m.skip(1) + rest);
        lemma_mark_count(m.skip(1), rest);
    }
}

/// The markers of a line are read in any order, and as often as they stand there: two
/// lines with the same markers in front of the same shell read the same.
pub proof fn markers_read_in_any_order(
    tabs: Seq<SavedTab>,
    a: Seq<char>,
    b: Seq<char>,
    rest: Seq<char>,
)
    requires
        forall|k: int| 0 <= k < a.len() ==> mark(#[trigger] a[k]),
        forall|k: int| 0 <= k < b.len() ==> mark(#[trigger] b[k]),
        forall|c: char| a.contains(c) == b.contains(c),
        rest.len() > 0,
        !mark(rest[0]),
        a.len() > 0,
    ensures
        with_line(tabs, a + rest) == with_line(tabs, b + rest),
{
    lemma_mark_count(a, rest);
    lemma_mark_count(b, rest);
    assert(a.contains(a[0]));
    assert(b.len() > 0);
    assert((a + rest).take(a.len() as int) =~= a);
    assert((b + rest).take(b.len() as int) =~= b);
    assert((a + rest).skip(a.len() as int) =~= rest);
    assert((b + rest).skip(b.len() as int) =~= rest);
    assert(mark(a[0]) && mark(b[0]));
}

proof fn lemma_fields(shell: SavedShell)
    requires
        shell.cwd.len() > 0,
        shell.cwd[0] == '/',
    ensures
        shell_of(fields(shell)) == flat_shell(shell),
        fields(shell).len() > 0,
        fields(shell)[0] == '/',
        forall|k: int|
            0 <= k < fields(shell).len() ==> #[trigger] fields(shell)[k] != '\n'
                && fields(shell)[k] != '\r',
{
    let f = fields(shell);
    let n = flat(shell.cwd).len() as int;
    text::lemma_index_is(f, '\t', n);
    assert(f.take(n) =~= flat(shell.cwd));
    match shell.cmd {
        Some(cmd) => {
            assert(f.skip(n + 1) =~= flat(cmd));
        },
        None => {},
    }
}

/// Reading the first `k` lines of `tab` after `before` adds `tab` with its
/// first `k` shells.
proof fn lemma_reads_tab(before: Seq<Seq<char>>, tab: SavedTab, k: nat)
    requires
        storable(tab),
        1 <= k <= tab.shells.len(),
    ensures
        tabs_of(before + tab_lines(tab, k)) == tabs_of(before).push(
            SavedTab {
                shells: flat_tab(tab).shells.take(k as int),
                active_shell: if tab.active_shell < k {
                    tab.active_shell
                } else {
                    0
                },
                ..tab
            },
        ),
    decreases k,
{
    let i = k - 1;
    let now = before + tab_lines(tab, k);
    assert(now.drop_last() =~= before + tab_lines(tab, i as nat));
    let line = line_of(tab, i);
    assert(now.last() == line);
    let shell = tab.shells[i];
    lemma_fields(shell);
    lemma_marks(tab, i, fields(shell));
    let n = marks(tab, i).len() as int;
    assert(line.take(n) =~= marks(tab, i));
    assert(line.skip(n) =~= fields(shell));
    assert(line[0] != '#') by {
        if n > 0 {
            assert(mark(marks(tab, i)[0]));
        }
    }
    let all = flat_tab(tab).shells;
    if i > 0 {
        lemma_reads_tab(before, tab, i as nat);
        let t = tabs_of(before + tab_lines(tab, i as nat)).last();
        assert(t.shells.push(flat_shell(shell)) =~= all.take(k as int));
        assert(tabs_of(before + tab_lines(tab, i as nat)).drop_last() =~= tabs_of(before));
    } else {
        assert(before + tab_lines(tab, 0) =~= before);
        assert(seq![flat_shell(shell)] =~= all.take(1));
    }
    assert(tabs_of(now) =~= tabs_of(before).push(
        SavedTab {
            shells: all.take(k as int),
            active_shell: if tab.active_shell < k {
                tab.active_shell
            } else {
                0
            },
            ..tab
        },
    ));
}

proof fn lemma_reads_tabs(before: Seq<Seq<char>>, tabs: Seq<SavedTab>)
    requires
        forall|i: int| 0 <= i < tabs.len() ==> storable(#[trigger] tabs[i]),
    ensures
        tabs_of(before + tabs_lines(tabs)) == tabs_of(before) + tabs.map_values(
            |t: SavedTab| flat_tab(t),
        ),
    decreases tabs.len(),
{
    if tabs.len() == 0 {
        assert(before + tabs_lines(tabs) =~= before);
        assert(tabs_of(before) + tabs.map_values(|t: SavedTab| flat_tab(t)) =~= tabs_of(before));
    } else {
        let front = tabs.drop_last();
        let tab = tabs.last();
        assert forall|i: int| 0 <= i < front.len() implies storable(#[trigger] front[i]) by {
            assert(storable(tabs[i]));
        }
        lemma_reads_tabs(before, front);
        let n = tab.shells.len();
        lemma_reads_tab(before + tabs_lines(front), tab, n);
        assert(before + tabs_lines(tabs) =~= (before + tabs_lines(front)) + tab_lines(tab, n));
        assert(flat_tab(tab).shells.take(n as int) =~= flat_tab(tab).shells);
        assert(tabs_of(before) + tabs.map_values(|t: SavedTab| flat_tab(t)) =~= (tabs_of(before)
            + front.map_values(|t: SavedTab| flat_tab(t))).push(flat_tab(tab)));
    }
}

/// A line as the session file may hold it: some text, and no line break in it.
pub open spec fn proper_line(line: Seq<char>) -> bool {
    &&& line.len() > 0
    &&& forall|k: int| 0 <= k < line.len() ==> #[trigger] line[k] != '\n' && line[k] != '\r'
}

proof fn lemma_lines_append(a: Seq<char>, b: Seq<char>)
    requires
        a.len() > 0,
        a.last() != '\n',
        forall|k: int| 0 <= k < a.len() ==> #[trigger] a[k] != '\r',
        proper_line(b),
    ensures
        text::lines(a + seq!['\n'] + b) == text::lines(a).push(b),
    decreases a.len(),
{
    let all = a + seq!['\n'] + b;
    let i = text::index_of(a, '\n');
    text::lemma_index_of(a, '\n');
    assert(text::without_cr(a.take(i)) == a.take(i)) by {
        if i > 0 {
            assert(a.take(i).last() == a[i - 1]);
        }
    }
    text::lemma_index_is(all, '\n', i);
    if i < a.len() {
        let r = a.skip(i + 1);
        assert(r.last() == a.last());
        assert forall|k: int| 0 <= k < r.len() implies #[trigger] r[k] != '\r' by {
            assert(a[i + 1 + k] != '\r');
        }
        lemma_lines_append(r, b);
        assert(all.take(i) =~= a.take(i));
        assert(all.skip(i + 1) =~= r + seq!['\n'] + b);
        assert(text::lines(all) =~= text::lines(a).push(b));
    } else {
        assert(all.take(i) =~= a);
        assert(a.take(i) =~= a);
        assert(all.skip(i + 1) =~= b);
        text::lemma_index_is(b, '\n', b.len() as int);
        assert(text::lines(b) =~= seq![b]);
        assert(text::lines(all) =~= seq![a].push(b));
        assert(text::lines(a) =~= seq![a]);
    }
}

proof fn lemma_lines_join(v: Seq<Seq<char>>)
    requires
        forall|i: int| 0 <= i < v.len() ==> proper_line(#[trigger] v[i]),
    ensures
        text::lines(text::join(v, seq!['\n'])) == v,
        v.len() > 0 ==> text::join(v, seq!['\n']).len() > 0 && text::join(v, seq!['\n']).last() != '\n',
        forall|k: int|
            0 <= k < text::join(v, seq!['\n']).len() ==> #[trigger] text::join(v, seq!['\n'])[k] != '\r',
    decreases v.len(),
{
    if v.len() == 0 {
        assert(text::lines(text::join(v, seq!['\n'])) =~= v);
    } else if v.len() == 1 {
        let b = v[0];
        assert(proper_line(v[0]));
        text::lemma_index_is(b, '\n', b.len() as int);
        assert(text::lines(b) =~= v);
    } else {
        let front = v.drop_last();
        assert forall|i: int| 0 <= i < front.len() implies proper_line(#[trigger] front[i]) by {
            assert(proper_line(v[i]));
        }
        lemma_lines_join(front);
        let a = text::join(front, seq!['\n']);
        let b = v.last();
        assert(proper_line(v[v.len() - 1]));
        lemma_lines_append(a, b);
        assert(text::lines(a).push(b) =~= v);
        let all = a + seq!['\n'] + b;
        assert(all.last() == b.last());
        assert forall|k: int| 0 <= k < all.len() implies #[trigger] all[k] != '\r' by {
            if k < a.len() {
                assert(a[k] != '\r');
            } else if k > a.len() {
                assert(b[k - a.len() - 1] != '\r');
            }
        }
    }
}

proof fn lemma_proper(session: Saved)
    requires
        forall|i: int| 0 <= i < session.tabs.len() ==> storable(#[trigger] session.tabs[i]),
    ensures
        forall|i: int|
            0 <= i < session_lines(session).len() ==> proper_line(
                #[trigger] session_lines(session)[i],
            ),
        tabs_lines(session.tabs).contains(COPY_OFF_LINE@) == false,
    decreases session.tabs.len(),
{
    reveal_strlit("#copy off");
    let tabs = session.tabs;
    if tabs.len() > 0 {
        let front = Saved { tabs: tabs.drop_last(), ..session };
        assert forall|i: int| 0 <= i < front.tabs.len() implies storable(
            #[trigger] front.tabs[i],
        ) by {
            assert(storable(tabs[i]));
        }
        lemma_proper(front);
        let tab = tabs.last();
        assert(storable(tabs[tabs.len() - 1]));
        let a = session_lines(front);
        let b = tab_lines(tab, tab.shells.len());
        assert(session_lines(session) =~= a + b);
        assert forall|i: int| 0 <= i < b.len() implies proper_line(#[trigger] b[i]) && b[i]
            != COPY_OFF_LINE@ by {
            let f = fields(tab.shells[i]);
            let m = marks(tab, i);
            lemma_fields(tab.shells[i]);
            lemma_marks(tab, i, f);
            let line = m + f;
            assert forall|k: int| 0 <= k < line.len() implies #[trigger] line[k] != '\n' && line[k]
                != '\r' by {
                if k < m.len() {
                    assert(mark(m[k]));
                } else {
                    assert(f[k - m.len()] != '\n');
                }
            }
            if m.len() > 0 {
                assert(mark(m[0]));
                assert(line[0] == m[0]);
            } else {
                assert(line[0] == '/');
            }
        }
        assert forall|i: int| 0 <= i < session_lines(session).len() implies proper_line(
            #[trigger] session_lines(session)[i],
        ) by {
            if i < a.len() {
                assert(proper_line(a[i]));
            } else {
                assert(proper_line(b[i - a.len()]));
            }
        }
        let all = tabs_lines(tabs);
        let head = tabs_lines(front.tabs);
        if all.contains(COPY_OFF_LINE@) {
            let k = all.index_of(COPY_OFF_LINE@);
            if k < head.len() {
                assert(head[k] == COPY_OFF_LINE@);
            } else {
                assert(b[k - head.len()] == COPY_OFF_LINE@);
            }
        }
    } else {
        assert(tabs_lines(tabs) =~= Seq::empty());
        assert(session_lines(session) =~= settings_lines(session.copy_mode));
    }
}

/// A saved session reads back as it was: every tab and shell in order, with its
/// markers, its folder and its command, and the copy mode. Only a line break or
/// a tab inside a folder or a command comes back as a space.
pub proof fn session_reads_back(session: Saved)
    requires
        forall|i: int| 0 <= i < session.tabs.len() ==> storable(#[trigger] session.tabs[i]),
    ensures
        loaded(saved_text(session)) == flat_session(session),
{
    lemma_proper(session);
    let all = session_lines(session);
    lemma_lines_join(all);
    let head = settings_lines(session.copy_mode);
    lemma_reads_tabs(head, session.tabs);
    reveal_strlit("#copy off");
    assert(tabs_of(head) =~= Seq::empty()) by {
        if !session.copy_mode {
            let none: Seq<Seq<char>> = Seq::empty();
            assert(head.drop_last() =~= none);
            assert(tabs_of(none) =~= Seq::empty());
            assert(head.last()[0] == '#');
        }
    }
    assert(tabs_of(head) + flat_session(session).tabs =~= flat_session(session).tabs);
    assert(all.contains(COPY_OFF_LINE@) == !session.copy_mode) by {
        if !session.copy_mode {
            assert(all[0] == COPY_OFF_LINE@);
        } else if all.contains(COPY_OFF_LINE@) {
            let k = all.index_of(COPY_OFF_LINE@);
            assert(tabs_lines(session.tabs)[k] == COPY_OFF_LINE@);
        }
    }
}

/// A session whose folders and commands hold no line break and no tab reads
/// back exactly.
pub proof fn plain_session_reads_back_exactly(session: Saved)
    requires
        forall|i: int| 0 <= i < session.tabs.len() ==> storable(#[trigger] session.tabs[i]),
        forall|i: int, j: int|
            #![trigger session.tabs[i].shells[j]]
            0 <= i < session.tabs.len() && 0 <= j < session.tabs[i].shells.len() ==> single_line(
                session.tabs[i].shells[j].cwd,
            ) && (session.tabs[i].shells[j].cmd matches Some(cmd) ==> single_line(cmd)),
    ensures
        loaded(saved_text(session)) == session,
{
    session_reads_back(session);
    assert forall|i: int| 0 <= i < session.tabs.len() implies flat_tab(#[trigger] session.tabs[i])
        == session.tabs[i] by {
        let tab = session.tabs[i];
        assert forall|j: int| 0 <= j < tab.shells.len() implies flat_shell(#[trigger] tab.shells[j])
            == tab.shells[j] by {
            let shell = session.tabs[i].shells[j];
            assert(flat(shell.cwd) =~= shell.cwd);
            match shell.cmd {
                Some(cmd) => {
                    assert(flat(cmd) =~= cmd);
                },
                None => {},
            }
        }
        assert(flat_tab(tab).shells =~= tab.shells);
    }
    assert(flat_session(session).tabs =~= session.tabs);
}

// ── what the lines of a session file say ────────────────────────────────────

/// A line says what its marks and its two fields say: the marks of the tab in front of
/// its first shell, and of every shell whether it comes below another and whether it is
/// the active one; then the folder and, behind a tab, the command.
pub proof fn a_line_says_what_it_is_about(tab: SavedTab, i: int)
    requires
        0 <= i < tab.shells.len(),
        single_line(tab.shells[i].cwd),
        tab.shells[i].cmd matches Some(cmd) ==> single_line(cmd),
    ensures
        ({
            let shell = tab.shells[i];
            let head = (if i == 0 && tab.active {
                ">"@
            } else {
                ""@
            }) + (if i == 0 && tab.favorite {
                "!"@
            } else {
                ""@
            }) + (if i == 0 && tab.auto {
                "@"@
            } else {
                ""@
            }) + (if i > 0 {
                "+"@
            } else {
                ""@
            }) + (if i == tab.active_shell {
                "*"@
            } else {
                ""@
            });
            let tail = match shell.cmd {
                Some(cmd) => shell.cwd + "\t"@ + cmd,
                None => shell.cwd,
            };
            line_of(tab, i) == head + tail
        }),
{
    reveal_strlit(">");
    reveal_strlit("!");
    reveal_strlit("@");
    reveal_strlit("+");
    reveal_strlit("*");
    reveal_strlit("\t");
    reveal_strlit("");
    assert(">"@ =~= seq!['>']);
    assert("!"@ =~= seq!['!']);
    assert("@"@ =~= seq!['@']);
    assert("+"@ =~= seq!['+']);
    assert("*"@ =~= seq!['*']);
    assert("\t"@ =~= seq!['\t']);
    assert(""@ =~= Seq::<char>::empty());
    let shell = tab.shells[i];
    assert(flat(shell.cwd) =~= shell.cwd);
    if let Some(cmd) = shell.cmd {
        assert(flat(cmd) =~= cmd);
    }
}

/// The lines of a tab come one shell after the other, behind those of the tabs before it;
/// that copy mode is off is said in a line of its own at the top.
pub proof fn lines_come_in_order(tabs: Seq<SavedTab>, tab: SavedTab, copy_mode: bool, i: int)
    requires
        0 <= i < tab.shells.len(),
    ensures
        ({
            let before = session_lines(Saved { tabs, copy_mode });
            let lines = session_lines(Saved { tabs: tabs.push(tab), copy_mode });
            &&& lines.len() == before.len() + tab.shells.len()
            &&& lines.take(before.len() as int) == before
            &&& lines[before.len() + i] == line_of(tab, i)
        }),
        session_lines(Saved { tabs: Seq::empty(), copy_mode: true }).len() == 0,
        session_lines(Saved { tabs: Seq::empty(), copy_mode: false }) == seq!["#copy off"@],
{
    assert(tabs.push(tab).drop_last() =~= tabs);
    let before = session_lines(Saved { tabs, copy_mode });
    let lines = session_lines(Saved { tabs: tabs.push(tab), copy_mode });
    assert(lines =~= before + tab_lines(tab, tab.shells.len()));
    assert(lines.take(before.len() as int) =~= before);
    assert(session_lines(Saved { tabs: Seq::empty(), copy_mode: false }) =~= seq!["#copy off"@]);
}

/// A line break or a tab is written as a space; anything else as it is.
pub proof fn only_line_breaks_and_tabs_are_flattened(s: Seq<char>, i: int)
    requires
        0 <= i < s.len(),
    ensures
        flat(s).len() == s.len(),
        s[i] == '\n' || s[i] == '\r' || s[i] == '\t' ==> flat(s)[i] == ' ',
        s[i] != '\n' && s[i] != '\r' && s[i] != '\t' ==> flat(s)[i] == s[i],
{
}

/// A line that is not marked as below another begins a tab, with one shell and what its
/// marks say of it; a line so marked adds a shell to the last tab, the active one where
/// it says so. Comments and empty lines say nothing.
pub proof fn a_line_begins_a_tab_or_adds_to_one(
    tabs: Seq<SavedTab>,
    head: Seq<char>,
    cwd: Seq<char>,
    cmd: Seq<char>,
)
    requires
        forall|k: int|
            0 <= k < head.len() ==> ({
                let c = #[trigger] head[k];
                c == '>' || c == '+' || c == '*' || c == '!' || c == '@' || c == '-'
            }),
        cwd.len() > 0 && cwd[0] == '/',
        !cwd.contains('\t'),
    ensures
        ({
            let after = with_line(tabs, head + cwd);
            &&& !head.contains('+') ==> after == tabs.push(
                SavedTab {
                    shells: seq![SavedShell { cwd, cmd: None }],
                    active_shell: 0,
                    active: head.contains('>'),
                    favorite: head.contains('!'),
                    auto: head.contains('@'),
                },
            )
            &&& head.contains('+') && tabs.len() > 0 ==> after.len() == tabs.len()
                && after.last().shells == tabs.last().shells.push(SavedShell { cwd, cmd: None })
                && after.last().active_shell == (if head.contains('*') {
                tabs.last().shells.len() as int
            } else {
                tabs.last().active_shell
            })
        }),
        with_line(tabs, head + cwd + seq!['\t'] + cmd).last().shells.last() == (SavedShell {
            cwd,
            cmd: Some(cmd),
        }),
        with_line(tabs, Seq::empty()) == tabs,
        with_line(tabs, seq!['#'] + cwd) == tabs,
{
    let line = head + cwd;
    lemma_mark_count(head, cwd);
    assert(line.take(head.len() as int) =~= head);
    assert(line.skip(head.len() as int) =~= cwd);
    assert(line[0] != '#') by {
        if head.len() > 0 {
            assert(line[0] == head[0]);
        } else {
            assert(line[0] == cwd[0]);
        }
    }
    assert forall|j: int| 0 <= j < cwd.len() implies cwd[j] != '\t' by {
        assert(cwd.contains(cwd[j]));
    }
    text::lemma_index_is(cwd, '\t', cwd.len() as int);
    let rest = cwd + seq!['\t'] + cmd;
    text::lemma_index_is(rest, '\t', cwd.len() as int);
    let long = head + cwd + seq!['\t'] + cmd;
    assert(long =~= head + rest);
    assert(rest[0] == cwd[0]);
    lemma_mark_count(head, rest);
    assert(long[0] == line[0]);
    assert(long.take(head.len() as int) =~= head);
    assert(long.skip(head.len() as int) =~= rest);
    assert(rest.take(cwd.len() as int) =~= cwd);
    assert(rest.skip((cwd.len() + 1) as int) =~= cmd);
    assert((seq!['#'] + cwd)[0] == '#');
}

/// Copy mode is on unless a line of the file says that it is off.
pub proof fn copy_mode_is_on_unless_said(s: Seq<char>)
    ensures
        loaded(s).copy_mode <==> !text::lines(s).contains("#copy off"@),
{
}

/// A tab parts the folder of a line from its command; without one it is all folder.
pub proof fn a_tab_parts_folder_and_command(cwd: Seq<char>, cmd: Seq<char>)
    requires
        !cwd.contains('\t'),
    ensures
        shell_of(cwd) == (SavedShell { cwd, cmd: None }),
        shell_of(cwd + seq!['\t'] + cmd) == (SavedShell { cwd, cmd: Some(cmd) }),
{
    assert forall|j: int| 0 <= j < cwd.len() implies cwd[j] != '\t' by {
        assert(cwd.contains(cwd[j]));
    }
    let s = cwd + seq!['\t'] + cmd;
    text::lemma_index_is(cwd, '\t', cwd.len() as int);
    text::lemma_index_is(s, '\t', cwd.len() as int);
    assert(s.take(cwd.len() as int) =~= cwd);
    assert(s.skip((cwd.len() + 1) as int) =~= cmd);
}

} // verus!
