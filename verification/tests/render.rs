use ricon::app::{App, MIN_SIDEBAR_WIDTH, SIDEBAR_WIDTH};
use ricon::footer::{
    centered, choice_row, help_rows, hint_shows, hint_span, popup_width, search_row, shortcuts, status_bar,
    Area, Footer, COPY_HINT, COPY_OFF_BUTTON, COPY_ON_BUTTON, NO, QUESTION, SELECT_BG, SELECT_FG,
    TITLE, YES,
};
use ricon::labels::{
    abbreviate_home, auto_span, copy_button_x, folder_name, truncate_tail, AUTO_COLS, BAR_LEN,
    BUTTON_COLS,
};
use ricon::selection::highlighted;
use ricon::shell::{Nudge, Shell};
use ricon::style::{plain_text, Color, Span, Style};
use ricon::tab::{
    auto_button, tab_item, Tab, ACTIVE_BG, ACTIVE_FG, AUTO_BUTTON, AUTO_NUDGED_FG, AUTO_OFF_BG,
    AUTO_OFF_FG, AUTO_ON_BG, AUTO_ON_FG, BAR_LIT, BAR_TRACK, REPLAY_COLOR, REPLAY_LABEL,
    SPINNER_COLOR,
};

const SECOND: u64 = 1_000_000_000;
const NOW: u64 = 100_000 * SECOND;
const WALL: u128 = 1_789_000_000_000_000_000;
const BASE: &str = "/home/dev/ricon";
const HOME: Option<&str> = Some("/home/dev");

fn test_app(shell_counts: &[usize]) -> App {
    let mut app = App::new(BASE.into(), true, NOW);
    let mut id = 0;
    for &n in shell_counts {
        let mut shell = || {
            id += 1;
            Shell::new(id, Some(id as u32), BASE.into(), None, NOW)
        };
        let mut tab = Tab::new(shell());
        for _ in 1..n {
            tab.shells.push(shell());
        }
        app.tabs.push(tab);
    }
    app.sidebar_rows = 1000;
    app.refresh_shown();
    app
}

/// One cell per column; the second half of a wide glyph is blank.
type Cells = Vec<(char, Style)>;

fn cells(row: &[Span]) -> Cells {
    let mut out = Vec::new();
    for span in row {
        for c in span.text.chars() {
            out.push((c, span.style));
            if c == '⭐' || c == '🔁' {
                out.push((' ', span.style));
            }
        }
    }
    out
}

fn text(row: &Cells) -> String {
    row.iter().map(|c| c.0).collect()
}

/// The sidebar as it is drawn, row by row: title, search row, tabs.
fn sidebar(app: &mut App, height: u16) -> Vec<Cells> {
    app.lay_out(height);
    let mut rows = vec![
        TITLE.chars().map(|c| (c, Style::new())).collect(),
        cells(&search_row(&app.search, app.search_focus)),
    ];
    let (from, to) = app.visible_tabs();
    for &i in &app.shown[from..to] {
        for row in tab_item(i, &app.tabs[i], i == app.active, app.sidebar_width, HOME, NOW) {
            rows.push(cells(&row));
        }
    }
    rows
}

fn footer(app: &App, width: u16) -> Vec<Span> {
    let tab = &app.tabs[app.active];
    status_bar(&Footer {
        index: app.active,
        count: app.tabs.len(),
        shell: &tab.shells[tab.active],
        branch: None,
        width,
        tabs_overflow: app.tabs_overflow(),
        copy_mode: app.copy_mode,
        auto: tab.auto,
        home: HOME,
        now: NOW,
        wall: WALL,
    })
}

#[test]
fn buttons_share_one_hit_test_width() {
    assert_eq!(COPY_ON_BUTTON.chars().count() as u16, BUTTON_COLS);
    assert_eq!(COPY_OFF_BUTTON.chars().count() as u16, BUTTON_COLS);
}

#[test]
fn active_tab_pastel_is_light_and_soft_under_dark_text() {
    let Some((r, g, b)) = ACTIVE_BG.rgb() else { panic!("the pastel is an RGB color") };
    let (r, g, b) = (u16::from(r), u16::from(g), u16::from(b));
    assert!(r + g + b > 3 * 170, "light: {ACTIVE_BG:?}");
    assert!(r.max(g).max(b) - r.min(g).min(b) < 80, "soft, not saturated: {ACTIVE_BG:?}");
    let Some((r, g, b)) = ACTIVE_FG.rgb() else { panic!("the text color is an RGB color") };
    assert!(u16::from(r) + u16::from(g) + u16::from(b) < 3 * 70, "dark text: {ACTIVE_FG:?}");
}

#[test]
fn spinner_color_is_white() {
    assert_eq!(SPINNER_COLOR.rgb(), Some((255, 255, 255)));
}

#[test]
fn render_active_tab_shows_gutter_marker_and_number() {
    let mut app = test_app(&[1, 1]);
    let rows = sidebar(&mut app, 20);
    assert!(text(&rows[0]).contains(" ricon "), "sidebar title");
    assert!(text(&rows[1]).contains('⌕'), "search row sits before all tabs");
    let first = text(&rows[2]);
    assert!(first.starts_with("│▶1"), "active tab row: {first:?}");
    assert!(first.contains(&folder_name(BASE)), "tab name is the folder name");
    // Rows 2–5 (all lines of the active tab, empty separator included) carry │.
    for y in 2..=5 {
        assert_eq!(rows[y][0].0, '│', "gutter on row {y}");
    }
    // The inactive tab has neither gutter nor marker, but keeps its number.
    let second = text(&rows[6]);
    assert!(second.starts_with("  2"), "inactive tab row: {second:?}");
    assert_eq!(rows[9][0].0, ' ', "no gutter on inactive separator");
}

#[test]
fn render_second_row_is_full_path_third_is_process() {
    let mut app = test_app(&[1]);
    app.tabs[0].shells[0].process = "bash".into();
    let rows = sidebar(&mut app, 20);
    let shown = truncate_tail(&abbreviate_home(BASE, HOME), SIDEBAR_WIDTH, 6);
    assert!(text(&rows[3]).contains(&shown), "path row {:?} shows {shown:?}", text(&rows[3]));
    assert!(text(&rows[4]).contains("└ bash"), "process row: {:?}", text(&rows[4]));
}

#[test]
fn render_favorite_star_and_unseen_marker() {
    let mut app = test_app(&[1, 1]);
    app.tabs[0].favorite = true;
    app.tabs[1].shells[0].unseen_output = true;
    let rows = sidebar(&mut app, 20);
    let first = text(&rows[2]);
    assert!(first.contains("⭐"), "favorite star: {first:?}");
    let star = rows[2].iter().find(|c| c.0 == '⭐').expect("star cell");
    assert_eq!(star.1.fg, Some(Color::Yellow));
    // The `*` sits after the name and before the tab's auto button.
    let second = text(&rows[6]);
    let (star, button) = (second.find('*'), second.find("⟳ auto"));
    assert!(star < button && button.is_some(), "unseen marker before the auto button: {second:?}");
}

#[test]
fn render_active_shell_marker_and_bold_in_multishell_tab() {
    let mut app = test_app(&[2]);
    app.tabs[0].active = 1;
    let rows = sidebar(&mut app, 20);
    let sub_path = text(&rows[5]);
    assert!(sub_path.starts_with("│  ▶"), "subshell marker: {sub_path:?}");
    assert!(rows[5][3].1.bold, "active shell bold");
    let parent_path = text(&rows[3]);
    assert!(!parent_path.contains('▶'), "parent not marked: {parent_path:?}");
    assert!(!rows[3][3].1.bold, "inactive shell not bold");
}

#[test]
fn render_spinner_is_braille_white_on_activity() {
    let mut app = test_app(&[1, 1]);
    let braille = |row: &Cells| row.iter().copied().find(|c| ('\u{2800}'..='\u{28FF}').contains(&c.0));
    for tab in 0..2 {
        app.tabs[tab].shells[0].process = "cargo".into();
        app.tabs[tab].shells[0].animating = true;
    }
    let rows = sidebar(&mut app, 20);
    let (active_row, inactive_row) = (4, 8);
    let style = braille(&rows[active_row]).expect("spinner on the active tab's process row").1;
    assert_eq!(style.fg, Some(ACTIVE_FG), "dark on the pastel");
    assert!(style.bold);
    let style = braille(&rows[inactive_row]).expect("spinner on the inactive tab's process row").1;
    assert_eq!(style.fg, Some(SPINNER_COLOR), "white on an inactive tab");
    assert!(style.bold);
    // Without activity the spinner disappears.
    app.tabs[0].shells[0].animating = false;
    let rows = sidebar(&mut app, 20);
    assert!(braille(&rows[active_row]).is_none(), "spinner removed after settle");
}

#[test]
fn render_paints_only_the_active_tab_in_the_pastel() {
    let mut app = test_app(&[1, 1, 1]);
    let painted = |row: &Cells| (row[1].1.bg, row[1].1.fg);
    let rows = sidebar(&mut app, 20);
    for y in 2..5 {
        assert_eq!(painted(&rows[y]), (Some(ACTIVE_BG), Some(ACTIVE_FG)), "active tab row {y}");
    }
    assert_eq!(rows[5][1].1.bg, Some(ACTIVE_BG), "the activity row wears the pastel too");
    for y in 6..14 {
        for cell in rows[y].iter().take(17) {
            assert_eq!(cell.1.bg, None, "inactive tab row {y} has no background");
            assert_eq!(cell.1.fg, None, "inactive tab row {y} takes the terminal's text color");
        }
    }
    app.active = 1;
    let rows = sidebar(&mut app, 20);
    assert_eq!(rows[2][1].1.bg, None, "tab 0 lost the pastel");
    assert_eq!(painted(&rows[6]), (Some(ACTIVE_BG), Some(ACTIVE_FG)), "tab 1 took it");
}

#[test]
fn render_activity_bar_sweeps_on_the_active_tabs_last_row() {
    let mut app = test_app(&[1, 1]);
    let sw = app.sidebar_width;
    let rows = sidebar(&mut app, 20);
    let quiet = text(&rows[5]);
    assert!(quiet.starts_with('│'), "the gutter stays: {quiet:?}");
    assert_eq!(
        quiet.chars().filter(|&c| c == '─').count(),
        (sw - 2) as usize,
        "the track spans the panel: {quiet:?}"
    );
    assert!(!quiet.contains('━'), "nothing lit while quiet: {quiet:?}");
    assert_eq!(rows[5][1].1.fg, Some(BAR_TRACK), "the track in its quiet color");
    assert_eq!(text(&rows[9]).trim(), "", "an inactive tab's last row stays empty");
    app.tabs[0].shells[0].animating = true;
    let rows = sidebar(&mut app, 20);
    let busy = text(&rows[5]);
    let lit = busy.chars().filter(|&c| c == '━').count();
    assert!((1..=BAR_LEN).contains(&lit), "a segment is lit: {busy:?}");
    let style = rows[5].iter().find(|c| c.0 == '━').expect("lit cell").1;
    assert_eq!((style.fg, style.bg), (Some(BAR_LIT), Some(ACTIVE_BG)), "lit on the pastel");
    assert!(style.bold);
}

#[test]
fn render_footer_shows_index_path_branch_and_version() {
    let mut app = test_app(&[1, 1]);
    app.active = 1;
    let tab = &app.tabs[1];
    let bar = plain_text(&status_bar(&Footer {
        index: 1,
        count: 2,
        shell: &tab.shells[0],
        branch: Some("main"),
        width: 60,
        tabs_overflow: app.tabs_overflow(),
        copy_mode: true,
        auto: false,
        home: HOME,
        now: NOW,
        wall: WALL,
    }));
    assert!(bar.contains("2/2"), "index/count: {bar:?}");
    assert!(bar.contains("~/ricon"), "path: {bar:?}");
    assert!(bar.contains("⎇ main"), "branch: {bar:?}");
    assert!(bar.ends_with("v0.4.0 "), "version: {bar:?}");
    assert!(!bar.contains('↕'), "no scroll indicator when all tabs fit");
}

#[test]
fn render_footer_scroll_indicator_when_tabs_overflow() {
    let mut app = test_app(&[1, 1, 1, 1]);
    app.lay_out(11); // 16 content rows > 9 viewport rows
    let bar = plain_text(&footer(&app, 60));
    assert!(bar.contains("↕ 1/4"), "scroll indicator: {bar:?}");
}

#[test]
fn render_honours_scroll_offset() {
    let mut app = test_app(&[1, 1, 1, 1]);
    sidebar(&mut app, 11);
    app.scroll_tabs(true);
    let rows = sidebar(&mut app, 11);
    assert!(text(&rows[2]).contains('2'), "tab 2 is first after scrolling: {:?}", text(&rows[2]));
}

#[test]
fn render_truncates_long_paths_in_narrow_sidebar() {
    let mut app = test_app(&[1]);
    app.tabs[0].shells[0].cwd = Some("/very/long/path/that/cannot/possibly/fit/in/the/sidebar".into());
    app.sidebar_width = 12;
    let rows = sidebar(&mut app, 20);
    assert!(text(&rows[3]).contains('…'), "elided path: {:?}", text(&rows[3]));
}

#[test]
fn render_quit_dialog_centered_with_no_preselected() {
    assert_eq!(QUESTION, "Are you sure to Quit all tabs?");
    let find = |row: &[Span], label: &str| row.iter().find(|s| s.text == label).expect("button").style;
    let row = choice_row(false);
    assert!(find(&row, NO).reversed, "NO preselected");
    assert!(!find(&row, YES).reversed, "YES not selected");
    let row = choice_row(true);
    assert!(find(&row, YES).reversed && !find(&row, NO).reversed, "arrow highlights YES");
    let area = Area { x: 0, y: 0, width: 60, height: 20 };
    let popup = centered(area, QUESTION.len() as u16 + 4, 5);
    assert_eq!(popup, Area { x: 13, y: 7, width: 34, height: 5 });
    assert_eq!(centered(Area { width: 10, height: 3, ..area }, 34, 5), Area { width: 10, height: 3, ..area });
}

#[test]
fn the_footer_button_wears_its_state() {
    let app = test_app(&[1]);
    let width = 106;
    let (from, to) = copy_button_x(width).expect("the button fits");
    let label = |app: &App| {
        let row = cells(&footer(app, width));
        assert!(text(&row).ends_with("v0.4.0 "), "version keeps the corner");
        let drawn: Cells = row[from as usize..to as usize].to_vec();
        (text(&drawn), drawn[0].1)
    };
    let (on, style) = label(&app);
    assert_eq!(on, COPY_ON_BUTTON, "at its hit-test columns");
    assert_eq!((style.bg, style.fg), (Some(SELECT_BG), Some(SELECT_FG)), "on: the selection color");
    let mut app = app;
    app.copy_mode = false;
    let (off, style) = label(&app);
    assert_eq!(off, COPY_OFF_BUTTON, "off reads as off");
    assert!(style.reversed, "drawn as a plain button");
    // The hint lands beside the button, never over it, and only briefly.
    assert_eq!(hint_span(width), (from - 10, from));
    assert_eq!(hint_span(5), (0, 5));
    assert!(hint_shows(Some(NOW), NOW) && !hint_shows(Some(NOW), NOW + COPY_HINT) && !hint_shows(None, NOW));
}

#[test]
fn the_search_row_marks_its_focus() {
    let row = search_row("bet", true);
    assert_eq!(plain_text(&row), " ⌕ bet█", "typed filter with caret");
    assert!(row[0].style.bold);
    let row = search_row("bet", false);
    assert_eq!(plain_text(&row), " ⌕ bet");
    assert_eq!(row[0].style.fg, Some(Color::DarkGray));
}

#[test]
fn the_cheat_sheet_lists_every_shortcut() {
    let rows: Vec<String> = help_rows().iter().map(plain_text).collect();
    assert_eq!(rows.len(), shortcuts().len());
    for (keys, what) in shortcuts() {
        assert!(rows.iter().any(|r| r.contains(keys) && r.contains(what)), "{keys} — {what} listed");
    }
    let column = rows[0].chars().count() - "new tab ".len();
    for (row, (_, what)) in rows.iter().zip(shortcuts()) {
        assert_eq!(row.chars().count(), column + what.chars().count() + 1, "what they do lines up: {row:?}");
    }
}

#[test]
fn auto_button_is_glued_to_the_right_edge_of_the_panel() {
    assert_eq!(AUTO_BUTTON.chars().count() as u16, AUTO_COLS);
    let (start, end) = auto_span(SIDEBAR_WIDTH);
    assert_eq!(end - start, AUTO_COLS as usize);
    assert_eq!(end, SIDEBAR_WIDTH as usize - 1, "flush against the panel border, never over it");
    let mut app = test_app(&[2]);
    // Name length, a favorite's ⭐ and the unseen `*` all leave it put.
    for (cwd, favorite, unseen) in
        [("/tmp/alpha", false, false), ("/tmp/a-very-long-folder-name-indeed", true, true)]
    {
        app.tabs[0].shells[0].cwd = Some(cwd.into());
        app.tabs[0].favorite = favorite;
        app.tabs[0].shells[1].unseen_output = unseen;
        let rows = sidebar(&mut app, 24);
        let drawn: Cells = rows[2][start..end].to_vec();
        assert_eq!(text(&drawn), AUTO_BUTTON, "the button owns exactly its span ({cwd})");
    }
}

#[test]
fn auto_button_column_matches_its_hit_test_at_every_panel_width() {
    let mut app = test_app(&[1]);
    app.tabs[0].shells[0].cwd = Some("/tmp/alpha".into());
    for width in MIN_SIDEBAR_WIDTH..=40 {
        app.sidebar_width = width;
        let (_, end) = auto_span(width);
        assert!(end < width as usize, "width {width}: the span must stop short of the border column");
        let Some((from, to)) = auto_button(0, &app.tabs[0], width) else { continue };
        let rows = sidebar(&mut app, 24);
        let drawn: Cells = rows[2][from..to].to_vec();
        assert_eq!(
            text(&drawn),
            AUTO_BUTTON,
            "width {width}: the button occupies exactly the span its hit-test reads"
        );
    }
}

#[test]
fn auto_button_shows_its_state_in_its_background() {
    let mut app = test_app(&[1]);
    app.tabs[0].shells[0].cwd = Some("/tmp/alpha".into());
    for auto in [true, false] {
        app.tabs[0].auto = auto;
        let rows = sidebar(&mut app, 24);
        let row = text(&rows[2]);
        assert!(row.contains(AUTO_BUTTON.trim_end()), "drawn on the tab's first line: {row:?}");
        let want = if auto { AUTO_ON_BG } else { AUTO_OFF_BG };
        let (start, end) = auto_span(app.sidebar_width);
        for x in start..end {
            let style = rows[2][x].1;
            assert_eq!(style.bg, Some(want), "column {x} of the auto button (auto={auto})");
            // The label has to stay legible on whichever background it carries.
            assert_ne!(style.fg, style.bg, "column {x} of the auto button (auto={auto})");
        }
        assert!(
            matches!(AUTO_ON_BG.rgb(), Some((r, g, b)) if g > r + 40 && g > b + 40),
            "enabled reads as green: {AUTO_ON_BG:?}"
        );
        assert_eq!(AUTO_OFF_BG, Color::DarkGray, "disabled reads as gray");
        assert_ne!(rows[2][start - 1].1.bg, Some(want), "the tab row beside it keeps its own style");
    }
}

#[test]
fn auto_button_marks_a_nudge_the_agent_has_not_answered() {
    let mut app = test_app(&[1]);
    app.tabs[0].shells[0].cwd = Some("/tmp/alpha".into());
    app.tabs[0].auto = true; // only a tab with the feature on can be nudged
    let span = auto_span(app.sidebar_width);
    let label_fg = |app: &mut App| sidebar(app, 24)[2][span.0].1.fg;
    assert_eq!(label_fg(&mut app), Some(AUTO_ON_FG), "quiet agent: the plain label");
    app.tabs[0].shells[0].nudge = Some(Nudge::Compacting(NOW));
    assert_eq!(label_fg(&mut app), Some(AUTO_NUDGED_FG), "an unanswered nudge is visible from the sidebar");
    // Layout is untouched by the mark — only the color moved.
    assert_eq!(auto_span(app.sidebar_width), span, "the hit-test does not move");
    // With the feature off the button reads as off, whatever it typed earlier.
    app.tabs[0].auto = false;
    assert_eq!(label_fg(&mut app), Some(AUTO_OFF_FG), "disabled reads as disabled");
}

#[test]
fn replay_row_shows_icon_and_full_command_below_process() {
    let mut app = test_app(&[1]);
    app.tabs[0].shells[0].process = "bash".into();
    app.tabs[0].shells[0].last_cmd = Some("deno task dev".into());
    let rows = sidebar(&mut app, 20);
    // Row 4 is the process row (no icon now); row 5 is the new replay row.
    let process = text(&rows[4]);
    assert!(process.contains("└ bash"), "process row: {process:?}");
    assert!(!process.contains(REPLAY_LABEL), "icon left the process row: {process:?}");
    let replay = text(&rows[5]);
    assert!(
        replay.contains(REPLAY_LABEL) && replay.contains("deno task dev"),
        "icon + full command on the new row: {replay:?}"
    );
    let icon = rows[5].iter().position(|c| c.0 == '🔁').expect("icon");
    assert_eq!(icon, 5, "one space past the process row's corner");
    let style = rows[5][icon].1;
    assert_eq!(style.fg, Some(REPLAY_COLOR), "icon carries the replay color");
    assert!(style.bold);
    // A non-shell program owns the tty → no replay row, even with a captured command.
    app.tabs[0].shells[0].process = "deno".into();
    let hidden = |rows: Vec<Cells>| rows.iter().all(|r| !text(r).contains(REPLAY_LABEL));
    assert!(hidden(sidebar(&mut app, 20)), "hidden while a program runs");
    // No last command → no replay row.
    app.tabs[0].shells[0].process = "bash".into();
    app.tabs[0].shells[0].last_cmd = None;
    assert!(hidden(sidebar(&mut app, 20)), "hidden without a last command");
}

#[test]
fn a_tab_is_drawn_on_exactly_its_rows() {
    let mut app = test_app(&[3]);
    app.tabs[0].shells[1].process = "zsh".into();
    app.tabs[0].shells[1].last_cmd = Some("ls".into());
    let rows = tab_item(0, &app.tabs[0], true, SIDEBAR_WIDTH, None, NOW);
    assert_eq!(rows.len() as u128, app.tabs[0].rows());
}

#[test]
fn a_selection_is_painted_inside_the_pane_only() {
    assert_eq!(highlighted((0, 2), (1, 1), false, 4, 24, 80), [(0, 2), (0, 3), (1, 0), (1, 1)]);
    assert_eq!(highlighted((1, 1), (0, 2), false, 4, 1, 80), [(0, 2), (0, 3)]);
    assert_eq!(highlighted((0, 2), (1, 1), true, 4, 24, 2), [(0, 1), (1, 1)]);
    assert_eq!(highlighted((u16::MAX, 0), (u16::MAX, 3), true, 4, 24, 80), []);
    assert_eq!(highlighted((u16::MAX, 0), (22, 3), false, 5, 24, 80), [(22, 3), (22, 4), (23, 0), (23, 1), (23, 2), (23, 3), (23, 4)]);
}

#[test]
fn a_popup_is_as_wide_as_its_widest_row() {
    let rows = help_rows();
    let widest = rows.iter().map(|row| plain_text(row).chars().count()).max().expect("rows");
    assert_eq!(usize::from(popup_width(&rows)), widest + 2);
    assert_eq!(popup_width(&Vec::new()), 2);
}
