use ricon::labels::{
    abbreviate_home, continue_text, expand_home, global_auto_file, session_path, tame,
    transcript_dir,
};
use ricon::session::{load_session, one_line, save_session, Session, ShellState, TabState};

fn sample_states() -> Vec<TabState> {
    vec![
        TabState {
            shells: vec![
                ShellState { cwd: "/tmp/a".into(), cmd: Some("vim notes.txt".into()) },
                ShellState { cwd: "/tmp/b".into(), cmd: None },
            ],
            active_shell: 1,
            active: false,
            favorite: true,
            auto: false,
        },
        TabState {
            shells: vec![ShellState { cwd: "/tmp/c".into(), cmd: None }],
            active_shell: 0,
            active: true,
            favorite: false,
            auto: true,
        },
    ]
}

#[test]
fn session_roundtrip_preserves_everything() {
    let session = Session { tabs: sample_states(), copy_mode: true };
    let text = save_session(&session);
    assert_eq!(load_session(&text), session);
    // Copy mode off is the one app-wide setting the file carries; on is the default
    // and is not written.
    let off = Session { copy_mode: false, ..session };
    let text = save_session(&off);
    assert_eq!(load_session(&text), off);
    assert!(text.starts_with("#copy off"), "the setting line leads the file: {text:?}");
}

#[test]
fn session_empty_and_missing_files_load_as_no_tabs() {
    assert_eq!(load_session(""), Session::default());
    assert!(load_session("").copy_mode, "copy mode is on for a fresh install");
    let text = save_session(&Session::default());
    assert_eq!(load_session(&text), Session::default());
}

#[test]
fn session_markers_parse_in_any_order() {
    let tabs = load_session(">!*@/tmp/x\tmake -j\n+/tmp/y\n").tabs;
    assert_eq!(tabs.len(), 1);
    assert!(tabs[0].active && tabs[0].favorite);
    assert!(tabs[0].auto, "the `@` marker turns the auto feature on");
    assert_eq!(tabs[0].active_shell, 0);
    assert_eq!(tabs[0].shells[0].cmd.as_deref(), Some("make -j"));
    assert_eq!(tabs[0].shells[1].cwd, "/tmp/y");
}

#[test]
fn a_pre_v0_4_session_file_still_restores_its_tabs() {
    let tabs = load_session(">!-*/tmp/x\n").tabs;
    assert_eq!(tabs.len(), 1);
    assert_eq!(tabs[0].shells[0].cwd, "/tmp/x", "the path survives the marker");
    assert!(!tabs[0].auto, "and the tab keeps the auto feature off");
}

#[test]
fn session_survives_a_command_carrying_newlines_and_tabs() {
    let states = vec![TabState {
        shells: vec![ShellState {
            cwd: "/tmp/a".into(),
            cmd: Some("for f in *; do\n\techo \"$f\"\ndone".into()),
        }],
        active_shell: 0,
        active: true,
        favorite: false,
        auto: true,
    }];
    let back = load_session(&save_session(&Session { tabs: states, copy_mode: true })).tabs;
    assert_eq!(back.len(), 1, "one shell persisted stays one tab, got {back:#?}");
    assert_eq!(back[0].shells.len(), 1);
    assert_eq!(back[0].shells[0].cwd, "/tmp/a");
    assert_eq!(
        back[0].shells[0].cmd.as_deref(),
        Some("for f in *; do  echo \"$f\" done"),
        "the command is flattened to one line, not split into new tabs"
    );
}

#[test]
fn the_session_file_is_one_line_per_shell() {
    let text = save_session(&Session { tabs: sample_states(), copy_mode: true });
    assert_eq!(text, "!/tmp/a\tvim notes.txt\n+*/tmp/b\n>@*/tmp/c");
    assert_eq!(one_line("a\r\n\tb"), "a   b");
    // A `+` line with no tab before it starts one; other settings are skipped.
    let tabs = load_session("#theme dark\n+*/tmp/x\n\n+*/tmp/y\tls\n").tabs;
    assert_eq!(tabs.len(), 1);
    assert_eq!((tabs[0].shells.len(), tabs[0].active_shell), (2, 1));
}

#[test]
fn expand_home_handles_tilde_forms() {
    let home = "/home/dev";
    assert_eq!(expand_home("~", Some(home)), home);
    assert_eq!(expand_home("~/x", Some(home)), format!("{home}/x"));
    assert_eq!(expand_home("~user/x", Some(home)), "~user/x");
    assert_eq!(expand_home("/abs", Some(home)), "/abs");
    assert_eq!(expand_home("~/x", None), "~/x");
}

#[test]
fn abbreviate_home_shortens_only_home_prefix() {
    let home = "/home/dev";
    let short = |path: &str| abbreviate_home(path, Some(home));
    assert_eq!(short(&format!("{home}/code")), "~/code");
    assert_eq!(short(home), "~");
    assert_eq!(short("/usr/lib"), "/usr/lib");
    // A sibling sharing the home prefix but not `/`-bounded is left intact.
    assert_eq!(short(&format!("{home}ext")), format!("{home}ext"));
    assert_eq!(abbreviate_home("/home/dev/x", None), "/home/dev/x");
}

#[test]
fn files_live_under_the_xdg_folders_or_the_home() {
    assert_eq!(session_path(Some("/s"), Some("/h")).as_deref(), Some("/s/ricon/session"));
    assert_eq!(session_path(None, Some("/h")).as_deref(), Some("/h/.local/state/ricon/session"));
    assert_eq!(session_path(None, None), None);
    assert_eq!(global_auto_file(Some("/c"), None).as_deref(), Some("/c/ricon/auto.md"));
    assert_eq!(global_auto_file(None, Some("/h")).as_deref(), Some("/h/.config/ricon/auto.md"));
}

#[test]
fn transcript_dir_follows_the_override_and_can_be_switched_off() {
    let dir = |value: Option<&str>| transcript_dir(value, None, Some("/h"));
    assert_eq!(dir(Some("/tmp/t")).as_deref(), Some("/tmp/t"), "override wins");
    for off in ["off", "0", "no", "false", ""] {
        assert_eq!(dir(Some(off)), None, "`{off}` writes nothing");
    }
    assert_eq!(dir(Some(" ~/t ")).as_deref(), Some("/h/t"));
    assert_eq!(dir(None).as_deref(), Some("/h/.local/share/ricon/sessions"));
    assert_eq!(transcript_dir(None, Some("/d"), None).as_deref(), Some("/d/ricon/sessions"));
}

#[test]
fn the_continue_text_comes_from_the_projects_auto_file_when_it_has_one() {
    let custom = "keep going with the plan\nthen run the tests";
    assert_eq!(continue_text(None, None), "continue");
    assert_eq!(continue_text(Some(" \n\n"), None), "continue", "a blank file: the default");
    assert_eq!(
        continue_text(Some(" \n\n"), Some("user-wide text\n")),
        "user-wide text",
        "a blank project file: the global one"
    );
    assert_eq!(continue_text(None, Some("user-wide text\n")), "user-wide text");
    let padded = format!("\n{custom}\n\n");
    assert_eq!(
        continue_text(Some(&padded), Some("user-wide text\n")),
        custom,
        "the project's file wins, trimmed"
    );
}

#[test]
fn a_file_name_is_tamed() {
    assert_eq!(tame("my folder/ü"), "my_folder__");
    assert_eq!(tame(""), "shell");
    assert_eq!(tame(&"x".repeat(100)).len(), 64);
    assert_eq!(tame("a-b_c.d"), "a-b_c.d");
}
