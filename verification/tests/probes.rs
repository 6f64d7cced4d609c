use ricon::labels::{context_label, tokens, Context};
use ricon::probe::{
    ancestors, config_base,
    agent_index, agents, cached_limit, climb, context_limit_path, descends_from, env_var,
    foreground_pid, gitdir, head_label, json_number, json_string, last_session_model,
    last_session_usage, log_tail_value, model_label, newest, opencode_context_limit, proc_cmdline,
    proc_comm, proc_pgrp, proc_ppid, project_path, registered_transcript, registration_path,
    session_context, session_limit_path, session_status, slug, tail_sizes, tail_text,
    upstream_name, whole_text, widen, Climb, LimitCache, Source, Status, Usage, FORK,
};

#[test]
fn json_string_extracts_exact_keys_only() {
    assert_eq!(json_string(r#"{"model":"opus-4"}"#, "model"), Some("opus-4".into()));
    assert_eq!(json_string(r#"{"models":"x"}"#, "model"), None);
    assert_eq!(json_string(r#"{"model":""}"#, "model"), None);
    assert_eq!(json_string("not json", "model"), None);
}

#[test]
fn json_string_reads_only_string_values_of_keys() {
    assert_eq!(json_string("{\"model\": \"opus\"}", "model").as_deref(), Some("opus"));
    assert_eq!(json_string("{\"model\": null, \"foo\":\"bar\"}", "model"), None, "null is no model");
    assert_eq!(
        json_string("{\"name\":\"model\",\"model\":\"x\"}", "model").as_deref(),
        Some("x"),
        "keys only"
    );
}

#[test]
fn every_supported_client_is_detected_with_model_sources() {
    let upstream = upstream_name();
    let specs = agents();
    for comm in [upstream.as_str(), "openclaude", "opencode"] {
        let spec = specs.iter().find(|s| s.comm == comm).unwrap_or_else(|| panic!("{comm} detected"));
        assert!(!spec.sources.is_empty(), "{comm} has a model source");
    }
    assert!(specs.iter().all(|s| !s.comm.is_empty()));
    assert_eq!(format!("open{upstream}"), FORK);
    assert_eq!(agent_index(&upstream), Some(0));
    assert_eq!(agent_index(FORK), Some(1));
    assert_eq!(agent_index("opencode"), Some(2));
    assert_eq!(agent_index("vim"), None);
}

#[test]
fn a_session_client_reads_its_live_transcript_before_its_settings() {
    for (i, name) in [upstream_name(), FORK.to_string()].iter().enumerate() {
        let spec = &agents()[i];
        assert!(matches!(&spec.sources[0], Source::SessionTail(d) if *d == format!(".{name}/projects")));
        assert!(
            matches!(&spec.sources[1], Source::Settings(f, k) if *f == format!(".{name}/settings.json") && k == "model")
        );
        assert!(matches!(&spec.sources[2], Source::EnvPlain(v) if v == "ANTHROPIC_MODEL"));
        assert!(matches!(&spec.usage, Usage::Session(d) if *d == format!(".{name}/projects")));
    }
    assert!(matches!(agents()[2].usage, Usage::Opencode));
    assert_eq!(model_label("opencode", None), "opencode");
    assert_eq!(model_label("opencode", Some("m".into())), "m");
}

#[test]
fn claude_and_openclaude_read_the_live_session_model_first() {
    // A mid-session switch, the placeholder no model produced and a subagent's own
    // model are all honoured.
    for client in [upstream_name(), FORK.to_string()] {
        let text = format!(
            "{{\"model\":\"{client}-first\"}}\n{{\"model\":\"{client}-now\"}}\n\
             {{\"model\":\"<synthetic>\"}}\n{{\"isSidechain\":true,\"model\":\"subagent-model\"}}\n"
        );
        assert_eq!(last_session_model(&text), Some(format!("{client}-now")), "{client}");
    }
    assert_eq!(last_session_model(""), None);
}

#[test]
fn claude_and_openclaude_read_their_settings_model() {
    for client in [upstream_name(), FORK.to_string()] {
        let text = format!("{{\n \"env\": {{}},\n \"model\": \"{client}-model\"\n}}");
        assert_eq!(json_string(&text, "model"), Some(format!("{client}-model")));
    }
}

#[test]
fn claude_resolves_its_own_session_by_pid_before_the_newest_file() {
    let name = upstream_name();
    let dir = format!(".{name}/projects");
    assert_eq!(registration_path("/h", &dir, 7), format!("/h/.{name}/sessions/7.json"));
    assert_eq!(project_path("/h", &dir, "/home/x.y"), format!("/h/.{name}/projects/-home-x-y"));
    assert_eq!(slug("/a b/Ü1"), "-a-b--1");
    assert_eq!(
        registered_transcript(Some("{\"pid\":7,\"sessionId\":\"mine\",\"cwd\":\"/x\"}")).as_deref(),
        Some("mine.jsonl")
    );
    assert_eq!(registered_transcript(Some("{}")), None, "nothing registered: the newest file");
    assert_eq!(registered_transcript(None), None);
    let mine = "{\"type\":\"assistant\",\"message\":{\"model\":\"mine-model\",\"usage\":{\"input_tokens\":1000,\
                \"cache_creation_input_tokens\":20000,\"cache_read_input_tokens\":100000,\"output_tokens\":7,\
                \"iterations\":[{\"input_tokens\":999999}]}}}\n";
    assert_eq!(last_session_model(mine).as_deref(), Some("mine-model"));
    let used = last_session_usage(mine).expect("usage");
    assert_eq!(used, 121_000, "not the per-iteration copies");
    assert_eq!(session_context(used, None, None), Context { used: 121_000, max: Some(200_000) });
    // A `[1m]` model in the client's settings, or on its command line, means the
    // wide window; so does a usage past the narrow one.
    let wide = format!("{name}-opus-5[1m]");
    assert_eq!(session_context(used, None, Some(&wide)).max, Some(1_000_000));
    assert_eq!(session_context(used, Some("x --model y[1m]"), None).max, Some(1_000_000));
    assert_eq!(session_context(200_000, None, None).max, Some(200_000));
    assert_eq!(session_context(200_001, None, None).max, Some(1_000_000));
}

#[test]
fn session_usage_and_token_labels() {
    let text = "{\"usage\":{\"input_tokens\":5,\"cache_creation_input_tokens\":6,\"cache_read_input_tokens\":7}}\n\
                {\"isSidechain\":true,\"usage\":{\"input_tokens\":1,\"cache_creation_input_tokens\":1,\"cache_read_input_tokens\":1}}\n\
                {\"type\":\"user\"}\n";
    assert_eq!(last_session_usage(text), Some(18));
    assert_eq!(
        last_session_usage("{\"usage\":{\"output_tokens\":3}}"),
        Some(0),
        "missing fields count as zero"
    );
    assert_eq!(last_session_usage("no usage here"), None);
    assert_eq!(json_number("{\"a\": 12,\"b\":3}", "b"), Some(3));
    assert_eq!(json_number("{\"a\": 12}", "a"), Some(12));
    assert_eq!(json_number("{\"ab\":12}", "a"), None);
    for (n, label) in [
        (0, "0"),
        (999, "999"),
        (1_000, "1k"),
        (123_456, "123k"),
        (199_500, "200k"),
        (999_499, "999k"),
        (999_500, "1M"),
        (1_000_000, "1M"),
        (1_250_000, "1.3M"),
        (2_040_000, "2M"),
    ] {
        assert_eq!(tokens(n), label, "{n}");
    }
    assert_eq!(context_label(Some(Context { used: 42_000, max: Some(200_000) })), " 42k/200k");
    assert_eq!(context_label(Some(Context { used: 42_000, max: None })), " 42k");
    assert_eq!(context_label(None), "");
}

#[test]
fn session_usage_is_found_behind_a_huge_line() {
    let answer = "{\"message\":{\"model\":\"m\",\"usage\":{\"input_tokens\":7}}}\n";
    let tool = format!("{{\"toolUseResult\":\"{}\"}}\n", "x".repeat(300 * 1024));
    let file = format!("{answer}{tool}").into_bytes();
    let scan = |find: &dyn Fn(&str) -> Option<u64>| {
        let len = file.len() as u64;
        let mut tried = 0;
        for max in tail_sizes() {
            tried += 1;
            let from = len.saturating_sub(max) as usize;
            let found = find(&tail_text(&file[from..], len, max));
            if !widen(found.is_some(), len, max) {
                return (found, tried);
            }
        }
        (None, tried)
    };
    assert_eq!(scan(&last_session_usage), (Some(7), 2), "past the first 64 KiB");
    assert_eq!(scan(&|_: &str| None), (None, 2), "and it stops at the file's start");
    assert_eq!(whole_text("cut\nwhole\n", true), "whole\n");
    assert_eq!(whole_text("cut", true), "");
    assert_eq!(whole_text("all\n", false), "all\n");
}

#[test]
fn opencode_context_limit_is_the_providers_own_entry() {
    // An aggregator lists the same model first, with another id and limit.
    let catalog = r#"{"router":{"models":{"anthropic/x":{"id":"anthropic/x","limit":{"context":200000}}}},
        "anthropic":{"models":{"x":{"id":"x","limit":{"context":1000000}},"y":{"id":"y"}}}}"#;
    let limit = |provider: &str, id: &str| {
        let path = context_limit_path(provider, id).expect("addressable");
        opencode_context_limit(&mut None, 1, &path, catalog)
    };
    assert_eq!(limit("anthropic", "x"), Some(1_000_000));
    assert_eq!(limit("anthropic", "y"), None, "no limit: not the next model's");
    assert_eq!(limit("ollama", "x"), None, "not in the catalog");
    assert_eq!(limit("router", "anthropic/x"), Some(200_000));
    assert_eq!(context_limit_path("a\"b", "x"), None, "not addressable in a JSON path");
    let path = context_limit_path("p", "m").expect("path");
    assert_eq!(path, "$.\"p\".models.\"m\".limit.context");
    assert_eq!(session_limit_path("{\"id\":\"m\",\"providerID\":\"p\"}"), Some(path));
    assert_eq!(session_limit_path("{\"id\":\"m\"}"), None);
}

#[test]
fn a_limit_is_kept_until_the_catalog_changes() {
    let catalog = r#"{"p":{"models":{"m":{"limit":{"context":5}}}}}"#;
    let path = context_limit_path("p", "m").expect("path");
    let mut cache: Option<LimitCache> = None;
    assert_eq!(cached_limit(&cache, 1, &path), None);
    assert_eq!(opencode_context_limit(&mut cache, 1, &path, catalog), Some(5));
    assert_eq!(cached_limit(&cache, 1, &path), Some(Some(5)));
    assert_eq!(cached_limit(&cache, 2, &path), None, "a new one is read again");
    assert_eq!(opencode_context_limit(&mut cache, 2, &path, "{}"), None);
    assert_eq!(opencode_context_limit(&mut None, 1, &path, "not json"), None);
}

#[test]
fn git_branch_reads_head_ref() {
    assert_eq!(head_label("ref: refs/heads/feature-x\n"), "feature-x");
}

#[test]
fn git_branch_detached_head_shows_short_hash() {
    assert_eq!(head_label("0123456789abcdef\n"), "@0123456");
    assert_eq!(head_label("0123\n"), "@?");
}

#[test]
fn git_branch_follows_worktree_gitdir_files() {
    assert_eq!(gitdir("gitdir: ../wt-git\n").as_deref(), Some("../wt-git"));
    assert_eq!(gitdir("something else"), None);
    assert_eq!(head_label("ref: refs/heads/wt-branch\n"), "wt-branch");
}

#[test]
fn proc_helpers_read_a_process() {
    let stat = "4242 (a) b (c) S 17 4243 4242 34816 4250 4194304 0\n";
    assert_eq!(proc_ppid(stat), Some(17));
    assert_eq!(proc_pgrp(stat), Some(4243));
    assert_eq!(foreground_pid(stat, 4242), Some(4250));
    assert_eq!(foreground_pid(stat, 4250), None, "the shell itself holds its terminal");
    assert_eq!(foreground_pid("1 (sh) S 1 1 1 0 -1 0", 1), None, "no terminal");
    assert_eq!(proc_ppid("garbage"), None);
    assert_eq!(proc_comm("bash\n"), "bash");
    assert_eq!(proc_cmdline(b"sleep\0\x3330\0\0").as_deref(), Some("sleep 330"));
    assert_eq!(proc_cmdline(b"\0"), None);
    assert_eq!(proc_cmdline(b"a\xff\0b\0").as_deref(), Some("a\u{fffd} b"));
    let environ = b"A=1\0PATH=/bin:/usr/bin\0PATHX=no\0BAD\xff=1\0EMPTY=\0";
    assert_eq!(env_var(environ, "PATH").as_deref(), Some("/bin:/usr/bin"));
    assert_eq!(env_var(environ, "EMPTY"), None, "set to nothing");
    assert_eq!(env_var(environ, "UNSET"), None);
}

#[test]
fn descent_is_a_chain_of_parents() {
    assert!(descends_from(&[Some(30), Some(20), Some(10)], 10));
    assert!(!descends_from(&[Some(30), Some(20), Some(1)], 10));
    assert!(!descends_from(&[Some(30), None], 10));
    assert!(!descends_from(&[Some(10)], 7), "a process is not its own ancestor");
    let far: Vec<Option<u32>> = (0..100).map(|n| Some(1000 + n)).collect();
    assert!(descends_from(&far, 1063), "the last step that is taken");
    assert!(!descends_from(&far, 1064), "the walk is capped");
    assert!(matches!(climb(Some(10), 10, 0), Climb::Found));
}

#[test]
fn the_clients_own_status_is_read_from_its_registration() {
    let idle = "{\"pid\":7,\"status\":\"idle\",\"updatedAt\":1,\"statusUpdatedAt\":1789282238190}";
    assert_eq!(session_status(idle, 0), Some(Status::Idle(1_789_282_238_190_000_000)));
    assert_eq!(session_status("{\"status\":\"busy\",\"statusUpdatedAt\":5}", 0), Some(Status::Busy));
    assert_eq!(session_status("{\"status\":\"shell\"}", 0), Some(Status::Busy), "running a command is busy");
    assert_eq!(session_status("{\"pid\":7}", 0), None, "no status field: the screen stands in");
    assert_eq!(session_status("{\"status\":\"idle\"}", 77), Some(Status::Idle(77)));
}

#[test]
fn a_log_tail_gives_its_last_value() {
    let log = b"x llm.model=old y\nllm.model=\"new\" z\n";
    assert_eq!(log_tail_value(log, "llm.model").as_deref(), Some("new"));
    assert_eq!(log_tail_value(b"llm.model= x", "llm.model"), None);
    assert_eq!(log_tail_value(b"\xff", "llm.model"), None);
}

#[test]
fn the_newest_of_some_files_is_the_last_of_the_latest() {
    assert_eq!(newest(&[]), None);
    assert_eq!(newest(&[3, 9, 9, 1]), Some(2));
}

#[test]
fn a_repository_is_looked_for_from_the_folder_up() {
    assert_eq!(ancestors("/home/dev/ricon"), ["/home/dev/ricon", "/home/dev", "/home", "/"]);
    assert_eq!(ancestors("/"), ["/"]);
    assert_eq!(ancestors("/a//b/"), ["/a//b/", "/a", "/"]);
    assert_eq!(ancestors("a/./b"), ["a/./b", "a", ""]);
    assert_eq!(ancestors(""), [""]);
}

#[test]
fn lines_of_others_change_no_usage() {
    let text = "{\"usage\":{\"input_tokens\":5,\"cache_read_input_tokens\":7}}\r";
    assert_eq!(last_session_usage(text), Some(12));
    for line in [
        "{\"isSidechain\":true,\"usage\":{\"input_tokens\":900}}",
        "{\"type\":\"user\"}",
        "",
    ] {
        assert_eq!(last_session_usage(&format!("{text}\n{line}")), Some(12), "{line:?}");
        assert_eq!(last_session_usage(&format!("\n{line}")), None, "{line:?}");
    }
}

#[test]
fn the_configuration_lies_above_the_transcripts() {
    assert_eq!(config_base(".client/projects"), ".client");
    assert_eq!(config_base("a/b/"), "a");
    assert_eq!(config_base("/x"), "/");
    assert_eq!(config_base("x"), "");
    assert_eq!(config_base("/"), "");
    assert_eq!(registration_path("/h", "/x", 7), "/h///sessions/7.json");
}
