use ripit::cache::{cache_contents, parse_cache};
use ripit::commit_map::{load_cache, CommitMap};
use ripit::error::RipitError;
use ripit::graph::{Graph, RemoteCommit};
use ripit::message::{
    bootstrap_message, filter_message, filter_uprooted_message, message_from_lines, provenance_of,
};
use ripit::orchestrator::{branch_run, BranchRun};
use ripit::options::{build_options, Branch, Config, Flags, Options};
use ripit::planner::{plan, Action, Step};
use ripit::patterns::Filters;
use ripit::prompt::{answer_of, read_answer};
use ripit::replay::{local_parents, merge_parents, replay_message, sync_plan};
use ripit::walker::walk;

fn flags() -> Flags {
    Flags { bootstrap: false, uproot: false, quiet: false, yes: false, no_fetch: false }
}

fn config(filters: &[&str]) -> Config {
    Config {
        repo: None,
        remote: "private".to_string(),
        branch: None,
        branches: None,
        filters: Some(filters.iter().map(|s| s.to_string()).collect()),
    }
}

fn options(filters: &[&str]) -> Options {
    match build_options(config(filters), flags()) {
        Ok(o) => o,
        Err(_) => panic!("filters should compile"),
    }
}

fn commit(id: &str, parents: &[usize], time: i64) -> RemoteCommit {
    RemoteCommit { id: id.to_string(), parents: parents.to_vec(), time }
}

/// init, c1 .. c4 in a line; c5 and c6 on c4; c7 on c6; c8 merges c5 and c7.
fn merge_graph() -> Graph {
    Graph {
        commits: vec![
            commit("c0", &[], 0),
            commit("c1", &[0], 1),
            commit("c2", &[1], 2),
            commit("c3", &[2], 3),
            commit("c4", &[3], 4),
            commit("c5", &[4], 5),
            commit("c6", &[4], 6),
            commit("c7", &[6], 7),
            commit("c8", &[5, 7], 8),
        ],
    }
}

fn map_of(pairs: &[(&str, &str)]) -> CommitMap {
    let mut m = CommitMap::new();
    for (r, l) in pairs {
        assert!(m.insert(r.to_string(), l.to_string()));
    }
    m
}

fn steps_of(order: &[usize], actions: &[Action]) -> Vec<Step> {
    order.iter().zip(actions.iter()).map(|(c, a)| Step { commit: *c, action: *a }).collect()
}

#[test]
fn filter_drops_whole_line_matches_and_collapses_blanks() {
    let o = options(&["test.*", ".*test"]);
    let msg = "brief\n\ntest line 1\nToto Test Refs\n\ntt test";
    let r = filter_message(&o.commit_msg_filters, msg, "abc123");
    assert_eq!(r, "brief\n\nToto Test Refs\n\nrip-it: abc123\n");
}

#[test]
fn filter_keeps_lines_matched_only_in_part() {
    let o = options(&["Refs:"]);
    let msg = "Not even a brief\nRefs:\n Refs: b";
    let r = filter_message(&o.commit_msg_filters, msg, "f00d");
    assert_eq!(r, "Not even a brief\n Refs: b\n\nrip-it: f00d\n");
}

#[test]
fn filter_removes_leading_and_trailing_blank_lines() {
    let o = options(&[]);
    let r = filter_message(&o.commit_msg_filters, "\n\nsubject\n\n\n\nbody\n\n", "1");
    assert_eq!(r, "subject\n\nbody\n\nrip-it: 1\n");
}

#[test]
fn filter_of_empty_message_is_marker_only() {
    let o = options(&["drop me"]);
    assert_eq!(filter_message(&o.commit_msg_filters, "drop me\n", "42"), "rip-it: 42\n");
    assert_eq!(filter_message(&o.commit_msg_filters, "", "42"), "rip-it: 42\n");
}

#[test]
fn uprooted_message_has_annotation_before_marker() {
    let o = options(&[]);
    let r = filter_uprooted_message(&o.commit_msg_filters, "fix bug\n", "c6");
    assert_eq!(r, "fix bug\n(uprooted)\n\nrip-it: c6\n");
    let r = replay_message(&o.commit_msg_filters, Action::CherryPick, "fix bug", "c6");
    assert_eq!(r, "fix bug\n(uprooted)\n\nrip-it: c6\n");
    let r = replay_message(&o.commit_msg_filters, Action::Copy, "fix bug", "c6");
    assert_eq!(r, "fix bug\n\nrip-it: c6\n");
}

#[test]
fn bootstrap_message_names_remote_tip() {
    assert_eq!(
        bootstrap_message("deadbeef"),
        "Bootstrap repository from deadbeef\n\nrip-it: deadbeef\n"
    );
}

#[test]
fn provenance_is_read_from_last_nonblank_line() {
    assert_eq!(provenance_of("subject\n\nrip-it: abc\n"), Some("abc".to_string()));
    assert_eq!(provenance_of("rip-it: abc\n\n\n"), Some("abc".to_string()));
    assert_eq!(provenance_of("rip-it: abc\nmore text\n"), None);
    assert_eq!(provenance_of("subject\n\nrip-it: \n"), None);
    assert_eq!(provenance_of("rip-at: abc"), None);
    assert_eq!(provenance_of(""), None);
}

#[test]
fn provenance_round_trips_through_filter() {
    let o = options(&["secret.*"]);
    let r = filter_message(&o.commit_msg_filters, "secret stuff\npublic", "0123abcd");
    assert_eq!(provenance_of(&r), Some("0123abcd".to_string()));
    assert_eq!(provenance_of(&bootstrap_message("77")), Some("77".to_string()));
}

#[test]
fn cache_file_lists_ids_one_per_line() {
    let ids = vec!["aa".to_string(), "bb".to_string()];
    let text = cache_contents(&ids);
    assert_eq!(text, "aa\nbb\n");
    assert_eq!(parse_cache(&text), ids);
    assert_eq!(cache_contents(&vec![]), "");
    assert_eq!(parse_cache(""), Vec::<String>::new());
    assert_eq!(parse_cache("aa\n\nbb"), ids);
}

#[test]
fn map_keeps_first_pair_for_each_id() {
    let mut m = CommitMap::new();
    assert!(m.insert("r1".to_string(), "l1".to_string()));
    assert!(!m.insert("r1".to_string(), "l2".to_string()));
    assert!(!m.insert("r2".to_string(), "l1".to_string()));
    assert!(m.insert("r2".to_string(), "l2".to_string()));
    assert_eq!(m.len(), 2);
    assert!(m.contains_remote(&"r2".to_string()));
    assert!(!m.contains_remote(&"r3".to_string()));
    assert_eq!(m.local_of(&"r1".to_string()), Some("l1".to_string()));
    assert_eq!(m.remote_of(&"l2".to_string()), Some("r2".to_string()));
    assert_eq!(m.remote_of(&"l3".to_string()), None);
    assert_eq!(m.local_ids(), vec!["l1".to_string(), "l2".to_string()]);
}

#[test]
fn load_cache_reads_markers() {
    let ids = vec!["l1".to_string(), "l2".to_string()];
    let msgs = vec![
        Some("Bootstrap repository from r1\n\nrip-it: r1\n".to_string()),
        Some("C\n\nrip-it: r2\n".to_string()),
    ];
    let m = match load_cache(&ids, &msgs) {
        Ok(m) => m,
        Err(_) => panic!("cache should load"),
    };
    assert_eq!(m.local_of(&"r2".to_string()), Some("l2".to_string()));
    assert_eq!(m.local_ids(), ids);
}

#[test]
fn load_cache_rejects_unmarked_or_missing_commit() {
    let ids = vec!["l1".to_string(), "l2".to_string()];
    let unmarked = vec![Some("rip-it: r1\n".to_string()), Some("no marker\n".to_string())];
    match load_cache(&ids, &unmarked) {
        Err(RipitError::CacheCorrupt { id }) => assert_eq!(id, "l2"),
        _ => panic!("expected CacheCorrupt"),
    }
    let missing = vec![None, Some("rip-it: r2\n".to_string())];
    match load_cache(&ids, &missing) {
        Err(RipitError::CacheCorrupt { id }) => assert_eq!(id, "l1"),
        _ => panic!("expected CacheCorrupt"),
    }
}

#[test]
fn markers_on_local_history_extend_the_map() {
    let mut m = map_of(&[("c9", "b9")]);
    let locals = vec!["h1".to_string(), "h2".to_string(), "h3".to_string()];
    let msgs = vec![
        "resolved by hand\n\nrip-it: c10\n".to_string(),
        "private work\n".to_string(),
        "again\n\nrip-it: c9\n".to_string(),
    ];
    m.learn_markers(&locals, &msgs);
    assert_eq!(m.local_of(&"c10".to_string()), Some("h1".to_string()));
    assert_eq!(m.local_of(&"c9".to_string()), Some("b9".to_string()));
    assert_eq!(m.len(), 2);
}

#[test]
fn options_default_to_master_and_current_directory() {
    let o = options(&[]);
    assert_eq!(o.repo, ".");
    assert_eq!(o.remote, "private");
    assert_eq!(o.branches.len(), 1);
    assert_eq!(o.branches[0].name, "master");
    assert_eq!(o.branches[0].refname, "refs/heads/master");
    assert!(o.verbose && o.fetch && !o.yes && !o.uproot && !o.bootstrap);
}

#[test]
fn options_take_legacy_branch_and_flags() {
    let mut cfg = config(&[]);
    cfg.branch = Some("main".to_string());
    cfg.repo = Some("/srv/public".to_string());
    let f = Flags { bootstrap: true, uproot: true, quiet: true, yes: true, no_fetch: true };
    let o = match build_options(cfg, f) {
        Ok(o) => o,
        Err(_) => panic!("valid configuration"),
    };
    assert_eq!(o.repo, "/srv/public");
    assert_eq!(o.branches[0].refname, "refs/heads/main");
    assert!(o.bootstrap && o.uproot && o.yes && !o.verbose && !o.fetch);
}

#[test]
fn options_list_every_configured_branch() {
    let mut cfg = config(&[]);
    cfg.branch = Some("ignored".to_string());
    cfg.branches = Some(vec!["branch0".to_string(), "branch1".to_string(), "master".to_string()]);
    let o = match build_options(cfg, flags()) {
        Ok(o) => o,
        Err(_) => panic!("valid configuration"),
    };
    let names: Vec<&str> = o.branches.iter().map(|b| b.name.as_str()).collect();
    assert_eq!(names, vec!["branch0", "branch1", "master"]);
    assert_eq!(o.branches[1].refname, "refs/heads/branch1");
}

#[test]
fn options_reject_invalid_filter() {
    match build_options(config(&["(unclosed"]), flags()) {
        Err(RipitError::InvalidConfig { field }) => assert_eq!(field, "filter"),
        _ => panic!("expected InvalidConfig"),
    }
}

#[test]
fn branch_refname_is_under_heads() {
    let b = Branch::new("topic".to_string());
    assert_eq!(b.name, "topic");
    assert_eq!(b.refname, "refs/heads/topic");
}

#[test]
fn sync_without_bootstrap_fails() {
    let g = Graph {
        commits: vec![commit("init", &[], 0), commit("A", &[0], 1), commit("B", &[1], 2)],
    };
    let m = CommitMap::new();
    assert!(matches!(sync_plan(&g, &m, 2, false), Err(RipitError::MissingBootstrap)));
    assert!(matches!(sync_plan(&g, &m, 2, true), Err(RipitError::MissingBootstrap)));
}

#[test]
fn fast_forward_after_bootstrap_copies_new_commit() {
    let g = Graph {
        commits: vec![
            commit("init", &[], 0),
            commit("A", &[0], 1),
            commit("B", &[1], 2),
            commit("C", &[2], 3),
        ],
    };
    let m = map_of(&[("B", "boot")]);
    let (order, steps) = match sync_plan(&g, &m, 3, false) {
        Ok(p) => p,
        Err(_) => panic!("plan expected"),
    };
    assert_eq!(order, vec![3]);
    assert_eq!(steps, steps_of(&[3], &[Action::Copy]));
    assert_eq!(local_parents(&g, &m, 3), Some(vec!["boot".to_string()]));
}

#[test]
fn known_tip_is_noop() {
    let g = merge_graph();
    let m = map_of(&[("c4", "b4"), ("c8", "l8")]);
    match sync_plan(&g, &m, 8, false) {
        Ok((order, steps)) => {
            assert!(order.is_empty());
            assert!(steps.is_empty());
        },
        Err(_) => panic!("no-op expected"),
    }
}

#[test]
fn merge_is_replayed_with_both_sides() {
    let g = merge_graph();
    let m = map_of(&[("c4", "boot")]);
    let (order, steps) = match sync_plan(&g, &m, 8, false) {
        Ok(p) => p,
        Err(_) => panic!("plan expected"),
    };
    assert_eq!(order, vec![5, 6, 7, 8]);
    assert_eq!(steps, steps_of(&order, &[Action::Copy, Action::Copy, Action::Copy, Action::Copy]));
    let m = map_of(&[("c4", "boot"), ("c5", "l5"), ("c6", "l6"), ("c7", "l7")]);
    assert_eq!(local_parents(&g, &m, 8), Some(vec!["l5".to_string(), "l7".to_string()]));
    assert_eq!(local_parents(&g, &m, 7), Some(vec!["l6".to_string()]));
    assert_eq!(local_parents(&g, &m, 6), Some(vec!["boot".to_string()]));
}

#[test]
fn uproot_needed_across_bootstrap() {
    let g = merge_graph();
    let m = map_of(&[("c5", "boot")]);
    match sync_plan(&g, &m, 8, false) {
        Err(RipitError::UnknownParent { commit, parent }) => {
            assert_eq!(commit, "c6");
            assert_eq!(parent, "c4");
        },
        _ => panic!("expected UnknownParent"),
    }
    let (order, steps) = match sync_plan(&g, &m, 8, true) {
        Ok(p) => p,
        Err(_) => panic!("plan expected"),
    };
    assert_eq!(order, vec![6, 7, 8]);
    assert_eq!(steps, steps_of(&order, &[Action::CherryPick, Action::CherryPick, Action::Merge]));
    let m = map_of(&[("c5", "boot"), ("c6", "u6"), ("c7", "u7")]);
    assert_eq!(local_parents(&g, &m, 8), Some(vec!["boot".to_string(), "u7".to_string()]));
    assert_eq!(local_parents(&g, &m, 6), None);
}

#[test]
fn hand_resolved_commit_is_recognised_by_marker() {
    // c9 is bootstrapped, c10 on c9 conflicted and was committed by hand.
    let g = Graph {
        commits: vec![commit("c9", &[], 9), commit("c10", &[0], 10), commit("c11", &[1], 11)],
    };
    let mut m = map_of(&[("c9", "boot")]);
    let locals = vec!["manual".to_string()];
    let msgs = vec!["resolved\n\nrip-it: c10\n".to_string()];
    m.learn_markers(&locals, &msgs);
    let (order, steps) = match sync_plan(&g, &m, 2, true) {
        Ok(p) => p,
        Err(_) => panic!("plan expected"),
    };
    assert_eq!(order, vec![2]);
    assert_eq!(steps, steps_of(&[2], &[Action::Copy]));
    assert_eq!(local_parents(&g, &m, 2), Some(vec!["manual".to_string()]));
}

#[test]
fn forgotten_uprooted_commits_are_walked_again() {
    let g = merge_graph();
    // with the cache, the uprooted c6 and c7 stay known
    let with_cache = map_of(&[("c5", "boot"), ("c6", "u6"), ("c7", "u7"), ("c8", "l8")]);
    let known: Vec<bool> = (0..9).map(|i| i == 5 || i >= 6).collect();
    assert!(walk(&g, &known, 8).is_empty());
    assert!(matches!(sync_plan(&g, &with_cache, 8, true), Ok((o, _)) if o.is_empty()));
    // without it, only what the branch still reaches is known
    let without = map_of(&[("c5", "boot")]);
    match sync_plan(&g, &without, 7, true) {
        Ok((order, _)) => assert_eq!(order, vec![6, 7]),
        Err(_) => panic!("plan expected"),
    }
}

#[test]
fn branches_are_planned_independently() {
    let g0 = Graph { commits: vec![commit("a0", &[], 0), commit("a1", &[0], 1)] };
    let g1 = Graph {
        commits: vec![commit("b0", &[], 0), commit("b1", &[0], 1), commit("b2", &[1], 2)],
    };
    let mut m = CommitMap::new();
    m.insert("a0".to_string(), "boot0".to_string());
    m.insert("b0".to_string(), "boot1".to_string());
    match sync_plan(&g0, &m, 1, false) {
        Ok((order, _)) => assert_eq!(order, vec![1]),
        Err(_) => panic!("plan expected"),
    }
    match sync_plan(&g1, &m, 2, false) {
        Ok((order, _)) => assert_eq!(order, vec![1, 2]),
        Err(_) => panic!("plan expected"),
    }
}

#[test]
fn ties_are_broken_by_time_then_id() {
    let g = Graph {
        commits: vec![
            commit("root", &[], 0),
            commit("zz", &[0], 5),
            commit("bb", &[0], 3),
            commit("aa", &[0], 3),
            commit("m", &[1, 2, 3], 9),
        ],
    };
    let known = vec![true, false, false, false, false];
    assert_eq!(walk(&g, &known, 4), vec![3, 2, 1, 4]);
}

#[test]
fn plan_skips_commits_with_copies() {
    let g = merge_graph();
    let mut mapped = vec![false; 9];
    mapped[4] = true;
    mapped[6] = true;
    match plan(&g, &vec![6, 7], &mapped, false) {
        Ok(steps) => assert_eq!(steps, steps_of(&[6, 7], &[Action::Skip, Action::Copy])),
        Err(_) => panic!("plan expected"),
    }
}

#[test]
fn prompt_answers_are_trimmed() {
    assert_eq!(read_answer(" y\n"), Some(true));
    assert_eq!(read_answer("Y\n"), Some(true));
    assert_eq!(read_answer("\tn \n"), Some(false));
    assert_eq!(read_answer("N"), Some(false));
    assert_eq!(read_answer("yes\n"), None);
    assert_eq!(read_answer("\n"), None);
    assert_eq!(answer_of(" y"), None);
}

#[test]
fn branch_run_follows_flags_and_plan() {
    assert_eq!(branch_run(true, false, 3), BranchRun::Bootstrap);
    assert_eq!(branch_run(true, true, 0), BranchRun::Bootstrap);
    assert_eq!(branch_run(false, false, 0), BranchRun::UpToDate);
    assert_eq!(branch_run(false, false, 2), BranchRun::Ask);
    assert_eq!(branch_run(false, true, 2), BranchRun::Replay);
}

#[test]
fn message_from_given_drop_flags() {
    let lines: Vec<String> = ["", "subject", "secret", "", "", "body", ""]
        .iter()
        .map(|s| s.to_string())
        .collect();
    let drop = vec![false, false, true, false, false, false, false];
    assert_eq!(
        message_from_lines(&lines, &drop, false, "c1"),
        "subject\n\nbody\n\nrip-it: c1\n"
    );
    assert_eq!(
        message_from_lines(&lines, &drop, true, "c1"),
        "subject\n\nbody\n(uprooted)\n\nrip-it: c1\n"
    );
    let all = vec![true; 7];
    assert_eq!(message_from_lines(&lines, &all, false, "c1"), "rip-it: c1\n");
}

#[test]
fn merge_parents_keep_known_sides_in_order() {
    let g = merge_graph();
    let m = map_of(&[("c5", "boot"), ("c7", "u7")]);
    assert_eq!(merge_parents(&g, &m, 8), vec!["boot".to_string(), "u7".to_string()]);
    let m = map_of(&[("c7", "u7")]);
    assert_eq!(merge_parents(&g, &m, 8), vec!["u7".to_string()]);
    assert_eq!(merge_parents(&g, &m, 0), Vec::<String>::new());
}

#[test]
fn options_reject_filter_invalid_alone() {
    for bad in ["a)|(b", "(?x)a#"] {
        match build_options(config(&[bad]), flags()) {
            Err(RipitError::InvalidConfig { field }) => assert_eq!(field, "filter"),
            _ => panic!("expected InvalidConfig for {}", bad),
        }
    }
}

#[test]
fn filters_compile_only_valid_patterns() {
    assert!(Filters::compile(vec!["(".to_string()]).is_err());
    assert!(Filters::compile(vec![]).is_ok());
    let f = match Filters::compile(vec!["^a$".to_string()]) {
        Ok(f) => f,
        Err(_) => panic!("valid pattern"),
    };
    assert_eq!(filter_message(&f, "a\nab", "1"), "ab\n\nrip-it: 1\n");
}
