use latte_lens::ipc::{Instance, InstanceInfo, ResponseBody, PROTOCOL_VERSION};
use latte_lens::paths::PathStyle;
use latte_lens::routing::{
    absolute_candidate, attach_report, borrowed, choice_prompt, format_instance_list,
    format_uptime, instance_table, is_covered, merged_warning, prompt_instance_choice,
    select_instance, uncovered_error, viewer_start, ChoiceError, Route, StartFault,
};
use latte_lens::suggestions::{
    bounded_edit_distance, cannot_open_error, closest_names, similar_entry_names, NameEntry,
    OpenFault, ParentState,
};

fn instance(pid: u32, root: &str) -> Instance {
    Instance {
        socket_path: format!("/runtime/{pid}.sock").into_bytes(),
        info: InstanceInfo {
            proto: PROTOCOL_VERSION,
            pid,
            root: root.to_string(),
            version: "0.0.0".to_string(),
            started_at_ms: u64::from(pid),
        },
    }
}

fn selected_pid(route: Route<'_>) -> u32 {
    match route {
        Route::Instance(instance) => instance.info.pid,
        Route::Ambiguous(_) => panic!("expected a chosen instance, got ambiguity"),
    }
}

fn candidate_pids(route: Route<'_>) -> Vec<u32> {
    match route {
        Route::Ambiguous(candidates) => candidates
            .iter()
            .map(|candidate| candidate.info.pid)
            .collect(),
        Route::Instance(instance) => panic!("expected ambiguity, chose pid {}", instance.info.pid),
    }
}

#[test]
fn routing_prefers_the_deepest_instance_root_covering_the_path() {
    let instances = vec![
        instance(10, "/home/me"),
        instance(11, "/home/me/projects/alpha"),
    ];
    let route = select_instance(
        PathStyle::Unix,
        &instances,
        None,
        b"/home/me/projects/alpha/src/lib.rs",
        None,
    )
    .expect("selected");
    assert_eq!(selected_pid(route), 11);

    let route = select_instance(PathStyle::Unix, &instances, None, b"/home/me/notes.txt", None).expect("selected");
    assert_eq!(selected_pid(route), 10);
}

#[test]
fn the_newest_of_equally_deep_roots_is_chosen() {
    let instances = vec![
        instance(10, "/home/me/projects"),
        instance(11, "/home/me/projects"),
        instance(12, "/home"),
    ];
    let route = select_instance(PathStyle::Unix, &instances, None, b"/home/me/projects/a", None).expect("selected");
    assert_eq!(selected_pid(route), 11);
}

#[test]
fn routing_matches_roots_by_components_not_string_prefixes() {
    let instances = vec![instance(20, "/home/me/project"), instance(21, "/elsewhere")];
    let route = select_instance(PathStyle::Unix, &instances, None, b"/home/me/project-x/file.rs", None).unwrap();
    assert_eq!(candidate_pids(route), vec![20, 21]);
}

#[test]
fn a_numeric_target_selects_by_exact_pid() {
    let instances = vec![instance(30, "/a"), instance(31, "/b")];
    let route = select_instance(PathStyle::Unix, &instances, Some("30"), b"/b/file.rs", None).expect("selected");
    assert_eq!(selected_pid(route), 30);
    let error = select_instance(PathStyle::Unix, &instances, Some("99"), b"/b/file.rs", None).expect_err("no pid");
    assert_eq!(error.message(), "no running instance has pid 99");
    let route = select_instance(PathStyle::Unix, &instances, Some("+31"), b"/a/file.rs", None).expect("selected");
    assert_eq!(selected_pid(route), 31);
}

#[test]
fn a_path_target_reroutes_inside_the_target_subtree() {
    let instances = vec![instance(40, "/home/me"), instance(41, "/other")];
    let route =
        select_instance(PathStyle::Unix, &instances, Some("/home/me/projects"), b"/other", None).unwrap();
    assert_eq!(selected_pid(route), 40);
    let route = select_instance(PathStyle::Unix, &instances, Some("projects"), b"/other", Some(b"/home/me")).unwrap();
    assert_eq!(selected_pid(route), 40);
}

#[test]
fn a_single_running_instance_receives_uncovered_paths_without_a_target() {
    let instances = vec![instance(42, "/data00/projects/latte-co")];
    let route = select_instance(PathStyle::Unix, &instances, None, b"/data00/home/me/.bashrc", None)
        .expect("selected");
    assert_eq!(selected_pid(route), 42);
}

#[test]
fn several_instances_without_coverage_become_an_ambiguous_choice() {
    let instances = vec![instance(50, "/alpha"), instance(51, "/beta")];
    let route = select_instance(PathStyle::Unix, &instances, None, b"/gamma/file.rs", None).unwrap();
    assert_eq!(candidate_pids(route), vec![50, 51]);
}

#[test]
fn an_explicit_path_target_that_covers_nothing_reports_the_list() {
    let instances = vec![instance(60, "/alpha"), instance(61, "/beta")];
    let error = select_instance(PathStyle::Unix, &instances, Some("/gamma"), b"/gamma/file.rs", None)
        .expect_err("no match");
    let message = error.message();
    assert!(message.contains("no running instance matches"));
    assert!(message.contains("pid 60"));
    assert!(message.contains("pid 61"));
    assert_eq!(
        message,
        "no running instance matches /gamma\nrunning instances:\n  pid 60  /alpha\n  pid 61  /beta"
    );
}

#[test]
fn bytes_that_are_no_text_are_shown_with_a_mark() {
    let instances = vec![instance(60, "/alpha"), instance(61, "/beta")];
    let error = select_instance(PathStyle::Unix, &instances, Some("x"), b"/", Some(b"/\xff")).expect_err("no match");
    assert!(error.message().starts_with("no running instance matches /\u{fffd}/x\n"));
}

#[test]
fn the_instance_choice_prompt_accepts_a_number() {
    let instances = vec![instance(70, "/alpha"), instance(71, "/beta")];
    let refs = borrowed(&instances);
    let rendered = choice_prompt(&refs, "/x/f");
    let chosen = prompt_instance_choice(&refs, "2\n").unwrap();
    assert_eq!(chosen.info.pid, 71);
    assert!(rendered.contains("pid 70"));
    assert!(rendered.contains("pid 71"));
    assert_eq!(
        rendered,
        "No running instance covers /x/f; choose one:\n  [1] pid 70  /alpha\n  [2] pid 71  /beta\nEnter a number 1-2 (q to cancel): "
    );
}

#[test]
fn the_instance_choice_prompt_rejects_bad_cancel_and_out_of_range_input() {
    let instances = vec![instance(80, "/alpha"), instance(81, "/beta")];
    let refs = borrowed(&instances);
    for answer in ["q\n", "\n", "9\n", "abc\n", "0\n"] {
        assert!(
            prompt_instance_choice(&refs, answer).is_err(),
            "answer {answer:?} should not select an instance"
        );
    }
    assert!(matches!(
        prompt_instance_choice(&refs, " Q \n"),
        Err(ChoiceError::Cancelled)
    ));
    let error = prompt_instance_choice(&refs, " abc\n").unwrap_err();
    assert_eq!(error.message(), "not a valid choice: abc");
    let error = prompt_instance_choice(&refs, "0\n").unwrap_err();
    assert_eq!(error.message(), "choice out of range");
    let error = prompt_instance_choice(&refs, "9\n").unwrap_err();
    assert_eq!(error.message(), "choice out of range: 9");
    assert_eq!(
        prompt_instance_choice(&refs, "").unwrap_err().message(),
        "cancelled"
    );
}

#[test]
fn uptime_renders_each_scale_compactly() {
    assert_eq!(format_uptime(0), "0s");
    assert_eq!(format_uptime(42), "42s");
    assert_eq!(format_uptime(65), "1m05s");
    assert_eq!(format_uptime(11_100), "3h05m");
    assert_eq!(format_uptime(187_200), "2d04h");
}

#[test]
fn the_table_of_instances_is_aligned() {
    assert_eq!(instance_table(&vec![], 5), "no running instances\n");
    let instances = vec![instance(1_000, "/alpha")];
    assert_eq!(
        instance_table(&instances, 66_000),
        "PID      UPTIME    VERSION      ROOT\n1000     1m05s     0.0.0        /alpha\n"
    );
    assert_eq!(
        instance_table(&instances, 0),
        "PID      UPTIME    VERSION      ROOT\n1000     0s        0.0.0        /alpha\n"
    );
}

#[test]
fn instances_are_listed_on_lines() {
    let instances = vec![instance(1, "/a"), instance(2, "/b")];
    assert_eq!(
        format_instance_list(&borrowed(&instances)),
        "  pid 1  /a\n  pid 2  /b"
    );
}

#[test]
fn edit_distance_counts_edits_and_respects_the_cap() {
    assert_eq!(bounded_edit_distance("agents.md", "agents.md2", 3), 1);
    assert_eq!(bounded_edit_distance("abc", "abc", 3), 0);
    assert_eq!(bounded_edit_distance("a", "zzzzzzz", 2), 3);
    assert_eq!(bounded_edit_distance("kitten", "sitting", 10), 3);
    assert_eq!(bounded_edit_distance("sitting", "kitten", 10), 3);
    assert_eq!(bounded_edit_distance("abcd", "wxyz", 2), 3);
    assert_eq!(bounded_edit_distance("größe", "grosse", 10), 3);
}

fn entries(names: &[&str]) -> Vec<Option<String>> {
    names.iter().map(|name| Some(name.to_string())).collect()
}

#[test]
fn suggestions_rank_closest_names_and_skip_unrelated_entries() {
    let listed = entries(&["AGENTS.md", "AGENTS.md.bak", "notes.txt", ".git"]);
    let suggestions = similar_entry_names(PathStyle::Unix, b"/sandbox/AGENTS.md2", &listed);
    assert_eq!(suggestions, vec!["AGENTS.md".to_string()]);
}

#[test]
fn suggestions_break_distance_ties_deterministically() {
    let listed = entries(&["alphax.txt", "alpha.txt"]);
    let suggestions = similar_entry_names(PathStyle::Unix, b"/sandbox/alphay.txt", &listed);
    assert_eq!(
        suggestions,
        vec!["alpha.txt".to_string(), "alphax.txt".to_string()]
    );
}

#[test]
fn suggestions_ignore_case_and_unreadable_names() {
    let mut listed = entries(&["READMÉ.MD", "b", "bb", "bbb", "bbbb"]);
    listed.insert(0, None);
    assert_eq!(
        similar_entry_names(PathStyle::Unix, "/x/readmé.md".as_bytes(), &listed),
        vec!["READMÉ.MD".to_string()]
    );
    assert_eq!(
        similar_entry_names(PathStyle::Unix, b"/x/bc", &listed),
        vec!["b".to_string(), "bb".to_string(), "bbb".to_string()]
    );
    assert!(similar_entry_names(PathStyle::Unix, b"/x/\xff", &listed).is_empty());
    assert!(similar_entry_names(PathStyle::Unix, b"/", &listed).is_empty());
}

#[test]
fn hidden_names_are_suggested_for_hidden_names_only() {
    let entry = |name: &str| NameEntry {
        lower: name.to_string(),
        name: name.to_string(),
    };
    let listed = vec![entry(".git"), entry("git")];
    assert_eq!(closest_names("gti", "gti", &listed), vec!["git".to_string()]);
    assert_eq!(closest_names(".gti", ".gti", &listed), vec![".git".to_string()]);
    assert!(closest_names("git", "git", &vec![entry("git")]).is_empty());
}

#[test]
fn paths_that_cannot_be_opened_are_explained() {
    let missing = |parent: ParentState| {
        cannot_open_error("a.md", "/w/a.md", OpenFault::NotFound, &parent)
    };
    assert_eq!(
        missing(ParentState::Absent),
        "cannot open a.md\n\n/w/a.md does not exist"
    );
    assert_eq!(
        missing(ParentState::Missing("/w".to_string())),
        "cannot open a.md\n\n/w/a.md does not exist\n\ndirectory /w does not exist"
    );
    assert_eq!(
        missing(ParentState::Directory(vec![])),
        "cannot open a.md\n\n/w/a.md does not exist"
    );
    assert_eq!(
        missing(ParentState::Directory(vec!["b.md".to_string()])),
        "cannot open a.md\n\n/w/a.md does not exist\n\nDid you mean 'b.md'?"
    );
    assert_eq!(
        missing(ParentState::Directory(vec!["b.md".to_string(), "c.md".to_string()])),
        "cannot open a.md\n\n/w/a.md does not exist\n\nDid you mean one of the following?\n  b.md\n  c.md"
    );
    assert_eq!(
        cannot_open_error("a.md", "/w/a.md", OpenFault::Denied, &ParentState::Absent),
        "cannot open a.md\n\n/w/a.md: permission denied"
    );
    assert_eq!(
        cannot_open_error("a.md", "/w/a.md", OpenFault::Other, &ParentState::Absent),
        "cannot open a.md"
    );
}

#[test]
fn roots_cover_by_components() {
    assert!(is_covered(PathStyle::Unix, b"/", b"/a"));
    assert!(is_covered(PathStyle::Unix, b"/a/", b"/a/b"));
    assert!(is_covered(PathStyle::Unix, b"/a/./b", b"/a/b/c"));
    assert!(!is_covered(PathStyle::Unix, b"/a", b"/ab"));
    assert!(!is_covered(PathStyle::Unix, b"a", b"/a"));
    assert!(!is_covered(PathStyle::Unix, b".", b"/a"));
    assert!(is_covered(PathStyle::Unix, b"", b"/a"));
    assert!(is_covered(PathStyle::Windows, br"C:\a", b"c:/a/b"));
    assert!(!is_covered(PathStyle::Windows, br"C:\a", br"\\?\C:\a\b"));
}

#[test]
fn relative_paths_are_looked_up_from_the_current_directory() {
    assert_eq!(absolute_candidate(PathStyle::Unix, b"/a", Some(b"/w")), b"/a");
    assert_eq!(absolute_candidate(PathStyle::Unix, b"a", Some(b"/w")), b"/w/a");
    assert_eq!(absolute_candidate(PathStyle::Unix, b"a", None), b"a");
    assert_eq!(
        absolute_candidate(PathStyle::Windows, b"a", Some(br"C:\w")),
        br"C:\w\a"
    );
    assert_eq!(
        absolute_candidate(PathStyle::Windows, br"\a", Some(br"C:\w")),
        br"C:\a"
    );
}

#[test]
fn a_file_is_shown_in_the_directory_it_is_in() {
    let start = viewer_start(PathStyle::Unix, b"/w/src", true, false).unwrap();
    assert_eq!(start.workspace, b"/w/src");
    assert!(start.initial_file.is_none());
    let start = viewer_start(PathStyle::Unix, b"/w/src/a.rs", false, true).unwrap();
    assert_eq!(start.workspace, b"/w/src");
    assert_eq!(start.initial_file.as_deref(), Some(&b"/w/src/a.rs"[..]));
    let start = viewer_start(PathStyle::Unix, b"/a.rs", false, true).unwrap();
    assert_eq!(start.workspace, b"/");
    assert_eq!(
        viewer_start(PathStyle::Unix, b"/", false, true).unwrap_err(),
        StartFault::NoParent
    );
    assert_eq!(
        viewer_start(PathStyle::Unix, b"/dev/null", false, false).unwrap_err(),
        StartFault::NeitherFileNorDirectory
    );
}

#[test]
fn what_cannot_be_shown_is_explained() {
    assert_eq!(
        StartFault::NoParent.message("/"),
        "opened file has no parent directory"
    );
    assert_eq!(
        StartFault::NeitherFileNorDirectory.message("/dev/null"),
        "/dev/null is neither a directory nor a regular file"
    );
    let instances = vec![instance(1, "/a"), instance(2, "/b")];
    assert_eq!(
        uncovered_error(&borrowed(&instances), "/c"),
        "no running instance covers /c\nrunning instances:\n  pid 1  /a\n  pid 2  /b\nre-run with --target <pid>, or run from a terminal to choose interactively"
    );
}

#[test]
fn warnings_are_put_together() {
    let words = |text: &str| Some(text.to_string());
    assert_eq!(merged_warning(words("a"), words("b")), words("a · b"));
    assert_eq!(merged_warning(words("a"), None), words("a"));
    assert_eq!(merged_warning(None, words("b")), words("b"));
    assert_eq!(merged_warning(None, None), None);
}

#[test]
fn answers_to_attaching_are_reported() {
    let opened = ResponseBody::Opened {
        opened: vec!["/a".to_string(), "/b".to_string()],
    };
    assert_eq!(
        attach_report(&opened, 7).unwrap(),
        "opened /a in instance 7\nopened /b in instance 7\n"
    );
    let error = ResponseBody::Error {
        message: "no".to_string(),
    };
    assert_eq!(attach_report(&error, 7).unwrap_err(), "instance 7: no");
    let info = ResponseBody::Info {
        info: instance(7, "/a").info,
    };
    assert_eq!(
        attach_report(&info, 7).unwrap_err(),
        "instance 7 returned an unexpected reply"
    );
}
