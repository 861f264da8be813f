//! Reports and diffs of the version control command.

use latte_lens::git::{
    git_path_from_output, parse_git_config_values, parse_porcelain_v2,
    render_change, untracked_changed, untracked_declined, untracked_diff, untracked_step,
    untracked_symlink_diff, untracked_too_large, ContentPathKind, DiffPlan, FileStatus, GitOutput,
    GitRepo, StatusMap, SubmoduleStatus, UntrackedStep,
};
use latte_lens::paths::PathStyle;

#[test]
fn parses_porcelain_v2_statuses_spaces_renames_and_submodules() {
    let input = b"1 .M N... 100644 100644 100644 aaaaaaa aaaaaaa src/main.rs\0\
        ? notes with spaces.md\0\
        2 R. N... 100644 100644 100644 aaaaaaa bbbbbbb R100 src/new name.rs\0\
        src/old name.rs\0\
        2 C. N... 100644 100644 100644 aaaaaaa bbbbbbb C100 src/copy.rs\0\
        src/source.rs\0\
        1 .M S.MU 160000 160000 160000 aaaaaaa bbbbbbb modules/child\0";
    let entries = parse_porcelain_v2(input);
    let statuses = StatusMap::from_entries(PathStyle::Unix, &entries);

    assert_eq!(entries.len(), 5);
    assert_eq!(
        statuses.get(b"src/main.rs").unwrap(),
        FileStatus {
            index: ' ',
            worktree: 'M'
        }
    );
    assert_eq!(
        statuses.get(b"notes with spaces.md").unwrap().label(),
        "??"
    );
    assert_eq!(statuses.get(b"src/new name.rs").unwrap().label(), "R");
    assert_eq!(
        entries[2].original_path.as_deref(),
        Some(&b"src/old name.rs"[..])
    );
    assert_eq!(
        entries[3].original_path.as_deref(),
        Some(&b"src/source.rs"[..])
    );
    assert_eq!(statuses.get(b"src/copy.rs").unwrap().label(), "C");
    assert_eq!(
        entries[4].submodule,
        SubmoduleStatus {
            is_submodule: true,
            commit_changed: false,
            modified_content: true,
            untracked_content: true,
        }
    );
}

#[test]
fn labels_staged_and_worktree_changes() {
    let status = FileStatus {
        index: 'M',
        worktree: 'D',
    };
    assert_eq!(status.label(), "MD");
    assert!(status.has_staged_change());
    assert!(status.has_worktree_change());
}

#[test]
fn parser_handles_short_records_without_panicking() {
    let input = b"x\0? invalid-\xff-name\0";
    let entries = parse_porcelain_v2(input);
    let statuses = StatusMap::from_entries(PathStyle::Unix, &entries);

    assert_eq!(statuses.len(), 1);
    assert_eq!(
        statuses.get(b"invalid-\xff-name"),
        Some(FileStatus {
            index: '?',
            worktree: '?'
        })
    );
}

#[test]
fn parser_preserves_non_utf8_path_bytes() {
    let input = b"? invalid-\xff-name\0";
    let entries = parse_porcelain_v2(input);

    assert_eq!(entries[0].path, b"invalid-\xff-name");
}

#[test]
fn root_parser_removes_only_one_protocol_line_ending() {
    assert_eq!(
        git_path_from_output(PathStyle::Unix, b"/tmp/ leading and trailing  \n"),
        Some(b"/tmp/ leading and trailing  ".to_vec())
    );
    assert_eq!(
        git_path_from_output(PathStyle::Unix, b"/tmp/root \r\n"),
        Some(b"/tmp/root \r".to_vec())
    );
    assert_eq!(
        git_path_from_output(PathStyle::Windows, b"/tmp/root \r\n"),
        Some(b"/tmp/root ".to_vec())
    );
    assert_eq!(
        git_path_from_output(PathStyle::Unix, b"/tmp/root\n\n"),
        Some(b"/tmp/root\n".to_vec())
    );
    assert_eq!(
        git_path_from_output(PathStyle::Unix, b"/tmp/root\r"),
        Some(b"/tmp/root\r".to_vec())
    );
    assert_eq!(git_path_from_output(PathStyle::Unix, b"\n"), None);
}

#[test]
fn root_parser_preserves_non_utf8_path_bytes() {
    let root = git_path_from_output(PathStyle::Unix, b"/tmp/root-\xff \n").unwrap();

    assert_eq!(root, b"/tmp/root-\xff ");
}

#[test]
fn parses_git_config_null_values() {
    let paths = parse_git_config_values(
        b"submodule.child.path\nmodules/child with spaces\0submodule.other.path\nother\0",
    );
    assert_eq!(
        paths,
        [b"modules/child with spaces".to_vec(), b"other".to_vec()]
    );
}

fn printed(stdout: &[u8]) -> GitOutput {
    GitOutput {
        success: true,
        code: Some(0),
        stdout: stdout.to_vec(),
        stderr: Vec::new(),
    }
}

fn refused(code: i32, stderr: &[u8]) -> GitOutput {
    GitOutput {
        success: false,
        code: Some(code),
        stdout: Vec::new(),
        stderr: stderr.to_vec(),
    }
}

fn repo() -> GitRepo {
    GitRepo::new(PathStyle::Unix, b"/work".to_vec(), b"/work/.git".to_vec())
}

fn words(arguments: &[Vec<u8>]) -> Vec<&str> {
    arguments
        .iter()
        .map(|argument| std::str::from_utf8(argument).unwrap())
        .collect()
}

#[test]
fn reports_are_read_back_byte_for_byte() {
    let paths: [&[u8]; 4] = [b"plain.rs", b" leading and trailing ", b"tab\tand\nline", b"\xff\xfe"];
    let mut report: Vec<u8> = Vec::new();
    for path in paths {
        report.extend_from_slice(b"u UU N... 100644 100644 100644 100644 a b c ");
        report.extend_from_slice(path);
        report.push(0);
        report.extend_from_slice(b"? ");
        report.extend_from_slice(path);
        report.push(0);
    }
    let entries = parse_porcelain_v2(&report);
    assert_eq!(entries.len(), 8);
    for (index, path) in paths.iter().enumerate() {
        assert_eq!(entries[2 * index].path, *path);
        assert_eq!(entries[2 * index].status.label(), "UU");
        assert_eq!(entries[2 * index + 1].path, *path);
        assert!(entries[2 * index + 1].status.is_untracked());
    }
}

#[test]
fn lines_end_as_the_platform_ends_them() {
    let output = printed(b"C:/work\r\n");
    assert_eq!(
        GitRepo::discover(PathStyle::Windows, &output).as_deref(),
        Some(&b"C:/work"[..])
    );
    assert_eq!(
        GitRepo::discover(PathStyle::Unix, &output).as_deref(),
        Some(&b"C:/work\r"[..])
    );
    assert_eq!(GitRepo::locate_git_dir(PathStyle::Windows, &output).unwrap(), b"C:/work");
    assert_eq!(
        GitRepo::locate_git_dir(PathStyle::Windows, &printed(b"\r\n")).unwrap_err().message,
        "Git returned an empty Git directory path"
    );
    assert_eq!(git_path_from_output(PathStyle::Windows, b"C:/work\n").unwrap(), b"C:/work");
}

#[test]
fn statuses_are_found_by_the_parts_of_paths() {
    let entries = parse_porcelain_v2(b"? nested/\0? a/b\0");
    let statuses = StatusMap::from_entries(PathStyle::Unix, &entries);
    assert_eq!(statuses.len(), 2);
    assert!(statuses.get(b"nested").unwrap().is_untracked());
    assert!(statuses.get(b"nested/").unwrap().is_untracked());
    assert!(statuses.get(b"a//b").unwrap().is_untracked());
    assert!(statuses.get(b"a\\b").is_none());
    assert!(statuses.get(b"/nested").is_none());
    let statuses = StatusMap::from_entries(PathStyle::Windows, &entries);
    assert!(statuses.get(b"a\\b").unwrap().is_untracked());

    let again = parse_porcelain_v2(
        b"? nested/\0\
        1 .M N... 100644 100644 100644 aaaaaaa aaaaaaa nested\0",
    );
    let statuses = StatusMap::from_entries(PathStyle::Unix, &again);
    assert_eq!(statuses.len(), 1);
    assert_eq!(statuses.get(b"nested").unwrap().worktree, 'M');
    assert_eq!(statuses.entries[0].0, b"nested/");
}

#[test]
fn repositories_are_found_by_what_is_printed() {
    assert_eq!(
        GitRepo::discover(PathStyle::Unix, &printed(b"/work\n")).as_deref(),
        Some(&b"/work"[..])
    );
    assert_eq!(GitRepo::discover(PathStyle::Unix, &refused(128, b"fatal")), None);
    assert_eq!(GitRepo::locate_git_dir(PathStyle::Unix, &printed(b"/work/.git\n")).unwrap(), b"/work/.git");
    assert_eq!(
        GitRepo::locate_git_dir(PathStyle::Unix, &printed(b"\n")).unwrap_err().message,
        "Git returned an empty Git directory path"
    );
    assert_eq!(
        GitRepo::locate_git_dir(PathStyle::Unix, &refused(128, b" fatal: no \n")).unwrap_err().message,
        "failed to resolve Git directory: fatal: no"
    );
    assert_eq!(repo().root(), b"/work");
    assert_eq!(repo().git_dir(), b"/work/.git");
}

#[test]
fn branches_are_named_or_detached() {
    let repo = repo();
    assert_eq!(repo.branch(&printed(b"main\n")).as_deref(), Some("main"));
    assert_eq!(repo.branch(&printed(b"\n")), None);
    assert_eq!(repo.branch(&refused(1, b"")), None);
    assert_eq!(repo.detached_branch(&printed(b"abc123\n")).unwrap(), "detached@abc123");
    assert_eq!(
        repo.detached_branch(&refused(128, b"bad\n")).unwrap_err().message,
        "failed to read current revision: bad"
    );
}

#[test]
fn the_last_status_of_a_path_counts() {
    let repo = repo();
    let report = printed(b"? a\x001 M. N... 100644 100644 100644 aa bb a\0? b\0");
    let statuses = repo.statuses(&report).unwrap();
    assert_eq!(statuses.len(), 2);
    assert_eq!(statuses.get(b"a").unwrap().label(), "M");
    assert_eq!(statuses.get(b"b").unwrap().label(), "??");
    assert_eq!(statuses.get(b"c"), None);
    assert_eq!(
        repo.status_entries(&refused(128, b"broken")).unwrap_err().message,
        "failed to read Git status: broken"
    );
}

#[test]
fn submodules_may_be_absent() {
    let repo = repo();
    assert_eq!(repo.submodule_paths(None).unwrap(), Vec::<Vec<u8>>::new());
    assert_eq!(repo.submodule_paths(Some(&refused(1, b""))).unwrap(), Vec::<Vec<u8>>::new());
    assert_eq!(
        repo.submodule_paths(Some(&printed(b"submodule.child.path\nmodules/child\0"))).unwrap(),
        vec![b"modules/child".to_vec()]
    );
    assert_eq!(
        repo.submodule_paths(Some(&refused(3, b"odd"))).unwrap_err().message,
        "failed to read .gitmodules: odd"
    );
}

#[test]
fn changes_are_asked_for_by_their_status() {
    let repo = repo();
    match repo.diff_for(b"a.rs", None) {
        DiffPlan::Lines(lines) => assert_eq!(
            lines,
            vec![
                "a.rs has no uncommitted changes.",
                "Select a changed file to inspect its diff."
            ]
        ),
        _ => panic!("expected lines"),
    }
    let untracked = FileStatus { index: '?', worktree: '?' };
    assert!(matches!(repo.diff_for(b"a.rs", Some(untracked)), DiffPlan::Untracked));

    let renamed = FileStatus { index: 'R', worktree: 'M' };
    match repo.diff_for_change(b"new.rs", Some(b"old.rs"), Some(renamed)) {
        DiffPlan::Commands { staged: Some(staged), worktree: Some(worktree) } => {
            assert_eq!(
                words(&staged),
                [
                    "diff",
                    "--no-ext-diff",
                    "--no-color",
                    "--unified=3",
                    "--find-renames",
                    "--find-copies-harder",
                    "--cached",
                    "--",
                    "old.rs",
                    "new.rs"
                ]
            );
            assert_eq!(
                words(&worktree),
                [
                    "diff",
                    "--no-ext-diff",
                    "--no-color",
                    "--unified=3",
                    "--find-renames",
                    "--find-copies-harder",
                    "--",
                    "old.rs",
                    "new.rs"
                ]
            );
        }
        _ => panic!("expected two commands"),
    }
    let changed = FileStatus { index: ' ', worktree: 'M' };
    match repo.diff_for(b"a.rs", Some(changed)) {
        DiffPlan::Commands { staged: None, worktree: Some(worktree) } => assert_eq!(
            words(&worktree),
            ["diff", "--no-ext-diff", "--no-color", "--unified=3", "--", "a.rs"]
        ),
        _ => panic!("expected one command"),
    }
}

#[test]
fn changes_are_shown_in_sections() {
    let status = FileStatus { index: 'M', worktree: 'M' };
    let staged = printed(b"-a\n+b\n");
    let worktree = printed(b"-b\n+c\n");
    assert_eq!(
        render_change(status, Some(&staged), Some(&worktree)).unwrap(),
        vec!["── STAGED ──", "-a", "+b", "", "── WORKTREE ──", "-b", "+c"]
    );
    assert_eq!(
        render_change(status, None, Some(&worktree)).unwrap(),
        vec!["── WORKTREE ──", "-b", "+c"]
    );
    assert_eq!(
        render_change(FileStatus { index: ' ', worktree: ' ' }, None, None).unwrap().len(),
        1
    );
    assert_eq!(
        render_change(status, Some(&refused(1, b"no")), Some(&worktree)).unwrap_err().message,
        "failed to read staged diff: no"
    );
    assert_eq!(
        render_change(status, Some(&staged), Some(&refused(1, b"no"))).unwrap_err().message,
        "failed to read working tree diff: no"
    );
}

#[test]
fn untracked_files_are_shown_as_new() {
    assert_eq!(
        untracked_diff(b"notes.md", b"one\ntwo\n"),
        vec![
            "── UNTRACKED ──",
            "diff --git a/notes.md b/notes.md",
            "new file mode 100644",
            "--- /dev/null",
            "+++ b/notes.md",
            "@@ -0,0 +1,2 @@",
            "+one",
            "+two"
        ]
    );
    assert_eq!(untracked_diff(b"a", b"x\0y"), vec!["Untracked binary file."]);
    assert_eq!(untracked_diff(b"a", b"\xff")[6], "+\u{fffd}");
    let long = "l\n".repeat(2_001);
    let lines = untracked_diff(b"a", long.as_bytes());
    assert_eq!(lines.len(), 6 + 2_000 + 1);
    assert_eq!(lines[5], "@@ -0,0 +1,2001 @@");
    assert_eq!(lines[2_006], "… preview truncated after 2000 lines");
    let large = vec![b'a'; 512 * 1024 + 1];
    assert_eq!(
        untracked_diff(b"a", &large),
        vec!["Untracked file is too large to preview (over 524288 bytes)."]
    );
    assert_eq!(
        untracked_too_large(524_289).unwrap(),
        vec!["Untracked file is too large to preview (524289 bytes)."]
    );
    assert_eq!(untracked_too_large(524_288), None);
}

#[test]
fn untracked_links_are_not_followed() {
    assert_eq!(
        untracked_step(ContentPathKind::SymbolicLink, true),
        UntrackedStep::ReadLink
    );
    assert_eq!(
        untracked_step(ContentPathKind::SymbolicLink, false),
        UntrackedStep::Decline
    );
    assert_eq!(untracked_step(ContentPathKind::Regular, true), UntrackedStep::Open);
    assert_eq!(untracked_step(ContentPathKind::Special, true), UntrackedStep::Decline);
    assert_eq!(
        untracked_declined("symbolic link"),
        vec!["Untracked symbolic link is not read for safety."]
    );
    assert_eq!(
        untracked_changed("directory"),
        vec!["Untracked path changed to a directory; no content was read."]
    );
    let lines = untracked_symlink_diff(b"link", Some(("target", false)));
    assert_eq!(lines[2], "new file mode 120000");
    assert_eq!(lines[6], "+target");
    assert_eq!(
        untracked_symlink_diff(b"link", Some(("target", true))),
        vec!["Untracked symbolic link target is too large to preview safely (over 524288 bytes)."]
    );
    assert_eq!(
        untracked_symlink_diff(b"link", None),
        vec!["Untracked symbolic link changed while it was inspected; no content was read."]
    );
}
