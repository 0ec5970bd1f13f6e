use shellcp::cancel::CancelToken;
use shellcp::copier::FileCopier;
use shellcp::executor::{copy_file_bytes, Effect, WorkRunner};
use shellcp::flags::{CommandFlags, Context};
use shellcp::fsmodel::{FileKind, FsEntry, FsSnapshot};
use shellcp::path::{display_path, parse_path, path_eq};
use shellcp::plan::Action;
use shellcp::prompt::{process_answer, shown_workdir, Answer, PromptBuilder};
use shellcp::resolve::dereference_path;

fn entry(path: &str, kind: FileKind, canon: &str) -> FsEntry {
    FsEntry {
        path: parse_path(path),
        kind,
        canon: parse_path(canon),
    }
}

fn snapshot(entries: Vec<FsEntry>) -> FsSnapshot {
    let mut fs = FsSnapshot::new();
    for e in entries {
        fs.add_entry(e);
    }
    fs
}

fn cwd() -> shellcp::path::FsPath {
    parse_path("/cwd")
}

#[test]
fn test_new_file_copier() {
    let paths = vec!["src1".to_string(), "src2".to_string(), "dest".to_string()];
    let flags = CommandFlags::new();
    let args = vec![
        "cp".to_string(),
        "src1".to_string(),
        "src2".to_string(),
        "dest".to_string(),
    ];
    let copier = FileCopier::new(&paths, &flags, &args);
    assert!(path_eq(&copier.dest, &parse_path("dest")));
    assert_eq!(copier.srcs, vec!["src1".to_string(), "src2".to_string()]);
    assert_eq!(copier.args, args);
}

#[test]
fn test_add_copy() {
    let fs = snapshot(vec![
        entry("/tmp", FileKind::Directory, "/tmp"),
        entry(
            "/tmp/source.txt",
            FileKind::Regular { size: 13 },
            "/tmp/source.txt",
        ),
    ]);
    let paths = vec!["/tmp/source.txt".to_string(), "dest".to_string()];
    let flags = CommandFlags::new();
    let args = vec![
        "cp".to_string(),
        "/tmp/source.txt".to_string(),
        "dest".to_string(),
    ];
    let mut copier = FileCopier::new(&paths, &flags, &args);
    let mut ctx = Context::new();
    let r = copier.add_copy(
        &fs,
        &mut ctx,
        "/tmp/source.txt",
        &parse_path("/tmp"),
        &parse_path("/tmp/source.txt"),
    );
    assert!(r.is_ok());
    assert_eq!(copier.work.len(), 1);
    assert!(matches!(copier.work.entries[0].item.act, Action::Copy));
}

#[test]
fn test_add_create_dir() {
    let fs = snapshot(vec![
        entry("/tmp", FileKind::Directory, "/tmp"),
        entry("/tmp/source_dir", FileKind::Directory, "/tmp/source_dir"),
    ]);
    let paths = vec!["/tmp/source_dir".to_string(), "dest".to_string()];
    let flags = CommandFlags::new();
    let args = vec![
        "cp".to_string(),
        "/tmp/source_dir".to_string(),
        "dest".to_string(),
    ];
    let mut copier = FileCopier::new(&paths, &flags, &args);
    copier.visited.push(parse_path("/tmp/source_dir"));
    copier.add_create_dir(
        &fs,
        "/tmp/source_dir",
        &parse_path("/tmp"),
        &parse_path("/tmp/source_dir"),
    );
    assert_eq!(copier.work.len(), 1);
    assert!(matches!(copier.work.entries[0].item.act, Action::CreateDir));
}

#[test]
fn test_collect_path_info() {
    let fs = snapshot(vec![
        entry("/tmp", FileKind::Directory, "/tmp"),
        entry(
            "/tmp/source.txt",
            FileKind::Regular { size: 13 },
            "/tmp/source.txt",
        ),
    ]);
    let paths = vec!["/tmp/source.txt".to_string(), "dest".to_string()];
    let flags = CommandFlags::new();
    let args = vec![
        "cp".to_string(),
        "/tmp/source.txt".to_string(),
        "dest".to_string(),
    ];
    let mut copier = FileCopier::new(&paths, &flags, &args);
    let mut ctx = Context::new();
    let mut token = CancelToken::new(None);
    let result = copier.collect_path_info(
        &fs,
        &mut ctx,
        &mut token,
        &cwd(),
        "/tmp/source.txt",
        &parse_path("/tmp"),
        &parse_path("/tmp/source.txt"),
    );
    assert!(matches!(result, Ok(true)));
    assert_eq!(copier.work.len(), 1);
    assert_eq!(copier.total_size, 13);
}

#[test]
fn test_error_handling() {
    let fs = snapshot(vec![]);
    let paths = vec!["/tmp/nonexistent".to_string(), "/tmp/dest".to_string()];
    let flags = CommandFlags::new();
    let args = vec![
        "cp".to_string(),
        "/tmp/nonexistent".to_string(),
        "/tmp/dest".to_string(),
    ];
    let mut copier = FileCopier::new(&paths, &flags, &args);
    let mut ctx = Context::new();
    let mut token = CancelToken::new(None);
    let result = copier.collect_src_info(&fs, &mut ctx, &mut token, &cwd());
    assert!(result.is_err());
}

#[test]
fn mirror_tree_plan() {
    // A small source tree copied into an existing destination
    // directory: the plan holds exactly one item per entry, at its
    // mirrored destination.
    let fs = snapshot(vec![
        entry("/src", FileKind::Directory, "/c/src"),
        entry("/src/a", FileKind::Regular { size: 3 }, "/c/a"),
        entry("/src/sub", FileKind::Directory, "/c/sub"),
        entry("/src/sub/b", FileKind::Regular { size: 5 }, "/c/b"),
        entry("/dst", FileKind::Directory, "/c/dst"),
    ]);
    let paths = vec!["/src".to_string(), "/dst".to_string()];
    let mut flags = CommandFlags::new();
    flags.add_flag('r', "recursive", "Copy directories recursively");
    let mut ctx0 = Context::new();
    flags
        .parse(&mut ctx0, &vec!["-r".to_string()])
        .unwrap();
    let args = vec!["cp".to_string(), "/src".to_string(), "/dst".to_string()];
    let mut copier = FileCopier::new(&paths, &flags, &args);
    let mut ctx = Context::new();
    let mut token = CancelToken::new(None);
    let r = copier.collect_src_info(&fs, &mut ctx, &mut token, &cwd());
    assert!(matches!(r, Ok(true)));
    assert_eq!(copier.work.len(), 4);
    let dests: Vec<String> = copier
        .work
        .entries
        .iter()
        .map(|e| display_path(&e.dest))
        .collect();
    assert_eq!(dests, vec!["/dst/src", "/dst/src/a", "/dst/src/sub", "/dst/src/sub/b"]);
    assert_eq!(copier.total_size, 8);
}

#[test]
fn cycle_guard_no_duplicate_dirs() {
    // Two sources that are the same directory under two names (same
    // canonical identity): the subtree is walked once, and only one
    // directory creation is planned per identity.
    let fs = snapshot(vec![
        entry("/d1", FileKind::Directory, "/c/same"),
        entry("/d2", FileKind::Directory, "/c/same"),
        entry("/dst", FileKind::Directory, "/c/dst"),
    ]);
    let paths = vec!["/d1".to_string(), "/d2".to_string(), "/dst".to_string()];
    let mut flags = CommandFlags::new();
    flags.add_flag('r', "recursive", "Copy directories recursively");
    let mut ctx0 = Context::new();
    flags.parse(&mut ctx0, &vec!["-r".to_string()]).unwrap();
    let args = vec!["cp".to_string(), "/d1".to_string(), "/d2".to_string(), "/dst".to_string()];
    let mut copier = FileCopier::new(&paths, &flags, &args);
    let mut ctx = Context::new();
    let mut token = CancelToken::new(None);
    let r = copier.collect_src_info(&fs, &mut ctx, &mut token, &cwd());
    assert!(matches!(r, Ok(true)));
    let dirs: Vec<&shellcp::plan::PlanEntry> = copier
        .work
        .entries
        .iter()
        .filter(|e| matches!(e.item.act, Action::CreateDir))
        .collect();
    assert_eq!(dirs.len(), 1);
}

#[test]
fn link_back_to_ancestor_terminates() {
    // A directory holding a symbolic link back to its ancestor is
    // planned without looping: the link becomes a link item.
    let fs = snapshot(vec![
        entry("/s", FileKind::Directory, "/c/s"),
        entry(
            "/s/back",
            FileKind::Symlink { target: parse_path("/s") },
            "/c/s",
        ),
        entry("/dst", FileKind::Directory, "/c/dst"),
    ]);
    let paths = vec!["/s".to_string(), "/dst".to_string()];
    let mut flags = CommandFlags::new();
    flags.add_flag('r', "recursive", "Copy directories recursively");
    let mut ctx0 = Context::new();
    flags.parse(&mut ctx0, &vec!["-r".to_string()]).unwrap();
    let args = vec!["cp".to_string(), "/s".to_string(), "/dst".to_string()];
    let mut copier = FileCopier::new(&paths, &flags, &args);
    let mut ctx = Context::new();
    let mut token = CancelToken::new(None);
    let r = copier.collect_src_info(&fs, &mut ctx, &mut token, &cwd());
    assert!(matches!(r, Ok(true)));
    assert_eq!(copier.work.len(), 2);
    assert!(copier
        .work
        .entries
        .iter()
        .any(|e| matches!(e.item.act, Action::Link)));
}

#[test]
fn link_target_rerooted() {
    // A link inside the tree is recreated pointing at the target's
    // place under the destination, not at the raw target.
    let fs = snapshot(vec![
        entry("/s", FileKind::Directory, "/c/s"),
        entry("/s/t", FileKind::Regular { size: 1 }, "/c/t"),
        entry(
            "/s/l",
            FileKind::Symlink { target: parse_path("/s/t") },
            "/c/t",
        ),
        entry("/dst", FileKind::Directory, "/c/dst"),
    ]);
    let paths = vec!["/s".to_string(), "/dst".to_string()];
    let mut flags = CommandFlags::new();
    flags.add_flag('r', "recursive", "Copy directories recursively");
    let mut ctx0 = Context::new();
    flags.parse(&mut ctx0, &vec!["-r".to_string()]).unwrap();
    let args = vec!["cp".to_string(), "/s".to_string(), "/dst".to_string()];
    let mut copier = FileCopier::new(&paths, &flags, &args);
    let mut ctx = Context::new();
    let mut token = CancelToken::new(None);
    let r = copier.collect_src_info(&fs, &mut ctx, &mut token, &cwd());
    assert!(matches!(r, Ok(true)));
    let link = copier
        .work
        .entries
        .iter()
        .find(|e| matches!(e.item.act, Action::Link))
        .expect("a link item");
    assert_eq!(display_path(&link.dest), "/dst/s/l");
    assert_eq!(display_path(&link.item.src), "/dst/s/t");
}

#[test]
fn multi_source_onto_file_fails() {
    // Sources [x, y] with a destination that is a regular file:
    // planning fails and plans no second write.
    let fs = snapshot(vec![
        entry("/x", FileKind::Regular { size: 1 }, "/c/x"),
        entry("/y", FileKind::Regular { size: 1 }, "/c/y"),
        entry("/z", FileKind::Regular { size: 1 }, "/c/z"),
    ]);
    let paths = vec!["/x".to_string(), "/y".to_string(), "/z".to_string()];
    let flags = CommandFlags::new();
    let args = vec!["cp".to_string(), "/x".to_string(), "/y".to_string(), "/z".to_string()];
    let mut copier = FileCopier::new(&paths, &flags, &args);
    let mut ctx = Context::new();
    let mut token = CancelToken::new(None);
    let r = copier.collect_src_info(&fs, &mut ctx, &mut token, &cwd());
    assert!(r.is_err());
    assert!(r.unwrap_err().contains("multiple sources"));
}

#[test]
fn same_underlying_file_rejected() {
    // The destination resolves to the same canonical identity as the
    // source: rejected during planning, before any write.
    let fs = snapshot(vec![
        entry("/a", FileKind::Regular { size: 4 }, "/c/file"),
        entry("/b", FileKind::Regular { size: 4 }, "/c/file"),
    ]);
    let paths = vec!["/a".to_string(), "/b".to_string()];
    let flags = CommandFlags::new();
    let args = vec!["cp".to_string(), "/a".to_string(), "/b".to_string()];
    let mut copier = FileCopier::new(&paths, &flags, &args);
    let mut ctx = Context::new();
    let mut token = CancelToken::new(None);
    let r = copier.collect_src_info(&fs, &mut ctx, &mut token, &cwd());
    assert!(r.is_err());
    assert!(r.unwrap_err().contains("same"));
}

#[test]
fn declined_overwrite_leaves_rest_running() {
    // Declining one overwrite skips only that destination; the other
    // item is still executed.
    let fs = snapshot(vec![
        entry("/s1", FileKind::Regular { size: 10 }, "/c/s1"),
        entry("/s2", FileKind::Regular { size: 20 }, "/c/s2"),
        entry("/d", FileKind::Directory, "/c/d"),
        entry("/d/s1", FileKind::Regular { size: 1 }, "/c/old"),
    ]);
    let paths = vec!["/s1".to_string(), "/s2".to_string(), "/d".to_string()];
    let flags = CommandFlags::new();
    let args = vec!["cp".to_string(), "/s1".to_string(), "/s2".to_string(), "/d".to_string()];
    let mut copier = FileCopier::new(&paths, &flags, &args);
    let mut ctx = Context::new();
    let mut token = CancelToken::new(None);
    let r = copier.collect_src_info(&fs, &mut ctx, &mut token, &cwd());
    assert!(matches!(r, Ok(true)));
    let mut runner = WorkRunner::new(true, true, vec![Answer::No]);
    let outcome = runner
        .do_work(&fs, &mut token, &copier.work)
        .unwrap();
    assert!(!outcome.aborted);
    let mut skipped = 0;
    let mut copied = 0;
    for e in &outcome.effects {
        match e {
            Effect::SkippedExisting { dest } => {
                assert_eq!(display_path(dest), "/d/s1");
                skipped += 1;
            }
            Effect::CopiedFile { dest, bytes, completed, .. } => {
                assert_eq!(display_path(dest), "/d/s2");
                assert_eq!(*bytes, 20);
                assert!(*completed);
                copied += 1;
            }
            _ => panic!("unexpected effect"),
        }
    }
    assert_eq!(skipped, 1);
    assert_eq!(copied, 1);
}

#[test]
fn cancellation_stops_within_one_chunk() {
    // The token fires at the second poll: exactly one chunk is
    // written, and the run reports aborted rather than an error.
    let mut token = CancelToken::new(Some(1));
    let (bytes, completed) = copy_file_bytes(50000, &mut token);
    assert_eq!(bytes, 8192);
    assert!(!completed);

    let fs = snapshot(vec![
        entry("/big", FileKind::Regular { size: 50000 }, "/c/big"),
    ]);
    let paths = vec!["/big".to_string(), "/copy".to_string()];
    let flags = CommandFlags::new();
    let args = vec!["cp".to_string(), "/big".to_string(), "/copy".to_string()];
    let mut copier = FileCopier::new(&paths, &flags, &args);
    let mut ctx = Context::new();
    let mut plan_token = CancelToken::new(None);
    let r = copier.collect_src_info(&fs, &mut ctx, &mut plan_token, &cwd());
    assert!(matches!(r, Ok(true)));
    let mut exec_token = CancelToken::new(Some(1));
    let mut runner = WorkRunner::new(false, true, vec![]);
    let outcome = runner.do_work(&fs, &mut exec_token, &copier.work).unwrap();
    assert!(outcome.aborted);
}

#[test]
fn fifo_recreated_not_copied() {
    let fs = snapshot(vec![
        entry("/pipe", FileKind::Fifo, "/c/pipe"),
    ]);
    let paths = vec!["/pipe".to_string(), "/pipecopy".to_string()];
    let flags = CommandFlags::new();
    let args = vec!["cp".to_string(), "/pipe".to_string(), "/pipecopy".to_string()];
    let mut copier = FileCopier::new(&paths, &flags, &args);
    let mut ctx = Context::new();
    let mut token = CancelToken::new(None);
    let r = copier.collect_src_info(&fs, &mut ctx, &mut token, &cwd());
    assert!(matches!(r, Ok(true)));
    let mut runner = WorkRunner::new(false, true, vec![]);
    let outcome = runner.do_work(&fs, &mut token, &copier.work).unwrap();
    assert_eq!(outcome.effects.len(), 1);
    assert!(matches!(outcome.effects[0], Effect::CreatedFifo { .. }));
}

#[test]
fn single_file_copy_is_idempotent() {
    // Copying one file to a fresh name plans one copy; re-running the
    // same copy with confirmation off produces the same transfer.
    let fs = snapshot(vec![
        entry("/a", FileKind::Regular { size: 7 }, "/c/a"),
    ]);
    let paths = vec!["/a".to_string(), "/b".to_string()];
    let flags = CommandFlags::new();
    let args = vec!["cp".to_string(), "/a".to_string(), "/b".to_string()];
    let mut first_bytes = 0;
    for _round in 0..2 {
        let mut copier = FileCopier::new(&paths, &flags, &args);
        let mut ctx = Context::new();
        let mut token = CancelToken::new(None);
        let r = copier.collect_src_info(&fs, &mut ctx, &mut token, &cwd());
        assert!(matches!(r, Ok(true)));
        assert_eq!(copier.work.len(), 1);
        let mut runner = WorkRunner::new(false, true, vec![]);
        let outcome = runner.do_work(&fs, &mut token, &copier.work).unwrap();
        assert!(!outcome.aborted);
        assert_eq!(outcome.effects.len(), 1);
        match &outcome.effects[0] {
            Effect::CopiedFile { dest, bytes, completed, .. } => {
                assert_eq!(display_path(dest), "/b");
                assert!(*completed);
                if first_bytes == 0 {
                    first_bytes = *bytes;
                }
                assert_eq!(*bytes, first_bytes);
                assert_eq!(*bytes, 7);
            }
            _ => panic!("expected a file copy"),
        }
    }
}

#[test]
fn resolver_follows_links() {
    let fs = snapshot(vec![
        entry("/real", FileKind::Directory, "/c/real"),
        entry(
            "/alias",
            FileKind::Symlink { target: parse_path("/real") },
            "/c/real",
        ),
        entry("/real/f", FileKind::Regular { size: 2 }, "/c/f"),
    ]);
    let r = dereference_path(&parse_path("/alias/f"), &fs, &cwd()).unwrap();
    assert_eq!(display_path(&r), "/real/f");
}

#[test]
fn resolver_normalizes_dots() {
    let fs = snapshot(vec![]);
    let r = dereference_path(&parse_path("/a/./b/../c"), &fs, &cwd()).unwrap();
    assert_eq!(display_path(&r), "/a/c");
    let rel = dereference_path(&parse_path("x/y"), &fs, &cwd()).unwrap();
    assert_eq!(display_path(&rel), "/cwd/x/y");
}

#[test]
fn process_answer_cases() {
    assert!(matches!(process_answer("y", true), Answer::Yes));
    assert!(matches!(process_answer("  Yes", true), Answer::Yes));
    assert!(matches!(process_answer("n", true), Answer::No));
    assert!(matches!(process_answer("a", true), Answer::All));
    assert!(matches!(process_answer("q", true), Answer::Quit));
    assert!(matches!(process_answer("a", false), Answer::No));
    assert!(matches!(process_answer("q", false), Answer::No));
    assert!(matches!(process_answer("", true), Answer::No));
    assert!(matches!(process_answer("zzz", true), Answer::No));
    assert!(matches!(process_answer("\u{000B}y", true), Answer::Yes));
    assert!(matches!(process_answer("\u{00A0}q", true), Answer::Quit));
}

#[test]
fn prompt_build_substitutes() {
    let mut builder = PromptBuilder::with_scope(
        "user".to_string(),
        "host".to_string(),
        "~/proj".to_string(),
        false,
    );
    assert_eq!(builder.build("\\u@\\h:\\w\\$ "), "user@host:~/proj$ ");
    assert_eq!(builder.build("\\w>"), "~/proj>");
    assert_eq!(builder.build("(\\w)"), "(~/proj)");
    let mut rooted = PromptBuilder::with_scope(
        "root".to_string(),
        "host".to_string(),
        "/root".to_string(),
        false,
    );
    assert_eq!(rooted.build("\\$"), "#");
}

#[test]
fn workdir_home_prefix_shown_as_tilde() {
    assert_eq!(shown_workdir("/home/u", "/home/u/proj"), "~/proj");
    assert_eq!(shown_workdir("/home/u", "/srv/data"), "/srv/data");
    assert_eq!(shown_workdir("/home/u", "/home/u"), "~");
}

#[test]
fn alias_help_is_lowercased() {
    let mut flags = CommandFlags::new();
    flags.add_flag_enabled('m', "messages", "Show Messages");
    flags.add_alias(Some('s'), "silent", "no-messages");
    let help = flags.help();
    assert!(help.contains("Do not show messages"));
}
