use dotin_import::dirs::{plan_intermediate_dirs, ParentSlot};
use dotin_import::path::FsPath;
use dotin_import::plan::{
    check_collisions, check_same_filesystem, classify, plan_moves, Disposition, ImportError,
    ResolvedFile,
};

fn p(path: &str) -> FsPath {
    let comps: Vec<String> = path.split('/').map(|c| c.to_string()).collect();
    FsPath::from_components(comps)
}

fn assert_path_is(actual: &FsPath, expected: &str) {
    assert!(
        actual.same_as(&p(expected)),
        "path mismatch: expected {expected}"
    );
}

fn home_file(rel: &str) -> ResolvedFile {
    ResolvedFile {
        original: rel.to_string(),
        canonical: p("home/user").join(&p(rel)),
        is_symlink: false,
    }
}

#[test]
fn test_classify_inside_dotfiles() {
    let file = ResolvedFile {
        original: "dotfiles/group_name/rc".to_string(),
        canonical: p("home/user/dotfiles/group_name/rc"),
        is_symlink: false,
    };
    let d = classify(
        &file,
        &p("home/user"),
        &p("home/user/dotfiles"),
        &p("home/user/dotfiles/group_name"),
    );
    match d {
        Disposition::SkippedInsideDotfiles { symlink_target } => {
            assert!(symlink_target.is_none());
        }
        _ => panic!("expected a skip"),
    }
}

#[test]
fn test_classify_symlink_into_dotfiles_reports_target() {
    let file = ResolvedFile {
        original: "rc_link".to_string(),
        canonical: p("home/user/dotfiles/group_name/rc"),
        is_symlink: true,
    };
    let d = classify(
        &file,
        &p("home/user"),
        &p("home/user/dotfiles"),
        &p("home/user/dotfiles/group_name"),
    );
    match d {
        Disposition::SkippedInsideDotfiles { symlink_target } => {
            assert_path_is(&symlink_target.expect("target expected"), "group_name/rc");
        }
        _ => panic!("expected a skip"),
    }
}

#[test]
fn test_classify_symlink_in_home_warns() {
    let file = ResolvedFile {
        original: "link".to_string(),
        canonical: p("home/user/link"),
        is_symlink: true,
    };
    let d = classify(
        &file,
        &p("home/user"),
        &p("home/user/dotfiles"),
        &p("home/user/dotfiles/group_name"),
    );
    match d {
        Disposition::Planned {
            dest,
            symlink_warning,
        } => {
            assert!(symlink_warning);
            assert_path_is(&dest, "home/user/dotfiles/group_name/link");
        }
        _ => panic!("expected a planned move"),
    }
}

#[test]
fn test_classify_outside_home() {
    let file = ResolvedFile {
        original: "/etc/passwd".to_string(),
        canonical: p("etc/passwd"),
        is_symlink: false,
    };
    let d = classify(
        &file,
        &p("home/user"),
        &p("home/user/dotfiles"),
        &p("home/user/dotfiles/group_name"),
    );
    assert!(matches!(d, Disposition::RejectedOutsideHome));
}

#[test]
fn test_skip_does_not_affect_other_files() {
    let files = vec![
        ResolvedFile {
            original: "dotfiles/group_name/rc".to_string(),
            canonical: p("home/user/dotfiles/group_name/rc"),
            is_symlink: false,
        },
        home_file("conf"),
    ];
    let plan = plan_moves(&files, &p("home/user"), &p("home/user/dotfiles/group_name"))
        .ok()
        .expect("batch should be accepted");
    assert_eq!(plan.moves.len(), 1);
    assert_eq!(plan.moves[0].source, "conf");
    assert_path_is(&plan.moves[0].dest, "home/user/dotfiles/group_name/conf");
    assert!(matches!(
        plan.reports[0],
        Disposition::SkippedInsideDotfiles { .. }
    ));
}

#[test]
fn test_outside_home_refuses_whole_batch() {
    let files = vec![
        home_file("conf"),
        ResolvedFile {
            original: "/etc/passwd".to_string(),
            canonical: p("etc/passwd"),
            is_symlink: false,
        },
    ];
    let err = plan_moves(&files, &p("home/user"), &p("home/user/dotfiles/group_name"))
        .err()
        .expect("batch should be refused");
    match err {
        ImportError::OutsideHome { path, home_dir } => {
            assert_eq!(path, "/etc/passwd");
            assert_path_is(&home_dir, "home/user");
        }
        _ => panic!("expected the out-of-home error"),
    }
}

#[test]
fn test_collision_refuses_before_any_move() {
    let files = vec![home_file("a"), home_file("b")];
    let plan = plan_moves(&files, &p("home/user"), &p("home/user/dotfiles/group_name"))
        .ok()
        .expect("batch should be accepted");
    let err = check_collisions(&plan.moves, &vec![false, true])
        .err()
        .expect("collision should be refused");
    match err {
        ImportError::DestinationExists { dest } => {
            assert_path_is(&dest, "home/user/dotfiles/group_name/b");
        }
        _ => panic!("expected the collision error"),
    }
    assert!(check_collisions(&plan.moves, &vec![false, false]).is_ok());
}

#[test]
fn test_obstructed_parent_slot() {
    let files = vec![home_file("d/a")];
    let plan = plan_moves(&files, &p("home/user"), &p("home/user/dotfiles/group_name"))
        .ok()
        .expect("batch should be accepted");
    let err = plan_intermediate_dirs(
        &plan.moves,
        &vec![ParentSlot::Occupied],
        &p("home/user/dotfiles/group_name"),
    )
    .err()
    .expect("obstruction should be refused");
    match err {
        ImportError::ObstructedDirectorySlot { parent } => {
            assert_path_is(&parent, "home/user/dotfiles/group_name/d");
        }
        _ => panic!("expected the obstruction error"),
    }
}

#[test]
fn test_cross_filesystem_refused() {
    let files = vec![home_file("a"), home_file("d/b")];
    let plan = plan_moves(&files, &p("home/user"), &p("home/user/dotfiles/group_name"))
        .ok()
        .expect("batch should be accepted");
    let err = check_same_filesystem(&plan.moves, &vec![true, false])
        .err()
        .expect("cross-filesystem move should be refused");
    match err {
        ImportError::CrossFilesystem {
            source,
            dest_parent,
        } => {
            assert_eq!(source, "d/b");
            assert_path_is(&dest_parent, "home/user/dotfiles/group_name/d");
        }
        _ => panic!("expected the cross-filesystem error"),
    }
    assert!(check_same_filesystem(&plan.moves, &vec![true, true]).is_ok());
}

#[test]
fn test_existing_parents_need_no_creation() {
    let files = vec![home_file("a"), home_file("d/b")];
    let plan = plan_moves(&files, &p("home/user"), &p("home/user/dotfiles/group_name"))
        .ok()
        .expect("batch should be accepted");
    let dirs = plan_intermediate_dirs(
        &plan.moves,
        &vec![ParentSlot::Directory, ParentSlot::Directory],
        &p("home/user/dotfiles/group_name"),
    )
    .ok()
    .expect("existing directories are fine");
    assert_eq!(dirs.len(), 0);
}

#[test]
fn test_all_skipped_plans_nothing() {
    let files = vec![
        ResolvedFile {
            original: "dotfiles/group_name/rc".to_string(),
            canonical: p("home/user/dotfiles/group_name/rc"),
            is_symlink: false,
        },
        ResolvedFile {
            original: "dotfiles/other_group/conf".to_string(),
            canonical: p("home/user/dotfiles/other_group/conf"),
            is_symlink: false,
        },
    ];
    let plan = plan_moves(&files, &p("home/user"), &p("home/user/dotfiles/group_name"))
        .ok()
        .expect("a batch of skips is accepted");
    assert_eq!(plan.moves.len(), 0);
    assert_eq!(plan.reports.len(), 2);
    assert!(check_collisions(&plan.moves, &vec![]).is_ok());
    let dirs = plan_intermediate_dirs(&plan.moves, &vec![], &p("home/user/dotfiles/group_name"))
        .ok()
        .expect("nothing to discover");
    assert_eq!(dirs.len(), 0);
    assert!(check_same_filesystem(&plan.moves, &vec![]).is_ok());
}

#[test]
fn test_moves_keep_input_order() {
    let files = vec![home_file("z"), home_file("a"), home_file("m")];
    let plan = plan_moves(&files, &p("home/user"), &p("home/user/dotfiles/group_name"))
        .ok()
        .expect("batch should be accepted");
    let sources: Vec<&str> = plan.moves.iter().map(|m| m.source.as_str()).collect();
    assert_eq!(sources, vec!["z", "a", "m"]);
}

#[test]
fn test_import() {
    // The canonical scenario: five files imported into `group_name`, with one
    // destination directory already present and the others to be created.
    let home = p("home/user");
    let group = p("home/user/dotfiles/group_name");
    let files = vec![
        home_file("dir_to_move"),
        home_file("existing_intermediate_dir/missing_file"),
        home_file("missing_intermediate_dir/file"),
        home_file("missing_intermediate_dir/intermediate_dir/another_dir_to_move"),
        home_file("missing_intermediate_dir/intermediate_dir/inner_file"),
    ];
    let plan = plan_moves(&files, &home, &group)
        .ok()
        .expect("batch should be accepted");
    assert_eq!(plan.moves.len(), 5);
    let expected_dests = [
        "home/user/dotfiles/group_name/dir_to_move",
        "home/user/dotfiles/group_name/existing_intermediate_dir/missing_file",
        "home/user/dotfiles/group_name/missing_intermediate_dir/file",
        "home/user/dotfiles/group_name/missing_intermediate_dir/intermediate_dir/another_dir_to_move",
        "home/user/dotfiles/group_name/missing_intermediate_dir/intermediate_dir/inner_file",
    ];
    for (m, expected) in plan.moves.iter().zip(expected_dests.iter()) {
        assert_path_is(&m.dest, expected);
    }

    // No destination exists yet, so there is no collision.
    assert!(check_collisions(&plan.moves, &vec![false; 5]).is_ok());

    // Parents: the group directory and `existing_intermediate_dir` exist, the
    // two paths under `missing_intermediate_dir` do not.
    let slots = vec![
        ParentSlot::Directory,
        ParentSlot::Directory,
        ParentSlot::Missing,
        ParentSlot::Missing,
        ParentSlot::Missing,
    ];
    let dirs = plan_intermediate_dirs(&plan.moves, &slots, &group)
        .ok()
        .expect("discovery should succeed");
    // `missing_intermediate_dir/intermediate_dir` is a descendant of
    // `missing_intermediate_dir`, and one parent repeats: one entry remains.
    assert_eq!(dirs.len(), 1);
    assert_path_is(
        &dirs[0],
        "home/user/dotfiles/group_name/missing_intermediate_dir",
    );

    // Everything lives on one filesystem: the moves may run, in order.
    assert!(check_same_filesystem(&plan.moves, &vec![true; 5]).is_ok());
}
