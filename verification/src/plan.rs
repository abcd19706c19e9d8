//! Per-file classification and whole-batch planning.
//!
//! A batch of resolved candidate files is classified in input order: files
//! already inside the dotfiles root are skipped, files inside the home
//! directory become planned moves, and a file outside both refuses the whole
//! batch before anything is executed.

use vstd::prelude::*;

verus! {

use crate::path::{FsPath, is_prefix_of};

/// One candidate file, as the caller resolved it against the filesystem.
pub struct ResolvedFile {
    /// The path exactly as the caller named it.
    pub original: String,
    /// The canonical path: absolute, with every symlink followed.
    pub canonical: FsPath,
    /// Whether the entry itself is a symlink (its own type, not followed).
    pub is_symlink: bool,
}

/// One validated move, queued for execution.
pub struct PlannedMove {
    /// The source, exactly as the caller named it.
    pub source: String,
    /// The group directory joined with the source's path relative to home.
    pub dest: FsPath,
}

/// What the planner decided about a single candidate file.
pub enum Disposition {
    /// The canonical path already lies inside the dotfiles root: the file is
    /// left untouched.  When the entry itself is a symlink, its resolved
    /// location relative to the dotfiles root is reported with the skip.
    SkippedInsideDotfiles { symlink_target: Option<FsPath> },
    /// The file lies inside home and will be moved to `dest`; a symlink is
    /// imported as it stands, with a warning.
    Planned { dest: FsPath, symlink_warning: bool },
    /// The file lies outside both the home directory and the dotfiles root:
    /// the whole batch is refused.
    RejectedOutsideHome,
}

/// Why an import batch was refused.  Every variant is terminal for the whole
/// batch; resolution failures are the caller's to report, since resolution
/// happens against the filesystem before planning begins.
pub enum ImportError {
    /// A file lies outside the home directory (and outside the dotfiles root).
    OutsideHome { path: String, home_dir: FsPath },
    /// A planned destination already exists; nothing is ever overwritten.
    DestinationExists { dest: FsPath },
    /// A non-directory occupies a path that is needed as a directory.
    ObstructedDirectorySlot { parent: FsPath },
    /// A source and its destination directory live on different filesystems.
    CrossFilesystem { source: String, dest_parent: FsPath },
}

/// The file's canonical path lies at or below the dotfiles root.
pub open spec fn in_dotfiles(f: ResolvedFile, dotroot: Seq<Seq<char>>) -> bool {
    is_prefix_of(dotroot, f.canonical@)
}

/// The file is to be moved: inside home, not already inside the dotfiles root.
pub open spec fn movable(f: ResolvedFile, home: Seq<Seq<char>>, dotroot: Seq<Seq<char>>) -> bool {
    !in_dotfiles(f, dotroot) && is_prefix_of(home, f.canonical@)
}

/// The file lies outside both home and the dotfiles root.
pub open spec fn out_of_scope(f: ResolvedFile, home: Seq<Seq<char>>, dotroot: Seq<
    Seq<char>,
>) -> bool {
    !in_dotfiles(f, dotroot) && !is_prefix_of(home, f.canonical@)
}

/// Where a movable file goes: the group directory joined with the canonical
/// path's remainder below home.
pub open spec fn dest_view(f: ResolvedFile, home: Seq<Seq<char>>, group: Seq<Seq<char>>) -> Seq<
    Seq<char>,
> {
    group + f.canonical@.skip(home.len() as int)
}

/// A planned move, reduced to the values its execution depends on.
#[verifier::ext_equal]
pub ghost struct MoveModel {
    pub source: Seq<char>,
    pub dest: Seq<Seq<char>>,
}

/// The model of one executable planned move.
pub open spec fn move_model(m: PlannedMove) -> MoveModel {
    MoveModel { source: m.source@, dest: m.dest@ }
}

/// The models of a whole move list, in order.
pub open spec fn models_of(s: Seq<PlannedMove>) -> Seq<MoveModel> {
    s.map_values(|m: PlannedMove| move_model(m))
}

/// The moves a batch must plan: the movable files, in input order, each headed
/// for the group directory under its path relative to home.
pub open spec fn moves_spec(
    files: Seq<ResolvedFile>,
    home: Seq<Seq<char>>,
    dotroot: Seq<Seq<char>>,
    group: Seq<Seq<char>>,
) -> Seq<MoveModel>
    decreases files.len(),
{
    if files.len() == 0 {
        Seq::empty()
    } else {
        let head: Seq<MoveModel> = if movable(files[0], home, dotroot) {
            seq![MoveModel { source: files[0].original@, dest: dest_view(files[0], home, group) }]
        } else {
            Seq::empty()
        };
        head + moves_spec(files.skip(1), home, dotroot, group)
    }
}

/// Planning distributes over concatenation of batches.
pub proof fn lemma_moves_spec_concat(
    a: Seq<ResolvedFile>,
    b: Seq<ResolvedFile>,
    home: Seq<Seq<char>>,
    dotroot: Seq<Seq<char>>,
    group: Seq<Seq<char>>,
)
    ensures
        moves_spec(a + b, home, dotroot, group) == moves_spec(a, home, dotroot, group)
            + moves_spec(b, home, dotroot, group),
    decreases a.len(),
{
    if a.len() == 0 {
        assert(a + b =~= b);
        assert(moves_spec(a, home, dotroot, group) + moves_spec(b, home, dotroot, group) =~=
            moves_spec(b, home, dotroot, group));
    } else {
        assert((a + b).len() > 0);
        assert((a + b)[0] == a[0]);
        assert((a + b).skip(1) =~= a.skip(1) + b);
        lemma_moves_spec_concat(a.skip(1), b, home, dotroot, group);
        assert(moves_spec(a + b, home, dotroot, group) =~= moves_spec(a, home, dotroot, group)
            + moves_spec(b, home, dotroot, group));
    }
}

/// Does a disposition say of `f` exactly what the planner must decide?
pub open spec fn disposition_matches(
    d: Disposition,
    f: ResolvedFile,
    home: Seq<Seq<char>>,
    dotroot: Seq<Seq<char>>,
    group: Seq<Seq<char>>,
) -> bool {
    match d {
        Disposition::SkippedInsideDotfiles { symlink_target } => {
            &&& in_dotfiles(f, dotroot)
            &&& match symlink_target {
                Some(t) => f.is_symlink && t@ == f.canonical@.skip(dotroot.len() as int),
                None => !f.is_symlink,
            }
        },
        Disposition::Planned { dest, symlink_warning } => {
            &&& movable(f, home, dotroot)
            &&& dest@ == dest_view(f, home, group)
            &&& symlink_warning == f.is_symlink
        },
        Disposition::RejectedOutsideHome => out_of_scope(f, home, dotroot),
    }
}

/// Decide one file's disposition from its canonical location and its own
/// entry type.
pub fn classify(f: &ResolvedFile, home: &FsPath, dotfiles_root: &FsPath, group_dir: &FsPath) -> (d:
    Disposition)
    ensures
        disposition_matches(d, *f, home@, dotfiles_root@, group_dir@),
{
    if let Some(inside) = f.canonical.strip_prefix(dotfiles_root) {
        let symlink_target = if f.is_symlink {
            Some(inside)
        } else {
            None
        };
        Disposition::SkippedInsideDotfiles { symlink_target }
    } else if let Some(rel) = f.canonical.strip_prefix(home) {
        Disposition::Planned { dest: group_dir.join(&rel), symlink_warning: f.is_symlink }
    } else {
        Disposition::RejectedOutsideHome
    }
}

/// A validated batch: the moves to execute, in input order, and one report
/// per candidate file for the caller to show.
pub struct Plan {
    pub moves: Vec<PlannedMove>,
    pub reports: Vec<Disposition>,
}

/// Validate a whole batch against home and the group directory (whose parent
/// is the dotfiles root).  Nothing is planned unless every file is inside
/// home or already inside the dotfiles root: the first file outside both
/// refuses the batch, so that execution is whole-batch or nothing.
pub fn plan_moves(files: &Vec<ResolvedFile>, home: &FsPath, group_dir: &FsPath) -> (r: Result<
    Plan,
    ImportError,
>)
    requires
        group_dir@.len() > 0,
    ensures
        (r is Ok) <==> (forall|i: int|
            0 <= i < files@.len() ==> !out_of_scope(
                files@[i],
                home@,
                group_dir@.drop_last(),
            )),
        r matches Err(e) ==> exists|i: int|
            {
                &&& 0 <= i < files@.len()
                &&& #[trigger] out_of_scope(files@[i], home@, group_dir@.drop_last())
                &&& forall|j: int|
                    0 <= j < i ==> !out_of_scope(files@[j], home@, group_dir@.drop_last())
                &&& e matches ImportError::OutsideHome { path, home_dir } && path@
                    == files@[i].original@ && home_dir@ == home@
            },
        r matches Ok(plan) ==> {
            &&& plan.reports@.len() == files@.len()
            &&& forall|i: int|
                0 <= i < files@.len() ==> #[trigger] disposition_matches(
                    plan.reports@[i],
                    files@[i],
                    home@,
                    group_dir@.drop_last(),
                    group_dir@,
                )
            &&& models_of(plan.moves@) == moves_spec(
                files@,
                home@,
                group_dir@.drop_last(),
                group_dir@,
            )
        },
{
    let ghost dotroot = group_dir@.drop_last();
    let dotfiles_root = match group_dir.parent() {
        Some(p) => p,
        None => FsPath::empty(),
    };
    let mut moves: Vec<PlannedMove> = Vec::new();
    let mut reports: Vec<Disposition> = Vec::new();
    let mut i: usize = 0;
    proof {
        assert(files@.subrange(0, 0) =~= Seq::<ResolvedFile>::empty());
        assert(models_of(moves@) =~= moves_spec(files@.subrange(0, 0), home@, dotroot, group_dir@));
    }
    while i < files.len()
        invariant
            i <= files@.len(),
            group_dir@.len() > 0,
            dotroot == group_dir@.drop_last(),
            dotfiles_root@ == dotroot,
            reports@.len() == i,
            forall|j: int|
                0 <= j < i ==> #[trigger] disposition_matches(
                    reports@[j],
                    files@[j],
                    home@,
                    dotroot,
                    group_dir@,
                ),
            forall|j: int| 0 <= j < i ==> !out_of_scope(files@[j], home@, dotroot),
            models_of(moves@) == moves_spec(files@.subrange(0, i as int), home@, dotroot, group_dir@),
        decreases files@.len() - i,
    {
        let f = &files[i];
        let d = classify(f, home, &dotfiles_root, group_dir);
        match &d {
            Disposition::RejectedOutsideHome => {
                proof {
                    assert(out_of_scope(files@[i as int], home@, group_dir@.drop_last()));
                }
                return Err(
                    ImportError::OutsideHome { path: f.original.clone(), home_dir: home.clone() },
                );
            },
            Disposition::Planned { dest, symlink_warning: _ } => {
                let m = PlannedMove { source: f.original.clone(), dest: dest.clone() };
                proof {
                    let pre = files@.subrange(0, i as int);
                    let one = seq![files@[i as int]];
                    assert(files@.subrange(0, i as int + 1) =~= pre + one);
                    lemma_moves_spec_concat(pre, one, home@, dotroot, group_dir@);
                    assert(one.skip(1) =~= Seq::<ResolvedFile>::empty());
                    assert(moves_spec(Seq::<ResolvedFile>::empty(), home@, dotroot, group_dir@)
                        =~= Seq::<MoveModel>::empty());
                    assert(moves_spec(one, home@, dotroot, group_dir@) =~= seq![move_model(m)]);
                    assert(models_of(moves@.push(m)) =~= models_of(moves@).push(move_model(m)));
                    assert(models_of(moves@).push(move_model(m)) =~= models_of(moves@) + seq![
                        move_model(m)
                    ]);
                }
                moves.push(m);
            },
            Disposition::SkippedInsideDotfiles { .. } => {
                proof {
                    let pre = files@.subrange(0, i as int);
                    let one = seq![files@[i as int]];
                    assert(files@.subrange(0, i as int + 1) =~= pre + one);
                    lemma_moves_spec_concat(pre, one, home@, dotroot, group_dir@);
                    assert(one.skip(1) =~= Seq::<ResolvedFile>::empty());
                    assert(moves_spec(Seq::<ResolvedFile>::empty(), home@, dotroot, group_dir@)
                        =~= Seq::<MoveModel>::empty());
                    assert(moves_spec(one, home@, dotroot, group_dir@) =~= Seq::<
                        MoveModel,
                    >::empty());
                    assert(models_of(moves@) + Seq::<MoveModel>::empty() =~= models_of(moves@));
                }
            },
        }
        reports.push(d);
        i += 1;
    }
    proof {
        assert(files@.subrange(0, files@.len() as int) =~= files@);
    }
    Ok(Plan { moves, reports })
}

/// Law: a file whose canonical path lies inside the dotfiles root contributes
/// nothing to the planned moves — removing it from the batch leaves the plan
/// unchanged, whatever the other entries are.
pub proof fn lemma_skipped_file_leaves_plan_unchanged(
    files: Seq<ResolvedFile>,
    home: Seq<Seq<char>>,
    dotroot: Seq<Seq<char>>,
    group: Seq<Seq<char>>,
    i: int,
)
    requires
        0 <= i < files.len(),
        in_dotfiles(files[i], dotroot),
    ensures
        moves_spec(files.remove(i), home, dotroot, group) == moves_spec(
            files,
            home,
            dotroot,
            group,
        ),
{
    let pre = files.subrange(0, i);
    let one = seq![files[i]];
    let post = files.subrange(i + 1, files.len() as int);
    assert(files =~= pre + (one + post));
    assert(files.remove(i) =~= pre + post);
    lemma_moves_spec_concat(pre, one + post, home, dotroot, group);
    lemma_moves_spec_concat(one, post, home, dotroot, group);
    lemma_moves_spec_concat(pre, post, home, dotroot, group);
    assert(one.skip(1) =~= Seq::<ResolvedFile>::empty());
    assert(moves_spec(Seq::<ResolvedFile>::empty(), home, dotroot, group) =~= Seq::<
        MoveModel,
    >::empty());
    assert(moves_spec(one, home, dotroot, group) =~= Seq::<MoveModel>::empty());
    assert(moves_spec(pre, home, dotroot, group) + (moves_spec(one, home, dotroot, group)
        + moves_spec(post, home, dotroot, group)) =~= moves_spec(pre, home, dotroot, group)
        + moves_spec(post, home, dotroot, group));
}

/// Law: every file inside home (and outside the dotfiles root) appears among
/// the planned moves, named as the caller gave it and headed for the group
/// directory under its path relative to home.
pub proof fn lemma_home_file_is_planned(
    files: Seq<ResolvedFile>,
    home: Seq<Seq<char>>,
    dotroot: Seq<Seq<char>>,
    group: Seq<Seq<char>>,
    i: int,
)
    requires
        0 <= i < files.len(),
        movable(files[i], home, dotroot),
    ensures
        exists|k: int|
            0 <= k < moves_spec(files, home, dotroot, group).len() && moves_spec(
                files,
                home,
                dotroot,
                group,
            )[k] == (MoveModel { source: files[i].original@, dest: dest_view(files[i], home, group) }),
{
    let pre = files.subrange(0, i);
    let one = seq![files[i]];
    let post = files.subrange(i + 1, files.len() as int);
    assert(files =~= pre + (one + post));
    lemma_moves_spec_concat(pre, one + post, home, dotroot, group);
    lemma_moves_spec_concat(one, post, home, dotroot, group);
    assert(one.skip(1) =~= Seq::<ResolvedFile>::empty());
    assert(moves_spec(Seq::<ResolvedFile>::empty(), home, dotroot, group) =~= Seq::<
        MoveModel,
    >::empty());
    let m = MoveModel { source: files[i].original@, dest: dest_view(files[i], home, group) };
    assert(moves_spec(one, home, dotroot, group) =~= seq![m]);
    let k = moves_spec(pre, home, dotroot, group).len() as int;
    assert(moves_spec(files, home, dotroot, group)[k] == m);
}

/// Refuse the batch if any planned destination already exists on disk:
/// `dest_exists[i]` reports whether anything stands at `moves[i].dest`.
pub fn check_collisions(moves: &Vec<PlannedMove>, dest_exists: &Vec<bool>) -> (r: Result<
    (),
    ImportError,
>)
    requires
        dest_exists@.len() == moves@.len(),
    ensures
        (r is Ok) <==> (forall|i: int| 0 <= i < dest_exists@.len() ==> !dest_exists@[i]),
        r matches Err(e) ==> exists|i: int|
            {
                &&& 0 <= i < dest_exists@.len()
                &&& #[trigger] dest_exists@[i]
                &&& forall|j: int| 0 <= j < i ==> !dest_exists@[j]
                &&& e matches ImportError::DestinationExists { dest } && dest@ == moves@[i].dest@
            },
{
    let mut i: usize = 0;
    while i < moves.len()
        invariant
            dest_exists@.len() == moves@.len(),
            i <= moves@.len(),
            forall|j: int| 0 <= j < i ==> !dest_exists@[j],
        decreases moves@.len() - i,
    {
        if dest_exists[i] {
            return Err(ImportError::DestinationExists { dest: moves[i].dest.clone() });
        }
        i += 1;
    }
    Ok(())
}

/// Refuse the batch if any source and its destination directory are on
/// different filesystems: `same_fs[i]` reports whether `moves[i].source` and
/// the destination's parent share one filesystem.  An atomic rename cannot
/// span filesystems and no copy fallback exists.
pub fn check_same_filesystem(moves: &Vec<PlannedMove>, same_fs: &Vec<bool>) -> (r: Result<
    (),
    ImportError,
>)
    requires
        same_fs@.len() == moves@.len(),
        forall|i: int| 0 <= i < moves@.len() ==> moves@[i].dest@.len() > 0,
    ensures
        (r is Ok) <==> (forall|i: int| 0 <= i < same_fs@.len() ==> same_fs@[i]),
        r matches Err(e) ==> exists|i: int|
            {
                &&& 0 <= i < same_fs@.len()
                &&& !(#[trigger] same_fs@[i])
                &&& forall|j: int| 0 <= j < i ==> same_fs@[j]
                &&& e matches ImportError::CrossFilesystem { source, dest_parent } && source@
                    == moves@[i].source@ && dest_parent@ == moves@[i].dest@.drop_last()
            },
{
    let mut i: usize = 0;
    while i < moves.len()
        invariant
            same_fs@.len() == moves@.len(),
            forall|k: int| 0 <= k < moves@.len() ==> moves@[k].dest@.len() > 0,
            i <= moves@.len(),
            forall|j: int| 0 <= j < i ==> same_fs@[j],
        decreases moves@.len() - i,
    {
        if !same_fs[i] {
            let parent = match moves[i].dest.parent() {
                Some(p) => p,
                None => FsPath::empty(),
            };
            return Err(
                ImportError::CrossFilesystem { source: moves[i].source.clone(), dest_parent: parent },
            );
        }
        i += 1;
    }
    Ok(())
}

} // verus!
