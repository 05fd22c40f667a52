//! The mutation planner: rename, move, copy, create-folder, delete and
//! add have no direct primitive in the external tool, so each is
//! planned as an ordered sequence of primitive tool invocations and
//! local scratch-file work, with a declared failure policy per step.
//!
//! A plan's steps run in order; the first failing step whose policy is
//! `Abort` stops the run, a failing `Warn` step is only reported.
//! Cleanup actions are best-effort and run on every exit path.

use vstd::prelude::*;
use crate::paths::{move_dest, move_leaf};
use crate::paths::{cleaned_folder, folder_path_ok, validate_folder_path};
use crate::text::{concat_str, str_eq};

verus! {

/// What happens to the run when a step fails.
#[derive(Clone, Copy, PartialEq, Eq, Structural, Debug)]
pub enum OnFailure {
    /// The failure ends the run; later steps are not attempted.
    Abort,
    /// The failure is surfaced as a warning and the run continues.
    Warn,
}

/// One primitive action of a plan.
#[derive(Debug)]
pub enum PlanAction {
    /// Run the external tool with these arguments.
    RunTool { args: Vec<String> },
    /// Run the external tool with these arguments, feeding it an empty
    /// standard input.
    RunToolEmptyInput { args: Vec<String> },
    /// Make sure an empty local scratch directory exists at `path`.
    PrepareLocalDir { path: String },
    /// Remove a local directory tree.
    RemoveLocalDir { path: String },
    /// Write an empty local file.
    WriteLocalEmptyFile { path: String },
    /// Remove a local file.
    RemoveLocalFile { path: String },
    /// Rename a local file.
    RenameLocal { from: String, to: String },
}

/// One step of a plan: an action and its failure policy.
#[derive(Debug)]
pub struct PlanStep {
    pub action: PlanAction,
    pub on_failure: OnFailure,
}

/// The model of an action, over character sequences.
pub enum ActionModel {
    Tool(Seq<Seq<char>>),
    ToolEmptyInput(Seq<Seq<char>>),
    PrepareDir(Seq<char>),
    RemoveDir(Seq<char>),
    WriteEmptyFile(Seq<char>),
    RemoveFile(Seq<char>),
    Rename(Seq<char>, Seq<char>),
}

/// The model of a step: its action, and whether a failure is fatal.
pub struct StepModel {
    pub action: ActionModel,
    pub fatal: bool,
}

/// The models of a vector of strings.
pub open spec fn strs(v: Seq<String>) -> Seq<Seq<char>> {
    v.map_values(|s: String| s@)
}

proof fn lemma_strs_push(v: Seq<String>, x: String)
    ensures
        strs(v.push(x)) == strs(v).push(x@),
{
    assert forall|j: int| 0 <= j < v.len() + 1 implies strs(v.push(x))[j] == strs(v).push(x@)[j]
        by {
        if j < v.len() {
            assert(v.push(x)[j] == v[j]);
        } else {
            assert(v.push(x)[j] == x);
        }
    }
    assert(strs(v.push(x)) =~= strs(v).push(x@));
}

impl View for PlanAction {
    type V = ActionModel;

    open spec fn view(&self) -> ActionModel {
        match self {
            PlanAction::RunTool { args } => ActionModel::Tool(strs(args@)),
            PlanAction::RunToolEmptyInput { args } => ActionModel::ToolEmptyInput(strs(args@)),
            PlanAction::PrepareLocalDir { path } => ActionModel::PrepareDir(path@),
            PlanAction::RemoveLocalDir { path } => ActionModel::RemoveDir(path@),
            PlanAction::WriteLocalEmptyFile { path } => ActionModel::WriteEmptyFile(path@),
            PlanAction::RemoveLocalFile { path } => ActionModel::RemoveFile(path@),
            PlanAction::RenameLocal { from, to } => ActionModel::Rename(from@, to@),
        }
    }
}

impl View for PlanStep {
    type V = StepModel;

    open spec fn view(&self) -> StepModel {
        (StepModel { action: self.action@, fatal: self.on_failure == OnFailure::Abort })
    }
}

/// The models of a vector of steps.
pub open spec fn steps_of(v: Seq<PlanStep>) -> Seq<StepModel> {
    v.map_values(|s: PlanStep| s@)
}

/// The models of a vector of actions.
pub open spec fn actions_of(v: Seq<PlanAction>) -> Seq<ActionModel> {
    v.map_values(|a: PlanAction| a@)
}

/// The arguments of a detailed listing.
pub open spec fn list_args_model(archive: Seq<char>) -> Seq<Seq<char>> {
    seq!["l"@, "-slt"@, archive]
}

/// Builds the argument list of a detailed listing of `archive`.
pub fn list_args(archive: &str) -> (r: Vec<String>)
    ensures
        strs(r@) == list_args_model(archive@),
{
    let mut v: Vec<String> = Vec::new();
    v.push(String::from_str("l"));
    v.push(String::from_str("-slt"));
    v.push(String::from_str(archive));
    proof {
        assert(strs(v@) =~= list_args_model(archive@));
    }
    v
}

/// The arguments of an extraction with full paths: the requested
/// entries, or everything when none are named, into the output
/// directory, overwriting without prompting.
pub open spec fn extract_args_model(
    archive: Seq<char>,
    files: Seq<Seq<char>>,
    output_directory: Seq<char>,
) -> Seq<Seq<char>> {
    seq!["x"@, archive, "-o"@ + output_directory, "-aoa"@] + files
}

/// Builds the argument list of an extraction from `archive` into
/// `output_directory`.
pub fn extract_args(archive: &str, files: &Vec<String>, output_directory: &str) -> (r: Vec<
    String,
>)
    ensures
        strs(r@) == extract_args_model(archive@, strs(files@), output_directory@),
{
    let mut v: Vec<String> = Vec::new();
    v.push(String::from_str("x"));
    v.push(String::from_str(archive));
    v.push(concat_str("-o", output_directory));
    v.push(String::from_str("-aoa"));
    let ghost base = v@;
    let mut i: usize = 0;
    proof {
        assert(strs(v@) =~= seq!["x"@, archive@, "-o"@ + output_directory@, "-aoa"@] + strs(
            files@,
        ).take(0));
    }
    while i < files.len()
        invariant
            i <= files@.len(),
            strs(v@) == seq!["x"@, archive@, "-o"@ + output_directory@, "-aoa"@] + strs(
                files@,
            ).take(i as int),
        decreases files@.len() - i,
    {
        let ghost vo = v@;
        v.push(files[i].clone());
        proof {
            lemma_strs_push(vo, files@[i as int]);
            assert(strs(files@).take(i + 1) =~= strs(files@).take(i as int).push(
                files@[i as int]@,
            ));
            assert(strs(v@) =~= seq!["x"@, archive@, "-o"@ + output_directory@, "-aoa"@] + strs(
                files@,
            ).take(i + 1));
        }
        i = i + 1;
    }
    proof {
        assert(strs(files@).take(files@.len() as int) =~= strs(files@));
    }
    v
}

/// The arguments that add the named local paths to the archive.
pub open spec fn add_args_model(archive: Seq<char>, paths: Seq<Seq<char>>) -> Seq<Seq<char>> {
    seq!["a"@, archive, "-y"@] + paths
}

/// The arguments that delete the named in-archive paths.
pub open spec fn delete_args_model(archive: Seq<char>, files: Seq<Seq<char>>) -> Seq<Seq<char>> {
    seq!["d"@, archive, "-y"@] + files
}

fn push_all(v: &mut Vec<String>, items: &Vec<String>)
    ensures
        final(v)@.len() == old(v)@.len() + items@.len(),
        strs(final(v)@) == strs(old(v)@) + strs(items@),
{
    let mut i: usize = 0;
    proof {
        assert(strs(v@) =~= strs(v@) + strs(items@).take(0));
    }
    while i < items.len()
        invariant
            i <= items@.len(),
            v@.len() == old(v)@.len() + i,
            strs(v@) == strs(old(v)@) + strs(items@).take(i as int),
        decreases items@.len() - i,
    {
        let ghost vo = v@;
        v.push(items[i].clone());
        proof {
            lemma_strs_push(vo, items@[i as int]);
            assert(strs(items@).take(i + 1) =~= strs(items@).take(i as int).push(
                items@[i as int]@,
            ));
            assert(strs(v@) =~= strs(old(v)@) + strs(items@).take(i + 1));
        }
        i = i + 1;
    }
    proof {
        assert(strs(items@).take(items@.len() as int) =~= strs(items@));
    }
}

/// Builds the add-files argument list, or nothing when there is
/// nothing to add: an empty batch is a no-op success that never
/// invokes the tool.
pub fn add_files_args(archive: &str, file_paths: &Vec<String>) -> (r: Option<Vec<String>>)
    ensures
        (r is None) == (file_paths@.len() == 0),
        r is Some ==> strs(r->0@) == add_args_model(archive@, strs(file_paths@)),
{
    if file_paths.len() == 0 {
        return None;
    }
    let mut v: Vec<String> = Vec::new();
    v.push(String::from_str("a"));
    v.push(String::from_str(archive));
    v.push(String::from_str("-y"));
    proof {
        assert(strs(v@) =~= seq!["a"@, archive@, "-y"@]);
    }
    push_all(&mut v, file_paths);
    Some(v)
}

/// Builds the delete argument list, or nothing when the batch is
/// empty: an empty batch is a no-op success that never invokes the
/// tool.
pub fn delete_files_args(archive: &str, files: &Vec<String>) -> (r: Option<Vec<String>>)
    ensures
        (r is None) == (files@.len() == 0),
        r is Some ==> strs(r->0@) == delete_args_model(archive@, strs(files@)),
{
    if files.len() == 0 {
        return None;
    }
    let mut v: Vec<String> = Vec::new();
    v.push(String::from_str("d"));
    v.push(String::from_str(archive));
    v.push(String::from_str("-y"));
    proof {
        assert(strs(v@) =~= seq!["d"@, archive@, "-y"@]);
    }
    push_all(&mut v, files);
    Some(v)
}

/// Builds the add-folders argument list from folders the caller has
/// already checked to exist, or nothing when the filtered batch is
/// empty: then the operation succeeds without invoking the tool.
pub fn add_folders_args(archive: &str, folder_paths: &Vec<String>) -> (r: Option<Vec<String>>)
    ensures
        (r is None) == (folder_paths@.len() == 0),
        r is Some ==> strs(r->0@) == add_args_model(archive@, strs(folder_paths@)),
{
    if folder_paths.len() == 0 {
        return None;
    }
    let mut v: Vec<String> = Vec::new();
    v.push(String::from_str("a"));
    v.push(String::from_str(archive));
    v.push(String::from_str("-y"));
    proof {
        assert(strs(v@) =~= seq!["a"@, archive@, "-y"@]);
    }
    push_all(&mut v, folder_paths);
    Some(v)
}

/// A step that runs the tool with these arguments.
pub open spec fn tool_step(args: Seq<Seq<char>>, fatal: bool) -> StepModel {
    (StepModel { action: ActionModel::Tool(args), fatal: fatal })
}

/// The arguments that extract one entry, without path structure, into
/// the scratch directory.
pub open spec fn extract_one_args_model(
    archive: Seq<char>,
    file: Seq<char>,
    scratch: Seq<char>,
) -> Seq<Seq<char>> {
    seq!["e"@, archive, file, "-o"@ + scratch, "-y"@]
}

/// The arguments that delete one in-archive path.
pub open spec fn delete_one_args_model(archive: Seq<char>, file: Seq<char>) -> Seq<Seq<char>> {
    seq!["d"@, archive, file, "-y"@]
}

/// The arguments that pre-create the destination's directory
/// structure in the archive, fed from an empty input.
pub open spec fn mkdir_args_model(archive: Seq<char>, destination: Seq<char>) -> Seq<Seq<char>> {
    seq!["a"@, archive, "-tzip"@, "-si"@ + destination, "-y"@]
}

/// The arguments that add the extracted entry back under its new
/// in-archive path.
pub open spec fn move_add_args_model(
    archive: Seq<char>,
    file: Seq<char>,
    destination: Seq<char>,
    scratch: Seq<char>,
) -> Seq<Seq<char>> {
    seq![
        "a"@,
        archive,
        "-w"@ + scratch,
        "-ir!"@ + move_leaf(file),
        "-si"@ + move_dest(file, destination),
        "-y"@,
    ]
}

/// The steps that move or copy one entry. An entry whose computed
/// destination equals its current path contributes no step at all:
/// the tool is never invoked for it.
pub open spec fn move_item_model(
    archive: Seq<char>,
    file: Seq<char>,
    destination: Seq<char>,
    scratch: Seq<char>,
    delete_original: bool,
) -> Seq<StepModel> {
    if move_dest(file, destination) == file {
        Seq::empty()
    } else {
        seq![tool_step(extract_one_args_model(archive, file, scratch), true)] + (
        if destination.len() > 0 {
            seq![
                (StepModel {
                    action: ActionModel::ToolEmptyInput(mkdir_args_model(archive, destination)),
                    fatal: false,
                }),
            ]
        } else {
            Seq::empty()
        }) + seq![tool_step(move_add_args_model(archive, file, destination, scratch), true)] + (
        if delete_original {
            seq![tool_step(delete_one_args_model(archive, file), false)]
        } else {
            Seq::empty()
        })
    }
}

/// The steps of a whole move or copy batch, in item order.
pub open spec fn move_items_model(
    archive: Seq<char>,
    files: Seq<Seq<char>>,
    destination: Seq<char>,
    scratch: Seq<char>,
    delete_original: bool,
) -> Seq<StepModel>
    decreases files.len(),
{
    if files.len() == 0 {
        Seq::empty()
    } else {
        move_item_model(archive, files[0], destination, scratch, delete_original)
            + move_items_model(archive, files.drop_first(), destination, scratch, delete_original)
    }
}

proof fn lemma_move_items_snoc(
    archive: Seq<char>,
    files: Seq<Seq<char>>,
    x: Seq<char>,
    destination: Seq<char>,
    scratch: Seq<char>,
    delete_original: bool,
)
    ensures
        move_items_model(archive, files.push(x), destination, scratch, delete_original)
            == move_items_model(archive, files, destination, scratch, delete_original)
            + move_item_model(archive, x, destination, scratch, delete_original),
    decreases files.len(),
{
    if files.len() == 0 {
        assert(files.push(x)[0] == x);
        assert(files.push(x).drop_first() =~= Seq::<Seq<char>>::empty());
        assert(move_items_model(
            archive,
            Seq::<Seq<char>>::empty(),
            destination,
            scratch,
            delete_original,
        ) == Seq::<StepModel>::empty());
        assert(move_items_model(archive, files.push(x), destination, scratch, delete_original)
            == move_item_model(archive, x, destination, scratch, delete_original)
            + Seq::<StepModel>::empty());
        assert(move_items_model(archive, files.push(x), destination, scratch, delete_original)
            =~= move_items_model(archive, files, destination, scratch, delete_original)
            + move_item_model(archive, x, destination, scratch, delete_original));
    } else {
        assert(files.push(x).drop_first() =~= files.drop_first().push(x));
        assert(files.push(x)[0] == files[0]);
        lemma_move_items_snoc(archive, files.drop_first(), x, destination, scratch,
            delete_original);
        assert(move_items_model(archive, files.push(x), destination, scratch, delete_original)
            =~= move_items_model(archive, files, destination, scratch, delete_original)
            + move_item_model(archive, x, destination, scratch, delete_original));
    }
}

/// Skipping is a no-op: an entry whose computed destination equals its
/// current path yields an empty step sequence, so the external tool is
/// not invoked for that item.
pub proof fn lemma_move_noop_skipped(
    archive: Seq<char>,
    file: Seq<char>,
    destination: Seq<char>,
    scratch: Seq<char>,
    delete_original: bool,
)
    ensures
        move_dest(file, destination) == file ==> move_item_model(
            archive,
            file,
            destination,
            scratch,
            delete_original,
        ) == Seq::<StepModel>::empty(),
{
}

/// A planned multi-step operation: ordered steps, each with its
/// failure policy, and best-effort cleanup actions that run on every
/// exit path.
#[derive(Debug)]
pub struct MutationPlan {
    pub steps: Vec<PlanStep>,
    pub cleanup: Vec<PlanAction>,
}

proof fn lemma_steps_push(v: Seq<PlanStep>, x: PlanStep)
    ensures
        steps_of(v.push(x)) == steps_of(v).push(x@),
{
    assert forall|j: int|
        0 <= j < v.len() + 1 implies steps_of(v.push(x))[j] == steps_of(v).push(x@)[j] by {
        if j < v.len() {
            assert(v.push(x)[j] == v[j]);
        } else {
            assert(v.push(x)[j] == x);
        }
    }
    assert(steps_of(v.push(x)) =~= steps_of(v).push(x@));
}

fn tool_abort(args: Vec<String>) -> (r: PlanStep)
    ensures
        r@ == tool_step(strs(args@), true),
{
    PlanStep { action: PlanAction::RunTool { args }, on_failure: OnFailure::Abort }
}

fn tool_warn(args: Vec<String>) -> (r: PlanStep)
    ensures
        r@ == tool_step(strs(args@), false),
{
    PlanStep { action: PlanAction::RunTool { args }, on_failure: OnFailure::Warn }
}

fn extract_one_args(archive: &str, file: &str, scratch: &str) -> (r: Vec<String>)
    ensures
        strs(r@) == extract_one_args_model(archive@, file@, scratch@),
{
    let mut v: Vec<String> = Vec::new();
    v.push(String::from_str("e"));
    v.push(String::from_str(archive));
    v.push(String::from_str(file));
    v.push(concat_str("-o", scratch));
    v.push(String::from_str("-y"));
    proof {
        assert(strs(v@) =~= extract_one_args_model(archive@, file@, scratch@));
    }
    v
}

fn delete_one_args(archive: &str, file: &str) -> (r: Vec<String>)
    ensures
        strs(r@) == delete_one_args_model(archive@, file@),
{
    let mut v: Vec<String> = Vec::new();
    v.push(String::from_str("d"));
    v.push(String::from_str(archive));
    v.push(String::from_str(file));
    v.push(String::from_str("-y"));
    proof {
        assert(strs(v@) =~= delete_one_args_model(archive@, file@));
    }
    v
}

/// The steps of a rename: extract the entry into a fresh scratch
/// directory, delete it from the archive, rename the local copy, add
/// it back relative to the scratch directory so only the new leaf name
/// is recorded under the old parent.
pub open spec fn rename_steps_model(
    archive: Seq<char>,
    old_path: Seq<char>,
    new_name: Seq<char>,
    scratch: Seq<char>,
) -> Seq<StepModel> {
    seq![
        (StepModel { action: ActionModel::PrepareDir(scratch), fatal: true }),
        tool_step(extract_one_args_model(archive, old_path, scratch), true),
        tool_step(delete_one_args_model(archive, old_path), true),
        (StepModel {
            action: ActionModel::Rename(
                scratch + "/"@ + move_leaf(old_path),
                scratch + "/"@ + new_name,
            ),
            fatal: true,
        }),
        tool_step(
            seq!["a"@, archive, scratch + "/"@ + new_name, "-w"@ + scratch, "-y"@],
            true,
        ),
    ]
}

fn join_scratch(scratch: &str, leaf: &str) -> (r: String)
    ensures
        r@ == scratch@ + "/"@ + leaf@,
{
    let s = concat_str(scratch, "/");
    let r = concat_str(s.as_str(), leaf);
    proof {
        assert(r@ =~= scratch@ + "/"@ + leaf@);
    }
    r
}

/// Plans a rename of `old_path` to the leaf name `new_name`, staged
/// through `scratch_dir`. Any step failure aborts the operation;
/// removing the scratch directory is best-effort on every exit path.
pub fn rename_plan(archive: &str, old_path: &str, new_name: &str, scratch_dir: &str) -> (r:
    MutationPlan)
    ensures
        steps_of(r.steps@) == rename_steps_model(archive@, old_path@, new_name@, scratch_dir@),
        actions_of(r.cleanup@) == seq![ActionModel::RemoveDir(scratch_dir@)],
{
    let mut steps: Vec<PlanStep> = Vec::new();
    steps.push(
        PlanStep {
            action: PlanAction::PrepareLocalDir { path: String::from_str(scratch_dir) },
            on_failure: OnFailure::Abort,
        },
    );
    steps.push(tool_abort(extract_one_args(archive, old_path, scratch_dir)));
    steps.push(tool_abort(delete_one_args(archive, old_path)));
    let n = old_path.unicode_len();
    let mut d: usize = n;
    while d > 0 && old_path.get_char(d - 1) != '/'
        invariant
            d <= n,
            n == old_path@.len(),
            forall|j: int| d <= j < n ==> old_path@[j] != '/',
        decreases d,
    {
        d = d - 1;
    }
    let leaf = old_path.substring_char(d, n);
    proof {
        crate::paths::lemma_leaf_scan(old_path@, d as int);
        assert(leaf@ =~= move_leaf(old_path@));
    }
    steps.push(
        PlanStep {
            action: PlanAction::RenameLocal {
                from: join_scratch(scratch_dir, leaf),
                to: join_scratch(scratch_dir, new_name),
            },
            on_failure: OnFailure::Abort,
        },
    );
    let mut add_args: Vec<String> = Vec::new();
    add_args.push(String::from_str("a"));
    add_args.push(String::from_str(archive));
    add_args.push(join_scratch(scratch_dir, new_name));
    add_args.push(concat_str("-w", scratch_dir));
    add_args.push(String::from_str("-y"));
    proof {
        assert(strs(add_args@) =~= seq![
            "a"@,
            archive@,
            scratch_dir@ + "/"@ + new_name@,
            "-w"@ + scratch_dir@,
            "-y"@,
        ]);
    }
    steps.push(tool_abort(add_args));
    let mut cleanup: Vec<PlanAction> = Vec::new();
    cleanup.push(PlanAction::RemoveLocalDir { path: String::from_str(scratch_dir) });
    proof {
        assert(steps_of(steps@) =~= rename_steps_model(
            archive@,
            old_path@,
            new_name@,
            scratch_dir@,
        ));
        assert(actions_of(cleanup@) =~= seq![ActionModel::RemoveDir(scratch_dir@)]);
    }
    MutationPlan { steps, cleanup }
}

fn transfer_plan(
    archive: &str,
    files: &Vec<String>,
    destination: &str,
    scratch_dir: &str,
    delete_original: bool,
) -> (r: MutationPlan)
    ensures
        steps_of(r.steps@) == seq![
            (StepModel { action: ActionModel::PrepareDir(scratch_dir@), fatal: true }),
        ] + move_items_model(
            archive@,
            strs(files@),
            destination@,
            scratch_dir@,
            delete_original,
        ),
        actions_of(r.cleanup@) == seq![ActionModel::RemoveDir(scratch_dir@)],
{
    let mut steps: Vec<PlanStep> = Vec::new();
    steps.push(
        PlanStep {
            action: PlanAction::PrepareLocalDir { path: String::from_str(scratch_dir) },
            on_failure: OnFailure::Abort,
        },
    );
    let ghost prep = seq![
        (StepModel { action: ActionModel::PrepareDir(scratch_dir@), fatal: true }),
    ];
    let mut i: usize = 0;
    proof {
        assert(strs(files@).take(0) =~= Seq::<Seq<char>>::empty());
        assert(steps_of(steps@) =~= prep + move_items_model(
            archive@,
            strs(files@).take(0),
            destination@,
            scratch_dir@,
            delete_original,
        ));
    }
    while i < files.len()
        invariant
            i <= files@.len(),
            steps_of(steps@) == prep + move_items_model(
                archive@,
                strs(files@).take(i as int),
                destination@,
                scratch_dir@,
                delete_original,
            ),
            prep == seq![
                (StepModel { action: ActionModel::PrepareDir(scratch_dir@), fatal: true }),
            ],
        decreases files@.len() - i,
    {
        let ghost done = strs(files@).take(i as int);
        let file = files[i].as_str();
        let new_path = crate::paths::compute_move_dest(file, destination);
        proof {
            lemma_move_items_snoc(
                archive@,
                done,
                file@,
                destination@,
                scratch_dir@,
                delete_original,
            );
            assert(strs(files@).take(i + 1) =~= done.push(file@));
        }
        if !str_eq(new_path.as_str(), file) {
            let ghost before = steps_of(steps@);
            steps.push(tool_abort(extract_one_args(archive, file, scratch_dir)));
            if destination.unicode_len() > 0 {
                let mut mk: Vec<String> = Vec::new();
                mk.push(String::from_str("a"));
                mk.push(String::from_str(archive));
                mk.push(String::from_str("-tzip"));
                mk.push(concat_str("-si", destination));
                mk.push(String::from_str("-y"));
                proof {
                    assert(strs(mk@) =~= mkdir_args_model(archive@, destination@));
                }
                steps.push(
                    PlanStep {
                        action: PlanAction::RunToolEmptyInput { args: mk },
                        on_failure: OnFailure::Warn,
                    },
                );
            }
            let mut add_args: Vec<String> = Vec::new();
            add_args.push(String::from_str("a"));
            add_args.push(String::from_str(archive));
            add_args.push(concat_str("-w", scratch_dir));
            let n = file.unicode_len();
            let mut d: usize = n;
            while d > 0 && file.get_char(d - 1) != '/'
                invariant
                    d <= n,
                    n == file@.len(),
                    forall|j: int| d <= j < n ==> file@[j] != '/',
                decreases d,
            {
                d = d - 1;
            }
            let leaf = file.substring_char(d, n);
            proof {
                crate::paths::lemma_leaf_scan(file@, d as int);
                assert(leaf@ =~= move_leaf(file@));
            }
            add_args.push(concat_str("-ir!", leaf));
            add_args.push(concat_str("-si", new_path.as_str()));
            add_args.push(String::from_str("-y"));
            proof {
                assert(strs(add_args@) =~= move_add_args_model(
                    archive@,
                    file@,
                    destination@,
                    scratch_dir@,
                ));
            }
            steps.push(tool_abort(add_args));
            if delete_original {
                steps.push(tool_warn(delete_one_args(archive, file)));
            }
            proof {
                assert(steps_of(steps@) =~= before + move_item_model(
                    archive@,
                    file@,
                    destination@,
                    scratch_dir@,
                    delete_original,
                ));
                assert(steps_of(steps@) =~= prep + move_items_model(
                    archive@,
                    strs(files@).take(i + 1),
                    destination@,
                    scratch_dir@,
                    delete_original,
                ));
            }
        } else {
            proof {
                assert(move_item_model(
                    archive@,
                    file@,
                    destination@,
                    scratch_dir@,
                    delete_original,
                ) =~= Seq::<StepModel>::empty());
                assert(steps_of(steps@) =~= prep + move_items_model(
                    archive@,
                    strs(files@).take(i + 1),
                    destination@,
                    scratch_dir@,
                    delete_original,
                ));
            }
        }
        i = i + 1;
    }
    let mut cleanup: Vec<PlanAction> = Vec::new();
    cleanup.push(PlanAction::RemoveLocalDir { path: String::from_str(scratch_dir) });
    proof {
        assert(strs(files@).take(files@.len() as int) =~= strs(files@));
        assert(actions_of(cleanup@) =~= seq![ActionModel::RemoveDir(scratch_dir@)]);
    }
    MutationPlan { steps, cleanup }
}

/// Plans a batch move: per entry, extract, best-effort pre-creation of
/// the destination structure, add under the new path, then a
/// best-effort delete of the original. The batch is not atomic: the
/// first fatal failure stops it, leaving earlier items already moved.
pub fn move_plan(archive: &str, files: &Vec<String>, destination: &str, scratch_dir: &str) -> (r:
    MutationPlan)
    ensures
        steps_of(r.steps@) == seq![
            (StepModel { action: ActionModel::PrepareDir(scratch_dir@), fatal: true }),
        ] + move_items_model(archive@, strs(files@), destination@, scratch_dir@, true),
        actions_of(r.cleanup@) == seq![ActionModel::RemoveDir(scratch_dir@)],
{
    transfer_plan(archive, files, destination, scratch_dir, true)
}

/// Plans a batch copy: identical to a move, except the original
/// entries are kept.
pub fn copy_plan(archive: &str, files: &Vec<String>, destination: &str, scratch_dir: &str) -> (r:
    MutationPlan)
    ensures
        steps_of(r.steps@) == seq![
            (StepModel { action: ActionModel::PrepareDir(scratch_dir@), fatal: true }),
        ] + move_items_model(archive@, strs(files@), destination@, scratch_dir@, false),
        actions_of(r.cleanup@) == seq![ActionModel::RemoveDir(scratch_dir@)],
{
    transfer_plan(archive, files, destination, scratch_dir, false)
}

/// Plans a paste: a move when the entries were cut, a copy otherwise.
pub fn paste_plan(
    archive: &str,
    files: &Vec<String>,
    destination: &str,
    scratch_dir: &str,
    is_cut: bool,
) -> (r: MutationPlan)
    ensures
        steps_of(r.steps@) == seq![
            (StepModel { action: ActionModel::PrepareDir(scratch_dir@), fatal: true }),
        ] + move_items_model(archive@, strs(files@), destination@, scratch_dir@, is_cut),
        actions_of(r.cleanup@) == seq![ActionModel::RemoveDir(scratch_dir@)],
{
    if is_cut {
        move_plan(archive, files, destination, scratch_dir)
    } else {
        copy_plan(archive, files, destination, scratch_dir)
    }
}


/// The arguments of the direct folder-creation attempt: a zero-byte
/// in-archive entry named with the folder's trailing slash, fed from
/// an empty input.
pub open spec fn folder_primary_args_model(
    archive: Seq<char>,
    folder_slash: Seq<char>,
) -> Seq<Seq<char>> {
    seq!["a"@, archive, "-tzip"@, "-si"@, "-w."@, folder_slash, "-y"@]
}

/// The fallback steps when the direct attempt fails: write a local
/// hidden placeholder, add it under the folder path with an explicit
/// in-archive name, then delete the in-archive placeholder. Only the
/// trailing delete is non-fatal: if it fails, the folder stays created
/// and a warning is surfaced.
pub open spec fn folder_fallback_model(
    archive: Seq<char>,
    folder_slash: Seq<char>,
    scratch: Seq<char>,
) -> Seq<StepModel> {
    seq![
        (StepModel {
            action: ActionModel::WriteEmptyFile(scratch + "/"@ + ".soarzip_placeholder"@),
            fatal: true,
        }),
        tool_step(
            seq![
                "a"@,
                archive,
                scratch + "/"@ + ".soarzip_placeholder"@,
                "-w"@ + scratch,
                "-i!"@ + ".soarzip_placeholder"@,
                "-sa="@ + folder_slash + ".soarzip_placeholder"@,
                "-y"@,
            ],
            true,
        ),
        tool_step(seq!["d"@, archive, folder_slash + ".soarzip_placeholder"@, "-y"@], false),
    ]
}

/// A planned folder creation: the validated folder path, the direct
/// attempt, and the placeholder fallback with its cleanup.
#[derive(Debug)]
pub struct FolderPlan {
    /// The folder's canonical in-archive path, with its trailing slash.
    pub folder: String,
    /// The direct attempt, run with an empty standard input.
    pub primary_args: Vec<String>,
    /// The fallback steps, tried only when the direct attempt fails.
    pub fallback: Vec<PlanStep>,
    /// Best-effort cleanup of the local placeholder file.
    pub cleanup: Vec<PlanAction>,
}

/// Plans a folder creation in the archive. The path is validated
/// first: an empty remainder or a parent-traversal segment is
/// rejected with an error, before any subprocess would be spawned.
pub fn create_folder_plan(archive: &str, folder_path: &str, scratch_dir: &str) -> (r: Result<
    FolderPlan,
    String,
>)
    ensures
        (r is Ok) == folder_path_ok(folder_path@),
        r is Err ==> r->Err_0@ == "Invalid folder path provided: "@ + folder_path@,
        r is Ok ==> (r->Ok_0).folder@ == cleaned_folder(folder_path@).push('/'),
        r is Ok ==> strs((r->Ok_0).primary_args@) == folder_primary_args_model(
            archive@,
            cleaned_folder(folder_path@).push('/'),
        ),
        r is Ok ==> steps_of((r->Ok_0).fallback@) == folder_fallback_model(
            archive@,
            cleaned_folder(folder_path@).push('/'),
            scratch_dir@,
        ),
        r is Ok ==> actions_of((r->Ok_0).cleanup@) == seq![
            ActionModel::RemoveFile(scratch_dir@ + "/"@ + ".soarzip_placeholder"@),
        ],
{
    let folder = match validate_folder_path(folder_path) {
        Ok(f) => f,
        Err(e) => {
            return Err(e);
        },
    };
    let mut primary: Vec<String> = Vec::new();
    primary.push(String::from_str("a"));
    primary.push(String::from_str(archive));
    primary.push(String::from_str("-tzip"));
    primary.push(String::from_str("-si"));
    primary.push(String::from_str("-w."));
    primary.push(folder.clone());
    primary.push(String::from_str("-y"));
    proof {
        assert(strs(primary@) =~= folder_primary_args_model(archive@, folder@));
    }
    let local_placeholder = join_scratch(scratch_dir, ".soarzip_placeholder");
    let mut fallback: Vec<PlanStep> = Vec::new();
    fallback.push(
        PlanStep {
            action: PlanAction::WriteLocalEmptyFile { path: local_placeholder.clone() },
            on_failure: OnFailure::Abort,
        },
    );
    let in_archive = concat_str(folder.as_str(), ".soarzip_placeholder");
    let mut add_args: Vec<String> = Vec::new();
    add_args.push(String::from_str("a"));
    add_args.push(String::from_str(archive));
    add_args.push(local_placeholder.clone());
    add_args.push(concat_str("-w", scratch_dir));
    add_args.push(concat_str("-i!", ".soarzip_placeholder"));
    add_args.push(concat_str("-sa=", in_archive.as_str()));
    add_args.push(String::from_str("-y"));
    proof {
        assert(strs(add_args@) =~~= seq![
            "a"@,
            archive@,
            scratch_dir@ + "/"@ + ".soarzip_placeholder"@,
            "-w"@ + scratch_dir@,
            "-i!"@ + ".soarzip_placeholder"@,
            "-sa="@ + folder@ + ".soarzip_placeholder"@,
            "-y"@,
        ]);
    }
    fallback.push(tool_abort(add_args));
    let mut del_args: Vec<String> = Vec::new();
    del_args.push(String::from_str("d"));
    del_args.push(String::from_str(archive));
    del_args.push(in_archive);
    del_args.push(String::from_str("-y"));
    proof {
        assert(strs(del_args@) =~= seq![
            "d"@,
            archive@,
            folder@ + ".soarzip_placeholder"@,
            "-y"@,
        ]);
    }
    fallback.push(tool_warn(del_args));
    let mut cleanup: Vec<PlanAction> = Vec::new();
    cleanup.push(PlanAction::RemoveLocalFile { path: local_placeholder });
    proof {
        assert(steps_of(fallback@) =~= folder_fallback_model(archive@, folder@, scratch_dir@));
        assert(actions_of(cleanup@) =~= seq![
            ActionModel::RemoveFile(scratch_dir@ + "/"@ + ".soarzip_placeholder"@),
        ]);
    }
    Ok(FolderPlan { folder, primary_args: primary, fallback, cleanup })
}

/// The arguments that create a new archive of the given format,
/// holding only the temporary empty file; the 7z format gets maximum
/// compression.
pub open spec fn create_archive_args_model(
    archive: Seq<char>,
    archive_type: Seq<char>,
    tmp_file: Seq<char>,
) -> Seq<Seq<char>> {
    if archive_type == "7z"@ {
        seq!["a"@, "-t"@ + archive_type, "-y"@, "-mx=9"@, archive, tmp_file]
    } else {
        seq!["a"@, "-t"@ + archive_type, "-y"@, archive, tmp_file]
    }
}

/// The steps that create a new empty archive: write a local empty
/// file, add it so the archive comes into being, then delete it from
/// the archive again. Every step is fatal; removing the local
/// temporary file is best-effort.
pub open spec fn create_archive_steps_model(
    archive: Seq<char>,
    archive_type: Seq<char>,
    tmp_file: Seq<char>,
) -> Seq<StepModel> {
    seq![
        (StepModel { action: ActionModel::WriteEmptyFile(tmp_file), fatal: true }),
        tool_step(create_archive_args_model(archive, archive_type, tmp_file), true),
        tool_step(seq!["d"@, archive, "soarzip_empty.tmp"@, "-y"@], true),
    ]
}

/// Plans the creation of a new empty archive at `archive`, staged
/// through the temporary file `tmp_file`.
pub fn create_archive_plan(archive: &str, archive_type: &str, tmp_file: &str) -> (r: MutationPlan)
    ensures
        steps_of(r.steps@) == create_archive_steps_model(archive@, archive_type@, tmp_file@),
        actions_of(r.cleanup@) == seq![ActionModel::RemoveFile(tmp_file@)],
{
    let mut steps: Vec<PlanStep> = Vec::new();
    steps.push(
        PlanStep {
            action: PlanAction::WriteLocalEmptyFile { path: String::from_str(tmp_file) },
            on_failure: OnFailure::Abort,
        },
    );
    let mut args: Vec<String> = Vec::new();
    args.push(String::from_str("a"));
    args.push(concat_str("-t", archive_type));
    args.push(String::from_str("-y"));
    if str_eq(archive_type, "7z") {
        args.push(String::from_str("-mx=9"));
    }
    args.push(String::from_str(archive));
    args.push(String::from_str(tmp_file));
    proof {
        assert(strs(args@) =~= create_archive_args_model(archive@, archive_type@, tmp_file@));
    }
    steps.push(tool_abort(args));
    let mut del_args: Vec<String> = Vec::new();
    del_args.push(String::from_str("d"));
    del_args.push(String::from_str(archive));
    del_args.push(String::from_str("soarzip_empty.tmp"));
    del_args.push(String::from_str("-y"));
    proof {
        assert(strs(del_args@) =~= seq!["d"@, archive@, "soarzip_empty.tmp"@, "-y"@]);
    }
    steps.push(tool_abort(del_args));
    let mut cleanup: Vec<PlanAction> = Vec::new();
    cleanup.push(PlanAction::RemoveLocalFile { path: String::from_str(tmp_file) });
    proof {
        assert(steps_of(steps@) =~= create_archive_steps_model(
            archive@,
            archive_type@,
            tmp_file@,
        ));
        assert(actions_of(cleanup@) =~= seq![ActionModel::RemoveFile(tmp_file@)]);
    }
    MutationPlan { steps, cleanup }
}

/// What the executor does after one step has run.
#[derive(Clone, Copy, PartialEq, Eq, Structural, Debug)]
pub enum StepVerdict {
    /// The step succeeded; go on.
    Proceed,
    /// The step failed but its policy is `Warn`: surface a warning and
    /// go on.
    WarnProceed,
    /// The step failed fatally: stop; later steps are not attempted.
    Stop,
}

/// Decides how a run continues after a step: a failure stops the run
/// exactly when the step's policy is `Abort`.
pub fn step_verdict(step: &PlanStep, succeeded: bool) -> (r: StepVerdict)
    ensures
        r == (if succeeded {
            StepVerdict::Proceed
        } else if step@.fatal {
            StepVerdict::Stop
        } else {
            StepVerdict::WarnProceed
        }),
{
    if succeeded {
        StepVerdict::Proceed
    } else if step.on_failure == OnFailure::Abort {
        StepVerdict::Stop
    } else {
        StepVerdict::WarnProceed
    }
}

/// Index of the first fatally failing step, or the number of steps
/// when the whole run goes through.
pub open spec fn first_fatal_failure(steps: Seq<StepModel>, results: Seq<bool>) -> int
    decreases steps.len(),
{
    if steps.len() == 0 {
        0
    } else if !results[0] && steps[0].fatal {
        0
    } else {
        1 + first_fatal_failure(steps.drop_first(), results.drop_first())
    }
}

/// How far a run got and whether it succeeded.
#[derive(Clone, Copy, PartialEq, Eq, Structural, Debug)]
pub struct PlanRun {
    /// How many steps were attempted.
    pub attempted: usize,
    /// Whether the run went through without a fatal failure.
    pub ok: bool,
}

/// Replays a plan against the per-step outcomes: steps run in order,
/// and the first fatal failure stops the run, leaving later steps
/// unattempted.
pub fn plan_outcome(steps: &Vec<PlanStep>, results: &Vec<bool>) -> (r: PlanRun)
    requires
        steps@.len() == results@.len(),
    ensures
        r.ok == (first_fatal_failure(steps_of(steps@), results@) >= steps@.len()),
        r.ok ==> r.attempted == steps@.len(),
        !r.ok ==> r.attempted == first_fatal_failure(steps_of(steps@), results@) + 1,
{
    let ghost full_s = steps_of(steps@);
    let ghost full_r = results@;
    let mut i: usize = 0;
    proof {
        assert(full_s.skip(0) =~= full_s);
        assert(full_r.skip(0) =~= full_r);
    }
    while i < steps.len()
        invariant
            i <= steps@.len(),
            steps@.len() == results@.len(),
            full_s == steps_of(steps@),
            full_r == results@,
            first_fatal_failure(full_s, full_r) == i + first_fatal_failure(
                full_s.skip(i as int),
                full_r.skip(i as int),
            ),
        decreases steps@.len() - i,
    {
        let ok = results[i];
        let fatal = steps[i].on_failure == OnFailure::Abort;
        proof {
            let ts = full_s.skip(i as int);
            let tr = full_r.skip(i as int);
            assert(ts.len() > 0);
            assert(ts[0] == full_s[i as int] && tr[0] == full_r[i as int]);
            assert(full_s[i as int] == steps@[i as int]@);
            assert(ts.drop_first() =~= full_s.skip(i + 1));
            assert(tr.drop_first() =~= full_r.skip(i + 1));
        }
        if !ok && fatal {
            proof {
                assert(first_fatal_failure(full_s.skip(i as int), full_r.skip(i as int)) == 0);
            }
            return PlanRun { attempted: i + 1, ok: false };
        }
        i = i + 1;
    }
    proof {
        assert(full_s.skip(i as int) =~= Seq::<StepModel>::empty());
    }
    PlanRun { attempted: steps.len(), ok: true }
}

} // verus!
