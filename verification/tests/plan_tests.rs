use soar_zip::plan::{
    add_files_args, add_folders_args, copy_plan, create_archive_plan, create_folder_plan,
    delete_files_args, extract_args, list_args, move_plan, paste_plan, plan_outcome, rename_plan,
    step_verdict, OnFailure, PlanAction, PlanStep, StepVerdict,
};

fn tool_args(step: &PlanStep) -> &Vec<String> {
    match &step.action {
        PlanAction::RunTool { args } => args,
        PlanAction::RunToolEmptyInput { args } => args,
        _ => panic!("step runs no tool"),
    }
}

fn strings(v: &[&str]) -> Vec<String> {
    v.iter().map(|s| s.to_string()).collect()
}

#[test]
fn list_args_request_detailed_listing() {
    assert_eq!(list_args("x.zip"), strings(&["l", "-slt", "x.zip"]));
}

#[test]
fn extract_args_name_output_directory_and_entries() {
    let files = strings(&["a.txt", "d/b.txt"]);
    assert_eq!(
        extract_args("x.zip", &files, "/out"),
        strings(&["x", "x.zip", "-o/out", "-aoa", "a.txt", "d/b.txt"])
    );
}

#[test]
fn extract_args_without_entries_extract_everything() {
    let files: Vec<String> = Vec::new();
    assert_eq!(
        extract_args("x.zip", &files, "/out"),
        strings(&["x", "x.zip", "-o/out", "-aoa"])
    );
}

#[test]
fn empty_add_batch_is_a_no_op() {
    let none: Vec<String> = Vec::new();
    assert!(add_files_args("x.zip", &none).is_none());
    assert!(add_folders_args("x.zip", &none).is_none());
}

#[test]
fn add_args_pass_the_paths_through() {
    let files = strings(&["/tmp/a.txt"]);
    assert_eq!(
        add_files_args("x.zip", &files).unwrap(),
        strings(&["a", "x.zip", "-y", "/tmp/a.txt"])
    );
}

#[test]
fn empty_delete_batch_is_a_no_op() {
    let none: Vec<String> = Vec::new();
    assert!(delete_files_args("x.zip", &none).is_none());
}

#[test]
fn delete_args_pass_the_paths_through() {
    let files = strings(&["a.txt", "d/"]);
    assert_eq!(
        delete_files_args("x.zip", &files).unwrap(),
        strings(&["d", "x.zip", "-y", "a.txt", "d/"])
    );
}

#[test]
fn rename_plan_stages_through_the_scratch_directory() {
    let plan = rename_plan("x.zip", "docs/readme.txt", "notes.txt", "/tmp/s");
    assert_eq!(plan.steps.len(), 5);
    // extract the old entry, flat, into the scratch directory
    assert_eq!(
        *tool_args(&plan.steps[1]),
        strings(&["e", "x.zip", "docs/readme.txt", "-o/tmp/s", "-y"])
    );
    // delete the original
    assert_eq!(
        *tool_args(&plan.steps[2]),
        strings(&["d", "x.zip", "docs/readme.txt", "-y"])
    );
    // rename the local copy
    match &plan.steps[3].action {
        PlanAction::RenameLocal { from, to } => {
            assert_eq!(from, "/tmp/s/readme.txt");
            assert_eq!(to, "/tmp/s/notes.txt");
        }
        _ => panic!("expected a local rename"),
    }
    // add back relative to the scratch directory
    assert_eq!(
        *tool_args(&plan.steps[4]),
        strings(&["a", "x.zip", "/tmp/s/notes.txt", "-w/tmp/s", "-y"])
    );
    // every step is fatal; scratch removal is cleanup
    for s in &plan.steps {
        assert_eq!(s.on_failure, OnFailure::Abort);
    }
    assert_eq!(plan.cleanup.len(), 1);
    match &plan.cleanup[0] {
        PlanAction::RemoveLocalDir { path } => assert_eq!(path, "/tmp/s"),
        _ => panic!("expected scratch removal"),
    }
}

#[test]
fn move_skips_an_entry_already_at_its_destination() {
    let files = strings(&["docs/readme.txt"]);
    let plan = move_plan("x.zip", &files, "docs", "/tmp/s");
    // only the scratch preparation remains: no tool invocation for the item
    assert_eq!(plan.steps.len(), 1);
    match &plan.steps[0].action {
        PlanAction::PrepareLocalDir { path } => assert_eq!(path, "/tmp/s"),
        _ => panic!("expected scratch preparation"),
    }
}

#[test]
fn move_plan_orders_add_before_delete() {
    let files = strings(&["a.txt"]);
    let plan = move_plan("x.zip", &files, "d", "/tmp/s");
    // prepare, extract, pre-create destination, add, delete
    assert_eq!(plan.steps.len(), 5);
    assert_eq!(
        *tool_args(&plan.steps[1]),
        strings(&["e", "x.zip", "a.txt", "-o/tmp/s", "-y"])
    );
    assert_eq!(plan.steps[2].on_failure, OnFailure::Warn);
    assert_eq!(
        *tool_args(&plan.steps[2]),
        strings(&["a", "x.zip", "-tzip", "-sid", "-y"])
    );
    assert_eq!(
        *tool_args(&plan.steps[3]),
        strings(&["a", "x.zip", "-w/tmp/s", "-ir!a.txt", "-sid/a.txt", "-y"])
    );
    assert_eq!(plan.steps[3].on_failure, OnFailure::Abort);
    assert_eq!(
        *tool_args(&plan.steps[4]),
        strings(&["d", "x.zip", "a.txt", "-y"])
    );
    // deleting the original only warns on failure
    assert_eq!(plan.steps[4].on_failure, OnFailure::Warn);
}

#[test]
fn copy_plan_keeps_the_originals() {
    let files = strings(&["a.txt"]);
    let plan = copy_plan("x.zip", &files, "d", "/tmp/s");
    assert_eq!(plan.steps.len(), 4);
    for s in &plan.steps {
        if let PlanAction::RunTool { args } = &s.action {
            assert_ne!(args[0], "d");
        }
    }
}

#[test]
fn paste_dispatches_on_cut() {
    let files = strings(&["a.txt"]);
    let cut = paste_plan("x.zip", &files, "d", "/tmp/s", true);
    let copied = paste_plan("x.zip", &files, "d", "/tmp/s", false);
    assert_eq!(cut.steps.len(), 5);
    assert_eq!(copied.steps.len(), 4);
}

#[test]
fn batch_move_fails_fast_leaving_earlier_items_mutated() {
    let files = strings(&["a.txt", "b.txt", "c.txt"]);
    let plan = move_plan("x.zip", &files, "d", "/tmp/s");
    // prepare + 3 items of 4 steps each
    assert_eq!(plan.steps.len(), 13);
    // item 2's extract step is step 5 (prepare, then item 1 at 1..=4)
    assert_eq!(
        *tool_args(&plan.steps[5]),
        strings(&["e", "x.zip", "b.txt", "-o/tmp/s", "-y"])
    );
    let mut results = vec![true; 13];
    results[5] = false;
    let run = plan_outcome(&plan.steps, &results);
    assert!(!run.ok);
    // item 1 was fully processed: its add (step 3) and delete (step 4) ran
    assert_eq!(run.attempted, 6);
    // item 3 (steps 9..=12) was never attempted
    assert!(run.attempted <= 9);
}

#[test]
fn failing_warn_step_does_not_stop_the_run() {
    let files = strings(&["a.txt"]);
    let plan = move_plan("x.zip", &files, "d", "/tmp/s");
    let mut results = vec![true; plan.steps.len()];
    // the destination pre-creation step only warns
    results[2] = false;
    let run = plan_outcome(&plan.steps, &results);
    assert!(run.ok);
    assert_eq!(run.attempted, plan.steps.len());
}

#[test]
fn step_verdict_stops_only_fatal_failures() {
    let fatal = PlanStep {
        action: PlanAction::RemoveLocalFile { path: "x".to_string() },
        on_failure: OnFailure::Abort,
    };
    let warned = PlanStep {
        action: PlanAction::RemoveLocalFile { path: "x".to_string() },
        on_failure: OnFailure::Warn,
    };
    assert_eq!(step_verdict(&fatal, true), StepVerdict::Proceed);
    assert_eq!(step_verdict(&fatal, false), StepVerdict::Stop);
    assert_eq!(step_verdict(&warned, false), StepVerdict::WarnProceed);
}

#[test]
fn folder_plan_carries_canonical_path_and_placeholder_fallback() {
    let plan = create_folder_plan("x.zip", "reports/2024", "/tmp/s").unwrap();
    assert_eq!(plan.folder, "reports/2024/");
    assert_eq!(
        plan.primary_args,
        strings(&["a", "x.zip", "-tzip", "-si", "-w.", "reports/2024/", "-y"])
    );
    assert_eq!(plan.fallback.len(), 3);
    match &plan.fallback[0].action {
        PlanAction::WriteLocalEmptyFile { path } => {
            assert_eq!(path, "/tmp/s/.soarzip_placeholder")
        }
        _ => panic!("expected the local placeholder write"),
    }
    assert_eq!(
        *tool_args(&plan.fallback[1]),
        strings(&[
            "a",
            "x.zip",
            "/tmp/s/.soarzip_placeholder",
            "-w/tmp/s",
            "-i!.soarzip_placeholder",
            "-sa=reports/2024/.soarzip_placeholder",
            "-y"
        ])
    );
    // the trailing delete removes exactly the placeholder that was added
    assert_eq!(
        *tool_args(&plan.fallback[2]),
        strings(&["d", "x.zip", "reports/2024/.soarzip_placeholder", "-y"])
    );
    // and only warns when it fails: the folder stays created
    assert_eq!(plan.fallback[2].on_failure, OnFailure::Warn);
}

#[test]
fn folder_plan_rejects_invalid_paths() {
    assert_eq!(
        create_folder_plan("x.zip", "a/../b", "/tmp/s").unwrap_err(),
        "Invalid folder path provided: a/../b"
    );
    assert!(create_folder_plan("x.zip", "/", "/tmp/s").is_err());
}

#[test]
fn create_archive_plan_uses_maximum_compression_for_7z() {
    let plan = create_archive_plan("new.7z", "7z", "/tmp/soarzip_empty.tmp");
    assert_eq!(
        *tool_args(&plan.steps[1]),
        strings(&["a", "-t7z", "-y", "-mx=9", "new.7z", "/tmp/soarzip_empty.tmp"])
    );
    assert_eq!(
        *tool_args(&plan.steps[2]),
        strings(&["d", "new.7z", "soarzip_empty.tmp", "-y"])
    );
}

#[test]
fn create_archive_plan_for_zip_has_no_compression_override() {
    let plan = create_archive_plan("new.zip", "zip", "/tmp/soarzip_empty.tmp");
    assert_eq!(
        *tool_args(&plan.steps[1]),
        strings(&["a", "-tzip", "-y", "new.zip", "/tmp/soarzip_empty.tmp"])
    );
}
