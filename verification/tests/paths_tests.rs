use soar_zip::compute_move_dest;
use soar_zip::compute_rename_dest;
use soar_zip::validate_folder_path;

#[test]
fn rename_keeps_parent_directory() {
    assert_eq!(compute_rename_dest("docs/readme.txt", "notes.txt"), "docs/notes.txt");
}

#[test]
fn rename_of_root_level_file_adds_no_leading_separator() {
    assert_eq!(compute_rename_dest("a.txt", "b.txt"), "b.txt");
}

#[test]
fn rename_keeps_nested_parent() {
    assert_eq!(compute_rename_dest("a/b/c/d.bin", "e.bin"), "a/b/c/e.bin");
}

#[test]
fn move_dest_joins_destination_and_leaf() {
    assert_eq!(compute_move_dest("docs/readme.txt", "archive"), "archive/readme.txt");
}

#[test]
fn move_dest_to_root_is_just_the_leaf() {
    assert_eq!(compute_move_dest("docs/readme.txt", ""), "readme.txt");
}

#[test]
fn move_dest_strips_trailing_slashes_of_destination() {
    assert_eq!(compute_move_dest("a.txt", "d/"), "d/a.txt");
    assert_eq!(compute_move_dest("a.txt", "d///"), "d/a.txt");
}

#[test]
fn folder_validation_rejects_empty() {
    assert!(validate_folder_path("").is_err());
    assert_eq!(
        validate_folder_path("").unwrap_err(),
        "Invalid folder path provided: "
    );
}

#[test]
fn folder_validation_rejects_slashes_only() {
    assert!(validate_folder_path("/").is_err());
    assert!(validate_folder_path("///").is_err());
    assert!(validate_folder_path("  /  ").is_err());
}

#[test]
fn folder_validation_rejects_parent_traversal() {
    assert!(validate_folder_path("..").is_err());
    assert!(validate_folder_path("../x").is_err());
    assert!(validate_folder_path("a/../b").is_err());
    assert!(validate_folder_path("a/..").is_err());
    assert!(validate_folder_path("/../").is_err());
    assert_eq!(
        validate_folder_path("a/../b").unwrap_err(),
        "Invalid folder path provided: a/../b"
    );
}

#[test]
fn folder_validation_accepts_ordinary_paths() {
    assert_eq!(validate_folder_path("reports/2024").unwrap(), "reports/2024/");
    assert_eq!(validate_folder_path("/reports/2024/").unwrap(), "reports/2024/");
    assert_eq!(validate_folder_path("  docs  ").unwrap(), "docs/");
}

#[test]
fn folder_validation_accepts_dots_inside_a_segment() {
    // "a..b" holds no `..` segment
    assert_eq!(validate_folder_path("a..b").unwrap(), "a..b/");
    assert_eq!(validate_folder_path("x/.hidden").unwrap(), "x/.hidden/");
}
