use soar_zip::FileItem;
use soar_zip::parse_7z_list_output;
use soar_zip::parse_primary_entries;

fn names(entries: &Vec<FileItem>) -> Vec<String> {
    let mut v = Vec::new();
    for e in entries {
        v.push(e.name.clone());
    }
    v
}

#[test]
fn two_well_formed_blocks_yield_two_primary_entries() {
    let text = "Path = docs\\readme.txt\nSize = 10\nModified = 2024-01-02 03:04:05\n\nPath = a\nFolder = +\n\n";
    let entries = parse_primary_entries(text);
    assert_eq!(entries.len(), 2);
    assert_eq!(entries[0].name, "docs/readme.txt");
    assert!(!entries[0].is_dir);
    assert_eq!(entries[0].size, 10);
    assert_eq!(entries[0].modified_date, "2024-01-02 03:04:05");
    assert_eq!(entries[1].name, "a/");
    assert!(entries[1].is_dir);
}

#[test]
fn backslash_separators_are_normalized() {
    let text = "Path = dir\\sub\\file.txt\nSize = 1\n\n";
    let entries = parse_primary_entries(text);
    assert_eq!(entries.len(), 1);
    assert_eq!(entries[0].name, "dir/sub/file.txt");
    assert!(!entries[0].name.contains('\\'));
}

#[test]
fn directory_synthesis_inserts_missing_ancestors() {
    let text = "Path = a/b/c.txt\nSize = 3\n\n";
    let entries = parse_7z_list_output(text);
    let ns = names(&entries);
    assert!(ns.contains(&"a/".to_string()));
    assert!(ns.contains(&"a/b/".to_string()));
    assert!(ns.contains(&"a/b/c.txt".to_string()));
    assert_eq!(entries.len(), 3);
    // synthesized directories: zero size, empty timestamp, directory label
    let a = entries.iter().find(|e| e.name == "a/").unwrap();
    assert!(a.is_dir);
    assert_eq!(a.size, 0);
    assert_eq!(a.modified_date, "");
    assert_eq!(a.type_label, "文件夹");
}

#[test]
fn duplicate_path_blocks_keep_first_seen_values() {
    let text = "Path = x\nSize = 1\n\nPath = x\nSize = 2\n\n";
    let entries = parse_7z_list_output(text);
    assert_eq!(entries.len(), 1);
    assert_eq!(entries[0].name, "x");
    assert_eq!(entries[0].size, 1);
}

#[test]
fn result_is_sorted_directories_first_then_lexicographic() {
    let text = "Path = z.txt\nSize = 1\n\nPath = b/a.txt\nSize = 1\n\nPath = a.txt\nSize = 1\n\nPath = c\nFolder = +\n\n";
    let entries = parse_7z_list_output(text);
    for i in 0..entries.len() {
        for j in (i + 1)..entries.len() {
            let a = &entries[i];
            let b = &entries[j];
            assert!(
                (a.is_dir && !b.is_dir) || (a.is_dir == b.is_dir && a.name <= b.name),
                "out of order: {} before {}",
                a.name,
                b.name
            );
        }
    }
    let ns = names(&entries);
    assert_eq!(ns, vec!["b/", "c/", "a.txt", "b/a.txt", "z.txt"]);
}

#[test]
fn root_level_file_alone_yields_single_entry() {
    let text = "Path = photo.jpg\nSize = 2048\nModified = 2024-05-06 07:08:09\nAttributes = A\n\n";
    let entries = parse_7z_list_output(text);
    assert_eq!(entries.len(), 1);
    assert_eq!(entries[0].name, "photo.jpg");
    assert!(!entries[0].is_dir);
    assert_eq!(entries[0].type_label, "图片");
}

#[test]
fn listing_after_folder_creation_shows_directory_and_no_placeholder() {
    let text = "Path = reports/2024\nFolder = +\nSize = 0\n\n";
    let entries = parse_7z_list_output(text);
    let ns = names(&entries);
    assert!(ns.contains(&"reports/2024/".to_string()));
    assert!(ns.iter().all(|n| !n.contains(".soarzip_placeholder")));
    let d = entries.iter().find(|e| e.name == "reports/2024/").unwrap();
    assert!(d.is_dir);
    assert_eq!(d.type_label, "文件夹");
}

#[test]
fn unparsable_size_defaults_to_zero() {
    let text = "Path = a.txt\nSize = banana\n\n";
    let entries = parse_primary_entries(text);
    assert_eq!(entries.len(), 1);
    assert_eq!(entries[0].size, 0);
}

#[test]
fn overflowing_size_defaults_to_zero() {
    let text = "Path = a.txt\nSize = 18446744073709551616\n\n";
    let entries = parse_primary_entries(text);
    assert_eq!(entries[0].size, 0);
}

#[test]
fn size_with_plus_sign_parses_like_std() {
    let text = "Path = a.txt\nSize = +42\n\n";
    let entries = parse_primary_entries(text);
    assert_eq!(entries[0].size, 42);
}

#[test]
fn largest_size_is_kept_exactly() {
    let text = "Path = a.txt\nSize = 18446744073709551615\n\n";
    let entries = parse_primary_entries(text);
    assert_eq!(entries[0].size, u64::MAX);
}

#[test]
fn attribute_d_marks_directory() {
    let text = "Path = d\nAttributes = D\n\n";
    let entries = parse_primary_entries(text);
    assert_eq!(entries.len(), 1);
    assert_eq!(entries[0].name, "d/");
    assert!(entries[0].is_dir);
    assert_eq!(entries[0].type_label, "文件夹");
}

#[test]
fn carriage_returns_are_trimmed() {
    let text = "Path = a.txt\r\nSize = 7\r\n\r\n";
    let entries = parse_primary_entries(text);
    assert_eq!(entries.len(), 1);
    assert_eq!(entries[0].name, "a.txt");
    assert_eq!(entries[0].size, 7);
}

#[test]
fn empty_input_yields_no_entries() {
    let entries = parse_7z_list_output("");
    assert!(entries.is_empty());
}

#[test]
fn block_without_trailing_blank_line_is_dropped() {
    let text = "Path = kept.txt\nSize = 1\n\nPath = lost.txt\nSize = 2\n";
    let entries = parse_primary_entries(text);
    assert_eq!(names(&entries), vec!["kept.txt"]);
}

#[test]
fn banner_lines_between_blocks_are_ignored() {
    let text = "7-Zip 23.01\nListing archive: x.zip\n--\nPath = a.txt\nSize = 1\n\n----------\nPath = b.txt\nSize = 2\n\n";
    let entries = parse_primary_entries(text);
    assert_eq!(names(&entries), vec!["a.txt", "b.txt"]);
}

#[test]
fn known_extension_is_labelled_case_insensitively() {
    let text = "Path = NOTES.TXT\nSize = 1\n\n";
    let entries = parse_primary_entries(text);
    assert_eq!(entries[0].type_label, "文本文档");
}

#[test]
fn unknown_extension_gets_uppercased_generic_label() {
    let text = "Path = data.xyz\nSize = 1\n\n";
    let entries = parse_primary_entries(text);
    assert_eq!(entries[0].type_label, "XYZ文件");
}

#[test]
fn file_without_extension_gets_generic_label() {
    let text = "Path = Makefile\nSize = 1\n\n";
    let entries = parse_primary_entries(text);
    assert_eq!(entries[0].type_label, "文件");
}

#[test]
fn hidden_file_dot_prefix_is_not_an_extension() {
    let text = "Path = .gitignore\nSize = 1\n\n";
    let entries = parse_primary_entries(text);
    assert_eq!(entries[0].type_label, "文件");
}

#[test]
fn resource_path_names_the_bundled_tool() {
    assert_eq!(
        soar_zip::parser::get_7z_resource_path(),
        Ok("binaries/linux/7z".to_string())
    );
}
