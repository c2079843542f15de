use simpler_notes::diagnostics::Diagnostics;
use simpler_notes::names::FilenameIndex;
use simpler_notes::project_panel::collect_files;

fn listing() -> Vec<(String, Vec<(String, bool)>)> {
    vec![
        (
            "/v".to_string(),
            vec![
                ("/v/zeta.md".to_string(), false),
                ("/v/notes.txt".to_string(), false),
                ("/v/sub".to_string(), true),
                ("/v/alpha.md".to_string(), false),
                ("/v/arch".to_string(), true),
            ],
        ),
        ("/v/sub".to_string(), vec![("/v/sub/deep.md".to_string(), false)]),
    ]
}

#[test]
fn folders_first_then_notes_by_stem() {
    let entries = collect_files(&listing(), "/v", "/v", 0, &vec![], None);
    let labels: Vec<String> = entries.iter().map(|e| e.label.clone()).collect();
    assert_eq!(labels, vec!["📁 arch", "📁 sub", "📄 alpha", "📄 zeta"]);
    assert!(entries[0].is_dir);
    assert_eq!(entries[2].path, "/v/alpha.md");
    assert_eq!(entries[3].depth, 0);
}

#[test]
fn expanded_folder_lists_its_notes() {
    let expanded = vec!["/v/sub".to_string()];
    let entries = collect_files(&listing(), "/v", "/v", 0, &expanded, None);
    let labels: Vec<String> = entries.iter().map(|e| e.label.clone()).collect();
    assert_eq!(labels, vec!["📁 arch", "📂 sub", "📄 deep", "📄 alpha", "📄 zeta"]);
    assert_eq!(entries[2].depth, 1);
    assert_eq!(entries[2].path, "/v/sub/deep.md");
}

#[test]
fn notes_with_diagnostics_are_marked() {
    let mut diags = Diagnostics::new();
    diags.check_file("zeta.md", "[[missing]]", "/v", &FilenameIndex::new());
    let entries = collect_files(&listing(), "/v", "/v", 0, &vec![], Some(&diags));
    let labels: Vec<String> = entries.iter().map(|e| e.label.clone()).collect();
    assert_eq!(labels, vec!["📁 arch", "📁 sub", "📄 alpha", "⚠ zeta"]);
}

#[test]
fn unknown_folder_has_no_lines() {
    assert!(collect_files(&listing(), "/elsewhere", "/v", 0, &vec![], None).is_empty());
}
