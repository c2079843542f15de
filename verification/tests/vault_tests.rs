use simpler_notes::git::diff_line;
use simpler_notes::vault::VaultConfig;

#[test]
fn default_config() {
    let c = VaultConfig::default();
    assert_eq!(c.path, ".");
    assert_eq!(c.extensions, vec!["md".to_string()]);
}

#[test]
fn includes_by_extension() {
    let c = VaultConfig::default();
    assert!(c.includes("/v/a.md"));
    assert!(c.includes("notes/b.tar.md"));
    assert!(!c.includes("/v/a.txt"));
    assert!(!c.includes("/v/.md"));
    assert!(!c.includes("/v/README"));
    let none = VaultConfig { path: ".".to_string(), extensions: vec!["".to_string()] };
    assert!(none.includes("/v/README"));
}

#[test]
fn diff_lines_are_marked() {
    assert_eq!(diff_line('+', "modified\n"), "+modified\n");
    assert_eq!(diff_line('-', "line2\n"), "-line2\n");
    assert_eq!(diff_line(' ', "line1\n"), " line1\n");
    assert_eq!(diff_line('F', "diff --git"), " diff --git");
}
