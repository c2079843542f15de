use simpler_notes::app_state::{AppState, EditorMode, LowerPanelTab};

#[test]
fn app_state_starts_empty() {
    let s = AppState::new();
    assert!(s.vault.is_none());
    assert!(s.open_tabs.is_empty());
    assert_eq!(s.editor_mode, EditorMode::Source);
    assert!(s.project_panel_visible);
    assert!(!s.lower_panel_visible);
    assert_eq!(s.lower_panel_active_tab, LowerPanelTab::Search);
}

#[test]
fn open_and_close_files() {
    let mut s = AppState::new();
    assert_eq!(s.open_file("/v/a.md".to_string()), None);
    assert_eq!(s.open_vault(Ok("/v".to_string())), None);
    assert!(s.open_tabs.is_empty());
    assert_eq!(s.open_file("/v/a.md".to_string()), Some("/v/a.md".to_string()));
    assert_eq!(s.open_file("/v/b.md".to_string()), Some("/v/b.md".to_string()));
    assert_eq!(s.open_tabs[1].title, "b");
    s.cycle_editor_mode(EditorMode::Preview);
    assert_eq!(s.open_file("/v/./a.md".to_string()), None);
    assert_eq!(s.active_tab, Some(0));
    assert_eq!(s.editor_mode, EditorMode::Source);
    s.select_tab(1);
    assert_eq!(s.active_tab_path(), Some("/v/b.md".to_string()));
    s.select_tab(9);
    assert_eq!(s.active_tab, Some(1));
    assert_eq!(s.close_tab(0), Some("/v/a.md".to_string()));
    assert_eq!(s.active_tab, Some(0));
    assert_eq!(s.close_tab(3), None);
    assert_eq!(s.close_tab(0), Some("/v/b.md".to_string()));
    assert_eq!(s.active_tab, None);
}

#[test]
fn open_vault_failure_reports() {
    let mut s = AppState::new();
    assert_eq!(s.open_vault(Err("missing".to_string())), Some("Failed to open vault: missing".to_string()));
    assert!(s.vault.is_none());
}

#[test]
fn modes_and_panels() {
    let mut s = AppState::new();
    s.cycle_editor_mode(EditorMode::Split);
    assert_eq!(s.editor_mode, EditorMode::Split);
    s.cycle_editor_mode(EditorMode::Split);
    assert_eq!(s.editor_mode, EditorMode::Source);
    s.toggle_project_panel();
    assert!(!s.project_panel_visible);
    s.toggle_lower_panel();
    assert!(s.lower_panel_visible);
    s.set_lower_panel_tab(LowerPanelTab::Search);
    assert!(!s.lower_panel_visible);
    s.set_lower_panel_tab(LowerPanelTab::Graph);
    assert!(s.lower_panel_visible);
    assert_eq!(s.lower_panel_active_tab, LowerPanelTab::Graph);
    s.open_file("x.md".to_string());
    s.close_vault();
    assert!(s.vault.is_none());
    assert!(s.open_tabs.is_empty());
    assert!(s.active_tab.is_none());
}
