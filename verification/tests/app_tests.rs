use simpler_notes::app::{diagnostic_line, shortcut, App, Effect, EditorArea, EditorMode, LowerPanelTab, Message, Pane, SearchPanel, TitleButton, VaultSearchResult};

fn opened_app() -> App {
    let mut app = App::new();
    assert!(matches!(app.update(Message::VaultLoaded(Ok("/v".to_string()))), Effect::Nothing));
    app
}

#[test]
fn new_app_state() {
    let app = App::new();
    assert!(!app.is_vault_open());
    assert!(app.project_panel_visible);
    assert_eq!(app.editor_mode, EditorMode::Source);
    assert!(app.open_tabs.is_empty());
    assert!(app.active_tab.is_none());
    assert!(!app.lower_panel_visible);
    assert_eq!(app.lower_panel_active_tab, LowerPanelTab::Search);
}

#[test]
fn open_vault_flow() {
    let mut app = App::new();
    assert!(matches!(app.update(Message::OpenVault), Effect::PickFolder));
    match app.update(Message::VaultOpened(Ok("/v".to_string()))) {
        Effect::LoadVault(p) => assert_eq!(p, "/v"),
        _ => panic!("expected LoadVault"),
    }
    match app.update(Message::VaultOpened(Err("Dialog closed".to_string()))) {
        Effect::Report(l) => assert_eq!(l, "Vault dialog error: Dialog closed"),
        _ => panic!("expected Report"),
    }
    match app.update(Message::VaultLoaded(Err("nope".to_string()))) {
        Effect::Report(l) => assert_eq!(l, "Failed to open vault: nope"),
        _ => panic!("expected Report"),
    }
    assert!(!app.is_vault_open());
    app.update(Message::VaultLoaded(Ok("/v".to_string())));
    assert!(app.is_vault_open());
}

#[test]
fn toggles_and_preview_cycle() {
    let mut app = App::new();
    app.update(Message::TogglePreview);
    assert_eq!(app.editor_mode, EditorMode::Split);
    app.update(Message::TogglePreview);
    assert_eq!(app.editor_mode, EditorMode::Preview);
    app.update(Message::TogglePreview);
    assert_eq!(app.editor_mode, EditorMode::Source);
    app.update(Message::ToggleProjectPanel);
    assert!(!app.project_panel_visible);
    app.update(Message::ToggleLowerPanel);
    assert!(app.lower_panel_visible);
    app.update(Message::ToggleLowerPanel);
    app.update(Message::SelectLowerTab(LowerPanelTab::Diagnostics));
    assert!(app.lower_panel_visible);
    assert_eq!(app.lower_panel_active_tab, LowerPanelTab::Diagnostics);
}

#[test]
fn file_selected_opens_tab_once() {
    let mut app = opened_app();
    match app.update(Message::FileSelected("/v/notes/a.md".to_string())) {
        Effect::LoadEditor(p) => assert_eq!(p, "/v/notes/a.md"),
        _ => panic!("expected LoadEditor"),
    }
    assert_eq!(app.open_tabs.len(), 1);
    assert_eq!(app.open_tabs[0].title, "a");
    assert_eq!(app.active_tab, Some(0));
    app.update(Message::FileSelected("/v/b.md".to_string()));
    assert_eq!(app.active_tab, Some(1));
    assert!(matches!(app.update(Message::FileSelected("/v/notes//a.md".to_string())), Effect::Nothing));
    assert_eq!(app.open_tabs.len(), 2);
    assert_eq!(app.active_tab, Some(0));
    assert_eq!(app.active_tab_path(), Some("/v/notes/a.md".to_string()));
}

#[test]
fn tab_closing_moves_active() {
    let mut app = opened_app();
    for p in ["/v/a.md", "/v/b.md", "/v/c.md"] {
        app.update(Message::FileSelected(p.to_string()));
    }
    app.update(Message::TabSelected(2));
    match app.update(Message::TabClosed(0)) {
        Effect::DropEditor(p) => assert_eq!(p, "/v/a.md"),
        _ => panic!("expected DropEditor"),
    }
    assert_eq!(app.active_tab, Some(1));
    app.update(Message::TabClosed(1));
    assert_eq!(app.active_tab, Some(0));
    assert!(matches!(app.update(Message::TabClosed(5)), Effect::Nothing));
    app.update(Message::CloseCurrentTab);
    assert!(app.open_tabs.is_empty());
    assert_eq!(app.active_tab, None);
    assert!(app.editors.is_empty());
    assert!(matches!(app.update(Message::CloseCurrentTab), Effect::Nothing));
}

#[test]
fn editor_actions_and_save_need_an_editor() {
    let mut app = App::new();
    assert!(matches!(app.update(Message::EditorAction), Effect::Nothing));
    app.update(Message::FileSelected("/v/a.md".to_string()));
    match app.update(Message::EditorAction) {
        Effect::Edit(p) => assert_eq!(p, "/v/a.md"),
        _ => panic!("expected Edit"),
    }
    assert!(matches!(app.update(Message::Save), Effect::Nothing));
    app.update(Message::VaultLoaded(Ok("/v".to_string())));
    match app.update(Message::Save) {
        Effect::Save(p) => assert_eq!(p, "/v/a.md"),
        _ => panic!("expected Save"),
    }
}

#[test]
fn search_flow() {
    let mut app = App::new();
    app.update(Message::SearchQueryChanged("tag:x".to_string()));
    assert!(matches!(app.update(Message::Search), Effect::Nothing));
    app.update(Message::VaultLoaded(Ok("/v".to_string())));
    match app.update(Message::Search) {
        Effect::Search(q) => assert_eq!(q, "tag:x"),
        _ => panic!("expected Search"),
    }
    app.update(Message::SearchResultsUpdated(Err("bad".to_string())));
    assert_eq!(app.search_error, Some("bad".to_string()));
    let hits = vec![VaultSearchResult { path: "a.md".to_string(), title: "A".to_string() }];
    app.update(Message::SearchResultsUpdated(Ok(hits)));
    assert!(app.search_error.is_none());
    assert_eq!(app.search_results.len(), 1);
    match app.update(Message::SearchResultClicked("a.md".to_string())) {
        Effect::LoadEditor(p) => assert_eq!(p, "/v/a.md"),
        _ => panic!("expected LoadEditor"),
    }
    match app.update(Message::LinkClicked("b.md".to_string())) {
        Effect::OpenIfExists(p) => assert_eq!(p, "/v/b.md"),
        _ => panic!("expected OpenIfExists"),
    }
}

#[test]
fn toggle_dir_and_close_vault() {
    let mut app = opened_app();
    app.update(Message::ToggleDir("/v/sub".to_string()));
    assert_eq!(app.expanded_dirs.len(), 1);
    app.update(Message::ToggleDir("/v/sub/".to_string()));
    assert!(app.expanded_dirs.is_empty());
    app.update(Message::FileSelected("/v/a.md".to_string()));
    app.update(Message::SearchQueryChanged("q".to_string()));
    app.update(Message::ToggleLowerPanel);
    assert!(matches!(app.update(Message::CloseVault), Effect::DropAllEditors));
    assert!(!app.is_vault_open());
    assert!(app.open_tabs.is_empty());
    assert!(app.search_query.is_empty());
    assert!(!app.lower_panel_visible);
}

#[test]
fn keyboard_shortcuts() {
    assert!(matches!(shortcut("o", true), Some(Message::OpenVault)));
    assert!(matches!(shortcut("w", true), Some(Message::CloseCurrentTab)));
    assert!(matches!(shortcut("b", true), Some(Message::ToggleProjectPanel)));
    assert!(matches!(shortcut("p", true), Some(Message::TogglePreview)));
    assert!(matches!(shortcut("f", true), Some(Message::ToggleLowerPanel)));
    assert!(shortcut("o", false).is_none());
    assert!(shortcut("x", true).is_none());
}

#[test]
fn search_panel_states() {
    let mut app = App::new();
    assert!(matches!(app.search_panel(), SearchPanel::Prompt));
    app.update(Message::VaultLoaded(Ok("/v".to_string())));
    app.update(Message::SearchQueryChanged("q".to_string()));
    assert!(matches!(app.search_panel(), SearchPanel::NoResults));
    app.update(Message::SearchResultsUpdated(Err("boom".to_string())));
    assert!(matches!(app.search_panel(), SearchPanel::Failed(e) if e == "boom"));
    app.update(Message::SearchResultsUpdated(Ok(vec![VaultSearchResult { path: "a.md".to_string(), title: "a".to_string() }])));
    assert!(matches!(app.search_panel(), SearchPanel::Results));
    assert_eq!(diagnostic_line("Broken link: x", 12), "Broken link: x (offset 12)");
}

#[test]
fn window_layout_follows_the_state() {
    let app = App::new();
    let l = app.layout();
    assert_eq!(l.buttons, vec![TitleButton::OpenVault]);
    assert_eq!(l.panes, vec![Pane::Editor]);
    assert!(!l.lower_panel);
    assert_eq!(app.editor_area(), EditorArea::Welcome);

    let mut app = opened_app();
    let l = app.layout();
    assert_eq!(l.buttons, vec![TitleButton::CloseVault, TitleButton::HidePanel, TitleButton::Preview, TitleButton::Search]);
    assert_eq!(l.panes, vec![Pane::ProjectPanel, Pane::Editor]);
    assert_eq!(app.editor_area(), EditorArea::VaultOpen);

    app.update(Message::TogglePreview);
    assert_eq!(app.editor_mode, EditorMode::Split);
    app.update(Message::ToggleProjectPanel);
    app.update(Message::ToggleLowerPanel);
    let l = app.layout();
    assert_eq!(l.buttons, vec![TitleButton::CloseVault, TitleButton::ShowPanel, TitleButton::Split, TitleButton::HideLower]);
    assert_eq!(l.panes, vec![Pane::Editor, Pane::Preview]);
    assert!(l.lower_panel);

    app.update(Message::TogglePreview);
    assert_eq!(app.layout().panes, vec![Pane::Preview]);
    assert_eq!(app.layout().buttons[2], TitleButton::Edit);

    app.update(Message::FileSelected("/v/a.md".to_string()));
    assert_eq!(app.editor_area(), EditorArea::Editing { has_editor: true });
}

#[test]
fn tabs_and_editors_stay_in_step() {
    let mut app = opened_app();
    app.update(Message::FileSelected("/v/a.md".to_string()));
    app.update(Message::FileSelected("/v/b.md".to_string()));
    app.update(Message::FileSelected("/v//a.md".to_string()));
    assert_eq!(app.open_tabs.len(), 2);
    assert_eq!(app.editors.len(), 2);
    assert_eq!(app.active_tab, Some(0));
    app.update(Message::CloseCurrentTab);
    assert_eq!(app.open_tabs.len(), 1);
    assert_eq!(app.editors.len(), 1);
    assert_eq!(app.open_tabs[0].path, "/v/b.md");
}
