//! The state of the desktop window: the open vault, the tabs, the editor
//! mode and the panels. Opening the vault and reading notes is left to the
//! window; each method here decides, and says what the window must do.
use vstd::prelude::*;
use crate::tabs::{OpenTab, tab_views, tab_index, active_after_close, active_path, find_tab, active_tab_path_of, next_active};
use crate::paths::{file_stem, file_stem_of};

verus! {

/// How a note is shown: its source, source and preview side by side, or
/// the preview alone.
#[derive(Clone, Copy, Debug, PartialEq, Eq, Structural)]
pub enum EditorMode {
    Source,
    Split,
    Preview,
}

/// The tabs of the lower panel.
#[derive(Clone, Copy, Debug, PartialEq, Eq, Structural)]
pub enum LowerPanelTab {
    Search,
    Timeline,
    Graph,
    Diagnostics,
}

/// The window's state. The sizes of the panels, which only the window
/// uses, are kept by the window.
pub struct AppState {
    /// The path of the open vault.
    pub vault: Option<String>,
    pub open_tabs: Vec<OpenTab>,
    pub active_tab: Option<usize>,
    pub editor_mode: EditorMode,
    pub project_panel_visible: bool,
    pub search_query: String,
    pub lower_panel_visible: bool,
    pub lower_panel_active_tab: LowerPanelTab,
}

impl AppState {
    /// Does the active tab, if any, name an open tab?
    pub open spec fn active_ok(&self) -> bool {
        self.active_tab matches Some(i) ==> i < self.open_tabs@.len()
    }

    /// No vault, no tabs, the source mode, the project panel shown and the
    /// lower panel hidden on its search tab.
    pub fn new() -> (r: Self)
        ensures
            r.vault is None,
            r.open_tabs@.len() == 0,
            r.active_tab is None,
            r.editor_mode == EditorMode::Source,
            r.project_panel_visible,
            r.search_query@.len() == 0,
            !r.lower_panel_visible,
            r.lower_panel_active_tab == LowerPanelTab::Search,
    {
        AppState {
            vault: None,
            open_tabs: Vec::new(),
            active_tab: None,
            editor_mode: EditorMode::Source,
            project_panel_visible: true,
            search_query: String::new(),
            lower_panel_visible: false,
            lower_panel_active_tab: LowerPanelTab::Search,
        }
    }

    /// Takes the outcome of opening the vault at a path: on success the
    /// vault is open and no tab is; on failure nothing changes and the line
    /// to report is returned.
    pub fn open_vault(&mut self, outcome: Result<String, String>) -> (report: Option<String>)
        ensures
            match outcome {
                Ok(path) => {
                    &&& final(self).vault == Some(path)
                    &&& final(self).open_tabs@.len() == 0
                    &&& final(self).active_tab is None
                    &&& final(self).editor_mode == old(self).editor_mode
                    &&& final(self).project_panel_visible == old(self).project_panel_visible
                    &&& final(self).search_query == old(self).search_query
                    &&& final(self).lower_panel_visible == old(self).lower_panel_visible
                    &&& final(self).lower_panel_active_tab == old(self).lower_panel_active_tab
                    &&& report is None
                },
                Err(e) => {
                    &&& *final(self) == *old(self)
                    &&& report matches Some(line) && line@ == "Failed to open vault: "@ + e@
                },
            },
    {
        match outcome {
            Ok(path) => {
                self.vault = Some(path);
                self.open_tabs = Vec::new();
                self.active_tab = None;
                None
            },
            Err(e) => {
                let mut line = String::from_str("Failed to open vault: ");
                crate::text::push_str(&mut line, e.as_str());
                Some(line)
            },
        }
    }

    /// Opens `path`: the tab already showing it becomes active, or a new
    /// tab titled with the file stem is added and becomes active; the mode
    /// goes back to the source. Returns the path whose note the vault's
    /// buffer must load: that of a new tab while a vault is open.
    pub fn open_file(&mut self, path: String) -> (load: Option<String>)
        ensures
            final(self).active_ok(),
            final(self).editor_mode == EditorMode::Source,
            final(self).vault == old(self).vault,
            final(self).project_panel_visible == old(self).project_panel_visible,
            final(self).search_query == old(self).search_query,
            final(self).lower_panel_visible == old(self).lower_panel_visible,
            final(self).lower_panel_active_tab == old(self).lower_panel_active_tab,
            match tab_index(tab_views(old(self).open_tabs@), path@) {
                Some(i) => {
                    &&& final(self).open_tabs@ == old(self).open_tabs@
                    &&& final(self).active_tab == Some(i as usize)
                    &&& load is None
                },
                None => {
                    &&& tab_views(final(self).open_tabs@) == tab_views(old(self).open_tabs@).push((path@, file_stem(path@)))
                    &&& final(self).active_tab == Some((final(self).open_tabs@.len() - 1) as usize)
                    &&& (if old(self).vault is Some { load matches Some(p) && p@ == path@ } else { load is None })
                },
            },
    {
        self.editor_mode = EditorMode::Source;
        match find_tab(&self.open_tabs, path.as_str()) {
            Some(idx) => {
                self.active_tab = Some(idx);
                None
            },
            None => {
                let title = file_stem_of(path.as_str());
                let load = if self.vault.is_some() { Some(path.clone()) } else { None };
                let ghost before = tab_views(self.open_tabs@);
                let tab = OpenTab { path, title };
                let ghost tv = tab@;
                self.open_tabs.push(tab);
                assert(tab_views(self.open_tabs@) =~= before.push(tv));
                self.active_tab = Some(self.open_tabs.len() - 1);
                load
            },
        }
    }

    /// The path of the active tab.
    pub fn active_tab_path(&self) -> (r: Option<String>)
        ensures
            match active_path(tab_views(self.open_tabs@), self.active_tab) {
                Some(p) => r matches Some(x) && x@ == p,
                None => r is None,
            },
    {
        active_tab_path_of(&self.open_tabs, self.active_tab)
    }

    /// Makes the tab at `idx` active, if there is one.
    pub fn select_tab(&mut self, idx: usize)
        ensures
            old(self).active_ok() ==> final(self).active_ok(),
            final(self).active_tab == if idx < old(self).open_tabs@.len() { Some(idx) } else { old(self).active_tab },
            final(self).open_tabs == old(self).open_tabs,
            final(self).vault == old(self).vault,
            final(self).editor_mode == old(self).editor_mode,
            final(self).project_panel_visible == old(self).project_panel_visible,
            final(self).search_query == old(self).search_query,
            final(self).lower_panel_visible == old(self).lower_panel_visible,
            final(self).lower_panel_active_tab == old(self).lower_panel_active_tab,
    {
        if idx < self.open_tabs.len() {
            self.active_tab = Some(idx);
        }
    }

    /// Closes the tab at `idx`, if there is one, and moves the active tab
    /// (see [`active_after_close`]). Returns the path whose note the
    /// vault's buffer must close: that of the closed tab while a vault is
    /// open.
    pub fn close_tab(&mut self, idx: usize) -> (close: Option<String>)
        ensures
            old(self).active_ok() ==> final(self).active_ok(),
            final(self).vault == old(self).vault,
            final(self).editor_mode == old(self).editor_mode,
            final(self).project_panel_visible == old(self).project_panel_visible,
            final(self).search_query == old(self).search_query,
            final(self).lower_panel_visible == old(self).lower_panel_visible,
            final(self).lower_panel_active_tab == old(self).lower_panel_active_tab,
            if idx < old(self).open_tabs@.len() {
                &&& tab_views(final(self).open_tabs@) == tab_views(old(self).open_tabs@).remove(idx as int)
                &&& final(self).active_tab == active_after_close(old(self).active_tab, idx, final(self).open_tabs@.len())
                &&& (if old(self).vault is Some {
                    close matches Some(p) && p@ == old(self).open_tabs@[idx as int].path@
                } else {
                    close is None
                })
            } else {
                &&& final(self).open_tabs@ == old(self).open_tabs@
                &&& final(self).active_tab == old(self).active_tab
                &&& close is None
            },
    {
        if idx < self.open_tabs.len() {
            let ghost before = tab_views(self.open_tabs@);
            let tab = self.open_tabs.remove(idx);
            assert(tab_views(self.open_tabs@) =~= before.remove(idx as int));
            self.active_tab = next_active(self.active_tab, idx, self.open_tabs.len());
            if self.vault.is_some() {
                Some(tab.path)
            } else {
                None
            }
        } else {
            None
        }
    }

    /// Closes the vault and every tab.
    pub fn close_vault(&mut self)
        ensures
            final(self).vault is None,
            final(self).open_tabs@.len() == 0,
            final(self).active_tab is None,
            final(self).editor_mode == old(self).editor_mode,
            final(self).project_panel_visible == old(self).project_panel_visible,
            final(self).search_query == old(self).search_query,
            final(self).lower_panel_visible == old(self).lower_panel_visible,
            final(self).lower_panel_active_tab == old(self).lower_panel_active_tab,
    {
        self.vault = None;
        self.open_tabs = Vec::new();
        self.active_tab = None;
    }

    /// Switches to the mode `target`, or back to the source when it is
    /// already shown.
    pub fn cycle_editor_mode(&mut self, target: EditorMode)
        ensures
            final(self).editor_mode == if old(self).editor_mode == target { EditorMode::Source } else { target },
            final(self).vault == old(self).vault,
            final(self).open_tabs == old(self).open_tabs,
            final(self).active_tab == old(self).active_tab,
            final(self).project_panel_visible == old(self).project_panel_visible,
            final(self).search_query == old(self).search_query,
            final(self).lower_panel_visible == old(self).lower_panel_visible,
            final(self).lower_panel_active_tab == old(self).lower_panel_active_tab,
    {
        self.editor_mode = if self.editor_mode == target { EditorMode::Source } else { target };
    }

    /// Shows or hides the project panel.
    pub fn toggle_project_panel(&mut self)
        ensures
            final(self).project_panel_visible == !old(self).project_panel_visible,
            final(self).vault == old(self).vault,
            final(self).open_tabs == old(self).open_tabs,
            final(self).active_tab == old(self).active_tab,
            final(self).editor_mode == old(self).editor_mode,
            final(self).search_query == old(self).search_query,
            final(self).lower_panel_visible == old(self).lower_panel_visible,
            final(self).lower_panel_active_tab == old(self).lower_panel_active_tab,
    {
        self.project_panel_visible = !self.project_panel_visible;
    }

    /// Shows or hides the lower panel.
    pub fn toggle_lower_panel(&mut self)
        ensures
            final(self).lower_panel_visible == !old(self).lower_panel_visible,
            final(self).vault == old(self).vault,
            final(self).open_tabs == old(self).open_tabs,
            final(self).active_tab == old(self).active_tab,
            final(self).editor_mode == old(self).editor_mode,
            final(self).project_panel_visible == old(self).project_panel_visible,
            final(self).search_query == old(self).search_query,
            final(self).lower_panel_active_tab == old(self).lower_panel_active_tab,
    {
        self.lower_panel_visible = !self.lower_panel_visible;
    }

    /// Hides the lower panel when `tab` is the one shown, else shows the
    /// panel on `tab`.
    pub fn set_lower_panel_tab(&mut self, tab: LowerPanelTab)
        ensures
            old(self).lower_panel_active_tab == tab && old(self).lower_panel_visible ==> {
                &&& !final(self).lower_panel_visible
                &&& final(self).lower_panel_active_tab == tab
            },
            !(old(self).lower_panel_active_tab == tab && old(self).lower_panel_visible) ==> {
                &&& final(self).lower_panel_visible
                &&& final(self).lower_panel_active_tab == tab
            },
            final(self).vault == old(self).vault,
            final(self).open_tabs == old(self).open_tabs,
            final(self).active_tab == old(self).active_tab,
            final(self).editor_mode == old(self).editor_mode,
            final(self).project_panel_visible == old(self).project_panel_visible,
            final(self).search_query == old(self).search_query,
    {
        if self.lower_panel_active_tab == tab && self.lower_panel_visible {
            self.lower_panel_visible = false;
        } else {
            self.lower_panel_active_tab = tab;
            self.lower_panel_visible = true;
        }
    }
}

} // verus!
