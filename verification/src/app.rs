//! The state machine of the notes window: each message from the window
//! moves the state and names the one thing the window must then do (show
//! a dialog, read a note into an editor, run a search, ...), whose outcome
//! comes back as a further message.
use vstd::prelude::*;
use crate::tabs::{OpenTab, TabView, tab_views, tab_index, tab_from, active_after_close, active_path, find_tab, active_tab_path_of, next_active};
use crate::paths::{path_key, path_key_of, file_stem, file_stem_of, is_rooted, join_path, join_path_of};

verus! {

/// How a note is shown: its source, source and preview side by side, or
/// the preview alone.
#[derive(Clone, Copy, Debug, PartialEq, Eq, Structural)]
pub enum EditorMode {
    Source,
    Split,
    Preview,
}

/// The tabs of the lower panel.
#[derive(Clone, Copy, Debug, PartialEq, Eq, Structural)]
pub enum LowerPanelTab {
    Search,
    Diagnostics,
}

/// A note a search found: its path and title.
#[derive(Clone, Debug)]
pub struct VaultSearchResult {
    pub path: String,
    pub title: String,
}

/// What the window reports. The editor's own edits stay with the window:
/// `EditorAction` only says that one is waiting.
pub enum Message {
    OpenVault,
    /// The folder dialog's answer: the folder, or why there is none.
    VaultOpened(Result<String, String>),
    /// The outcome of opening the vault at the chosen folder.
    VaultLoaded(Result<String, String>),
    CloseVault,
    ToggleProjectPanel,
    TogglePreview,
    ToggleLowerPanel,
    SelectLowerTab(LowerPanelTab),
    FileSelected(String),
    TabSelected(usize),
    TabClosed(usize),
    EditorAction,
    SearchQueryChanged(String),
    Search,
    SearchResultsUpdated(Result<Vec<VaultSearchResult>, String>),
    CloseCurrentTab,
    Save,
    ToggleDir(String),
    LinkClicked(String),
    SearchResultClicked(String),
}

/// What the window must do after a message.
pub enum Effect {
    Nothing,
    /// Ask for a folder; the answer comes back as `VaultOpened`.
    PickFolder,
    /// Open the vault at the path; the outcome comes back as `VaultLoaded`.
    LoadVault(String),
    /// Print the line on standard error.
    Report(String),
    /// Read the note at the path into a new editor.
    LoadEditor(String),
    /// Drop the editor of the path.
    DropEditor(String),
    /// Drop every editor.
    DropAllEditors,
    /// Apply the waiting editor action to the editor of the path.
    Edit(String),
    /// Run the query in the vault; the results come back as
    /// `SearchResultsUpdated`.
    Search(String),
    /// Write the text of the editor of the path to the vault.
    Save(String),
    /// If a file exists at the path, send `FileSelected` with it.
    OpenIfExists(String),
}

/// The window's state. The vault itself, the editors' contents and the
/// widgets stay with the window; here are the vault's path and the paths
/// that have an editor.
pub struct App {
    pub vault: Option<String>,
    pub project_panel_visible: bool,
    pub editor_mode: EditorMode,
    pub open_tabs: Vec<OpenTab>,
    pub active_tab: Option<usize>,
    pub editors: Vec<String>,
    pub search_query: String,
    pub search_results: Vec<VaultSearchResult>,
    pub search_error: Option<String>,
    pub lower_panel_visible: bool,
    pub lower_panel_active_tab: LowerPanelTab,
    pub expanded_dirs: Vec<String>,
}

/// The window's state as plain values; paths that name sets (editors,
/// expanded folders) are kept by their keys, as std's `PathBuf` compares.
pub ghost struct AppView {
    pub vault: Option<Seq<char>>,
    pub project_panel_visible: bool,
    pub editor_mode: EditorMode,
    pub open_tabs: Seq<TabView>,
    pub active_tab: Option<usize>,
    pub editors: Set<Seq<char>>,
    pub search_query: Seq<char>,
    pub search_results: Seq<(Seq<char>, Seq<char>)>,
    pub search_error: Option<Seq<char>>,
    pub lower_panel_visible: bool,
    pub lower_panel_active_tab: LowerPanelTab,
    pub expanded_dirs: Set<Seq<char>>,
}

/// A message as plain values.
pub ghost enum MessageView {
    OpenVault,
    VaultOpened(Result<Seq<char>, Seq<char>>),
    VaultLoaded(Result<Seq<char>, Seq<char>>),
    CloseVault,
    ToggleProjectPanel,
    TogglePreview,
    ToggleLowerPanel,
    SelectLowerTab(LowerPanelTab),
    FileSelected(Seq<char>),
    TabSelected(usize),
    TabClosed(usize),
    EditorAction,
    SearchQueryChanged(Seq<char>),
    Search,
    SearchResultsUpdated(Result<Seq<(Seq<char>, Seq<char>)>, Seq<char>>),
    CloseCurrentTab,
    Save,
    ToggleDir(Seq<char>),
    LinkClicked(Seq<char>),
    SearchResultClicked(Seq<char>),
}

/// An effect as plain values.
pub ghost enum EffectView {
    Nothing,
    PickFolder,
    LoadVault(Seq<char>),
    Report(Seq<char>),
    LoadEditor(Seq<char>),
    DropEditor(Seq<char>),
    DropAllEditors,
    Edit(Seq<char>),
    Search(Seq<char>),
    Save(Seq<char>),
    OpenIfExists(Seq<char>),
}

/// The keys of the paths `v`.
pub open spec fn key_set(v: Seq<String>) -> Set<Seq<char>> {
    Set::new(|k: Seq<char>| exists|i: int| 0 <= i < v.len() && #[trigger] path_key(v[i]@) == k)
}

/// The search results as plain values.
pub open spec fn result_views(v: Seq<VaultSearchResult>) -> Seq<(Seq<char>, Seq<char>)> {
    Seq::new(v.len(), |i: int| (v[i].path@, v[i].title@))
}

impl View for App {
    type V = AppView;

    open spec fn view(&self) -> AppView {
        AppView {
            vault: match self.vault {
                Some(v) => Some(v@),
                None => None,
            },
            project_panel_visible: self.project_panel_visible,
            editor_mode: self.editor_mode,
            open_tabs: tab_views(self.open_tabs@),
            active_tab: self.active_tab,
            editors: key_set(self.editors@),
            search_query: self.search_query@,
            search_results: result_views(self.search_results@),
            search_error: match self.search_error {
                Some(e) => Some(e@),
                None => None,
            },
            lower_panel_visible: self.lower_panel_visible,
            lower_panel_active_tab: self.lower_panel_active_tab,
            expanded_dirs: key_set(self.expanded_dirs@),
        }
    }
}

/// A text result as plain values.
pub open spec fn text_result(r: Result<String, String>) -> Result<Seq<char>, Seq<char>> {
    match r {
        Ok(x) => Ok(x@),
        Err(e) => Err(e@),
    }
}

impl View for Message {
    type V = MessageView;

    open spec fn view(&self) -> MessageView {
        match self {
            Message::OpenVault => MessageView::OpenVault,
            Message::VaultOpened(r) => MessageView::VaultOpened(text_result(*r)),
            Message::VaultLoaded(r) => MessageView::VaultLoaded(text_result(*r)),
            Message::CloseVault => MessageView::CloseVault,
            Message::ToggleProjectPanel => MessageView::ToggleProjectPanel,
            Message::TogglePreview => MessageView::TogglePreview,
            Message::ToggleLowerPanel => MessageView::ToggleLowerPanel,
            Message::SelectLowerTab(t) => MessageView::SelectLowerTab(*t),
            Message::FileSelected(p) => MessageView::FileSelected(p@),
            Message::TabSelected(i) => MessageView::TabSelected(*i),
            Message::TabClosed(i) => MessageView::TabClosed(*i),
            Message::EditorAction => MessageView::EditorAction,
            Message::SearchQueryChanged(q) => MessageView::SearchQueryChanged(q@),
            Message::Search => MessageView::Search,
            Message::SearchResultsUpdated(r) => MessageView::SearchResultsUpdated(match r {
                Ok(v) => Ok(result_views(v@)),
                Err(e) => Err(e@),
            }),
            Message::CloseCurrentTab => MessageView::CloseCurrentTab,
            Message::Save => MessageView::Save,
            Message::ToggleDir(p) => MessageView::ToggleDir(p@),
            Message::LinkClicked(t) => MessageView::LinkClicked(t@),
            Message::SearchResultClicked(p) => MessageView::SearchResultClicked(p@),
        }
    }
}

impl View for Effect {
    type V = EffectView;

    open spec fn view(&self) -> EffectView {
        match self {
            Effect::Nothing => EffectView::Nothing,
            Effect::PickFolder => EffectView::PickFolder,
            Effect::LoadVault(p) => EffectView::LoadVault(p@),
            Effect::Report(l) => EffectView::Report(l@),
            Effect::LoadEditor(p) => EffectView::LoadEditor(p@),
            Effect::DropEditor(p) => EffectView::DropEditor(p@),
            Effect::DropAllEditors => EffectView::DropAllEditors,
            Effect::Edit(p) => EffectView::Edit(p@),
            Effect::Search(q) => EffectView::Search(q@),
            Effect::Save(p) => EffectView::Save(p@),
            Effect::OpenIfExists(p) => EffectView::OpenIfExists(p@),
        }
    }
}

/// Is the active tab, if any, one of the tabs?
pub open spec fn view_wf(s: AppView) -> bool {
    s.active_tab matches Some(i) ==> i < s.open_tabs.len()
}

/// Opening `path`: its tab becomes active, or a new tab titled with its
/// stem is added and made active, with an editor read from the file when
/// the path has none yet.
pub open spec fn select_file(s: AppView, path: Seq<char>) -> (AppView, EffectView) {
    match tab_index(s.open_tabs, path) {
        Some(i) => (AppView { active_tab: Some(i as usize), ..s }, EffectView::Nothing),
        None => {
            let tabs = s.open_tabs.push((path, file_stem(path)));
            let st = AppView {
                open_tabs: tabs,
                active_tab: Some((tabs.len() - 1) as usize),
                editors: s.editors.insert(path_key(path)),
                ..s
            };
            (st, if s.editors.contains(path_key(path)) { EffectView::Nothing } else { EffectView::LoadEditor(path) })
        },
    }
}

/// Closing the tab at `idx` (an existing one) and dropping its editor.
pub open spec fn close_at(s: AppView, idx: usize) -> (AppView, EffectView) {
    let path = s.open_tabs[idx as int].0;
    let tabs = s.open_tabs.remove(idx as int);
    (
        AppView {
            open_tabs: tabs,
            active_tab: active_after_close(s.active_tab, idx, tabs.len()),
            editors: s.editors.remove(path_key(path)),
            ..s
        },
        EffectView::DropEditor(path),
    )
}

/// The state after message `m`, and what the window must do.
pub open spec fn step(s: AppView, m: MessageView) -> (AppView, EffectView) {
    match m {
        MessageView::OpenVault => (s, EffectView::PickFolder),
        MessageView::VaultOpened(r) => match r {
            Ok(p) => (s, EffectView::LoadVault(p)),
            Err(e) => (s, EffectView::Report("Vault dialog error: "@ + e)),
        },
        MessageView::VaultLoaded(r) => match r {
            Ok(p) => (AppView { vault: Some(p), ..s }, EffectView::Nothing),
            Err(e) => (s, EffectView::Report("Failed to open vault: "@ + e)),
        },
        MessageView::CloseVault => (
            AppView {
                vault: None,
                open_tabs: seq![],
                active_tab: None,
                editors: Set::empty(),
                search_query: seq![],
                lower_panel_visible: false,
                ..s
            },
            EffectView::DropAllEditors,
        ),
        MessageView::ToggleProjectPanel => (AppView { project_panel_visible: !s.project_panel_visible, ..s }, EffectView::Nothing),
        MessageView::TogglePreview => (
            AppView {
                editor_mode: match s.editor_mode {
                    EditorMode::Source => EditorMode::Split,
                    EditorMode::Split => EditorMode::Preview,
                    EditorMode::Preview => EditorMode::Source,
                },
                ..s
            },
            EffectView::Nothing,
        ),
        MessageView::ToggleLowerPanel => (AppView { lower_panel_visible: !s.lower_panel_visible, ..s }, EffectView::Nothing),
        MessageView::SelectLowerTab(t) => (AppView { lower_panel_active_tab: t, lower_panel_visible: true, ..s }, EffectView::Nothing),
        MessageView::FileSelected(p) => select_file(s, p),
        MessageView::TabSelected(i) => if i < s.open_tabs.len() {
            (AppView { active_tab: Some(i), ..s }, EffectView::Nothing)
        } else {
            (s, EffectView::Nothing)
        },
        MessageView::TabClosed(i) => if i < s.open_tabs.len() {
            close_at(s, i)
        } else {
            (s, EffectView::Nothing)
        },
        MessageView::EditorAction => match active_path(s.open_tabs, s.active_tab) {
            Some(p) => if s.editors.contains(path_key(p)) { (s, EffectView::Edit(p)) } else { (s, EffectView::Nothing) },
            None => (s, EffectView::Nothing),
        },
        MessageView::SearchQueryChanged(q) => (AppView { search_query: q, ..s }, EffectView::Nothing),
        MessageView::Search => if s.vault is Some { (s, EffectView::Search(s.search_query)) } else { (s, EffectView::Nothing) },
        MessageView::SearchResultsUpdated(r) => match r {
            Ok(v) => (AppView { search_results: v, search_error: None, ..s }, EffectView::Nothing),
            Err(e) => (AppView { search_error: Some(e), ..s }, EffectView::Nothing),
        },
        MessageView::CloseCurrentTab => match s.active_tab {
            Some(a) => close_at(s, a),
            None => (s, EffectView::Nothing),
        },
        MessageView::Save => match active_path(s.open_tabs, s.active_tab) {
            Some(p) => if s.editors.contains(path_key(p)) && s.vault is Some {
                (s, EffectView::Save(p))
            } else {
                (s, EffectView::Nothing)
            },
            None => (s, EffectView::Nothing),
        },
        MessageView::ToggleDir(p) => if s.expanded_dirs.contains(path_key(p)) {
            (AppView { expanded_dirs: s.expanded_dirs.remove(path_key(p)), ..s }, EffectView::Nothing)
        } else {
            (AppView { expanded_dirs: s.expanded_dirs.insert(path_key(p)), ..s }, EffectView::Nothing)
        },
        MessageView::LinkClicked(t) => match s.vault {
            Some(v) => (s, EffectView::OpenIfExists(join_path(v, t))),
            None => (s, EffectView::Nothing),
        },
        MessageView::SearchResultClicked(p) => match s.vault {
            Some(v) => select_file(s, if is_rooted(p) { p } else { join_path(v, p) }),
            None => (s, EffectView::Nothing),
        },
    }
}

/// Is there a path in `v` with the key `k`?
fn has_key(v: &Vec<String>, k: &String) -> (r: bool)
    requires
        exists|p: Seq<char>| k@ == path_key(p),
    ensures
        r == key_set(v@).contains(k@),
{
    let mut i: usize = 0;
    while i < v.len()
        invariant
            i <= v@.len(),
            forall|j: int| 0 <= j < i ==> path_key(v@[j]@) != k@,
        decreases v@.len() - i,
    {
        let kk = path_key_of(v[i].as_str());
        if kk == *k {
            assert(path_key(v@[i as int]@) == k@);
            return true;
        }
        i = i + 1;
    }
    false
}

/// `v` without the paths whose key is `k`.
fn without_key(v: Vec<String>, k: &String) -> (r: Vec<String>)
    ensures
        key_set(r@) == key_set(v@).remove(k@),
{
    let mut r: Vec<String> = Vec::new();
    let mut i: usize = 0;
    while i < v.len()
        invariant
            i <= v@.len(),
            key_set(r@) == key_set(v@.take(i as int)).remove(k@),
        decreases v@.len() - i,
    {
        let kk = path_key_of(v[i].as_str());
        let ghost before = r@;
        if kk != *k {
            r.push(v[i].clone());
        }
        proof {
            let t0 = v@.take(i as int);
            let t1 = v@.take(i + 1);
            assert forall|x: Seq<char>| #[trigger] key_set(r@).contains(x) <==> key_set(t1).remove(k@).contains(x) by {
                if key_set(r@).contains(x) {
                    let j = choose|j: int| 0 <= j < r@.len() && #[trigger] path_key(r@[j]@) == x;
                    if j < before.len() {
                        assert(key_set(before).contains(x));
                        let q = choose|q: int| 0 <= q < t0.len() && #[trigger] path_key(t0[q]@) == x;
                        assert(t1[q] == t0[q]);
                    } else {
                        assert(t1[i as int] == v@[i as int]);
                    }
                }
                if key_set(t1).remove(k@).contains(x) {
                    let q = choose|q: int| 0 <= q < t1.len() && #[trigger] path_key(t1[q]@) == x;
                    if q < i {
                        assert(t0[q] == t1[q]);
                        assert(key_set(t0).contains(x));
                        assert(key_set(before).contains(x));
                        let j = choose|j: int| 0 <= j < before.len() && #[trigger] path_key(before[j]@) == x;
                        assert(r@[j] == before[j]);
                    } else {
                        assert(r@[before.len() as int] == v@[i as int]);
                    }
                }
            }
            assert(key_set(r@) =~= key_set(t1).remove(k@));
        }
        i = i + 1;
    }
    assert(v@.take(v@.len() as int) =~= v@);
    r
}

/// Adds `p` to `v`: the key set gains the key of `p`.
fn with_path(v: &mut Vec<String>, p: String)
    ensures
        key_set(final(v)@) == key_set(old(v)@).insert(path_key(p@)),
{
    let ghost before = v@;
    let ghost pv = p@;
    v.push(p);
    proof {
        assert forall|x: Seq<char>| #[trigger] key_set(v@).contains(x) <==> key_set(before).insert(path_key(pv)).contains(x) by {
            if key_set(v@).contains(x) {
                let j = choose|j: int| 0 <= j < v@.len() && #[trigger] path_key(v@[j]@) == x;
                if j < before.len() {
                    assert(v@[j] == before[j]);
                }
            }
            if key_set(before).contains(x) {
                let j = choose|j: int| 0 <= j < before.len() && #[trigger] path_key(before[j]@) == x;
                assert(v@[j] == before[j]);
            }
            if x == path_key(pv) {
                assert(path_key(v@[before.len() as int]@) == x);
            }
        }
        assert(key_set(v@) =~= key_set(before).insert(path_key(pv)));
    }
}

impl App {
    /// No vault, no tab, no editor, the source mode, the project panel
    /// shown and the lower panel hidden on its search tab.
    pub fn new() -> (r: Self)
        ensures
            r@ == (AppView {
                vault: None,
                project_panel_visible: true,
                editor_mode: EditorMode::Source,
                open_tabs: seq![],
                active_tab: None,
                editors: Set::empty(),
                search_query: seq![],
                search_results: seq![],
                search_error: None,
                lower_panel_visible: false,
                lower_panel_active_tab: LowerPanelTab::Search,
                expanded_dirs: Set::empty(),
            }),
            app_inv(r@),
    {
        let r = App {
            vault: None,
            project_panel_visible: true,
            editor_mode: EditorMode::Source,
            open_tabs: Vec::new(),
            active_tab: None,
            editors: Vec::new(),
            search_query: String::new(),
            search_results: Vec::new(),
            search_error: None,
            lower_panel_visible: false,
            lower_panel_active_tab: LowerPanelTab::Search,
            expanded_dirs: Vec::new(),
        };
        assert(key_set(r.editors@) =~= Set::empty());
        assert(key_set(r.expanded_dirs@) =~= Set::empty());
        assert(tab_views(r.open_tabs@) =~= seq![]);
        assert(result_views(r.search_results@) =~= seq![]);
        assert(tab_keys(tab_views(r.open_tabs@)) =~= Set::<Seq<char>>::empty());
        r
    }

    /// Is a vault open?
    pub fn is_vault_open(&self) -> (r: bool)
        ensures
            r == self.vault is Some,
    {
        self.vault.is_some()
    }

    /// The path of the active tab.
    pub fn active_tab_path(&self) -> (r: Option<String>)
        ensures
            match active_path(self@.open_tabs, self.active_tab) {
                Some(p) => r matches Some(x) && x@ == p,
                None => r is None,
            },
    {
        active_tab_path_of(&self.open_tabs, self.active_tab)
    }

    /// Opens `path` (see [`select_file`]).
    fn select_file(&mut self, path: String) -> (e: Effect)
        requires
            view_wf(old(self)@),
        ensures
            (final(self)@, e@) == select_file(old(self)@, path@),
            view_wf(final(self)@),
    {
        match find_tab(&self.open_tabs, path.as_str()) {
            Some(i) => {
                self.active_tab = Some(i);
                Effect::Nothing
            },
            None => {
                let key = path_key_of(path.as_str());
                let known = has_key(&self.editors, &key);
                with_path(&mut self.editors, path.clone());
                let title = file_stem_of(path.as_str());
                let ghost before = tab_views(self.open_tabs@);
                let tab = OpenTab { path: path.clone(), title };
                let ghost tv = tab@;
                self.open_tabs.push(tab);
                assert(tab_views(self.open_tabs@) =~= before.push(tv));
                self.active_tab = Some(self.open_tabs.len() - 1);
                if known { Effect::Nothing } else { Effect::LoadEditor(path) }
            },
        }
    }

    /// Closes the tab at `idx`, an existing one (see [`close_at`]).
    fn close_at(&mut self, idx: usize) -> (e: Effect)
        requires
            idx < old(self).open_tabs@.len(),
            view_wf(old(self)@),
        ensures
            (final(self)@, e@) == close_at(old(self)@, idx),
            view_wf(final(self)@),
    {
        let ghost before = tab_views(self.open_tabs@);
        let tab = self.open_tabs.remove(idx);
        assert(tab_views(self.open_tabs@) =~= before.remove(idx as int));
        let key = path_key_of(tab.path.as_str());
        let mut eds: Vec<String> = Vec::new();
        std::mem::swap(&mut eds, &mut self.editors);
        self.editors = without_key(eds, &key);
        self.active_tab = next_active(self.active_tab, idx, self.open_tabs.len());
        Effect::DropEditor(tab.path)
    }

    /// Handles `message` (see [`step`]): moves the state and returns what
    /// the window must do next.
    pub fn update(&mut self, message: Message) -> (e: Effect)
        requires
            view_wf(old(self)@),
        ensures
            (final(self)@, e@) == step(old(self)@, message@),
            view_wf(final(self)@),
    {
        match message {
            Message::OpenVault => Effect::PickFolder,
            Message::VaultOpened(r) => match r {
                Ok(p) => Effect::LoadVault(p),
                Err(e) => {
                    let mut line = String::from_str("Vault dialog error: ");
                    crate::text::push_str(&mut line, e.as_str());
                    Effect::Report(line)
                },
            },
            Message::VaultLoaded(r) => match r {
                Ok(p) => {
                    self.vault = Some(p);
                    Effect::Nothing
                },
                Err(e) => {
                    let mut line = String::from_str("Failed to open vault: ");
                    crate::text::push_str(&mut line, e.as_str());
                    Effect::Report(line)
                },
            },
            Message::CloseVault => {
                self.vault = None;
                self.open_tabs = Vec::new();
                self.active_tab = None;
                self.editors = Vec::new();
                self.search_query = String::new();
                self.lower_panel_visible = false;
                assert(key_set(self.editors@) =~= Set::empty());
                assert(tab_views(self.open_tabs@) =~= seq![]);
                Effect::DropAllEditors
            },
            Message::ToggleProjectPanel => {
                self.project_panel_visible = !self.project_panel_visible;
                Effect::Nothing
            },
            Message::TogglePreview => {
                self.editor_mode = match self.editor_mode {
                    EditorMode::Source => EditorMode::Split,
                    EditorMode::Split => EditorMode::Preview,
                    EditorMode::Preview => EditorMode::Source,
                };
                Effect::Nothing
            },
            Message::ToggleLowerPanel => {
                self.lower_panel_visible = !self.lower_panel_visible;
                Effect::Nothing
            },
            Message::SelectLowerTab(t) => {
                self.lower_panel_active_tab = t;
                self.lower_panel_visible = true;
                Effect::Nothing
            },
            Message::FileSelected(p) => self.select_file(p),
            Message::TabSelected(i) => {
                if i < self.open_tabs.len() {
                    self.active_tab = Some(i);
                }
                Effect::Nothing
            },
            Message::TabClosed(i) => {
                if i < self.open_tabs.len() {
                    self.close_at(i)
                } else {
                    Effect::Nothing
                }
            },
            Message::EditorAction => match self.active_tab_path() {
                Some(p) => {
                    let key = path_key_of(p.as_str());
                    if has_key(&self.editors, &key) { Effect::Edit(p) } else { Effect::Nothing }
                },
                None => Effect::Nothing,
            },
            Message::SearchQueryChanged(q) => {
                self.search_query = q;
                Effect::Nothing
            },
            Message::Search => {
                if self.vault.is_some() {
                    Effect::Search(self.search_query.clone())
                } else {
                    Effect::Nothing
                }
            },
            Message::SearchResultsUpdated(r) => {
                match r {
                    Ok(v) => {
                        self.search_results = v;
                        self.search_error = None;
                    },
                    Err(e) => {
                        self.search_error = Some(e);
                    },
                }
                Effect::Nothing
            },
            Message::CloseCurrentTab => match self.active_tab {
                Some(a) => self.close_at(a),
                None => Effect::Nothing,
            },
            Message::Save => match self.active_tab_path() {
                Some(p) => {
                    let key = path_key_of(p.as_str());
                    if has_key(&self.editors, &key) && self.vault.is_some() { Effect::Save(p) } else { Effect::Nothing }
                },
                None => Effect::Nothing,
            },
            Message::ToggleDir(p) => {
                let key = path_key_of(p.as_str());
                if has_key(&self.expanded_dirs, &key) {
                    let mut dirs: Vec<String> = Vec::new();
                    std::mem::swap(&mut dirs, &mut self.expanded_dirs);
                    self.expanded_dirs = without_key(dirs, &key);
                } else {
                    with_path(&mut self.expanded_dirs, p);
                }
                Effect::Nothing
            },
            Message::LinkClicked(t) => match &self.vault {
                Some(v) => Effect::OpenIfExists(join_path_of(v.as_str(), t.as_str())),
                None => Effect::Nothing,
            },
            Message::SearchResultClicked(p) => match &self.vault {
                Some(v) => {
                    let chars = crate::text::chars_of(p.as_str());
                    let abs = if chars.len() > 0 && chars[0] == '/' { p } else { join_path_of(v.as_str(), p.as_str()) };
                    self.select_file(abs)
                },
                None => Effect::Nothing,
            },
        }
    }
}

/// `TogglePreview` goes Source, Split, Preview and back: three times over,
/// the window is as it was, and nothing is asked of it.
pub proof fn law_preview_cycle(s: AppView)
    ensures
        step(step(step(s, MessageView::TogglePreview).0, MessageView::TogglePreview).0, MessageView::TogglePreview).0 == s,
        step(s, MessageView::TogglePreview).1 == EffectView::Nothing,
{
}

/// Toggling a panel twice leaves the window as it was.
pub proof fn law_toggles_undo(s: AppView)
    ensures
        step(step(s, MessageView::ToggleProjectPanel).0, MessageView::ToggleProjectPanel).0 == s,
        step(step(s, MessageView::ToggleLowerPanel).0, MessageView::ToggleLowerPanel).0 == s,
{
}

proof fn lemma_tab_from_range(tabs: Seq<TabView>, path: Seq<char>, i: int)
    requires
        0 <= i,
    ensures
        tab_from(tabs, path, i) matches Some(k) ==> i <= k < tabs.len() && path_key(tabs[k].0) == path_key(path),
        tab_from(tabs, path, i) is None ==> forall|k: int| i <= k < tabs.len() ==> path_key(tabs[k].0) != path_key(path),
    decreases tabs.len() - i,
{
    if i < tabs.len() && path_key(tabs[i].0) != path_key(path) {
        lemma_tab_from_range(tabs, path, i + 1);
    }
}

proof fn lemma_tab_from_push(tabs: Seq<TabView>, t: TabView, path: Seq<char>, i: int)
    requires
        0 <= i <= tabs.len(),
        tab_from(tabs, path, i) is None,
        path_key(t.0) == path_key(path),
    ensures
        tab_from(tabs.push(t), path, i) == Some(tabs.len() as int),
    decreases tabs.len() - i,
{
    if i < tabs.len() {
        assert(tabs.push(t)[i] == tabs[i]);
        lemma_tab_from_push(tabs, t, path, i + 1);
    }
}

/// Selecting a file a second time changes nothing more and asks nothing:
/// its tab is already open and active.
pub proof fn law_select_twice(s: AppView, p: Seq<char>)
    requires
        view_wf(s),
    ensures
        step(step(s, MessageView::FileSelected(p)).0, MessageView::FileSelected(p))
            == (step(s, MessageView::FileSelected(p)).0, EffectView::Nothing),
{
    let s1 = step(s, MessageView::FileSelected(p)).0;
    lemma_tab_from_range(s.open_tabs, p, 0);
    match tab_index(s.open_tabs, p) {
        Some(i) => {
            assert(s1 == AppView { active_tab: Some(i as usize), ..s });
            assert(AppView { active_tab: Some(i as usize), ..s1 } == s1);
        },
        None => {
            lemma_tab_from_push(s.open_tabs, (p, file_stem(p)), p, 0);
            let n = s.open_tabs.len();
            assert(tab_index(s1.open_tabs, p) == Some(n as int));
            assert(AppView { active_tab: Some(n as usize), ..s1 } == s1);
        },
    }
}

/// Whatever the window reports, the active tab stays one of the tabs.
pub proof fn law_active_tab_valid(s: AppView, m: MessageView)
    requires
        view_wf(s),
    ensures
        view_wf(step(s, m).0),
{
    match m {
        MessageView::FileSelected(p) => {
            lemma_tab_from_range(s.open_tabs, p, 0);
        },
        MessageView::SearchResultClicked(p) => {
            if let Some(v) = s.vault {
                lemma_tab_from_range(s.open_tabs, if is_rooted(p) { p } else { join_path(v, p) }, 0);
            }
        },
        _ => {},
    }
}

/// The keys of the tabs' paths.
pub open spec fn tab_keys(tabs: Seq<TabView>) -> Set<Seq<char>> {
    Set::new(|k: Seq<char>| exists|i: int| 0 <= i < tabs.len() && #[trigger] path_key(tabs[i].0) == k)
}

/// The window's invariant: the active tab is a tab, no two tabs show the
/// same path, and the editors are exactly those of the tabs' paths.
pub open spec fn app_inv(s: AppView) -> bool {
    &&& view_wf(s)
    &&& forall|i: int, j: int| 0 <= i < j < s.open_tabs.len() ==> path_key(#[trigger] s.open_tabs[i].0) != path_key(#[trigger] s.open_tabs[j].0)
    &&& s.editors == tab_keys(s.open_tabs)
}

proof fn lemma_inv_select(s: AppView, p: Seq<char>)
    requires
        app_inv(s),
    ensures
        app_inv(select_file(s, p).0),
{
    lemma_tab_from_range(s.open_tabs, p, 0);
    if tab_index(s.open_tabs, p) is None {
        let tabs = s.open_tabs.push((p, file_stem(p)));
        let t = select_file(s, p).0;
        assert(t.open_tabs == tabs);
        assert forall|i: int, j: int| 0 <= i < j < tabs.len() implies path_key(#[trigger] tabs[i].0) != path_key(#[trigger] tabs[j].0) by {
            if j < s.open_tabs.len() {
                assert(tabs[i] == s.open_tabs[i] && tabs[j] == s.open_tabs[j]);
            } else {
                assert(tabs[i] == s.open_tabs[i]);
            }
        }
        assert forall|k: Seq<char>| #[trigger] tab_keys(tabs).contains(k) <==> s.editors.insert(path_key(p)).contains(k) by {
            if tab_keys(tabs).contains(k) {
                let i = choose|i: int| 0 <= i < tabs.len() && #[trigger] path_key(tabs[i].0) == k;
                if i < s.open_tabs.len() {
                    assert(tabs[i] == s.open_tabs[i]);
                    assert(tab_keys(s.open_tabs).contains(k));
                }
            }
            if s.editors.insert(path_key(p)).contains(k) {
                if k == path_key(p) {
                    assert(path_key(tabs[s.open_tabs.len() as int].0) == k);
                } else {
                    assert(tab_keys(s.open_tabs).contains(k));
                    let i = choose|i: int| 0 <= i < s.open_tabs.len() && #[trigger] path_key(s.open_tabs[i].0) == k;
                    assert(tabs[i] == s.open_tabs[i]);
                }
            }
        }
        assert(t.editors =~= tab_keys(tabs));
    }
}

proof fn lemma_inv_close(s: AppView, idx: usize)
    requires
        app_inv(s),
        idx < s.open_tabs.len(),
    ensures
        app_inv(close_at(s, idx).0),
{
    let tabs = s.open_tabs.remove(idx as int);
    let t = close_at(s, idx).0;
    let gone = path_key(s.open_tabs[idx as int].0);
    assert(forall|a: int| 0 <= a < tabs.len() ==> #[trigger] tabs[a] == if a < idx { s.open_tabs[a] } else { s.open_tabs[a + 1] });
    assert forall|i: int, j: int| 0 <= i < j < tabs.len() implies path_key(#[trigger] tabs[i].0) != path_key(#[trigger] tabs[j].0) by {
        let i2 = if i < idx { i } else { i + 1 };
        let j2 = if j < idx { j } else { j + 1 };
        assert(tabs[i] == s.open_tabs[i2] && tabs[j] == s.open_tabs[j2]);
    }
    assert forall|k: Seq<char>| #[trigger] tab_keys(tabs).contains(k) <==> s.editors.remove(gone).contains(k) by {
        if tab_keys(tabs).contains(k) {
            let i = choose|i: int| 0 <= i < tabs.len() && #[trigger] path_key(tabs[i].0) == k;
            let i2 = if i < idx { i } else { i + 1 };
            assert(tabs[i] == s.open_tabs[i2]);
            assert(tab_keys(s.open_tabs).contains(k));
            assert(i2 != idx);
            if i2 < idx {
                assert(path_key(s.open_tabs[i2].0) != path_key(s.open_tabs[idx as int].0));
            } else {
                assert(path_key(s.open_tabs[idx as int].0) != path_key(s.open_tabs[i2].0));
            }
        }
        if s.editors.remove(gone).contains(k) {
            assert(tab_keys(s.open_tabs).contains(k));
            let i = choose|i: int| 0 <= i < s.open_tabs.len() && #[trigger] path_key(s.open_tabs[i].0) == k;
            assert(i != idx);
            let i2 = if i < idx { i } else { i - 1 };
            assert(tabs[i2] == s.open_tabs[i]);
        }
    }
    assert(t.editors =~= tab_keys(tabs));
    law_active_tab_valid(s, MessageView::TabClosed(idx));
}

/// Every message keeps the window's invariant (see [`app_inv`]): the active
/// tab is a tab, tabs show distinct paths, and the editors are exactly those
/// of the tabs (the new window has it: see `App::new`).
pub proof fn law_window_invariant(s: AppView, m: MessageView)
    requires
        app_inv(s),
    ensures
        app_inv(step(s, m).0),
{
    law_active_tab_valid(s, m);
    match m {
        MessageView::FileSelected(p) => lemma_inv_select(s, p),
        MessageView::SearchResultClicked(p) => {
            if let Some(v) = s.vault {
                lemma_inv_select(s, if is_rooted(p) { p } else { join_path(v, p) });
            }
        },
        MessageView::TabClosed(i) => {
            if i < s.open_tabs.len() {
                lemma_inv_close(s, i);
            }
        },
        MessageView::CloseCurrentTab => {
            if let Some(a) = s.active_tab {
                lemma_inv_close(s, a);
            }
        },
        MessageView::CloseVault => {
            assert(tab_keys(Seq::<TabView>::empty()) =~= Set::<Seq<char>>::empty());
        },
        _ => {},
    }
}

/// The message a key pressed with the command modifier sends: `o` opens a
/// vault, `w` closes the tab, `b` the project panel, `p` the preview, `f`
/// the lower panel; any other key, or a key without the modifier, sends
/// none.
pub open spec fn shortcut_of(key: Seq<char>, command: bool) -> Option<MessageView> {
    if !command {
        None
    } else if key == "o"@ {
        Some(MessageView::OpenVault)
    } else if key == "w"@ {
        Some(MessageView::CloseCurrentTab)
    } else if key == "b"@ {
        Some(MessageView::ToggleProjectPanel)
    } else if key == "p"@ {
        Some(MessageView::TogglePreview)
    } else if key == "f"@ {
        Some(MessageView::ToggleLowerPanel)
    } else {
        None
    }
}

/// Is `key` the one-character text `c`?
fn key_is(key: &str, c: char) -> (r: bool)
    ensures
        r == (key@ == seq![c]),
{
    let chars = crate::text::chars_of(key);
    let r = chars.len() == 1 && chars[0] == c;
    proof {
        if key@ == seq![c] {
            assert(key@.len() == 1 && key@[0] == c);
        }
        if r {
            assert(key@ =~= seq![c]);
        }
    }
    r
}

/// The message for a key pressed (see [`shortcut_of`]); `key` is the
/// character the key types.
pub fn shortcut(key: &str, command: bool) -> (r: Option<Message>)
    ensures
        match shortcut_of(key@, command) {
            Some(m) => r matches Some(x) && x@ == m,
            None => r is None,
        },
{
    proof {
        reveal_strlit("o");
        reveal_strlit("w");
        reveal_strlit("b");
        reveal_strlit("p");
        reveal_strlit("f");
        assert("o"@ =~= seq!['o']);
        assert("w"@ =~= seq!['w']);
        assert("b"@ =~= seq!['b']);
        assert("p"@ =~= seq!['p']);
        assert("f"@ =~= seq!['f']);
    }
    if !command {
        None
    } else if key_is(key, 'o') {
        Some(Message::OpenVault)
    } else if key_is(key, 'w') {
        Some(Message::CloseCurrentTab)
    } else if key_is(key, 'b') {
        Some(Message::ToggleProjectPanel)
    } else if key_is(key, 'p') {
        Some(Message::TogglePreview)
    } else if key_is(key, 'f') {
        Some(Message::ToggleLowerPanel)
    } else {
        None
    }
}

/// What the search tab of the lower panel shows.
pub enum SearchPanel {
    /// "Enter a query to search": no query, or no vault.
    Prompt,
    /// "Search error: ..." with the error.
    Failed(String),
    /// "No results found".
    NoResults,
    /// The results, one button each.
    Results,
}

impl App {
    /// What the search tab shows: a prompt without a query or a vault, the
    /// last search's error, that nothing was found, or the results.
    pub fn search_panel(&self) -> (r: SearchPanel)
        ensures
            (self.search_query@.len() == 0 || self.vault is None) ==> r is Prompt,
            !(self.search_query@.len() == 0 || self.vault is None) ==> match self.search_error {
                Some(e) => r matches SearchPanel::Failed(t) && t@ == e@,
                None => if self.search_results@.len() == 0 { r is NoResults } else { r is Results },
            },
    {
        let query = crate::text::chars_of(self.search_query.as_str());
        if query.len() == 0 || self.vault.is_none() {
            SearchPanel::Prompt
        } else {
            match &self.search_error {
                Some(e) => SearchPanel::Failed(e.clone()),
                None => if self.search_results.len() == 0 { SearchPanel::NoResults } else { SearchPanel::Results },
            }
        }
    }
}

/// A button of the title bar, by its label.
#[derive(Clone, Copy, Debug, PartialEq, Eq, Structural)]
pub enum TitleButton {
    /// "Open Vault".
    OpenVault,
    /// "Close Vault".
    CloseVault,
    /// "Hide Panel": the project panel is shown.
    HidePanel,
    /// "Show Panel": the project panel is hidden.
    ShowPanel,
    /// "Preview": the editor shows the source.
    Preview,
    /// "Split": source and preview side by side.
    Split,
    /// "Edit": the editor shows the preview.
    Edit,
    /// "Hide": the lower panel is shown.
    HideLower,
    /// "Search": the lower panel is hidden.
    Search,
}

/// A pane of the window's main row.
#[derive(Clone, Copy, Debug, PartialEq, Eq, Structural)]
pub enum Pane {
    ProjectPanel,
    Editor,
    Preview,
}

/// What the window shows: the title bar's buttons, the panes of the main
/// row from left to right, and whether the lower panel is below them.
pub struct Layout {
    pub buttons: Vec<TitleButton>,
    pub panes: Vec<Pane>,
    pub lower_panel: bool,
}

/// What the editor pane shows.
#[derive(Clone, Copy, Debug, PartialEq, Eq, Structural)]
pub enum EditorArea {
    /// The tab bar and the active note's editor, or "Error loading editor"
    /// when no editor holds that note.
    Editing { has_editor: bool },
    /// "Vault is open": a vault without an active tab.
    VaultOpen,
    /// "Welcome to Simpler Notes!": no vault.
    Welcome,
}

/// The button that cycles the editor's mode, named after the mode it is in.
pub open spec fn mode_button(m: EditorMode) -> TitleButton {
    match m {
        EditorMode::Source => TitleButton::Preview,
        EditorMode::Split => TitleButton::Split,
        EditorMode::Preview => TitleButton::Edit,
    }
}

/// The title bar: the vault button, then, with a vault open, the buttons
/// of the project panel, the editor's mode and the lower panel.
pub open spec fn title_buttons(s: AppView) -> Seq<TitleButton> {
    if s.vault is None {
        seq![TitleButton::OpenVault]
    } else {
        seq![
            TitleButton::CloseVault,
            if s.project_panel_visible { TitleButton::HidePanel } else { TitleButton::ShowPanel },
            mode_button(s.editor_mode),
            if s.lower_panel_visible { TitleButton::HideLower } else { TitleButton::Search },
        ]
    }
}

/// The panes the editor's mode shows.
pub open spec fn mode_panes(m: EditorMode) -> Seq<Pane> {
    match m {
        EditorMode::Source => seq![Pane::Editor],
        EditorMode::Split => seq![Pane::Editor, Pane::Preview],
        EditorMode::Preview => seq![Pane::Preview],
    }
}

/// The main row: without a vault the editor pane alone (its welcome);
/// with one, the project panel when shown, then the panes of the mode.
pub open spec fn main_panes(s: AppView) -> Seq<Pane> {
    if s.vault is None {
        seq![Pane::Editor]
    } else if s.project_panel_visible {
        seq![Pane::ProjectPanel] + mode_panes(s.editor_mode)
    } else {
        mode_panes(s.editor_mode)
    }
}

/// What the editor pane shows for the window `s`.
pub open spec fn editor_area(s: AppView) -> EditorArea {
    match active_path(s.open_tabs, s.active_tab) {
        Some(p) => EditorArea::Editing { has_editor: s.editors.contains(path_key(p)) },
        None => if s.vault is Some { EditorArea::VaultOpen } else { EditorArea::Welcome },
    }
}

fn mode_panes_of(m: EditorMode) -> (r: Vec<Pane>)
    ensures
        r@ == mode_panes(m),
{
    match m {
        EditorMode::Source => vec![Pane::Editor],
        EditorMode::Split => vec![Pane::Editor, Pane::Preview],
        EditorMode::Preview => vec![Pane::Preview],
    }
}

impl App {
    /// What the window shows (see [`title_buttons`] and [`main_panes`]);
    /// the lower panel shows while it is toggled on and a vault is open.
    pub fn layout(&self) -> (r: Layout)
        ensures
            r.buttons@ == title_buttons(self@),
            r.panes@ == main_panes(self@),
            r.lower_panel == (self.lower_panel_visible && self.vault is Some),
    {
        let buttons = if self.vault.is_none() {
            vec![TitleButton::OpenVault]
        } else {
            let panel = if self.project_panel_visible { TitleButton::HidePanel } else { TitleButton::ShowPanel };
            let mode = match self.editor_mode {
                EditorMode::Source => TitleButton::Preview,
                EditorMode::Split => TitleButton::Split,
                EditorMode::Preview => TitleButton::Edit,
            };
            let lower = if self.lower_panel_visible { TitleButton::HideLower } else { TitleButton::Search };
            vec![TitleButton::CloseVault, panel, mode, lower]
        };
        let panes = if self.vault.is_none() {
            vec![Pane::Editor]
        } else if self.project_panel_visible {
            let mut row = vec![Pane::ProjectPanel];
            let mut rest = mode_panes_of(self.editor_mode);
            row.append(&mut rest);
            row
        } else {
            mode_panes_of(self.editor_mode)
        };
        Layout { buttons, panes, lower_panel: self.lower_panel_visible && self.vault.is_some() }
    }

    /// What the editor pane shows (see [`editor_area`]).
    pub fn editor_area(&self) -> (r: EditorArea)
        ensures
            r == editor_area(self@),
    {
        match self.active_tab_path() {
            Some(p) => {
                let key = path_key_of(p.as_str());
                EditorArea::Editing { has_editor: has_key(&self.editors, &key) }
            },
            None => if self.vault.is_some() { EditorArea::VaultOpen } else { EditorArea::Welcome },
        }
    }
}

/// The line the diagnostics tab shows for a diagnostic: its message and
/// where it starts.
pub fn diagnostic_line(message: &str, offset: usize) -> (r: String)
    ensures
        r@ == message@ + " (offset "@ + crate::text::decimal(offset as nat) + ")"@,
{
    let mut t = message.to_owned();
    crate::text::push_str(&mut t, " (offset ");
    crate::text::push_decimal(&mut t, offset as u64);
    crate::text::push_str(&mut t, ")");
    t
}

} // verus!
