//! Editor tabs: the notes open in an editor window, which of them is
//! active, and how opening and closing one moves the active tab.
use vstd::prelude::*;
use crate::paths::{path_key, path_key_of};

verus! {

/// A note open in a tab: its path and the title shown on the tab.
#[derive(Clone, Debug)]
pub struct OpenTab {
    pub path: String,
    pub title: String,
}

/// A tab as plain values: path, title.
pub type TabView = (Seq<char>, Seq<char>);

impl View for OpenTab {
    type V = TabView;

    open spec fn view(&self) -> TabView {
        (self.path@, self.title@)
    }
}

/// The tabs as plain values.
pub open spec fn tab_views(s: Seq<OpenTab>) -> Seq<TabView> {
    Seq::new(s.len(), |i: int| s[i]@)
}

/// Position of the first tab from `i` on whose path has the components of
/// `path` (paths compare as std's `PathBuf` does).
pub open spec fn tab_from(tabs: Seq<TabView>, path: Seq<char>, i: int) -> Option<int>
    decreases tabs.len() - i,
{
    if i < 0 || i >= tabs.len() {
        None
    } else if path_key(tabs[i].0) == path_key(path) {
        Some(i)
    } else {
        tab_from(tabs, path, i + 1)
    }
}

/// Position of the first tab showing `path`.
pub open spec fn tab_index(tabs: Seq<TabView>, path: Seq<char>) -> Option<int> {
    tab_from(tabs, path, 0)
}

/// The active tab once the tab at `idx` has been closed, leaving `left`
/// tabs: the closed active tab passes to the one now at its place (or the
/// last), a later active tab moves down by one, an earlier one stays.
pub open spec fn active_after_close(active: Option<usize>, idx: usize, left: nat) -> Option<usize> {
    match active {
        Some(a) => if a == idx {
            if left == 0 {
                None
            } else if a <= left - 1 {
                Some(a)
            } else {
                Some((left - 1) as usize)
            }
        } else if a > idx {
            Some((a - 1) as usize)
        } else {
            active
        },
        None => None,
    }
}

/// The path of the active tab, if it is one of `tabs`.
pub open spec fn active_path(tabs: Seq<TabView>, active: Option<usize>) -> Option<Seq<char>> {
    match active {
        Some(i) => if i < tabs.len() { Some(tabs[i as int].0) } else { None },
        None => None,
    }
}

/// The position of the first of `tabs` showing `path` (see [`tab_index`]).
pub fn find_tab(tabs: &Vec<OpenTab>, path: &str) -> (r: Option<usize>)
    ensures
        match tab_index(tab_views(tabs@), path@) {
            Some(i) => r == Some(i as usize),
            None => r is None,
        },
        r matches Some(i) ==> i < tabs@.len(),
{
    let key = path_key_of(path);
    let ghost tv = tab_views(tabs@);
    let mut i: usize = 0;
    while i < tabs.len()
        invariant
            i <= tabs@.len(),
            tv == tab_views(tabs@),
            key@ == path_key(path@),
            tab_index(tv, path@) == tab_from(tv, path@, i as int),
        decreases tabs@.len() - i,
    {
        let k = path_key_of(tabs[i].path.as_str());
        if k == key {
            return Some(i);
        }
        i = i + 1;
    }
    None
}

/// The path of the active tab, if there is one (see [`active_path`]).
pub fn active_tab_path_of(tabs: &Vec<OpenTab>, active: Option<usize>) -> (r: Option<String>)
    ensures
        match active_path(tab_views(tabs@), active) {
            Some(p) => r matches Some(x) && x@ == p,
            None => r is None,
        },
{
    match active {
        Some(i) => if i < tabs.len() {
            Some(tabs[i].path.clone())
        } else {
            None
        },
        None => None,
    }
}

/// The active tab once the tab at `idx` has been closed, leaving `left`
/// tabs (see [`active_after_close`]).
pub fn next_active(active: Option<usize>, idx: usize, left: usize) -> (r: Option<usize>)
    ensures
        r == active_after_close(active, idx, left as nat),
{
    match active {
        Some(a) => if a == idx {
            if left == 0 {
                None
            } else if a <= left - 1 {
                Some(a)
            } else {
                Some(left - 1)
            }
        } else if a > idx {
            Some(a - 1)
        } else {
            active
        },
        None => None,
    }
}

} // verus!
