use vstd::prelude::*;
use crate::record::{Paper, paper_model};

verus! {

/// Which screen the interface shows.
#[derive(Debug, Clone, Copy, PartialEq, Eq, Structural)]
pub enum AppView {
    Search,
    Browse,
    Detail,
    Library,
}

/// The interface state: the current screen, the query, the result list
/// and the selection inside it.
pub struct AppState {
    pub current_view: AppView,
    pub search_query: String,
    pub search_results: Vec<Paper>,
    pub selected_paper: Option<Paper>,
    pub selected_index: usize,
}

impl AppState {
    /// The selection index stays inside the result list, and at zero
    /// while the list is empty.
    pub open spec fn wf(self) -> bool {
        if self.search_results@.len() == 0 {
            self.selected_index == 0
        } else {
            (self.selected_index as int) < self.search_results@.len()
        }
    }

    pub fn new() -> (s: Self)
        ensures
            s.wf(),
            s.current_view == AppView::Search,
            s.search_query@ == Seq::<char>::empty(),
            s.search_results@.len() == 0,
            s.selected_paper is None,
            s.selected_index == 0,
    {
        AppState {
            current_view: AppView::Search,
            search_query: String::new(),
            search_results: Vec::new(),
            selected_paper: None,
            selected_index: 0,
        }
    }

    pub fn switch_view(&mut self, view: AppView)
        ensures
            final(self).current_view == view,
            final(self).search_query == old(self).search_query,
            final(self).search_results == old(self).search_results,
            final(self).selected_paper == old(self).selected_paper,
            final(self).selected_index == old(self).selected_index,
            old(self).wf() ==> final(self).wf(),
    {
        self.current_view = view;
    }

    /// Moves the selection one down, wrapping at the end; with no
    /// results nothing changes.
    pub fn select_next(&mut self)
        requires
            old(self).wf(),
        ensures
            final(self).wf(),
            final(self).current_view == old(self).current_view,
            final(self).search_query == old(self).search_query,
            final(self).search_results == old(self).search_results,
            old(self).search_results@.len() == 0 ==> final(self).selected_index == old(
                self,
            ).selected_index && final(self).selected_paper == old(self).selected_paper,
            old(self).search_results@.len() > 0 ==> final(self).selected_index as int == (old(
                self,
            ).selected_index + 1) as int % (old(self).search_results@.len() as int),
            old(self).search_results@.len() > 0 ==> match final(self).selected_paper {
                Some(p) => paper_model(p) == paper_model(
                    old(self).search_results@[final(self).selected_index as int],
                ),
                None => false,
            },
    {
        if self.search_results.len() > 0 {
            let n = self.search_results.len();
            let next: usize = if self.selected_index + 1 >= n {
                0
            } else {
                self.selected_index + 1
            };
            self.selected_index = next;
            let p = self.search_results[next].clone();
            self.selected_paper = Some(p);
            proof {
                let n0 = self.search_results@.len() as int;
                let i0 = old(self).selected_index as int;
                if i0 + 1 == n0 {
                    vstd::arithmetic::div_mod::lemma_mod_self_0(n0);
                } else {
                    vstd::arithmetic::div_mod::lemma_small_mod((i0 + 1) as nat, n0 as nat);
                }
            }
        }
    }

    /// Moves the selection one up, wrapping at the start; with no
    /// results nothing changes.
    pub fn select_previous(&mut self)
        requires
            old(self).wf(),
        ensures
            final(self).wf(),
            final(self).current_view == old(self).current_view,
            final(self).search_query == old(self).search_query,
            final(self).search_results == old(self).search_results,
            old(self).search_results@.len() == 0 ==> final(self).selected_index == old(
                self,
            ).selected_index && final(self).selected_paper == old(self).selected_paper,
            old(self).search_results@.len() > 0 ==> final(self).selected_index as int == (if old(
                self,
            ).selected_index == 0 {
                old(self).search_results@.len() - 1
            } else {
                old(self).selected_index - 1
            }),
            old(self).search_results@.len() > 0 ==> match final(self).selected_paper {
                Some(p) => paper_model(p) == paper_model(
                    old(self).search_results@[final(self).selected_index as int],
                ),
                None => false,
            },
    {
        if self.search_results.len() > 0 {
            let n = self.search_results.len();
            let next: usize = if self.selected_index == 0 {
                n - 1
            } else {
                self.selected_index - 1
            };
            self.selected_index = next;
            let p = self.search_results[next].clone();
            self.selected_paper = Some(p);
        }
    }
}

impl Default for AppState {
    fn default() -> (s: Self)
        ensures
            s.wf(),
            s.current_view == AppView::Search,
            s.search_query@ == Seq::<char>::empty(),
            s.search_results@.len() == 0,
            s.selected_paper is None,
            s.selected_index == 0,
    {
        Self::new()
    }
}

} // verus!
