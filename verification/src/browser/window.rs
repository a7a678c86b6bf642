//! A window's tabs and which of them is shown.
use vstd::prelude::*;

verus! {

/// The tabs of a window, in order, and the index of the active one.
#[derive(Debug)]
pub struct BrowserWindow<T> {
    tabs: Vec<T>,
    active_tab: usize,
}

impl<T> BrowserWindow<T> {
    /// A window has a tab, and the active index names one of them.
    pub open spec fn wf(&self) -> bool {
        &&& self.tabs().len() >= 1
        &&& 0 <= self.active() < self.tabs().len()
    }

    /// The tabs, in order.
    pub closed spec fn tabs(&self) -> Seq<T> {
        self.tabs@
    }

    /// The index of the active tab.
    pub closed spec fn active(&self) -> int {
        self.active_tab as int
    }

    /// A window with one tab, which is active.
    pub fn new(initial: T) -> (r: Self)
        ensures
            r.wf(),
            r.tabs() == seq![initial],
            r.active() == 0,
    {
        let r = BrowserWindow { tabs: vec![initial], active_tab: 0 };
        assert(r.tabs() =~= seq![initial]);
        r
    }

    pub fn active_tab(&self) -> (r: &T)
        requires
            self.wf(),
        ensures
            *r == self.tabs()[self.active()],
    {
        &self.tabs[self.active_tab]
    }

    pub fn active_tab_mut(&mut self) -> (r: &mut T)
        requires
            old(self).wf(),
        ensures
            final(self).wf(),
            *r == old(self).tabs()[old(self).active()],
            final(self).tabs() == old(self).tabs().update(old(self).active(), *final(r)),
            final(self).active() == old(self).active(),
    {
        let i = self.active_tab;
        &mut self.tabs[i]
    }

    /// Opens `tab` after the others and makes it active.
    pub fn new_tab(&mut self, tab: T)
        requires
            old(self).wf(),
        ensures
            final(self).wf(),
            final(self).tabs() == old(self).tabs().push(tab),
            final(self).active() == old(self).tabs().len(),
    {
        self.tabs.push(tab);
        self.active_tab = self.tabs.len() - 1;
    }

    /// Closes the tab at `index`, unless it is the only one. The active
    /// index stays where it is when it still names a tab, and otherwise
    /// moves to the last tab.
    pub fn close_tab(&mut self, index: usize)
        requires
            old(self).wf(),
            old(self).tabs().len() == 1 || index < old(self).tabs().len(),
        ensures
            final(self).wf(),
            old(self).tabs().len() == 1 ==> final(self).tabs() == old(self).tabs()
                && final(self).active() == old(self).active(),
            old(self).tabs().len() > 1 ==> {
                &&& final(self).tabs() == old(self).tabs().remove(index as int)
                &&& final(self).active() == if old(self).active() < old(self).tabs().len() - 1 {
                    old(self).active()
                } else {
                    old(self).tabs().len() - 2
                }
            },
    {
        if self.tabs.len() == 1 {
            return ;
        }
        let remaining = self.tabs.len() - 1;
        if self.active_tab >= remaining {
            self.active_tab = remaining - 1;
        }
        self.tabs.remove(index);
    }

    /// Makes the tab at `index` active.
    pub fn select_tab(&mut self, index: usize)
        requires
            old(self).wf(),
            index < old(self).tabs().len(),
        ensures
            final(self).wf(),
            final(self).tabs() == old(self).tabs(),
            final(self).active() == index,
    {
        self.active_tab = index;
    }
}

} // verus!
