//! The tray menu's view state: the current port list snapshot, the
//! protocol filter, and the pagination settings, driven by a tagged set
//! of user actions through one explicit transition function. The caller
//! owns the icon and menu plumbing, performs scans and terminations,
//! and feeds their results back in.

use vstd::prelude::*;

use crate::paging::{filter_matches, get_page, page_spec, spec_total_pages, total_pages,
    filter_ports};
use crate::records::{PortInfo, ProtocolFilter, RecordModel};

verus! {

/// Ports shown per page when the application starts.
pub const DEFAULT_PAGE_SIZE: usize = 10;

/// Shared tray state: the scanned port list and the view settings.
#[derive(Debug)]
pub struct PortSlayerTray {
    /// Most recent scan result.
    pub ports: Vec<PortInfo>,
    /// Active protocol filter.
    pub protocol_filter: ProtocolFilter,
    /// Current page (0-based) of the paginated view.
    pub current_page: usize,
    /// Number of ports shown per page.
    pub page_size: usize,
}

/// The filtered records of a tray state.
pub open spec fn filtered_model(t: PortSlayerTray) -> Seq<RecordModel> {
    t.ports.deep_view().filter(|m: RecordModel| filter_matches(t.protocol_filter, m))
}

/// The page count of a tray state.
pub open spec fn pages_model(t: PortSlayerTray) -> nat {
    spec_total_pages(filtered_model(t).len(), t.page_size as nat)
}

/// The clamped page index actually shown.
pub open spec fn safe_page_model(t: PortSlayerTray) -> nat {
    if t.current_page as nat <= pages_model(t) - 1 {
        t.current_page as nat
    } else {
        (pages_model(t) - 1) as nat
    }
}

/// A user action on the tray menu.
#[derive(Debug)]
pub enum TrayAction {
    /// Replace the port list with a fresh scan result.
    Refresh(Vec<PortInfo>),
    /// Switch the protocol filter.
    SetFilter(ProtocolFilter),
    /// Switch the page size.
    SetPageSize(usize),
    /// Go to the previous page.
    PrevPage,
    /// Go to the next page.
    NextPage,
    /// Terminate the process with this pid.
    KillOne(u32),
    /// Terminate every process owning a port.
    KillAll,
    /// Leave the application.
    Exit,
}

/// What the caller must perform after a transition.
#[derive(Debug, PartialEq, Eq, Structural)]
pub enum TrayEffect {
    /// Nothing to do.
    Nothing,
    /// Run the termination flow for this pid.
    RunKill(u32),
    /// Run the batch termination flow.
    RunKillAll,
    /// Shut the application down.
    Quit,
}

impl PortSlayerTray {
    /// A fresh tray state over an initial scan result: no filter, first
    /// page, default page size.
    pub fn new(ports: Vec<PortInfo>) -> (r: Self)
        ensures
            r.ports == ports,
            r.protocol_filter is All,
            r.current_page == 0,
            r.page_size == DEFAULT_PAGE_SIZE,
    {
        PortSlayerTray {
            ports,
            protocol_filter: ProtocolFilter::All,
            current_page: 0,
            page_size: DEFAULT_PAGE_SIZE,
        }
    }

    /// The current port list snapshot.
    pub fn ports_handle(&self) -> (r: &Vec<PortInfo>)
        ensures
            r@ == self.ports@,
    {
        &self.ports
    }

    /// Replace the port list with a new scan result; the view returns
    /// to the first page, since the old one may no longer exist.
    pub fn refresh_ports(&mut self, new_ports: Vec<PortInfo>)
        ensures
            final(self).ports == new_ports,
            final(self).current_page == 0,
            final(self).protocol_filter == old(self).protocol_filter,
            final(self).page_size == old(self).page_size,
    {
        self.ports = new_ports;
        self.current_page = 0;
    }

    /// The ports passing the active protocol filter.
    pub fn get_filtered_ports(&self) -> (r: Vec<PortInfo>)
        ensures
            r.deep_view() == filtered_model(*self),
    {
        let s = self.ports.as_slice();
        let r = filter_ports(s, self.protocol_filter);
        proof {
            assert(s.deep_view() =~~= self.ports.deep_view());
        }
        r
    }

    /// How many pages the filtered view spans.
    pub fn page_count(&self) -> (r: usize)
        ensures
            r == pages_model(*self),
    {
        let filtered = self.get_filtered_ports();
        total_pages(filtered.len(), self.page_size)
    }

    /// The records of the page actually shown: the current page,
    /// clamped into the valid range.
    pub fn visible_page(&self) -> (r: Vec<PortInfo>)
        ensures
            r.deep_view() == page_spec(
                filtered_model(*self),
                safe_page_model(*self),
                self.page_size as nat,
            ),
    {
        let filtered = self.get_filtered_ports();
        let pages = total_pages(filtered.len(), self.page_size);
        let safe_page = if self.current_page <= pages - 1 {
            self.current_page
        } else {
            pages - 1
        };
        let s = filtered.as_slice();
        proof {
            assert(s.deep_view() =~~= filtered.deep_view());
        }
        get_page(s, safe_page, self.page_size)
    }

    /// The single state-transition function of the menu: apply a user
    /// action, returning what the caller must now perform.
    pub fn apply_action(&mut self, action: TrayAction) -> (r: TrayEffect)
        ensures
            match action {
                TrayAction::Refresh(ps) => {
                    &&& final(self).ports == ps
                    &&& final(self).current_page == 0
                    &&& final(self).protocol_filter == old(self).protocol_filter
                    &&& final(self).page_size == old(self).page_size
                    &&& r == TrayEffect::Nothing
                },
                TrayAction::SetFilter(f) => {
                    &&& final(self).protocol_filter == f
                    &&& final(self).current_page == 0
                    &&& final(self).ports == old(self).ports
                    &&& final(self).page_size == old(self).page_size
                    &&& r == TrayEffect::Nothing
                },
                TrayAction::SetPageSize(s) => {
                    &&& final(self).page_size == s
                    &&& final(self).current_page == 0
                    &&& final(self).ports == old(self).ports
                    &&& final(self).protocol_filter == old(self).protocol_filter
                    &&& r == TrayEffect::Nothing
                },
                TrayAction::PrevPage => {
                    &&& final(self).current_page == (if old(self).current_page > 0 {
                        old(self).current_page - 1
                    } else {
                        0int
                    })
                    &&& final(self).ports == old(self).ports
                    &&& final(self).protocol_filter == old(self).protocol_filter
                    &&& final(self).page_size == old(self).page_size
                    &&& r == TrayEffect::Nothing
                },
                TrayAction::NextPage => {
                    &&& final(self).current_page == (if old(self).current_page + 1 < pages_model(
                        *old(self),
                    ) {
                        old(self).current_page + 1
                    } else {
                        old(self).current_page as int
                    })
                    &&& final(self).ports == old(self).ports
                    &&& final(self).protocol_filter == old(self).protocol_filter
                    &&& final(self).page_size == old(self).page_size
                    &&& r == TrayEffect::Nothing
                },
                TrayAction::KillOne(pid) => {
                    &&& *final(self) == *old(self)
                    &&& r == TrayEffect::RunKill(pid)
                },
                TrayAction::KillAll => {
                    &&& *final(self) == *old(self)
                    &&& r == TrayEffect::RunKillAll
                },
                TrayAction::Exit => {
                    &&& *final(self) == *old(self)
                    &&& r == TrayEffect::Quit
                },
            },
    {
        match action {
            TrayAction::Refresh(ps) => {
                self.ports = ps;
                self.current_page = 0;
                TrayEffect::Nothing
            },
            TrayAction::SetFilter(f) => {
                self.protocol_filter = f;
                self.current_page = 0;
                TrayEffect::Nothing
            },
            TrayAction::SetPageSize(s) => {
                self.page_size = s;
                self.current_page = 0;
                TrayEffect::Nothing
            },
            TrayAction::PrevPage => {
                if self.current_page > 0 {
                    self.current_page = self.current_page - 1;
                }
                TrayEffect::Nothing
            },
            TrayAction::NextPage => {
                let pages = self.page_count();
                if self.current_page < pages - 1 {
                    self.current_page = self.current_page + 1;
                }
                TrayEffect::Nothing
            },
            TrayAction::KillOne(pid) => TrayEffect::RunKill(pid),
            TrayAction::KillAll => TrayEffect::RunKillAll,
            TrayAction::Exit => TrayEffect::Quit,
        }
    }
}

} // verus!
