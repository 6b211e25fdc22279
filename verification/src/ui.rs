//! Plain data models of the shell's interface state.
//!
//! The shell stores these as world resources or window state between
//! frames; they carry no drawing logic, so they live here where their
//! defaults and transitions can be specified.

use vstd::prelude::*;

verus! {

/// The player's active tool.
#[derive(Copy, Clone, Debug, PartialEq, Eq, Structural)]
pub enum Tool {
    Hand,
    RoadbuildStraight,
    RoadbuildCurved,
    RoadEditor,
    Bulldozer,
    LotBrush,
    SpecialBuilding,
}

impl Default for Tool {
    /// The neutral tool.
    fn default() -> (r: Tool)
        ensures
            r == Tool::Hand,
    {
        Tool::Hand
    }
}

/// The interface textures a shell loads, one per toolbar button.
#[derive(Copy, Clone, Debug, Hash, PartialEq, Eq, Structural)]
pub enum UiTex {
    Road,
    Curved,
    RoadEdit,
    Bulldozer,
    Buildings,
    LotBrush,
}

/// Which pane of the economy window is open.
#[derive(Copy, Clone, Debug, PartialEq, Eq, Structural)]
pub enum EconomyTab {
    ImportExports,
    InternalTrade,
    MarketPrices,
}

impl Default for EconomyTab {
    fn default() -> (r: EconomyTab)
        ensures
            r == EconomyTab::ImportExports,
    {
        EconomyTab::ImportExports
    }
}

/// Which series the history plot shows.
#[derive(Copy, Clone, Debug, PartialEq, Eq, Structural)]
pub enum HistoryType {
    Money,
    Items,
}

impl Default for HistoryType {
    fn default() -> (r: HistoryType)
        ensures
            r == HistoryType::Money,
    {
        HistoryType::Money
    }
}

/// The persistent state of the economy window.
pub struct EconomyState {
    /// Which time-scale level is selected.
    pub curlevel: usize,
    pub tab: EconomyTab,
    pub hist_type: HistoryType,
}

impl Default for EconomyState {
    fn default() -> (r: EconomyState)
        ensures
            r.curlevel == 0,
            r.tab == EconomyTab::ImportExports,
            r.hist_type == HistoryType::Money,
    {
        EconomyState { curlevel: 0, tab: EconomyTab::ImportExports, hist_type: HistoryType::Money }
    }
}

} // verus!
