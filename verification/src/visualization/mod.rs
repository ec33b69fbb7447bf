//! The performance dashboard's state: the report it shows and how it shows it.

use vstd::prelude::*;
use crate::performance::stats::ComparisonReport;

verus! {

/// The largest graph size the prediction chart shows.
#[derive(Debug, Clone, Copy, PartialEq, Eq, Structural)]
pub enum ScaleView {
    /// Up to 100 nodes.
    Scale100,
    /// Up to 1000 nodes.
    Scale1000,
    /// Up to 10000 nodes.
    Scale10000,
}

impl Default for ScaleView {
    fn default() -> (s: Self)
        ensures
            s == ScaleView::Scale100,
    {
        ScaleView::Scale100
    }
}

/// The dashboard: the latest comparison report, whether predictions are shown in place
/// of measurements, and the size range of the prediction chart.
#[derive(Debug)]
pub struct DashboardPanel {
    pub report: Option<ComparisonReport>,
    pub show_predictions: bool,
    pub selected_scale: ScaleView,
}

impl DashboardPanel {
    /// A dashboard with no report, showing measurements, up to 100 nodes.
    pub fn new() -> (r: Self)
        ensures
            r.report is None,
            !r.show_predictions,
            r.selected_scale == ScaleView::Scale100,
    {
        DashboardPanel { report: None, show_predictions: false, selected_scale: ScaleView::Scale100 }
    }

    /// Shows `report` from now on.
    pub fn update_report(&mut self, report: ComparisonReport)
        ensures
            final(self).report == Some(report),
            final(self).show_predictions == old(self).show_predictions,
            final(self).selected_scale == old(self).selected_scale,
    {
        self.report = Some(report);
    }
}

impl Default for DashboardPanel {
    fn default() -> (r: Self)
        ensures
            r.report is None,
            !r.show_predictions,
            r.selected_scale == ScaleView::Scale100,
    {
        DashboardPanel::new()
    }
}

} // verus!
