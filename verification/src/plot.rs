//! The presentation choices of a plot that carry no geometry: how a line
//! connects its points and where axis labels go.

use vstd::prelude::*;

verus! {

/// How a line or area connects its points.
#[derive(Clone, Copy, Debug, Default, Hash, PartialEq, Eq, Structural)]
pub enum Curve {
    /// A smooth curve through every point.
    #[default]
    Natural,
    /// Straight segments between points.
    Linear,
    /// A step that holds each value until the next point.
    StepAfter,
}

/// Which side of an axis line the tick labels render on.
#[derive(Clone, Copy, Debug, PartialEq, Eq, Default, Structural)]
pub enum AxisLabelSide {
    /// X-axis: labels below the line. Y-axis: labels right of the line.
    #[default]
    End,
    /// X-axis: labels above the line. Y-axis: labels left of the line.
    Start,
}

/// Where a chart draws the tick labels of its value axis.
#[derive(Clone, Copy, Debug, PartialEq, Eq, Default, Structural)]
pub enum AxisLabelPlacement {
    /// In a gutter beside the plot, which the plot shrinks to make room for.
    #[default]
    Outside,
    /// Over the plot's edge, beside the grid line each label reads.
    Inside,
}

} // verus!
