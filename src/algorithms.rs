//! Image-wide algorithms: dithering and representative colors.
use vstd::prelude::*;

pub mod dithering;
pub mod histogram;

verus! {

/// The ways of reducing a tile to one representative color.
#[derive(Debug, Clone, Copy, PartialEq, Eq, Structural)]
pub enum CliAlgorithms {
    /// The dominant cluster of a k-means clustering.
    Kmeans,
    /// The most frequent color.
    Histogram,
}

impl CliAlgorithms {
    /// The algorithm's name.
    pub fn name(&self) -> (r: &'static str)
        ensures
            *self == CliAlgorithms::Kmeans ==> r@ == "Kmeans"@,
            *self == CliAlgorithms::Histogram ==> r@ == "Histogram"@,
    {
        match self {
            CliAlgorithms::Kmeans => "Kmeans",
            CliAlgorithms::Histogram => "Histogram",
        }
    }
}

} // verus!
