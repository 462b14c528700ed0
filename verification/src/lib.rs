//! A process-local metrics registry with verified bookkeeping.
//!
//! Collectors describe the streams they measure and hand out snapshots of
//! their current values. The [`Registry`] keeps the registered collectors
//! consistent with one another and gathers their snapshots into one sorted
//! list of metric families. [`LuaHistogramVec`] is the histogram instrument,
//! and [`flatten`] turns histogram families into scalar samples.
//!
//! Observations, bucket bounds and sums are whole numbers of the unit that
//! an instrument measures in.

pub mod text;
pub mod model;
pub mod flatten;
pub mod order;
pub mod vecs;
pub mod pipeline;
pub mod descriptor;
pub mod registry;
pub mod histogram_vec;

pub use crate::model::{
    Bucket, HistogramData, LabelPair, Metric, MetricFamily, MetricKind, Sample, UpperBound,
};
pub use crate::flatten::flatten;
pub use crate::descriptor::Descriptor;
pub use crate::pipeline::{gather_from, label_families};
pub use crate::registry::{Collector, Registry, RegistryError};
pub use crate::histogram_vec::{ConstructionError, LuaHistogramOpts, LuaHistogramVec, ObserveError};
