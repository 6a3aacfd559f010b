//! Extraction and aggregation of per-test performance counters gathered by
//! repeatedly running the instrumented tests of a project.
//!
//! - `discovery`: the instrumented test identifiers that a test manifest lists.
//! - `extract`: the counters of the first metrics line of a test's output.
//! - `normalize`: the suffix rule and the qualifier rule for test names.
//! - `aggregate`: averaging the measured passes per test name.
//! - `campaign`: the order of warmup and measured passes, and what each invocation adds.

pub mod text;
pub mod discovery;
pub mod normalize;
pub mod extract;
pub mod aggregate;
pub mod campaign;

pub use text::{is_white_space, trim, contains, ends_with};
pub use discovery::list_instrumented_tests;
pub use normalize::{strip_marker, display_name};
pub use extract::{
    HarnessError, MetricsPattern, METRICS_PATTERN, parse_count, metrics_from_captures,
    extract_metrics,
};
pub use aggregate::{MetricRecord, combine};
pub use campaign::{Campaign, measurement};
