//! The logic of the ValidResult frontend: reading the metric tables the
//! backend sends, the user's own rows kept in a cookie, the table's sort and
//! input rules, the chat panel's state machine, and the addresses of the
//! backend's requests. Everything here is verified with Verus; the pages,
//! the requests themselves and the floating-point chart geometry live in the
//! application around it.
pub mod add_metrics;
pub mod agent;
pub mod backend;
pub mod bench_hist;
pub mod chart;
pub mod charts_route;
pub mod loader;
pub mod number;
pub mod order;
pub mod sort_button;
pub mod table;
pub mod text;

pub use crate::loader::parse_csv;
