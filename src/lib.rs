//! Realtime arrival aggregation for a subway network: which realtime feeds
//! cover a stop's routes, which fetched feeds count, and the nearest arrivals
//! per route.

pub mod arrivals;
pub mod checker;
pub mod feed;
pub mod logger;
pub mod router;
pub mod schedule;
pub mod text;

pub use arrivals::{RouteArrivals, TrainArrival};
pub use checker::{
    CheckerError, FetchError, StopQuery, StopStatus, TrainChecker, TrainCheckerConfig, TrainCheckerStatus,
};
pub use logger::{get_data_dir, get_log_file_path};
