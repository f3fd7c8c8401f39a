//! A load-testing harness's core: workers that decide when to stop, a
//! collection loop that logs every completed request and knows when the run
//! is over, an aggregator with running statistics and a throttled redraw,
//! the dashboard's layout and text, and the per-request log.
pub mod aggregate;
pub mod args;
pub mod collector;
pub mod csv;
pub mod dashboard;
pub mod layout;
pub mod message;
pub mod worker;

pub use aggregate::{App, UpdateError, REDRAW_INTERVAL_MILLIS};
pub use args::{get_headers, parse_header, string_to_method, Args, HttpMethod};
pub use collector::Collector;
pub use csv::{csv_text, decimal_string, log_row, parse_csv, parse_csv_line, CsvRow, CSV_HEADER};
pub use dashboard::UIHandler;
pub use layout::{create_layout, AppLayout, Rect};
pub use message::{Message, Results};
pub use worker::Worker;
