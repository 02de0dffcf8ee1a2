//! A verified core for a terminal purchase-recording tool: dated records
//! (date, category, description, price in minor currency units), a multi-field
//! entry wizard with validation and history-assisted autocomplete, generic
//! list-navigation arithmetic, and a date-ordered resort of the record set.

pub mod app;
pub mod history;
pub mod navigate;
pub mod record;
pub mod sort;
pub mod store;
pub mod text;
pub mod util;

pub use app::{App, AppState};
pub use record::DbItem;
pub use store::{Store, StoreError};
pub use navigate::{navigate_down, navigate_end, navigate_home, navigate_up, NavOp};
pub use util::{format_price, parse_date, parse_price, today, Date};
