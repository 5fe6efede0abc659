//! Turns a calendar document into per-day event files and an index of the
//! earliest days, for a small display device.
pub mod clock;
pub mod document;
pub mod days;
pub mod order;
pub mod plan;
pub mod pipeline;

pub use clock::day_key;
pub use days::{group_by_day, DayBucket};
pub use document::{event_from_properties, read_events, CalendarError, Event, RawProperty};
pub use order::sort_instants;
pub use pipeline::{parse_ical, Args};
pub use plan::{index_text, plan_output, DayFile, Plan};
