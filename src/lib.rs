// A time-log report: tasks read from log lines, nested by the containment of
// their spans of work, laid out by depth and cut into one row per span.

pub mod work_times;
pub mod tasks;
pub mod sorting;
pub mod forest;
pub mod siblings;
pub mod layout;
pub mod log;
pub mod report;
