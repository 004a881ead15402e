//! What the library promises of whole operations, in terms of what goes in and what comes out.

pub mod agents;
pub mod ask;
pub mod live;
pub mod panel;
pub mod report;
pub mod screen;
pub mod turns;
pub mod usage;
pub mod watch;
