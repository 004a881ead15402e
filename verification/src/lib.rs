//! Session analytics and realtime guidance for the agents that run in herdr panes.
//!
//! `agents`, `hook` and `turns` follow the status changes of agents and what they say about turns;
//! `live` and `watch` are the daemon's view of the fleet and the advice it gives; `usage`,
//! `projects` and `report` sum up what memex has indexed; `render` and `tui` show it; `since`,
//! `cli` and `config` are what a command asks for and where state is kept. `double`, `text`,
//! `textmap`, `order`, `group`, `jsonl`, `calendar`, `json` and `clock` are what these are built
//! on. `laws` says what is promised of whole operations.

pub mod agents;
pub mod calendar;
pub mod cli;
pub mod clock;
pub mod config;
pub mod double;
pub mod group;
pub mod hook;
pub mod json;
pub mod jsonl;
pub mod laws;
pub mod live;
pub mod order;
pub mod projects;
pub mod render;
pub mod report;
pub mod since;
pub mod text;
pub mod textmap;
pub mod tips;
pub mod tui;
pub mod turns;
pub mod usage;
pub mod watch;
