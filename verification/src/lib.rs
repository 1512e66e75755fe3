//! A daily logger of git work: it reads the commits of the user, groups them by
//! ticket, estimates how long they took, and prepares worklogs for Jira and a
//! summary for the morning standup.
//!
//! The crate decides and computes. Reading repositories, talking to services,
//! keeping data on disk and drawing on the terminal are left to the program
//! around it, which hands over plain values and performs the actions that it is
//! given.

// Texts, numbers, orders and dates.
pub mod text;
pub mod number;
pub mod order;
pub mod dates;
pub mod paths;

// Commits, tickets and hours.
pub mod hours;
pub mod scanner;
pub mod tickets;
pub mod config;
pub mod report;
pub mod fill;

// Pull requests, worklogs and what is kept.
pub mod pr;
pub mod http;
pub mod github;
pub mod bitbucket;
pub mod jira;
pub mod store;
pub mod standup;
pub mod fuzzy;
pub mod cache;

// The state of the interface, and what changes it.
pub mod state;
pub mod repos;
pub mod calendar;
pub mod scans;
pub mod results;
pub mod worklogs;
pub mod keys;

// What the interface shows.
pub mod lines;
pub mod panes;
pub mod summary;
pub mod bullets;
pub mod pushview;
pub mod rightpane;
