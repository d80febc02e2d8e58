//! Supervisor for mains-power relay modules that are switched by a daily
//! schedule of fixed, fuzzy and twilight-anchored events.

pub mod config;
pub mod document;
pub mod event_map;
pub mod order;
pub mod rng;
pub mod schedule;
pub mod serial;
pub mod switch;
pub mod ticker;
pub mod timespec;
pub mod tracker;
pub mod web;
