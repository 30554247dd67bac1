//! Disk usage accounting.

pub mod app;
pub mod bar;
pub mod braille;
pub mod canvas;
pub mod categories;
pub mod chart;
pub mod cli;
pub mod clipboard;
pub mod commands;
pub mod confirm;
pub mod decimal;
pub mod deletion;
pub mod details;
pub mod diff;
pub mod double;
pub mod explorer;
pub mod file_manager;
pub mod footer;
pub mod history;
pub mod keys;
pub mod laws;
pub mod model;
pub mod mounts;
pub mod order;
pub mod output;
pub mod overview;
pub mod palette;
pub mod path;
pub mod picker;
pub mod radial;
pub mod report;
pub mod scan;
pub mod scanning;
pub mod screen;
pub mod size;
pub mod strings;
pub mod text;
pub mod timefmt;
pub mod tree;
pub mod views;
