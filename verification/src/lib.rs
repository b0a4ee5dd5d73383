//! Podspine: an audiobook library served as per-chapter podcast feeds.

pub mod chapters;
pub mod config;
pub mod faststart;
pub mod feed;
pub mod http;
pub mod index;
pub mod metrics;
pub mod paths;
pub mod prober;
pub mod scanner;
pub mod single;
pub mod sorting;
pub mod splitter;
pub mod text;
pub mod ticks;
pub mod ui;
mod outside;
