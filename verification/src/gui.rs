//! What the desktop shell shows and decides, without rendering or I/O.
pub mod app;
pub mod bridge;
pub mod command;
pub mod config;
pub mod event;
pub mod laws;
pub mod panels;
pub mod screen;
pub mod theme;
pub mod types;
pub mod views;
