//! The verified core of waverunner, a launcher and clipboard daemon.

pub mod action_track;
pub mod animation;
pub mod applier;
pub mod apps;
pub mod battery;
pub mod boxes;
pub mod client;
pub mod clip_source;
pub mod clip_state;
pub mod clip_view;
pub mod clipboard;
pub mod config;
pub mod content;
pub mod deck;
pub mod deck_audio;
pub mod deck_thumbs;
pub mod dict;
pub mod dragging;
pub mod emoji;
pub mod files;
pub mod focus_cycle;
pub mod index;
pub mod json;
pub mod order;
pub mod paths;
pub mod scene;
pub mod search;
pub mod text;
