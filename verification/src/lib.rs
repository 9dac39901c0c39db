//! Verified core of a media-screen plugin: pixel sampling, text rendering
//! of frames for object materials, textdraws and dialogs, playback timing,
//! paint queues and the small registries the plugin keeps.

pub mod pixel;
pub mod text;
pub mod frame3d;
pub mod textdraw;
pub mod dialog;
pub mod animation;
pub mod screen_buffer;
pub mod audio;
pub mod blacklist;
pub mod config;
pub mod paint_ring;
pub mod registry;
pub mod listeners;
pub mod commands;
pub mod video;
pub mod placement;
pub mod amx_frame;
