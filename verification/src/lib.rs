//! A digital logic circuit simulator: circuit plots made of blocks and
//! wires, the logic of the predefined gates and latches, the
//! simulation of custom modules, and an undo/redo history of edits.

pub mod id;

pub mod vector;
pub mod editor;
pub mod info;
pub mod decoration;
pub mod connection;
pub mod keys;
pub mod block;
pub mod state;
pub mod selection;
pub mod plot;
pub mod modules;
pub mod builtin;
pub mod collect;
pub mod simulator;
pub mod project;
pub mod module_file;
pub mod action;
pub mod clipboard;
pub mod editing;
pub mod user_settings;
