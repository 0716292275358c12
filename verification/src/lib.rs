//! Library for identifying and managing builds of a game's managed assembly.
//!
//! The library parses raw PE/CLI binaries to locate two metadata heaps,
//! classifies the binary into a build identity from marker strings and an
//! embedded version literal, and plans the catalog/install operations of a
//! local collection of such builds.

pub mod dll_classifier;
pub mod dll_management;
pub mod dll_parser;
pub mod game;
pub mod settings;
pub mod text;
