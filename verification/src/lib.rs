//! Decision logic of the headless wiki server.
//!
//! Every module works on plain values: strings, byte vectors, integers and the
//! types declared here. Reading the disk, the environment and the network is
//! left to the server binary, which hands the outcome to this library and acts
//! on what it answers.

pub mod assets;
pub mod auth;
pub mod chat;
pub mod clock;
pub mod config;
pub mod error;
pub mod files;
pub mod graph;
pub mod headers;
pub mod ids;
pub mod index;
pub mod jobs;
pub mod json;
pub mod layout;
pub mod markdown;
pub mod names;
pub mod numbers;
pub mod order;
pub mod pages;
pub mod paths;
pub mod projects;
pub mod provider;
pub mod range;
pub mod revision;
pub mod reviews;
pub mod search;
pub mod settings;
pub mod state;
pub mod store;
pub mod table;
pub mod text;
pub mod tree;
pub mod uploads;
pub mod web;
