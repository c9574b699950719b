//! The logic of Moose Rack: what a handheld's cards, favourites, settings and
//! saves are decided by, with every rule stated and proved.
//!
//! Text is handled as a sequence of characters throughout: the view of a
//! `str` or a `String` is a `Seq<char>`, and the functions of [`text`] are
//! proved against statements over it.

pub mod access_laws;
pub mod auth;
pub mod block_laws;
pub mod blocks;
pub mod card_laws;
pub mod collections;
pub mod collections_laws;
pub mod crypto;
pub mod desktop;
pub mod device_laws;
pub mod disk;
pub mod es;
pub mod esctl;
pub mod eslist;
pub mod eslist_laws;
pub mod failure;
pub mod favcarry;
pub mod favcarry_laws;
pub mod favmap;
pub mod favmap_laws;
pub mod favrun;
pub mod favrun_laws;
pub mod favsync;
pub mod flows;
pub mod gamelist;
pub mod gamelist_laws;
pub mod jobs;
pub mod knulli;
pub mod legacy;
pub mod legacy_laws;
pub mod library;
pub mod library_laws;
pub mod lines;
pub mod model;
pub mod number;
pub mod order;
pub mod panel_laws;
pub mod patch;
pub mod patch_laws;
pub mod path_laws;
pub mod path_set;
pub mod paths;
pub mod picks;
pub mod procs;
pub mod rows;
pub mod save_store;
pub mod saves;
pub mod saves_laws;
pub mod service;
pub mod settings_laws;
pub mod step_laws;
pub mod store_laws;
pub mod sync;
pub mod table;
pub mod text;
pub mod web;
pub mod worker;
pub mod xml;
