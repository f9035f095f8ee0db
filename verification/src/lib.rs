//! A listening server for books: plans, schedules and serves narrated chapters.

pub mod api;
pub mod book;
pub mod book_laws;
pub mod cache;
pub mod chapters;
pub mod chars;
pub mod chunk_laws;
pub mod config;
pub mod disk_laws;
pub mod epub;
pub mod err;
pub mod events;
pub mod export;
pub mod export_laws;
pub mod gc;
pub mod library;
pub mod library_laws;
pub mod migrate;
pub mod migrate_laws;
pub mod order;
pub mod pack;
pub mod paths;
pub mod plan_laws;
pub mod plancache;
pub mod reading_laws;
pub mod render;
pub mod render_laws;
pub mod rows;
pub mod saying_laws;
pub mod sentence_laws;
pub mod session_laws;
pub mod shard_laws;
pub mod state;
pub mod store;
pub mod store_laws;
pub mod stt;
pub mod text;
pub mod text_laws;
pub mod tts;
pub mod view_laws;
pub mod wishlist;
pub mod wishlist_laws;
pub mod worker;
