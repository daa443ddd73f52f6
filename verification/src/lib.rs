//! Reading, searching, rendering, editing and exchanging Lepiter knowledge bases.

pub mod app;
pub mod args;
pub mod check;
pub mod commands;
pub mod counts;
pub mod edit;
pub mod edit_view;
pub mod export;
pub mod highlight;
pub mod import;
pub mod index;
pub mod info;
pub mod inline;
pub mod inline_link;
pub mod json;
pub mod links;
pub mod listing;
pub mod lists;
pub mod lru;
pub mod model;
pub mod new_page;
pub mod number;
pub mod parse;
pub mod plugin;
pub mod record;
pub mod render;
pub mod roundtrip;
pub mod screen;
pub mod show;
pub mod sort;
pub mod strmap;
pub mod styled;
pub mod text;
pub mod time;
pub mod util;
