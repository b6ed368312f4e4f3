pub mod articles;
pub mod config;
pub mod info;
pub mod pages;
pub mod persistence;
pub mod posts;
pub mod sorting;
pub mod store;
pub mod text;
pub mod utils;
