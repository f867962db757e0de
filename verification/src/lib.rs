pub mod auth;
pub mod config;
pub mod crypto;
pub mod decimal;
pub mod error;
pub mod hexadecimal;
pub mod mappings;
pub mod order;
pub mod project;
pub mod routes;
pub mod storage;
pub mod text;
