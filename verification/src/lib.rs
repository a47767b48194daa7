pub mod backup;
pub mod bulk;
pub mod commands;
pub mod config;
pub mod errors;
pub mod github;
pub mod json;
pub mod profiles;
pub mod search;
pub mod strutil;
pub mod templates;
pub mod utils;
pub mod validation;
