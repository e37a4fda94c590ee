//! Verified core of git-sshripped: repository metadata layout, recipient
//! keyring logic, Git filter decisions, `.gitattributes` maintenance, Git
//! filter configuration, and the textconv blob-path cache.

pub mod text;
pub mod paths;
pub mod models;
pub mod repository;
pub mod gitattributes;
pub mod gitconfig;
pub mod filter;
pub mod recipient;
pub mod textconv;
pub mod trace;
