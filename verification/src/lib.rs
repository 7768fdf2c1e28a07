//! Verified core of the map backend's business functions: wire encodings,
//! linkage graphs, marker tweaks, rate limiting, session registries and the
//! other decisions that sit between the HTTP layer and the database.

pub mod archive;
pub mod binary_doc;
pub mod grouping;
pub mod hierarchy;
pub mod ids;
pub mod invitation;
pub mod item;
pub mod item_type;
pub mod link_plan;
pub mod notice;
pub mod oauth;
pub mod linkage;
pub mod listing;
pub mod marker;
pub mod rate_limit;
pub mod score;
pub mod snapshot;
pub mod tag;
pub mod text;
pub mod tweak;
pub mod upload;
pub mod user;
pub mod ws;
