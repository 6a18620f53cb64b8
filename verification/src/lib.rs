pub mod auth;
pub mod cloud;
pub mod commands;
pub mod composition;
pub mod deep_merge;
pub mod error;
pub mod fetch;
pub mod flatten;
pub mod handle;
pub mod json;
pub mod plan;
pub mod planner_error;
pub mod representation;
pub mod response;
pub mod sample;
pub mod slice;
pub mod text;
pub mod walker;
