//! Medicines catalogue: search hits regrouped into ordered substance and
//! product views, and HTTP basic authentication.
pub mod auth;
pub mod facet;
pub mod ordered;
pub mod substance;
