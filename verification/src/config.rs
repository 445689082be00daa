//! The build's configuration values, as the library reads them. Loading
//! them from the manifest file is the surrounding program's business.

use vstd::prelude::*;

verus! {

/// Site-wide settings a build publishes under.
pub struct SiteConfig {
    pub title: String,
    pub author: String,
    pub base_url: String,
    pub description: String,
}

/// One externally linked directory: mounted under `slug` in the logical
/// namespace, read from `path` on disk.
pub struct LinkConfig {
    pub slug: String,
    pub path: String,
}

/// The whole build configuration.
pub struct Config {
    pub site: SiteConfig,
    pub links: Vec<LinkConfig>,
}

} // verus!
