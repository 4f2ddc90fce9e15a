//! Core logic of a personal blog/gallery content-management system.
//!
//! The library models the relational store (directories, posts, attached
//! image files and the derived path views) as plain data, and verifies the
//! logic that runs over it: resolving a URL path to one of four resource
//! kinds, rebuilding breadcrumb trails, deriving full paths from slugs,
//! listing and ordering posts, and saving an edited post. The web server and
//! the command-line editor around it do only I/O.

use vstd::prelude::*;

pub mod breadcrumbs;
pub mod editor;
pub mod listing;
pub mod models;
pub mod paths;
pub mod resolve;
pub mod save;
pub mod store;
pub mod text;

verus! {

/// Site-wide configuration, read from the server's config file.
pub struct CEMConfig {
    /// Directory under which post files and thumbnails are stored.
    pub upload_dir: String,
    /// Base URL of the site, e.g. `https://example.com`.
    pub base_url: String,
}

} // verus!
