use vstd::prelude::*;

pub mod text;
pub mod char_reader;
pub mod parse_error;
pub mod lssg_error;
pub mod attributes;
pub mod html;
pub mod domtree;
pub mod tree;
pub mod line_reader;
pub mod sitetree;
pub mod raw_map;
pub mod pattern;
pub mod stylesheet;
pub mod modules;
pub mod path_extension;
pub mod laws;
pub mod markdown;
pub mod media;
pub mod sitemap;
pub mod blog;
pub mod nav;

verus! {

} // verus!
