//! The pieces of a site: ids, the links between them, stylesheets and scripts.
pub mod input;
pub mod javascript;
pub mod relational_graph;
pub mod site_id;
pub mod site_tree;
pub mod stylesheet;
