//! A forest of identified nodes whose visibility and tag sets flow from
//! ancestors to descendants under linking and subtree relocation.

mod labels;
mod render;
mod tree;

pub use labels::{label_set, tags_view};
pub use render::{comma_list, debug_forms, debug_text, decimal, node_line, rendering, rendering_upto, set_text, tag_set_text};
pub use tree::{Permission, Tree, TreeError, TreeNode};
