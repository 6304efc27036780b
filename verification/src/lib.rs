//! Scene-graph core: node handles and kinds, role tables, the text-edit kernel of
//! text inputs, and the small pure helpers that the control layer is built from.

pub mod node;
pub mod strs;
pub mod text;
pub mod edit;
pub mod event;
pub mod roving;
pub mod dynamic;
pub mod scene;
pub mod text_cursor;
pub mod roles;
pub mod css;
pub mod animation;
pub mod tablist;
pub mod dropdown;
pub mod pointer;
