pub mod ids;
pub mod scene;
pub mod state;
pub mod transform;
pub mod tree;
