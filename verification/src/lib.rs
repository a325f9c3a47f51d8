//! The model of a behavior tree visualizer: the tree that a running program
//! reports, the group of it that is watched, and what is shown of that group.

pub mod color;
pub mod group;
pub mod laws;
pub mod laws_of_groups;
pub mod laws_of_models;
pub mod laws_of_shapes;
pub mod laws_of_state;
pub mod shape;
pub mod state;
pub mod text;
pub mod time;
pub mod tree;

pub use color::Color;
pub use group::ExtraData;
pub use group::GroupContent;
pub use shape::EdgeLayout;
pub use shape::NodeShape;
pub use shape::Span;
pub use state::GroupError;
pub use state::MyApp;
pub use state::Status;
pub use state::VisualizerMessage;
pub use time::Timestamp;
pub use tree::NodeTypes;
pub use tree::WatchContent;
pub use tree::WatchState;
