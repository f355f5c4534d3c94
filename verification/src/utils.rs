//! Views derived from a network snapshot.

pub mod fanout_view;
pub mod level_view;
pub mod visited;

pub use fanout_view::FanoutView;
pub use level_view::{
    compute_levels, compute_reverse_levels, table_is_usable, LevelViewBuilder, ReverseLevelViewBuilder,
};
