pub mod apply;
pub mod cond;
pub mod config;
pub mod path;
mod system;

pub use apply::{Action, Event, LinkState};
pub use cond::{eval_cond, parse_cond, CondError, Condition, Operation};
pub use config::{merge_scanned, ConflinkConfig, DirsError, LinkConfig};
pub use path::{replace_envs_in_path, Environment};
