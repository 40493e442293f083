//! Elements of the desktop: what they are, how they are found again, and the
//! rules by which one may be acted on.

pub mod act;
pub mod entity;
pub mod select;
pub mod snapshot;
pub mod walk;
pub mod windows;

pub use act::{ActArgs, ActResult};
pub use entity::{window_bounds, Bounds, Entity};
pub use select::{entity_matches, Filter, Selector};
pub use snapshot::{Discovery, EngineConfig, Scope};
pub use walk::{DiscoverArgs, Walk};
pub use windows::{WindowInfo, WindowTable};
