//! Spatial planning and state reconciliation for a droplet-moving electrode
//! board: grid geometry, collision-aware placement, time-expanded routing and
//! the matching of expected droplets against observed blobs.

pub mod droplet;
pub mod errordetection;
pub mod grid;
pub mod location;
pub mod routing;

pub use droplet::{Blob, Droplet, DropletId, Snapshot};
pub use grid::{Cell, Grid};
pub use location::Location;
