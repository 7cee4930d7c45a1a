//! A verified hub core for collaborative mobile robots: the registry of live
//! robots, the workspace safety rules, command dispatch and the per-connection
//! session logic. All state is plain data; sockets, threads and clocks belong
//! to the caller.

pub mod dispatch;
pub mod fault;
pub mod message;
pub mod monitor;
pub mod position;
pub mod registry;
pub mod robot;
pub mod safety;
pub mod scalar;
pub mod session;
pub mod wide;
pub mod wire;

pub use dispatch::Delivery;
pub use fault::Fault;
pub use message::{ClientMessage, RobotState, ServerMessage};
pub use position::Position;
pub use registry::{Filing, Leaver, Registry, RegistryEntry, Sighting};
pub use safety::{BOUNDARY_HEIGHT, BOUNDARY_WIDTH};
pub use scalar::Scalar;
pub use session::Session;
