//! What holds of the node as a whole, over any frames and any state.

pub mod answers;
pub mod authority;
pub mod changes;
pub mod convergence;
pub mod delivery;
pub mod dispatch;
pub mod log;
pub mod membership;
pub mod ordered;
pub mod refusals;
pub mod replies;
pub mod requests;
pub mod sightings;
pub mod spelling;
pub mod topology;
pub mod wire;
