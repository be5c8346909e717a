//! Fusion of text facts and model regions into ordered blocks.

pub mod assign;
pub mod assign_laws;
pub mod edge_laws;
pub mod edges;
pub mod fallback;
pub mod fallback_laws;
pub mod model_edges;
pub mod order;
pub mod order_laws;
pub mod owner_laws;
pub mod precedence;
pub mod precedence_laws;
pub mod reading;
pub mod region;
pub mod removal_laws;
pub mod score;
pub mod seat_laws;
pub mod seed_laws;
