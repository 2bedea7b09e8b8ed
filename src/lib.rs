//! Overlay routing on an identifier ring: nodes of a graph learn, by gossip
//! with their contacts, short routes toward fixed target identifiers, and then
//! forward greedily toward any identifier using only what they hold.

pub mod network;
pub mod network_gen;
pub mod node_fingers;
pub mod approx_funcs;
pub mod chord;
pub mod coupons;
pub mod ids_chain;
mod random;
pub mod ring;
pub mod semi_routes_array;
pub mod towers;
