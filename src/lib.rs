//! Spherical Voronoi diagrams by a sweep over the polar angle.
//!
//! The library holds the combinatorial side of the sweep: dense integer
//! handles, the cyclic beach line of arcs, the event queue and the diagram
//! that the sweep fills. Geometry on floating-point positions is done by the
//! caller and handed in as plain decisions and integer keys.
use vstd::prelude::*;

pub mod beach;
pub mod diagram;
pub mod events;
pub mod id;
pub mod sites;
pub mod sweep;
