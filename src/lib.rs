//! Verified core of a city-builder simulation: multi-resolution trade statistics,
//! the timing bookkeeping of the system scheduler, the road-segment choices of
//! pedestrians, and the company kinds of the prototypes.

pub mod economy;
pub mod pedestrians;
pub mod prototypes;
pub mod scheduler;
