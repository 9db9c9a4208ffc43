//! City simulation core: tile grid, road topology, buildings, population
//! bookkeeping and the frame schedule that drives the GPU simulation.

pub mod buildings;
pub mod clock;
pub mod counters;
pub mod dispatch;
pub mod grid;
pub mod inspector;
pub mod layout;
pub mod paint;
pub mod people;
pub mod roads;
pub mod scenario;
pub mod schedule;
pub mod tools;
pub mod topology;
pub mod view;
pub mod walks;
