pub mod consts;
pub mod mat;
pub mod neighbors;
pub mod net;
pub mod batch;
pub mod simulation;
pub mod simulation_manager;
pub mod training;
