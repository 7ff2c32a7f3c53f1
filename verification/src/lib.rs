pub mod fixed;
pub mod render;
pub mod sim;

pub use fixed::SCALE;
pub use render::rain_to_string;
pub use sim::{Simulation, SimulationParameters, V2};
