mod clock;
pub mod laws;
pub mod model;
pub mod order;
pub mod store;
