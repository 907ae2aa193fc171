pub mod structs;
pub mod spring_system;
pub mod quad;
pub mod force_system;
