pub mod components;
pub mod map;
pub mod resources;
pub mod dijkstra;
pub mod fov;
pub mod systems;
