//! Game logic of a side-scrolling shooter with several depth layers:
//! depth layers, a navigation grid with A* path search, sprite animation,
//! the attack state machine and the decisions of layer-to-layer movement.

pub mod layer;
pub mod nav_grid;
pub mod timer;
pub mod animation;
pub mod attack;
pub mod movement;
pub mod hit;
