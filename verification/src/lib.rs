//! Core of a minimal real-time interactive engine: a game-state stack driving
//! a fixed main loop, an event-dispatch mechanism decoupling input and
//! lifecycle producers from consumers, and a scene graph traversed once per
//! frame to emit draw directives.

pub mod event;
pub mod game;
pub mod graphics;
pub mod input;
pub mod resources;
pub mod scene;
pub mod util;
pub mod window;
