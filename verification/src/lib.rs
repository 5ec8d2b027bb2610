pub mod color;
pub mod framebuffer;
pub mod snake;
pub mod game;
pub mod score;
