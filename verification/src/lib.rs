//! A Wren scripting engine core: the Wren lexer, the embedding VM's slot
//! and handle API, and the renderer's bookkeeping, with their contracts.

pub mod game;
pub mod graphics;
pub mod wren;
