pub mod command;
pub mod engine;
pub mod lua_bridge;
pub mod lua_state;
pub mod registry;
pub mod scripts;
pub mod session;
pub mod storage;
pub mod text;
