pub mod ast;
pub mod builtins;
pub mod compile;
pub mod constants;
pub mod debug;
pub mod editor;
pub mod input;
pub mod jobs;
pub mod launch;
pub mod optimize;
pub mod paths;
pub mod runner;
pub mod screen;
pub mod script;
pub mod sections;
pub mod store;
pub mod strings;
pub mod text;
pub mod trans;
pub mod types;
pub mod util;
pub mod vars;
