pub mod commands;
pub mod keyed;
pub mod menus;
pub mod models;
pub mod names;
pub mod output;
pub mod patterns;
pub mod replies;
pub mod runner;
pub mod runtime_env;
pub mod settings;
pub mod task_service;
pub mod text;
pub mod util;
