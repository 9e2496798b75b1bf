pub mod axum_ops;
pub mod controller;
pub mod generic;
pub mod route;
pub mod stateful;

pub use crate::controller::Controller;
pub use generic::{AxumRouter, NestedRouter, Route, Router, Routes};
