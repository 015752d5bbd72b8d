pub mod builder;
pub mod compiler;
pub mod enforcer;
pub mod model;
pub mod program;
pub mod soundness;
