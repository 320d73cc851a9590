//! A composition layer for an entity-component-system simulation: plugins
//! register component types, singleton resources and named per-tick systems
//! with explicit dependencies into a shared builder, which finalizes into an
//! engine owning a world and a dependency-ordered dispatch schedule.

pub mod builder;
pub mod dispatcher;
pub mod system;
pub mod world;
