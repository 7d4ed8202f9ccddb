//! A SQL query-rewriting hook library: given a SELECT statement, it injects
//! soft-delete and tenant-scoping predicates into the correct WHERE clause,
//! including inside derived subqueries and `COUNT(*)`-wrapping patterns.

pub mod context;
pub mod scan;
pub mod rewrite;
pub mod query_hook;
pub mod registry;
pub mod utf8_splice;

pub use context::AutoFieldContext;
pub use context::ContextInfoProvider;
pub use query_hook::DefaultQueryHook;
pub use registry::{HookRegistry, HookedSeaOrmPlugin, register_query_hook, get_query_hook, unregister_query_hook, register_extract_hook, get_extract_hook, unregister_extract_hook};
