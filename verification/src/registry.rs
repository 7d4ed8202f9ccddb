//! The hook registry: a slot holding the active rewrite policy.
//!
//! The host application owns one registry for the whole process (set at
//! startup, optionally replaced at runtime, cleared at shutdown or test
//! teardown) and guards it with its own lock; every operation here works on
//! an explicitly passed registry value, so the slot's contents are never
//! hidden global state from the library's point of view.

use vstd::prelude::*;
use crate::query_hook::DefaultQueryHook;

verus! {

/// A slot that holds the active rewrite policy, or nothing when rewriting is
/// switched off: connections then behave as pure passthroughs.
pub struct HookRegistry {
    /// The active policy, if one is registered.
    pub hook: Option<DefaultQueryHook>,
}

impl HookRegistry {
    /// An empty registry: no policy active.
    pub fn new() -> (r: Self)
        ensures
            r.hook is None,
    {
        HookRegistry { hook: None }
    }
}

/// Installs `hook` as the active policy, replacing any previous one.
pub fn register_query_hook(registry: &mut HookRegistry, hook: DefaultQueryHook)
    ensures
        final(registry).hook == Some(hook),
{
    registry.hook = Some(hook);
}

/// The currently active policy, if any.
pub fn get_query_hook(registry: &HookRegistry) -> (r: Option<&DefaultQueryHook>)
    ensures
        match r {
            Some(h) => registry.hook == Some(*h),
            None => registry.hook is None,
        },
{
    match &registry.hook {
        Some(h) => Some(h),
        None => None,
    }
}

/// Clears the active policy; connections fall back to pure passthrough.
pub fn unregister_query_hook(registry: &mut HookRegistry)
    ensures
        final(registry).hook is None,
{
    registry.hook = None;
}

/// Installs `hook` as the active policy. Alias of [`register_query_hook`]
/// for callers that use the extraction-hook naming for the same slot.
pub fn register_extract_hook(registry: &mut HookRegistry, hook: DefaultQueryHook)
    ensures
        final(registry).hook == Some(hook),
{
    register_query_hook(registry, hook);
}

/// The currently active policy, if any. Alias of [`get_query_hook`].
pub fn get_extract_hook(registry: &HookRegistry) -> (r: Option<&DefaultQueryHook>)
    ensures
        match r {
            Some(h) => registry.hook == Some(*h),
            None => registry.hook is None,
        },
{
    get_query_hook(registry)
}

/// Clears the active policy. Alias of [`unregister_query_hook`].
pub fn unregister_extract_hook(registry: &mut HookRegistry)
    ensures
        final(registry).hook is None,
{
    unregister_query_hook(registry);
}

/// Marker for the startup step that connects the database, registers the
/// default rewrite policy, and wraps the raw connection so that every
/// statement runs through the policy first. The wiring itself lives with the
/// host application, which owns the connection and the framework glue.
pub struct HookedSeaOrmPlugin;

} // verus!
