//! The ambient identity of one logical request: user and tenant, each optional.
//!
//! A context value is built fresh per request (from a [`ContextInfoProvider`]
//! or with the builder methods) and handed explicitly to the rewrite call; it
//! is never stored in process-wide state, so concurrent requests cannot
//! observe each other's identity.

use vstd::prelude::*;

verus! {

/// Supplies the caller identity and tenant identity for the current logical
/// request. Implemented by the host application; any accessor may report the
/// field as absent.
pub trait ContextInfoProvider {
    fn get_current_user_id(&self) -> Option<String>;

    fn get_current_user_name(&self) -> Option<String>;

    fn get_current_real_name(&self) -> Option<String>;

    fn get_current_tenant_id(&self) -> Option<String>;

    fn get_current_tenant_name(&self) -> Option<String>;
}

/// Identity fields of the in-flight request. All fields are optional; an
/// empty or absent tenant id disables tenant-predicate injection.
#[derive(Clone, Debug)]
pub struct AutoFieldContext {
    pub user_id: Option<String>,
    pub user_name: Option<String>,
    pub real_name: Option<String>,
    pub tenant_id: Option<String>,
    pub tenant_name: Option<String>,
}

impl Default for AutoFieldContext {
    /// The empty context: every identity field absent.
    fn default() -> (r: Self)
        ensures
            r.user_id is None,
            r.user_name is None,
            r.real_name is None,
            r.tenant_id is None,
            r.tenant_name is None,
    {
        AutoFieldContext {
            user_id: None,
            user_name: None,
            real_name: None,
            tenant_id: None,
            tenant_name: None,
        }
    }
}

impl AutoFieldContext {
    /// Replaces the user identity fields, keeping the tenant fields.
    pub fn with_user(
        self,
        user_id: Option<String>,
        user_name: Option<String>,
        real_name: Option<String>,
    ) -> (r: Self)
        ensures
            r.user_id == user_id,
            r.user_name == user_name,
            r.real_name == real_name,
            r.tenant_id == self.tenant_id,
            r.tenant_name == self.tenant_name,
    {
        AutoFieldContext { user_id, user_name, real_name, ..self }
    }

    /// Replaces the tenant identity fields, keeping the user fields.
    pub fn with_tenant(self, tenant_id: Option<String>, tenant_name: Option<String>) -> (r: Self)
        ensures
            r.tenant_id == tenant_id,
            r.tenant_name == tenant_name,
            r.user_id == self.user_id,
            r.user_name == self.user_name,
            r.real_name == self.real_name,
    {
        AutoFieldContext { tenant_id, tenant_name, ..self }
    }

    /// Builds a context by querying every accessor of the provider once.
    /// What each field holds is up to the provider's implementation.
    pub fn from_provider<P: ContextInfoProvider>(provider: &P) -> Self {
        AutoFieldContext {
            user_id: provider.get_current_user_id(),
            user_name: provider.get_current_user_name(),
            real_name: provider.get_current_real_name(),
            tenant_id: provider.get_current_tenant_id(),
            tenant_name: provider.get_current_tenant_name(),
        }
    }

    /// The context to fall back on when no request identity has been threaded
    /// to the call: the empty context. Identity is always passed explicitly,
    /// per request, never read from process-wide state.
    pub fn current_safe() -> (r: Self)
        ensures
            r.user_id is None,
            r.user_name is None,
            r.real_name is None,
            r.tenant_id is None,
            r.tenant_name is None,
    {
        Self::default()
    }
}

} // verus!
