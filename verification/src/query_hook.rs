//! The rewrite policy: configuration flags, the skip-list of exempted
//! tables, and the statement-level entry points.

use vstd::prelude::*;
use vstd::string::StrSliceExecFns;
use vstd::string::StringSliceAdditionalSpecFns;
use vstd::utf8::{encode_utf8, valid_utf8};
use crate::context::AutoFieldContext;
use crate::rewrite::{
    rewrite_spec, rewrite_bytes, skip_set, optr_view, contains_name, bytes_eq, folded_name,
    fold_bytes, clone_bytes,
};

verus! {

/// The tenant id carried by a request context, as encoded bytes.
pub open spec fn tenant_view(ctx: &AutoFieldContext) -> Option<Seq<u8>> {
    match ctx.tenant_id {
        Some(t) => Some(encode_utf8(t@)),
        None => None,
    }
}

/// Relies on String::from_utf8: it returns the string holding exactly the
/// given bytes if and only if they are valid UTF-8.
#[verifier::external_body]
fn string_of_bytes(v: Vec<u8>) -> (r: Option<String>)
    ensures
        r is Some ==> encode_utf8(r->0@) == v@,
        valid_utf8(v@) ==> r is Some,
{
    match String::from_utf8(v) {
        Ok(s) => Some(s),
        Err(_) => None,
    }
}

/// The default query-rewriting policy: soft-delete filtering and tenant
/// filtering, each switchable, and a set of table names exempted from
/// rewriting. Skip-list names are folded to lowercase on insertion, removal
/// and lookup, so membership is case-insensitive.
pub struct DefaultQueryHook {
    /// Whether a `delete_flag = 0` predicate is injected.
    pub enable_soft_delete: bool,
    /// Whether a `tenant_id = '...'` predicate is injected when the request
    /// context carries a non-empty tenant id.
    pub enable_tenant_filter: bool,
    /// The exempted table names, each held in its normalized (lowercase)
    /// form. Maintained through `add_skip_table` and `remove_skip_table`.
    pub skip_tables: Vec<Vec<u8>>,
}

proof fn lemma_skip_set_push(v: Seq<Vec<u8>>, x: Vec<u8>)
    ensures
        skip_set(v.push(x)) =~= skip_set(v).insert(x@),
{
    let w = v.push(x);
    assert forall|y: Seq<u8>| skip_set(w).contains(y) implies skip_set(v).insert(x@).contains(
        y,
    ) by {
        let k = choose|k: int| 0 <= k < w.len() && #[trigger] w[k]@ == y;
        if k < v.len() {
            assert(v[k]@ == y);
        } else {
            assert(w[k] == x);
        }
    };
    assert forall|y: Seq<u8>| skip_set(v).insert(x@).contains(y) implies skip_set(w).contains(
        y,
    ) by {
        if y == x@ {
            assert(w[v.len() as int]@ == y);
        } else {
            let k = choose|k: int| 0 <= k < v.len() && #[trigger] v[k]@ == y;
            assert(w[k]@ == y);
        }
    };
}

/// The lowercase folding of a table name given as a string, over its encoded
/// bytes: the normal form under which skip-list membership is decided. The
/// folding is the Unicode one that `str::to_lowercase` performs, so two names
/// that fold equal are the same skip-list entry whatever their case.
pub open spec fn normalized_name(name: Seq<char>) -> Seq<u8> {
    folded_name(encode_utf8(name))
}

impl DefaultQueryHook {
    /// The set of (normalized) table names currently exempted.
    pub closed spec fn skip_view(&self) -> Set<Seq<u8>> {
        skip_set(self.skip_tables@)
    }

    /// A policy with both filters enabled and an empty skip-list.
    pub fn new() -> (r: Self)
        ensures
            r.enable_soft_delete == true,
            r.enable_tenant_filter == true,
            r.skip_view() == Set::<Seq<u8>>::empty(),
    {
        let r = DefaultQueryHook {
            enable_soft_delete: true,
            enable_tenant_filter: true,
            skip_tables: Vec::new(),
        };
        proof {
            assert(r.skip_view() =~= Set::<Seq<u8>>::empty());
        }
        r
    }

    /// A policy with each filter switched as given and an empty skip-list.
    pub fn with_flags(enable_soft_delete: bool, enable_tenant_filter: bool) -> (r: Self)
        ensures
            r.enable_soft_delete == enable_soft_delete,
            r.enable_tenant_filter == enable_tenant_filter,
            r.skip_view() == Set::<Seq<u8>>::empty(),
    {
        let r = DefaultQueryHook { enable_soft_delete, enable_tenant_filter, skip_tables: Vec::new() };
        proof {
            assert(r.skip_view() =~= Set::<Seq<u8>>::empty());
        }
        r
    }

    fn normalize(name: &str) -> (r: Vec<u8>)
        ensures
            r@ == normalized_name(name@),
    {
        let b = name.as_bytes_vec();
        fold_bytes(&b)
    }

    /// Exempts a table from rewriting. The name is folded to lowercase first.
    pub fn add_skip_table(&mut self, table_name: &str)
        ensures
            final(self).skip_view() == old(self).skip_view().insert(normalized_name(table_name@)),
            final(self).enable_soft_delete == old(self).enable_soft_delete,
            final(self).enable_tenant_filter == old(self).enable_tenant_filter,
    {
        let n = Self::normalize(table_name);
        proof {
            lemma_skip_set_push(self.skip_tables@, n);
        }
        self.skip_tables.push(n);
    }

    /// Withdraws a table's exemption. The name is folded to lowercase first.
    pub fn remove_skip_table(&mut self, table_name: &str)
        ensures
            final(self).skip_view() == old(self).skip_view().remove(normalized_name(table_name@)),
            final(self).enable_soft_delete == old(self).enable_soft_delete,
            final(self).enable_tenant_filter == old(self).enable_tenant_filter,
    {
        let n = Self::normalize(table_name);
        let v = &self.skip_tables;
        let mut w: Vec<Vec<u8>> = Vec::new();
        let mut k: usize = 0;
        proof {
            assert(skip_set(w@) =~= skip_set(v@.subrange(0, 0)).remove(n@));
        }
        while k < v.len()
            invariant
                k <= v@.len(),
                skip_set(w@) == skip_set(v@.subrange(0, k as int)).remove(n@),
            decreases v@.len() - k,
        {
            proof {
                assert(v@.subrange(0, (k + 1) as int) =~= v@.subrange(0, k as int).push(
                    v@[k as int],
                ));
                lemma_skip_set_push(v@.subrange(0, k as int), v@[k as int]);
            }
            if !bytes_eq(&v[k], &n) {
                let item = clone_bytes(&v[k]);
                proof {
                    lemma_skip_set_push(w@, item);
                    assert(skip_set(w@.push(item)) =~= skip_set(
                        v@.subrange(0, (k + 1) as int),
                    ).remove(n@));
                }
                w.push(item);
            } else {
                proof {
                    assert(skip_set(w@) =~= skip_set(v@.subrange(0, (k + 1) as int)).remove(n@));
                }
            }
            k += 1;
        }
        proof {
            assert(v@.subrange(0, v@.len() as int) =~= v@);
        }
        self.skip_tables = w;
    }

    /// Whether the (normalized) table name is currently exempted.
    pub fn should_skip_table(&self, table_name: &str) -> (r: bool)
        ensures
            r == self.skip_view().contains(normalized_name(table_name@)),
    {
        let n = Self::normalize(table_name);
        contains_name(&self.skip_tables, &n)
    }

    /// Rewrites one statement, or lets it pass through.
    ///
    /// Returns the rewritten text exactly when predicates were injected, and
    /// nothing when the statement passes through unchanged — because it is
    /// not a SELECT (decided before any parsing), because no driving table
    /// is resolvable (a parse failure is advisory, never an error), because
    /// the table is exempted by the skip-list, or because the policy and
    /// context yield no predicate. The result is pinned, byte for byte, by
    /// [`rewrite_spec`] over the statement's encoded bytes.
    pub fn before_query(&self, sql: &str, ctx: &AutoFieldContext) -> (r: Option<String>)
        ensures
            ({
                let spec_r = rewrite_spec(
                    sql.spec_bytes(),
                    self.enable_soft_delete,
                    self.enable_tenant_filter,
                    tenant_view(ctx),
                    self.skip_view(),
                );
                match r {
                    Some(out) => spec_r is Some && encode_utf8(out@) == spec_r->0,
                    None => spec_r is None,
                }
            }),
    {
        let bytes = sql.as_bytes_vec();
        let tb: Option<Vec<u8>> = match &ctx.tenant_id {
            Some(t) => Some(t.as_str().as_bytes_vec()),
            None => None,
        };
        let tid: Option<&Vec<u8>> = match &tb {
            Some(v) => Some(v),
            None => None,
        };
        proof {
            assert(optr_view(tid) == tenant_view(ctx));
        }
        match rewrite_bytes(
            &bytes,
            self.enable_soft_delete,
            self.enable_tenant_filter,
            tid,
            &self.skip_tables,
        ) {
            None => None,
            Some(out) => {
                proof {
                    vstd::utf8::encode_utf8_valid_utf8(sql@);
                    if ctx.tenant_id is Some {
                        vstd::utf8::encode_utf8_valid_utf8(ctx.tenant_id->0@);
                    }
                    crate::rewrite::lemma_rewrite_valid_utf8(
                        bytes@,
                        self.enable_soft_delete,
                        self.enable_tenant_filter,
                        tenant_view(ctx),
                        self.skip_view(),
                    );
                }
                string_of_bytes(out)
            },
        }
    }

    /// Post-execution notification: called with the SQL actually executed and
    /// whether execution succeeded, after every statement, whatever its
    /// outcome. It never affects the result handed back to the caller; this
    /// policy deliberately does nothing with it.
    pub fn after_query(&self, _sql: &str, _succeeded: bool) {
    }
}

} // verus!
