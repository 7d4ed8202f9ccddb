use sqlhook::context::ContextInfoProvider;
use sqlhook::registry::{
    get_extract_hook, get_query_hook, register_extract_hook, register_query_hook,
    unregister_extract_hook, unregister_query_hook, HookRegistry,
};
use sqlhook::AutoFieldContext;
use sqlhook::DefaultQueryHook;

fn empty_ctx() -> AutoFieldContext {
    AutoFieldContext::default()
}

fn tenant_ctx(tid: &str) -> AutoFieldContext {
    AutoFieldContext::default().with_tenant(Some(tid.to_string()), None)
}

#[test]
fn non_select_statements_pass_through() {
    let hook = DefaultQueryHook::new();
    assert_eq!(hook.before_query("UPDATE t SET x = 1", &empty_ctx()), None);
    assert_eq!(hook.before_query("DELETE FROM t WHERE id = 3", &empty_ctx()), None);
    assert_eq!(hook.before_query("  insert into t values (1)", &empty_ctx()), None);
    assert_eq!(hook.before_query("", &empty_ctx()), None);
}

#[test]
fn skip_list_exempts_table_case_insensitively() {
    let mut hook = DefaultQueryHook::new();
    hook.add_skip_table("Auth_Sys_Dict");
    assert!(hook.should_skip_table("AUTH_SYS_DICT"));
    assert_eq!(
        hook.before_query("SELECT * FROM auth_sys_dict WHERE parent_id IS NULL", &empty_ctx()),
        None
    );
    assert_eq!(
        hook.before_query("SELECT * FROM AUTH_SYS_DICT", &empty_ctx()),
        None
    );
    hook.remove_skip_table("auth_sys_dict");
    assert!(!hook.should_skip_table("Auth_Sys_Dict"));
    assert_eq!(
        hook.before_query("SELECT * FROM auth_sys_dict", &empty_ctx()),
        Some("SELECT * FROM auth_sys_dict WHERE delete_flag = 0".to_string())
    );
}

#[test]
fn rewriting_twice_appends_the_block_again() {
    // Rewriting is advisory: a second application over the already-rewritten
    // text appends the same conjunct once more. The duplicate is conjoined
    // with AND, so the row set is unchanged — semantically idempotent, with
    // no duplicate suppression.
    let hook = DefaultQueryHook::with_flags(true, false);
    let once = hook
        .before_query("SELECT * FROM t WHERE a = 1", &empty_ctx())
        .expect("first rewrite");
    assert_eq!(once, "SELECT * FROM t WHERE a = 1 AND delete_flag = 0");
    let twice = hook.before_query(&once, &empty_ctx()).expect("second rewrite");
    assert_eq!(
        twice,
        "SELECT * FROM t WHERE a = 1 AND delete_flag = 0 AND delete_flag = 0"
    );
}

#[test]
fn soft_delete_appends_to_existing_where() {
    let hook = DefaultQueryHook::with_flags(true, false);
    assert_eq!(
        hook.before_query("SELECT * FROM t WHERE parent_id IS NULL", &empty_ctx()),
        Some("SELECT * FROM t WHERE parent_id IS NULL AND delete_flag = 0".to_string())
    );
}

#[test]
fn alias_qualifies_injected_columns() {
    let hook = DefaultQueryHook::with_flags(true, false);
    let out = hook
        .before_query("SELECT t.* FROM t AS t WHERE t.parent_id IS NULL", &empty_ctx())
        .expect("rewrite");
    assert_eq!(out, "SELECT t.* FROM t AS t WHERE t.parent_id IS NULL AND t.delete_flag = 0");
    assert!(!out.contains("AND delete_flag = 0"));
}

#[test]
fn count_wrapper_receives_predicate_inside_subquery() {
    let hook = DefaultQueryHook::with_flags(true, false);
    let out = hook
        .before_query(
            "SELECT COUNT(*) AS n FROM (SELECT id FROM t WHERE parent_id IS NULL) AS sub",
            &empty_ctx(),
        )
        .expect("rewrite");
    assert_eq!(
        out,
        "SELECT COUNT(*) AS n FROM (SELECT id FROM t WHERE parent_id IS NULL AND delete_flag = 0) AS sub"
    );
    assert!(out.contains("WHERE parent_id IS NULL AND delete_flag = 0) AS sub"));
    assert!(!out.contains("AS sub WHERE"));
}

#[test]
fn tenant_predicate_uses_context_tenant_id() {
    let hook = DefaultQueryHook::new();
    assert_eq!(
        hook.before_query("SELECT * FROM t WHERE a = 1", &tenant_ctx("acme")),
        Some(
            "SELECT * FROM t WHERE a = 1 AND (delete_flag = 0 AND tenant_id = 'acme')".to_string()
        )
    );
    let tenant_only = DefaultQueryHook::with_flags(false, true);
    assert_eq!(
        tenant_only.before_query("SELECT * FROM t", &tenant_ctx("acme")),
        Some("SELECT * FROM t WHERE tenant_id = 'acme'".to_string())
    );
    let with_alias = DefaultQueryHook::with_flags(false, true);
    assert_eq!(
        with_alias.before_query("SELECT x.* FROM t x", &tenant_ctx("acme")),
        Some("SELECT x.* FROM t x WHERE x.tenant_id = 'acme'".to_string())
    );
}

#[test]
fn empty_or_absent_tenant_id_injects_no_tenant_predicate() {
    let hook = DefaultQueryHook::with_flags(false, true);
    assert_eq!(hook.before_query("SELECT * FROM t", &tenant_ctx("")), None);
    assert_eq!(hook.before_query("SELECT * FROM t", &empty_ctx()), None);
    let both = DefaultQueryHook::new();
    assert_eq!(
        both.before_query("SELECT * FROM t", &tenant_ctx("")),
        Some("SELECT * FROM t WHERE delete_flag = 0".to_string())
    );
}

#[test]
fn tenant_value_quotes_are_escaped() {
    let hook = DefaultQueryHook::with_flags(false, true);
    let out = hook
        .before_query("SELECT * FROM t", &tenant_ctx("ac'me"))
        .expect("rewrite");
    assert_eq!(out, "SELECT * FROM t WHERE tenant_id = 'ac''me'");
}

#[test]
fn unparseable_input_passes_through_without_error() {
    let hook = DefaultQueryHook::new();
    assert_eq!(hook.before_query("SELECT FROM WHERE ((", &empty_ctx()), None);
    assert_eq!(hook.before_query("SELECT * FROM )))", &empty_ctx()), None);
    assert_eq!(hook.before_query("SELECT", &empty_ctx()), None);
    assert_eq!(hook.before_query("SELECT 1 + 1", &empty_ctx()), None);
}

#[test]
fn fresh_where_lands_before_trailing_clauses() {
    let hook = DefaultQueryHook::with_flags(true, false);
    assert_eq!(
        hook.before_query("SELECT a FROM t GROUP BY a", &empty_ctx()),
        Some("SELECT a FROM t WHERE delete_flag = 0 GROUP BY a".to_string())
    );
    assert_eq!(
        hook.before_query("SELECT a FROM t ORDER BY a LIMIT 5", &empty_ctx()),
        Some("SELECT a FROM t WHERE delete_flag = 0 ORDER BY a LIMIT 5".to_string())
    );
}

#[test]
fn count_without_derived_subquery_is_untouched() {
    let hook = DefaultQueryHook::new();
    assert_eq!(hook.before_query("SELECT COUNT(*) FROM t", &empty_ctx()), None);
}

#[test]
fn derived_subquery_without_count_gets_outer_predicate() {
    let hook = DefaultQueryHook::with_flags(true, false);
    assert_eq!(
        hook.before_query("SELECT * FROM (SELECT id FROM t) x WHERE y = 1", &empty_ctx()),
        Some("SELECT * FROM (SELECT id FROM t) x WHERE y = 1 AND delete_flag = 0".to_string())
    );
}

#[test]
fn quoted_string_literals_do_not_confuse_the_scanner() {
    let hook = DefaultQueryHook::with_flags(true, false);
    assert_eq!(
        hook.before_query("SELECT * FROM t WHERE name = 'WHERE GROUP BY'", &empty_ctx()),
        Some("SELECT * FROM t WHERE name = 'WHERE GROUP BY' AND delete_flag = 0".to_string())
    );
}

#[test]
fn or_condition_is_parenthesized_before_conjoining() {
    let hook = DefaultQueryHook::with_flags(true, false);
    assert_eq!(
        hook.before_query("SELECT * FROM t WHERE a = 1 OR b = 2", &empty_ctx()),
        Some("SELECT * FROM t WHERE (a = 1 OR b = 2) AND delete_flag = 0".to_string())
    );
    assert_eq!(
        hook.before_query("SELECT * FROM t WHERE a = 1 OR b = 2;", &empty_ctx()),
        Some("SELECT * FROM t WHERE (a = 1 OR b = 2) AND delete_flag = 0;".to_string())
    );
    // an OR already inside parentheses cannot capture the block: no wrapping
    assert_eq!(
        hook.before_query("SELECT * FROM t WHERE (a = 1 OR b = 2) AND c = 3", &empty_ctx()),
        Some("SELECT * FROM t WHERE (a = 1 OR b = 2) AND c = 3 AND delete_flag = 0".to_string())
    );
    // an OR inside a string literal is no disjunction
    assert_eq!(
        hook.before_query("SELECT * FROM t WHERE name = 'a OR b'", &empty_ctx()),
        Some("SELECT * FROM t WHERE name = 'a OR b' AND delete_flag = 0".to_string())
    );
    // the wrapped condition conjoins with the whole grouped block
    let both = DefaultQueryHook::new();
    assert_eq!(
        both.before_query("SELECT * FROM t WHERE a = 1 OR b = 2", &tenant_ctx("acme")),
        Some(
            "SELECT * FROM t WHERE (a = 1 OR b = 2) AND (delete_flag = 0 AND tenant_id = 'acme')"
                .to_string()
        )
    );
}

#[test]
fn skip_list_folds_like_unicode_lowercase() {
    // U+0130 (I with a dot above) lowercases to "i" followed by U+0307; the
    // two spellings are the same skip-list entry.
    let mut hook = DefaultQueryHook::new();
    hook.add_skip_table("\u{130}");
    assert!(hook.should_skip_table("i\u{307}"));
    assert!(hook.should_skip_table("\u{130}"));
    assert_eq!(hook.before_query("SELECT * FROM \u{130}", &empty_ctx()), None);
    hook.remove_skip_table("i\u{307}");
    assert!(!hook.should_skip_table("\u{130}"));
}

#[test]
fn semicolon_keeps_the_predicate_inside_the_statement() {
    let hook = DefaultQueryHook::with_flags(true, false);
    assert_eq!(
        hook.before_query("SELECT * FROM t;", &empty_ctx()),
        Some("SELECT * FROM t WHERE delete_flag = 0;".to_string())
    );
    assert_eq!(
        hook.before_query("SELECT * FROM t WHERE a = 1;", &empty_ctx()),
        Some("SELECT * FROM t WHERE a = 1 AND delete_flag = 0;".to_string())
    );
}

#[test]
fn trailing_statements_after_semicolon_are_untouched() {
    let hook = DefaultQueryHook::with_flags(true, false);
    assert_eq!(
        hook.before_query("SELECT a FROM t; UPDATE u SET x = 1 WHERE y = 2", &empty_ctx()),
        Some("SELECT a FROM t WHERE delete_flag = 0; UPDATE u SET x = 1 WHERE y = 2".to_string())
    );
}

#[test]
fn comments_never_swallow_the_predicate() {
    let hook = DefaultQueryHook::with_flags(true, false);
    assert_eq!(
        hook.before_query("SELECT * FROM t --note", &empty_ctx()),
        Some("SELECT * FROM t WHERE delete_flag = 0 --note".to_string())
    );
    assert_eq!(
        hook.before_query("SELECT * FROM t WHERE a = 1 -- ORDER", &empty_ctx()),
        Some("SELECT * FROM t WHERE a = 1 AND delete_flag = 0 -- ORDER".to_string())
    );
    assert_eq!(
        hook.before_query("SELECT * FROM t /* c */", &empty_ctx()),
        Some("SELECT * FROM t WHERE delete_flag = 0 /* c */".to_string())
    );
    assert_eq!(
        hook.before_query("SELECT * -- FROM phantom\nFROM t", &empty_ctx()),
        Some("SELECT * -- FROM phantom\nFROM t WHERE delete_flag = 0".to_string())
    );
}

#[test]
fn count_descends_into_every_derived_relation() {
    let hook = DefaultQueryHook::with_flags(true, false);
    assert_eq!(
        hook.before_query(
            "SELECT COUNT(*) FROM (SELECT id FROM t) a, (SELECT id FROM u) b",
            &empty_ctx(),
        ),
        Some(
            "SELECT COUNT(*) FROM (SELECT id FROM t WHERE delete_flag = 0) a, (SELECT id FROM u WHERE delete_flag = 0) b"
                .to_string()
        )
    );
    assert_eq!(
        hook.before_query("SELECT COUNT(*) FROM x, (SELECT id FROM t) s2", &empty_ctx()),
        Some("SELECT COUNT(*) FROM x, (SELECT id FROM t WHERE delete_flag = 0) s2".to_string())
    );
}

#[test]
fn set_operation_queries_pass_through() {
    let hook = DefaultQueryHook::new();
    assert_eq!(hook.before_query("SELECT * FROM a UNION SELECT * FROM b", &empty_ctx()), None);
    assert_eq!(
        hook.before_query("SELECT * FROM a UNION SELECT * FROM b WHERE x = 1", &empty_ctx()),
        None
    );
    assert_eq!(
        hook.before_query("SELECT * FROM a INTERSECT SELECT * FROM b", &empty_ctx()),
        None
    );
}

#[test]
fn extract_hook_names_drive_the_same_slot() {
    let mut registry = HookRegistry::new();
    register_extract_hook(&mut registry, DefaultQueryHook::with_flags(false, true));
    let active = get_extract_hook(&registry).expect("a hook is registered");
    assert!(!active.enable_soft_delete && active.enable_tenant_filter);
    unregister_extract_hook(&mut registry);
    assert!(get_extract_hook(&registry).is_none());
}

#[test]
fn registry_lifecycle() {
    let mut registry = HookRegistry::new();
    assert!(get_query_hook(&registry).is_none());
    let mut hook = DefaultQueryHook::with_flags(true, false);
    hook.add_skip_table("audit_log");
    register_query_hook(&mut registry, hook);
    let active = get_query_hook(&registry).expect("a hook is registered");
    assert!(active.enable_soft_delete);
    assert!(!active.enable_tenant_filter);
    assert!(active.should_skip_table("AUDIT_LOG"));
    unregister_query_hook(&mut registry);
    assert!(get_query_hook(&registry).is_none());
}

#[derive(Debug)]
struct FixedProvider;

impl ContextInfoProvider for FixedProvider {
    fn get_current_user_id(&self) -> Option<String> {
        Some("u1".to_string())
    }
    fn get_current_user_name(&self) -> Option<String> {
        Some("user".to_string())
    }
    fn get_current_real_name(&self) -> Option<String> {
        None
    }
    fn get_current_tenant_id(&self) -> Option<String> {
        Some("acme".to_string())
    }
    fn get_current_tenant_name(&self) -> Option<String> {
        Some("Acme Corp".to_string())
    }
}

#[test]
fn context_builders_and_provider() {
    let ctx = AutoFieldContext::from_provider(&FixedProvider);
    assert_eq!(ctx.user_id.as_deref(), Some("u1"));
    assert_eq!(ctx.tenant_id.as_deref(), Some("acme"));
    assert_eq!(ctx.real_name, None);

    let ctx2 = AutoFieldContext::default()
        .with_user(Some("u2".to_string()), None, Some("Real".to_string()))
        .with_tenant(Some("t9".to_string()), Some("Nine".to_string()));
    assert_eq!(ctx2.user_id.as_deref(), Some("u2"));
    assert_eq!(ctx2.real_name.as_deref(), Some("Real"));
    assert_eq!(ctx2.tenant_id.as_deref(), Some("t9"));

    let empty = AutoFieldContext::current_safe();
    assert!(empty.tenant_id.is_none() && empty.user_id.is_none());
}
