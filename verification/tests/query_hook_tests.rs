use sqlhook::AutoFieldContext;
use sqlhook::DefaultQueryHook;

#[test]
fn test_count_query_handling() {
    let hook = DefaultQueryHook::new();

    let count_sql = "SELECT COUNT(*) AS num_items FROM (SELECT \"auth_sys_dict\".\"id\" FROM \"auth_sys_dict\" WHERE \"auth_sys_dict\".\"parent_id\" IS NULL) AS \"sub_query\"";
    println!("Original COUNT SQL: {}", count_sql);

    let result = hook.before_query(count_sql, &AutoFieldContext::current_safe());

    if let Some(modified_sql) = result {
        println!("Modified COUNT SQL: {}", modified_sql);

        assert!(
            modified_sql.contains("WHERE \"auth_sys_dict\".\"parent_id\" IS NULL AND delete_flag = 0"),
            "条件应该添加到内部子查询，而不是外部查询"
        );
        assert!(
            !modified_sql.contains("sub_query\" WHERE delete_flag = 0"),
            "条件不应该添加到外部查询"
        );
        println!("✓ COUNT查询修复成功！条件被正确添加到内部子查询");
    } else {
        panic!("COUNT查询未被修改");
    }
}

#[test]
fn test_normal_select_query() {
    let hook = DefaultQueryHook::new();

    let select_sql = "SELECT * FROM auth_sys_dict WHERE parent_id IS NULL";
    println!("\nOriginal SELECT SQL: {}", select_sql);

    let result = hook.before_query(select_sql, &AutoFieldContext::current_safe());

    if let Some(modified_sql) = result {
        println!("Modified SELECT SQL: {}", modified_sql);
        assert!(
            modified_sql.contains("WHERE parent_id IS NULL AND delete_flag = 0"),
            "条件应该添加到普通查询"
        );
        println!("✓ 普通SELECT查询正常工作");
    } else {
        panic!("普通SELECT查询未被修改");
    }
}

#[test]
fn test_select_with_table_alias() {
    let hook = DefaultQueryHook::new();

    let select_sql = "SELECT t.* FROM auth_sys_dict t WHERE t.parent_id IS NULL";
    println!("\nOriginal SELECT with alias SQL: {}", select_sql);

    let result = hook.before_query(select_sql, &AutoFieldContext::current_safe());

    if let Some(modified_sql) = result {
        println!("Modified SELECT with alias SQL: {}", modified_sql);
        assert!(
            modified_sql.contains("WHERE t.parent_id IS NULL AND t.delete_flag = 0"),
            "条件应该使用表别名格式 t.delete_flag"
        );
        assert!(
            !modified_sql.contains("AND delete_flag = 0"),
            "不应该使用无别名的字段名"
        );
        println!("✓ 带有表别名的SELECT查询正常工作");
    } else {
        panic!("带有表别名的SELECT查询未被修改");
    }
}
