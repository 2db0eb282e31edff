use bump_migrations::BumpError;
use bump_migrations::FileEntry;
use bump_migrations::Migration;
use bump_migrations::bump;
use bump_migrations::bump_migration;
use bump_migrations::bump_migration_plan;
use bump_migrations::collect_migrations;
use bump_migrations::sort_migrations;
use bump_migrations::update_dependency;
use bump_migrations::update_name;

fn mig(number: i32, name: &str) -> Migration {
    Migration { number, name: name.to_string() }
}

fn file(name: &str, content: &str) -> FileEntry {
    FileEntry { name: name.to_string(), content: content.to_string() }
}

#[test]
fn collect_skips_non_numeric_and_counts_add_up() {
    let names = vec![
        "0001_a.py".to_string(),
        "junk.py".to_string(),
        "0002_b.py".to_string(),
        "_x".to_string(),
        "README".to_string(),
    ];
    let (migrations, skipped) = collect_migrations(&names);
    assert_eq!(migrations.len(), 2);
    assert_eq!(skipped.len(), 3);
    assert_eq!(migrations.len() + skipped.len(), names.len());
    assert_eq!(migrations[0].number, 1);
    assert_eq!(migrations[0].name.as_str(), "0001_a.py");
    assert_eq!(migrations[1].number, 2);
    assert_eq!(skipped, vec!["junk.py".to_string(), "_x".to_string(), "README".to_string()]);
}

#[test]
fn sort_is_stable_for_equal_ids() {
    let mut migrations = vec![
        mig(2, "0002_b.py"),
        mig(1, "0001_a.py"),
        mig(2, "0002_a.py"),
        mig(2, "02_c.py"),
    ];
    sort_migrations(&mut migrations);
    let names: Vec<&str> = migrations.iter().map(|m| m.name.as_str()).collect();
    assert_eq!(names, vec!["0001_a.py", "0002_b.py", "0002_a.py", "02_c.py"]);
}

#[test]
fn sort_orders_ascending() {
    let mut migrations = vec![mig(9, "0009_z.py"), mig(1, "0001_a.py"), mig(5, "0005_m.py")];
    sort_migrations(&mut migrations);
    let ids: Vec<i32> = migrations.iter().map(|m| m.number).collect();
    assert_eq!(ids, vec![1, 5, 9]);
}

#[test]
fn plan_new_id_is_max_plus_one() {
    let migrations = vec![mig(1, "0001_a.py"), mig(5, "0005_m.py"), mig(9, "0009_z.py")];
    let plan = bump_migration_plan(&migrations, &"0005_m.py".to_string()).unwrap();
    assert_eq!(plan.new_id, 10);
    assert_eq!(plan.old_name.as_str(), "0005_m.py");
    assert_eq!(plan.new_name.as_str(), "00010_m.py");
}

#[test]
fn plan_rejects_non_numeric_target() {
    let migrations = vec![mig(1, "0001_a.py")];
    let r = bump_migration_plan(&migrations, &"abc.py".to_string());
    assert_eq!(r, Err(BumpError::NonNumericPrefix));
}

#[test]
fn plan_rejects_empty_sequence() {
    let migrations: Vec<Migration> = vec![];
    let r = bump_migration_plan(&migrations, &"0002_b.py".to_string());
    assert_eq!(r, Err(BumpError::NoLastMigration));
}

#[test]
fn rewrite_replaces_predecessor_stem_everywhere() {
    let migrations = vec![mig(1, "0001_init.py"), mig(2, "0002_add.py"), mig(3, "0003_del.py")];
    let content = "deps: 0001_init and again 0001_init";
    let out = update_dependency(&content.to_string(), &migrations, &"0002_add.py".to_string())
        .unwrap();
    assert_eq!(out.as_str(), "deps: 0003_del and again 0003_del");
}

#[test]
fn rewrite_fails_without_entries() {
    let migrations: Vec<Migration> = vec![];
    let r = update_dependency(&"x".to_string(), &migrations, &"0002_b.py".to_string());
    assert_eq!(r, Err(BumpError::NoLastMigration));
}

#[test]
fn rewrite_fails_when_target_not_scanned() {
    let migrations = vec![mig(1, "0001_init.py"), mig(3, "0003_del.py")];
    let r = update_dependency(&"x".to_string(), &migrations, &"0002_add.py".to_string());
    assert_eq!(r, Err(BumpError::MigrationNotFound));
}

#[test]
fn rewrite_fails_for_first_entry() {
    let migrations = vec![mig(1, "0001_init.py"), mig(2, "0002_add.py")];
    let r = update_dependency(&"x".to_string(), &migrations, &"0001_init.py".to_string());
    assert_eq!(r, Err(BumpError::PredecessorIndex));
}

#[test]
fn rewrite_fails_for_second_entry_with_equal_ids() {
    let migrations = vec![mig(1, "0001_a.py"), mig(1, "0001_b.py")];
    let r = update_dependency(&"x".to_string(), &migrations, &"0001_b.py".to_string());
    assert_eq!(r, Err(BumpError::PredecessorIndex));
}

#[test]
fn rewrite_second_entry_with_greater_id_uses_first() {
    let migrations = vec![mig(1, "0001_init.py"), mig(2, "0002_add.py")];
    let content = "after 0001_init";
    let out = update_dependency(&content.to_string(), &migrations, &"0002_add.py".to_string())
        .unwrap();
    assert_eq!(out.as_str(), "after 0002_add");
}

#[test]
fn rewrite_duplicate_ids_skip_one_back() {
    let migrations = vec![mig(1, "0001_a.py"), mig(2, "0002_b.py"), mig(2, "0002_c.py")];
    let content = "ref 0001_a end";
    let out = update_dependency(&content.to_string(), &migrations, &"0002_c.py".to_string())
        .unwrap();
    assert_eq!(out.as_str(), "ref 0002_c end");
}

#[test]
fn rename_preserves_content() {
    let mut dir = vec![file("0001_a.py", "alpha"), file("0002_b.py", "beta")];
    let r = update_name(&mut dir, &"0002_b.py".to_string(), &"0004_b.py".to_string());
    assert!(r.is_ok());
    assert_eq!(dir[1].name.as_str(), "0004_b.py");
    assert_eq!(dir[1].content.as_str(), "beta");
    assert_eq!(dir[0].name.as_str(), "0001_a.py");
    assert_eq!(dir[0].content.as_str(), "alpha");
}

#[test]
fn rename_fails_for_missing_source() {
    let mut dir = vec![file("0001_a.py", "alpha")];
    let r = update_name(&mut dir, &"0002_b.py".to_string(), &"0004_b.py".to_string());
    assert_eq!(r, Err(BumpError::RenameError));
    assert_eq!(dir.len(), 1);
    assert_eq!(dir[0].name.as_str(), "0001_a.py");
}

#[test]
fn rename_fails_for_existing_destination() {
    let mut dir = vec![file("0001_a.py", "alpha"), file("0002_b.py", "beta")];
    let r = update_name(&mut dir, &"0001_a.py".to_string(), &"0002_b.py".to_string());
    assert_eq!(r, Err(BumpError::RenameError));
    assert_eq!(dir[0].content.as_str(), "alpha");
    assert_eq!(dir[1].content.as_str(), "beta");
}

#[test]
fn bump_middle_migration_to_end() {
    let mut dir = vec![
        file("0001_init.py", "create the table"),
        file("0002_add_field.py", "dependencies = [('app', '0001_init')]"),
        file("0003_remove_field.py", "dependencies = [('app', '0002_add_field')]"),
    ];
    let r = bump_migration(&mut dir, &"0002_add_field.py".to_string());
    let report = r.unwrap();
    assert_eq!(report.old_name.as_str(), "0002_add_field.py");
    assert_eq!(report.new_name.as_str(), "0004_add_field.py");
    assert_eq!(dir.len(), 3);
    assert_eq!(dir[0].name.as_str(), "0001_init.py");
    assert_eq!(dir[0].content.as_str(), "create the table");
    assert_eq!(dir[1].name.as_str(), "0004_add_field.py");
    assert_eq!(dir[1].content.as_str(), "dependencies = [('app', '0003_remove_field')]");
    assert_eq!(dir[2].name.as_str(), "0003_remove_field.py");
    assert_eq!(dir[2].content.as_str(), "dependencies = [('app', '0002_add_field')]");
}

#[test]
fn bump_empty_directory_reports_no_last_migration() {
    let mut dir: Vec<FileEntry> = vec![];
    let r = bump_migration(&mut dir, &"0002_add_field.py".to_string());
    assert_eq!(r, Err(BumpError::NoLastMigration));
    assert!(dir.is_empty());
}

#[test]
fn bump_missing_file_reports_read_error() {
    let mut dir = vec![file("0001_a.py", "alpha")];
    let r = bump_migration(&mut dir, &"0002_x.py".to_string());
    assert_eq!(r, Err(BumpError::ReadError));
    assert_eq!(dir.len(), 1);
    assert_eq!(dir[0].name.as_str(), "0001_a.py");
}

#[test]
fn bump_non_numeric_target_reports_prefix_error() {
    let mut dir = vec![file("0001_a.py", "alpha")];
    let r = bump_migration(&mut dir, &"notes.txt".to_string());
    assert_eq!(r, Err(BumpError::NonNumericPrefix));
    assert_eq!(dir[0].name.as_str(), "0001_a.py");
}

#[test]
fn bump_first_entry_leaves_files_untouched() {
    let mut dir = vec![
        file("0001_a.py", "alpha"),
        file("0002_b.py", "refs 0001_a"),
    ];
    let r = bump_migration(&mut dir, &"0001_a.py".to_string());
    assert_eq!(r, Err(BumpError::PredecessorIndex));
    assert_eq!(dir[0].name.as_str(), "0001_a.py");
    assert_eq!(dir[0].content.as_str(), "alpha");
    assert_eq!(dir[1].content.as_str(), "refs 0001_a");
}

#[test]
fn bump_batch_sees_earlier_renames_and_continues_on_failure() {
    let mut dir = vec![
        file("0001_a.py", "first"),
        file("0002_b.py", "after 0001_a"),
    ];
    let requests = vec!["0002_b.py".to_string(), "0001_a.py".to_string()];
    let outcomes = bump(&mut dir, &requests);
    assert_eq!(outcomes.len(), 2);
    let first = outcomes[0].as_ref().unwrap();
    assert_eq!(first.new_name.as_str(), "0003_b.py");
    assert_eq!(outcomes[1], Err(BumpError::PredecessorIndex));
    assert_eq!(dir[0].name.as_str(), "0001_a.py");
    assert_eq!(dir[1].name.as_str(), "0003_b.py");
    assert_eq!(dir[1].content.as_str(), "after 0002_b");
}

#[test]
fn bump_ignores_non_conforming_entries_in_directory() {
    let mut dir = vec![
        file("README", "not a migration"),
        file("0001_init.py", "one"),
        file("0002_add.py", "see 0001_init"),
    ];
    let r = bump_migration(&mut dir, &"0002_add.py".to_string());
    let report = r.unwrap();
    assert_eq!(report.new_name.as_str(), "0003_add.py");
    assert_eq!(dir[2].name.as_str(), "0003_add.py");
    assert_eq!(dir[2].content.as_str(), "see 0002_add");
    assert_eq!(dir[0].name.as_str(), "README");
}
