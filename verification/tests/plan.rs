use amethystate::fields::FieldDescriptor;
use amethystate::path::StorePath;
use amethystate::plan::{MigrationBuilder, MigrationPlan, PlanStep, PrefixPlan, StepEntry};

fn steps_of(plan: PrefixPlan<u32>) -> Vec<(u32, String, u32)> {
    plan.migrator
        .into_steps()
        .into_iter()
        .map(|PlanStep { version, description, run }| (version, description, run))
        .collect()
}

fn entry(prefix: &str, version: u32, hash: u32, deps: &[&str], run: u32) -> StepEntry<u32> {
    StepEntry {
        prefix: prefix.to_string(),
        target_version: version,
        description: format!("{prefix} to {version}"),
        schema_hash: hash,
        fields: vec![FieldDescriptor::leaf(
            StorePath::segment(&format!("f{hash}")),
            "u32",
        )],
        dependencies: deps.iter().map(|d| d.to_string()).collect(),
        run,
    }
}

#[test]
fn steps_run_in_version_order_and_ties_keep_their_order() {
    let plan = MigrationPlan::new()
        .step(2, "second", 20)
        .step(1, "first", 10)
        .step(2, "second again", 21);
    assert_eq!(plan.len(), 3);
    let steps: Vec<(u32, String, u32)> = plan
        .into_steps()
        .into_iter()
        .map(|s| (s.version, s.description, s.run))
        .collect();
    assert_eq!(
        steps,
        vec![
            (1, "first".to_string(), 10),
            (2, "second".to_string(), 20),
            (2, "second again".to_string(), 21),
        ]
    );
}

#[test]
fn plans_come_out_sorted_by_prefix() {
    let mut b: MigrationBuilder<u32> = MigrationBuilder::new();
    b.step("users", 1, "add email", 1);
    b.step("items", 1, "rename sku", 2);
    b.depends_on_raw("users", "items");
    b.depends_on_raw("users", "auth");
    b.depends_on_raw("users", "items");
    let set = b.into_set();
    let names: Vec<&str> = set.iter().map(|(n, _)| n.as_str()).collect();
    assert_eq!(names, vec!["items", "users"]);
    let (_, users) = set.into_iter().nth(1).unwrap();
    assert_eq!(users.dependencies.into_names(), vec!["auth".to_string(), "items".to_string()]);
}

#[test]
fn a_dependency_alone_starts_a_plan() {
    let mut b: MigrationBuilder<u32> = MigrationBuilder::new();
    b.depends_on_raw("cache", "config");
    let set = b.into_set();
    assert_eq!(set.len(), 1);
    let (name, plan) = set.into_iter().next().unwrap();
    assert_eq!(name, "cache");
    assert_eq!(plan.schema_hash, 0);
    assert_eq!(plan.migrator.len(), 0);
}

#[test]
fn declared_steps_fold_into_their_prefixes() {
    let mut b: MigrationBuilder<u32> = MigrationBuilder::new();
    b.step("a", 3, "by hand", 99);
    b.collect_codegen(vec![
        entry("a", 0, 5, &["x"], 1),
        entry("b", 0, 4, &[], 2),
        entry("a", 2, 7, &[], 3),
        entry("a", 2, 9, &["y", "x"], 4),
        entry("a", 1, 3, &[], 5),
    ]);
    let set = b.into_set();
    let names: Vec<&str> = set.iter().map(|(n, _)| n.as_str()).collect();
    assert_eq!(names, vec!["a", "b"]);
    let mut it = set.into_iter();
    let (_, a) = it.next().unwrap();
    let (_, bp) = it.next().unwrap();

    assert_eq!(a.schema_hash, 9);
    assert_eq!(a.fields.len(), 1);
    assert_eq!(a.fields[0].name.as_string(), "f9");
    let deps = a.dependencies.into_names();
    assert_eq!(deps, vec!["x".to_string(), "y".to_string()]);
    let steps = steps_of(PrefixPlan { dependencies: amethystate::plan::NameSet::new(), ..a });
    assert_eq!(
        steps,
        vec![
            (1, "a to 1".to_string(), 5),
            (2, "a to 2".to_string(), 3),
            (2, "a to 2".to_string(), 4),
            (3, "by hand".to_string(), 99),
        ]
    );

    assert_eq!(bp.schema_hash, 4);
    assert_eq!(bp.migrator.len(), 0);
    assert_eq!(bp.fields[0].name.as_string(), "f4");
}

#[test]
fn the_newest_step_is_the_last_of_the_highest_version() {
    let mut b: MigrationBuilder<u32> = MigrationBuilder::new();
    b.collect_codegen(vec![
        entry("p", 4, 40, &[], 1),
        entry("p", 4, 41, &[], 2),
        entry("p", 2, 20, &[], 3),
    ]);
    let (_, p) = b.into_set().into_iter().next().unwrap();
    assert_eq!(p.schema_hash, 41);
}

#[test]
fn nothing_declared_changes_nothing() {
    let mut b: MigrationBuilder<u32> = MigrationBuilder::new();
    b.step("keep", 1, "one", 1);
    b.collect_codegen(Vec::new());
    let set = b.into_set();
    assert_eq!(set.len(), 1);
    let (name, plan) = set.into_iter().next().unwrap();
    assert_eq!(name, "keep");
    assert_eq!(plan.schema_hash, 0);
    assert_eq!(plan.migrator.len(), 1);
}
