use amethystate::buffer::{Pending, PendingOp};
use amethystate::builder::{default_backend, Backend};
use amethystate::config::{FileWritePolicy, StoreConfig, WriteAttempts, WriteLimits, MILLI, SECOND};
use amethystate::depth::{Depth, DepthBudget};
use amethystate::document::{generic_delete, generic_get, generic_scan, generic_set, Navigable, Node, RonDocument};
use amethystate::errors::{DepthError, MigrationError, Occupied, StorageError};
use amethystate::events::{delete_event, listeners, prefix_event, write_event};
use amethystate::flush::{flush_plan, Statement};
use amethystate::overlay::{scan_keys_from, scan_prefix_from, scan_step, ScanStep};
use amethystate::path::StorePath;
use amethystate::scan::{init_key, is_under, key_range, stored_path, subtree_bound, CodecFormat, StoreOp, SubscriptionKind};
use amethystate::text::decimal;

fn path(joined: &str) -> StorePath {
    StorePath::parse_joined(joined).unwrap()
}

fn parts(levels: &[&str]) -> Vec<String> {
    levels.iter().map(|s| s.to_string()).collect()
}

#[test]
fn the_limit_itself_is_allowed_and_one_more_is_refused() {
    let mut d = Depth::new(8);
    for _ in 0..8 {
        assert!(d.enter().is_ok());
    }
    assert_eq!(d.deepest(), 8);
    assert_eq!(d.enter(), Err(DepthError::TooDeep { limit: 8 }));
    assert!(d.overflowed());
}

#[test]
fn the_deepest_branch_counts_not_the_last_one() {
    let mut d = Depth::new(20);
    d.enter().unwrap();
    for _ in 0..5 {
        d.enter().unwrap();
    }
    for _ in 0..5 {
        d.leave();
    }
    d.enter().unwrap();
    d.leave();
    d.leave();
    assert_eq!(d.deepest(), 6);
    assert_eq!(d.current(), 0);
    assert!(!d.overflowed());
    d.leave();
    assert_eq!(d.current(), 0, "closing at the top is a no-op");
}

#[test]
fn an_unlimited_budget_never_overflows_here() {
    let mut d = Depth::unlimited();
    assert_eq!(d.limit(), usize::MAX);
    d.enter().unwrap();
    assert_eq!(d.deepest(), 1);
    assert!(!d.saw_an_enum() && !d.saw_a_non_finite_float());
    d.note_enum();
    d.note_non_finite_float();
    assert!(d.saw_an_enum() && d.saw_a_non_finite_float());
}

#[test]
fn a_budget_is_the_lowest_ceiling_it_promised() {
    let limits = WriteLimits::default().portable_across(vec![Backend::Json, Backend::Ron]);
    assert_eq!(limits.ceiling(Backend::Redb), 64);
    let budget = DepthBudget::resolve(&limits, Backend::Redb);
    assert_eq!(budget.ceiling, 64);
    assert!(!budget.non_finite_floats, "json writes a NaN as null");
    assert!(!budget.enums, "ron reads an enum back as a sequence");
    let alone = DepthBudget::for_codec(&WriteLimits::default(), CodecFormat::Toml);
    assert_eq!(alone.ceiling, 80);
    assert!(alone.non_finite_floats && alone.enums);
    assert_eq!(DepthBudget::for_codec(&WriteLimits::default(), CodecFormat::SonicJson).ceiling, 254);
}

#[test]
fn a_path_spends_the_budget_its_value_shares() {
    let limits = WriteLimits::default().key_depth(2);
    let budget = DepthBudget::resolve(&limits, Backend::Ron);
    assert_eq!(budget.check_path(&path("a.b")), Ok(()));
    assert_eq!(budget.check_path(&path("a.b.c")), Err(StorageError::Depth));
    assert_eq!(budget.for_value(&path("a.b")).limit(), 62);
    let tight = DepthBudget { ceiling: 1, key_depth: None, non_finite_floats: true, enums: true };
    assert_eq!(tight.for_value(&path("a.b.c")).limit(), 0);
    assert_eq!(tight.too_deep(&path("a")), StorageError::Codec);
}

#[test]
fn a_finished_pass_is_refused_for_what_the_store_cannot_hold() {
    let budget = DepthBudget::resolve(&WriteLimits::default(), Backend::Json);
    let mut d = budget.for_value(&path("x"));
    assert_eq!(budget.refused(&d, &path("x")), None);
    d.note_non_finite_float();
    assert_eq!(budget.refused(&d, &path("x")), Some(StorageError::Codec));
    let ron = DepthBudget::resolve(&WriteLimits::default(), Backend::Ron);
    let mut e = ron.for_value(&path("x"));
    e.note_enum();
    assert_eq!(ron.refused(&e, &path("x")), Some(StorageError::Codec));
}

#[test]
fn write_attempts_wait_one_pause_fewer_than_they_try() {
    let w = WriteAttempts::times(3).apart(15 * MILLI);
    assert_eq!(w.budget(), 30 * MILLI);
    assert_eq!(WriteAttempts::once().budget(), 0);
    assert_eq!(WriteAttempts::times(0).apart(5).budget(), 0);
    let policy = FileWritePolicy::default();
    assert_eq!(policy.write, WriteAttempts { attempts: 3, pause: 15 * MILLI });
    assert_eq!(policy.replace, WriteAttempts { attempts: 5, pause: 100 * MILLI });
    assert_eq!(policy.replace.budget(), 400 * MILLI);
    let changed = policy.writing(WriteAttempts::once()).replacing(WriteAttempts::times(2));
    assert_eq!(changed.write.attempts, 1);
    assert_eq!(changed.replace.attempts, 2);
}

#[test]
fn a_store_config_starts_from_the_standard_settings() {
    let c = StoreConfig::new("app.redb".to_string());
    assert_eq!(c.save_debounce, 300 * MILLI);
    assert_eq!(c.watch_interval, 500 * MILLI);
    assert_eq!(c.retry_policy.interval, 5 * SECOND);
    assert_eq!(c.retry_policy.budget, 60 * SECOND);
    assert!(!c.parallel_reads);
    assert_eq!(c.limits.key_depth, None);
}

#[test]
fn each_engine_names_its_files_and_ceilings() {
    assert_eq!(default_backend(), Backend::Redb);
    assert_eq!(Backend::Sqlite.extension(), "db");
    assert_eq!(Backend::Toml.depth_ceiling(), 80);
    assert!(!Backend::Redb.human_readable());
    assert_eq!(Backend::for_codec(CodecFormat::Ron), Backend::Ron);
    assert_eq!(Backend::Json.codec(), CodecFormat::Json);
}

#[test]
fn keys_under_a_prefix_stop_at_a_level_boundary() {
    let bound = subtree_bound(&path("ui"));
    assert_eq!(bound, Some("ui.".to_string()));
    assert!(is_under("ui", "ui", &bound));
    assert!(is_under("ui.theme", "ui", &bound));
    assert!(!is_under("uix.width", "ui", &bound));
    assert!(is_under("anything", "", &subtree_bound(&StorePath::root())));
    assert_eq!(key_range(&path("ui")), ("ui".to_string(), "ui/".to_string()));
    assert_eq!(init_key("ui"), "__init::ui");
    assert_eq!(stored_path("a..b"), Err(StorageError::Scan));
    assert_eq!(stored_path("a.b").unwrap(), path("a.b"));
}

#[test]
fn a_scan_lays_the_buffer_over_what_was_committed() {
    let committed = vec![
        ("ui".to_string(), b"0".to_vec()),
        ("ui!x".to_string(), b"9".to_vec()),
        ("ui.a".to_string(), b"1".to_vec()),
        ("ui.b".to_string(), b"2".to_vec()),
    ];
    let mut pending = Pending::new();
    pending.stage_write("ui.c", b"3");
    pending.stage_delete("ui.a");
    pending.stage_write("other", b"x");
    pending.stage_init("ui", true);

    let found = scan_prefix_from(&committed, &pending, &path("ui")).unwrap();
    assert_eq!(
        found,
        vec![
            (path("ui"), b"0".to_vec()),
            (path("ui.b"), b"2".to_vec()),
            (path("ui.c"), b"3".to_vec()),
        ]
    );

    let keys: Vec<String> = committed.iter().map(|(k, _)| k.clone()).collect();
    let names = scan_keys_from(&keys, &pending, &path("ui")).unwrap();
    assert_eq!(names, vec![path("ui"), path("ui.b"), path("ui.c")]);
}

#[test]
fn a_key_that_is_not_a_path_fails_the_scan() {
    let committed = vec![("ui..a".to_string(), b"1".to_vec())];
    let pending = Pending::new();
    assert_eq!(scan_prefix_from(&committed, &pending, &path("ui")), Err(StorageError::Scan));
}

#[test]
fn a_scan_reads_on_past_siblings_and_stops_past_the_prefix() {
    assert_eq!(scan_step("ui.a", &path("ui")), ScanStep::Keep);
    assert_eq!(scan_step("ui!x", &path("ui")), ScanStep::Skip);
    assert_eq!(scan_step("uz", &path("ui")), ScanStep::Stop);
    assert_eq!(scan_step("zzz", &StorePath::root()), ScanStep::Keep);
}

#[test]
fn a_flush_runs_one_statement_per_buffered_key() {
    let mut pending = Pending::new();
    pending.stage_write("a", b"1");
    pending.stage_delete("b");
    pending.stage_init("ui", true);
    pending.stage_init("old", false);
    let mut plan = flush_plan(&pending);
    plan.sort_by_key(|s| format!("{:?}", s));
    let mut expected = vec![
        Statement::Write { key: "a".to_string(), value: b"1".to_vec() },
        Statement::Erase { key: "b".to_string() },
        Statement::Mark { marker: "__init::ui".to_string() },
        Statement::Unmark { marker: "__init::old".to_string() },
    ];
    expected.sort_by_key(|s| format!("{:?}", s));
    assert_eq!(plan, expected);
}

#[test]
fn a_read_gives_back_what_a_write_wrote() {
    let mut root = Node::make_empty_map();
    generic_set(&mut root, &parts(&["ui", "theme"]), Node::Value(b"dark".to_vec())).unwrap();
    generic_set(&mut root, &parts(&["ui", "scale"]), Node::Value(b"2".to_vec())).unwrap();
    match generic_get(&root, &parts(&["ui", "theme"])) {
        Some(Node::Value(b)) => assert_eq!(b, b"dark"),
        other => panic!("expected the written value, got {:?}", other),
    }
    assert!(generic_get(&root, &parts(&["ui", "missing"])).is_none());
    assert!(generic_get(&root, &parts(&["."])).is_some());

    let listed = generic_scan(&root, &parts(&["ui"]));
    let keys: Vec<&str> = listed.iter().map(|(k, _)| k.as_str()).collect();
    assert_eq!(keys, vec!["ui.theme", "ui.scale"]);

    let gone = generic_delete(&mut root, &parts(&["ui", "theme"])).unwrap();
    assert!(matches!(gone, Some(Node::Value(_))));
    assert!(generic_get(&root, &parts(&["ui", "theme"])).is_none());
    assert!(generic_get(&root, &parts(&["ui", "scale"])).is_some());
}

#[test]
fn a_value_in_the_way_of_a_write_becomes_a_branch() {
    let mut root = Node::make_empty_map();
    generic_set(&mut root, &parts(&["a"]), Node::Value(b"1".to_vec())).unwrap();
    generic_set(&mut root, &parts(&["a", "b"]), Node::Value(b"2".to_vec())).unwrap();
    assert!(matches!(generic_get(&root, &parts(&["a"])), Some(Node::Branch(_))));
    assert!(root.get_child("a").is_some());
    assert_eq!(root.scan_children().len(), 1);
}

#[test]
fn a_ron_document_root_is_always_a_branch() {
    let mut doc = RonDocument::empty();
    assert_eq!(doc.set(&parts(&[]), Node::Value(b"1".to_vec())), Err(StorageError::Write));
    assert_eq!(doc.set(&parts(&["."]), Node::make_empty_map()), Ok(()));
    doc.set(&parts(&["k"]), Node::Value(b"v".to_vec())).unwrap();
    assert_eq!(doc.scan(&parts(&[])).len(), 1);
    assert!(doc.delete(&parts(&["k"])).unwrap().is_some());
    assert!(doc.get(&parts(&["k"])).is_none());
}

#[test]
fn a_write_is_reported_by_what_it_left() {
    let put = write_event("ui.theme", None, Some(b"dark".to_vec()), Some(7)).unwrap();
    assert_eq!(put.op, StoreOp::Put);
    assert_eq!(put.new, Some(b"dark".to_vec()));
    assert_eq!(put.source, Some(7));
    let gone = write_event("ui.theme", Some(b"dark".to_vec()), None, None).unwrap();
    assert_eq!(gone.op, StoreOp::Delete);
    assert!(write_event("ui.theme", None, None, None).is_none());
    assert!(delete_event("x", None, None).is_none());
    assert_eq!(delete_event("x", Some(vec![1]), None).unwrap().op, StoreOp::Delete);
    assert_eq!(prefix_event("ui", None).op, StoreOp::DeletePrefix);
}

#[test]
fn only_subscriptions_that_hear_a_path_are_called() {
    let kinds = vec![
        SubscriptionKind::Any,
        SubscriptionKind::ExactPath("ui.theme".to_string()),
        SubscriptionKind::Prefix("ui".to_string()),
        SubscriptionKind::Prefix("u".to_string()),
        SubscriptionKind::ExactPath("ui".to_string()),
    ];
    assert_eq!(listeners(&kinds, "ui.theme"), vec![0, 1, 2]);
    assert_eq!(listeners(&kinds, "ui"), vec![0, 2, 4]);
}

#[test]
fn errors_say_what_failed() {
    assert_eq!(StorageError::Open.describe(), "the store could not be opened");
    assert_eq!(decimal(0), "0");
    assert_eq!(decimal(1234567), "1234567");
    assert_eq!(
        MigrationError::Gap { prefix: "ui".into(), reached_version: 2, expected_version: 5 }.message(),
        "Migration chain gap for [ui]: reached v2, expected v5"
    );
    assert_eq!(
        MigrationError::Cycle(vec!["a".into(), "b".into(), "a".into()]).message(),
        "a migration reached round to where it started: a -> b -> a"
    );
    assert_eq!(
        Occupied::Value { level: "ui".into() }.message(),
        "`ui` holds a value, so nothing can be stored under it"
    );
    assert_eq!(PendingOp::Init(true).is_data(), false);
}
