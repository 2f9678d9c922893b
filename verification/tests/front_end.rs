use amethystate::confy::{
    config_file_name, confy_extension, fallback_action, load_action, ConfigStrategy, ConfySettings,
    FallbackAction, LoadAction, StoredConfig,
};
use amethystate::builder::Backend;
use amethystate::debounce::{next_step, DebounceAction, DebounceEvent, DebounceState};
use amethystate::errors::StorageError;
use amethystate::fields::{brings, brings_any, overlap, FieldDescriptor, Role};
use amethystate::init::InitState;
use amethystate::buffer::PendingOp;
use amethystate::meta::{StoredFieldEntry, StoredShape};
use amethystate::observability::{short_type_name, Registry};
use amethystate::path::StorePath;
use amethystate::report::{
    AppliedStep, ComponentOutcome, ComponentResult, FieldTypeChange, LogLevel, MigrationReport,
    NaggingRecord, SchemaDiff,
};
use amethystate::watch::{ChangeQueue, Watch};

fn leaf(name: &str) -> FieldDescriptor {
    FieldDescriptor::leaf(StorePath::parse_joined(name).unwrap(), "T")
}

#[test]
fn a_report_says_whether_anything_failed_or_drifted() {
    let mut report = MigrationReport::new();
    assert!(!report.has_failures() && !report.has_drift());
    report.components.push(ComponentResult {
        prefixes: vec!["ui".to_string()],
        outcome: ComponentOutcome::Skipped,
        nagging: vec![],
    });
    assert!(!report.has_failures());
    report.components.push(ComponentResult {
        prefixes: vec!["net".to_string()],
        outcome: ComponentOutcome::Failed { error: StorageError::Migrate },
        nagging: vec![NaggingRecord { prefix: "net".to_string(), old_hash: 1, new_hash: 2, diff: None }],
    });
    assert!(report.has_failures() && report.has_drift());
}

#[test]
fn a_report_is_logged_drift_first_then_outcome() {
    let report = MigrationReport {
        components: vec![
            ComponentResult {
                prefixes: vec!["ui".to_string()],
                outcome: ComponentOutcome::Committed {
                    steps: vec![
                        AppliedStep { prefix: "ui".into(), target_version: 2, description: Some("split theme".into()), applied_at: 0 },
                        AppliedStep { prefix: "ui".into(), target_version: 3, description: None, applied_at: 0 },
                    ],
                },
                nagging: vec![NaggingRecord {
                    prefix: "ui".to_string(),
                    old_hash: 1,
                    new_hash: 2,
                    diff: Some(SchemaDiff {
                        added: vec![StoredFieldEntry {
                            name: StorePath::parse_joined("ui.scale").unwrap(),
                            value_type: "f32".into(),
                            shape: StoredShape::field(),
                        }],
                        removed: vec![],
                        type_changed: vec![FieldTypeChange { name: "theme".into(), old_type: "u8".into(), new_type: "String".into() }],
                    }),
                }],
            },
            ComponentResult {
                prefixes: vec!["a".to_string(), "b".to_string()],
                outcome: ComponentOutcome::Skipped,
                nagging: vec![],
            },
        ],
    };
    let lines = report.log_lines();
    let shown: Vec<(LogLevel, &str)> = lines.iter().map(|l| (l.level, l.text.as_str())).collect();
    assert_eq!(
        shown,
        vec![
            (LogLevel::Warn, "⚠️  Schema drift detected in prefix 'ui'"),
            (LogLevel::Warn, "  + field 'ui.scale': f32"),
            (LogLevel::Warn, "  ~ field 'theme': u8 -> String"),
            (LogLevel::Warn, "  Suggestion: increment version and write a migration if these changes are intentional."),
            (LogLevel::Info, "✅ Applied: ui v2 (split theme)"),
            (LogLevel::Info, "✅ Applied: ui v3 (no description)"),
            (LogLevel::Debug, "⏩ Component [\"a\", \"b\"] is up to date"),
        ]
    );
}

#[test]
fn a_failed_component_names_its_prefixes_and_the_failure() {
    let report = MigrationReport {
        components: vec![ComponentResult {
            prefixes: vec!["net".to_string()],
            outcome: ComponentOutcome::Failed { error: StorageError::Migrate },
            nagging: vec![],
        }],
    };
    let lines = report.log_lines();
    assert_eq!(lines.len(), 2);
    assert_eq!(lines[0].level, LogLevel::Error);
    assert_eq!(
        lines[0].text,
        "❌ Component [\"net\"] failed: the data could not be brought up to the declared schema"
    );
}

#[test]
fn an_inspector_names_what_it_registered() {
    assert_eq!(short_type_name("my_app::ui::Theme"), "Theme");
    assert_eq!(short_type_name("Theme"), "Theme");
    assert_eq!(short_type_name("a:::b"), "b");
    let mut reg = Registry::new();
    assert_eq!(reg.resolve_instance(7), None);
    reg.register_instance(7, "my_app::ui::Ui");
    assert_eq!(reg.resolve_instance_short(7), Some("Ui".to_string()));
    reg.register_field("ui.theme", 7, "String");
    reg.register_field("ui.theme", 7, "u8");
    let meta = reg.resolve_field("ui.theme").unwrap();
    assert_eq!(meta.struct_type_name, "my_app::ui::Ui");
    assert_eq!(meta.field_name, "theme");
    assert_eq!(meta.value_type_name, "String", "the first registration stands");
    reg.register_field("ui.scale", 99, "f32");
    assert!(reg.resolve_field("ui.scale").is_none(), "an unknown instance records nothing");
    reg.deregister_instance(7);
    assert_eq!(reg.resolve_instance(7), None);
}

#[test]
fn a_configuration_lives_in_a_named_file() {
    let mut settings = ConfySettings::new();
    assert_eq!(settings.strategy, ConfigStrategy::App);
    settings.change_config_strategy(ConfigStrategy::Native);
    assert_eq!(settings.strategy, ConfigStrategy::Native);
    assert_eq!(config_file_name(None, Backend::Toml), "default-config.toml");
    assert_eq!(config_file_name(Some("prefs"), Backend::Json), "prefs.json");
    assert_eq!(confy_extension(Backend::Sqlite), "redb");
}

#[test]
fn loading_writes_the_default_only_where_nothing_usable_is_there() {
    assert_eq!(load_action(true, StoredConfig::Found), LoadAction::WriteDefault);
    assert_eq!(load_action(false, StoredConfig::Found), LoadAction::UseStored);
    assert_eq!(load_action(false, StoredConfig::Missing), LoadAction::WriteDefault);
    assert_eq!(load_action(false, StoredConfig::Unreadable), LoadAction::Fail);
    assert_eq!(fallback_action(false, true, StoredConfig::Unreadable), FallbackAction::WriteFallback);
    assert_eq!(fallback_action(false, false, StoredConfig::Found), FallbackAction::ReplaceFile);
    assert_eq!(fallback_action(false, true, StoredConfig::Found), FallbackAction::UseStored);
}

#[test]
fn a_burst_of_writes_is_flushed_once() {
    let mut s = DebounceState::Idle;
    let mut runs = 0;
    for e in [DebounceEvent::Schedule, DebounceEvent::Schedule, DebounceEvent::Schedule, DebounceEvent::Elapsed] {
        let (next, action) = next_step(s, e);
        if action == DebounceAction::Run {
            runs += 1;
        }
        s = next;
    }
    assert_eq!(runs, 1);
    assert_eq!(s, DebounceState::Idle);
    assert_eq!(next_step(DebounceState::Idle, DebounceEvent::Now), (DebounceState::Idle, DebounceAction::Run));
    assert_eq!(next_step(DebounceState::Quiet, DebounceEvent::Closed), (DebounceState::Done, DebounceAction::Stop));
}

#[test]
fn a_watch_skips_its_own_changes_only_when_asked() {
    let plain = Watch::new("field").register(5);
    assert!(plain.passes(Some(5), true));
    let own = Watch::new("field").external().register(5);
    assert!(!own.passes(Some(5), true));
    assert!(own.passes(Some(5), false), "a key appearing goes to everyone");
    assert!(own.passes(Some(6), true));
    assert!(own.passes(None, true));
}

#[test]
fn a_local_queue_hands_over_the_newest_or_everything() {
    let (_, mut newest) = Watch::new("field").local().register::<u32>(1);
    newest.offer(1, None);
    newest.offer(2, Some(3));
    assert_eq!(newest.drain(), vec![(2, Some(3))]);
    assert!(newest.drain().is_empty());
    let (_, mut all) = Watch::new("field").local().every().register::<u32>(1);
    all.offer(1, None);
    all.offer(2, None);
    assert_eq!(all.drain(), vec![(1, None), (2, None)]);
    let keyed = Watch::new("map").key(4u32);
    assert_eq!(keyed.source.key, 4);
    let mut q: ChangeQueue<u8> = ChangeQueue::new(false);
    q.offer(9, None);
    assert_eq!(q.drain().len(), 1);
}

#[test]
fn a_namespace_remembers_whether_it_was_seeded() {
    assert!(InitState::Seeded.is_seeded());
    assert!(!InitState::Fresh.is_seeded());
    assert_eq!(InitState::Fresh.as_pending(), PendingOp::Init(false));
}

#[test]
fn a_flattened_node_brings_its_children_up_a_level() {
    let flat = FieldDescriptor {
        role: Role::Node,
        flattened: true,
        children: vec![leaf("theme")],
        ..leaf("ui")
    };
    let fields = vec![flat, leaf("scale")];
    assert!(brings(&fields, "theme"));
    assert!(brings(&fields, "scale"));
    assert!(!brings(&fields, "ui"));
    assert!(brings_any(&fields, &["nope", "theme"]));
    assert!(overlap(&fields, &[leaf("theme")]));
    assert!(!overlap(&fields, &[leaf("other")]));
    assert_eq!(Role::Mapping.as_str(), "map");
    assert_eq!(Role::from_name("node"), Ok(Role::Node));
}

fn run_callback(queue: &mut ChangeQueue<u64>, seen: &mut Vec<u64>) {
    for (value, _) in queue.drain() {
        seen.push(value);
    }
}

#[test]
fn nothing_runs_until_drained() {
    let (_, mut queue) = Watch::new("cell").local().register::<u64>(1);
    let mut seen: Vec<u64> = Vec::new();

    queue.offer(2, None);
    assert!(seen.is_empty());

    run_callback(&mut queue, &mut seen);
    assert_eq!(seen, vec![2]);
}

#[test]
fn changes_coalesce_to_the_newest() {
    let (_, mut queue) = Watch::new("cell").local().register::<u64>(1);
    let mut seen: Vec<u64> = Vec::new();

    for n in 1..=5 {
        queue.offer(n, None);
    }
    run_callback(&mut queue, &mut seen);

    assert_eq!(seen, vec![5], "a state, not a stream of events");
}

#[test]
fn drain_without_changes_calls_nothing() {
    let (_, mut queue) = Watch::new("cell").local().register::<u64>(1);
    let mut seen: Vec<u64> = Vec::new();

    run_callback(&mut queue, &mut seen);
    run_callback(&mut queue, &mut seen);

    assert_eq!(seen.len(), 0);
}
