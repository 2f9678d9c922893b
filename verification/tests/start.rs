use amethystate::builder::backup_of;
use amethystate::confy::{confy_error_of, is_root, root_must_be_object_message, ConfyErrorKind, StoreErrorKind};
use amethystate::diff::{adopts_outside_edit, diff_documents, document_leaves};
use amethystate::flush::{flush_next, FlushNext, FlushOutcome};
use amethystate::path::StorePath;
use amethystate::document::Node;
use amethystate::scan::StoreOp;
use amethystate::reactive::{entry_name, field_reaction, map_reaction, Decoded, FieldReaction, MapReaction, MapRefusal, OldValue, OnDelete};
use amethystate::start::{field_start, seed_defaults, FieldStart, OnUnreadable, StoredRead, Unread};

const REFUSE: OnUnreadable = OnUnreadable::Refuse;
const USE_DEFAULT: OnUnreadable = OnUnreadable::UseDefault;

fn entries(pairs: &[(&str, &[u8])]) -> Vec<(String, Vec<u8>)> {
    pairs.iter().map(|(k, v)| (k.to_string(), v.to_vec())).collect()
}

#[test]
fn a_fresh_map_writes_its_defaults_once() {
    let defaults = entries(&[("a", b"1"), ("b", b"2")]);
    assert_eq!(seed_defaults(false, &Vec::new(), &defaults), defaults);
    assert!(seed_defaults(true, &Vec::new(), &defaults).is_empty());
    assert!(seed_defaults(false, &entries(&[("c", b"3")]), &defaults).is_empty());
}

#[test]
fn a_field_starts_where_its_rules_say() {
    assert_eq!(field_start(StoredRead::Absent, None, REFUSE), FieldStart::Seed);
    assert_eq!(field_start(StoredRead::Read, None, REFUSE), FieldStart::Stored);
    assert_eq!(field_start(StoredRead::Read, Some(true), REFUSE), FieldStart::Stored);
    assert_eq!(field_start(StoredRead::Read, Some(false), REFUSE), FieldStart::Refuse(Unread::Refused));
    assert_eq!(field_start(StoredRead::Read, Some(false), USE_DEFAULT), FieldStart::Default(Unread::Refused));
    assert_eq!(field_start(StoredRead::Unreadable, None, REFUSE), FieldStart::Refuse(Unread::Undecodable));
    assert_eq!(field_start(StoredRead::Unreadable, None, USE_DEFAULT), FieldStart::Default(Unread::Undecodable));
}

fn branch(kids: Vec<(&str, Node)>) -> Node {
    Node::Branch(kids.into_iter().map(|(k, v)| (k.to_string(), v)).collect())
}

fn value(b: &[u8]) -> Node {
    Node::Value(b.to_vec())
}

fn encoded(node: &Node) -> Vec<(String, Option<Vec<u8>>)> {
    document_leaves(node)
        .into_iter()
        .map(|(k, n)| match n {
            Node::Value(b) => (k, Some(b)),
            Node::Branch(_) => (k, Some(b"{}".to_vec())),
        })
        .collect()
}

#[test]
fn a_document_lists_its_leaves_by_whole_path() {
    let doc = branch(vec![
        ("ui", branch(vec![("theme", value(b"dark")), ("empty", branch(vec![]))])),
        ("scale", value(b"2")),
    ]);
    let keys: Vec<String> = document_leaves(&doc).into_iter().map(|(k, _)| k).collect();
    assert_eq!(keys, vec!["ui.theme", "ui.empty", "scale"]);
    assert!(document_leaves(&value(b"1")).is_empty());
}

#[test]
fn an_outside_edit_reports_each_changed_leaf_in_key_order() {
    let before = branch(vec![("b", value(b"1")), ("a", value(b"x")), ("gone", value(b"g"))]);
    let after = branch(vec![("a", value(b"y")), ("b", value(b"1")), ("new", value(b"n"))]);

    let events = diff_documents(&encoded(&before), &encoded(&after));
    let seen: Vec<(String, StoreOp, Option<Vec<u8>>, Option<Vec<u8>>)> = events
        .into_iter()
        .map(|e| (e.path, e.op, e.old, e.new))
        .collect();

    assert_eq!(
        seen,
        vec![
            ("a".to_string(), StoreOp::Put, Some(b"x".to_vec()), Some(b"y".to_vec())),
            ("gone".to_string(), StoreOp::Delete, Some(b"g".to_vec()), None),
            ("new".to_string(), StoreOp::Put, None, Some(b"n".to_vec())),
        ]
    );
    assert!(diff_documents(&encoded(&before), &encoded(&before)).is_empty());
}

#[test]
fn a_backup_keeps_the_whole_name() {
    assert_eq!(backup_of("store.db"), "store.db.bak");
    assert_eq!(backup_of("store.meta"), "store.meta.bak");
}

#[test]
fn a_root_has_nowhere_to_keep_a_file() {
    assert!(is_root("/"));
    assert!(is_root(""));
    assert!(!is_root("/etc/app.toml"));
}

#[test]
fn a_field_takes_refuses_or_resets_on_a_change() {
    assert_eq!(field_reaction(Decoded::Read, false, OnDelete::Keep), FieldReaction::Take);
    assert_eq!(field_reaction(Decoded::Read, true, OnDelete::Keep), FieldReaction::Refuse(Unread::Refused));
    assert_eq!(field_reaction(Decoded::Unreadable, false, OnDelete::Keep), FieldReaction::Refuse(Unread::Undecodable));
    assert_eq!(field_reaction(Decoded::Absent, false, OnDelete::UseDefault), FieldReaction::Reset);
    assert_eq!(field_reaction(Decoded::Absent, false, OnDelete::Keep), FieldReaction::Keep);
}

#[test]
fn a_map_inserts_updates_removes_or_refuses() {
    let put = StoreOp::Put;
    assert_eq!(map_reaction(StoreOp::DeletePrefix, true, false, false, Decoded::Absent, Decoded::Absent, false), MapReaction::Clear);
    assert_eq!(map_reaction(put, false, false, true, Decoded::Read, Decoded::Absent, false), MapReaction::Refuse(MapRefusal::NotAnEntry));
    assert_eq!(map_reaction(put, false, true, false, Decoded::Read, Decoded::Absent, false), MapReaction::Refuse(MapRefusal::KeyUnreadable));
    assert_eq!(map_reaction(put, false, true, true, Decoded::Unreadable, Decoded::Absent, true), MapReaction::Refuse(MapRefusal::ValueUnreadable));
    assert_eq!(map_reaction(put, false, true, true, Decoded::Absent, Decoded::Absent, true), MapReaction::Refuse(MapRefusal::NoValue));
    assert_eq!(map_reaction(put, false, true, true, Decoded::Read, Decoded::Absent, false), MapReaction::Insert);
    assert_eq!(map_reaction(put, false, true, true, Decoded::Read, Decoded::Unreadable, true), MapReaction::Update(OldValue::Cached));
    assert_eq!(map_reaction(put, false, true, true, Decoded::Read, Decoded::Read, true), MapReaction::Update(OldValue::Stored));
    assert_eq!(map_reaction(StoreOp::Delete, false, true, true, Decoded::Absent, Decoded::Absent, false), MapReaction::Remove(OldValue::Unknown));
}

#[test]
fn a_store_error_is_reported_as_the_front_end_reports_it() {
    assert_eq!(confy_error_of(StoreErrorKind::TextIo), Some(ConfyErrorKind::GeneralLoadError));
    assert_eq!(confy_error_of(StoreErrorKind::CodecJson), Some(ConfyErrorKind::BadJsonData));
    assert_eq!(confy_error_of(StoreErrorKind::CodecToml), Some(ConfyErrorKind::BadTomlData));
    assert_eq!(confy_error_of(StoreErrorKind::CodecRon), Some(ConfyErrorKind::BadRonData));
    assert_eq!(confy_error_of(StoreErrorKind::RootMustBeObject), Some(ConfyErrorKind::BadConfigDirectory));
    assert_eq!(confy_error_of(StoreErrorKind::PathSegmentMissing), Some(ConfyErrorKind::BadConfigDirectory));
    assert_eq!(confy_error_of(StoreErrorKind::Redb), None);
    assert_eq!(confy_error_of(StoreErrorKind::CodecOther), None);
    assert_eq!(root_must_be_object_message(), "Root must be an object/mapping");
}

#[test]
fn an_outside_edit_waits_for_unsaved_writes() {
    assert!(adopts_outside_edit(3, 3, "a = 1", "a = 2"));
    assert!(!adopts_outside_edit(4, 3, "a = 1", "a = 2"));
    assert!(!adopts_outside_edit(3, 3, "a = 1", "a = 1"));
}

#[test]
fn a_spoiled_handle_is_traded_in_once() {
    assert_eq!(flush_next(FlushOutcome::Landed, false), FlushNext::Done);
    assert_eq!(flush_next(FlushOutcome::PreviousIo, false), FlushNext::ReopenAndRetry);
    assert_eq!(flush_next(FlushOutcome::PreviousIo, true), FlushNext::Fail);
    assert_eq!(flush_next(FlushOutcome::Failed, false), FlushNext::Fail);
}

#[test]
fn a_changed_key_names_an_entry_one_level_below_the_map() {
    let map = StorePath::parse_joined("settings.colors").unwrap();
    assert_eq!(entry_name(&map, "settings.colors.accent"), Some("accent".to_string()));
    assert_eq!(entry_name(&map, "settings.colors"), None);
    assert_eq!(entry_name(&map, "settings.colors.accent.hue"), None);
    assert_eq!(entry_name(&map, "settings.sizes.big"), None);
    assert_eq!(entry_name(&map, "settings.colors."), None);
}
