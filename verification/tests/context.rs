use amethystate::context::{fields_to_drop, MemoryBackend, MigrationContext, RawBackend};

fn encode<T: serde::Serialize>(value: &T) -> Vec<u8> {
    serde_json::to_vec(value).unwrap()
}

fn decode<T: serde::de::DeserializeOwned>(bytes: Option<Vec<u8>>) -> Option<T> {
    bytes.map(|b| serde_json::from_slice(&b).unwrap())
}

#[test]
fn test_context_rename() {
    let mut storage = MemoryBackend::new();
    let ctx = MigrationContext::new("p".into());

    ctx.set_raw(&mut storage, "a", &encode(&100i32)).unwrap();
    ctx.rename(&mut storage, "a", "b").unwrap();

    assert_eq!(decode::<i32>(ctx.get_raw(&storage, "b").unwrap()), Some(100));
    assert!(decode::<i32>(ctx.get_raw(&storage, "a").unwrap()).is_none());
}

#[test]
fn test_context_transform() {
    let mut storage = MemoryBackend::new();
    let ctx = MigrationContext::new("p".into());

    ctx.set_raw(&mut storage, "v", &encode(&10i32)).unwrap();
    ctx.transform_raw(&mut storage, "v", |b| {
        let v: i32 = serde_json::from_slice(&b).unwrap();
        Ok(encode(&(v + 5)))
    })
    .unwrap();

    assert_eq!(decode::<i32>(ctx.get_raw(&storage, "v").unwrap()), Some(15));
}

#[test]
fn test_context_merge() {
    let mut storage = MemoryBackend::new();
    let ctx = MigrationContext::new("p".into());

    ctx.set_raw(&mut storage, "f", &encode(&"a".to_string())).unwrap();
    ctx.set_raw(&mut storage, "l", &encode(&"b".to_string())).unwrap();

    ctx.merge_raw(&mut storage, "f", "l", "res", |f, l| {
        let f: String = serde_json::from_slice(&f).unwrap();
        let l: String = serde_json::from_slice(&l).unwrap();
        Ok(encode(&format!("{}{}", f, l)))
    })
    .unwrap();

    assert_eq!(decode::<String>(ctx.get_raw(&storage, "res").unwrap()), Some("ab".into()));
    assert!(decode::<String>(ctx.get_raw(&storage, "f").unwrap()).is_none());
    assert!(decode::<String>(ctx.get_raw(&storage, "l").unwrap()).is_none());
}

#[test]
fn test_context_split() {
    let mut storage = MemoryBackend::new();
    let ctx = MigrationContext::new("p".into());

    ctx.set_raw(&mut storage, "full", &encode(&"a:b".to_string())).unwrap();

    ctx.split_raw(&mut storage, "full", "p1", "p2", |b| {
        let s: String = serde_json::from_slice(&b).unwrap();
        let mut it = s.split(':');
        Ok((
            encode(&it.next().unwrap().to_string()),
            encode(&it.next().unwrap().to_string()),
        ))
    })
    .unwrap();

    assert_eq!(decode::<String>(ctx.get_raw(&storage, "p1").unwrap()), Some("a".into()));
    assert_eq!(decode::<String>(ctx.get_raw(&storage, "p2").unwrap()), Some("b".into()));
    assert!(decode::<String>(ctx.get_raw(&storage, "full").unwrap()).is_none());
}

#[test]
fn test_global_access() {
    let mut storage = MemoryBackend::new();
    let ctx = MigrationContext::new("scoped".into());

    ctx.global_set_raw(&mut storage, "raw.key", &encode(&777u32)).unwrap();

    assert!(decode::<u32>(ctx.get_raw(&storage, "raw.key").unwrap()).is_none());
    assert_eq!(decode::<u32>(ctx.global_get_raw(&storage, "raw.key").unwrap()), Some(777));
}

#[test]
fn a_refusal_from_the_step_is_passed_on_and_changes_nothing() {
    let mut storage = MemoryBackend::new();
    let ctx = MigrationContext::new("p".into());
    ctx.set_raw(&mut storage, "v", b"1").unwrap();
    let refused = ctx.transform_raw(&mut storage, "v", |_| Err(amethystate::errors::StorageError::Migrate));
    assert_eq!(refused, Err(amethystate::errors::StorageError::Migrate));
    assert_eq!(ctx.get_raw(&storage, "v").unwrap(), Some(b"1".to_vec()));
    storage.get("p.v").unwrap();
}

#[test]
fn a_scoped_context_spells_its_keys_under_both_prefixes() {
    let root = MigrationContext::new(String::new());
    assert_eq!(root.scoped_path("theme"), "theme");
    let ui = root.scoped("ui");
    assert_eq!(ui.scoped_path("theme"), "ui.theme");
    assert_eq!(ui.scoped("panel").scoped_path("left"), "ui.panel.left");
}

#[test]
fn renaming_onto_itself_takes_the_key_away() {
    let mut storage = MemoryBackend::new();
    let ctx = MigrationContext::new("p".into());
    ctx.set_raw(&mut storage, "a", b"1").unwrap();
    ctx.rename(&mut storage, "a", "a").unwrap();
    assert_eq!(ctx.get_raw(&storage, "a").unwrap(), None);
    ctx.rename(&mut storage, "missing", "b").unwrap();
    assert_eq!(ctx.get_raw(&storage, "b").unwrap(), None);
}

#[test]
fn a_map_is_read_back_by_the_part_after_its_key() {
    let mut storage = MemoryBackend::new();
    let ctx = MigrationContext::new("p".into());
    ctx.set_raw(&mut storage, "widths.left", b"1").unwrap();
    ctx.set_raw(&mut storage, "widths.right", b"2").unwrap();
    ctx.set_raw(&mut storage, "widthsx", b"3").unwrap();
    let mut found = ctx.scan_map_raw(&storage, "widths").unwrap();
    found.sort();
    assert_eq!(found, vec![("left".to_string(), b"1".to_vec()), ("right".to_string(), b"2".to_vec())]);
}

#[test]
fn a_nested_migration_drops_renamed_and_vanished_fields() {
    let old = vec!["a".to_string(), "b".to_string(), "c".to_string()];
    let new = vec!["a".to_string(), "c".to_string(), "d".to_string()];
    let renames = vec![("c".to_string(), "d".to_string())];
    assert_eq!(fields_to_drop(&old, &new, &renames), vec!["b".to_string(), "c".to_string()]);
}
