use amethystate::fields::{FieldDescriptor, Role};
use amethystate::meta::{StoredFieldEntry, StoredShape};
use amethystate::moved::{between, Moved, Verdict, What};
use amethystate::path::StorePath;

fn stored(name: &str, shape: StoredShape) -> StoredFieldEntry {
    StoredFieldEntry {
        name: StorePath::parse_joined(name).unwrap(),
        value_type: "T".to_string(),
        shape,
    }
}

fn node(children: Vec<StoredFieldEntry>, flattened: bool) -> StoredShape {
    StoredShape {
        role: Role::Node,
        optional: false,
        children,
        flattened,
    }
}

fn child(segments: &[&str]) -> FieldDescriptor {
    let levels: Vec<String> = segments.iter().map(|s| s.to_string()).collect();
    FieldDescriptor::leaf(StorePath::from_segments(levels), "T")
}

fn at(segments: &[&str]) -> StorePath {
    StorePath::from_segments(segments.iter().map(|s| s.to_string()).collect())
}

#[test]
fn the_same_tree_twice_has_not_moved() {
    let now = vec![child(&["theme"]), child(&["scale"])];
    let was = vec![
        stored("theme", StoredShape::field()),
        stored("scale", StoredShape::field()),
    ];

    assert_eq!(between(&was, &now), vec![]);
}

#[test]
fn a_rename_reads_as_a_release_beside_a_claim() {
    let now = vec![child(&["nickname"])];
    let was = vec![stored("handle", StoredShape::field())];

    assert_eq!(
        between(&was, &now),
        vec![
            Moved { at: StorePath::segment("handle"), what: What::Released },
            Moved { at: StorePath::segment("nickname"), what: What::Claimed },
        ]
    );
}

#[test]
fn a_leaf_that_became_a_map_breaks() {
    let now = vec![FieldDescriptor { role: Role::Mapping, ..child(&["open"]) }];
    let was = vec![stored("open", StoredShape::field())];

    let found = between(&was, &now);

    assert_eq!(
        found,
        vec![Moved {
            at: StorePath::segment("open"),
            what: What::Role { was: Role::Field, now: Role::Mapping },
        }]
    );
    assert_eq!(found[0].verdict(), Verdict::Breaks);
}

#[test]
fn a_node_that_lost_its_segment_breaks() {
    let now = vec![FieldDescriptor {
        role: Role::Node,
        children: vec![child(&["theme"])],
        flattened: true,
        ..child(&["ui"])
    }];
    let was = vec![stored("ui", node(vec![stored("theme", StoredShape::field())], false))];

    let found = between(&was, &now);

    assert_eq!(
        found,
        vec![Moved { at: StorePath::segment("ui"), what: What::Flattened { now: true } }]
    );
    assert_eq!(found[0].verdict(), Verdict::Breaks);
}

#[test]
fn a_place_under_a_node_is_named_by_its_whole_path() {
    let now = vec![FieldDescriptor {
        role: Role::Node,
        children: vec![child(&["scale"])],
        ..child(&["ui"])
    }];
    let was = vec![stored("ui", node(vec![stored("theme", StoredShape::field())], false))];

    assert_eq!(
        between(&was, &now),
        vec![
            Moved { at: at(&["ui", "theme"]), what: What::Released },
            Moved { at: at(&["ui", "scale"]), what: What::Claimed },
        ]
    );
}

#[test]
fn a_flattened_node_lends_its_children_no_segment() {
    let now = vec![FieldDescriptor {
        role: Role::Node,
        children: vec![child(&["scale"])],
        flattened: true,
        ..child(&["ui"])
    }];
    let was = vec![stored("ui", node(vec![stored("theme", StoredShape::field())], true))];

    assert_eq!(
        between(&was, &now),
        vec![
            Moved { at: StorePath::segment("theme"), what: What::Released },
            Moved { at: StorePath::segment("scale"), what: What::Claimed },
        ]
    );
}

#[test]
fn a_place_that_may_now_hold_nothing_is_harmless() {
    let now = vec![FieldDescriptor { optional: true, ..child(&["nickname"]) }];
    let was = vec![stored("nickname", StoredShape::field())];

    let found = between(&was, &now);

    assert_eq!(
        found,
        vec![Moved { at: StorePath::segment("nickname"), what: What::Optional { now: true } }]
    );
    assert_eq!(found[0].verdict(), Verdict::Harmless);
}

#[test]
fn a_node_is_not_a_place_so_what_is_claimed_is_under_it() {
    let now = vec![FieldDescriptor {
        role: Role::Node,
        children: vec![child(&["theme"])],
        ..child(&["ui"])
    }];

    assert_eq!(
        between(&[], &now),
        vec![Moved { at: at(&["ui", "theme"]), what: What::Claimed }],
        "nothing is stored at `ui`, and a write beside `ui.theme` is not this struct's"
    );
}

#[test]
fn a_map_is_a_place_and_takes_everything_under_it() {
    let now = vec![FieldDescriptor { role: Role::Mapping, ..child(&["open"]) }];

    assert_eq!(
        between(&[], &now),
        vec![Moved { at: StorePath::segment("open"), what: What::Claimed }]
    );
}

#[test]
fn a_flattened_node_is_claimed_as_what_it_brings() {
    let now = vec![FieldDescriptor {
        role: Role::Node,
        children: vec![child(&["theme"])],
        flattened: true,
        ..child(&["ui"])
    }];

    assert_eq!(
        between(&[], &now),
        vec![Moved { at: StorePath::segment("theme"), what: What::Claimed }]
    );
}

#[test]
fn a_flattened_node_that_is_gone_releases_what_it_brought() {
    let was = vec![stored("ui", node(vec![stored("theme", StoredShape::field())], true))];

    assert_eq!(
        between(&was, &[]),
        vec![Moved { at: StorePath::segment("theme"), what: What::Released }]
    );
}

#[test]
fn a_node_flattened_on_both_sides_says_nothing_about_itself() {
    let now = vec![FieldDescriptor {
        role: Role::Node,
        children: vec![child(&["theme"])],
        flattened: true,
        optional: true,
        ..child(&["ui"])
    }];
    let was = vec![stored("ui", node(vec![stored("theme", StoredShape::field())], true))];

    assert_eq!(between(&was, &now), vec![]);
}

#[test]
fn two_trees_can_hold_one_path_and_different_things_at_it() {
    let now = vec![FieldDescriptor {
        role: Role::Node,
        children: vec![child(&["a"])],
        flattened: true,
        ..child(&["a"])
    }];
    let was = vec![stored("a", node(vec![], false))];

    let found = between(&was, &now);

    assert_eq!(
        found,
        vec![Moved { at: StorePath::segment("a"), what: What::Flattened { now: true } }],
        "both declare `a`, and what stands there went from a node to a leaf"
    );
    assert_eq!(found[0].verdict(), Verdict::Breaks);
}

#[test]
fn a_store_opened_for_the_first_time_has_nothing_to_have_moved_from() {
    let now = vec![child(&["theme"])];

    let found = between(&[], &now);

    assert_eq!(found, vec![Moved { at: StorePath::segment("theme"), what: What::Claimed }]);
    assert_eq!(found[0].verdict(), Verdict::LookAtTheGround);
}

/// A declared tree written down the way the store records it.
fn as_stored(f: &FieldDescriptor) -> StoredFieldEntry {
    StoredFieldEntry {
        name: f.name.copy(),
        value_type: "T".to_string(),
        shape: StoredShape {
            role: f.role,
            optional: f.optional,
            children: f.children.iter().map(as_stored).collect(),
            flattened: f.flattened,
        },
    }
}

fn taken(found: &[Moved], what: What) -> Vec<String> {
    let mut at: Vec<String> = found
        .iter()
        .filter(|one| one.what == what)
        .map(|one| one.at.as_string())
        .collect();
    at.sort();
    at
}

fn flat_ui(children: Vec<FieldDescriptor>) -> FieldDescriptor {
    FieldDescriptor { role: Role::Node, children, flattened: true, ..child(&["ui"]) }
}

#[test]
fn release_and_claim_read_the_same_from_either_end() {
    let a = vec![child(&["handle"]), flat_ui(vec![child(&["theme"])])];
    let b = vec![child(&["nickname"]), flat_ui(vec![child(&["scale"])])];
    let a_stored: Vec<StoredFieldEntry> = a.iter().map(as_stored).collect();
    let b_stored: Vec<StoredFieldEntry> = b.iter().map(as_stored).collect();

    let forward = between(&a_stored, &b);
    let backward = between(&b_stored, &a);

    assert_eq!(taken(&forward, What::Released), vec!["handle".to_string(), "theme".to_string()]);
    assert_eq!(taken(&forward, What::Released), taken(&backward, What::Claimed));
    assert_eq!(taken(&forward, What::Claimed), taken(&backward, What::Released));
}

#[test]
fn a_flattened_node_on_both_sides_names_only_its_children_places() {
    let was = vec![as_stored(&flat_ui(vec![child(&["theme"])]))];
    let now = vec![flat_ui(vec![child(&["scale"])])];

    assert_eq!(
        between(&was, &now),
        vec![
            Moved { at: at(&["theme"]), what: What::Released },
            Moved { at: at(&["scale"]), what: What::Claimed },
        ]
    );
}

#[test]
fn a_nested_tree_compared_with_itself_has_moved_nothing() {
    let inner = FieldDescriptor {
        role: Role::Node,
        children: vec![child(&["a"]), FieldDescriptor { role: Role::Mapping, ..child(&["b"]) }],
        ..child(&["inner"])
    };
    let tree = vec![flat_ui(vec![inner, child(&["theme"])]), child(&["scale"])];
    let stored: Vec<StoredFieldEntry> = tree.iter().map(as_stored).collect();

    assert_eq!(between(&stored, &tree), vec![]);
}
