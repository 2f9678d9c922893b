use amethystate::owners::Owners;
use amethystate::path::StorePath;

fn path(joined: &str) -> StorePath {
    StorePath::parse_joined(joined).unwrap()
}

#[test]
fn one_schema_claiming_the_same_path_twice_is_the_same_claim() {
    let mut owners = Owners::new();

    owners.claim(&path("ui.theme"), "Ui").unwrap();
    owners.claim(&path("ui.theme"), "Ui").unwrap();

    assert_eq!(owners.len(), 1, "reconstructing a struct must not pile up claims");
}

#[test]
fn two_schemas_cannot_claim_one_path() {
    let mut owners = Owners::new();
    owners.claim(&path("ui.theme"), "Ui").unwrap();

    let refused = owners.claim(&path("ui.theme"), "Theme").unwrap_err();

    let named = vec![&refused.standing, &refused.wanted];
    assert_eq!(named.len(), 2, "the refusal names both");
    assert_eq!(refused.standing.by, "Ui");
    assert_eq!(refused.wanted.by, "Theme");
}

#[test]
fn a_claim_covers_what_is_under_it() {
    let mut owners = Owners::new();
    owners.claim(&path("widths"), "Columns").unwrap();

    assert!(
        owners.claim(&path("widths.left"), "Panels").is_err(),
        "a map owns its entries, so nobody else may put one there"
    );
}

#[test]
fn a_claim_is_refused_by_one_already_inside_it() {
    let mut owners = Owners::new();
    owners.claim(&path("ui.panels.left"), "Panels").unwrap();

    assert!(
        owners.claim(&path("ui.panels"), "Ui").is_err(),
        "the outer one would take the level the inner one lives on"
    );
}

#[test]
fn a_level_may_be_shared_when_the_claims_are_not() {
    let mut owners = Owners::new();

    owners.claim(&path("ui.accent"), "UiColors").unwrap();
    owners
        .claim(&path("ui.density"), "UiLayout")
        .expect("two schemas may sit on one level while owning different keys");
}

#[test]
fn a_sibling_that_sorts_inside_the_run_does_not_hide_an_ancestor() {
    let mut owners = Owners::new();

    owners.claim(&path("ui"), "Ui").unwrap();
    owners.claim(&path("ui!x"), "Other").unwrap();

    assert!(
        owners.claim(&path("ui.theme"), "Theme").is_err(),
        "`ui` holds `ui.theme`, and `ui!x` sitting between them must not hide it"
    );
}

#[test]
fn a_string_prefix_is_not_a_claim() {
    let mut owners = Owners::new();
    owners.claim(&path("ui"), "Ui").unwrap();

    owners
        .claim(&path("uix.width"), "Uix")
        .expect("`ui` does not hold `uix.width`");
}

#[test]
fn a_claim_names_who_made_it() {
    let mut owners = Owners::new();
    owners.claim(&path("ui.theme"), "Ui").unwrap();

    assert_eq!(owners.declared_by(&path("ui.theme")), Some("Ui".to_string()));
    assert_eq!(owners.declared_by(&path("ui.other")), None);
}
