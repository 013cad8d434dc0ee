use clippy_sync::model::{
    ContentRegister, ContentVersion, Dot, EntityKind, EntityState, FieldValue, LwwValue, Mutation,
    Operation, VersionVector, WholeNumber,
};
use clippy_sync::textmap::TextMap;

fn vector(entries: &[(&str, u64)]) -> VersionVector {
    let mut map: TextMap<u64> = TextMap::new();
    for (actor, counter) in entries {
        map.insert((*actor).into(), *counter);
    }
    VersionVector(map)
}

fn version(actor: &str, counter: u64, context: &[(&str, u64)], value: &str) -> ContentVersion {
    ContentVersion {
        dot: Dot {
            actor_id: actor.into(),
            counter,
        },
        context: vector(context),
        value: value.into(),
    }
}

fn operation(actor: &str, counter: u64, mutation: Mutation) -> Operation {
    Operation {
        schema_version: 1,
        workspace_id: "w".into(),
        entity_kind: EntityKind::Item,
        entity_id: "e".into(),
        dot: Dot {
            actor_id: actor.into(),
            counter,
        },
        mutation,
    }
}

#[test]
fn concurrent_content_edits_are_retained() {
    let mut register = ContentRegister::default();
    register.apply(version("mac", 1, &[], "from mac"));
    register.apply(version("phone", 1, &[], "from phone"));

    assert!(register.has_conflict());
    assert_eq!(register.versions.len(), 2);
    assert!(register.versions.iter().any(|v| v.value == "from mac"));
    assert!(register.versions.iter().any(|v| v.value == "from phone"));
}

#[test]
fn resolution_supersedes_every_observed_variant() {
    let mut register = ContentRegister::default();
    register.apply(version("mac", 1, &[], "from mac"));
    register.apply(version("phone", 1, &[], "from phone"));
    register.apply(version("phone", 2, &[("mac", 1), ("phone", 1)], "combined"));

    assert!(!register.has_conflict());
    assert_eq!(register.projected_value(), Some("combined"));
}

#[test]
fn merges_are_idempotent_and_order_independent() {
    let mac = version("mac", 2, &[], "M");
    let phone = version("phone", 3, &[], "P");
    let mut left = ContentRegister::default();
    left.apply(mac.clone());
    left.apply(phone.clone());
    left.apply(phone.clone());
    let mut right = ContentRegister::default();
    right.apply(phone);
    right.apply(mac);

    assert_eq!(left, right);
}

#[test]
fn an_observed_assignment_that_arrives_late_is_dropped() {
    let mut register = ContentRegister::default();
    register.apply(version("phone", 2, &[("mac", 1)], "later"));
    register.apply(version("mac", 1, &[], "earlier"));
    assert_eq!(register.versions.len(), 1);
    assert_eq!(register.projected_value(), Some("later"));
}

#[test]
fn an_empty_register_projects_nothing() {
    let register = ContentRegister::default();
    assert_eq!(register.projected_value(), None);
    assert!(!register.has_conflict());
}

#[test]
fn versions_stand_in_the_order_of_their_dots() {
    let mut register = ContentRegister::default();
    register.apply(version("b", 2, &[], "b2"));
    register.apply(version("a", 2, &[], "a2"));
    register.apply(version("z", 1, &[], "z1"));
    let order: Vec<&str> = register.versions.iter().map(|v| v.value.as_str()).collect();
    assert_eq!(order, vec!["z1", "a2", "b2"]);
}

#[test]
fn a_vector_observes_what_it_was_shown() {
    let mut seen = VersionVector::default();
    let dot = Dot {
        actor_id: "mac".into(),
        counter: 3,
    };
    assert!(!seen.observes(&dot));
    seen.observe(&dot);
    assert!(seen.observes(&dot));
    seen.observe(&Dot {
        actor_id: "mac".into(),
        counter: 2,
    });
    assert_eq!(seen.0.get("mac"), Some(&3));
    assert!(!seen.observes(&Dot {
        actor_id: "mac".into(),
        counter: 4,
    }));
}

#[test]
fn merging_vectors_takes_the_greater_counter_of_each_actor() {
    let mut left = vector(&[("a", 3), ("b", 1)]);
    left.merge(&vector(&[("b", 5), ("c", 2)]));
    assert_eq!(left, vector(&[("a", 3), ("b", 5), ("c", 2)]));
    let mut other = vector(&[("b", 5), ("c", 2)]);
    other.merge(&vector(&[("a", 3), ("b", 1)]));
    assert_eq!(left, other);
}

#[test]
fn the_later_stamp_wins_a_field() {
    let dot = |actor: &str, counter| Dot {
        actor_id: actor.into(),
        counter,
    };
    let mut value = LwwValue {
        stamp: dot("b", 2),
        value: FieldValue::Bool(true),
    };
    value.merge(LwwValue {
        stamp: dot("a", 2),
        value: FieldValue::Bool(false),
    });
    assert_eq!(value.value, FieldValue::Bool(true));
    value.merge(LwwValue {
        stamp: dot("c", 2),
        value: FieldValue::Null,
    });
    assert_eq!(value.value, FieldValue::Null);
}

#[test]
fn a_deletion_is_permanent() {
    let mut state = EntityState::default();
    state.apply(&operation(
        "mac",
        1,
        Mutation::SetMetadata {
            field: "done".into(),
            value: FieldValue::Bool(true),
        },
    ));
    state.apply(&operation("mac", 2, Mutation::Delete));
    state.apply(&operation(
        "mac",
        3,
        Mutation::SetMetadata {
            field: "done".into(),
            value: FieldValue::Bool(false),
        },
    ));
    assert!(state.is_deleted());
    assert_eq!(state.value("done"), Some(&FieldValue::Bool(true)));
    assert_eq!(state.value("name"), None);
}

#[test]
fn the_name_of_an_operation_is_its_dot() {
    assert_eq!(operation("mac", 120, Mutation::Delete).id(), "mac:120");
}

#[test]
fn field_values_read_as_what_they_are() {
    let natural = |value: u64| FieldValue::Natural {
        value,
        bits: (value as f64).to_bits(),
    };
    let negative = FieldValue::Negative {
        value: -7,
        bits: (-7.0f64).to_bits(),
    };
    assert_eq!(natural(7).as_integer(), Some(7));
    assert_eq!(natural(u64::MAX).as_integer(), None);
    assert_eq!(negative.as_integer(), Some(-7));
    assert_eq!(negative.as_natural(), None);
    assert_eq!(natural(7).as_fraction(), Some(7.0f64.to_bits()));
    assert_eq!(FieldValue::Null.as_fraction(), None);
    assert_eq!(FieldValue::Text("x".into()).as_text(), Some(&"x".to_string()));
    assert_eq!(FieldValue::Bool(true).as_bool(), Some(true));
    let whole = WholeNumber {
        value: 7,
        bits: 7.0f64.to_bits(),
    };
    assert_eq!(whole.field(), natural(7));
}

#[test]
fn the_greatest_deletion_counts() {
    let deleted = |order: &[(&str, u64)]| {
        let mut state = EntityState::default();
        for (actor, counter) in order {
            state.apply(&operation(actor, *counter, Mutation::Delete));
        }
        let dot = state.deleted_at.unwrap();
        (dot.actor_id, dot.counter)
    };
    assert_eq!(deleted(&[("mac", 1), ("mac", 2)]), ("mac".into(), 2));
    assert_eq!(deleted(&[("mac", 2), ("mac", 1)]), ("mac".into(), 2));
    assert_eq!(deleted(&[("phone", 2), ("mac", 2)]), ("phone".into(), 2));
    assert_eq!(deleted(&[("mac", 2), ("phone", 2)]), ("phone".into(), 2));
    assert_eq!(deleted(&[("phone", 1), ("mac", 2)]), ("mac".into(), 2));
}

#[test]
fn a_register_holds_concurrent_edits_alone() {
    let edit = |actor: &str, counter, seen: &[(&str, u64)]| {
        operation(
            actor,
            counter,
            Mutation::SetContent { context: vector(seen), value: format!("{actor}{counter}") },
        )
    };
    let mut state = EntityState::default();
    for arrival in [
        edit("b", 1, &[]),
        edit("a", 1, &[]),
        edit("c", 1, &[("a", 1)]),
        edit("a", 1, &[]),
        edit("d", 1, &[("c", 1)]),
        edit("c", 1, &[("a", 1)]),
        edit("a", 1, &[]),
    ] {
        state.apply(&arrival);
        let versions = &state.content.versions;
        for (i, one) in versions.iter().enumerate() {
            for (j, other) in versions.iter().enumerate() {
                assert!(i == j || !one.context.observes(&other.dot));
            }
        }
    }
    let held: Vec<&str> =
        state.content.versions.iter().map(|version| version.value.as_str()).collect();
    assert_eq!(held, ["a1", "b1", "d1"]);
}
