use state_map::{
    StateMap, WellKnownEmptyKeys, TYPE_ALIASES, TYPE_JOIN_RULES, TYPE_MEMBERSHIP,
    TYPE_POWER_LEVELS, TYPE_THIRD_PARTY_INVITE,
};
use std::collections::HashMap;

const ALL_KEYS: [WellKnownEmptyKeys; 11] = [
    WellKnownEmptyKeys::Create,
    WellKnownEmptyKeys::PowerLevels,
    WellKnownEmptyKeys::JoinRules,
    WellKnownEmptyKeys::HistoryVisibility,
    WellKnownEmptyKeys::Name,
    WellKnownEmptyKeys::Topic,
    WellKnownEmptyKeys::Avatar,
    WellKnownEmptyKeys::GuestAccess,
    WellKnownEmptyKeys::CanonicalAliases,
    WellKnownEmptyKeys::RelatedGroups,
    WellKnownEmptyKeys::Encryption,
];

#[test]
fn add_or_remove_test() {
    let mut state_map = StateMap::new();

    for &(t, s) in &[
        ("test", "test2"),
        (TYPE_POWER_LEVELS, ""),
        (TYPE_POWER_LEVELS, "foo"),
        (TYPE_MEMBERSHIP, "foo"),
    ] {
        state_map.insert(t, s, 1);

        let res = state_map.add_or_remove(t, s, 2);
        assert_eq!(res, Some(1));

        assert_eq!(state_map.get(t, s), None);

        let res = state_map.add_or_remove(t, s, 1);
        assert_eq!(res, None);

        let res = state_map.add_or_remove(t, s, 1);
        assert_eq!(res, None);
    }
}

#[test]
fn iter_test() {
    let mut state_map = StateMap::new();

    let mut expected = HashMap::new();

    let mut val = 0;

    for &(t, s) in &[
        ("test", "test2"),
        (TYPE_POWER_LEVELS, ""),
        (TYPE_POWER_LEVELS, "foo"),
        (TYPE_MEMBERSHIP, "foo"),
    ] {
        state_map.insert(t, s, val);
        expected.insert((t, s), val);

        val += 1;
    }

    let actual_entries: HashMap<_, _> = state_map.iter().into_iter().map(|(k, i)| (k, *i)).collect();

    assert_eq!(expected, actual_entries);
}

#[test]
fn well_known_string_round_trip() {
    for &k in &ALL_KEYS {
        assert_eq!(WellKnownEmptyKeys::from_str(k.as_str()), Some(k));
    }
    assert_eq!(WellKnownEmptyKeys::from_str(TYPE_MEMBERSHIP), None);
    assert_eq!(WellKnownEmptyKeys::from_str(TYPE_ALIASES), None);
    assert_eq!(WellKnownEmptyKeys::from_str(TYPE_THIRD_PARTY_INVITE), None);
    assert_eq!(WellKnownEmptyKeys::from_str("fooooo"), None);
    assert_eq!(WellKnownEmptyKeys::from_str(""), None);
}

#[test]
fn well_known_precedence() {
    for (i, &k) in ALL_KEYS.iter().enumerate() {
        let mut state_map = StateMap::new();
        let v = i as i32;
        state_map.insert(k.as_str(), "", v);
        assert_eq!(state_map.get_well_known(k), Some(&v));
        assert_eq!(state_map.get(k.as_str(), ""), Some(&v));
        assert_eq!(state_map.len(), 1);
    }
}

#[test]
fn insert_well_known_matches_insert() {
    let mut a = StateMap::new();
    let mut b = StateMap::new();
    a.insert_well_known(WellKnownEmptyKeys::Topic, 7);
    b.insert(WellKnownEmptyKeys::Topic.as_str(), "", 7);
    assert_eq!(a.get(WellKnownEmptyKeys::Topic.as_str(), ""), Some(&7));
    assert_eq!(b.get_well_known(WellKnownEmptyKeys::Topic), Some(&7));
    assert_eq!(a.len(), b.len());
}

#[test]
fn membership_empty_state_key_edge_case() {
    let mut state_map = StateMap::new();
    state_map.insert(TYPE_MEMBERSHIP, "", 42);
    assert_eq!(state_map.get(TYPE_MEMBERSHIP, ""), Some(&42));
    assert_eq!(state_map.get_membership(""), Some(&42));
    for &k in &ALL_KEYS {
        assert_eq!(state_map.get_well_known(k), None);
    }
}

#[test]
fn concrete_lookup_scenario() {
    let mut state_map = StateMap::new();
    state_map.insert("m.room.power_levels", "", 1);
    state_map.insert("fooooo", "", 2);
    state_map.insert("bar", "example", 3);
    assert_eq!(state_map.get("m.room.power_levels", ""), Some(&1));
    assert_eq!(state_map.get("fooooo", ""), Some(&2));
    assert_eq!(state_map.get("bar", "example"), Some(&3));
    assert_eq!(state_map.get("missing", ""), None);
    assert_eq!(state_map.len(), 3);
}

#[test]
fn concrete_membership_scenario() {
    let mut state_map = StateMap::new();
    state_map.insert("m.room.power_levels", "", 1);
    state_map.insert("fooooo", "", 2);
    state_map.insert("bar", "example", 3);
    state_map.insert("m.room.member", "", 4);
    assert_eq!(state_map.get("m.room.member", ""), Some(&4));
    assert_eq!(state_map.len(), 4);
    let mut well_known_entries = 0;
    for &k in &ALL_KEYS {
        if state_map.get_well_known(k).is_some() {
            well_known_entries += 1;
        }
    }
    assert_eq!(well_known_entries, 1);
    assert_eq!(
        state_map.get_well_known(WellKnownEmptyKeys::PowerLevels),
        Some(&1)
    );
}

#[test]
fn len_and_is_empty() {
    let mut state_map = StateMap::new();
    assert!(state_map.is_empty());
    assert_eq!(state_map.len(), 0);

    let entries = [
        ("m.room.create", ""),
        ("m.room.member", "@alice:example.org"),
        ("m.room.member", "@bob:example.org"),
        ("m.room.aliases", "example.org"),
        ("m.room.third_party_invite", "tok"),
        ("custom", "a"),
        ("custom", "b"),
        ("other", ""),
    ];
    for (i, &(t, s)) in entries.iter().enumerate() {
        state_map.insert(t, s, i as i32);
        assert_eq!(state_map.len(), i + 1);
    }
    assert!(!state_map.is_empty());

    state_map.insert("custom", "a", 99);
    assert_eq!(state_map.len(), entries.len());
    assert_eq!(state_map.get("custom", "a"), Some(&99));
}

#[test]
fn contains_key_agrees_with_get() {
    let mut state_map = StateMap::new();
    state_map.insert("m.room.name", "", 1);
    state_map.insert("custom", "x", 2);
    assert!(state_map.contains_key("m.room.name", ""));
    assert!(state_map.contains_key("custom", "x"));
    assert!(!state_map.contains_key("custom", ""));
    assert!(!state_map.contains_key("m.room.topic", ""));
}

#[test]
fn add_or_remove_idempotent_on_agreement() {
    let mut state_map = StateMap::new();
    state_map.insert("m.room.join_rules", "", 5);
    for _ in 0..3 {
        assert_eq!(state_map.add_or_remove("m.room.join_rules", "", 5), None);
        assert_eq!(state_map.get("m.room.join_rules", ""), Some(&5));
    }
}

#[test]
fn add_or_remove_conflict_clears_slot() {
    let mut state_map = StateMap::new();
    state_map.insert("widget", "w1", 10);
    let removed = state_map.add_or_remove("widget", "w1", 11);
    assert_eq!(removed, Some(10));
    assert_eq!(state_map.get("widget", "w1"), None);
    assert_eq!(state_map.len(), 0);

    assert_eq!(state_map.add_or_remove("widget", "w1", 11), None);
    assert_eq!(state_map.get("widget", "w1"), Some(&11));
    assert_eq!(state_map.len(), 1);
}

#[test]
fn get_mut_updates_in_place() {
    let mut state_map = StateMap::new();
    state_map.insert("m.room.create", "", 1);
    state_map.insert(TYPE_MEMBERSHIP, "@a:b", 2);
    state_map.insert("custom", "k", 3);

    for &(t, s) in &[("m.room.create", ""), (TYPE_MEMBERSHIP, "@a:b"), ("custom", "k")] {
        let v = state_map.get_mut(t, s).unwrap();
        *v += 100;
    }
    assert_eq!(state_map.get("m.room.create", ""), Some(&101));
    assert_eq!(state_map.get(TYPE_MEMBERSHIP, "@a:b"), Some(&102));
    assert_eq!(state_map.get("custom", "k"), Some(&103));
    assert!(state_map.get_mut("custom", "missing").is_none());
    assert_eq!(state_map.len(), 3);
}

#[test]
fn get_mut_or_default_inserts_default() {
    let mut state_map: StateMap<i32> = StateMap::new();
    {
        let v = state_map.get_mut_or_default("m.room.avatar", "");
        assert_eq!(*v, 0);
        *v = 8;
    }
    assert_eq!(state_map.get("m.room.avatar", ""), Some(&8));
    assert_eq!(state_map.len(), 1);
    {
        let v = state_map.get_mut_or_default("m.room.avatar", "");
        assert_eq!(*v, 8);
    }
    assert_eq!(state_map.len(), 1);

    {
        let v = state_map.get_mut_or_default("custom", "deep");
        assert_eq!(*v, 0);
        *v = 9;
    }
    assert_eq!(state_map.get("custom", "deep"), Some(&9));
    assert_eq!(state_map.len(), 2);
}

#[test]
fn direct_bucket_accessors() {
    let mut state_map = StateMap::new();
    state_map.insert(TYPE_MEMBERSHIP, "@alice:example.org", 1);
    state_map.insert(TYPE_ALIASES, "example.org", 2);
    state_map.insert(TYPE_THIRD_PARTY_INVITE, "token", 3);
    assert_eq!(state_map.get_membership("@alice:example.org"), Some(&1));
    assert_eq!(state_map.get_aliases("example.org"), Some(&2));
    assert_eq!(state_map.get_third_party_invites("token"), Some(&3));
    assert_eq!(state_map.get_membership("@bob:example.org"), None);
    assert_eq!(state_map.get_aliases("other.org"), None);
    assert_eq!(state_map.get_third_party_invites("nope"), None);
}

fn populated_map() -> StateMap<i32> {
    let mut state_map = StateMap::new();
    state_map.insert("m.room.create", "", 0);
    state_map.insert("m.room.power_levels", "", 1);
    state_map.insert(TYPE_MEMBERSHIP, "@alice:example.org", 2);
    state_map.insert(TYPE_MEMBERSHIP, "@bob:example.org", 3);
    state_map.insert(TYPE_ALIASES, "example.org", 4);
    state_map.insert(TYPE_THIRD_PARTY_INVITE, "token", 5);
    state_map.insert("custom", "a", 6);
    state_map.insert("custom", "b", 7);
    state_map.insert("m.room.member", "", 8);
    state_map
}

#[test]
fn iteration_completeness() {
    let state_map = populated_map();
    let entries: HashMap<(String, String), i32> = state_map
        .iter()
        .into_iter()
        .map(|((t, s), v)| ((t.to_string(), s.to_string()), *v))
        .collect();
    assert_eq!(state_map.iter().len(), entries.len());
    assert_eq!(entries.len(), state_map.len());
    let expected: HashMap<(String, String), i32> = [
        ("m.room.create", "", 0),
        ("m.room.power_levels", "", 1),
        (TYPE_MEMBERSHIP, "@alice:example.org", 2),
        (TYPE_MEMBERSHIP, "@bob:example.org", 3),
        (TYPE_ALIASES, "example.org", 4),
        (TYPE_THIRD_PARTY_INVITE, "token", 5),
        ("custom", "a", 6),
        ("custom", "b", 7),
        ("m.room.member", "", 8),
    ]
    .iter()
    .map(|&(t, s, v)| ((t.to_string(), s.to_string()), v))
    .collect();
    assert_eq!(entries, expected);
}

#[test]
fn keys_and_values_match_iter() {
    let state_map = populated_map();
    let entries = state_map.iter();
    let keys = state_map.keys();
    let values = state_map.values();
    assert_eq!(keys.len(), entries.len());
    assert_eq!(values.len(), entries.len());
    for (i, &(k, v)) in entries.iter().enumerate() {
        assert_eq!(keys[i], k);
        assert_eq!(*values[i], *v);
    }
}

#[test]
fn non_members_complement_members() {
    let state_map = populated_map();
    let all: HashMap<(String, String), i32> = state_map
        .iter()
        .into_iter()
        .map(|((t, s), v)| ((t.to_string(), s.to_string()), *v))
        .collect();
    let members: HashMap<(String, String), i32> = state_map
        .iter_members()
        .into_iter()
        .map(|(s, v)| ((TYPE_MEMBERSHIP.to_string(), s.to_string()), *v))
        .collect();
    let non_members: HashMap<(String, String), i32> = state_map
        .iter_non_members()
        .into_iter()
        .map(|((t, s), v)| ((t.to_string(), s.to_string()), *v))
        .collect();

    assert_eq!(members.len() + non_members.len(), all.len());
    for k in members.keys() {
        assert!(!non_members.contains_key(k));
        assert_eq!(members.get(k), all.get(k));
    }
    for k in non_members.keys() {
        assert!(!members.contains_key(k));
        assert_eq!(non_members.get(k), all.get(k));
    }
    assert_eq!(members.len(), 3);
}

#[test]
fn iter_join_rules_merges_buckets() {
    let mut state_map = StateMap::new();
    state_map.insert(TYPE_JOIN_RULES, "", 1);
    state_map.insert(TYPE_JOIN_RULES, "legacy", 2);
    state_map.insert("custom", "x", 3);

    let mut entries: Vec<(String, i32)> = state_map
        .iter_join_rules()
        .into_iter()
        .map(|(s, v)| (s.to_string(), *v))
        .collect();
    entries.sort();
    assert_eq!(
        entries,
        vec![(String::new(), 1), ("legacy".to_string(), 2)]
    );
}

#[test]
fn from_entries_matches_repeated_insert() {
    let pairs = vec![
        (("m.room.create".to_string(), String::new()), 1),
        (("m.room.member".to_string(), "@a:b".to_string()), 2),
        (("custom".to_string(), "x".to_string()), 3),
        (("custom".to_string(), "x".to_string()), 4),
    ];
    let built = StateMap::from_entries(pairs.clone());

    let mut inserted = StateMap::new();
    for ((t, s), v) in pairs {
        inserted.insert(&t, &s, v);
    }

    assert_eq!(built.len(), 3);
    assert_eq!(built.len(), inserted.len());
    assert_eq!(built.get("custom", "x"), Some(&4));
    assert_eq!(built.get("m.room.create", ""), inserted.get("m.room.create", ""));
    assert_eq!(built.get("m.room.member", "@a:b"), inserted.get("m.room.member", "@a:b"));
}

#[test]
fn extend_entries_matches_repeated_insert() {
    let mut state_map = StateMap::new();
    state_map.insert("m.room.topic", "", 0);
    state_map.extend_entries(vec![
        (("m.room.topic".to_string(), String::new()), 5),
        (("m.room.aliases".to_string(), "srv".to_string()), 6),
    ]);
    assert_eq!(state_map.len(), 2);
    assert_eq!(state_map.get("m.room.topic", ""), Some(&5));
    assert_eq!(state_map.get_aliases("srv"), Some(&6));
}
