//! The event type strings with dedicated storage, and the classifier that
//! routes a logical `(type, state_key)` key to one of the five buckets.

use vstd::prelude::*;

verus! {

/// The creation event type - `m.room.create`
pub const TYPE_CREATE: &'static str = "m.room.create";

/// The power levels event type - `m.room.power_levels`
pub const TYPE_POWER_LEVELS: &'static str = "m.room.power_levels";

/// The join rules event type - `m.room.join_rules`
pub const TYPE_JOIN_RULES: &'static str = "m.room.join_rules";

/// The history visibility event type - `m.room.history_visibility`
pub const TYPE_HISTORY_VISIBILITY: &'static str = "m.room.history_visibility";

/// The name event type - `m.room.name`
pub const TYPE_NAME: &'static str = "m.room.name";

/// The topic event type - `m.room.topic`
pub const TYPE_TOPIC: &'static str = "m.room.topic";

/// The room avatar event type - `m.room.avatar`
pub const TYPE_AVATAR: &'static str = "m.room.avatar";

/// The guest_access event type - `m.room.guest_access`
pub const TYPE_GUEST_ACCESS: &'static str = "m.room.guest_access";

/// The canonical_alias event type - `m.room.canonical_alias`
pub const TYPE_CANONICAL_ALIASES: &'static str = "m.room.canonical_alias";

/// The related_groups event type - `m.room.related_groups`
pub const TYPE_RELATED_GROUPS: &'static str = "m.room.related_groups";

/// The encryption event type - `m.room.encryption`
pub const TYPE_ENCRYPTION: &'static str = "m.room.encryption";

/// The member event type - `m.room.member`
pub const TYPE_MEMBERSHIP: &'static str = "m.room.member";

/// The aliases event type - `m.room.aliases`
pub const TYPE_ALIASES: &'static str = "m.room.aliases";

/// The third_party_invite event type - `m.room.third_party_invite`
pub const TYPE_THIRD_PARTY_INVITE: &'static str = "m.room.third_party_invite";

/// Event types that are commonly used for state with empty state keys.
#[derive(Debug, Clone, Copy, PartialEq, Eq, Hash, Structural)]
pub enum WellKnownEmptyKeys {
    /// The creation event type - `m.room.create`
    Create,
    /// The power levels event type - `m.room.power_levels`
    PowerLevels,
    /// The join rules event type - `m.room.join_rules`
    JoinRules,
    /// The history visibility event type - `m.room.history_visibility`
    HistoryVisibility,
    /// The name event type - `m.room.name`
    Name,
    /// The topic event type - `m.room.topic`
    Topic,
    /// The room avatar event type - `m.room.avatar`
    Avatar,
    /// The guest_access event type - `m.room.guest_access`
    GuestAccess,
    /// The canonical_alias event type - `m.room.canonical_alias`
    CanonicalAliases,
    /// The related_groups event type - `m.room.related_groups`
    RelatedGroups,
    /// The encryption event type - `m.room.encryption`
    Encryption,
}

impl WellKnownEmptyKeys {
    /// The canonical string form of this event type, as a character sequence.
    pub open spec fn type_str(self) -> Seq<char> {
        match self {
            WellKnownEmptyKeys::Create => TYPE_CREATE@,
            WellKnownEmptyKeys::PowerLevels => TYPE_POWER_LEVELS@,
            WellKnownEmptyKeys::JoinRules => TYPE_JOIN_RULES@,
            WellKnownEmptyKeys::HistoryVisibility => TYPE_HISTORY_VISIBILITY@,
            WellKnownEmptyKeys::Name => TYPE_NAME@,
            WellKnownEmptyKeys::Topic => TYPE_TOPIC@,
            WellKnownEmptyKeys::Avatar => TYPE_AVATAR@,
            WellKnownEmptyKeys::GuestAccess => TYPE_GUEST_ACCESS@,
            WellKnownEmptyKeys::CanonicalAliases => TYPE_CANONICAL_ALIASES@,
            WellKnownEmptyKeys::RelatedGroups => TYPE_RELATED_GROUPS@,
            WellKnownEmptyKeys::Encryption => TYPE_ENCRYPTION@,
        }
    }

    /// Gets the event type as a string
    pub fn as_str(self) -> (r: &'static str)
        ensures
            r@ == self.type_str(),
    {
        match self {
            WellKnownEmptyKeys::Create => TYPE_CREATE,
            WellKnownEmptyKeys::PowerLevels => TYPE_POWER_LEVELS,
            WellKnownEmptyKeys::JoinRules => TYPE_JOIN_RULES,
            WellKnownEmptyKeys::HistoryVisibility => TYPE_HISTORY_VISIBILITY,
            WellKnownEmptyKeys::Name => TYPE_NAME,
            WellKnownEmptyKeys::Topic => TYPE_TOPIC,
            WellKnownEmptyKeys::Avatar => TYPE_AVATAR,
            WellKnownEmptyKeys::GuestAccess => TYPE_GUEST_ACCESS,
            WellKnownEmptyKeys::CanonicalAliases => TYPE_CANONICAL_ALIASES,
            WellKnownEmptyKeys::RelatedGroups => TYPE_RELATED_GROUPS,
            WellKnownEmptyKeys::Encryption => TYPE_ENCRYPTION,
        }
    }

    /// Attempts to convert from a string event type
    pub fn from_str(t: &str) -> (r: Option<WellKnownEmptyKeys>)
        ensures
            r == well_known_of(t@),
    {
        if str_eq(t, TYPE_CREATE) {
            Some(WellKnownEmptyKeys::Create)
        } else if str_eq(t, TYPE_POWER_LEVELS) {
            Some(WellKnownEmptyKeys::PowerLevels)
        } else if str_eq(t, TYPE_JOIN_RULES) {
            Some(WellKnownEmptyKeys::JoinRules)
        } else if str_eq(t, TYPE_HISTORY_VISIBILITY) {
            Some(WellKnownEmptyKeys::HistoryVisibility)
        } else if str_eq(t, TYPE_NAME) {
            Some(WellKnownEmptyKeys::Name)
        } else if str_eq(t, TYPE_TOPIC) {
            Some(WellKnownEmptyKeys::Topic)
        } else if str_eq(t, TYPE_AVATAR) {
            Some(WellKnownEmptyKeys::Avatar)
        } else if str_eq(t, TYPE_GUEST_ACCESS) {
            Some(WellKnownEmptyKeys::GuestAccess)
        } else if str_eq(t, TYPE_CANONICAL_ALIASES) {
            Some(WellKnownEmptyKeys::CanonicalAliases)
        } else if str_eq(t, TYPE_RELATED_GROUPS) {
            Some(WellKnownEmptyKeys::RelatedGroups)
        } else if str_eq(t, TYPE_ENCRYPTION) {
            Some(WellKnownEmptyKeys::Encryption)
        } else {
            None
        }
    }
}

/// The well-known variant whose canonical string is `t`, if any.
pub open spec fn well_known_of(t: Seq<char>) -> Option<WellKnownEmptyKeys> {
    if t == TYPE_CREATE@ {
        Some(WellKnownEmptyKeys::Create)
    } else if t == TYPE_POWER_LEVELS@ {
        Some(WellKnownEmptyKeys::PowerLevels)
    } else if t == TYPE_JOIN_RULES@ {
        Some(WellKnownEmptyKeys::JoinRules)
    } else if t == TYPE_HISTORY_VISIBILITY@ {
        Some(WellKnownEmptyKeys::HistoryVisibility)
    } else if t == TYPE_NAME@ {
        Some(WellKnownEmptyKeys::Name)
    } else if t == TYPE_TOPIC@ {
        Some(WellKnownEmptyKeys::Topic)
    } else if t == TYPE_AVATAR@ {
        Some(WellKnownEmptyKeys::Avatar)
    } else if t == TYPE_GUEST_ACCESS@ {
        Some(WellKnownEmptyKeys::GuestAccess)
    } else if t == TYPE_CANONICAL_ALIASES@ {
        Some(WellKnownEmptyKeys::CanonicalAliases)
    } else if t == TYPE_RELATED_GROUPS@ {
        Some(WellKnownEmptyKeys::RelatedGroups)
    } else if t == TYPE_ENCRYPTION@ {
        Some(WellKnownEmptyKeys::Encryption)
    } else {
        None
    }
}

/// The five storage classes a logical `(type, state_key)` key can route to.
#[derive(Debug, Clone, Copy, PartialEq, Eq)]
pub enum Class {
    /// A well-known type paired with the empty state key.
    WellKnown(WellKnownEmptyKeys),
    /// The membership type, keyed by user identifier.
    Membership,
    /// The aliases type, keyed by server identifier.
    Alias,
    /// The third-party-invite type, keyed by token.
    Invite,
    /// Anything else, double-keyed by type then state key.
    Other,
}

/// The class a type routes to when the well-known rule does not apply.
pub open spec fn type_class(t: Seq<char>) -> Class {
    if t == TYPE_MEMBERSHIP@ {
        Class::Membership
    } else if t == TYPE_ALIASES@ {
        Class::Alias
    } else if t == TYPE_THIRD_PARTY_INVITE@ {
        Class::Invite
    } else {
        Class::Other
    }
}

/// The ordered classification policy: an empty state key on a well-known type
/// wins; otherwise the three special-cased types; otherwise the general
/// fallback.
pub open spec fn classify(t: Seq<char>, s: Seq<char>) -> Class {
    if s.len() == 0 {
        match well_known_of(t) {
            Some(k) => Class::WellKnown(k),
            None => type_class(t),
        }
    } else {
        type_class(t)
    }
}

/// Exact character-for-character string comparison.
pub(crate) fn str_eq(a: &str, b: &str) -> (r: bool)
    ensures
        r == (a@ == b@),
{
    let x: String = a.to_owned();
    let y: String = b.to_owned();
    x == y
}

/// A string is only classified well-known by `well_known_of` when it is the
/// canonical string of the returned variant.
pub proof fn lemma_well_known_of_sound(t: Seq<char>, k: WellKnownEmptyKeys)
    requires
        well_known_of(t) == Some(k),
    ensures
        t == k.type_str(),
{
}

/// The string/variant conversion is a bijection on the well-known set:
/// each canonical string maps back to its own variant.
pub proof fn lemma_well_known_round_trip(k: WellKnownEmptyKeys)
    ensures
        well_known_of(k.type_str()) == Some(k),
{
    lemma_type_strings_distinct();
}

/// The three special-cased types are not in the well-known-empty-key set, so
/// rule one of the classifier never captures them; in particular an empty
/// state key on the membership type still routes to the membership bucket.
pub proof fn lemma_special_types_not_well_known()
    ensures
        well_known_of(TYPE_MEMBERSHIP@) is None,
        well_known_of(TYPE_ALIASES@) is None,
        well_known_of(TYPE_THIRD_PARTY_INVITE@) is None,
        classify(TYPE_MEMBERSHIP@, Seq::<char>::empty()) == Class::Membership,
        classify(TYPE_ALIASES@, Seq::<char>::empty()) == Class::Alias,
        classify(TYPE_THIRD_PARTY_INVITE@, Seq::<char>::empty()) == Class::Invite,
{
    lemma_type_strings_distinct();
}

/// Inserting at `(type, "")` for a well-known type routes to the well-known
/// bucket: rule one of the classification policy takes precedence.
pub proof fn lemma_well_known_precedence(k: WellKnownEmptyKeys)
    ensures
        classify(k.type_str(), Seq::<char>::empty()) == Class::WellKnown(k),
{
    lemma_well_known_round_trip(k);
}

/// No canonical well-known type string is one of the three special-cased
/// types, so with a non-empty state key a well-known type still routes to the
/// general fallback bucket.
pub proof fn lemma_well_known_not_special()
    ensures
        forall|k: WellKnownEmptyKeys| #[trigger] type_class(k.type_str()) == Class::Other,
{
    lemma_type_strings_distinct();
}

/// The fourteen special type strings are pairwise distinct.
proof fn lemma_type_strings_distinct()
    ensures
        forall|k: WellKnownEmptyKeys| #[trigger] well_known_of(k.type_str()) == Some(k),
        forall|k: WellKnownEmptyKeys| #[trigger] type_class(k.type_str()) == Class::Other,
        well_known_of(TYPE_MEMBERSHIP@) is None,
        well_known_of(TYPE_ALIASES@) is None,
        well_known_of(TYPE_THIRD_PARTY_INVITE@) is None,
        TYPE_MEMBERSHIP@ != TYPE_ALIASES@,
        TYPE_MEMBERSHIP@ != TYPE_THIRD_PARTY_INVITE@,
        TYPE_ALIASES@ != TYPE_THIRD_PARTY_INVITE@,
{
    reveal_strlit("m.room.create");
    reveal_strlit("m.room.power_levels");
    reveal_strlit("m.room.join_rules");
    reveal_strlit("m.room.history_visibility");
    reveal_strlit("m.room.name");
    reveal_strlit("m.room.topic");
    reveal_strlit("m.room.avatar");
    reveal_strlit("m.room.guest_access");
    reveal_strlit("m.room.canonical_alias");
    reveal_strlit("m.room.related_groups");
    reveal_strlit("m.room.encryption");
    reveal_strlit("m.room.member");
    reveal_strlit("m.room.aliases");
    reveal_strlit("m.room.third_party_invite");
    assert(TYPE_CREATE@.len() == 13);
    assert(TYPE_POWER_LEVELS@.len() == 19);
    assert(TYPE_JOIN_RULES@.len() == 17);
    assert(TYPE_HISTORY_VISIBILITY@.len() == 25);
    assert(TYPE_NAME@.len() == 11);
    assert(TYPE_TOPIC@.len() == 12);
    assert(TYPE_AVATAR@.len() == 13);
    assert(TYPE_GUEST_ACCESS@.len() == 19);
    assert(TYPE_CANONICAL_ALIASES@.len() == 22);
    assert(TYPE_RELATED_GROUPS@.len() == 21);
    assert(TYPE_ENCRYPTION@.len() == 17);
    assert(TYPE_MEMBERSHIP@.len() == 13);
    assert(TYPE_ALIASES@.len() == 14);
    assert(TYPE_THIRD_PARTY_INVITE@.len() == 25);
    assert(TYPE_CREATE@[7] != TYPE_AVATAR@[7]);
    assert(TYPE_CREATE@[7] != TYPE_MEMBERSHIP@[7]);
    assert(TYPE_AVATAR@[7] != TYPE_MEMBERSHIP@[7]);
    assert(TYPE_POWER_LEVELS@[7] != TYPE_GUEST_ACCESS@[7]);
    assert(TYPE_JOIN_RULES@[7] != TYPE_ENCRYPTION@[7]);
    assert(TYPE_HISTORY_VISIBILITY@[7] != TYPE_THIRD_PARTY_INVITE@[7]);
    assert forall|k: WellKnownEmptyKeys| #[trigger] type_class(k.type_str()) == Class::Other by {
        match k {
            WellKnownEmptyKeys::Create => {},
            WellKnownEmptyKeys::PowerLevels => {},
            WellKnownEmptyKeys::JoinRules => {},
            WellKnownEmptyKeys::HistoryVisibility => {},
            WellKnownEmptyKeys::Name => {},
            WellKnownEmptyKeys::Topic => {},
            WellKnownEmptyKeys::Avatar => {},
            WellKnownEmptyKeys::GuestAccess => {},
            WellKnownEmptyKeys::CanonicalAliases => {},
            WellKnownEmptyKeys::RelatedGroups => {},
            WellKnownEmptyKeys::Encryption => {},
        }
    }
    assert forall|k: WellKnownEmptyKeys| #[trigger] well_known_of(k.type_str()) == Some(k) by {
        match k {
            WellKnownEmptyKeys::Create => {},
            WellKnownEmptyKeys::PowerLevels => {},
            WellKnownEmptyKeys::JoinRules => {},
            WellKnownEmptyKeys::HistoryVisibility => {},
            WellKnownEmptyKeys::Name => {},
            WellKnownEmptyKeys::Topic => {},
            WellKnownEmptyKeys::Avatar => {},
            WellKnownEmptyKeys::GuestAccess => {},
            WellKnownEmptyKeys::CanonicalAliases => {},
            WellKnownEmptyKeys::RelatedGroups => {},
            WellKnownEmptyKeys::Encryption => {},
        }
    }
}

} // verus!
