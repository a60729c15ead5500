//! A specialised container for storing chat-room state snapshots.
//!
//! A state map is a map from a 2-tuple of `(type, state_key)` strings to a
//! value (typically an event or event id). In most rooms the majority of the
//! entries use a small set of well-known types, so storage is split into
//! dedicated buckets to avoid keeping a full string tuple for every entry.

mod alist;
mod keys;
mod store;

pub use keys::classify;
pub use keys::lemma_special_types_not_well_known;
pub use keys::lemma_well_known_not_special;
pub use keys::lemma_well_known_of_sound;
pub use keys::lemma_well_known_precedence;
pub use keys::lemma_well_known_round_trip;
pub use keys::type_class;
pub use keys::well_known_of;
pub use keys::Class;
pub use keys::WellKnownEmptyKeys;
pub use keys::TYPE_ALIASES;
pub use keys::TYPE_AVATAR;
pub use keys::TYPE_CANONICAL_ALIASES;
pub use keys::TYPE_CREATE;
pub use keys::TYPE_ENCRYPTION;
pub use keys::TYPE_GUEST_ACCESS;
pub use keys::TYPE_HISTORY_VISIBILITY;
pub use keys::TYPE_JOIN_RULES;
pub use keys::TYPE_MEMBERSHIP;
pub use keys::TYPE_NAME;
pub use keys::TYPE_POWER_LEVELS;
pub use keys::TYPE_RELATED_GROUPS;
pub use keys::TYPE_THIRD_PARTY_INVITE;
pub use keys::TYPE_TOPIC;
pub use store::fold_entries;
pub use store::lemma_add_or_remove_conflict;
pub use store::lemma_add_or_remove_idempotent;
pub use store::lemma_distinct_inserts_len;
pub use store::lemma_fold_entries_dom;
pub use store::lemma_insert_len;
pub use store::lemma_insert_then_get;
pub use store::lemma_non_members_complement;
pub use store::member_entries;
pub use store::non_member_entries;
pub use store::StateMap;
