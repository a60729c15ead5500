//! The bucketed store: a `StateMap` splits its entries over five buckets by
//! the classification policy and presents them as one logical map from
//! `(type, state_key)` to a value.

use crate::alist::{
    alist_get, alist_get_mut, alist_insert, alist_map, alist_remove, alist_wf,
    lemma_alist_map_dom, lemma_alist_map_index,
};
use crate::keys::{
    classify, lemma_special_types_not_well_known, lemma_well_known_not_special,
    lemma_well_known_of_sound, lemma_well_known_round_trip, str_eq, type_class, well_known_of,
    Class, WellKnownEmptyKeys,
    TYPE_ALIASES, TYPE_JOIN_RULES, TYPE_MEMBERSHIP, TYPE_THIRD_PARTY_INVITE,
};
use vstd::pervasive::unreached;
use vstd::prelude::*;
use vstd::std_specs::cmp::PartialEqSpec;

verus! {

/// A specialised container for storing state mappings.
///
/// Logically a finite map from a `(type, state_key)` pair of strings to a
/// value; physically the entries are routed to one of five buckets by the
/// classification policy, so that the common well-known types do not pay for
/// a full string tuple per entry.
#[derive(Debug, Clone)]
pub struct StateMap<E> {
    well_known: Vec<(String, E)>,
    membership: Vec<(String, E)>,
    aliases: Vec<(String, E)>,
    invites: Vec<(String, E)>,
    others: Vec<(String, Vec<(String, E)>)>,
    total: usize,
}

impl<E> StateMap<E> {
    /// Whether the bucket selected by classification holds the key.
    closed spec fn bucket_contains(&self, t: Seq<char>, s: Seq<char>) -> bool {
        match classify(t, s) {
            Class::WellKnown(_) => alist_map(self.well_known@).contains_key(t),
            Class::Membership => alist_map(self.membership@).contains_key(s),
            Class::Alias => alist_map(self.aliases@).contains_key(s),
            Class::Invite => alist_map(self.invites@).contains_key(s),
            Class::Other => alist_map(self.others@).contains_key(t) && alist_map(
                alist_map(self.others@)[t]@,
            ).contains_key(s),
        }
    }

    /// The value the selected bucket holds for the key.
    closed spec fn bucket_value(&self, t: Seq<char>, s: Seq<char>) -> E {
        match classify(t, s) {
            Class::WellKnown(_) => alist_map(self.well_known@)[t],
            Class::Membership => alist_map(self.membership@)[s],
            Class::Alias => alist_map(self.aliases@)[s],
            Class::Invite => alist_map(self.invites@)[s],
            Class::Other => alist_map(alist_map(self.others@)[t]@)[s],
        }
    }

    /// The representation invariant: every bucket is a well-formed
    /// association list, the well-known bucket holds only canonical
    /// well-known type strings, the fallback bucket holds only keys that
    /// classify to it, and the cached entry count matches the logical map.
    pub closed spec fn wf(&self) -> bool {
        &&& alist_wf(self.well_known@)
        &&& alist_wf(self.membership@)
        &&& alist_wf(self.aliases@)
        &&& alist_wf(self.invites@)
        &&& alist_wf(self.others@)
        &&& (forall|t: Seq<char>| #[trigger]
            alist_map(self.others@).contains_key(t) ==> alist_wf(alist_map(self.others@)[t]@))
        &&& (forall|t: Seq<char>| #[trigger]
            alist_map(self.well_known@).contains_key(t) ==> well_known_of(t) is Some)
        &&& (forall|t: Seq<char>, s: Seq<char>|
            alist_map(self.others@).contains_key(t) && #[trigger] alist_map(
                alist_map(self.others@)[t]@,
            ).contains_key(s) ==> classify(t, s) == Class::Other)
        &&& self.total as nat == self@.len()
        &&& self@.dom().finite()
    }
}

impl<E> View for StateMap<E> {
    type V = Map<(Seq<char>, Seq<char>), E>;

    closed spec fn view(&self) -> Map<(Seq<char>, Seq<char>), E> {
        Map::new(
            |k: (Seq<char>, Seq<char>)| self.bucket_contains(k.0, k.1),
            |k: (Seq<char>, Seq<char>)| self.bucket_value(k.0, k.1),
        )
    }
}

impl<E> StateMap<E> {
    /// Creates an empty state map.
    pub fn new() -> (r: StateMap<E>)
        ensures
            r.wf(),
            r@ == Map::<(Seq<char>, Seq<char>), E>::empty(),
    {
        let r = StateMap {
            well_known: Vec::new(),
            membership: Vec::new(),
            aliases: Vec::new(),
            invites: Vec::new(),
            others: Vec::new(),
            total: 0,
        };
        proof {
            assert(r@ =~= Map::<(Seq<char>, Seq<char>), E>::empty());
        }
        r
    }

    /// Looks up a well-known entry directly, bypassing classification.
    pub fn get_well_known(&self, key: WellKnownEmptyKeys) -> (r: Option<&E>)
        requires
            self.wf(),
        ensures
            match r {
                Some(v) => self@.contains_key((key.type_str(), Seq::<char>::empty())) && *v
                    == self@[(key.type_str(), Seq::<char>::empty())],
                None => !self@.contains_key((key.type_str(), Seq::<char>::empty())),
            },
    {
        proof {
            lemma_well_known_round_trip(key);
        }
        alist_get(&self.well_known, key.as_str())
    }

    /// Looks up an aliases entry by server name, bypassing classification.
    pub fn get_aliases(&self, server: &str) -> (r: Option<&E>)
        requires
            self.wf(),
        ensures
            match r {
                Some(v) => self@.contains_key((TYPE_ALIASES@, server@)) && *v == self@[(
                    TYPE_ALIASES@,
                    server@,
                )],
                None => !self@.contains_key((TYPE_ALIASES@, server@)),
            },
    {
        proof {
            lemma_special_types_not_well_known();
        }
        alist_get(&self.aliases, server)
    }

    /// Looks up a membership entry by user identifier, bypassing
    /// classification.
    pub fn get_membership(&self, user: &str) -> (r: Option<&E>)
        requires
            self.wf(),
        ensures
            match r {
                Some(v) => self@.contains_key((TYPE_MEMBERSHIP@, user@)) && *v == self@[(
                    TYPE_MEMBERSHIP@,
                    user@,
                )],
                None => !self@.contains_key((TYPE_MEMBERSHIP@, user@)),
            },
    {
        proof {
            lemma_special_types_not_well_known();
        }
        alist_get(&self.membership, user)
    }

    /// Looks up a third-party-invite entry by token, bypassing
    /// classification.
    pub fn get_third_party_invites(&self, token: &str) -> (r: Option<&E>)
        requires
            self.wf(),
        ensures
            match r {
                Some(v) => self@.contains_key((TYPE_THIRD_PARTY_INVITE@, token@)) && *v == self@[(
                    TYPE_THIRD_PARTY_INVITE@,
                    token@,
                )],
                None => !self@.contains_key((TYPE_THIRD_PARTY_INVITE@, token@)),
            },
    {
        proof {
            lemma_special_types_not_well_known();
        }
        alist_get(&self.invites, token)
    }

    /// Looks up the entry for a `(type, state_key)` key, routing through the
    /// classification policy.
    pub fn get(&self, t: &str, s: &str) -> (r: Option<&E>)
        requires
            self.wf(),
        ensures
            match r {
                Some(v) => self@.contains_key((t@, s@)) && *v == self@[(t@, s@)],
                None => !self@.contains_key((t@, s@)),
            },
    {
        if s.is_empty() {
            proof {
                assert(s@ =~= Seq::<char>::empty());
            }
            if let Some(key) = WellKnownEmptyKeys::from_str(t) {
                proof {
                    lemma_well_known_of_sound(t@, key);
                }
                return self.get_well_known(key);
            }
        }
        if str_eq(t, TYPE_MEMBERSHIP) {
            self.get_membership(s)
        } else if str_eq(t, TYPE_ALIASES) {
            self.get_aliases(s)
        } else if str_eq(t, TYPE_THIRD_PARTY_INVITE) {
            self.get_third_party_invites(s)
        } else {
            match alist_get(&self.others, t) {
                Some(inner) => alist_get(inner, s),
                None => None,
            }
        }
    }

    /// Inserts a value for a well-known type with an empty state key,
    /// bypassing classification; an existing value is overwritten.
    pub fn insert_well_known(&mut self, k: WellKnownEmptyKeys, value: E)
        requires
            old(self).wf(),
            old(self)@.len() < usize::MAX,
        ensures
            final(self).wf(),
            final(self)@ == old(self)@.insert((k.type_str(), Seq::<char>::empty()), value),
    {
        proof {
            lemma_well_known_round_trip(k);
        }
        let contained = alist_get(&self.well_known, k.as_str()).is_some();
        alist_insert(&mut self.well_known, k.as_str(), value);
        if !contained {
            self.total = self.total + 1;
        }
        proof {
            lemma_view_after_well_known_insert(*old(self), *self, k, value);
        }
    }

    /// Inserts a value at `(type, state_key)`, routing through the
    /// classification policy; an existing value is overwritten.
    pub fn insert(&mut self, t: &str, s: &str, value: E)
        requires
            old(self).wf(),
            old(self)@.len() < usize::MAX,
        ensures
            final(self).wf(),
            final(self)@ == old(self)@.insert((t@, s@), value),
    {
        if s.is_empty() {
            proof {
                assert(s@ =~= Seq::<char>::empty());
            }
            if let Some(key) = WellKnownEmptyKeys::from_str(t) {
                proof {
                    lemma_well_known_of_sound(t@, key);
                }
                self.insert_well_known(key, value);
                return ;
            }
        }
        if str_eq(t, TYPE_MEMBERSHIP) {
            let contained = alist_get(&self.membership, s).is_some();
            alist_insert(&mut self.membership, s, value);
            if !contained {
                self.total = self.total + 1;
            }
            proof {
                lemma_view_after_membership_insert(*old(self), *self, s@, value);
            }
        } else if str_eq(t, TYPE_ALIASES) {
            let contained = alist_get(&self.aliases, s).is_some();
            alist_insert(&mut self.aliases, s, value);
            if !contained {
                self.total = self.total + 1;
            }
            proof {
                lemma_view_after_alias_insert(*old(self), *self, s@, value);
            }
        } else if str_eq(t, TYPE_THIRD_PARTY_INVITE) {
            let contained = alist_get(&self.invites, s).is_some();
            alist_insert(&mut self.invites, s, value);
            if !contained {
                self.total = self.total + 1;
            }
            proof {
                lemma_view_after_invite_insert(*old(self), *self, s@, value);
            }
        } else {
            let mut inner: Vec<(String, E)> = match alist_remove(&mut self.others, t) {
                Some(found) => found,
                None => Vec::new(),
            };
            let ghost inner0 = inner@;
            let contained = alist_get(&inner, s).is_some();
            alist_insert(&mut inner, s, value);
            alist_insert(&mut self.others, t, inner);
            if !contained {
                self.total = self.total + 1;
            }
            proof {
                lemma_view_after_other_insert(*old(self), *self, t@, s@, inner0, value);
            }
        }
    }

    /// Removes and returns the entry for a key, routing through the
    /// classification policy. Within the fallback bucket only the inner entry
    /// is removed: an inner mapping left empty is kept, deliberately, to
    /// avoid churn.
    fn take_entry(&mut self, t: &str, s: &str) -> (r: Option<E>)
        requires
            old(self).wf(),
        ensures
            final(self).wf(),
            match r {
                Some(v) => old(self)@.contains_key((t@, s@)) && v == old(self)@[(t@, s@)]
                    && final(self)@ == old(self)@.remove((t@, s@)),
                None => !old(self)@.contains_key((t@, s@)) && final(self)@ == old(self)@,
            },
    {
        if s.is_empty() {
            proof {
                assert(s@ =~= Seq::<char>::empty());
            }
            if let Some(key) = WellKnownEmptyKeys::from_str(t) {
                proof {
                    lemma_well_known_of_sound(t@, key);
                    lemma_well_known_round_trip(key);
                }
                let r = alist_remove(&mut self.well_known, t);
                if r.is_some() {
                    proof {
                        assert(old(self)@.dom().remove((t@, s@)).len() + 1 == old(
                            self,
                        )@.dom().len());
                    }
                    self.total = self.total - 1;
                }
                proof {
                    lemma_view_after_well_known_remove(*old(self), *self, key);
                }
                return r;
            }
        }
        if str_eq(t, TYPE_MEMBERSHIP) {
            let r = alist_remove(&mut self.membership, s);
            if r.is_some() {
                proof {
                    assert(old(self)@.dom().remove((t@, s@)).len() + 1 == old(self)@.dom().len());
                }
                self.total = self.total - 1;
            }
            proof {
                lemma_view_after_membership_remove(*old(self), *self, s@);
            }
            r
        } else if str_eq(t, TYPE_ALIASES) {
            let r = alist_remove(&mut self.aliases, s);
            if r.is_some() {
                proof {
                    assert(old(self)@.dom().remove((t@, s@)).len() + 1 == old(self)@.dom().len());
                }
                self.total = self.total - 1;
            }
            proof {
                lemma_view_after_alias_remove(*old(self), *self, s@);
            }
            r
        } else if str_eq(t, TYPE_THIRD_PARTY_INVITE) {
            let r = alist_remove(&mut self.invites, s);
            if r.is_some() {
                proof {
                    assert(old(self)@.dom().remove((t@, s@)).len() + 1 == old(self)@.dom().len());
                }
                self.total = self.total - 1;
            }
            proof {
                lemma_view_after_invite_remove(*old(self), *self, s@);
            }
            r
        } else {
            match alist_remove(&mut self.others, t) {
                Some(mut inner) => {
                    let ghost inner0 = inner@;
                    let r = alist_remove(&mut inner, s);
                    alist_insert(&mut self.others, t, inner);
                    if r.is_some() {
                        proof {
                            assert(old(self)@.dom().remove((t@, s@)).len() + 1 == old(
                                self,
                            )@.dom().len());
                        }
                        self.total = self.total - 1;
                    }
                    proof {
                        lemma_view_after_other_remove(*old(self), *self, t@, s@, inner0);
                    }
                    r
                },
                None => {
                    proof {
                        assert(!old(self)@.contains_key((t@, s@)));
                        assert(self@ =~= old(self)@);
                    }
                    None
                },
            }
        }
    }

    /// Looks up the entry for a `(type, state_key)` key and returns a mutable
    /// reference to its value, routing through the classification policy.
    pub fn get_mut(&mut self, t: &str, s: &str) -> (r: Option<&mut E>)
        requires
            old(self).wf(),
        ensures
            match r {
                Some(v) => old(self)@.contains_key((t@, s@)) && *v == old(self)@[(t@, s@)]
                    && final(self).wf() && final(self)@ == old(self)@.insert(
                    (t@, s@),
                    *final(v),
                ),
                None => !old(self)@.contains_key((t@, s@)) && final(self).wf() && final(self)@
                    == old(self)@,
            },
    {
        if s.is_empty() {
            proof {
                assert(s@ =~= Seq::<char>::empty());
            }
            if let Some(key) = WellKnownEmptyKeys::from_str(t) {
                proof {
                    lemma_well_known_of_sound(t@, key);
                    lemma_well_known_round_trip(key);
                    lemma_view_frame_all(*old(self));
                    lemma_well_known_update_frame(*old(self), key);
                }
                return alist_get_mut(&mut self.well_known, t);
            }
        }
        if str_eq(t, TYPE_MEMBERSHIP) {
            proof {
                lemma_special_types_not_well_known();
                lemma_view_frame_all(*old(self));
                lemma_membership_update_frame(*old(self), s@);
            }
            alist_get_mut(&mut self.membership, s)
        } else if str_eq(t, TYPE_ALIASES) {
            proof {
                lemma_special_types_not_well_known();
                lemma_view_frame_all(*old(self));
                lemma_alias_update_frame(*old(self), s@);
            }
            alist_get_mut(&mut self.aliases, s)
        } else if str_eq(t, TYPE_THIRD_PARTY_INVITE) {
            proof {
                lemma_special_types_not_well_known();
                lemma_view_frame_all(*old(self));
                lemma_invite_update_frame(*old(self), s@);
            }
            alist_get_mut(&mut self.invites, s)
        } else {
            proof {
                lemma_view_frame_all(*old(self));
                lemma_other_update_frame(*old(self), t@, s@);
                lemma_other_refresh_frame(*old(self), t@);
            }
            match alist_get_mut(&mut self.others, t) {
                Some(inner) => alist_get_mut(inner, s),
                None => None,
            }
        }
    }

    /// Whether the map holds an entry for the `(type, state_key)` key.
    pub fn contains_key(&self, t: &str, s: &str) -> (r: bool)
        requires
            self.wf(),
        ensures
            r == self@.contains_key((t@, s@)),
    {
        self.get(t, s).is_some()
    }

    /// Walks every bucket and returns each live entry once, as
    /// `((type, state_key), value)`; entries of the membership bucket are
    /// included only when asked for. Bucket order is fixed (well-known,
    /// membership, alias, invite, other); order within a bucket is an
    /// implementation detail.
    fn collect_entries<'a>(&'a self, include_members: bool) -> (r: Vec<
        ((&'a str, &'a str), &'a E),
    >)
        requires
            self.wf(),
        ensures
            forall|p: int|
                0 <= p < r@.len() ==> self@.contains_key(((#[trigger] r@[p]).0.0@, r@[p].0.1@))
                    && *r@[p].1 == self@[(r@[p].0.0@, r@[p].0.1@)] && (include_members
                    || r@[p].0.0@ != TYPE_MEMBERSHIP@),
            forall|p: int, q: int|
                0 <= p < q < r@.len() ==> ((#[trigger] r@[p]).0.0@, r@[p].0.1@) != ((
                #[trigger] r@[q]).0.0@,
                r@[q].0.1@,
            ),
            forall|k: (Seq<char>, Seq<char>)|
                #[trigger] self@.contains_key(k) && (include_members || k.0 != TYPE_MEMBERSHIP@)
                    ==> exists|p: int|
                    0 <= p < r@.len() && ((#[trigger] r@[p]).0.0@, r@[p].0.1@) == k,
    {
        proof {
            lemma_special_types_not_well_known();
            lemma_alist_map_index(self.well_known@);
            lemma_alist_map_index(self.membership@);
            lemma_alist_map_index(self.aliases@);
            lemma_alist_map_index(self.invites@);
            lemma_alist_map_index(self.others@);
            reveal_strlit("");
            assert(""@ =~= Seq::<char>::empty());
        }
        let mut r: Vec<((&'a str, &'a str), &'a E)> = Vec::new();

        let n1 = self.well_known.len();
        let mut i: usize = 0;
        while i < n1
            invariant
                self.wf(),
                n1 == self.well_known@.len(),
                0 <= i <= n1,
                r@.len() == i,
                ""@ == Seq::<char>::empty(),
                forall|p: int|
                    0 <= p < i ==> (#[trigger] r@[p]).0.0@ == self.well_known@[p].0@ && r@[p].0.1@
                        == Seq::<char>::empty() && *r@[p].1 == self.well_known@[p].1,
            decreases n1 - i,
        {
            r.push(((self.well_known[i].0.as_str(), ""), &self.well_known[i].1));
            i = i + 1;
        }
        let ghost b1 = r@.len() as int;

        if include_members {
            let n2 = self.membership.len();
            let mut i: usize = 0;
            while i < n2
                invariant
                    self.wf(),
                    n2 == self.membership@.len(),
                    0 <= i <= n2,
                    b1 == self.well_known@.len(),
                    r@.len() == b1 + i,
                    forall|p: int|
                        0 <= p < b1 ==> (#[trigger] r@[p]).0.0@ == self.well_known@[p].0@
                            && r@[p].0.1@ == Seq::<char>::empty() && *r@[p].1
                            == self.well_known@[p].1,
                    forall|p: int|
                        b1 <= p < r@.len() ==> (#[trigger] r@[p]).0.0@ == TYPE_MEMBERSHIP@
                            && r@[p].0.1@ == self.membership@[p - b1].0@ && *r@[p].1
                            == self.membership@[p - b1].1,
                decreases n2 - i,
            {
                r.push(((TYPE_MEMBERSHIP, self.membership[i].0.as_str()), &self.membership[i].1));
                i = i + 1;
            }
        }
        let ghost b2 = r@.len() as int;

        let n3 = self.aliases.len();
        let mut i: usize = 0;
        while i < n3
            invariant
                self.wf(),
                n3 == self.aliases@.len(),
                0 <= i <= n3,
                b1 == self.well_known@.len(),
                b1 <= b2,
                r@.len() == b2 + i,
                forall|p: int|
                    0 <= p < b1 ==> (#[trigger] r@[p]).0.0@ == self.well_known@[p].0@ && r@[p].0.1@
                        == Seq::<char>::empty() && *r@[p].1 == self.well_known@[p].1,
                forall|p: int|
                    b1 <= p < b2 ==> (#[trigger] r@[p]).0.0@ == TYPE_MEMBERSHIP@ && r@[p].0.1@
                        == self.membership@[p - b1].0@ && *r@[p].1 == self.membership@[p - b1].1,
                forall|p: int|
                    b2 <= p < r@.len() ==> (#[trigger] r@[p]).0.0@ == TYPE_ALIASES@ && r@[p].0.1@
                        == self.aliases@[p - b2].0@ && *r@[p].1 == self.aliases@[p - b2].1,
            decreases n3 - i,
        {
            r.push(((TYPE_ALIASES, self.aliases[i].0.as_str()), &self.aliases[i].1));
            i = i + 1;
        }
        let ghost b3 = r@.len() as int;

        let n4 = self.invites.len();
        let mut i: usize = 0;
        while i < n4
            invariant
                self.wf(),
                n4 == self.invites@.len(),
                0 <= i <= n4,
                b1 == self.well_known@.len(),
                b1 <= b2 <= b3,
                r@.len() == b3 + i,
                forall|p: int|
                    0 <= p < b1 ==> (#[trigger] r@[p]).0.0@ == self.well_known@[p].0@ && r@[p].0.1@
                        == Seq::<char>::empty() && *r@[p].1 == self.well_known@[p].1,
                forall|p: int|
                    b1 <= p < b2 ==> (#[trigger] r@[p]).0.0@ == TYPE_MEMBERSHIP@ && r@[p].0.1@
                        == self.membership@[p - b1].0@ && *r@[p].1 == self.membership@[p - b1].1,
                forall|p: int|
                    b2 <= p < b3 ==> (#[trigger] r@[p]).0.0@ == TYPE_ALIASES@ && r@[p].0.1@
                        == self.aliases@[p - b2].0@ && *r@[p].1 == self.aliases@[p - b2].1,
                forall|p: int|
                    b3 <= p < r@.len() ==> (#[trigger] r@[p]).0.0@ == TYPE_THIRD_PARTY_INVITE@
                        && r@[p].0.1@ == self.invites@[p - b3].0@ && *r@[p].1 == self.invites@[p
                        - b3].1,
            decreases n4 - i,
        {
            r.push(((TYPE_THIRD_PARTY_INVITE, self.invites[i].0.as_str()), &self.invites[i].1));
            i = i + 1;
        }
        let ghost b4 = r@.len() as int;

        let n5 = self.others.len();
        let mut a: usize = 0;
        while a < n5
            invariant
                self.wf(),
                n5 == self.others@.len(),
                0 <= a <= n5,
                b1 == self.well_known@.len(),
                b1 <= b2 <= b3 <= b4 <= r@.len(),
                forall|p: int|
                    0 <= p < b1 ==> (#[trigger] r@[p]).0.0@ == self.well_known@[p].0@ && r@[p].0.1@
                        == Seq::<char>::empty() && *r@[p].1 == self.well_known@[p].1,
                forall|p: int|
                    b1 <= p < b2 ==> (#[trigger] r@[p]).0.0@ == TYPE_MEMBERSHIP@ && r@[p].0.1@
                        == self.membership@[p - b1].0@ && *r@[p].1 == self.membership@[p - b1].1,
                forall|p: int|
                    b2 <= p < b3 ==> (#[trigger] r@[p]).0.0@ == TYPE_ALIASES@ && r@[p].0.1@
                        == self.aliases@[p - b2].0@ && *r@[p].1 == self.aliases@[p - b2].1,
                forall|p: int|
                    b3 <= p < b4 ==> (#[trigger] r@[p]).0.0@ == TYPE_THIRD_PARTY_INVITE@
                        && r@[p].0.1@ == self.invites@[p - b3].0@ && *r@[p].1 == self.invites@[p
                        - b3].1,
                forall|p: int|
                    b4 <= p < r@.len() ==> self@.contains_key(
                        ((#[trigger] r@[p]).0.0@, r@[p].0.1@),
                    ) && *r@[p].1 == self@[(r@[p].0.0@, r@[p].0.1@)] && classify(
                        r@[p].0.0@,
                        r@[p].0.1@,
                    ) == Class::Other,
                forall|p: int, q: int|
                    b4 <= p < q < r@.len() ==> ((#[trigger] r@[p]).0.0@, r@[p].0.1@) != ((
                    #[trigger] r@[q]).0.0@,
                    r@[q].0.1@,
                ),
                forall|p: int, a2: int|
                    b4 <= p < r@.len() && a <= a2 < n5 ==> (#[trigger] r@[p]).0.0@ != (
                    #[trigger] self.others@[a2]).0@,
                forall|a2: int, j: int|
                    #![trigger self.others@[a2].1@[j]]
                    0 <= a2 < a && 0 <= j < self.others@[a2].1@.len() ==> exists|p: int|
                        b4 <= p < r@.len() && ((#[trigger] r@[p]).0.0@, r@[p].0.1@) == (
                        self.others@[a2].0@,
                        self.others@[a2].1@[j].0@,
                        ),
            decreases n5 - a,
        {
            let inner: &Vec<(String, E)> = &self.others[a].1;
            let n_in = inner.len();
            let ghost m_a = r@.len() as int;
            proof {
                lemma_alist_map_index(self.others@);
                assert(alist_map(self.others@)[self.others@[a as int].0@] == self.others@[a as int].1);
                assert(alist_wf(inner@));
                lemma_alist_map_index(inner@);
            }
            let mut b: usize = 0;
            while b < n_in
                invariant
                    self.wf(),
                    n5 == self.others@.len(),
                    0 <= a < n5,
                    n_in == inner@.len(),
                    0 <= b <= n_in,
                    *inner == self.others@[a as int].1,
                    alist_wf(inner@),
                    alist_map(self.others@).contains_key(self.others@[a as int].0@),
                    alist_map(self.others@)[self.others@[a as int].0@] == self.others@[a as int].1,
                    b1 == self.well_known@.len(),
                    b1 <= b2 <= b3 <= b4 <= m_a <= r@.len(),
                    r@.len() == m_a + b,
                    forall|p: int|
                        0 <= p < b1 ==> (#[trigger] r@[p]).0.0@ == self.well_known@[p].0@
                            && r@[p].0.1@ == Seq::<char>::empty() && *r@[p].1
                            == self.well_known@[p].1,
                    forall|p: int|
                        b1 <= p < b2 ==> (#[trigger] r@[p]).0.0@ == TYPE_MEMBERSHIP@ && r@[p].0.1@
                            == self.membership@[p - b1].0@ && *r@[p].1 == self.membership@[p
                            - b1].1,
                    forall|p: int|
                        b2 <= p < b3 ==> (#[trigger] r@[p]).0.0@ == TYPE_ALIASES@ && r@[p].0.1@
                            == self.aliases@[p - b2].0@ && *r@[p].1 == self.aliases@[p - b2].1,
                    forall|p: int|
                        b3 <= p < b4 ==> (#[trigger] r@[p]).0.0@ == TYPE_THIRD_PARTY_INVITE@
                            && r@[p].0.1@ == self.invites@[p - b3].0@ && *r@[p].1 == self.invites@[p
                            - b3].1,
                    forall|p: int|
                        b4 <= p < r@.len() ==> self@.contains_key(
                            ((#[trigger] r@[p]).0.0@, r@[p].0.1@),
                        ) && *r@[p].1 == self@[(r@[p].0.0@, r@[p].0.1@)] && classify(
                            r@[p].0.0@,
                            r@[p].0.1@,
                        ) == Class::Other,
                    forall|p: int, q: int|
                        b4 <= p < q < r@.len() ==> ((#[trigger] r@[p]).0.0@, r@[p].0.1@) != ((
                        #[trigger] r@[q]).0.0@,
                        r@[q].0.1@,
                    ),
                    forall|p: int, a2: int|
                        b4 <= p < r@.len() && a < a2 < n5 ==> (#[trigger] r@[p]).0.0@ != (
                        #[trigger] self.others@[a2]).0@,
                    forall|p: int, a2: int|
                        b4 <= p < m_a && a <= a2 < n5 ==> (#[trigger] r@[p]).0.0@ != (
                        #[trigger] self.others@[a2]).0@,
                    forall|a2: int, j: int|
                        #![trigger self.others@[a2].1@[j]]
                        0 <= a2 < a && 0 <= j < self.others@[a2].1@.len() ==> exists|p: int|
                            b4 <= p < r@.len() && ((#[trigger] r@[p]).0.0@, r@[p].0.1@) == (
                            self.others@[a2].0@,
                            self.others@[a2].1@[j].0@,
                            ),
                    forall|p: int|
                        m_a <= p < r@.len() ==> (#[trigger] r@[p]).0.0@ == self.others@[a as int].0@
                            && r@[p].0.1@ == inner@[p - m_a].0@ && *r@[p].1 == inner@[p - m_a].1,
                decreases n_in - b,
            {
                proof {
                    lemma_alist_map_index(self.others@);
                    lemma_alist_map_index(inner@);
                }
                let ghost pre = r@;
                r.push(((self.others[a].0.as_str(), inner[b].0.as_str()), &inner[b].1));
                b = b + 1;
                proof {
                    assert forall|a2: int, j: int|
                        #![trigger self.others@[a2].1@[j]]
                        0 <= a2 < a && 0 <= j < self.others@[a2].1@.len() implies exists|p: int|
                        b4 <= p < r@.len() && ((#[trigger] r@[p]).0.0@, r@[p].0.1@) == (
                        self.others@[a2].0@,
                        self.others@[a2].1@[j].0@,
                        ) by {
                        let p0 = choose|p: int|
                            b4 <= p < pre.len() && ((#[trigger] pre[p]).0.0@, pre[p].0.1@) == (
                            self.others@[a2].0@,
                            self.others@[a2].1@[j].0@,
                            );
                        assert(r@[p0] == pre[p0]);
                    }
                }
            }
            a = a + 1;
            proof {
                assert forall|a2: int, j: int|
                    #![trigger self.others@[a2].1@[j]]
                    0 <= a2 < a && 0 <= j < self.others@[a2].1@.len() implies exists|p: int|
                        b4 <= p < r@.len() && ((#[trigger] r@[p]).0.0@, r@[p].0.1@) == (
                        self.others@[a2].0@,
                        self.others@[a2].1@[j].0@,
                        ) by {
                    if a2 == a - 1 {
                        let p = m_a + j;
                        assert(b4 <= p < r@.len() && ((r@[p]).0.0@, r@[p].0.1@) == (
                        self.others@[a2].0@,
                        self.others@[a2].1@[j].0@,
                        ));
                    }
                }
            }
        }

        proof {
            assert forall|p: int|
                0 <= p < r@.len() implies self@.contains_key(
                ((#[trigger] r@[p]).0.0@, r@[p].0.1@),
            ) && *r@[p].1 == self@[(r@[p].0.0@, r@[p].0.1@)] && (include_members || r@[p].0.0@
                != TYPE_MEMBERSHIP@) by {
                if p < b1 {
                    assert(alist_map(self.well_known@).contains_key(r@[p].0.0@));
                    assert(well_known_of(r@[p].0.0@) is Some);
                } else if p < b2 {
                    assert(classify(r@[p].0.0@, r@[p].0.1@) == Class::Membership);
                } else if p < b3 {
                    assert(classify(r@[p].0.0@, r@[p].0.1@) == Class::Alias);
                } else if p < b4 {
                    assert(classify(r@[p].0.0@, r@[p].0.1@) == Class::Invite);
                }
            }
            assert forall|k: (Seq<char>, Seq<char>)|
                #[trigger] self@.contains_key(k) && (include_members || k.0 != TYPE_MEMBERSHIP@)
                    implies exists|p: int|
                    0 <= p < r@.len() && ((#[trigger] r@[p]).0.0@, r@[p].0.1@) == k by {
                match classify(k.0, k.1) {
                    Class::WellKnown(w) => {
                        lemma_well_known_of_sound(k.0, w);
                        assert(k.1.len() == 0);
                        assert(k.1 =~= Seq::<char>::empty());
                        lemma_alist_map_dom(self.well_known@, k.0);
                        let j = choose|j: int|
                            0 <= j < self.well_known@.len() && self.well_known@[j].0@ == k.0;
                        assert(((r@[j]).0.0@, r@[j].0.1@) == k);
                    },
                    Class::Membership => {
                        assert(k.0 == TYPE_MEMBERSHIP@);
                        assert(include_members);
                        lemma_alist_map_dom(self.membership@, k.1);
                        let j = choose|j: int|
                            0 <= j < self.membership@.len() && self.membership@[j].0@ == k.1;
                        assert(((r@[b1 + j]).0.0@, r@[b1 + j].0.1@) == k);
                    },
                    Class::Alias => {
                        assert(k.0 == TYPE_ALIASES@);
                        lemma_alist_map_dom(self.aliases@, k.1);
                        let j = choose|j: int|
                            0 <= j < self.aliases@.len() && self.aliases@[j].0@ == k.1;
                        assert(((r@[b2 + j]).0.0@, r@[b2 + j].0.1@) == k);
                    },
                    Class::Invite => {
                        assert(k.0 == TYPE_THIRD_PARTY_INVITE@);
                        lemma_alist_map_dom(self.invites@, k.1);
                        let j = choose|j: int|
                            0 <= j < self.invites@.len() && self.invites@[j].0@ == k.1;
                        assert(((r@[b3 + j]).0.0@, r@[b3 + j].0.1@) == k);
                    },
                    Class::Other => {
                        lemma_alist_map_dom(self.others@, k.0);
                        let a2 = choose|a2: int|
                            0 <= a2 < self.others@.len() && self.others@[a2].0@ == k.0;
                        assert(alist_map(self.others@)[k.0] == self.others@[a2].1);
                        lemma_alist_map_dom(self.others@[a2].1@, k.1);
                        let j = choose|j: int|
                            0 <= j < self.others@[a2].1@.len() && self.others@[a2].1@[j].0@ == k.1;
                        let p = choose|p: int|
                            b4 <= p < r@.len() && ((#[trigger] r@[p]).0.0@, r@[p].0.1@) == (
                            self.others@[a2].0@,
                            self.others@[a2].1@[j].0@,
                            );
                        assert(((r@[p]).0.0@, r@[p].0.1@) == k);
                    },
                }
            }
            assert forall|p: int, q: int|
                0 <= p < q < r@.len() implies ((#[trigger] r@[p]).0.0@, r@[p].0.1@) != ((
            #[trigger] r@[q]).0.0@,
            r@[q].0.1@,
            ) by {
                let kp = ((r@[p]).0.0@, r@[p].0.1@);
                let kq = ((r@[q]).0.0@, r@[q].0.1@);
                if kp == kq {
                    if p < b1 {
                        assert(alist_map(self.well_known@).contains_key(r@[p].0.0@));
                        assert(well_known_of(kp.0) is Some);
                    } else if p < b2 {
                        assert(classify(kp.0, kp.1) == Class::Membership);
                    } else if p < b3 {
                        assert(classify(kp.0, kp.1) == Class::Alias);
                    } else if p < b4 {
                        assert(classify(kp.0, kp.1) == Class::Invite);
                    } else {
                        assert(classify(kp.0, kp.1) == Class::Other);
                    }
                    if q < b1 {
                        assert(alist_map(self.well_known@).contains_key(r@[q].0.0@));
                        assert(well_known_of(kq.0) is Some);
                    } else if q < b2 {
                        assert(classify(kq.0, kq.1) == Class::Membership);
                    } else if q < b3 {
                        assert(classify(kq.0, kq.1) == Class::Alias);
                    } else if q < b4 {
                        assert(classify(kq.0, kq.1) == Class::Invite);
                    } else {
                        assert(classify(kq.0, kq.1) == Class::Other);
                    }
                    if q < b1 {
                        assert(self.well_known@[p].0@ != self.well_known@[q].0@);
                    } else if b1 <= p && q < b2 {
                        assert(self.membership@[p - b1].0@ != self.membership@[q - b1].0@);
                    } else if b2 <= p && q < b3 {
                        assert(self.aliases@[p - b2].0@ != self.aliases@[q - b2].0@);
                    } else if b3 <= p && q < b4 {
                        assert(self.invites@[p - b3].0@ != self.invites@[q - b3].0@);
                    }
                    assert(false);
                }
            }
        }
        r
    }

    /// Returns every entry of the map, each exactly once, as
    /// `((type, state_key), value)` pairs. Order across buckets is fixed
    /// (well-known, membership, alias, invite, other); order within a bucket
    /// is unspecified.
    pub fn iter<'a>(&'a self) -> (r: Vec<((&'a str, &'a str), &'a E)>)
        requires
            self.wf(),
        ensures
            forall|p: int|
                0 <= p < r@.len() ==> self@.contains_key(((#[trigger] r@[p]).0.0@, r@[p].0.1@))
                    && *r@[p].1 == self@[(r@[p].0.0@, r@[p].0.1@)],
            forall|p: int, q: int|
                0 <= p < q < r@.len() ==> ((#[trigger] r@[p]).0.0@, r@[p].0.1@) != ((
                #[trigger] r@[q]).0.0@,
                r@[q].0.1@,
            ),
            forall|k: (Seq<char>, Seq<char>)|
                #[trigger] self@.contains_key(k) ==> exists|p: int|
                    0 <= p < r@.len() && ((#[trigger] r@[p]).0.0@, r@[p].0.1@) == k,
    {
        self.collect_entries(true)
    }

    /// Returns every entry whose type is not the membership type, each
    /// exactly once: the complement of `iter_members` within `iter`.
    pub fn iter_non_members<'a>(&'a self) -> (r: Vec<((&'a str, &'a str), &'a E)>)
        requires
            self.wf(),
        ensures
            forall|p: int|
                0 <= p < r@.len() ==> self@.contains_key(((#[trigger] r@[p]).0.0@, r@[p].0.1@))
                    && *r@[p].1 == self@[(r@[p].0.0@, r@[p].0.1@)] && r@[p].0.0@
                    != TYPE_MEMBERSHIP@,
            forall|p: int, q: int|
                0 <= p < q < r@.len() ==> ((#[trigger] r@[p]).0.0@, r@[p].0.1@) != ((
                #[trigger] r@[q]).0.0@,
                r@[q].0.1@,
            ),
            forall|k: (Seq<char>, Seq<char>)|
                #[trigger] self@.contains_key(k) && k.0 != TYPE_MEMBERSHIP@ ==> exists|p: int|
                    0 <= p < r@.len() && ((#[trigger] r@[p]).0.0@, r@[p].0.1@) == k,
    {
        self.collect_entries(false)
    }

    /// Returns every key of the map, each exactly once.
    pub fn keys<'a>(&'a self) -> (r: Vec<(&'a str, &'a str)>)
        requires
            self.wf(),
        ensures
            forall|p: int|
                0 <= p < r@.len() ==> self@.contains_key(((#[trigger] r@[p]).0@, r@[p].1@)),
            forall|p: int, q: int|
                0 <= p < q < r@.len() ==> ((#[trigger] r@[p]).0@, r@[p].1@) != ((
                #[trigger] r@[q]).0@,
                r@[q].1@,
            ),
            forall|k: (Seq<char>, Seq<char>)|
                #[trigger] self@.contains_key(k) ==> exists|p: int|
                    0 <= p < r@.len() && ((#[trigger] r@[p]).0@, r@[p].1@) == k,
    {
        let entries = self.collect_entries(true);
        let n = entries.len();
        let mut r: Vec<(&'a str, &'a str)> = Vec::new();
        let mut i: usize = 0;
        while i < n
            invariant
                n == entries@.len(),
                0 <= i <= n,
                r@.len() == i,
                forall|j: int| 0 <= j < i ==> (#[trigger] r@[j]) == entries@[j].0,
            decreases n - i,
        {
            r.push(entries[i].0);
            i = i + 1;
        }
        proof {
            assert forall|k: (Seq<char>, Seq<char>)| #[trigger] self@.contains_key(k) implies exists|
                p: int,
            | 0 <= p < r@.len() && ((#[trigger] r@[p]).0@, r@[p].1@) == k by {
                let p0 = choose|p: int|
                    0 <= p < entries@.len() && ((#[trigger] entries@[p]).0.0@, entries@[p].0.1@)
                        == k;
                assert(((r@[p0]).0@, r@[p0].1@) == k);
            }
        }
        r
    }

    /// Returns every value of the map, one per live entry, in the order of
    /// `iter`: some sequence of distinct keys covering the whole map pairs up
    /// with the returned values.
    pub fn values<'a>(&'a self) -> (r: Vec<&'a E>)
        requires
            self.wf(),
        ensures
            exists|ks: Seq<(Seq<char>, Seq<char>)>|
                {
                    &&& #[trigger] ks.no_duplicates()
                    &&& ks.len() == r@.len()
                    &&& forall|p: int|
                        0 <= p < r@.len() ==> self@.contains_key(#[trigger] ks[p]) && *r@[p]
                            == self@[ks[p]]
                    &&& forall|k: (Seq<char>, Seq<char>)|
                        #[trigger] self@.contains_key(k) ==> ks.contains(k)
                },
    {
        let entries = self.collect_entries(true);
        let n = entries.len();
        let mut r: Vec<&'a E> = Vec::new();
        let mut i: usize = 0;
        while i < n
            invariant
                n == entries@.len(),
                0 <= i <= n,
                r@.len() == i,
                forall|j: int| 0 <= j < i ==> (#[trigger] r@[j]) == entries@[j].1,
            decreases n - i,
        {
            r.push(entries[i].1);
            i = i + 1;
        }
        proof {
            let ks = Seq::new(
                entries@.len(),
                |p: int| ((entries@[p]).0.0@, entries@[p].0.1@),
            );
            assert(ks.no_duplicates());
            assert(forall|p: int|
                0 <= p < r@.len() ==> self@.contains_key(#[trigger] ks[p]) && *r@[p]
                    == self@[ks[p]]);
            assert forall|k: (Seq<char>, Seq<char>)| #[trigger] self@.contains_key(k) implies ks.contains(
                k,
            ) by {
                let p0 = choose|p: int|
                    0 <= p < entries@.len() && ((#[trigger] entries@[p]).0.0@, entries@[p].0.1@)
                        == k;
                assert(ks[p0] == k);
            }
        }
        r
    }

    /// Returns every entry of the membership bucket, as
    /// `(user identifier, value)` pairs.
    pub fn iter_members<'a>(&'a self) -> (r: Vec<(&'a str, &'a E)>)
        requires
            self.wf(),
        ensures
            forall|p: int|
                0 <= p < r@.len() ==> self@.contains_key(
                    (TYPE_MEMBERSHIP@, (#[trigger] r@[p]).0@),
                ) && *r@[p].1 == self@[(TYPE_MEMBERSHIP@, r@[p].0@)],
            forall|p: int, q: int|
                0 <= p < q < r@.len() ==> (#[trigger] r@[p]).0@ != (#[trigger] r@[q]).0@,
            forall|k: (Seq<char>, Seq<char>)|
                #[trigger] self@.contains_key(k) && k.0 == TYPE_MEMBERSHIP@ ==> exists|p: int|
                    0 <= p < r@.len() && (#[trigger] r@[p]).0@ == k.1,
    {
        proof {
            lemma_special_types_not_well_known();
            lemma_alist_map_index(self.membership@);
        }
        let n = self.membership.len();
        let mut r: Vec<(&'a str, &'a E)> = Vec::new();
        let mut i: usize = 0;
        while i < n
            invariant
                self.wf(),
                n == self.membership@.len(),
                0 <= i <= n,
                r@.len() == i,
                forall|j: int|
                    0 <= j < i ==> (#[trigger] r@[j]).0@ == self.membership@[j].0@ && *r@[j].1
                        == self.membership@[j].1,
            decreases n - i,
        {
            r.push((self.membership[i].0.as_str(), &self.membership[i].1));
            i = i + 1;
        }
        proof {
            assert forall|p: int|
                0 <= p < r@.len() implies self@.contains_key(
                (TYPE_MEMBERSHIP@, (#[trigger] r@[p]).0@),
            ) && *r@[p].1 == self@[(TYPE_MEMBERSHIP@, r@[p].0@)] by {
                assert(classify(TYPE_MEMBERSHIP@, r@[p].0@) == Class::Membership);
            }
            assert forall|k: (Seq<char>, Seq<char>)|
                #[trigger] self@.contains_key(k) && k.0 == TYPE_MEMBERSHIP@ implies exists|p: int|
                0 <= p < r@.len() && (#[trigger] r@[p]).0@ == k.1 by {
                assert(classify(k.0, k.1) == Class::Membership);
                lemma_alist_map_dom(self.membership@, k.1);
                let j = choose|j: int|
                    0 <= j < self.membership@.len() && self.membership@[j].0@ == k.1;
                assert((r@[j]).0@ == k.1);
            }
        }
        r
    }

    /// Returns every entry whose type is the join-rules type, as
    /// `(state_key, value)` pairs: the well-known entry (with an implied
    /// empty state key) if present, and any join-rules entries with a
    /// non-empty state key that sit in the fallback bucket. The latter only
    /// occur when a map was populated by a lenient construction path; this
    /// merged view exists for consumers of such legacy data.
    pub fn iter_join_rules<'a>(&'a self) -> (r: Vec<(&'a str, &'a E)>)
        requires
            self.wf(),
        ensures
            forall|p: int|
                0 <= p < r@.len() ==> self@.contains_key(
                    (TYPE_JOIN_RULES@, (#[trigger] r@[p]).0@),
                ) && *r@[p].1 == self@[(TYPE_JOIN_RULES@, r@[p].0@)],
            forall|p: int, q: int|
                0 <= p < q < r@.len() ==> (#[trigger] r@[p]).0@ != (#[trigger] r@[q]).0@,
            forall|k: (Seq<char>, Seq<char>)|
                #[trigger] self@.contains_key(k) && k.0 == TYPE_JOIN_RULES@ ==> exists|p: int|
                    0 <= p < r@.len() && (#[trigger] r@[p]).0@ == k.1,
    {
        proof {
            lemma_well_known_round_trip(WellKnownEmptyKeys::JoinRules);
            lemma_well_known_not_special();
            lemma_alist_map_index(self.others@);
            reveal_strlit("");
            assert(""@ =~= Seq::<char>::empty());
        }
        let mut r: Vec<(&'a str, &'a E)> = Vec::new();
        match self.get_well_known(WellKnownEmptyKeys::JoinRules) {
            Some(e) => {
                r.push(("", e));
            },
            None => {},
        }
        let ghost h = r@.len() as int;
        match alist_get(&self.others, TYPE_JOIN_RULES) {
            Some(inner) => {
                proof {
                    lemma_alist_map_index(inner@);
                }
                let n = inner.len();
                let mut i: usize = 0;
                while i < n
                    invariant
                        self.wf(),
                        alist_wf(inner@),
                        alist_map(self.others@).contains_key(TYPE_JOIN_RULES@),
                        alist_map(self.others@)[TYPE_JOIN_RULES@] == *inner,
                        n == inner@.len(),
                        0 <= i <= n,
                        0 <= h <= 1,
                        r@.len() == h + i,
                        ""@ == Seq::<char>::empty(),
                        h == 1 ==> (r@[0]).0@ == Seq::<char>::empty() && self@.contains_key(
                            (TYPE_JOIN_RULES@, Seq::<char>::empty()),
                        ) && *r@[0].1 == self@[(TYPE_JOIN_RULES@, Seq::<char>::empty())],
                        h == 0 ==> !self@.contains_key((TYPE_JOIN_RULES@, Seq::<char>::empty())),
                        forall|j: int|
                            h <= j < r@.len() ==> (#[trigger] r@[j]).0@ == inner@[j - h].0@
                                && *r@[j].1 == inner@[j - h].1,
                    decreases n - i,
                {
                    proof {
                        lemma_alist_map_index(self.others@);
                        lemma_alist_map_index(inner@);
                    }
                    r.push((inner[i].0.as_str(), &inner[i].1));
                    i = i + 1;
                }
                proof {
                    assert forall|p: int|
                        0 <= p < r@.len() implies self@.contains_key(
                        (TYPE_JOIN_RULES@, (#[trigger] r@[p]).0@),
                    ) && *r@[p].1 == self@[(TYPE_JOIN_RULES@, r@[p].0@)] by {
                        if h <= p {
                            assert(alist_map(inner@).contains_key(r@[p].0@));
                            assert(classify(TYPE_JOIN_RULES@, r@[p].0@) == Class::Other);
                        }
                    }
                    assert forall|p: int, q: int|
                        0 <= p < q < r@.len() implies (#[trigger] r@[p]).0@ != (
                    #[trigger] r@[q]).0@ by {
                        if h <= p {
                            assert(inner@[p - h].0@ != inner@[q - h].0@);
                        } else {
                            assert(alist_map(inner@).contains_key(r@[q].0@));
                            assert(classify(TYPE_JOIN_RULES@, r@[q].0@) == Class::Other);
                            if (r@[q]).0@ == (r@[p]).0@ {
                                assert(classify(TYPE_JOIN_RULES@, Seq::<char>::empty())
                                    == Class::WellKnown(WellKnownEmptyKeys::JoinRules));
                                assert(false);
                            }
                        }
                    }
                    assert forall|k: (Seq<char>, Seq<char>)|
                        #[trigger] self@.contains_key(k) && k.0 == TYPE_JOIN_RULES@ implies exists|
                        p: int,
                    | 0 <= p < r@.len() && (#[trigger] r@[p]).0@ == k.1 by {
                        if k.1.len() == 0 {
                            assert(k.1 =~= Seq::<char>::empty());
                            assert((r@[0]).0@ == k.1);
                        } else {
                            assert(classify(k.0, k.1) == Class::Other);
                            lemma_alist_map_dom(inner@, k.1);
                            let j = choose|j: int| 0 <= j < inner@.len() && inner@[j].0@ == k.1;
                            assert((r@[h + j]).0@ == k.1);
                        }
                    }
                }
            },
            None => {
                proof {
                    assert forall|p: int|
                        0 <= p < r@.len() implies self@.contains_key(
                        (TYPE_JOIN_RULES@, (#[trigger] r@[p]).0@),
                    ) && *r@[p].1 == self@[(TYPE_JOIN_RULES@, r@[p].0@)] by {}
                    assert forall|k: (Seq<char>, Seq<char>)|
                        #[trigger] self@.contains_key(k) && k.0 == TYPE_JOIN_RULES@ implies exists|
                        p: int,
                    | 0 <= p < r@.len() && (#[trigger] r@[p]).0@ == k.1 by {
                        if k.1.len() == 0 {
                            assert(k.1 =~= Seq::<char>::empty());
                            assert((r@[0]).0@ == k.1);
                        } else {
                            assert(classify(k.0, k.1) == Class::Other);
                            assert(false);
                        }
                    }
                }
            },
        }
        r
    }

    /// The number of entries in the map.
    pub fn len(&self) -> (r: usize)
        requires
            self.wf(),
        ensures
            r == self@.len(),
    {
        self.total
    }

    /// Whether the map has no entries.
    pub fn is_empty(&self) -> (r: bool)
        requires
            self.wf(),
        ensures
            r == (self@.len() == 0),
    {
        self.total == 0
    }
}

/// The map after inserting a sequence of `((type, state_key), value)` pairs
/// in order: a later pair for the same key wins.
pub open spec fn fold_entries<E>(
    m: Map<(Seq<char>, Seq<char>), E>,
    entries: Seq<((String, String), E)>,
) -> Map<(Seq<char>, Seq<char>), E>
    decreases entries.len(),
{
    if entries.len() == 0 {
        m
    } else {
        fold_entries(m, entries.drop_last()).insert(
            (entries.last().0.0@, entries.last().0.1@),
            entries.last().1,
        )
    }
}

impl<E> StateMap<E> {
    /// Builds a map from a sequence of `((type, state_key), value)` pairs,
    /// equivalent to inserting each pair in order into an empty map; a later
    /// pair for the same key wins.
    pub fn from_entries(entries: Vec<((String, String), E)>) -> (r: StateMap<E>)
        ensures
            r.wf(),
            r@ == fold_entries(Map::<(Seq<char>, Seq<char>), E>::empty(), entries@),
    {
        proof {
            vstd::std_specs::vec::axiom_spec_len(&entries);
        }
        let mut state_map = StateMap::<E>::new();
        state_map.extend_entries(entries);
        state_map
    }

    /// Inserts a sequence of `((type, state_key), value)` pairs in order,
    /// with the same per-pair semantics as repeated `insert` calls.
    pub fn extend_entries(&mut self, entries: Vec<((String, String), E)>)
        requires
            old(self).wf(),
            old(self)@.len() + entries@.len() <= usize::MAX,
        ensures
            final(self).wf(),
            final(self)@ == fold_entries(old(self)@, entries@),
    {
        let ghost all = entries@;
        let mut rest = entries;
        let mut i: usize = 0;
        while rest.len() > 0
            invariant
                self.wf(),
                i + rest@.len() == all.len(),
                rest@ == all.skip(i as int),
                self@ == fold_entries(old(self)@, all.take(i as int)),
                self@.len() <= old(self)@.len() + i,
                old(self)@.len() + all.len() <= usize::MAX,
            decreases rest@.len(),
        {
            let pair = rest.remove(0);
            let ((tk, sk), value) = pair;
            proof {
                assert(all.skip(i as int)[0] == all[i as int]);
            }
            self.insert(tk.as_str(), sk.as_str(), value);
            i = i + 1;
            proof {
                assert(rest@ =~= all.skip(i as int));
                assert(all.take(i as int).drop_last() =~= all.take(i as int - 1));
                assert(all.take(i as int).last() == all[i as int - 1]);
            }
        }
        proof {
            assert(all.take(all.len() as int) =~= all);
        }
    }
}

impl<E: Default> StateMap<E> {
    /// Gets a mutable reference to a value in the map, inserting a default
    /// value if the entry doesn't exist.
    ///
    /// When the entry was absent, the value behind the returned reference is
    /// whatever `E::default()` produced; the reference addresses the same
    /// slot that later lookups of the key read.
    pub fn get_mut_or_default(&mut self, t: &str, s: &str) -> (r: &mut E)
        requires
            old(self).wf(),
            old(self)@.len() < usize::MAX,
        ensures
            final(self).wf(),
            old(self)@.contains_key((t@, s@)) ==> *r == old(self)@[(t@, s@)],
            final(self)@ == old(self)@.insert((t@, s@), *final(r)),
    {
        if !self.contains_key(t, s) {
            let d: E = E::default();
            self.insert(t, s, d);
        }
        proof {
            lemma_map_insert_absorb::<(Seq<char>, Seq<char>), E>();
        }
        match self.get_mut(t, s) {
            Some(v) => v,
            None => unreached(),
        }
    }
}

/// Inserting twice at the same key keeps only the second value.
proof fn lemma_map_insert_absorb<K, V>()
    ensures
        forall|m: Map<K, V>, k: K, v1: V, v2: V| #[trigger] m.insert(k, v1).insert(k, v2)
            == m.insert(k, v2),
{
    assert forall|m: Map<K, V>, k: K, v1: V, v2: V| #[trigger] m.insert(k, v1).insert(k, v2)
        == m.insert(k, v2) by {
        assert(m.insert(k, v1).insert(k, v2) =~= m.insert(k, v2));
    }
}

impl<E: PartialEq> StateMap<E> {
    /// Inserts the entry into the map if it doesn't conflict with an existing
    /// entry (either the key doesn't exist or the values are the same)
    /// returning `None`. If there is a conflict the existing entry is removed
    /// and returned — the slot is left empty, not overwritten.
    ///
    /// The exact conflict decision is pinned down when `E`'s equality obeys
    /// its specification; whatever the equality returns, a conflict result
    /// always carries the previously stored value and clears the slot, and an
    /// absent result leaves the map either unchanged or with the candidate
    /// inserted.
    pub fn add_or_remove(&mut self, t: &str, s: &str, v: E) -> (r: Option<E>)
        requires
            old(self).wf(),
            old(self)@.len() < usize::MAX,
        ensures
            final(self).wf(),
            r is Some ==> old(self)@.contains_key((t@, s@)) && r == Some(
                old(self)@[(t@, s@)],
            ) && final(self)@ == old(self)@.remove((t@, s@)),
            r is None && !old(self)@.contains_key((t@, s@)) ==> final(self)@ == old(
                self,
            )@.insert((t@, s@), v),
            r is None && old(self)@.contains_key((t@, s@)) ==> final(self)@ == old(self)@,
            E::obeys_eq_spec() ==> r == (if old(self)@.contains_key((t@, s@)) && !old(self)@[(
                t@,
                s@,
            )].eq_spec(&v) {
                Some(old(self)@[(t@, s@)])
            } else {
                None::<E>
            }),
            E::obeys_eq_spec() ==> final(self)@ == (if !old(self)@.contains_key((t@, s@)) {
                old(self)@.insert((t@, s@), v)
            } else if old(self)@[(t@, s@)].eq_spec(&v) {
                old(self)@
            } else {
                old(self)@.remove((t@, s@))
            }),
    {
        let equal_already: Option<bool> = match self.get(t, s) {
            Some(cur) => Some(*cur == v),
            None => None,
        };
        match equal_already {
            None => {
                self.insert(t, s, v);
                None
            },
            Some(true) => None,
            Some(false) => self.take_entry(t, s),
        }
    }
}

impl<E> Default for StateMap<E> {
    /// An empty state map.
    fn default() -> (r: StateMap<E>)
        ensures
            r.wf(),
            r@ == Map::<(Seq<char>, Seq<char>), E>::empty(),
    {
        StateMap::new()
    }
}

/// A key is in the map left by a bulk insertion exactly when it was in the
/// starting map or is carried by one of the inserted pairs.
pub proof fn lemma_fold_entries_dom<E>(
    m: Map<(Seq<char>, Seq<char>), E>,
    entries: Seq<((String, String), E)>,
    k: (Seq<char>, Seq<char>),
)
    ensures
        fold_entries(m, entries).contains_key(k) <==> m.contains_key(k) || exists|i: int|
            0 <= i < entries.len() && ((#[trigger] entries[i]).0.0@, entries[i].0.1@) == k,
    decreases entries.len(),
{
    if entries.len() > 0 {
        let d = entries.drop_last();
        lemma_fold_entries_dom(m, d, k);
        assert(forall|i: int| 0 <= i < entries.len() - 1 ==> d[i] == entries[i]);
        if (entries.last().0.0@, entries.last().0.1@) == k {
            assert(((entries[entries.len() - 1]).0.0@, entries[entries.len() - 1].0.1@) == k);
        } else if exists|i: int|
            0 <= i < entries.len() && ((#[trigger] entries[i]).0.0@, entries[i].0.1@) == k {
            let i = choose|i: int|
                0 <= i < entries.len() && ((#[trigger] entries[i]).0.0@, entries[i].0.1@) == k;
            assert(d[i] == entries[i]);
        }
    }
}

/// Entry count under bulk insertion: inserting pairwise distinct keys that
/// are all fresh grows the map by exactly the number of pairs.
pub proof fn lemma_distinct_inserts_len<E>(
    m: Map<(Seq<char>, Seq<char>), E>,
    entries: Seq<((String, String), E)>,
)
    requires
        m.dom().finite(),
        forall|i: int, j: int|
            0 <= i < j < entries.len() ==> ((#[trigger] entries[i]).0.0@, entries[i].0.1@) != ((
            #[trigger] entries[j]).0.0@,
            entries[j].0.1@,
        ),
        forall|i: int|
            0 <= i < entries.len() ==> !m.contains_key(
                ((#[trigger] entries[i]).0.0@, entries[i].0.1@),
            ),
    ensures
        fold_entries(m, entries).dom().finite(),
        fold_entries(m, entries).len() == m.len() + entries.len(),
    decreases entries.len(),
{
    if entries.len() > 0 {
        let d = entries.drop_last();
        assert(forall|i: int| 0 <= i < entries.len() - 1 ==> d[i] == entries[i]);
        lemma_distinct_inserts_len(m, d);
        let lk = (entries.last().0.0@, entries.last().0.1@);
        lemma_fold_entries_dom(m, d, lk);
        assert(((entries[entries.len() - 1]).0.0@, entries[entries.len() - 1].0.1@) == lk);
        assert(!fold_entries(m, d).contains_key(lk));
    }
}

/// The membership part of a logical map: the entries whose type is the
/// membership type.
pub open spec fn member_entries<E>(m: Map<(Seq<char>, Seq<char>), E>) -> Map<
    (Seq<char>, Seq<char>),
    E,
> {
    Map::new(|k: (Seq<char>, Seq<char>)| m.contains_key(k) && k.0 == TYPE_MEMBERSHIP@, |k| m[k])
}

/// The non-membership part of a logical map: the entries whose type is not
/// the membership type.
pub open spec fn non_member_entries<E>(m: Map<(Seq<char>, Seq<char>), E>) -> Map<
    (Seq<char>, Seq<char>),
    E,
> {
    Map::new(|k: (Seq<char>, Seq<char>)| m.contains_key(k) && k.0 != TYPE_MEMBERSHIP@, |k| m[k])
}

/// Classification consistency: inserting a value and then looking the same
/// key up yields that value. `insert` and `get` state their contracts over
/// one logical map, whichever of the five buckets the key routes to, so this
/// holds of every `(type, state_key)` pair.
pub proof fn lemma_insert_then_get<E>(
    m: Map<(Seq<char>, Seq<char>), E>,
    t: Seq<char>,
    s: Seq<char>,
    v: E,
)
    ensures
        m.insert((t, s), v).contains_key((t, s)),
        m.insert((t, s), v)[(t, s)] == v,
{
}

/// Entry count: inserting at a fresh key grows the map by exactly one entry;
/// overwriting an existing key leaves the count unchanged.
pub proof fn lemma_insert_len<E>(
    m: Map<(Seq<char>, Seq<char>), E>,
    t: Seq<char>,
    s: Seq<char>,
    v: E,
)
    requires
        m.dom().finite(),
    ensures
        m.insert((t, s), v).len() == m.len() + (if m.contains_key((t, s)) {
            0int
        } else {
            1int
        }),
{
}

/// Upsert idempotence on agreement: after inserting `v`, the stored value
/// agrees with `v` by `E`'s equality specification, so a conflict-aware
/// upsert with `v` reports no conflict and leaves the map unchanged — and
/// therefore does so on every repetition.
pub proof fn lemma_add_or_remove_idempotent<E: PartialEq>(
    m: Map<(Seq<char>, Seq<char>), E>,
    t: Seq<char>,
    s: Seq<char>,
    v: E,
)
    requires
        v.eq_spec(&v),
    ensures
        m.insert((t, s), v).contains_key((t, s)),
        m.insert((t, s), v)[(t, s)].eq_spec(&v),
{
}

/// Upsert conflict: after inserting `v1`, a conflict-aware upsert with a
/// disagreeing value surfaces exactly `v1` and clears the slot — the key is
/// absent afterwards, not overwritten.
pub proof fn lemma_add_or_remove_conflict<E: PartialEq>(
    m: Map<(Seq<char>, Seq<char>), E>,
    t: Seq<char>,
    s: Seq<char>,
    v1: E,
)
    ensures
        m.insert((t, s), v1)[(t, s)] == v1,
        !m.insert((t, s), v1).remove((t, s)).contains_key((t, s)),
{
}

/// The entries of a logical map split exactly into its membership part and
/// its non-membership part: the two domains are disjoint and together give
/// back the whole map, so `iter_non_members` yields precisely the complement
/// of `iter_members` within `iter`.
pub proof fn lemma_non_members_complement<E>(m: Map<(Seq<char>, Seq<char>), E>)
    ensures
        member_entries(m).dom().disjoint(non_member_entries(m).dom()),
        member_entries(m).union_prefer_right(non_member_entries(m)) == m,
        forall|k: (Seq<char>, Seq<char>)|
            #[trigger] m.contains_key(k) ==> (member_entries(m).contains_key(k)
                <==> !non_member_entries(m).contains_key(k)),
{
    assert(member_entries(m).union_prefer_right(non_member_entries(m)) =~= m);
}

/// Two states whose buckets denote the same maps and whose counters agree
/// denote the same logical map.
proof fn lemma_view_frame_all<E>(pre: StateMap<E>)
    requires
        pre.wf(),
    ensures
        forall|post: StateMap<E>|
            {
                &&& post.well_known@ == pre.well_known@
                &&& post.membership@ == pre.membership@
                &&& post.aliases@ == pre.aliases@
                &&& post.invites@ == pre.invites@
                &&& post.others@ == pre.others@
                &&& post.total == pre.total
            } ==> #[trigger] post.view() == pre@ && post.wf(),
{
    assert forall|post: StateMap<E>|
        {
            &&& post.well_known@ == pre.well_known@
            &&& post.membership@ == pre.membership@
            &&& post.aliases@ == pre.aliases@
            &&& post.invites@ == pre.invites@
            &&& post.others@ == pre.others@
            &&& post.total == pre.total
        } implies #[trigger] post.view() == pre@ && post.wf() by {
        assert(post@ =~= pre@);
    }
}

/// Whatever value a mutable borrow of a contained well-known entry resolves
/// to, the resulting state is the old one with that `(type, "")` key mapped
/// to it.
proof fn lemma_well_known_update_frame<E>(pre: StateMap<E>, k: WellKnownEmptyKeys)
    requires
        pre.wf(),
    ensures
        forall|post: StateMap<E>, value: E|
            #![trigger post.view(), alist_map(pre.well_known@).insert(k.type_str(), value)]
            {
                &&& post.membership@ == pre.membership@
                &&& post.aliases@ == pre.aliases@
                &&& post.invites@ == pre.invites@
                &&& post.others@ == pre.others@
                &&& post.total == pre.total
                &&& alist_map(pre.well_known@).contains_key(k.type_str())
                &&& alist_wf(post.well_known@)
                &&& alist_map(post.well_known@) == alist_map(pre.well_known@).insert(
                    k.type_str(),
                    value,
                )
            } ==> post.wf() && post.view() == pre@.insert(
                (k.type_str(), Seq::<char>::empty()),
                value,
            ),
{
    assert forall|post: StateMap<E>, value: E|
        #![trigger post.view(), alist_map(pre.well_known@).insert(k.type_str(), value)]
        {
            &&& post.membership@ == pre.membership@
            &&& post.aliases@ == pre.aliases@
            &&& post.invites@ == pre.invites@
            &&& post.others@ == pre.others@
            &&& post.total == pre.total
            &&& alist_map(pre.well_known@).contains_key(k.type_str())
            &&& alist_wf(post.well_known@)
            &&& alist_map(post.well_known@) == alist_map(pre.well_known@).insert(
                k.type_str(),
                value,
            )
        } implies post.wf() && post.view() == pre@.insert(
        (k.type_str(), Seq::<char>::empty()),
        value,
    ) by {
        lemma_well_known_round_trip(k);
        lemma_view_after_well_known_insert(pre, post, k, value);
    }
}

/// Whatever value a mutable borrow of a contained membership entry resolves
/// to, the resulting state is the old one with that key mapped to it.
proof fn lemma_membership_update_frame<E>(pre: StateMap<E>, s: Seq<char>)
    requires
        pre.wf(),
    ensures
        forall|post: StateMap<E>, value: E|
            #![trigger post.view(), alist_map(pre.membership@).insert(s, value)]
            {
                &&& post.well_known@ == pre.well_known@
                &&& post.aliases@ == pre.aliases@
                &&& post.invites@ == pre.invites@
                &&& post.others@ == pre.others@
                &&& post.total == pre.total
                &&& alist_map(pre.membership@).contains_key(s)
                &&& alist_wf(post.membership@)
                &&& alist_map(post.membership@) == alist_map(pre.membership@).insert(s, value)
            } ==> post.wf() && post.view() == pre@.insert((TYPE_MEMBERSHIP@, s), value),
{
    assert forall|post: StateMap<E>, value: E|
        {
            &&& post.well_known@ == pre.well_known@
            &&& post.aliases@ == pre.aliases@
            &&& post.invites@ == pre.invites@
            &&& post.others@ == pre.others@
            &&& post.total == pre.total
            &&& alist_map(pre.membership@).contains_key(s)
            &&& alist_wf(post.membership@)
            &&& alist_map(post.membership@) == alist_map(pre.membership@).insert(s, value)
        } implies post.wf() && post.view() == pre@.insert((TYPE_MEMBERSHIP@, s), value) by {
        lemma_view_after_membership_insert(pre, post, s, value);
    }
}

/// Whatever value a mutable borrow of a contained alias entry resolves to,
/// the resulting state is the old one with that key mapped to it.
proof fn lemma_alias_update_frame<E>(pre: StateMap<E>, s: Seq<char>)
    requires
        pre.wf(),
    ensures
        forall|post: StateMap<E>, value: E|
            #![trigger post.view(), alist_map(pre.aliases@).insert(s, value)]
            {
                &&& post.well_known@ == pre.well_known@
                &&& post.membership@ == pre.membership@
                &&& post.invites@ == pre.invites@
                &&& post.others@ == pre.others@
                &&& post.total == pre.total
                &&& alist_map(pre.aliases@).contains_key(s)
                &&& alist_wf(post.aliases@)
                &&& alist_map(post.aliases@) == alist_map(pre.aliases@).insert(s, value)
            } ==> post.wf() && post.view() == pre@.insert((TYPE_ALIASES@, s), value),
{
    assert forall|post: StateMap<E>, value: E|
        {
            &&& post.well_known@ == pre.well_known@
            &&& post.membership@ == pre.membership@
            &&& post.invites@ == pre.invites@
            &&& post.others@ == pre.others@
            &&& post.total == pre.total
            &&& alist_map(pre.aliases@).contains_key(s)
            &&& alist_wf(post.aliases@)
            &&& alist_map(post.aliases@) == alist_map(pre.aliases@).insert(s, value)
        } implies post.wf() && post.view() == pre@.insert((TYPE_ALIASES@, s), value) by {
        lemma_view_after_alias_insert(pre, post, s, value);
    }
}

/// Whatever value a mutable borrow of a contained invite entry resolves to,
/// the resulting state is the old one with that key mapped to it.
proof fn lemma_invite_update_frame<E>(pre: StateMap<E>, s: Seq<char>)
    requires
        pre.wf(),
    ensures
        forall|post: StateMap<E>, value: E|
            #![trigger post.view(), alist_map(pre.invites@).insert(s, value)]
            {
                &&& post.well_known@ == pre.well_known@
                &&& post.membership@ == pre.membership@
                &&& post.aliases@ == pre.aliases@
                &&& post.others@ == pre.others@
                &&& post.total == pre.total
                &&& alist_map(pre.invites@).contains_key(s)
                &&& alist_wf(post.invites@)
                &&& alist_map(post.invites@) == alist_map(pre.invites@).insert(s, value)
            } ==> post.wf() && post.view() == pre@.insert((TYPE_THIRD_PARTY_INVITE@, s), value),
{
    assert forall|post: StateMap<E>, value: E|
        {
            &&& post.well_known@ == pre.well_known@
            &&& post.membership@ == pre.membership@
            &&& post.aliases@ == pre.aliases@
            &&& post.others@ == pre.others@
            &&& post.total == pre.total
            &&& alist_map(pre.invites@).contains_key(s)
            &&& alist_wf(post.invites@)
            &&& alist_map(post.invites@) == alist_map(pre.invites@).insert(s, value)
        } implies post.wf() && post.view() == pre@.insert((TYPE_THIRD_PARTY_INVITE@, s), value) by {
        lemma_view_after_invite_insert(pre, post, s, value);
    }
}

/// Whatever value a mutable borrow of a contained fallback entry resolves
/// to, the resulting state is the old one with that key mapped to it.
proof fn lemma_other_update_frame<E>(pre: StateMap<E>, t: Seq<char>, s: Seq<char>)
    requires
        pre.wf(),
        classify(t, s) == Class::Other,
    ensures
        forall|post: StateMap<E>, innerv: Vec<(String, E)>, value: E|
            #![trigger post.view(), alist_map(pre.others@).insert(t, innerv), alist_map(alist_map(pre.others@)[t]@).insert(s, value)]
            {
                &&& post.well_known@ == pre.well_known@
                &&& post.membership@ == pre.membership@
                &&& post.aliases@ == pre.aliases@
                &&& post.invites@ == pre.invites@
                &&& post.total == pre.total
                &&& alist_map(pre.others@).contains_key(t)
                &&& alist_map(alist_map(pre.others@)[t]@).contains_key(s)
                &&& alist_wf(post.others@)
                &&& alist_map(post.others@) == alist_map(pre.others@).insert(t, innerv)
                &&& alist_wf(innerv@)
                &&& alist_map(innerv@) == alist_map(alist_map(pre.others@)[t]@).insert(s, value)
            } ==> post.wf() && post.view() == pre@.insert((t, s), value),
{
    assert forall|post: StateMap<E>, innerv: Vec<(String, E)>, value: E|
        #![trigger post.view(), alist_map(pre.others@).insert(t, innerv), alist_map(alist_map(pre.others@)[t]@).insert(s, value)]
        {
            &&& post.well_known@ == pre.well_known@
            &&& post.membership@ == pre.membership@
            &&& post.aliases@ == pre.aliases@
            &&& post.invites@ == pre.invites@
            &&& post.total == pre.total
            &&& alist_map(pre.others@).contains_key(t)
            &&& alist_map(alist_map(pre.others@)[t]@).contains_key(s)
            &&& alist_wf(post.others@)
            &&& alist_map(post.others@) == alist_map(pre.others@).insert(t, innerv)
            &&& alist_wf(innerv@)
            &&& alist_map(innerv@) == alist_map(alist_map(pre.others@)[t]@).insert(s, value)
        } implies post.wf() && post.view() == pre@.insert((t, s), value) by {
        assert(alist_map(post.others@) =~= alist_map(pre.others@).remove(t).insert(
            t,
            alist_map(post.others@)[t],
        ));
        assert(alist_map(post.others@)[t] == innerv);
        lemma_view_after_other_insert(pre, post, t, s, alist_map(pre.others@)[t]@, value);
    }
}

/// Re-inserting an inner mapping that denotes the same map leaves the
/// logical map unchanged.
proof fn lemma_other_refresh_frame<E>(pre: StateMap<E>, t: Seq<char>)
    requires
        pre.wf(),
    ensures
        forall|post: StateMap<E>, innerv: Vec<(String, E)>|
            #![trigger post.view(), alist_map(pre.others@).insert(t, innerv)]
            {
                &&& post.well_known@ == pre.well_known@
                &&& post.membership@ == pre.membership@
                &&& post.aliases@ == pre.aliases@
                &&& post.invites@ == pre.invites@
                &&& post.total == pre.total
                &&& alist_map(pre.others@).contains_key(t)
                &&& alist_wf(post.others@)
                &&& alist_map(post.others@) == alist_map(pre.others@).insert(t, innerv)
                &&& innerv@ == alist_map(pre.others@)[t]@
            } ==> post.wf() && post.view() == pre@,
{
    assert forall|post: StateMap<E>, innerv: Vec<(String, E)>|
        {
            &&& post.well_known@ == pre.well_known@
            &&& post.membership@ == pre.membership@
            &&& post.aliases@ == pre.aliases@
            &&& post.invites@ == pre.invites@
            &&& post.total == pre.total
            &&& alist_map(pre.others@).contains_key(t)
            &&& alist_wf(post.others@)
            &&& alist_map(post.others@) == alist_map(pre.others@).insert(t, innerv)
            &&& innerv@ == alist_map(pre.others@)[t]@
        } implies post.wf() && post.view() == pre@ by {
        assert forall|k2: (Seq<char>, Seq<char>)|
            post.bucket_contains(k2.0, k2.1) == pre.bucket_contains(k2.0, k2.1) && (
            pre.bucket_contains(k2.0, k2.1) ==> post.bucket_value(k2.0, k2.1) == pre.bucket_value(
                k2.0,
                k2.1,
            )) by {
            match classify(k2.0, k2.1) {
                Class::Other => {
                    if k2.0 == t {
                        assert(alist_map(post.others@)[t] == innerv);
                        assert(alist_map(innerv@) == alist_map(alist_map(pre.others@)[t]@));
                    }
                },
                _ => {},
            }
        }
        assert(post@ =~= pre@);
    }
}

/// After overwriting the well-known bucket at a canonical type string, the
/// logical map is the old one with the `(type, "")` key inserted.
proof fn lemma_view_after_well_known_insert<E>(
    pre: StateMap<E>,
    post: StateMap<E>,
    k: WellKnownEmptyKeys,
    value: E,
)
    requires
        pre.wf(),
        post.membership@ == pre.membership@,
        post.aliases@ == pre.aliases@,
        post.invites@ == pre.invites@,
        post.others@ == pre.others@,
        alist_wf(post.well_known@),
        alist_map(post.well_known@) == alist_map(pre.well_known@).insert(k.type_str(), value),
        post.total == pre.total + (if alist_map(pre.well_known@).contains_key(k.type_str()) {
            0int
        } else {
            1int
        }),
    ensures
        post.wf(),
        post@ == pre@.insert((k.type_str(), Seq::<char>::empty()), value),
{
    lemma_well_known_round_trip(k);
    let k1 = (k.type_str(), Seq::<char>::empty());
    assert forall|k2: (Seq<char>, Seq<char>)| k2 != k1 implies post.bucket_contains(k2.0, k2.1)
        == pre.bucket_contains(k2.0, k2.1) && (pre.bucket_contains(k2.0, k2.1)
        ==> post.bucket_value(k2.0, k2.1) == pre.bucket_value(k2.0, k2.1)) by {
        match classify(k2.0, k2.1) {
            Class::WellKnown(w) => {
                assert(k2.1.len() == 0);
                assert(k2.1 =~= Seq::<char>::empty());
                lemma_well_known_of_sound(k2.0, w);
                if k2.0 == k.type_str() {
                    assert(k2 == k1);
                }
            },
            _ => {},
        }
    }
    assert(post.bucket_contains(k1.0, k1.1) && post.bucket_value(k1.0, k1.1) == value);
    assert(post@ =~= pre@.insert(k1, value));
    assert(pre@.contains_key(k1) == alist_map(pre.well_known@).contains_key(k.type_str()));
}

/// After overwriting the membership bucket at a user identifier, the logical
/// map is the old one with the `(membership type, user)` key inserted.
proof fn lemma_view_after_membership_insert<E>(
    pre: StateMap<E>,
    post: StateMap<E>,
    s: Seq<char>,
    value: E,
)
    requires
        pre.wf(),
        post.well_known@ == pre.well_known@,
        post.aliases@ == pre.aliases@,
        post.invites@ == pre.invites@,
        post.others@ == pre.others@,
        alist_wf(post.membership@),
        alist_map(post.membership@) == alist_map(pre.membership@).insert(s, value),
        post.total == pre.total + (if alist_map(pre.membership@).contains_key(s) {
            0int
        } else {
            1int
        }),
    ensures
        post.wf(),
        post@ == pre@.insert((TYPE_MEMBERSHIP@, s), value),
{
    lemma_special_types_not_well_known();
    let k1 = (TYPE_MEMBERSHIP@, s);
    assert(classify(k1.0, k1.1) == Class::Membership);
    assert forall|k2: (Seq<char>, Seq<char>)| k2 != k1 implies post.bucket_contains(k2.0, k2.1)
        == pre.bucket_contains(k2.0, k2.1) && (pre.bucket_contains(k2.0, k2.1)
        ==> post.bucket_value(k2.0, k2.1) == pre.bucket_value(k2.0, k2.1)) by {
        match classify(k2.0, k2.1) {
            Class::Membership => {
                assert(k2.0 == TYPE_MEMBERSHIP@);
            },
            _ => {},
        }
    }
    assert(post.bucket_contains(k1.0, k1.1) && post.bucket_value(k1.0, k1.1) == value);
    assert(post@ =~= pre@.insert(k1, value));
    assert(pre@.contains_key(k1) == alist_map(pre.membership@).contains_key(s));
}

/// After overwriting the alias bucket at a server name, the logical map is
/// the old one with the `(aliases type, server)` key inserted.
proof fn lemma_view_after_alias_insert<E>(pre: StateMap<E>, post: StateMap<E>, s: Seq<char>, value: E)
    requires
        pre.wf(),
        post.well_known@ == pre.well_known@,
        post.membership@ == pre.membership@,
        post.invites@ == pre.invites@,
        post.others@ == pre.others@,
        alist_wf(post.aliases@),
        alist_map(post.aliases@) == alist_map(pre.aliases@).insert(s, value),
        post.total == pre.total + (if alist_map(pre.aliases@).contains_key(s) {
            0int
        } else {
            1int
        }),
    ensures
        post.wf(),
        post@ == pre@.insert((TYPE_ALIASES@, s), value),
{
    lemma_special_types_not_well_known();
    let k1 = (TYPE_ALIASES@, s);
    assert(classify(k1.0, k1.1) == Class::Alias);
    assert forall|k2: (Seq<char>, Seq<char>)| k2 != k1 implies post.bucket_contains(k2.0, k2.1)
        == pre.bucket_contains(k2.0, k2.1) && (pre.bucket_contains(k2.0, k2.1)
        ==> post.bucket_value(k2.0, k2.1) == pre.bucket_value(k2.0, k2.1)) by {
        match classify(k2.0, k2.1) {
            Class::Alias => {
                assert(k2.0 == TYPE_ALIASES@);
            },
            _ => {},
        }
    }
    assert(post.bucket_contains(k1.0, k1.1) && post.bucket_value(k1.0, k1.1) == value);
    assert(post@ =~= pre@.insert(k1, value));
    assert(pre@.contains_key(k1) == alist_map(pre.aliases@).contains_key(s));
}

/// After overwriting the invite bucket at a token, the logical map is the
/// old one with the `(third-party-invite type, token)` key inserted.
proof fn lemma_view_after_invite_insert<E>(
    pre: StateMap<E>,
    post: StateMap<E>,
    s: Seq<char>,
    value: E,
)
    requires
        pre.wf(),
        post.well_known@ == pre.well_known@,
        post.membership@ == pre.membership@,
        post.aliases@ == pre.aliases@,
        post.others@ == pre.others@,
        alist_wf(post.invites@),
        alist_map(post.invites@) == alist_map(pre.invites@).insert(s, value),
        post.total == pre.total + (if alist_map(pre.invites@).contains_key(s) {
            0int
        } else {
            1int
        }),
    ensures
        post.wf(),
        post@ == pre@.insert((TYPE_THIRD_PARTY_INVITE@, s), value),
{
    lemma_special_types_not_well_known();
    let k1 = (TYPE_THIRD_PARTY_INVITE@, s);
    assert(classify(k1.0, k1.1) == Class::Invite);
    assert forall|k2: (Seq<char>, Seq<char>)| k2 != k1 implies post.bucket_contains(k2.0, k2.1)
        == pre.bucket_contains(k2.0, k2.1) && (pre.bucket_contains(k2.0, k2.1)
        ==> post.bucket_value(k2.0, k2.1) == pre.bucket_value(k2.0, k2.1)) by {
        match classify(k2.0, k2.1) {
            Class::Invite => {
                assert(k2.0 == TYPE_THIRD_PARTY_INVITE@);
            },
            _ => {},
        }
    }
    assert(post.bucket_contains(k1.0, k1.1) && post.bucket_value(k1.0, k1.1) == value);
    assert(post@ =~= pre@.insert(k1, value));
    assert(pre@.contains_key(k1) == alist_map(pre.invites@).contains_key(s));
}

/// After overwriting the two-level fallback bucket at `(type, state_key)`,
/// the logical map is the old one with that key inserted.
proof fn lemma_view_after_other_insert<E>(
    pre: StateMap<E>,
    post: StateMap<E>,
    t: Seq<char>,
    s: Seq<char>,
    inner0: Seq<(String, E)>,
    value: E,
)
    requires
        pre.wf(),
        classify(t, s) == Class::Other,
        post.well_known@ == pre.well_known@,
        post.membership@ == pre.membership@,
        post.aliases@ == pre.aliases@,
        post.invites@ == pre.invites@,
        alist_wf(post.others@),
        (if alist_map(pre.others@).contains_key(t) {
            inner0 == alist_map(pre.others@)[t]@
        } else {
            inner0 == Seq::<(String, E)>::empty()
        }),
        alist_map(post.others@).contains_key(t),
        alist_map(post.others@) == alist_map(pre.others@).remove(t).insert(
            t,
            alist_map(post.others@)[t],
        ),
        alist_wf(alist_map(post.others@)[t]@),
        alist_map(alist_map(post.others@)[t]@) == alist_map(inner0).insert(s, value),
        post.total == pre.total + (if alist_map(pre.others@).contains_key(t) && alist_map(
            inner0,
        ).contains_key(s) {
            0int
        } else {
            1int
        }),
    ensures
        post.wf(),
        post@ == pre@.insert((t, s), value),
{
    let k1 = (t, s);
    let othpre = alist_map(pre.others@);
    let othpost = alist_map(post.others@);
    assert(othpost =~= othpre.insert(t, othpost[t]));
    assert forall|k2: (Seq<char>, Seq<char>)| k2 != k1 implies post.bucket_contains(k2.0, k2.1)
        == pre.bucket_contains(k2.0, k2.1) && (pre.bucket_contains(k2.0, k2.1)
        ==> post.bucket_value(k2.0, k2.1) == pre.bucket_value(k2.0, k2.1)) by {
        match classify(k2.0, k2.1) {
            Class::Other => {
                if k2.0 == t {
                    assert(k2.1 != s);
                    assert(alist_map(alist_map(post.others@)[t]@).contains_key(k2.1)
                        == alist_map(inner0).contains_key(k2.1));
                }
            },
            _ => {},
        }
    }
    assert(post.bucket_contains(k1.0, k1.1) && post.bucket_value(k1.0, k1.1) == value);
    assert(post@ =~= pre@.insert(k1, value));
    assert(pre@.contains_key(k1) == (alist_map(pre.others@).contains_key(t) && alist_map(
        inner0,
    ).contains_key(s)));
}

/// After removing a canonical type string from the well-known bucket, the
/// logical map is the old one with the `(type, "")` key removed.
proof fn lemma_view_after_well_known_remove<E>(pre: StateMap<E>, post: StateMap<E>, k: WellKnownEmptyKeys)
    requires
        pre.wf(),
        post.membership@ == pre.membership@,
        post.aliases@ == pre.aliases@,
        post.invites@ == pre.invites@,
        post.others@ == pre.others@,
        alist_wf(post.well_known@),
        alist_map(post.well_known@) == alist_map(pre.well_known@).remove(k.type_str()),
        post.total == pre.total - (if alist_map(pre.well_known@).contains_key(k.type_str()) {
            1int
        } else {
            0int
        }),
    ensures
        post.wf(),
        post@ == pre@.remove((k.type_str(), Seq::<char>::empty())),
{
    lemma_well_known_round_trip(k);
    let k1 = (k.type_str(), Seq::<char>::empty());
    assert forall|k2: (Seq<char>, Seq<char>)| k2 != k1 implies post.bucket_contains(k2.0, k2.1)
        == pre.bucket_contains(k2.0, k2.1) && (pre.bucket_contains(k2.0, k2.1)
        ==> post.bucket_value(k2.0, k2.1) == pre.bucket_value(k2.0, k2.1)) by {
        match classify(k2.0, k2.1) {
            Class::WellKnown(w) => {
                assert(k2.1.len() == 0);
                assert(k2.1 =~= Seq::<char>::empty());
                lemma_well_known_of_sound(k2.0, w);
                if k2.0 == k.type_str() {
                    assert(k2 == k1);
                }
            },
            _ => {},
        }
    }
    assert(!post.bucket_contains(k1.0, k1.1));
    assert(post@ =~= pre@.remove(k1));
    assert(pre@.contains_key(k1) == alist_map(pre.well_known@).contains_key(k.type_str()));
    assert(pre@.dom().remove(k1).len() == pre@.dom().len() - (if pre@.contains_key(k1) {
        1int
    } else {
        0int
    }));
}

/// After removing a user identifier from the membership bucket, the logical
/// map is the old one with the `(membership type, user)` key removed.
proof fn lemma_view_after_membership_remove<E>(pre: StateMap<E>, post: StateMap<E>, s: Seq<char>)
    requires
        pre.wf(),
        post.well_known@ == pre.well_known@,
        post.aliases@ == pre.aliases@,
        post.invites@ == pre.invites@,
        post.others@ == pre.others@,
        alist_wf(post.membership@),
        alist_map(post.membership@) == alist_map(pre.membership@).remove(s),
        post.total == pre.total - (if alist_map(pre.membership@).contains_key(s) {
            1int
        } else {
            0int
        }),
    ensures
        post.wf(),
        post@ == pre@.remove((TYPE_MEMBERSHIP@, s)),
{
    lemma_special_types_not_well_known();
    let k1 = (TYPE_MEMBERSHIP@, s);
    assert(classify(k1.0, k1.1) == Class::Membership);
    assert forall|k2: (Seq<char>, Seq<char>)| k2 != k1 implies post.bucket_contains(k2.0, k2.1)
        == pre.bucket_contains(k2.0, k2.1) && (pre.bucket_contains(k2.0, k2.1)
        ==> post.bucket_value(k2.0, k2.1) == pre.bucket_value(k2.0, k2.1)) by {
        match classify(k2.0, k2.1) {
            Class::Membership => {
                assert(k2.0 == TYPE_MEMBERSHIP@);
            },
            _ => {},
        }
    }
    assert(!post.bucket_contains(k1.0, k1.1));
    assert(post@ =~= pre@.remove(k1));
    assert(pre@.contains_key(k1) == alist_map(pre.membership@).contains_key(s));
    assert(pre@.dom().remove(k1).len() == pre@.dom().len() - (if pre@.contains_key(k1) {
        1int
    } else {
        0int
    }));
}

/// After removing a server name from the alias bucket, the logical map is
/// the old one with the `(aliases type, server)` key removed.
proof fn lemma_view_after_alias_remove<E>(pre: StateMap<E>, post: StateMap<E>, s: Seq<char>)
    requires
        pre.wf(),
        post.well_known@ == pre.well_known@,
        post.membership@ == pre.membership@,
        post.invites@ == pre.invites@,
        post.others@ == pre.others@,
        alist_wf(post.aliases@),
        alist_map(post.aliases@) == alist_map(pre.aliases@).remove(s),
        post.total == pre.total - (if alist_map(pre.aliases@).contains_key(s) {
            1int
        } else {
            0int
        }),
    ensures
        post.wf(),
        post@ == pre@.remove((TYPE_ALIASES@, s)),
{
    lemma_special_types_not_well_known();
    let k1 = (TYPE_ALIASES@, s);
    assert(classify(k1.0, k1.1) == Class::Alias);
    assert forall|k2: (Seq<char>, Seq<char>)| k2 != k1 implies post.bucket_contains(k2.0, k2.1)
        == pre.bucket_contains(k2.0, k2.1) && (pre.bucket_contains(k2.0, k2.1)
        ==> post.bucket_value(k2.0, k2.1) == pre.bucket_value(k2.0, k2.1)) by {
        match classify(k2.0, k2.1) {
            Class::Alias => {
                assert(k2.0 == TYPE_ALIASES@);
            },
            _ => {},
        }
    }
    assert(!post.bucket_contains(k1.0, k1.1));
    assert(post@ =~= pre@.remove(k1));
    assert(pre@.contains_key(k1) == alist_map(pre.aliases@).contains_key(s));
    assert(pre@.dom().remove(k1).len() == pre@.dom().len() - (if pre@.contains_key(k1) {
        1int
    } else {
        0int
    }));
}

/// After removing a token from the invite bucket, the logical map is the old
/// one with the `(third-party-invite type, token)` key removed.
proof fn lemma_view_after_invite_remove<E>(pre: StateMap<E>, post: StateMap<E>, s: Seq<char>)
    requires
        pre.wf(),
        post.well_known@ == pre.well_known@,
        post.membership@ == pre.membership@,
        post.aliases@ == pre.aliases@,
        post.others@ == pre.others@,
        alist_wf(post.invites@),
        alist_map(post.invites@) == alist_map(pre.invites@).remove(s),
        post.total == pre.total - (if alist_map(pre.invites@).contains_key(s) {
            1int
        } else {
            0int
        }),
    ensures
        post.wf(),
        post@ == pre@.remove((TYPE_THIRD_PARTY_INVITE@, s)),
{
    lemma_special_types_not_well_known();
    let k1 = (TYPE_THIRD_PARTY_INVITE@, s);
    assert(classify(k1.0, k1.1) == Class::Invite);
    assert forall|k2: (Seq<char>, Seq<char>)| k2 != k1 implies post.bucket_contains(k2.0, k2.1)
        == pre.bucket_contains(k2.0, k2.1) && (pre.bucket_contains(k2.0, k2.1)
        ==> post.bucket_value(k2.0, k2.1) == pre.bucket_value(k2.0, k2.1)) by {
        match classify(k2.0, k2.1) {
            Class::Invite => {
                assert(k2.0 == TYPE_THIRD_PARTY_INVITE@);
            },
            _ => {},
        }
    }
    assert(!post.bucket_contains(k1.0, k1.1));
    assert(post@ =~= pre@.remove(k1));
    assert(pre@.contains_key(k1) == alist_map(pre.invites@).contains_key(s));
    assert(pre@.dom().remove(k1).len() == pre@.dom().len() - (if pre@.contains_key(k1) {
        1int
    } else {
        0int
    }));
}

/// After removing a state key from one inner mapping of the fallback bucket,
/// the logical map is the old one with that `(type, state_key)` key removed;
/// the inner mapping itself stays, even when empty.
proof fn lemma_view_after_other_remove<E>(
    pre: StateMap<E>,
    post: StateMap<E>,
    t: Seq<char>,
    s: Seq<char>,
    inner0: Seq<(String, E)>,
)
    requires
        pre.wf(),
        classify(t, s) == Class::Other,
        post.well_known@ == pre.well_known@,
        post.membership@ == pre.membership@,
        post.aliases@ == pre.aliases@,
        post.invites@ == pre.invites@,
        alist_wf(post.others@),
        alist_map(pre.others@).contains_key(t),
        inner0 == alist_map(pre.others@)[t]@,
        alist_map(post.others@).contains_key(t),
        alist_map(post.others@) == alist_map(pre.others@).remove(t).insert(
            t,
            alist_map(post.others@)[t],
        ),
        alist_wf(alist_map(post.others@)[t]@),
        alist_map(alist_map(post.others@)[t]@) == alist_map(inner0).remove(s),
        post.total == pre.total - (if alist_map(inner0).contains_key(s) {
            1int
        } else {
            0int
        }),
    ensures
        post.wf(),
        post@ == pre@.remove((t, s)),
{
    let k1 = (t, s);
    let othpre = alist_map(pre.others@);
    let othpost = alist_map(post.others@);
    assert(othpost =~= othpre.insert(t, othpost[t]));
    assert forall|k2: (Seq<char>, Seq<char>)| k2 != k1 implies post.bucket_contains(k2.0, k2.1)
        == pre.bucket_contains(k2.0, k2.1) && (pre.bucket_contains(k2.0, k2.1)
        ==> post.bucket_value(k2.0, k2.1) == pre.bucket_value(k2.0, k2.1)) by {
        match classify(k2.0, k2.1) {
            Class::Other => {
                if k2.0 == t {
                    assert(k2.1 != s);
                    assert(alist_map(alist_map(post.others@)[t]@).contains_key(k2.1)
                        == alist_map(inner0).contains_key(k2.1));
                }
            },
            _ => {},
        }
    }
    assert(!post.bucket_contains(k1.0, k1.1));
    assert(post@ =~= pre@.remove(k1));
    assert(pre@.contains_key(k1) == alist_map(inner0).contains_key(s));
    assert(pre@.dom().remove(k1).len() == pre@.dom().len() - (if pre@.contains_key(k1) {
        1int
    } else {
        0int
    }));
}

} // verus!
