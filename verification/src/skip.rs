//! Predicates deciding whether a struct field may be left out of the data
//! being written.
//!
//! Each takes the (de)serialization running on this thread, if any: a value
//! may only be left out where that allows it.

use vstd::prelude::*;
use vstd::std_specs::cmp::PartialEqSpec;

use crate::cfg::{CfgView, skips_fields};
use crate::info::{Direction, Info};

verus! {

/// Whether a struct field may be left out, given the (de)serialization
/// running on this thread, if any: what the configuration says while
/// serializing, and otherwise always.
pub open spec fn spec_is_allowed(active: core::option::Option<Info>) -> bool {
    match active {
        Some(info) => info.direction != Direction::Serialize || info.allow_skip,
        None => true,
    }
}

/// While writing under a configuration that forbids leaving out struct
/// fields, with identifiers or without, no field may be left out.
pub proof fn forbidden_skip_writes_every_field(v: CfgView, with_idents: bool, info: Info)
    requires
        !v.allow_skip,
        info.direction == Direction::Serialize,
        info.allow_skip == skips_fields(v, with_idents),
    ensures
        !spec_is_allowed(Some(info)),
{
}

/// Whether a struct field may be left out of the data being written, given
/// the (de)serialization running on this thread, if any.
///
/// This matches the configuration's `allow_skip` while serializing with
/// this format; otherwise it is always `true`, so that another data format
/// is left to decide for itself.
pub fn is_allowed(active: core::option::Option<Info>) -> (r: bool)
    ensures
        r == spec_is_allowed(active),
{
    match active {
        Some(info) => match info.direction {
            Direction::Serialize => info.allow_skip,
            Direction::Deserialize => true,
        },
        None => true,
    }
}

/// Whether the value is its default and may be left out.
///
/// Whether it is its default is what the type's own `==` says of it and of
/// what its `Default` gives.
pub fn is_default<T: Default + PartialEq>(value: &T, active: core::option::Option<Info>) -> (r: bool)
    ensures
        r ==> spec_is_allowed(active),
        spec_is_allowed(active) && T::obeys_eq_spec() ==> exists|d: T|
            call_ensures(T::default, (), d) && r == value.eq_spec(&d),
{
    is_allowed(active) && *value == T::default()
}

/// Predicates for optional values.
pub struct Option;

impl Option {
    /// Whether the option holds no value and may be left out.
    pub fn is_none<T>(value: &core::option::Option<T>, active: core::option::Option<Info>) -> (r:
        bool)
        ensures
            r == (value is None && spec_is_allowed(active)),
    {
        value.is_none() && is_allowed(active)
    }
}

/// Predicates for strings.
pub struct String;

impl String {
    /// Whether the string is empty and may be left out.
    pub fn is_empty(value: &str, active: core::option::Option<Info>) -> (r: bool)
        ensures
            r == (value@.len() == 0 && spec_is_allowed(active)),
    {
        value.unicode_len() == 0 && is_allowed(active)
    }
}

/// Predicates for sequences.
pub struct Vec;

impl Vec {
    /// Whether the sequence is empty and may be left out.
    pub fn is_empty<T>(value: &[T], active: core::option::Option<Info>) -> (r: bool)
        ensures
            r == (value@.len() == 0 && spec_is_allowed(active)),
    {
        value.len() == 0 && is_allowed(active)
    }
}

/// Predicates for double-ended queues.
pub struct VecDeque;

impl VecDeque {
    /// Whether the deque is empty and may be left out.
    pub fn is_empty<T>(value: &std::collections::VecDeque<T>, active: core::option::Option<Info>) -> (r:
        bool)
        ensures
            r == (value@.len() == 0 && spec_is_allowed(active)),
    {
        value.len() == 0 && is_allowed(active)
    }
}

/// Predicates for hash maps.
pub struct HashMap;

impl HashMap {
    /// Whether the map is empty and may be left out.
    pub fn is_empty<K, V, S>(
        value: &std::collections::HashMap<K, V, S>,
        active: core::option::Option<Info>,
    ) -> (r: bool)
        ensures
            r == (value@.is_empty() && spec_is_allowed(active)),
    {
        value.is_empty() && is_allowed(active)
    }
}

/// Predicates for hash sets.
pub struct HashSet;

impl HashSet {
    /// Whether the set is empty and may be left out.
    pub fn is_empty<T, S>(value: &std::collections::HashSet<T, S>, active: core::option::Option<Info>) -> (r:
        bool)
        ensures
            r == (value@.is_empty() && spec_is_allowed(active)),
    {
        value.is_empty() && is_allowed(active)
    }
}

/// Predicates for ordered maps.
pub struct BTreeMap;

impl BTreeMap {
    /// Whether the map is empty and may be left out.
    pub fn is_empty<K, V>(value: &std::collections::BTreeMap<K, V>, active: core::option::Option<Info>) -> (r:
        bool)
        ensures
            r == (value@.is_empty() && spec_is_allowed(active)),
    {
        value.is_empty() && is_allowed(active)
    }
}

/// Predicates for ordered sets.
pub struct BTreeSet;

impl BTreeSet {
    /// Whether the set is empty and may be left out.
    pub fn is_empty<T>(value: &std::collections::BTreeSet<T>, active: core::option::Option<Info>) -> (r:
        bool)
        ensures
            r == (value@.is_empty() && spec_is_allowed(active)),
    {
        value.is_empty() && is_allowed(active)
    }
}

} // verus!
