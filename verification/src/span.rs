//! Spans: voxel columns with a floor and a ceiling, and the collection that
//! holds them.
//!
//! The spans of a heightfield live in a [`Spans`] collection and are linked
//! into columns by their `next` keys.

use vstd::prelude::*;
use crate::area::AreaType;
use slotmap::{DefaultKey, Key, SlotMap};

verus! {

/// What a span collection holds: each live key, as the 64-bit value that
/// `KeyData::as_ffi` gives for it, mapped to its span.
pub uninterp spec fn slot_contents(m: Spans) -> Map<u64, Span>;

/// A key for a span in [`Spans`].
#[derive(Debug, Clone, Copy, PartialEq, Eq, Hash, Structural)]
pub struct SpanKey {
    /// The key's data as `KeyData::as_ffi` gives it.
    pub ffi: u64,
}

/// A span of solid voxels in a column: its floor, ceiling and area, and the
/// next span above it.  Build with [`SpanBuilder`].
#[derive(Debug, Clone, Copy, PartialEq, Eq, Structural)]
pub struct Span {
    /// Height of the floor.
    pub min: u16,
    /// Height of the ceiling.
    pub max: u16,
    /// Area type ID.
    pub area: AreaType,
    /// The key of the next-higher span in the column
    pub next: Option<SpanKey>,
}

/// The fields of a [`Span`] to build.
pub struct SpanBuilder {
    /// Height of the floor.
    pub min: u16,
    /// Height of the ceiling.
    pub max: u16,
    /// Area type ID.
    pub area: AreaType,
    /// The key of the next-higher span in the column
    pub next: Option<SpanKey>,
}

impl SpanBuilder {
    /// Builds the span out of the given fields.
    pub fn build(self) -> (r: Span)
        ensures
            r.min == self.min,
            r.max == self.max,
            r.area == self.area,
            r.next == self.next,
    {
        Span { min: self.min, max: self.max, area: self.area, next: self.next }
    }
}

impl From<SpanBuilder> for Span {
    fn from(builder: SpanBuilder) -> (r: Span) {
        builder.build()
    }
}

impl vstd::std_specs::convert::FromSpecImpl<SpanBuilder> for Span {
    open spec fn obeys_from_spec() -> bool {
        true
    }

    open spec fn from_spec(builder: SpanBuilder) -> Span {
        Span { min: builder.min, max: builder.max, area: builder.area, next: builder.next }
    }
}

impl Span {
    /// Height of the floor.
    pub fn min(&self) -> (r: u16)
        ensures
            r == self.min,
    {
        self.min
    }

    /// Sets the height of the floor.
    pub fn set_min(&mut self, min: u16)
        ensures
            *final(self) == (Span { min, ..*old(self) }),
    {
        self.min = min;
    }

    /// Height of the ceiling.
    pub fn max(&self) -> (r: u16)
        ensures
            r == self.max,
    {
        self.max
    }

    /// Sets the height of the ceiling.
    pub fn set_max(&mut self, max: u16)
        ensures
            *final(self) == (Span { max, ..*old(self) }),
    {
        self.max = max;
    }

    /// Area type of the span.
    pub fn area(&self) -> (r: AreaType)
        ensures
            r == self.area,
    {
        self.area
    }

    /// Sets the area type of the span.
    pub fn set_area(&mut self, area: AreaType)
        ensures
            *final(self) == (Span { area, ..*old(self) }),
    {
        self.area = area;
    }

    /// The key of the next-higher span in the column.
    pub fn next(&self) -> (r: Option<SpanKey>)
        ensures
            r == self.next,
    {
        self.next
    }

    /// Sets the key of the next-higher span in the column.
    pub fn set_next(&mut self, next: Option<SpanKey>)
        ensures
            *final(self) == (Span { next, ..*old(self) }),
    {
        self.next = next;
    }
}

/// A collection of spans, each reachable by the key it was inserted under.
/// The slot map itself is opaque to proofs; [`slot_contents`] names what
/// it holds.
#[verifier::external_body]
pub struct Spans {
    slots: SlotMap<DefaultKey, Span>,
}

impl View for Spans {
    type V = Map<u64, Span>;

    open spec fn view(&self) -> Map<u64, Span> {
        slot_contents(*self)
    }
}

/// Creates an empty slot map with room for `capacity` spans
/// (`SlotMap::with_capacity_and_key`).  It claims that the map is empty.
#[verifier::external_body]
fn slot_map_with_capacity(capacity: usize) -> (r: Spans)
    ensures
        slot_contents(r).is_empty(),
{
    Spans { slots: SlotMap::with_capacity_and_key(capacity) }
}

/// Inserts a span (`SlotMap::insert`) and hands back its key as
/// `KeyData::as_ffi` gives it.  It claims that the key was not live before
/// and that exactly that entry was added.  The slot map panics when full,
/// which takes `u32::MAX - 1` live entries; `requires` keeps below that.
#[verifier::external_body]
fn slot_map_insert(m: &mut Spans, value: Span) -> (r: u64)
    requires
        slot_contents(*old(m)).len() < 0xffff_fffe,
        slot_contents(*old(m)).dom().finite(),
    ensures
        !slot_contents(*old(m)).dom().contains(r),
        slot_contents(*final(m)) == slot_contents(*old(m)).insert(r, value),
{
    m.slots.insert(value).data().as_ffi()
}

/// Removes the span under a live key (`SlotMap::remove` on the key that
/// `KeyData::from_ffi` gives back).  It claims that exactly that entry goes.
#[verifier::external_body]
fn slot_map_remove(m: &mut Spans, key: u64)
    requires
        slot_contents(*old(m)).dom().contains(key),
    ensures
        slot_contents(*final(m)) == slot_contents(*old(m)).remove(key),
{
    m.slots.remove(DefaultKey::from(slotmap::KeyData::from_ffi(key)));
}

/// Reads the span under a live key (indexing of `SlotMap`).
#[verifier::external_body]
fn slot_map_get(m: &Spans, key: u64) -> (r: &Span)
    requires
        slot_contents(*m).dom().contains(key),
    ensures
        *r == slot_contents(*m)[key],
{
    &m.slots[DefaultKey::from(slotmap::KeyData::from_ffi(key))]
}

/// Overwrites the span under a live key (mutable indexing of `SlotMap`).
#[verifier::external_body]
fn slot_map_set(m: &mut Spans, key: u64, value: Span)
    requires
        slot_contents(*old(m)).dom().contains(key),
    ensures
        slot_contents(*final(m)) == slot_contents(*old(m)).insert(key, value),
{
    m.slots[DefaultKey::from(slotmap::KeyData::from_ffi(key))] = value;
}

/// Hands out the span under a live key for writing (mutable indexing of
/// `SlotMap`).  It claims that the collection afterwards holds, under that
/// key, what was written through the reference, and is otherwise unchanged.
#[verifier::external_body]
fn slot_map_get_mut(m: &mut Spans, key: u64) -> (r: &mut Span)
    requires
        slot_contents(*old(m)).dom().contains(key),
    ensures
        *r == slot_contents(*old(m))[key],
        slot_contents(*final(m)) == slot_contents(*old(m)).insert(key, *final(r)),
{
    &mut m.slots[DefaultKey::from(slotmap::KeyData::from_ffi(key))]
}

impl Spans {
    /// The default capacity of a span collection.
    pub const DEFAULT_CAPACITY: usize = 1024;

    /// An empty collection with room for at least `min_capacity` spans.
    pub fn with_min_capacity(min_capacity: usize) -> (r: Spans)
        ensures
            r@.is_empty(),
    {
        let capacity = if min_capacity > Self::DEFAULT_CAPACITY {
            min_capacity
        } else {
            Self::DEFAULT_CAPACITY
        };
        slot_map_with_capacity(capacity)
    }

    /// Whether the collection holds a span under `key`.
    pub open spec fn contains(&self, key: SpanKey) -> bool {
        self@.dom().contains(key.ffi)
    }

    /// Inserts a span under a fresh key and returns that key.
    pub fn insert(&mut self, value: Span) -> (r: SpanKey)
        requires
            old(self)@.dom().finite(),
            old(self)@.len() < 0xffff_fffe,
        ensures
            !old(self)@.dom().contains(r.ffi),
            final(self)@ == old(self)@.insert(r.ffi, value),
    {
        SpanKey { ffi: slot_map_insert(self, value) }
    }

    /// Removes the span under `key`.
    pub fn remove(&mut self, key: SpanKey)
        requires
            old(self).contains(key),
        ensures
            final(self)@ == old(self)@.remove(key.ffi),
    {
        slot_map_remove(self, key.ffi)
    }

    /// The span under `key`.
    pub fn get(&self, key: SpanKey) -> (r: &Span)
        requires
            self.contains(key),
        ensures
            *r == self@[key.ffi],
    {
        slot_map_get(self, key.ffi)
    }

    /// The span under `key`, for writing.
    pub fn get_mut(&mut self, key: SpanKey) -> (r: &mut Span)
        requires
            old(self).contains(key),
        ensures
            *r == old(self)@[key.ffi],
            final(self)@ == old(self)@.insert(key.ffi, *final(r)),
    {
        slot_map_get_mut(self, key.ffi)
    }

    /// Overwrites the span under `key`.
    pub fn set(&mut self, key: SpanKey, value: Span)
        requires
            old(self).contains(key),
        ensures
            final(self)@ == old(self)@.insert(key.ffi, value),
    {
        slot_map_set(self, key.ffi, value)
    }
}

} // verus!
