//! Where snapshots come from: the model of a simulated car, and recordings that
//! are read one snapshot ahead.

use vstd::prelude::*;

use crate::text::same_text;

verus! {

/// The model of a simulated car.
#[derive(Clone, Copy, Debug, PartialEq, Eq, Structural)]
pub enum VehicleChoice {
    Kinematic,
    Dynamic,
    /// A dynamic model with measured parameters.
    Identified,
}

/// The model that a name stands for; nothing if it needs parameters that are
/// not given.
pub open spec fn choice_of(model: Seq<char>, has_params: bool) -> Option<VehicleChoice> {
    if model == "dynamic"@ {
        Some(VehicleChoice::Dynamic)
    } else if model == "identified"@ {
        if has_params {
            Some(VehicleChoice::Identified)
        } else {
            None
        }
    } else {
        Some(VehicleChoice::Kinematic)
    }
}

/// Picks the model of a simulated car. A name that is not known stands for the
/// kinematic one.
pub fn build_vehicle(model: &str, has_params: bool) -> (out: Option<VehicleChoice>)
    ensures
        out == choice_of(model@, has_params),
{
    if same_text(model, "dynamic") {
        Some(VehicleChoice::Dynamic)
    } else if same_text(model, "identified") {
        if has_params {
            Some(VehicleChoice::Identified)
        } else {
            None
        }
    } else {
        Some(VehicleChoice::Kinematic)
    }
}

/// A recording that is read one item ahead, so that its end is known in time.
#[derive(Debug)]
pub struct Lookahead<T> {
    pub next: Option<T>,
    pub exhausted: bool,
}

impl<T> Lookahead<T> {
    /// Starts with the first item, if there is one.
    pub fn open(first: Option<T>) -> (out: Self)
        ensures
            out.next == first,
            out.exhausted == (first is None),
    {
        let exhausted = first.is_none();
        Lookahead { next: first, exhausted }
    }

    /// Takes the item that was read ahead; without one the recording is over.
    pub fn take(&mut self) -> (out: Option<T>)
        ensures
            out == old(self).next,
            final(self).next is None,
            final(self).exhausted == (old(self).exhausted || old(self).next is None),
    {
        let item = self.next.take();
        if item.is_none() {
            self.exhausted = true;
        }
        item
    }

    /// Keeps the item that was read after the last one.
    pub fn refill(&mut self, next: Option<T>)
        ensures
            final(self).next == next,
            final(self).exhausted == (next is None),
    {
        self.exhausted = next.is_none();
        self.next = next;
    }

    /// Whether the recording is over.
    pub fn is_exhausted(&self) -> (out: bool)
        ensures
            out == self.exhausted,
    {
        self.exhausted
    }
}

/// The item of a recording at a place, if there is one.
pub open spec fn item_at<T>(items: Seq<T>, k: int) -> Option<T> {
    if 0 <= k < items.len() {
        Some(items[k])
    } else {
        None
    }
}

/// What is known of a recording of which `k` items were taken.
pub open spec fn played<T>(items: Seq<T>, k: int) -> Lookahead<T> {
    Lookahead { next: item_at(items, k), exhausted: item_at(items, k) is None }
}

/// A recording is played in order and to its end: an item that is taken is the
/// next one, what is read behind it moves the recording on by one, and it is over
/// exactly when all items were taken.
pub proof fn law_recordings_play_in_order<T>(
    items: Seq<T>,
    k: int,
    taken: Lookahead<T>,
    after: Lookahead<T>,
)
    requires
        0 <= k < items.len(),
        taken.next is None,
        taken.exhausted == (played(items, k).exhausted || played(items, k).next is None),
        after.next == item_at(items, k + 1),
        after.exhausted == (item_at(items, k + 1) is None),
    ensures
        played(items, k).next == Some(items[k]),
        !taken.exhausted,
        after == played(items, k + 1),
        after.exhausted == (k + 1 == items.len()),
{
}

} // verus!
