//! Tables of optional slots (descriptor tables, lock tables, the pid table):
//! a new entry takes the first free slot, or a new slot at the end.
use vstd::prelude::*;

verus! {

/// `i` is the first free slot of `s`.
pub open spec fn is_first_free<T>(s: Seq<Option<T>>, i: int) -> bool {
    &&& 0 <= i < s.len()
    &&& s[i] is None
    &&& forall|k: int| 0 <= k < i ==> #[trigger] s[k] is Some
}

/// `s` has no free slot.
pub open spec fn is_full<T>(s: Seq<Option<T>>) -> bool {
    forall|k: int| 0 <= k < s.len() ==> #[trigger] s[k] is Some
}

/// The slot a new entry of `s` goes to: the first free one, else a new one at the end.
pub open spec fn slot_for<T>(s: Seq<Option<T>>, id: int) -> bool {
    ||| is_first_free(s, id)
    ||| (is_full(s) && id == s.len())
}

/// The table after a new entry `x` went to slot `id` (see [`slot_for`]).
pub open spec fn placed<T>(s: Seq<Option<T>>, id: int, x: T) -> Seq<Option<T>> {
    if id < s.len() {
        s.update(id, Some(x))
    } else {
        s.push(Some(x))
    }
}

/// A table and its view by deep views have the same free slots.
pub proof fn lemma_slot_for_deep<T: DeepView>(raw: Seq<Option<T>>, dv: Seq<Option<T::V>>, id: int)
    requires
        slot_for(raw, id),
        dv.len() == raw.len(),
        forall|k: int| 0 <= k < raw.len() ==> #[trigger] dv[k] == raw[k].deep_view(),
    ensures
        slot_for(dv, id),
{
    if is_first_free(raw, id) {
        assert(dv[id] is None);
        assert forall|k: int| 0 <= k < id implies #[trigger] dv[k] is Some by {
            assert(raw[k] is Some);
        }
        assert(is_first_free(dv, id));
    } else {
        assert forall|k: int| 0 <= k < dv.len() implies #[trigger] dv[k] is Some by {
            assert(raw[k] is Some);
        }
    }
}

/// Puts `item` in the first free slot of `list`, or in a new slot at the end
/// when none is free, and returns the slot's index.
pub fn alloc_slot<T>(list: &mut Vec<Option<T>>, item: T) -> (id: usize)
    ensures
        slot_for(old(list)@, id as int),
        id < old(list)@.len() ==> final(list)@ == old(list)@.update(id as int, Some(item)),
        id == old(list)@.len() ==> final(list)@ == old(list)@.push(Some(item)),
{
    let len = list.len();
    let mut i: usize = 0;
    while i < len
        invariant
            len == list@.len(),
            list@ == old(list)@,
            i <= len,
            forall|k: int| 0 <= k < i ==> #[trigger] list@[k] is Some,
        decreases len - i,
    {
        if list[i].is_none() {
            list.set(i, Some(item));
            return i;
        }
        i = i + 1;
    }
    list.push(Some(item));
    len
}

/// At most one slot is the one a new entry goes to.
pub proof fn law_slot_unique<T>(s: Seq<Option<T>>, a: int, b: int)
    requires
        slot_for(s, a),
        slot_for(s, b),
    ensures
        a == b,
{
    if is_first_free(s, a) && is_first_free(s, b) {
        if a < b {
            assert(s[a] is Some);
        } else if b < a {
            assert(s[b] is Some);
        }
    } else if is_first_free(s, a) {
        assert(s[a] is Some);
    } else if is_first_free(s, b) {
        assert(s[b] is Some);
    }
}

} // verus!
