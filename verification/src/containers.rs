//! Reading and writing lists and maps through their handles.

use vstd::prelude::*;
use crate::equality::{entries_below, lemma_tree_eq_reflexive, tree_eq};
use crate::hashing::lemma_equal_contents_hash_alike;
use crate::object::{Handle, StackObject};
use crate::store::{
    content, heap_wf, holds, lemma_content_frame, lemma_dict_content, lemma_list_content, rank_in,
    ranks_of, reaches, value_below, CellView, Heap,
};

verus! {

/// Why a value was not stored.
#[derive(Debug, PartialEq, Eq, Structural)]
pub enum PlacementError {
    /// The container can be reached from the value: storing it would close
    /// a cycle.
    Cycle,
}

/// Whether `key` is the key `stored`.
pub open spec fn key_eq(cells: Seq<CellView>, stored: StackObject, key: StackObject) -> bool {
    tree_eq(content(cells, stored), content(cells, key))
}

/// Whether entry `i` is the first of `es` with the key `key`.
pub open spec fn first_match(
    cells: Seq<CellView>,
    es: Seq<(StackObject, StackObject)>,
    key: StackObject,
    i: int,
) -> bool {
    0 <= i < es.len() && key_eq(cells, es[i].0, key) && forall|j: int|
        0 <= j < i ==> !key_eq(cells, (#[trigger] es[j]).0, key)
}

/// Whether `es` has an entry with the key `key`.
pub open spec fn has_key(
    cells: Seq<CellView>,
    es: Seq<(StackObject, StackObject)>,
    key: StackObject,
) -> bool {
    exists|i: int| first_match(cells, es, key, i)
}

/// The place of the first entry of `es` with the key `key`.
pub open spec fn key_index(
    cells: Seq<CellView>,
    es: Seq<(StackObject, StackObject)>,
    key: StackObject,
) -> int {
    choose|i: int| first_match(cells, es, key, i)
}

/// What the map in `slot` holds under `key`: the value of the first entry
/// with that key.
pub open spec fn lookup(cells: Seq<CellView>, slot: int, key: StackObject) -> Option<StackObject> {
    let es = cells[slot]->Dict_0;
    if has_key(cells, es, key) {
        Some(es[key_index(cells, es, key)].1)
    } else {
        None
    }
}

/// The entries of a map after `key` was given the value `value`: the first
/// entry with that key has the new value, or, where there is none, a new
/// entry stands behind the others.
pub open spec fn entries_with(
    cells: Seq<CellView>,
    es: Seq<(StackObject, StackObject)>,
    key: StackObject,
    value: StackObject,
) -> Seq<(StackObject, StackObject)> {
    if has_key(cells, es, key) {
        let i = key_index(cells, es, key);
        es.update(i, (es[i].0, value))
    } else {
        es.push((key, value))
    }
}

/// Whether no two entries of `es` have the same key.
pub open spec fn distinct_keys(cells: Seq<CellView>, es: Seq<(StackObject, StackObject)>) -> bool {
    forall|i: int, j: int|
        0 <= i < j < es.len() ==> !key_eq(cells, (#[trigger] es[i]).0, (#[trigger] es[j]).0)
}

/// At most one entry is the first with a given key.
pub proof fn lemma_first_match_unique(
    cells: Seq<CellView>,
    es: Seq<(StackObject, StackObject)>,
    key: StackObject,
    i: int,
)
    requires
        first_match(cells, es, key, i),
    ensures
        has_key(cells, es, key),
        key_index(cells, es, key) == i,
{
    let j = key_index(cells, es, key);
    assert(first_match(cells, es, key, j));
    if j < i {
        assert(!key_eq(cells, es[j].0, key));
    }
    if i < j {
        assert(!key_eq(cells, es[i].0, key));
    }
}

impl StackObject {
    /// Whether the cell in slot `target` can be reached from this value by
    /// following handles.
    pub fn can_reach(&self, target: usize, heap: &Heap) -> (r: bool)
        requires
            heap.wf(),
            holds(heap@, *self),
        ensures
            r == reaches(heap@, *self, target as int),
        decreases rank_in(heap@, *self),
    {
        match self {
            StackObject::Integer(_) => false,
            StackObject::Boolean(_) => false,
            StackObject::String(h) => *h == target,
            StackObject::Vector(h) => {
                if *h == target {
                    return true;
                }
                let xs = heap.list(*h);
                proof {
                    lemma_list_content(heap@, *h);
                }
                let mut k: usize = 0;
                while k < xs.len()
                    invariant
                        heap.wf(),
                        *self == StackObject::Vector(*h),
                        *h < heap@.len(),
                        *h != target,
                        heap@[*h as int] is List,
                        xs@ == heap@[*h as int]->List_0,
                        k <= xs.len(),
                        forall|t: int|
                            0 <= t < xs@.len() ==> value_below(
                                heap@,
                                #[trigger] xs@[t],
                                ranks_of(heap@)[*h as int] as int,
                            ),
                        forall|t: int|
                            0 <= t < k ==> !reaches(heap@, #[trigger] xs@[t], target as int),
                    decreases xs.len() - k,
                {
                    assert(value_below(heap@, xs@[k as int], ranks_of(heap@)[*h as int] as int));
                    if xs[k].can_reach(target, heap) {
                        return true;
                    }
                    k = k + 1;
                }
                false
            },
            StackObject::HashMap(h) => {
                if *h == target {
                    return true;
                }
                let es = heap.dict(*h);
                proof {
                    lemma_dict_content(heap@, *h);
                }
                let mut k: usize = 0;
                while k < es.len()
                    invariant
                        heap.wf(),
                        *self == StackObject::HashMap(*h),
                        *h < heap@.len(),
                        *h != target,
                        heap@[*h as int] is Dict,
                        es@ == heap@[*h as int]->Dict_0,
                        k <= es.len(),
                        entries_below(heap@, es@, ranks_of(heap@)[*h as int] as int),
                        forall|t: int|
                            0 <= t < k ==> !reaches(heap@, (#[trigger] es@[t]).0, target as int)
                                && !reaches(heap@, es@[t].1, target as int),
                    decreases es.len() - k,
                {
                    assert(value_below(heap@, es@[k as int].0, ranks_of(heap@)[*h as int] as int));
                    assert(value_below(heap@, es@[k as int].1, ranks_of(heap@)[*h as int] as int));
                    if es[k].0.can_reach(target, heap) || es[k].1.can_reach(target, heap) {
                        return true;
                    }
                    k = k + 1;
                }
                false
            },
        }
    }
}

/// A key that can be hashed reaches no map.
pub proof fn lemma_key_reaches_no_dict(cells: Seq<CellView>, key: StackObject, slot: int)
    requires
        key.hashable(),
        holds(cells, key),
        0 <= slot < cells.len(),
        cells[slot] is Dict,
    ensures
        !reaches(cells, key, slot),
{
}

impl Heap {
    /// Whether `h` is a handle to a list of this store.
    pub open spec fn has_list(&self, h: Handle) -> bool {
        h.slot < self@.len() && self@[h.slot as int] is List
    }

    /// Whether `h` is a handle to a map of this store.
    pub open spec fn has_dict(&self, h: Handle) -> bool {
        h.slot < self@.len() && self@[h.slot as int] is Dict
    }

    /// Whether `h` is a handle to a text of this store.
    pub open spec fn has_text(&self, h: Handle) -> bool {
        h.slot < self@.len() && self@[h.slot as int] is Text
    }

    /// The characters of the text behind `h`.
    pub fn text_get(&self, h: &Handle) -> (r: String)
        requires
            self.has_text(*h),
        ensures
            r@ == self@[h.slot as int]->Text_0,
    {
        self.text(h.slot).clone()
    }

    /// The length of the list behind `h`.
    pub fn list_len(&self, h: &Handle) -> (r: usize)
        requires
            self.has_list(*h),
        ensures
            r == self@[h.slot as int]->List_0.len(),
    {
        self.list(h.slot).len()
    }

    /// The alias of element `i` of the list behind `h`, or `None` where the
    /// list is not that long.
    pub fn list_get(&self, h: &Handle, i: usize) -> (r: Option<StackObject>)
        requires
            self.wf(),
            self.has_list(*h),
        ensures
            r == (if i < self@[h.slot as int]->List_0.len() {
                Some(self@[h.slot as int]->List_0[i as int])
            } else {
                None
            }),
            r is Some ==> holds(self@, r->0),
    {
        let xs = self.list(h.slot);
        if i < xs.len() {
            proof {
                lemma_list_content(self@, h.slot);
            }
            assert(holds(self@, xs@[i as int]));
            Some(xs[i].ref_clone())
        } else {
            None
        }
    }

    /// Writes `v` behind the list behind `h`. A value from which the list can
    /// be reached is refused, and the store is left as it was.
    pub fn list_push(&mut self, h: &Handle, v: StackObject) -> (r: Result<(), PlacementError>)
        requires
            old(self).wf(),
            old(self).has_list(*h),
            holds(old(self)@, v),
        ensures
            final(self).wf(),
            r is Ok <==> !reaches(old(self)@, v, h.slot as int),
            r is Ok ==> final(self)@ == old(self)@.update(
                h.slot as int,
                CellView::List(old(self)@[h.slot as int]->List_0.push(v)),
            ),
            r is Err ==> final(self)@ == old(self)@,
    {
        if v.can_reach(h.slot, self) {
            Err(PlacementError::Cycle)
        } else {
            self.list_push_raw(h.slot, v);
            Ok(())
        }
    }

    /// The number of entries of the map behind `h`.
    pub fn map_len(&self, h: &Handle) -> (r: usize)
        requires
            self.has_dict(*h),
        ensures
            r == self@[h.slot as int]->Dict_0.len(),
    {
        self.dict(h.slot).len()
    }

    /// The place of the first entry of the map in `slot` whose key is `key`.
    /// An entry is compared with the key only where both have the same hash
    /// code.
    fn find_key(&self, slot: usize, key: &StackObject) -> (r: Option<usize>)
        requires
            self.wf(),
            slot < self@.len(),
            self@[slot as int] is Dict,
            holds(self@, *key),
            key.hashable(),
        ensures
            match r {
                Some(i) => first_match(self@, self@[slot as int]->Dict_0, *key, i as int),
                None => !has_key(self@, self@[slot as int]->Dict_0, *key),
            },
    {
        let es = self.dict(slot);
        proof {
            lemma_dict_content(self@, slot);
        }
        assert(entries_below(self@, es@, ranks_of(self@)[slot as int] as int));
        let code = key.hash(self);
        let mut i: usize = 0;
        while i < es.len()
            invariant
                self.wf(),
                holds(self@, *key),
                slot < self@.len(),
                es@ == self@[slot as int]->Dict_0,
                entries_below(self@, es@, ranks_of(self@)[slot as int] as int),
                i <= es.len(),
                key.hashable(),
                code == crate::hashing::tree_hash(content(self@, *key)),
                forall|j: int| 0 <= j < es@.len() ==> (#[trigger] es@[j]).0.hashable(),
                forall|j: int| 0 <= j < i ==> !key_eq(self@, (#[trigger] es@[j]).0, *key),
            decreases es.len() - i,
        {
            assert(value_below(self@, es@[i as int].0, ranks_of(self@)[slot as int] as int));
            assert(es@[i as int].0.hashable());
            let same_code = es[i].0.hash(self) == code;
            proof {
                if key_eq(self@, es@[i as int].0, *key) {
                    lemma_equal_contents_hash_alike(
                        content(self@, es@[i as int].0),
                        content(self@, *key),
                    );
                }
            }
            if same_code && es[i].0.equals(key, self) {
                return Some(i);
            }
            i = i + 1;
        }
        assert forall|t: int| !first_match(self@, es@, *key, t) by {
            if 0 <= t < es@.len() {
                assert(!key_eq(self@, es@[t].0, *key));
            }
        }
        None
    }

    /// The alias of the value that the map behind `h` holds under `key`.
    pub fn map_get(&self, h: &Handle, key: &StackObject) -> (r: Option<StackObject>)
        requires
            self.wf(),
            self.has_dict(*h),
            holds(self@, *key),
            key.hashable(),
        ensures
            r == lookup(self@, h.slot as int, *key),
            r is Some ==> holds(self@, r->0),
    {
        match self.find_key(h.slot, key) {
            Some(i) => {
                let es = self.dict(h.slot);
                proof {
                    lemma_first_match_unique(self@, es@, *key, i as int);
                    lemma_dict_content(self@, h.slot);
                    assert(holds(self@, es@[i as int].1));
                }
                Some(es[i].1.ref_clone())
            },
            None => None,
        }
    }

    /// Gives `key` the value `value` in the map behind `h`, and returns the
    /// value that the key had. A value from which the map can be reached is
    /// refused, and the store is left as it was.
    pub fn map_insert(&mut self, h: &Handle, key: StackObject, value: StackObject) -> (r: Result<
        Option<StackObject>,
        PlacementError,
    >)
        requires
            old(self).wf(),
            old(self).has_dict(*h),
            holds(old(self)@, key),
            holds(old(self)@, value),
            key.hashable(),
        ensures
            final(self).wf(),
            r is Ok <==> !reaches(old(self)@, value, h.slot as int),
            r is Err ==> final(self)@ == old(self)@,
            r is Ok ==> r->Ok_0 == lookup(old(self)@, h.slot as int, key) && final(self)@ == old(
                self,
            )@.update(
                h.slot as int,
                CellView::Dict(
                    entries_with(old(self)@, old(self)@[h.slot as int]->Dict_0, key, value),
                ),
            ),
            r is Ok ==> lookup(final(self)@, h.slot as int, key) == Some(value),
            distinct_keys(old(self)@, old(self)@[h.slot as int]->Dict_0) ==> distinct_keys(
                final(self)@,
                final(self)@[h.slot as int]->Dict_0,
            ),
    {
        if value.can_reach(h.slot, self) {
            return Err(PlacementError::Cycle);
        }
        proof {
            lemma_key_reaches_no_dict(self@, key, h.slot as int);
        }
        match self.find_key(h.slot, &key) {
            Some(i) => {
                proof {
                    lemma_first_match_unique(self@, self@[h.slot as int]->Dict_0, key, i as int);
                }
                let prev = self.dict_set_raw(h.slot, i, value);
                proof {
                    lemma_lookup_after_insert(old(self)@, h.slot as int, key, value);
                    if distinct_keys(old(self)@, old(self)@[h.slot as int]->Dict_0) {
                        lemma_insert_keeps_distinct(old(self)@, h.slot as int, key, value);
                    }
                }
                Ok(Some(prev))
            },
            None => {
                self.dict_push_raw(h.slot, key, value);
                proof {
                    lemma_lookup_after_insert(old(self)@, h.slot as int, key, value);
                    if distinct_keys(old(self)@, old(self)@[h.slot as int]->Dict_0) {
                        lemma_insert_keeps_distinct(old(self)@, h.slot as int, key, value);
                    }
                }
                Ok(None)
            },
        }
    }

    /// Takes the first entry with the key `key` out of the map behind `h`
    /// and returns its value; `None`, and the store as it was, where the map
    /// has no such entry.
    pub fn map_remove(&mut self, h: &Handle, key: &StackObject) -> (r: Option<StackObject>)
        requires
            old(self).wf(),
            old(self).has_dict(*h),
            holds(old(self)@, *key),
            key.hashable(),
        ensures
            final(self).wf(),
            r == lookup(old(self)@, h.slot as int, *key),
            r is None ==> final(self)@ == old(self)@,
            r is Some ==> final(self)@ == old(self)@.update(
                h.slot as int,
                CellView::Dict(
                    old(self)@[h.slot as int]->Dict_0.remove(
                        key_index(old(self)@, old(self)@[h.slot as int]->Dict_0, *key),
                    ),
                ),
            ),
            distinct_keys(old(self)@, old(self)@[h.slot as int]->Dict_0) ==> distinct_keys(
                final(self)@,
                final(self)@[h.slot as int]->Dict_0,
            ),
            r is Some && distinct_keys(old(self)@, old(self)@[h.slot as int]->Dict_0) ==> lookup(
                final(self)@,
                h.slot as int,
                *key,
            ) is None,
    {
        match self.find_key(h.slot, key) {
            Some(i) => {
                proof {
                    lemma_first_match_unique(self@, self@[h.slot as int]->Dict_0, *key, i as int);
                }
                let taken = self.dict_remove_raw(h.slot, i);
                proof {
                    if distinct_keys(old(self)@, old(self)@[h.slot as int]->Dict_0) {
                        lemma_remove_keeps_distinct(old(self)@, h.slot as int, *key, i as int);
                    }
                }
                Some(taken.1)
            },
            None => None,
        }
    }
}

/// A value from which the cell in `slot` cannot be reached keeps its
/// content when that cell is rewritten.
pub proof fn lemma_content_under_update(
    cells: Seq<CellView>,
    slot: int,
    written: CellView,
    v: StackObject,
)
    requires
        heap_wf(cells),
        heap_wf(cells.update(slot, written)),
        0 <= slot < cells.len(),
        holds(cells, v),
        !reaches(cells, v, slot),
    ensures
        content(cells.update(slot, written), v) == content(cells, v),
{
    let after = cells.update(slot, written);
    assert forall|t: int| 0 <= t < cells.len() && #[trigger] reaches(
        cells,
        v,
        t,
    ) implies t < after.len() && after[t] == cells[t] by {}
    lemma_content_frame(cells, after, v);
}

/// After `key` was given `value` in the map in `slot`, the map holds `value`
/// under `key`.
pub proof fn lemma_lookup_after_insert(
    cells: Seq<CellView>,
    slot: int,
    key: StackObject,
    value: StackObject,
)
    requires
        heap_wf(cells),
        0 <= slot < cells.len(),
        cells[slot] is Dict,
        key.hashable(),
        holds(cells, key),
        heap_wf(
            cells.update(
                slot,
                CellView::Dict(entries_with(cells, cells[slot]->Dict_0, key, value)),
            ),
        ),
    ensures
        lookup(
            cells.update(
                slot,
                CellView::Dict(entries_with(cells, cells[slot]->Dict_0, key, value)),
            ),
            slot,
            key,
        ) == Some(value),
{
    let es = cells[slot]->Dict_0;
    let fs = entries_with(cells, es, key, value);
    let after = cells.update(slot, CellView::Dict(fs));
    assert(crate::store::payload_ranked(
        cells,
        ranks_of(cells),
        cells[slot],
        ranks_of(cells)[slot] as int,
    ));
    lemma_key_reaches_no_dict(cells, key, slot);
    lemma_content_under_update(cells, slot, CellView::Dict(fs), key);
    assert forall|j: int| 0 <= j < es.len() implies key_eq(after, (#[trigger] es[j]).0, key)
        == key_eq(cells, es[j].0, key) by {
        assert(value_below(cells, es[j].0, ranks_of(cells)[slot] as int));
        lemma_key_reaches_no_dict(cells, es[j].0, slot);
        lemma_content_under_update(cells, slot, CellView::Dict(fs), es[j].0);
    }
    let at = if has_key(cells, es, key) {
        key_index(cells, es, key)
    } else {
        es.len() as int
    };
    if has_key(cells, es, key) {
        assert(first_match(cells, es, key, at));
        assert(fs[at].0 == es[at].0);
        assert forall|j: int| 0 <= j < at implies !key_eq(after, (#[trigger] fs[j]).0, key) by {
            assert(fs[j] == es[j]);
            assert(!key_eq(cells, es[j].0, key));
        }
    } else {
        lemma_tree_eq_reflexive(content(after, key));
        assert forall|j: int| 0 <= j < at implies !key_eq(after, (#[trigger] fs[j]).0, key) by {
            assert(fs[j] == es[j]);
            if key_eq(cells, es[j].0, key) {
                lemma_some_match_has_first(cells, es, key, j);
            }
        }
    }
    assert(first_match(after, fs, key, at));
    lemma_first_match_unique(after, fs, key, at);
}

/// Where some entry has the key, some entry is the first with it.
pub proof fn lemma_some_match_has_first(
    cells: Seq<CellView>,
    es: Seq<(StackObject, StackObject)>,
    key: StackObject,
    j: int,
)
    requires
        0 <= j < es.len(),
        key_eq(cells, es[j].0, key),
    ensures
        has_key(cells, es, key),
    decreases j,
{
    if forall|t: int| 0 <= t < j ==> !key_eq(cells, (#[trigger] es[t]).0, key) {
        assert(first_match(cells, es, key, j));
    } else {
        let t = choose|t: int| 0 <= t < j && key_eq(cells, (#[trigger] es[t]).0, key);
        lemma_some_match_has_first(cells, es, key, t);
    }
}

/// The keys of the map in `slot` compare in the same way after the cell in
/// `slot` was rewritten: a key rests on no map.
pub proof fn lemma_keys_compare_alike(
    cells: Seq<CellView>,
    slot: int,
    written: CellView,
    a: StackObject,
    b: StackObject,
)
    requires
        heap_wf(cells),
        heap_wf(cells.update(slot, written)),
        0 <= slot < cells.len(),
        cells[slot] is Dict,
        a.hashable(),
        b.hashable(),
        holds(cells, a),
        holds(cells, b),
    ensures
        key_eq(cells.update(slot, written), a, b) == key_eq(cells, a, b),
{
    lemma_key_reaches_no_dict(cells, a, slot);
    lemma_key_reaches_no_dict(cells, b, slot);
    lemma_content_under_update(cells, slot, written, a);
    lemma_content_under_update(cells, slot, written, b);
}

/// A map whose keys are pairwise unequal keeps them so when a key is given
/// a value.
pub proof fn lemma_insert_keeps_distinct(
    cells: Seq<CellView>,
    slot: int,
    key: StackObject,
    value: StackObject,
)
    requires
        heap_wf(cells),
        0 <= slot < cells.len(),
        cells[slot] is Dict,
        key.hashable(),
        holds(cells, key),
        heap_wf(
            cells.update(
                slot,
                CellView::Dict(entries_with(cells, cells[slot]->Dict_0, key, value)),
            ),
        ),
        distinct_keys(cells, cells[slot]->Dict_0),
    ensures
        distinct_keys(
            cells.update(
                slot,
                CellView::Dict(entries_with(cells, cells[slot]->Dict_0, key, value)),
            ),
            entries_with(cells, cells[slot]->Dict_0, key, value),
        ),
{
    let es = cells[slot]->Dict_0;
    let fs = entries_with(cells, es, key, value);
    let written = CellView::Dict(fs);
    let after = cells.update(slot, written);
    assert(crate::store::payload_ranked(
        cells,
        ranks_of(cells),
        cells[slot],
        ranks_of(cells)[slot] as int,
    ));
    assert forall|i: int, j: int| 0 <= i < j < fs.len() implies !key_eq(
        after,
        (#[trigger] fs[i]).0,
        (#[trigger] fs[j]).0,
    ) by {
        assert(es[i].0.hashable() && holds(cells, es[i].0));
        if j < es.len() {
            assert(es[j].0.hashable() && holds(cells, es[j].0));
            assert(fs[i].0 == es[i].0 && fs[j].0 == es[j].0);
            lemma_keys_compare_alike(cells, slot, written, es[i].0, es[j].0);
        } else {
            assert(!has_key(cells, es, key));
            assert(fs[i].0 == es[i].0 && fs[j].0 == key);
            if key_eq(cells, es[i].0, key) {
                lemma_some_match_has_first(cells, es, key, i);
            }
            lemma_keys_compare_alike(cells, slot, written, es[i].0, key);
        }
    }
}

/// A map whose keys are pairwise unequal keeps them so when the entry of a
/// key is taken out, and then holds nothing under that key.
pub proof fn lemma_remove_keeps_distinct(cells: Seq<CellView>, slot: int, key: StackObject, i: int)
    requires
        heap_wf(cells),
        0 <= slot < cells.len(),
        cells[slot] is Dict,
        key.hashable(),
        holds(cells, key),
        first_match(cells, cells[slot]->Dict_0, key, i),
        heap_wf(cells.update(slot, CellView::Dict(cells[slot]->Dict_0.remove(i)))),
        distinct_keys(cells, cells[slot]->Dict_0),
    ensures
        distinct_keys(
            cells.update(slot, CellView::Dict(cells[slot]->Dict_0.remove(i))),
            cells[slot]->Dict_0.remove(i),
        ),
        lookup(cells.update(slot, CellView::Dict(cells[slot]->Dict_0.remove(i))), slot, key)
            is None,
{
    let es = cells[slot]->Dict_0;
    let fs = es.remove(i);
    let written = CellView::Dict(fs);
    let after = cells.update(slot, written);
    assert(crate::store::payload_ranked(
        cells,
        ranks_of(cells),
        cells[slot],
        ranks_of(cells)[slot] as int,
    ));
    assert forall|a: int| 0 <= a < fs.len() implies (#[trigger] fs[a]) == es[if a < i {
        a
    } else {
        a + 1
    }] by {}
    assert forall|a: int, b: int| 0 <= a < b < fs.len() implies !key_eq(
        after,
        (#[trigger] fs[a]).0,
        (#[trigger] fs[b]).0,
    ) by {
        let a0 = if a < i { a } else { a + 1 };
        let b0 = if b < i { b } else { b + 1 };
        assert(es[a0].0.hashable() && holds(cells, es[a0].0));
        assert(es[b0].0.hashable() && holds(cells, es[b0].0));
        lemma_keys_compare_alike(cells, slot, written, es[a0].0, es[b0].0);
    }
    assert forall|t: int| !first_match(after, fs, key, t) by {
        if 0 <= t < fs.len() {
            let t0 = if t < i { t } else { t + 1 };
            assert(es[t0].0.hashable() && holds(cells, es[t0].0));
            assert(es[i].0.hashable() && holds(cells, es[i].0));
            lemma_keys_compare_alike(cells, slot, written, es[t0].0, key);
            if key_eq(cells, es[t0].0, key) {
                if t0 < i {
                    assert(!key_eq(cells, es[t0].0, key));
                } else {
                    lemma_equal_keys_meet(cells, es[i].0, es[t0].0, key);
                }
            }
        }
    }
}

/// Two keys that both equal a third equal each other.
pub proof fn lemma_equal_keys_meet(cells: Seq<CellView>, a: StackObject, b: StackObject, key: StackObject)
    requires
        a.hashable(),
        b.hashable(),
        key.hashable(),
        key_eq(cells, a, key),
        key_eq(cells, b, key),
    ensures
        key_eq(cells, a, b),
{
}

} // verus!
