//! What holds between aliases, deep copies and the cells they rest on.

use vstd::prelude::*;
use crate::containers::{distinct_keys, entries_with, key_eq, lemma_lookup_after_insert, lookup};
use crate::equality::{lemma_tree_eq_reflexive, tree_eq};
use crate::object::StackObject;
use crate::containers::lemma_content_under_update;
use crate::store::{
    agree_from, content, heap_wf, holds, isolated, lemma_dict_content, reaches, same_kind, CellView,
};

verus! {

/// A value and its alias are equal, and stay equal whatever is written to
/// the store: both have the content of one cell.
pub proof fn lemma_alias_equal(cells: Seq<CellView>, v: StackObject, twin: StackObject)
    requires
        twin == v,
    ensures
        tree_eq(content(cells, v), content(cells, twin)),
{
    lemma_tree_eq_reflexive(content(cells, v));
}

/// What is inserted into a map through one value is found through its
/// alias.
pub proof fn lemma_alias_sees_insert(
    cells: Seq<CellView>,
    m: StackObject,
    twin: StackObject,
    key: StackObject,
    value: StackObject,
)
    requires
        heap_wf(cells),
        holds(cells, m),
        m is HashMap,
        twin == m,
        key.hashable(),
        holds(cells, key),
        heap_wf(
            cells.update(
                m->HashMap_0 as int,
                CellView::Dict(
                    entries_with(cells, cells[m->HashMap_0 as int]->Dict_0, key, value),
                ),
            ),
        ),
    ensures
        lookup(
            cells.update(
                m->HashMap_0 as int,
                CellView::Dict(
                    entries_with(cells, cells[m->HashMap_0 as int]->Dict_0, key, value),
                ),
            ),
            twin->HashMap_0 as int,
            key,
        ) == Some(value),
{
    lemma_lookup_after_insert(cells, m->HashMap_0 as int, key, value);
}

/// A value that rests on the cells from `lo` on, as a deep copy does on the
/// cells made for it, keeps its content whatever is written to an older
/// cell, as long as the store stays well-formed.
pub proof fn lemma_copy_unmoved_by_original(
    cells: Seq<CellView>,
    copy: StackObject,
    lo: int,
    slot: int,
    written: CellView,
)
    requires
        isolated(cells, copy, lo),
        0 <= slot < lo,
        slot < cells.len(),
        heap_wf(cells.update(slot, written)),
    ensures
        content(cells.update(slot, written), copy) == content(cells, copy),
{
    assert(agree_from(cells, cells.update(slot, written), lo));
}

/// A value of the store keeps its content whatever is written to a cell
/// that cannot be reached from it, as the cells of a later deep copy cannot.
pub proof fn lemma_original_unmoved_by_copy(
    cells: Seq<CellView>,
    v: StackObject,
    slot: int,
    written: CellView,
)
    requires
        heap_wf(cells),
        heap_wf(cells.update(slot, written)),
        holds(cells, v),
        0 <= slot < cells.len(),
        !reaches(cells, v, slot),
    ensures
        content(cells.update(slot, written), v) == content(cells, v),
{
    lemma_content_under_update(cells, slot, written, v);
}

/// A value stays usable, with its variant and its cell's kind, when a cell
/// is rewritten in its own kind.
pub proof fn lemma_value_outlives_write(
    cells: Seq<CellView>,
    v: StackObject,
    slot: int,
    written: CellView,
)
    requires
        holds(cells, v),
        0 <= slot < cells.len(),
        same_kind(cells[slot], written),
    ensures
        holds(cells.update(slot, written), v),
{
}

/// Two values with the same content are equal, wherever their cells lie.
pub proof fn lemma_same_content_equal(cells: Seq<CellView>, a: StackObject, b: StackObject)
    requires
        content(cells, a) == content(cells, b),
    ensures
        tree_eq(content(cells, a), content(cells, b)),
{
    lemma_tree_eq_reflexive(content(cells, a));
}

/// No map of a well-formed store holds a key that has no hash code: every
/// key is an integer, a boolean or a text.
pub proof fn lemma_map_keys_hashable(cells: Seq<CellView>, slot: usize, k: int)
    requires
        heap_wf(cells),
        slot < cells.len(),
        cells[slot as int] is Dict,
        0 <= k < cells[slot as int]->Dict_0.len(),
    ensures
        cells[slot as int]->Dict_0[k].0.hashable(),
        holds(cells, cells[slot as int]->Dict_0[k].0),
{
    lemma_dict_content(cells, slot);
    assert(cells[slot as int]->Dict_0[k].0.hashable());
}

/// The keys of a map stay pairwise unequal whatever is written to a cell
/// that is none of its keys' cells.
pub proof fn lemma_keys_unmoved_by_other_writes(
    cells: Seq<CellView>,
    slot: usize,
    target: int,
    written: CellView,
)
    requires
        heap_wf(cells),
        heap_wf(cells.update(target, written)),
        slot < cells.len(),
        cells[slot as int] is Dict,
        0 <= target < cells.len(),
        forall|k: int|
            0 <= k < cells[slot as int]->Dict_0.len() ==> !reaches(
                cells,
                (#[trigger] cells[slot as int]->Dict_0[k]).0,
                target,
            ),
        distinct_keys(cells, cells[slot as int]->Dict_0),
    ensures
        distinct_keys(cells.update(target, written), cells[slot as int]->Dict_0),
{
    let es = cells[slot as int]->Dict_0;
    let after = cells.update(target, written);
    lemma_dict_content(cells, slot);
    assert forall|i: int, j: int| 0 <= i < j < es.len() implies !key_eq(
        after,
        (#[trigger] es[i]).0,
        (#[trigger] es[j]).0,
    ) by {
        assert(holds(cells, es[i].0) && holds(cells, es[j].0));
        lemma_content_under_update(cells, target, written, es[i].0);
        lemma_content_under_update(cells, target, written, es[j].0);
    }
}

} // verus!
