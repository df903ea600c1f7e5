//! Making values, and the deep copy.

use vstd::prelude::*;
use crate::containers::distinct_keys;
use crate::equality::tree_eq;
use crate::object::StackObject;
use crate::store::{
    agree_from, content, grown, heap_wf, holds, isolated, lemma_content_grown, lemma_dict_content,
    lemma_isolated_grown, lemma_list_content, payload_holds, CellView, Heap, Kind, Payload,
};

verus! {

/// A native datum on its way into a value.
pub enum Native {
    Integer(i64),
    Boolean(bool),
    Text(String),
    List(Vec<StackObject>),
    Dict(Vec<(StackObject, StackObject)>),
}

impl Native {
    /// The cell that a compound datum fills; for a primitive, an empty text.
    pub open spec fn cell(self) -> CellView {
        match self {
            Native::Text(s) => CellView::Text(s@),
            Native::List(xs) => CellView::List(xs@),
            Native::Dict(es) => CellView::Dict(es@),
            _ => CellView::Text(Seq::empty()),
        }
    }

    pub open spec fn is_primitive(self) -> bool {
        self is Integer || self is Boolean
    }
}

impl StackObject {
    /// The value of a native datum. A primitive leaves the store as it is; a
    /// compound datum fills a new cell behind the others. The values inside a
    /// list or a map are stored as they are given, by their handles.
    pub fn make_from(object: Native, heap: &mut Heap) -> (r: StackObject)
        requires
            old(heap).wf(),
            payload_holds(old(heap)@, object.cell()),
            object is Dict ==> distinct_keys(old(heap)@, object->Dict_0@),
        ensures
            object is Dict ==> distinct_keys(final(heap)@, object->Dict_0@),
            final(heap).wf(),
            holds(final(heap)@, r),
            object.is_primitive() ==> final(heap)@ == old(heap)@,
            !object.is_primitive() ==> final(heap)@ == old(heap)@.push(object.cell()),
            r == (match object {
                Native::Integer(x) => StackObject::Integer(x),
                Native::Boolean(b) => StackObject::Boolean(b),
                Native::Text(_) => StackObject::String(old(heap)@.len() as usize),
                Native::List(_) => StackObject::Vector(old(heap)@.len() as usize),
                Native::Dict(_) => StackObject::HashMap(old(heap)@.len() as usize),
            }),
    {
        match object {
            Native::Integer(x) => StackObject::Integer(x),
            Native::Boolean(b) => StackObject::Boolean(b),
            Native::Text(s) => StackObject::String(heap.place(Payload::Text(s))),
            Native::List(xs) => StackObject::Vector(heap.place(Payload::List(xs))),
            Native::Dict(es) => {
                let ghost entries = es@;
                let slot = heap.place(Payload::Dict(es));
                proof {
                    assert forall|i: int, j: int| 0 <= i < j < entries.len() implies !tree_eq(
                        content(heap@, (#[trigger] entries[i]).0),
                        content(heap@, (#[trigger] entries[j]).0),
                    ) by {
                        lemma_content_grown(old(heap)@, heap@, entries[i].0);
                        lemma_content_grown(old(heap)@, heap@, entries[j].0);
                    }
                }
                StackObject::HashMap(slot)
            },
        }
    }

    /// The empty value of a kind: 0, `false`, the empty text, list or map.
    pub fn make(kind: Kind, heap: &mut Heap) -> (r: StackObject)
        requires
            old(heap).wf(),
        ensures
            final(heap).wf(),
            holds(final(heap)@, r),
            r == (match kind {
                Kind::Integer => StackObject::Integer(0),
                Kind::Boolean => StackObject::Boolean(false),
                Kind::Text => StackObject::String(old(heap)@.len() as usize),
                Kind::List => StackObject::Vector(old(heap)@.len() as usize),
                Kind::Dict => StackObject::HashMap(old(heap)@.len() as usize),
            }),
            final(heap)@ == (match kind {
                Kind::Integer => old(heap)@,
                Kind::Boolean => old(heap)@,
                Kind::Text => old(heap)@.push(CellView::Text(Seq::empty())),
                Kind::List => old(heap)@.push(CellView::List(Seq::empty())),
                Kind::Dict => old(heap)@.push(CellView::Dict(Seq::empty())),
            }),
    {
        match kind {
            Kind::Integer => StackObject::make_from(Native::Integer(0), heap),
            Kind::Boolean => StackObject::make_from(Native::Boolean(false), heap),
            Kind::Text => StackObject::make_from(Native::Text(String::new()), heap),
            Kind::List => StackObject::make_from(Native::List(Vec::new()), heap),
            Kind::Dict => StackObject::make_from(Native::Dict(Vec::new()), heap),
        }
    }

    /// The deep copy. A primitive is copied; a compound value gets a new cell
    /// with a copy of what the old one holds, and so does every compound
    /// value under it. The copy has the content of the original, and rests
    /// on the new cells alone: nothing written to an older cell shows in it.
    pub fn deep_clone(&self, heap: &mut Heap) -> (r: StackObject)
        requires
            old(heap).wf(),
            holds(old(heap)@, *self),
        ensures
            final(heap).wf(),
            grown(old(heap)@, final(heap)@),
            holds(final(heap)@, r),
            content(final(heap)@, r) == content(old(heap)@, *self),
            isolated(final(heap)@, r, old(heap)@.len() as int),
            self.rank() == 0 ==> r == *self && final(heap)@ == old(heap)@,
            self.rank() > 0 ==> r.rank() == final(heap)@.len() > old(heap)@.len(),
            self is HashMap && distinct_keys(
                old(heap)@,
                old(heap)@[self->HashMap_0 as int]->Dict_0,
            ) ==> distinct_keys(final(heap)@, final(heap)@[r->HashMap_0 as int]->Dict_0),
        decreases content(old(heap)@, *self),
    {
        let ghost start = heap@;
        match self {
            StackObject::Integer(x) => StackObject::Integer(*x),
            StackObject::Boolean(b) => StackObject::Boolean(*b),
            StackObject::String(h) => {
                let copy = heap.text(*h).clone();
                let slot = heap.place(Payload::Text(copy));
                let r = StackObject::String(slot);
                proof {
                    assert forall|other: Seq<CellView>| #[trigger]
                        agree_from(heap@, other, start.len() as int) && heap_wf(
                            other,
                        ) implies content(other, r) == content(heap@, r) by {
                        assert(other[slot as int] == heap@[slot as int]);
                    }
                }
                r
            },
            StackObject::Vector(h) => {
                let n = heap.list(*h).len();
                let ghost xs = start[*h as int]->List_0;
                let mut copy: Vec<StackObject> = Vec::new();
                let mut k: usize = 0;
                while k < n
                    invariant
                        heap.wf(),
                        start == old(heap)@,
                        grown(start, heap@),
                        *h < start.len(),
                        start[*h as int] == CellView::List(xs),
                        *self == StackObject::Vector(*h),
                        heap_wf(start),
                        n == xs.len(),
                        k <= n,
                        copy@.len() == k,
                        forall|t: int|
                            0 <= t < k ==> holds(heap@, #[trigger] copy@[t]) && content(
                                heap@,
                                copy@[t],
                            ) == content(start, xs[t]) && isolated(
                                heap@,
                                copy@[t],
                                start.len() as int,
                            ),
                    decreases n - k,
                {
                    let ghost before = heap@;
                    assert(heap@[*h as int] == start[*h as int]);
                    let item = heap.list(*h)[k].ref_clone();
                    assert(item == xs[k as int]);
                    proof {
                        lemma_list_content(start, *h);
                        assert(holds(start, xs[k as int]));
                        lemma_content_grown(start, before, item);
                        assert(content(before, item) == content(start, *self)->List_0[k as int]);
                    }
                    let c = item.deep_clone(heap);
                    proof {
                        lemma_isolated_grown(heap@, heap@, c, before.len() as int, start.len() as int);
                        assert forall|t: int| 0 <= t < k implies holds(heap@, #[trigger] copy@[t])
                            && content(heap@, copy@[t]) == content(start, xs[t]) && isolated(
                            heap@,
                            copy@[t],
                            start.len() as int,
                        ) by {
                            lemma_content_grown(before, heap@, copy@[t]);
                            lemma_isolated_grown(
                                before,
                                heap@,
                                copy@[t],
                                start.len() as int,
                                start.len() as int,
                            );
                        }
                        assert forall|i: int| 0 <= i < start.len() implies #[trigger] heap@[i]
                            == start[i] by {
                            assert(before[i] == start[i]);
                        }
                    }
                    copy.push(c);
                    k = k + 1;
                }
                let ghost filled = heap@;
                let ghost ys = copy@;
                let slot = heap.place(Payload::List(copy));
                let r = StackObject::Vector(slot);
                proof {
                    lemma_list_content(start, *h);
                    lemma_list_content(heap@, slot);
                    assert forall|t: int| 0 <= t < n implies content(heap@, #[trigger] ys[t])
                        == content(start, xs[t]) && isolated(heap@, ys[t], start.len() as int) by {
                        lemma_isolated_grown(
                            filled,
                            heap@,
                            ys[t],
                            start.len() as int,
                            start.len() as int,
                        );
                    }
                    assert(content(heap@, r)->List_0 =~= content(start, *self)->List_0);
                    assert forall|other: Seq<CellView>| #[trigger]
                        agree_from(heap@, other, start.len() as int) && heap_wf(
                            other,
                        ) implies content(other, r) == content(heap@, r) by {
                        assert(other[slot as int] == heap@[slot as int]);
                        lemma_list_content(other, slot);
                        assert(content(other, r)->List_0 =~= content(heap@, r)->List_0);
                    }
                }
                r
            },
            StackObject::HashMap(h) => {
                let n = heap.dict(*h).len();
                let ghost es = start[*h as int]->Dict_0;
                let mut copy: Vec<(StackObject, StackObject)> = Vec::new();
                let mut k: usize = 0;
                while k < n
                    invariant
                        heap.wf(),
                        start == old(heap)@,
                        grown(start, heap@),
                        *h < start.len(),
                        start[*h as int] == CellView::Dict(es),
                        *self == StackObject::HashMap(*h),
                        heap_wf(start),
                        n == es.len(),
                        k <= n,
                        copy@.len() == k,
                        forall|t: int|
                            0 <= t < k ==> (#[trigger] copy@[t]).0.hashable() && holds(
                                heap@,
                                copy@[t].0,
                            ) && holds(heap@, copy@[t].1) && content(heap@, copy@[t].0) == content(start, es[t].0) && content(
                                heap@,
                                copy@[t].1,
                            ) == content(start, es[t].1) && isolated(
                                heap@,
                                copy@[t].0,
                                start.len() as int,
                            ) && isolated(heap@, copy@[t].1, start.len() as int),
                    decreases n - k,
                {
                    let ghost before = heap@;
                    assert(heap@[*h as int] == start[*h as int]);
                    let key = heap.dict(*h)[k].0.ref_clone();
                    let value = heap.dict(*h)[k].1.ref_clone();
                    assert(key == es[k as int].0 && value == es[k as int].1);
                    proof {
                        lemma_dict_content(start, *h);
                        assert(es[k as int].0.hashable());
                        assert(holds(start, es[k as int].0) && holds(start, es[k as int].1));
                        lemma_content_grown(start, before, key);
                        lemma_content_grown(start, before, value);
                        assert(content(before, key) == content(start, *self)->Dict_0[k as int].0);
                        assert(content(before, value) == content(start, *self)->Dict_0[k as int].1);
                    }
                    let ck = key.deep_clone(heap);
                    let ghost middle = heap@;
                    proof {
                        lemma_content_grown(before, middle, value);
                        assert(content(middle, value) == content(start, *self)->Dict_0[k as int].1);
                        lemma_isolated_grown(middle, middle, ck, before.len() as int, start.len() as int);
                    }
                    let cv = value.deep_clone(heap);
                    proof {
                        lemma_isolated_grown(heap@, heap@, cv, middle.len() as int, start.len() as int);
                        lemma_content_grown(middle, heap@, ck);
                        lemma_isolated_grown(middle, heap@, ck, start.len() as int, start.len() as int);
                        assert forall|i: int| 0 <= i < before.len() implies #[trigger] heap@[i]
                            == before[i] by {
                            assert(middle[i] == before[i]);
                        }
                        assert forall|t: int| 0 <= t < k implies (
                        #[trigger] copy@[t]).0.hashable() && holds(heap@, copy@[t].0) && holds(
                            heap@,
                            copy@[t].1,
                        ) && content(heap@, copy@[t].0) == content(
                            start,
                            es[t].0,
                        ) && content(heap@, copy@[t].1) == content(start, es[t].1) && isolated(
                            heap@,
                            copy@[t].0,
                            start.len() as int,
                        ) && isolated(heap@, copy@[t].1, start.len() as int) by {
                            lemma_content_grown(before, heap@, copy@[t].0);
                            lemma_content_grown(before, heap@, copy@[t].1);
                            lemma_isolated_grown(
                                before,
                                heap@,
                                copy@[t].0,
                                start.len() as int,
                                start.len() as int,
                            );
                            lemma_isolated_grown(
                                before,
                                heap@,
                                copy@[t].1,
                                start.len() as int,
                                start.len() as int,
                            );
                        }
                        assert forall|i: int| 0 <= i < start.len() implies #[trigger] heap@[i]
                            == start[i] by {
                            assert(before[i] == start[i]);
                        }
                    }
                    copy.push((ck, cv));
                    k = k + 1;
                }
                let ghost filled = heap@;
                let ghost fs = copy@;
                let slot = heap.place(Payload::Dict(copy));
                let r = StackObject::HashMap(slot);
                proof {
                    lemma_dict_content(start, *h);
                    lemma_dict_content(heap@, slot);
                    assert forall|t: int| 0 <= t < n implies content(heap@, (#[trigger] fs[t]).0)
                        == content(start, es[t].0) && content(heap@, fs[t].1) == content(
                        start,
                        es[t].1,
                    ) && isolated(heap@, fs[t].0, start.len() as int) && isolated(
                        heap@,
                        fs[t].1,
                        start.len() as int,
                    ) by {
                        lemma_isolated_grown(
                            filled,
                            heap@,
                            fs[t].0,
                            start.len() as int,
                            start.len() as int,
                        );
                        lemma_isolated_grown(
                            filled,
                            heap@,
                            fs[t].1,
                            start.len() as int,
                            start.len() as int,
                        );
                    }
                    assert(content(heap@, r)->Dict_0 =~= content(start, *self)->Dict_0);
                    if distinct_keys(start, es) {
                        assert forall|i: int, j: int| 0 <= i < j < fs.len() implies !tree_eq(
                            content(heap@, (#[trigger] fs[i]).0),
                            content(heap@, (#[trigger] fs[j]).0),
                        ) by {
                            assert(content(heap@, fs[i].0) == content(start, es[i].0));
                            assert(content(heap@, fs[j].0) == content(start, es[j].0));
                            assert(!crate::containers::key_eq(start, es[i].0, es[j].0));
                        }
                    }
                    assert forall|other: Seq<CellView>| #[trigger]
                        agree_from(heap@, other, start.len() as int) && heap_wf(
                            other,
                        ) implies content(other, r) == content(heap@, r) by {
                        assert(other[slot as int] == heap@[slot as int]);
                        lemma_dict_content(other, slot);
                        assert(content(other, r)->Dict_0 =~= content(heap@, r)->Dict_0);
                    }
                }
                r
            },
        }
    }
}

} // verus!
