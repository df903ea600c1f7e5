//! The store of shared cells, and the deep content of a value in it.
//!
//! A compound value is a handle: the slot of a cell in a [`Heap`]. Values
//! with the same slot share the cell, so what is written through one shows
//! through the other. The store is borrowed for a read and borrowed mutably
//! for a write, so a write never meets another view of the same cell.
//!
//! Cycles are forbidden, and nothing else: a write is refused only where the
//! container could be reached from the value that it is to hold. A store is
//! well-formed when its cells can be given ranks that fall along every
//! handle; following handles therefore always ends, and the content of a
//! value is a finite tree. The keys of a map are integers, booleans and
//! texts. Cells are not reclaimed one by one: they live as long as the store.

use vstd::prelude::*;
use crate::object::{Handle, StackObject};

verus! {

/// What a cell holds.
pub enum Payload {
    Text(String),
    List(Vec<StackObject>),
    Dict(Vec<(StackObject, StackObject)>),
}

/// A cell as contracts see it.
pub enum CellView {
    Text(Seq<char>),
    List(Seq<StackObject>),
    Dict(Seq<(StackObject, StackObject)>),
}

impl View for Payload {
    type V = CellView;

    open spec fn view(&self) -> CellView {
        match *self {
            Payload::Text(s) => CellView::Text(s@),
            Payload::List(xs) => CellView::List(xs@),
            Payload::Dict(es) => CellView::Dict(es@),
        }
    }
}

/// The deep content of a value: what it holds once every handle under it
/// has been followed.
pub enum Tree {
    Integer(i64),
    Boolean(bool),
    Text(Seq<char>),
    List(Seq<Tree>),
    Dict(Seq<(Tree, Tree)>),
}

/// Whether `v` is a primitive, or a handle to a cell of the kind that its
/// variant names.
pub open spec fn holds(cells: Seq<CellView>, v: StackObject) -> bool {
    match v {
        StackObject::Integer(_) => true,
        StackObject::Boolean(_) => true,
        StackObject::HashMap(h) => h < cells.len() && cells[h as int] is Dict,
        StackObject::String(h) => h < cells.len() && cells[h as int] is Text,
        StackObject::Vector(h) => h < cells.len() && cells[h as int] is List,
    }
}

/// The rank of a value under the ranks `r` of the cells: 0 for a primitive,
/// one more than its cell's rank for a handle.
pub open spec fn rank_by(r: Seq<nat>, v: StackObject) -> nat {
    match v {
        StackObject::Integer(_) => 0,
        StackObject::Boolean(_) => 0,
        StackObject::HashMap(h) => if h < r.len() { r[h as int] + 1 } else { 0 },
        StackObject::String(h) => if h < r.len() { r[h as int] + 1 } else { 0 },
        StackObject::Vector(h) => if h < r.len() { r[h as int] + 1 } else { 0 },
    }
}

/// Whether `v` can be used with the cells and has a rank of at most `bound`.
pub open spec fn value_ranked(cells: Seq<CellView>, r: Seq<nat>, v: StackObject, bound: int) -> bool {
    holds(cells, v) && rank_by(r, v) <= bound
}

/// Whether every value in the cell view `c` has a rank of at most `bound`,
/// and every key is of a variant that can be hashed.
pub open spec fn payload_ranked(cells: Seq<CellView>, r: Seq<nat>, c: CellView, bound: int) -> bool {
    match c {
        CellView::Text(_) => true,
        CellView::List(xs) => forall|k: int|
            0 <= k < xs.len() ==> value_ranked(cells, r, #[trigger] xs[k], bound),
        CellView::Dict(es) => forall|k: int|
            0 <= k < es.len() ==> (#[trigger] es[k]).0.hashable() && value_ranked(
                cells,
                r,
                es[k].0,
                bound,
            ) && value_ranked(cells, r, es[k].1, bound),
    }
}

/// Whether the ranks `r` fall along every handle that a cell holds.
pub open spec fn valid_ranks(cells: Seq<CellView>, r: Seq<nat>) -> bool {
    r.len() == cells.len() && forall|i: int|
        0 <= i < cells.len() ==> payload_ranked(cells, r, #[trigger] cells[i], r[i] as int)
}

/// Some ranks that fall along every handle, where the cells have such ranks.
pub open spec fn ranks_of(cells: Seq<CellView>) -> Seq<nat> {
    choose|r: Seq<nat>| valid_ranks(cells, r)
}

/// The store's invariant: the cells can be ranked so that every cell lies
/// above the cells it refers to. No cell can then reach itself.
pub open spec fn heap_wf(cells: Seq<CellView>) -> bool {
    valid_ranks(cells, ranks_of(cells))
}

/// The rank of a value in a well-formed store.
pub open spec fn rank_in(cells: Seq<CellView>, v: StackObject) -> nat {
    rank_by(ranks_of(cells), v)
}

/// Whether `v` can be used with the cells and ranks at most `bound`.
pub open spec fn value_below(cells: Seq<CellView>, v: StackObject, bound: int) -> bool {
    value_ranked(cells, ranks_of(cells), v, bound)
}

/// Whether every value in the cell view `c` can be used with the cells, and
/// every key is of a variant that can be hashed.
pub open spec fn payload_holds(cells: Seq<CellView>, c: CellView) -> bool {
    match c {
        CellView::Text(_) => true,
        CellView::List(xs) => forall|k: int| 0 <= k < xs.len() ==> holds(cells, #[trigger] xs[k]),
        CellView::Dict(es) => forall|k: int|
            0 <= k < es.len() ==> (#[trigger] es[k]).0.hashable() && holds(cells, es[k].0)
                && holds(cells, es[k].1),
    }
}

/// The content of `v` in `cells`: the datum of a primitive, the characters
/// of a text, the contents of a list's elements in their order, the contents
/// of a map's entries. In a well-formed store every handle is followed; a
/// handle that the store cannot follow stands for an empty cell, and an
/// element that does not rank under its container for `false`.
pub open spec fn content(cells: Seq<CellView>, v: StackObject) -> Tree
    decreases rank_in(cells, v),
{
    match v {
        StackObject::Integer(x) => Tree::Integer(x),
        StackObject::Boolean(b) => Tree::Boolean(b),
        StackObject::String(h) => if h < cells.len() && cells[h as int] is Text {
            Tree::Text(cells[h as int]->Text_0)
        } else {
            Tree::Text(Seq::empty())
        },
        StackObject::Vector(h) => if h < cells.len() && cells[h as int] is List {
            let xs = cells[h as int]->List_0;
            Tree::List(
                Seq::new(
                    xs.len(),
                    |k: int|
                        if 0 <= k < xs.len() && rank_in(cells, xs[k]) < rank_in(cells, v) {
                            content(cells, xs[k])
                        } else {
                            Tree::Boolean(false)
                        },
                ),
            )
        } else {
            Tree::List(Seq::empty())
        },
        StackObject::HashMap(h) => if h < cells.len() && cells[h as int] is Dict {
            let es = cells[h as int]->Dict_0;
            Tree::Dict(
                Seq::new(
                    es.len(),
                    |k: int|
                        if 0 <= k < es.len() && rank_in(cells, es[k].0) < rank_in(cells, v)
                            && rank_in(cells, es[k].1) < rank_in(cells, v) {
                            (content(cells, es[k].0), content(cells, es[k].1))
                        } else {
                            (Tree::Boolean(false), Tree::Boolean(false))
                        },
                ),
            )
        } else {
            Tree::Dict(Seq::empty())
        },
    }
}

/// Whether the cell in slot `t` can be reached from `v`: it is the cell of
/// `v`, or can be reached from a value that the cell of `v` holds.
pub open spec fn reaches(cells: Seq<CellView>, v: StackObject, t: int) -> bool
    decreases rank_in(cells, v),
{
    match v {
        StackObject::Integer(_) => false,
        StackObject::Boolean(_) => false,
        StackObject::String(h) => h == t,
        StackObject::Vector(h) => h == t || (h < cells.len() && cells[h as int] is List && {
            let xs = cells[h as int]->List_0;
            exists|k: int|
                #![trigger xs[k]]
                0 <= k < xs.len() && rank_in(cells, xs[k]) < rank_in(cells, v) && reaches(
                    cells,
                    xs[k],
                    t,
                )
        }),
        StackObject::HashMap(h) => h == t || (h < cells.len() && cells[h as int] is Dict && {
            let es = cells[h as int]->Dict_0;
            exists|k: int|
                #![trigger es[k]]
                0 <= k < es.len() && rank_in(cells, es[k].0) < rank_in(cells, v) && rank_in(
                    cells,
                    es[k].1,
                ) < rank_in(cells, v) && (reaches(cells, es[k].0, t) || reaches(
                    cells,
                    es[k].1,
                    t,
                ))
        }),
    }
}

/// Whether two cell views are of one kind.
pub open spec fn same_kind(a: CellView, b: CellView) -> bool {
    (a is Text <==> b is Text) && (a is List <==> b is List) && (a is Dict <==> b is Dict)
}

/// The kinds of cell, and of value.
#[derive(Clone, Copy, Debug, PartialEq, Eq, Structural)]
pub enum Kind {
    Integer,
    Boolean,
    Text,
    List,
    Dict,
}

/// A store of shared cells. A cell is made once, keeps its slot and its kind,
/// and lives as long as the store.
pub struct Heap {
    cells: Vec<Payload>,
}

impl View for Heap {
    type V = Seq<CellView>;

    closed spec fn view(&self) -> Seq<CellView> {
        Seq::new(self.cells@.len(), |i: int| self.cells@[i]@)
    }
}

impl Heap {
    pub open spec fn wf(&self) -> bool {
        heap_wf(self@)
    }

    pub fn new() -> (r: Heap)
        ensures
            r@ == Seq::<CellView>::empty(),
            r.wf(),
    {
        let r = Heap { cells: Vec::new() };
        assert(r@ =~= Seq::<CellView>::empty());
        assert(valid_ranks(r@, Seq::<nat>::empty()));
        r
    }

    pub fn len(&self) -> (r: usize)
        ensures
            r == self@.len(),
    {
        self.cells.len()
    }

    /// The kind of the cell in `slot`, or `None` where the store has no such cell.
    pub fn kind(&self, slot: usize) -> (r: Option<Kind>)
        ensures
            slot >= self@.len() ==> r is None,
            slot < self@.len() ==> r == Some(
                match self@[slot as int] {
                    CellView::Text(_) => Kind::Text,
                    CellView::List(_) => Kind::List,
                    CellView::Dict(_) => Kind::Dict,
                },
            ),
    {
        if slot >= self.cells.len() {
            None
        } else {
            match &self.cells[slot] {
                Payload::Text(_) => Some(Kind::Text),
                Payload::List(_) => Some(Kind::List),
                Payload::Dict(_) => Some(Kind::Dict),
            }
        }
    }

    /// Puts a new cell behind the others and returns its slot.
    pub fn place(&mut self, payload: Payload) -> (r: usize)
        requires
            old(self).wf(),
            payload_holds(old(self)@, payload@),
        ensures
            final(self)@ == old(self)@.push(payload@),
            r == old(self)@.len(),
            final(self).wf(),
    {
        let r = self.cells.len();
        let ghost added = payload@;
        self.cells.push(payload);
        assert(self@ =~= old(self)@.push(added));
        proof {
            lemma_push_keeps_wf(old(self)@, added);
        }
        r
    }

    pub fn text(&self, slot: usize) -> (r: &String)
        requires
            slot < self@.len(),
            self@[slot as int] is Text,
        ensures
            r@ == self@[slot as int]->Text_0,
    {
        match &self.cells[slot] {
            Payload::Text(s) => s,
            _ => vstd::pervasive::unreached(),
        }
    }

    pub fn list(&self, slot: usize) -> (r: &Vec<StackObject>)
        requires
            slot < self@.len(),
            self@[slot as int] is List,
        ensures
            r@ == self@[slot as int]->List_0,
    {
        match &self.cells[slot] {
            Payload::List(xs) => xs,
            _ => vstd::pervasive::unreached(),
        }
    }

    pub fn dict(&self, slot: usize) -> (r: &Vec<(StackObject, StackObject)>)
        requires
            slot < self@.len(),
            self@[slot as int] is Dict,
        ensures
            r@ == self@[slot as int]->Dict_0,
    {
        match &self.cells[slot] {
            Payload::Dict(es) => es,
            _ => vstd::pervasive::unreached(),
        }
    }

    /// Writes `tail` behind the text behind `h`.
    pub fn text_append(&mut self, h: &Handle, tail: &str)
        requires
            old(self).wf(),
            h.slot < old(self)@.len(),
            old(self)@[h.slot as int] is Text,
        ensures
            final(self)@ == old(self)@.update(
                h.slot as int,
                CellView::Text(old(self)@[h.slot as int]->Text_0 + tail@),
            ),
            final(self).wf(),
    {
        let slot = h.slot;
        match &mut self.cells[slot] {
            Payload::Text(s) => {
                s.append(tail);
            },
            _ => {},
        }
        let ghost written = CellView::Text(old(self)@[slot as int]->Text_0 + tail@);
        assert(self@ =~= old(self)@.update(slot as int, written));
        proof {
            lemma_update_keeps_wf(old(self)@, ranks_of(old(self)@), slot as int, written);
        }
    }

    /// Writes `v` behind the list in `slot`.
    pub(crate) fn list_push_raw(&mut self, slot: usize, v: StackObject)
        requires
            old(self).wf(),
            slot < old(self)@.len(),
            old(self)@[slot as int] is List,
            holds(old(self)@, v),
            !reaches(old(self)@, v, slot as int),
        ensures
            final(self)@ == old(self)@.update(
                slot as int,
                CellView::List(old(self)@[slot as int]->List_0.push(v)),
            ),
            final(self).wf(),
    {
        match &mut self.cells[slot] {
            Payload::List(xs) => {
                xs.push(v);
            },
            _ => {},
        }
        let ghost before = old(self)@[slot as int]->List_0;
        let ghost written = CellView::List(before.push(v));
        assert(self@ =~= old(self)@.update(slot as int, written));
        proof {
            let r2 = lemma_rerank(old(self)@, ranks_of(old(self)@), v, slot as int);
            assert(payload_ranked(old(self)@, r2, old(self)@[slot as int], r2[slot as int] as int));
            assert forall|k: int| 0 <= k < before.push(v).len() implies value_ranked(
                old(self)@,
                r2,
                #[trigger] before.push(v)[k],
                r2[slot as int] as int,
            ) by {
                if k < before.len() {
                    assert(before.push(v)[k] == before[k]);
                }
            }
            lemma_update_keeps_wf(old(self)@, r2, slot as int, written);
        }
    }

    /// Writes the entry `(k, v)` behind the entries of the map in `slot`.
    pub(crate) fn dict_push_raw(&mut self, slot: usize, k: StackObject, v: StackObject)
        requires
            old(self).wf(),
            slot < old(self)@.len(),
            old(self)@[slot as int] is Dict,
            k.hashable(),
            holds(old(self)@, k),
            holds(old(self)@, v),
            !reaches(old(self)@, k, slot as int),
            !reaches(old(self)@, v, slot as int),
        ensures
            final(self)@ == old(self)@.update(
                slot as int,
                CellView::Dict(old(self)@[slot as int]->Dict_0.push((k, v))),
            ),
            final(self).wf(),
    {
        match &mut self.cells[slot] {
            Payload::Dict(es) => {
                es.push((k, v));
            },
            _ => {},
        }
        let ghost before = old(self)@[slot as int]->Dict_0;
        let ghost written = CellView::Dict(before.push((k, v)));
        assert(self@ =~= old(self)@.update(slot as int, written));
        proof {
            let r1 = lemma_rerank(old(self)@, ranks_of(old(self)@), k, slot as int);
            let r2 = lemma_rerank(old(self)@, r1, v, slot as int);
            assert(payload_ranked(old(self)@, r2, old(self)@[slot as int], r2[slot as int] as int));
            assert forall|t: int| 0 <= t < before.push((k, v)).len() implies (
            #[trigger] before.push((k, v))[t]).0.hashable() && value_ranked(
                old(self)@,
                r2,
                before.push((k, v))[t].0,
                r2[slot as int] as int,
            ) && value_ranked(
                old(self)@,
                r2,
                before.push((k, v))[t].1,
                r2[slot as int] as int,
            ) by {
                if t < before.len() {
                    assert(before.push((k, v))[t] == before[t]);
                }
            }
            lemma_update_keeps_wf(old(self)@, r2, slot as int, written);
        }
    }

    /// Replaces the value of entry `i` of the map in `slot` and returns the
    /// value that stood there.
    pub(crate) fn dict_set_raw(&mut self, slot: usize, i: usize, v: StackObject) -> (r: StackObject)
        requires
            old(self).wf(),
            slot < old(self)@.len(),
            old(self)@[slot as int] is Dict,
            i < old(self)@[slot as int]->Dict_0.len(),
            holds(old(self)@, v),
            !reaches(old(self)@, v, slot as int),
        ensures
            final(self)@ == old(self)@.update(
                slot as int,
                CellView::Dict(
                    old(self)@[slot as int]->Dict_0.update(
                        i as int,
                        (old(self)@[slot as int]->Dict_0[i as int].0, v),
                    ),
                ),
            ),
            r == old(self)@[slot as int]->Dict_0[i as int].1,
            final(self).wf(),
    {
        let mut held = v;
        match &mut self.cells[slot] {
            Payload::Dict(es) => {
                core::mem::swap(&mut es[i].1, &mut held);
            },
            _ => {},
        }
        let ghost before = old(self)@[slot as int]->Dict_0;
        let ghost after = before.update(i as int, (before[i as int].0, v));
        let ghost written = CellView::Dict(after);
        assert(self@ =~= old(self)@.update(slot as int, written));
        proof {
            let r2 = lemma_rerank(old(self)@, ranks_of(old(self)@), v, slot as int);
            assert(payload_ranked(old(self)@, r2, old(self)@[slot as int], r2[slot as int] as int));
            assert forall|t: int| 0 <= t < after.len() implies (#[trigger] after[t]).0.hashable()
                && value_ranked(old(self)@, r2, after[t].0, r2[slot as int] as int)
                && value_ranked(old(self)@, r2, after[t].1, r2[slot as int] as int) by {
                assert(before[t].0.hashable());
            }
            lemma_update_keeps_wf(old(self)@, r2, slot as int, written);
        }
        held
    }

    /// Takes entry `i` out of the map in `slot` and returns it; the entries
    /// behind it move up by one place.
    pub(crate) fn dict_remove_raw(&mut self, slot: usize, i: usize) -> (r: (
        StackObject,
        StackObject,
    ))
        requires
            old(self).wf(),
            slot < old(self)@.len(),
            old(self)@[slot as int] is Dict,
            i < old(self)@[slot as int]->Dict_0.len(),
        ensures
            final(self)@ == old(self)@.update(
                slot as int,
                CellView::Dict(old(self)@[slot as int]->Dict_0.remove(i as int)),
            ),
            r == old(self)@[slot as int]->Dict_0[i as int],
            final(self).wf(),
    {
        let mut taken = (StackObject::Boolean(false), StackObject::Boolean(false));
        match &mut self.cells[slot] {
            Payload::Dict(es) => {
                taken = es.remove(i);
            },
            _ => {},
        }
        let ghost before = old(self)@[slot as int]->Dict_0;
        let ghost after = before.remove(i as int);
        let ghost written = CellView::Dict(after);
        let ghost r0 = ranks_of(old(self)@);
        assert(self@ =~= old(self)@.update(slot as int, written));
        proof {
            assert(payload_ranked(old(self)@, r0, old(self)@[slot as int], r0[slot as int] as int));
            assert forall|k: int| 0 <= k < after.len() implies (#[trigger] after[k]).0.hashable()
                && value_ranked(old(self)@, r0, after[k].0, r0[slot as int] as int)
                && value_ranked(old(self)@, r0, after[k].1, r0[slot as int] as int) by {
                if k < i {
                    assert(after[k] == before[k]);
                } else {
                    assert(after[k] == before[k + 1]);
                }
            }
            lemma_update_keeps_wf(old(self)@, r0, slot as int, written);
        }
        taken
    }
}

/// A number above every rank.
pub open spec fn above(r: Seq<nat>) -> nat
    decreases r.len(),
{
    if r.len() == 0 {
        0
    } else if r.last() + 1 > above(r.drop_last()) {
        r.last() + 1
    } else {
        above(r.drop_last())
    }
}

/// Every rank lies under `above`.
pub proof fn lemma_above(r: Seq<nat>, i: int)
    requires
        0 <= i < r.len(),
    ensures
        r[i] < above(r),
    decreases r.len(),
{
    if i < r.len() - 1 {
        lemma_above(r.drop_last(), i);
    }
}

/// A new cell behind a well-formed store leaves it well-formed.
pub proof fn lemma_push_keeps_wf(cells: Seq<CellView>, added: CellView)
    requires
        heap_wf(cells),
        payload_holds(cells, added),
    ensures
        heap_wf(cells.push(added)),
{
    let r = ranks_of(cells);
    let after = cells.push(added);
    let r2 = r.push(above(r));
    assert forall|v: StackObject| holds(cells, v) implies holds(after, v) && rank_by(r2, v)
        == rank_by(r, v) && rank_by(r, v) <= above(r) by {
        match v {
            StackObject::Vector(h) => {
                assert(after[h as int] == cells[h as int]);
                lemma_above(r, h as int);
            },
            StackObject::HashMap(h) => {
                assert(after[h as int] == cells[h as int]);
                lemma_above(r, h as int);
            },
            StackObject::String(h) => {
                assert(after[h as int] == cells[h as int]);
                lemma_above(r, h as int);
            },
            _ => {},
        }
    }
    assert forall|i: int| 0 <= i < after.len() implies payload_ranked(
        after,
        r2,
        #[trigger] after[i],
        r2[i] as int,
    ) by {
        if i < cells.len() {
            assert(payload_ranked(cells, r, cells[i], r[i] as int));
        }
    }
    assert(valid_ranks(after, r2));
}

/// A cell rewritten in its own kind, with values that some ranking of the
/// store puts under it, leaves a well-formed store well-formed.
pub proof fn lemma_update_keeps_wf(cells: Seq<CellView>, r: Seq<nat>, slot: int, written: CellView)
    requires
        valid_ranks(cells, r),
        0 <= slot < cells.len(),
        same_kind(cells[slot], written),
        payload_ranked(cells, r, written, r[slot] as int),
    ensures
        heap_wf(cells.update(slot, written)),
{
    let after = cells.update(slot, written);
    assert forall|v: StackObject| holds(cells, v) implies holds(after, v) by {}
    assert forall|i: int| 0 <= i < after.len() implies payload_ranked(
        after,
        r,
        #[trigger] after[i],
        r[i] as int,
    ) by {
        assert(payload_ranked(cells, r, cells[i], r[i] as int));
    }
    assert(valid_ranks(after, r));
}

/// What can be reached from a value that a cell holds can be reached from
/// whatever reaches the cell.
pub proof fn lemma_reaches_step(cells: Seq<CellView>, v: StackObject, s: int, x: StackObject, d: int)
    requires
        heap_wf(cells),
        holds(cells, v),
        reaches(cells, v, s),
        0 <= s < cells.len(),
        inside(cells[s], x),
        reaches(cells, x, d),
    ensures
        reaches(cells, v, d),
    decreases rank_in(cells, v),
{
    let r = ranks_of(cells);
    match v {
        StackObject::Vector(h) => {
            assert(payload_ranked(cells, r, cells[h as int], r[h as int] as int));
            let xs = cells[h as int]->List_0;
            if h == s {
                let k = choose|k: int| 0 <= k < xs.len() && xs[k] == x;
                assert(value_ranked(cells, r, xs[k], r[h as int] as int));
                assert(reaches(cells, xs[k], d));
            } else {
                let k = choose|k: int|
                    #![trigger xs[k]]
                    0 <= k < xs.len() && rank_in(cells, xs[k]) < rank_in(cells, v) && reaches(
                        cells,
                        xs[k],
                        s,
                    );
                assert(value_ranked(cells, r, xs[k], r[h as int] as int));
                lemma_reaches_step(cells, xs[k], s, x, d);
                assert(reaches(cells, xs[k], d));
            }
        },
        StackObject::HashMap(h) => {
            assert(payload_ranked(cells, r, cells[h as int], r[h as int] as int));
            let es = cells[h as int]->Dict_0;
            if h == s {
                let k = choose|k: int| 0 <= k < es.len() && (es[k].0 == x || es[k].1 == x);
                assert(value_ranked(cells, r, es[k].0, r[h as int] as int));
                assert(reaches(cells, es[k].0, d) || reaches(cells, es[k].1, d));
            } else {
                let k = choose|k: int|
                    #![trigger es[k]]
                    0 <= k < es.len() && rank_in(cells, es[k].0) < rank_in(cells, v) && rank_in(
                        cells,
                        es[k].1,
                    ) < rank_in(cells, v) && (reaches(cells, es[k].0, s) || reaches(
                        cells,
                        es[k].1,
                        s,
                    ));
                assert(value_ranked(cells, r, es[k].0, r[h as int] as int));
                if reaches(cells, es[k].0, s) {
                    lemma_reaches_step(cells, es[k].0, s, x, d);
                } else {
                    lemma_reaches_step(cells, es[k].1, s, x, d);
                }
                assert(reaches(cells, es[k].0, d) || reaches(cells, es[k].1, d));
            }
        },
        StackObject::String(h) => {
            assert(cells[h as int] is Text);
        },
        _ => {},
    }
}

/// Whether the cell view `c` holds the value `x`, as an element, a key or a
/// value.
pub open spec fn inside(c: CellView, x: StackObject) -> bool {
    match c {
        CellView::Text(_) => false,
        CellView::List(xs) => exists|k: int| 0 <= k < xs.len() && xs[k] == x,
        CellView::Dict(es) => exists|k: int| 0 <= k < es.len() && (es[k].0 == x || es[k].1 == x),
    }
}

/// Where the cell in `slot` cannot be reached from `v`, the store has ranks
/// that put `v` under that cell, and with it all that `r` puts under it.
pub proof fn lemma_rerank(cells: Seq<CellView>, r: Seq<nat>, v: StackObject, slot: int) -> (r2: Seq<
    nat,
>)
    requires
        valid_ranks(cells, r),
        holds(cells, v),
        0 <= slot < cells.len(),
        !reaches(cells, v, slot),
    ensures
        valid_ranks(cells, r2),
        rank_by(r2, v) <= r2[slot],
        forall|x: StackObject|
            holds(cells, x) && rank_by(r, x) <= r[slot] ==> #[trigger] rank_by(r2, x) <= r2[slot],
{
    let lift = rank_by(r, v) + 1;
    let r2 = Seq::new(
        r.len(),
        |s: int|
            if r[s] >= r[slot] && !reaches(cells, v, s) {
                r[s] + lift
            } else {
                r[s]
            },
    );
    assert(heap_wf(cells));
    assert(r2[slot] == r[slot] + lift);
    assert forall|i: int, x: StackObject|
        0 <= i < cells.len() && holds(cells, x) && rank_by(r, x) <= r[i] && #[trigger] inside(
            cells[i],
            x,
        ) implies rank_by(r2, x) <= #[trigger] r2[i] by {
        match x {
            StackObject::Integer(_) => {},
            StackObject::Boolean(_) => {},
            _ => {
                let d: int = match x {
                    StackObject::Vector(h) => h as int,
                    StackObject::HashMap(h) => h as int,
                    StackObject::String(h) => h as int,
                    _ => 0,
                };
                assert(reaches(cells, x, d));
                if reaches(cells, v, i) {
                    lemma_reaches_step(cells, v, i, x, d);
                }
            },
        }
    }
    assert forall|i: int| 0 <= i < cells.len() implies payload_ranked(
        cells,
        r2,
        #[trigger] cells[i],
        r2[i] as int,
    ) by {
        assert(payload_ranked(cells, r, cells[i], r[i] as int));
        match cells[i] {
            CellView::List(xs) => {
                assert forall|k: int| 0 <= k < xs.len() implies value_ranked(
                    cells,
                    r2,
                    #[trigger] xs[k],
                    r2[i] as int,
                ) by {
                    assert(value_ranked(cells, r, xs[k], r[i] as int));
                    assert(inside(cells[i], xs[k]));
                }
            },
            CellView::Dict(es) => {
                assert forall|k: int| 0 <= k < es.len() implies (#[trigger] es[k]).0.hashable()
                    && value_ranked(cells, r2, es[k].0, r2[i] as int) && value_ranked(
                    cells,
                    r2,
                    es[k].1,
                    r2[i] as int,
                ) by {
                    assert(value_ranked(cells, r, es[k].0, r[i] as int));
                    assert(value_ranked(cells, r, es[k].1, r[i] as int));
                    assert(inside(cells[i], es[k].0));
                    assert(inside(cells[i], es[k].1));
                }
            },
            _ => {},
        }
    }
    match v {
        StackObject::Vector(h) => {
            assert(reaches(cells, v, h as int));
        },
        StackObject::HashMap(h) => {
            assert(reaches(cells, v, h as int));
        },
        StackObject::String(h) => {
            assert(reaches(cells, v, h as int));
        },
        _ => {},
    }
    assert forall|x: StackObject| holds(cells, x) && rank_by(r, x) <= r[slot] implies #[trigger] rank_by(
        r2,
        x,
    ) <= r2[slot] by {}
    r2
}

/// Whether `after` begins with the cells of `before`, unchanged.
pub open spec fn grown(before: Seq<CellView>, after: Seq<CellView>) -> bool {
    before.len() <= after.len() && forall|i: int|
        0 <= i < before.len() ==> #[trigger] after[i] == before[i]
}

/// Whether `c2` has, unchanged, every cell of `c1` that can be reached from
/// `v`.
pub open spec fn agree_under(c1: Seq<CellView>, c2: Seq<CellView>, v: StackObject) -> bool {
    forall|t: int|
        0 <= t < c1.len() && #[trigger] reaches(c1, v, t) ==> t < c2.len() && c2[t] == c1[t]
}

/// Whether `other` has every cell that `cells` has from slot `lo` on.
pub open spec fn agree_from(cells: Seq<CellView>, other: Seq<CellView>, lo: int) -> bool {
    cells.len() <= other.len() && forall|i: int|
        lo <= i < cells.len() ==> #[trigger] other[i] == cells[i]
}

/// Whether the content of `v` rests on the cells from slot `lo` on alone:
/// whatever the cells under `lo` hold in a well-formed store, the content of
/// `v` is the same.
pub open spec fn isolated(cells: Seq<CellView>, v: StackObject, lo: int) -> bool {
    forall|other: Seq<CellView>| #[trigger]
        agree_from(cells, other, lo) && heap_wf(other) ==> content(other, v) == content(cells, v)
}

/// The content of a list is the contents of its elements, place by place.
pub proof fn lemma_list_content(cells: Seq<CellView>, p: usize)
    requires
        heap_wf(cells),
        p < cells.len(),
        cells[p as int] is List,
    ensures
        content(cells, StackObject::Vector(p)) is List,
        content(cells, StackObject::Vector(p))->List_0.len() == cells[p as int]->List_0.len(),
        forall|k: int|
            0 <= k < cells[p as int]->List_0.len() ==> (#[trigger] content(
                cells,
                StackObject::Vector(p),
            )->List_0[k]) == content(cells, cells[p as int]->List_0[k]),
        forall|k: int|
            0 <= k < cells[p as int]->List_0.len() ==> value_below(
                cells,
                #[trigger] cells[p as int]->List_0[k],
                ranks_of(cells)[p as int] as int,
            ),
{
    let xs = cells[p as int]->List_0;
    let r = ranks_of(cells);
    assert(payload_ranked(cells, r, cells[p as int], r[p as int] as int));
    assert forall|k: int| 0 <= k < xs.len() implies (#[trigger] content(
        cells,
        StackObject::Vector(p),
    )->List_0[k]) == content(cells, xs[k]) by {
        assert(value_ranked(cells, r, xs[k], r[p as int] as int));
    }
}

/// The content of a map is the contents of its entries, place by place.
pub proof fn lemma_dict_content(cells: Seq<CellView>, p: usize)
    requires
        heap_wf(cells),
        p < cells.len(),
        cells[p as int] is Dict,
    ensures
        content(cells, StackObject::HashMap(p)) is Dict,
        content(cells, StackObject::HashMap(p))->Dict_0.len() == cells[p as int]->Dict_0.len(),
        forall|k: int|
            0 <= k < cells[p as int]->Dict_0.len() ==> (#[trigger] content(
                cells,
                StackObject::HashMap(p),
            )->Dict_0[k]) == (
                content(cells, cells[p as int]->Dict_0[k].0),
                content(cells, cells[p as int]->Dict_0[k].1),
            ),
        forall|k: int|
            0 <= k < cells[p as int]->Dict_0.len() ==> (
            #[trigger] cells[p as int]->Dict_0[k]).0.hashable() && value_below(
                cells,
                cells[p as int]->Dict_0[k].0,
                ranks_of(cells)[p as int] as int,
            ) && value_below(
                cells,
                cells[p as int]->Dict_0[k].1,
                ranks_of(cells)[p as int] as int,
            ),
{
    let es = cells[p as int]->Dict_0;
    let r = ranks_of(cells);
    assert(payload_ranked(cells, r, cells[p as int], r[p as int] as int));
    assert forall|k: int| 0 <= k < es.len() implies (#[trigger] content(
        cells,
        StackObject::HashMap(p),
    )->Dict_0[k]) == (content(cells, es[k].0), content(cells, es[k].1)) by {
        assert(value_ranked(cells, r, es[k].0, r[p as int] as int));
        assert(value_ranked(cells, r, es[k].1, r[p as int] as int));
    }
}

/// The content of a value rests on the cells that can be reached from it
/// alone.
pub proof fn lemma_content_frame(c1: Seq<CellView>, c2: Seq<CellView>, v: StackObject)
    requires
        heap_wf(c1),
        heap_wf(c2),
        holds(c1, v),
        agree_under(c1, c2, v),
    ensures
        content(c1, v) == content(c2, v),
        holds(c2, v),
    decreases rank_in(c1, v),
{
    match v {
        StackObject::Vector(h) => {
            assert(reaches(c1, v, h as int));
            lemma_list_content(c1, h);
            lemma_list_content(c2, h);
            let xs = c1[h as int]->List_0;
            assert forall|k: int| 0 <= k < xs.len() implies content(c1, #[trigger] xs[k])
                == content(c2, xs[k]) by {
                assert(value_below(c1, xs[k], ranks_of(c1)[h as int] as int));
                assert forall|t: int| 0 <= t < c1.len() && #[trigger] reaches(
                    c1,
                    xs[k],
                    t,
                ) implies t < c2.len() && c2[t] == c1[t] by {
                    assert(reaches(c1, v, t));
                }
                lemma_content_frame(c1, c2, xs[k]);
            }
            assert(content(c1, v)->List_0 =~= content(c2, v)->List_0);
        },
        StackObject::HashMap(h) => {
            assert(reaches(c1, v, h as int));
            lemma_dict_content(c1, h);
            lemma_dict_content(c2, h);
            let es = c1[h as int]->Dict_0;
            assert forall|k: int| 0 <= k < es.len() implies content(c1, (#[trigger] es[k]).0)
                == content(c2, es[k].0) && content(c1, es[k].1) == content(c2, es[k].1) by {
                assert(value_below(c1, es[k].0, ranks_of(c1)[h as int] as int));
                assert(value_below(c1, es[k].1, ranks_of(c1)[h as int] as int));
                assert forall|t: int| 0 <= t < c1.len() && #[trigger] reaches(
                    c1,
                    es[k].0,
                    t,
                ) implies t < c2.len() && c2[t] == c1[t] by {
                    assert(reaches(c1, v, t));
                }
                assert forall|t: int| 0 <= t < c1.len() && #[trigger] reaches(
                    c1,
                    es[k].1,
                    t,
                ) implies t < c2.len() && c2[t] == c1[t] by {
                    assert(reaches(c1, v, t));
                }
                lemma_content_frame(c1, c2, es[k].0);
                lemma_content_frame(c1, c2, es[k].1);
            }
            assert(content(c1, v)->Dict_0 =~= content(c2, v)->Dict_0);
        },
        StackObject::String(h) => {
            assert(reaches(c1, v, h as int));
        },
        _ => {},
    }
}

/// A value of a store keeps its content when the store grows.
pub proof fn lemma_content_grown(before: Seq<CellView>, after: Seq<CellView>, v: StackObject)
    requires
        heap_wf(before),
        heap_wf(after),
        grown(before, after),
        holds(before, v),
    ensures
        content(after, v) == content(before, v),
        holds(after, v),
{
    assert forall|t: int| 0 <= t < before.len() && #[trigger] reaches(
        before,
        v,
        t,
    ) implies t < after.len() && after[t] == before[t] by {}
    lemma_content_frame(before, after, v);
}

/// A value that rests on the cells from `lo` on still does so, from any
/// slot up to `lo`, when the store grows.
pub proof fn lemma_isolated_grown(
    before: Seq<CellView>,
    after: Seq<CellView>,
    v: StackObject,
    lo: int,
    lower: int,
)
    requires
        heap_wf(after),
        grown(before, after),
        isolated(before, v, lo),
        0 <= lower <= lo,
    ensures
        isolated(after, v, lower),
        content(after, v) == content(before, v),
{
    assert(agree_from(before, after, lo)) by {
        assert forall|i: int| lo <= i < before.len() implies #[trigger] after[i] == before[i] by {}
    }
    assert forall|other: Seq<CellView>| #[trigger]
        agree_from(after, other, lower) && heap_wf(other) implies content(other, v) == content(
        after,
        v,
    ) by {
        assert(agree_from(before, other, lo)) by {
            assert forall|i: int| lo <= i < before.len() implies #[trigger] other[i]
                == before[i] by {
                assert(other[i] == after[i]);
                assert(after[i] == before[i]);
            }
        }
    }
}

} // verus!
