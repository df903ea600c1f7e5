//! Deep equality of values: the relation on contents, and the function that
//! decides it.

use vstd::prelude::*;
use crate::object::StackObject;
use crate::store::{
    content, heap_wf, holds, lemma_dict_content, lemma_list_content, rank_in, ranks_of, value_below,
    CellView, Heap, Tree,
};

verus! {

/// Equality of contents. Trees of different variants are unequal. Texts are
/// equal when they hold the same characters, lists when they are equally
/// long and equal place by place, maps when they are equally large and each
/// entry of either has an entry of the other with an equal key and an equal
/// value.
pub open spec fn tree_eq(a: Tree, b: Tree) -> bool
    decreases a,
{
    match (a, b) {
        (Tree::Integer(x), Tree::Integer(y)) => x == y,
        (Tree::Boolean(x), Tree::Boolean(y)) => x == y,
        (Tree::Text(s), Tree::Text(t)) => s == t,
        (Tree::List(xs), Tree::List(ys)) => xs.len() == ys.len() && forall|k: int|
            #![trigger xs[k]]
            #![trigger ys[k]]
            0 <= k < xs.len() ==> tree_eq(xs[k], ys[k]),
        (Tree::Dict(es), Tree::Dict(fs)) => es.len() == fs.len() && mutual_cover(
            entry_matrix(es, fs),
            es.len() as int,
            fs.len() as int,
        ),
        _ => false,
    }
}

/// The relation "entry `i` of `es` has the key and the value of entry `j`
/// of `fs`", as a table over the two indices.
pub open spec fn entry_matrix(es: Seq<(Tree, Tree)>, fs: Seq<(Tree, Tree)>) -> spec_fn(
    int,
    int,
) -> bool
    decreases es,
{
    |i: int, j: int|
        0 <= i < es.len() && 0 <= j < fs.len() && tree_eq(es[i].0, fs[j].0) && tree_eq(
            es[i].1,
            fs[j].1,
        )
}

/// Whether row `i` of the table holds a hit among its first `k` columns.
pub open spec fn row_hit(m: spec_fn(int, int) -> bool, i: int, k: int) -> bool {
    exists|j: int| 0 <= j < k && #[trigger] m(i, j)
}

/// Whether column `j` of the table holds a hit among its first `n` rows.
pub open spec fn col_hit(m: spec_fn(int, int) -> bool, j: int, n: int) -> bool {
    exists|i: int| 0 <= i < n && #[trigger] m(i, j)
}

/// Whether each of the first `n` rows and each of the first `k` columns of
/// the table holds a hit.
pub open spec fn mutual_cover(m: spec_fn(int, int) -> bool, n: int, k: int) -> bool {
    (forall|i: int| 0 <= i < n ==> #[trigger] row_hit(m, i, k)) && (forall|j: int|
        0 <= j < k ==> #[trigger] col_hit(m, j, n))
}

/// Every content equals itself.
pub proof fn lemma_tree_eq_reflexive(a: Tree)
    ensures
        tree_eq(a, a),
    decreases a,
{
    match a {
        Tree::List(xs) => {
            assert forall|k: int| 0 <= k < xs.len() implies tree_eq(#[trigger] xs[k], xs[k]) by {
                lemma_tree_eq_reflexive(xs[k]);
            }
        },
        Tree::Dict(es) => {
            let m = entry_matrix(es, es);
            assert forall|i: int| 0 <= i < es.len() implies #[trigger] m(i, i) by {
                lemma_tree_eq_reflexive(es[i].0);
                lemma_tree_eq_reflexive(es[i].1);
            }
            assert forall|i: int| 0 <= i < es.len() implies #[trigger] row_hit(
                m,
                i,
                es.len() as int,
            ) by {
                assert(m(i, i));
            }
            assert forall|i: int| 0 <= i < es.len() implies #[trigger] col_hit(
                m,
                i,
                es.len() as int,
            ) by {
                assert(m(i, i));
            }
        },
        _ => {},
    }
}

/// Equality of contents does not depend on the side.
pub proof fn lemma_tree_eq_symmetric(a: Tree, b: Tree)
    ensures
        tree_eq(a, b) == tree_eq(b, a),
    decreases a,
{
    match (a, b) {
        (Tree::List(xs), Tree::List(ys)) => {
            if xs.len() == ys.len() {
                assert forall|k: int| 0 <= k < xs.len() implies tree_eq(
                    #[trigger] xs[k],
                    #[trigger] ys[k],
                ) == tree_eq(ys[k], xs[k]) by {
                    lemma_tree_eq_symmetric(xs[k], ys[k]);
                }
            }
        },
        (Tree::Dict(es), Tree::Dict(fs)) => {
            let m = entry_matrix(es, fs);
            let w = entry_matrix(fs, es);
            assert forall|i: int, j: int| #[trigger] m(i, j) == w(j, i) by {
                if 0 <= i < es.len() && 0 <= j < fs.len() {
                    lemma_tree_eq_symmetric(es[i].0, fs[j].0);
                    lemma_tree_eq_symmetric(es[i].1, fs[j].1);
                }
            }
            assert forall|i: int, j: int| #[trigger] w(j, i) == m(i, j) by {
                assert(m(i, j) == w(j, i));
            }
            lemma_cover_transposed(m, w, es.len() as int, fs.len() as int);
        },
        _ => {},
    }
}

/// A table covers its rows and columns exactly when its transpose does.
pub proof fn lemma_cover_transposed(
    m: spec_fn(int, int) -> bool,
    w: spec_fn(int, int) -> bool,
    n: int,
    k: int,
)
    requires
        forall|i: int, j: int| #[trigger] m(i, j) == w(j, i),
        forall|i: int, j: int| #[trigger] w(j, i) == m(i, j),
    ensures
        mutual_cover(m, n, k) == mutual_cover(w, k, n),
{
    assert forall|i: int| #[trigger] row_hit(m, i, k) == col_hit(w, i, k) by {
        if row_hit(m, i, k) {
            let j = choose|j: int| 0 <= j < k && #[trigger] m(i, j);
            assert(w(j, i));
        }
        if col_hit(w, i, k) {
            let j = choose|j: int| 0 <= j < k && #[trigger] w(j, i);
            assert(m(i, j));
        }
    }
    assert forall|j: int| #[trigger] col_hit(m, j, n) == row_hit(w, j, n) by {
        if col_hit(m, j, n) {
            let i = choose|i: int| 0 <= i < n && #[trigger] m(i, j);
            assert(w(j, i));
        }
        if row_hit(w, j, n) {
            let i = choose|i: int| 0 <= i < n && #[trigger] w(j, i);
            assert(m(i, j));
        }
    }
    assert forall|i: int| #[trigger] col_hit(w, i, k) == row_hit(m, i, k) by {
        assert(row_hit(m, i, k) == col_hit(w, i, k));
    }
    assert forall|j: int| #[trigger] row_hit(w, j, n) == col_hit(m, j, n) by {
        assert(col_hit(m, j, n) == row_hit(w, j, n));
    }
}

/// A value equals itself, whatever the cells hold.
pub proof fn lemma_equals_reflexive(cells: Seq<CellView>, a: StackObject)
    ensures
        tree_eq(content(cells, a), content(cells, a)),
{
    lemma_tree_eq_reflexive(content(cells, a));
}

/// Comparing `a` with `b` gives what comparing `b` with `a` gives.
pub proof fn lemma_equals_symmetric(cells: Seq<CellView>, a: StackObject, b: StackObject)
    ensures
        tree_eq(content(cells, a), content(cells, b)) == tree_eq(
            content(cells, b),
            content(cells, a),
        ),
{
    lemma_tree_eq_symmetric(content(cells, a), content(cells, b));
}

/// Whether the two entries have equal keys and equal values.
pub open spec fn entry_eq(
    cells: Seq<CellView>,
    e: (StackObject, StackObject),
    f: (StackObject, StackObject),
) -> bool {
    tree_eq(content(cells, e.0), content(cells, f.0)) && tree_eq(
        content(cells, e.1),
        content(cells, f.1),
    )
}

/// Whether `fs` has an entry equal to `e`.
pub open spec fn entry_in(
    cells: Seq<CellView>,
    e: (StackObject, StackObject),
    fs: Seq<(StackObject, StackObject)>,
) -> bool {
    exists|j: int| 0 <= j < fs.len() && entry_eq(cells, e, #[trigger] fs[j])
}

/// Whether each entry of `es` has an equal entry in `fs`.
pub open spec fn covered(
    cells: Seq<CellView>,
    es: Seq<(StackObject, StackObject)>,
    fs: Seq<(StackObject, StackObject)>,
) -> bool {
    forall|i: int| 0 <= i < es.len() ==> entry_in(cells, #[trigger] es[i], fs)
}

/// Whether all of `xs` lie under `bound`.
pub open spec fn all_below(cells: Seq<CellView>, xs: Seq<StackObject>, bound: int) -> bool {
    forall|k: int| 0 <= k < xs.len() ==> value_below(cells, #[trigger] xs[k], bound)
}

/// Whether all keys and values of `es` lie under `bound`.
pub open spec fn entries_below(
    cells: Seq<CellView>,
    es: Seq<(StackObject, StackObject)>,
    bound: int,
) -> bool {
    forall|k: int|
        0 <= k < es.len() ==> value_below(cells, (#[trigger] es[k]).0, bound) && value_below(
            cells,
            es[k].1,
            bound,
        )
}

fn entry_found(
    heap: &Heap,
    key: &StackObject,
    value: &StackObject,
    fs: &Vec<(StackObject, StackObject)>,
    p: usize,
    q: usize,
) -> (r: bool)
    requires
        heap.wf(),
        p < heap@.len(),
        q < heap@.len(),
        value_below(heap@, *key, ranks_of(heap@)[p as int] as int),
        value_below(heap@, *value, ranks_of(heap@)[p as int] as int),
        entries_below(heap@, fs@, ranks_of(heap@)[q as int] as int),
    ensures
        r == entry_in(heap@, (*key, *value), fs@),
    decreases ranks_of(heap@)[p as int] + ranks_of(heap@)[q as int] + 1, 1nat,
{
    let mut j: usize = 0;
    while j < fs.len()
        invariant
            heap.wf(),
            p < heap@.len(),
            q < heap@.len(),
            value_below(heap@, *key, ranks_of(heap@)[p as int] as int),
            value_below(heap@, *value, ranks_of(heap@)[p as int] as int),
            entries_below(heap@, fs@, ranks_of(heap@)[q as int] as int),
            j <= fs.len(),
            forall|t: int| 0 <= t < j ==> !entry_eq(heap@, (*key, *value), #[trigger] fs@[t]),
        decreases fs.len() - j,
    {
        assert(value_below(heap@, fs@[j as int].0, ranks_of(heap@)[q as int] as int));
        if key.equals(&fs[j].0, heap) && value.equals(&fs[j].1, heap) {
            assert(entry_eq(heap@, (*key, *value), fs@[j as int]));
            return true;
        }
        j = j + 1;
    }
    false
}

fn entries_covered(
    heap: &Heap,
    es: &Vec<(StackObject, StackObject)>,
    fs: &Vec<(StackObject, StackObject)>,
    p: usize,
    q: usize,
) -> (r: bool)
    requires
        heap.wf(),
        p < heap@.len(),
        q < heap@.len(),
        entries_below(heap@, es@, ranks_of(heap@)[p as int] as int),
        entries_below(heap@, fs@, ranks_of(heap@)[q as int] as int),
    ensures
        r == covered(heap@, es@, fs@),
    decreases ranks_of(heap@)[p as int] + ranks_of(heap@)[q as int] + 1, 2nat,
{
    let mut i: usize = 0;
    while i < es.len()
        invariant
            heap.wf(),
            p < heap@.len(),
            q < heap@.len(),
            entries_below(heap@, es@, ranks_of(heap@)[p as int] as int),
            entries_below(heap@, fs@, ranks_of(heap@)[q as int] as int),
            i <= es.len(),
            forall|t: int| 0 <= t < i ==> entry_in(heap@, #[trigger] es@[t], fs@),
        decreases es.len() - i,
    {
        assert(value_below(heap@, es@[i as int].0, ranks_of(heap@)[p as int] as int));
        if !entry_found(heap, &es[i].0, &es[i].1, fs, p, q) {
            assert(!entry_in(heap@, es@[i as int], fs@));
            return false;
        }
        i = i + 1;
    }
    true
}

fn lists_equal(heap: &Heap, xs: &Vec<StackObject>, ys: &Vec<StackObject>, p: usize, q: usize) -> (r:
    bool)
    requires
        heap.wf(),
        p < heap@.len(),
        q < heap@.len(),
        all_below(heap@, xs@, ranks_of(heap@)[p as int] as int),
        all_below(heap@, ys@, ranks_of(heap@)[q as int] as int),
    ensures
        r == (xs@.len() == ys@.len() && forall|k: int|
            0 <= k < xs@.len() ==> tree_eq(
                content(heap@, #[trigger] xs@[k]),
                content(heap@, ys@[k]),
            )),
    decreases ranks_of(heap@)[p as int] + ranks_of(heap@)[q as int] + 1, 1nat,
{
    if xs.len() != ys.len() {
        return false;
    }
    let mut k: usize = 0;
    while k < xs.len()
        invariant
            heap.wf(),
            p < heap@.len(),
            q < heap@.len(),
            all_below(heap@, xs@, ranks_of(heap@)[p as int] as int),
            all_below(heap@, ys@, ranks_of(heap@)[q as int] as int),
            xs@.len() == ys@.len(),
            k <= xs.len(),
            forall|t: int|
                0 <= t < k ==> tree_eq(content(heap@, #[trigger] xs@[t]), content(heap@, ys@[t])),
        decreases xs.len() - k,
    {
        assert(value_below(heap@, xs@[k as int], ranks_of(heap@)[p as int] as int));
        assert(value_below(heap@, ys@[k as int], ranks_of(heap@)[q as int] as int));
        if !xs[k].equals(&ys[k], heap) {
            return false;
        }
        k = k + 1;
    }
    true
}

impl StackObject {
    /// Deep equality. Values of different variants are unequal; integers and
    /// booleans compare by their data; two handles to one cell are equal
    /// without a look at the cell; otherwise the contents decide.
    pub fn equals(&self, other: &StackObject, heap: &Heap) -> (r: bool)
        requires
            heap.wf(),
            holds(heap@, *self),
            holds(heap@, *other),
        ensures
            r == tree_eq(content(heap@, *self), content(heap@, *other)),
        decreases rank_in(heap@, *self) + rank_in(heap@, *other), 0nat,
    {
        proof {
            if *self == *other {
                lemma_tree_eq_reflexive(content(heap@, *self));
            }
        }
        match (self, other) {
            (StackObject::Integer(a), StackObject::Integer(b)) => *a == *b,
            (StackObject::Boolean(a), StackObject::Boolean(b)) => *a == *b,
            (StackObject::String(p), StackObject::String(q)) => {
                if *p == *q {
                    true
                } else {
                    let s = heap.text(*p);
                    let t = heap.text(*q);
                    let r = s.eq(t);
                    assert(r == (s@ == t@));
                    assert(r == tree_eq(content(heap@, *self), content(heap@, *other)));
                    r
                }
            },
            (StackObject::Vector(p), StackObject::Vector(q)) => {
                if *p == *q {
                    true
                } else {
                    let xs = heap.list(*p);
                    let ys = heap.list(*q);
                    proof {
                        lemma_list_content(heap@, *p);
                        lemma_list_content(heap@, *q);
                    }
                    assert(all_below(heap@, xs@, ranks_of(heap@)[*p as int] as int));
                    assert(all_below(heap@, ys@, ranks_of(heap@)[*q as int] as int));
                    let r = lists_equal(heap, xs, ys, *p, *q);
                    proof {
                        lemma_list_equality(heap@, *p, *q);
                        assert(r == tree_eq(content(heap@, *self), content(heap@, *other)));
                    }
                    r
                }
            },
            (StackObject::HashMap(p), StackObject::HashMap(q)) => {
                if *p == *q {
                    true
                } else {
                    let es = heap.dict(*p);
                    let fs = heap.dict(*q);
                    proof {
                        lemma_dict_content(heap@, *p);
                        lemma_dict_content(heap@, *q);
                    }
                    assert(entries_below(heap@, es@, ranks_of(heap@)[*p as int] as int));
                    assert(entries_below(heap@, fs@, ranks_of(heap@)[*q as int] as int));
                    let r = es.len() == fs.len() && entries_covered(heap, es, fs, *p, *q)
                        && entries_covered(heap, fs, es, *q, *p);
                    proof {
                        lemma_dict_equality(heap@, *p, *q);
                        assert(r == tree_eq(content(heap@, *self), content(heap@, *other)));
                    }
                    r
                }
            },
            _ => false,
        }
    }
}

/// Two lists are equal exactly when they are equally long and equal place
/// by place.
pub proof fn lemma_list_equality(cells: Seq<CellView>, p: usize, q: usize)
    requires
        heap_wf(cells),
        p < cells.len(),
        q < cells.len(),
        cells[p as int] is List,
        cells[q as int] is List,
    ensures
        tree_eq(content(cells, StackObject::Vector(p)), content(cells, StackObject::Vector(q)))
            == (cells[p as int]->List_0.len() == cells[q as int]->List_0.len() && forall|k: int|
            0 <= k < cells[p as int]->List_0.len() ==> tree_eq(
                content(cells, #[trigger] cells[p as int]->List_0[k]),
                content(cells, cells[q as int]->List_0[k]),
            )),
{
    let xs = cells[p as int]->List_0;
    let ys = cells[q as int]->List_0;
    let a = content(cells, StackObject::Vector(p));
    let b = content(cells, StackObject::Vector(q));
    lemma_list_content(cells, p);
    lemma_list_content(cells, q);
    let ta = a->List_0;
    let tb = b->List_0;
    if xs.len() == ys.len() {
        if tree_eq(a, b) {
            assert forall|k: int| 0 <= k < xs.len() implies tree_eq(
                content(cells, #[trigger] xs[k]),
                content(cells, ys[k]),
            ) by {
                assert(ta[k] == content(cells, xs[k]));
                assert(tb[k] == content(cells, ys[k]));
            }
        }
        if forall|k: int|
            0 <= k < xs.len() ==> tree_eq(content(cells, #[trigger] xs[k]), content(cells, ys[k])) {
            assert forall|k: int| 0 <= k < ta.len() implies tree_eq(#[trigger] ta[k], tb[k]) by {
                assert(ta[k] == content(cells, xs[k]));
                assert(tb[k] == content(cells, ys[k]));
                assert(tree_eq(content(cells, xs[k]), content(cells, ys[k])));
            }
            assert(tree_eq(a, b));
        }
    }
}

/// Two maps are equal exactly when they are equally large and each covers
/// the other.
pub proof fn lemma_dict_equality(cells: Seq<CellView>, p: usize, q: usize)
    requires
        heap_wf(cells),
        p < cells.len(),
        q < cells.len(),
        cells[p as int] is Dict,
        cells[q as int] is Dict,
    ensures
        tree_eq(content(cells, StackObject::HashMap(p)), content(cells, StackObject::HashMap(q)))
            == (cells[p as int]->Dict_0.len() == cells[q as int]->Dict_0.len() && covered(
            cells,
            cells[p as int]->Dict_0,
            cells[q as int]->Dict_0,
        ) && covered(cells, cells[q as int]->Dict_0, cells[p as int]->Dict_0)),
{
    let es = cells[p as int]->Dict_0;
    let fs = cells[q as int]->Dict_0;
    let a = content(cells, StackObject::HashMap(p));
    let b = content(cells, StackObject::HashMap(q));
    lemma_dict_content(cells, p);
    lemma_dict_content(cells, q);
    let te = a->Dict_0;
    let tf = b->Dict_0;
    let m = entry_matrix(te, tf);
    let n = es.len() as int;
    let k = fs.len() as int;
    assert forall|i: int, j: int| 0 <= i < n && 0 <= j < k implies (#[trigger] m(i, j)
        == entry_eq(cells, es[i], fs[j])) by {
        assert(te[i] == (content(cells, es[i].0), content(cells, es[i].1)));
        assert(tf[j] == (content(cells, fs[j].0), content(cells, fs[j].1)));
    }
    assert forall|i: int, j: int| 0 <= i < n && 0 <= j < k implies (entry_eq(
        cells,
        #[trigger] es[i],
        #[trigger] fs[j],
    ) == entry_eq(cells, fs[j], es[i])) by {
        lemma_tree_eq_symmetric(content(cells, es[i].0), content(cells, fs[j].0));
        lemma_tree_eq_symmetric(content(cells, es[i].1), content(cells, fs[j].1));
    }
    if n == k {
        if tree_eq(a, b) {
            assert(mutual_cover(m, n, k));
            assert forall|i: int| 0 <= i < n implies entry_in(cells, #[trigger] es[i], fs) by {
                assert(row_hit(m, i, k));
                let j = choose|j: int| 0 <= j < k && #[trigger] m(i, j);
                assert(entry_eq(cells, es[i], fs[j]));
            }
            assert forall|j: int| 0 <= j < k implies entry_in(cells, #[trigger] fs[j], es) by {
                assert(col_hit(m, j, n));
                let i = choose|i: int| 0 <= i < n && #[trigger] m(i, j);
                assert(entry_eq(cells, fs[j], es[i]));
            }
        }
        if covered(cells, es, fs) && covered(cells, fs, es) {
            assert forall|i: int| 0 <= i < n implies #[trigger] row_hit(m, i, k) by {
                assert(entry_in(cells, es[i], fs));
                let j = choose|j: int| 0 <= j < fs.len() && entry_eq(cells, es[i], #[trigger] fs[j]);
                assert(m(i, j));
            }
            assert forall|j: int| 0 <= j < k implies #[trigger] col_hit(m, j, n) by {
                assert(entry_in(cells, fs[j], es));
                let i = choose|i: int| 0 <= i < es.len() && entry_eq(cells, fs[j], #[trigger] es[i]);
                assert(m(i, j));
            }
            assert(mutual_cover(m, n, k));
        }
    }
}

} // verus!
