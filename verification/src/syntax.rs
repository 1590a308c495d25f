//! What a program means as a tree, and how the heap holds such a tree.
use vstd::prelude::*;

use crate::text::parse_isize_spec;
use crate::value::{Heap, Value};

verus! {

/// A program tree: an integer, a symbol (by name) or a list of trees.
pub enum Sexp {
    Int(int),
    Sym(Seq<char>),
    List(Seq<Sexp>),
}

/// The token that opens a list.
pub open spec fn open_token() -> Seq<char> {
    seq!['(']
}

/// The token that closes a list.
pub open spec fn close_token() -> Seq<char> {
    seq![')']
}

/// The tree of a token other than a parenthesis: an integer where the token
/// parses as an `isize`, else a symbol.
pub open spec fn atom(tok: Seq<char>) -> Sexp {
    match parse_isize_spec(tok) {
        Some(n) => Sexp::Int(n),
        None => Sexp::Sym(tok),
    }
}

/// The items of the list that starts at token `pos`, and the position after
/// the `)` that closes it (or the end of the tokens when none does).
pub open spec fn parse_seq(toks: Seq<Seq<char>>, pos: int) -> (Seq<Sexp>, int)
    decreases toks.len() - pos,
{
    if pos < 0 || pos >= toks.len() {
        (Seq::empty(), pos)
    } else if toks[pos] == close_token() {
        (Seq::empty(), pos + 1)
    } else if toks[pos] == open_token() {
        let (inner, p2) = parse_seq(toks, pos + 1);
        if p2 <= pos || p2 > toks.len() {
            (Seq::empty(), pos)
        } else {
            let (rest, p3) = parse_seq(toks, p2);
            (seq![Sexp::List(inner)] + rest, p3)
        }
    } else {
        let (rest, p3) = parse_seq(toks, pos + 1);
        (seq![atom(toks[pos])] + rest, p3)
    }
}

/// The top-level forms of a program.
pub open spec fn program(toks: Seq<Seq<char>>) -> Seq<Sexp> {
    parse_seq(toks, 0).0
}

/// Whether reading the tokens succeeds: after the `)` that would close the
/// top level, only `)` follows.
pub open spec fn program_ok(toks: Seq<Seq<char>>) -> bool {
    forall|k: int| parse_seq(toks, 0).1 <= k < toks.len() ==> #[trigger] toks[k] == close_token()
}

/// Whether a token names a symbol: it is no parenthesis and no integer.
pub open spec fn is_symbol_token(tok: Seq<char>) -> bool {
    tok != open_token() && tok != close_token() && parse_isize_spec(tok) is None
}

/// The symbol table after reading the tokens `toks` in order.
pub open spec fn intern_tokens(syms: Seq<Seq<char>>, toks: Seq<Seq<char>>) -> Seq<Seq<char>>
    decreases toks.len(),
{
    if toks.len() == 0 {
        syms
    } else {
        let before = intern_tokens(syms, toks.drop_last());
        if is_symbol_token(toks.last()) {
            crate::context::intern(before, toks.last())
        } else {
            before
        }
    }
}

/// Whether `v` holds the tree `e` in `heap`, with symbols named by `syms`.
pub open spec fn represents(heap: &Heap, syms: Seq<Seq<char>>, v: Value, e: Sexp) -> bool
    decreases e,
{
    match e {
        Sexp::Int(n) => v matches Value::Integer(i) && i == n,
        Sexp::Sym(name) => v matches Value::Symbol(s) && s < syms.len() && syms[s as int] == name,
        Sexp::List(items) => represents_list(heap, syms, v, items),
    }
}

/// Whether `v` is a list of `items` in `heap`: a chain of pairs, one per
/// item, ending in the empty list.
pub open spec fn represents_list(heap: &Heap, syms: Seq<Seq<char>>, v: Value, items: Seq<Sexp>) -> bool
    decreases items,
{
    &&& v is Pair
    &&& heap.valid(v)
    &&& if items.len() == 0 {
        heap.is_empty_list(v)
    } else {
        &&& represents(heap, syms, heap.car_of(v), items[0])
        &&& represents_list(heap, syms, heap.cdr_of(v), items.subrange(1, items.len() as int))
    }
}

/// The position after a list is past where it starts, and within the tokens.
pub proof fn lemma_parse_seq_bounds(toks: Seq<Seq<char>>, pos: int)
    requires
        0 <= pos <= toks.len(),
    ensures
        pos < toks.len() ==> pos < parse_seq(toks, pos).1 <= toks.len(),
        pos == toks.len() ==> parse_seq(toks, pos).1 == pos,
    decreases toks.len() - pos,
{
    if pos < toks.len() {
        if toks[pos] == close_token() {
        } else if toks[pos] == open_token() {
            lemma_parse_seq_bounds(toks, pos + 1);
            let p2 = parse_seq(toks, pos + 1).1;
            if pos + 1 < toks.len() {
                lemma_parse_seq_bounds(toks, p2);
            }
        } else {
            lemma_parse_seq_bounds(toks, pos + 1);
        }
    }
}

/// Interning more tokens keeps what the table held.
pub proof fn lemma_intern_tokens_prefix(syms: Seq<Seq<char>>, toks: Seq<Seq<char>>)
    ensures
        syms.len() <= intern_tokens(syms, toks).len(),
        intern_tokens(syms, toks).take(syms.len() as int) == syms,
    decreases toks.len(),
{
    if toks.len() > 0 {
        lemma_intern_tokens_prefix(syms, toks.drop_last());
        let before = intern_tokens(syms, toks.drop_last());
        assert(before.push(toks.last()).take(syms.len() as int) =~= before.take(syms.len() as int));
    }
}

/// Interning two runs of tokens one after the other interns both.
pub proof fn lemma_intern_tokens_concat(syms: Seq<Seq<char>>, a: Seq<Seq<char>>, b: Seq<Seq<char>>)
    ensures
        intern_tokens(intern_tokens(syms, a), b) == intern_tokens(syms, a + b),
    decreases b.len(),
{
    if b.len() == 0 {
        assert(a + b =~= a);
    } else {
        lemma_intern_tokens_concat(syms, a, b.drop_last());
        assert((a + b).drop_last() =~= a + b.drop_last());
        assert((a + b).last() == b.last());
    }
}

/// Whether `big` holds every entry of `small` at the same index.
pub open spec fn table_extends(big: Seq<Seq<char>>, small: Seq<Seq<char>>) -> bool {
    small.len() <= big.len() && big.take(small.len() as int) == small
}

/// A tree held in a heap stays held when the heap and the symbol table grow.
pub proof fn lemma_represents_frame(
    h1: &Heap,
    s1: Seq<Seq<char>>,
    h2: &Heap,
    s2: Seq<Seq<char>>,
    v: Value,
    e: Sexp,
)
    requires
        h2.extends(h1),
        table_extends(s2, s1),
        represents(h1, s1, v, e),
    ensures
        represents(h2, s2, v, e),
    decreases e,
{
    match e {
        Sexp::Int(_) => {},
        Sexp::Sym(_) => {
            let s = v->Symbol_0;
            assert(s2[s as int] == s2.take(s1.len() as int)[s as int]);
        },
        Sexp::List(items) => {
            lemma_represents_list_frame(h1, s1, h2, s2, v, items);
        },
    }
}

/// A list held in a heap stays held when the heap and the symbol table grow.
pub proof fn lemma_represents_list_frame(
    h1: &Heap,
    s1: Seq<Seq<char>>,
    h2: &Heap,
    s2: Seq<Seq<char>>,
    v: Value,
    items: Seq<Sexp>,
)
    requires
        h2.extends(h1),
        table_extends(s2, s1),
        represents_list(h1, s1, v, items),
    ensures
        represents_list(h2, s2, v, items),
    decreases items,
{
    let i = v->Pair_0;
    assert(h2.pairs_view()[i as int] == h2.pairs_view().take(
        h1.pairs_view().len() as int,
    )[i as int]);
    if items.len() > 0 {
        lemma_represents_frame(h1, s1, h2, s2, h1.car_of(v), items[0]);
        lemma_represents_list_frame(
            h1,
            s1,
            h2,
            s2,
            h1.cdr_of(v),
            items.subrange(1, items.len() as int),
        );
    }
}

/// A value that holds a tree refers into the heap.
pub proof fn lemma_represents_valid(heap: &Heap, syms: Seq<Seq<char>>, v: Value, e: Sexp)
    requires
        represents(heap, syms, v, e),
    ensures
        heap.valid(v),
{
}

/// Closing parentheses after the end of a program intern nothing.
pub proof fn lemma_intern_trailing_closes(syms: Seq<Seq<char>>, toks: Seq<Seq<char>>, end: int)
    requires
        0 <= end <= toks.len(),
        forall|k: int| end <= k < toks.len() ==> #[trigger] toks[k] == close_token(),
    ensures
        intern_tokens(syms, toks) == intern_tokens(syms, toks.subrange(0, end)),
    decreases toks.len(),
{
    if toks.len() == end {
        assert(toks.subrange(0, end) =~= toks);
    } else {
        let shorter = toks.drop_last();
        assert(toks.last() == toks[toks.len() - 1]);
        assert forall|k: int| end <= k < shorter.len() implies #[trigger] shorter[k] == close_token() by {
            assert(shorter[k] == toks[k]);
        }
        lemma_intern_trailing_closes(syms, shorter, end);
        assert(shorter.subrange(0, end) =~= toks.subrange(0, end));
    }
}

/// A bound on the nesting of a tree: the steps that walking or writing it
/// takes.
pub open spec fn sexp_size(e: Sexp) -> nat
    decreases e,
{
    match e {
        Sexp::List(items) => items_size(items) + 2,
        _ => 1,
    }
}

/// A bound on the steps that walking or writing the items of a list takes.
pub open spec fn items_size(items: Seq<Sexp>) -> nat
    decreases items,
{
    if items.len() == 0 {
        0
    } else {
        sexp_size(items[0]) + 1 + items_size(items.subrange(1, items.len() as int))
    }
}


/// A value that holds a tree reaches no cycle: its pairs are bounded by the
/// size of the tree.
pub proof fn lemma_represents_tree_bounded(heap: &Heap, syms: Seq<Seq<char>>, v: Value, e: Sexp)
    requires
        represents(heap, syms, v, e),
    ensures
        heap.tree_bounded(v, sexp_size(e)),
    decreases e,
{
    if let Sexp::List(items) = e {
        lemma_represents_list_tree_bounded(heap, syms, v, items);
        heap.lemma_tree_bounded_mono(v, items_size(items) + 1, sexp_size(e));
    }
}

/// A value that holds a list reaches no cycle.
pub proof fn lemma_represents_list_tree_bounded(
    heap: &Heap,
    syms: Seq<Seq<char>>,
    v: Value,
    items: Seq<Sexp>,
)
    requires
        represents_list(heap, syms, v, items),
    ensures
        heap.tree_bounded(v, items_size(items) + 1),
    decreases items,
{
    if items.len() == 0 {
        assert(heap.is_empty_list(v));
        assert(heap.tree_bounded(heap.car_of(v), 0));
        assert(heap.tree_bounded(heap.cdr_of(v), 0));
    } else {
        let rest = items.subrange(1, items.len() as int);
        let f = items_size(items);
        assert(represents(heap, syms, heap.car_of(v), items[0]));
        assert(represents_list(heap, syms, heap.cdr_of(v), rest));
        lemma_represents_tree_bounded(heap, syms, heap.car_of(v), items[0]);
        heap.lemma_tree_bounded_mono(heap.car_of(v), sexp_size(items[0]), f);
        lemma_represents_list_tree_bounded(heap, syms, heap.cdr_of(v), rest);
        heap.lemma_tree_bounded_mono(heap.cdr_of(v), items_size(rest) + 1, f);
    }
}

/// A list iterator over a list that holds `items` visits one cell per item,
/// whose car holds that item; over the empty list it visits the empty list
/// itself.
pub proof fn lemma_list_cells_represent(
    heap: &Heap,
    syms: Seq<Seq<char>>,
    v: Value,
    items: Seq<Sexp>,
)
    requires
        represents_list(heap, syms, v, items),
    ensures
        heap.list_finite(Some(v), items.len() + 1),
        items.len() == 0 ==> heap.list_cells(Some(v), items.len() + 1) == seq![v],
        items.len() > 0 ==> heap.list_cells(Some(v), items.len() + 1).len() == items.len(),
        forall|k: int|
            0 <= k < items.len() ==> represents(
                heap,
                syms,
                heap.car_of(#[trigger] heap.list_cells(Some(v), items.len() + 1)[k]),
                items[k],
            ),
    decreases items,
{
    let f = (items.len() + 1) as nat;
    if items.len() == 0 {
        assert(heap.is_empty_list(v));
        assert(heap.list_step(Some(v)) is None);
        assert(heap.list_finite(heap.list_step(Some(v)), 0));
        assert(heap.list_cells(heap.list_step(Some(v)), 0) == Seq::<Value>::empty());
        assert(heap.list_cells(Some(v), f) =~= seq![v]);
    } else {
        let rest = items.subrange(1, items.len() as int);
        let c2 = heap.cdr_of(v);
        assert(represents_list(heap, syms, c2, rest));
        lemma_list_cells_represent(heap, syms, c2, rest);
        let tail = heap.list_cells(Some(c2), (rest.len() + 1) as nat);
        if rest.len() == 0 {
            assert(heap.is_empty_list(c2));
            assert(heap.list_step(Some(v)) is None);
            assert(heap.list_finite(heap.list_step(Some(v)), (f - 1) as nat));
            assert(heap.list_cells(heap.list_step(Some(v)), (f - 1) as nat) == Seq::<Value>::empty());
            assert(heap.list_cells(Some(v), f) =~= seq![v]);
        } else {
            assert(represents(heap, syms, heap.car_of(c2), rest[0]));
            assert(heap.car_of(c2) != Value::Nil) by {
                match rest[0] {
                    Sexp::List(its) => {
                        assert(represents_list(heap, syms, heap.car_of(c2), its));
                    },
                    _ => {},
                }
            }
            assert(heap.list_step(Some(v)) == Some(c2));
            assert(heap.list_cells(Some(v), f) == seq![v] + tail);
            assert forall|k: int| 0 <= k < items.len() implies represents(
                heap,
                syms,
                heap.car_of(#[trigger] heap.list_cells(Some(v), f)[k]),
                items[k],
            ) by {
                if k > 0 {
                    assert(heap.list_cells(Some(v), f)[k] == tail[k - 1]);
                    assert(items[k] == rest[k - 1]);
                }
            }
        }
    }
}

/// The pairs, by handle, that hold the tree `e` at `v` in `heap`: none for
/// an atom.
pub open spec fn rep_cells(heap: &Heap, v: Value, e: Sexp) -> Seq<int>
    decreases e,
{
    match e {
        Sexp::List(items) => rep_list_cells(heap, v, items),
        _ => Seq::empty(),
    }
}

/// The pairs, by handle, that hold the list of `items` at `v` in `heap`:
/// the cell at `v`, then the pairs of the first item, then those of the
/// rest of the list, down to the empty list that ends it.
pub open spec fn rep_list_cells(heap: &Heap, v: Value, items: Seq<Sexp>) -> Seq<int>
    decreases items,
{
    seq![v->Pair_0 as int] + if items.len() == 0 {
        Seq::empty()
    } else {
        rep_cells(heap, heap.car_of(v), items[0]) + rep_list_cells(
            heap,
            heap.cdr_of(v),
            items.subrange(1, items.len() as int),
        )
    }
}

/// Whether every handle in `cells` lies in `lo..hi`.
pub open spec fn cells_within(cells: Seq<int>, lo: int, hi: int) -> bool {
    forall|k: int| 0 <= k < cells.len() ==> lo <= #[trigger] cells[k] < hi
}

/// Two runs of handles without repeats, in ranges that do not overlap, make
/// one without repeats.
pub proof fn lemma_cells_concat(a: Seq<int>, b: Seq<int>, la: int, ha: int, lb: int, hb: int)
    requires
        a.no_duplicates(),
        b.no_duplicates(),
        cells_within(a, la, ha),
        cells_within(b, lb, hb),
        ha <= lb || hb <= la,
    ensures
        (a + b).no_duplicates(),
{
    let c = a + b;
    assert forall|i: int, j: int|
        0 <= i < c.len() && 0 <= j < c.len() && i != j implies c[i] != c[j] by {
        if i < a.len() && j >= a.len() {
            assert(c[i] == a[i] && c[j] == b[j - a.len()]);
        } else if i >= a.len() && j < a.len() {
            assert(c[j] == a[j] && c[i] == b[i - a.len()]);
        } else if i < a.len() {
            assert(c[i] == a[i] && c[j] == a[j]);
        } else {
            assert(c[i] == b[i - a.len()] && c[j] == b[j - a.len()]);
        }
    }
}

/// The pairs that hold a tree stay the same when the heap grows.
pub proof fn lemma_rep_cells_frame(h1: &Heap, s1: Seq<Seq<char>>, h2: &Heap, v: Value, e: Sexp)
    requires
        h2.extends(h1),
        represents(h1, s1, v, e),
    ensures
        rep_cells(h2, v, e) == rep_cells(h1, v, e),
    decreases e,
{
    if let Sexp::List(items) = e {
        lemma_rep_list_cells_frame(h1, s1, h2, v, items);
    }
}

/// The pairs that hold a list stay the same when the heap grows.
pub proof fn lemma_rep_list_cells_frame(
    h1: &Heap,
    s1: Seq<Seq<char>>,
    h2: &Heap,
    v: Value,
    items: Seq<Sexp>,
)
    requires
        h2.extends(h1),
        represents_list(h1, s1, v, items),
    ensures
        rep_list_cells(h2, v, items) == rep_list_cells(h1, v, items),
    decreases items,
{
    let i = v->Pair_0;
    assert(h2.pairs_view()[i as int] == h2.pairs_view().take(
        h1.pairs_view().len() as int,
    )[i as int]);
    if items.len() > 0 {
        lemma_rep_cells_frame(h1, s1, h2, h1.car_of(v), items[0]);
        lemma_rep_list_cells_frame(
            h1,
            s1,
            h2,
            h1.cdr_of(v),
            items.subrange(1, items.len() as int),
        );
    }
}

/// How many lists the first `k` tokens leave open: one more for each `(`,
/// one fewer for each `)`.
pub open spec fn depth(toks: Seq<Seq<char>>, k: int) -> int
    decreases k,
{
    if k <= 0 || k > toks.len() {
        0
    } else {
        depth(toks, k - 1) + if toks[k - 1] == open_token() {
            1
        } else if toks[k - 1] == close_token() {
            -1
        } else {
            0
        }
    }
}

/// Whether the parentheses of the tokens match: no prefix closes more
/// lists than it opens, and all of them close all they open.
pub open spec fn balanced(toks: Seq<Seq<char>>) -> bool {
    &&& forall|k: int| 0 <= k <= toks.len() ==> #[trigger] depth(toks, k) >= 0
    &&& depth(toks, toks.len() as int) == 0
}

/// Where the items of the list that starts at token `pos` end: before the
/// `)` that closes it, or at the end of the tokens when none does.
pub open spec fn items_end(toks: Seq<Seq<char>>, pos: int) -> int {
    let p = parse_seq(toks, pos).1;
    if depth(toks, p) < depth(toks, pos) {
        p - 1
    } else {
        p
    }
}

/// The list that starts at token `pos` either ends at the first `)` that
/// takes the count of open lists below what it was at `pos`, or runs to the
/// end of the tokens, never going below it.
pub proof fn lemma_parse_seq_depth(toks: Seq<Seq<char>>, pos: int)
    requires
        0 <= pos <= toks.len(),
    ensures
        ({
            let p = parse_seq(toks, pos).1;
            ||| (pos < p <= toks.len() && toks[p - 1] == close_token() && depth(toks, p) == depth(
                toks,
                pos,
            ) - 1 && forall|k: int| pos <= k < p ==> #[trigger] depth(toks, k) >= depth(toks, pos))
            ||| (p == toks.len() && forall|k: int|
                pos <= k <= toks.len() ==> #[trigger] depth(toks, k) >= depth(toks, pos))
        }),
    decreases toks.len() - pos,
{
    lemma_parse_seq_bounds(toks, pos);
    if pos < toks.len() {
        assert(depth(toks, pos + 1) == depth(toks, pos) + if toks[pos] == open_token() {
            1int
        } else if toks[pos] == close_token() {
            -1int
        } else {
            0int
        });
        if toks[pos] == close_token() {
        } else if toks[pos] == open_token() {
            lemma_parse_seq_depth(toks, pos + 1);
            let p2 = parse_seq(toks, pos + 1).1;
            lemma_parse_seq_bounds(toks, pos + 1);
            if pos + 1 < toks.len() {
                lemma_parse_seq_bounds(toks, p2);
            }
            lemma_parse_seq_depth(toks, p2);
        } else {
            lemma_parse_seq_depth(toks, pos + 1);
        }
    }
}

} // verus!
