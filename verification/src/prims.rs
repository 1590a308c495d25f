//! The builtins of the interpreter: the `lambda` special form and `+`.
use vstd::prelude::*;

use crate::context::{Context, Primitive};
use crate::value::{Heap, Lambda, Value, ValueListIter};

verus! {

/// The builtins that the interpreter comes with.
#[derive(Clone, Copy, Debug, PartialEq, Eq, Structural)]
pub enum Prim {
    /// `(lambda bindings body...)`: makes a lambda.
    Lambda,
    /// `(+ n...)`: adds the integers among its arguments.
    Add,
}

/// The lambda of the form `(lambda bindings body...)`: its bindings are the
/// second item of the form, its body the rest after that.
pub fn make_lambda(heap: &mut Heap, form: Value) -> (v: Value)
    requires
        form is Pair,
        old(heap).valid(form),
        old(heap).cdr_of(form) is Pair,
    ensures
        v == Value::Lambda(old(heap).lambdas_view().len() as usize),
        final(heap).lambdas_view() == old(heap).lambdas_view().push(
            Lambda {
                bindings: old(heap).car_of(old(heap).cdr_of(form)),
                body: old(heap).cdr_of(old(heap).cdr_of(form)),
            },
        ),
        final(heap).pairs_view() == old(heap).pairs_view(),
{
    let rest = form.cdr(heap);
    let bindings = rest.car(heap);
    let body = rest.cdr(heap);
    Value::new_lambda(heap, Lambda { bindings, body })
}

/// The integer that the list cell `cell` contributes to a sum: its car when
/// that is an integer, else nothing.
pub open spec fn cell_int(heap: &Heap, cell: Value) -> int {
    match heap.car_of(cell) {
        Value::Integer(i) => i as int,
        _ => 0,
    }
}

/// The sum of the integers that the cells contribute.
pub open spec fn sum_cells(heap: &Heap, cells: Seq<Value>) -> int
    decreases cells.len(),
{
    if cells.len() == 0 {
        0
    } else {
        sum_cells(heap, cells.drop_last()) + cell_int(heap, cells.last())
    }
}

/// The sum over two runs of cells, one after the other, is the sum over
/// the first plus the sum over the second; over one cell it is the integer
/// in its car, or nothing when its car is no integer.
pub proof fn lemma_sum_cells_concat(heap: &Heap, a: Seq<Value>, b: Seq<Value>)
    ensures
        sum_cells(heap, a + b) == sum_cells(heap, a) + sum_cells(heap, b),
        b.len() == 1 ==> sum_cells(heap, b) == (match heap.car_of(b[0]) {
            Value::Integer(i) => i as int,
            _ => 0,
        }),
    decreases b.len(),
{
    if b.len() > 0 {
        lemma_sum_cells_concat(heap, a, b.drop_last());
        assert((a + b).drop_last() =~= a + b.drop_last());
        assert((a + b).last() == b.last());
        if b.len() == 1 {
            assert(b.drop_last() =~= Seq::<Value>::empty());
            assert(sum_cells(heap, Seq::<Value>::empty()) == 0);
        }
    } else {
        assert(a + b =~= a);
    }
}

/// Whether every running sum over the cells fits in an `isize`.
pub open spec fn sums_fit(heap: &Heap, cells: Seq<Value>) -> bool {
    forall|k: int|
        0 <= k <= cells.len() ==> isize::MIN <= #[trigger] sum_cells(heap, cells.take(k))
            <= isize::MAX
}

/// Adds the integers among the items of the list `args`, in order; `None`
/// when a running sum leaves the range of `isize`.
pub fn sum_integers(heap: &Heap, args: Value) -> (r: Option<isize>)
    requires
        args is Pair,
        exists|f: nat| heap.list_finite(Some(args), f),
    ensures
        forall|f: nat|
            heap.list_finite(Some(args), f) ==> ({
                let cells = heap.list_cells(Some(args), f);
                if sums_fit(heap, cells) {
                    r == Some(sum_cells(heap, cells) as isize)
                } else {
                    r is None
                }
            }),
{
    let ghost fuel = choose|f: nat| heap.list_finite(Some(args), f);
    let ghost cells = heap.list_cells(Some(args), fuel);
    let mut iter = ValueListIter::from(args);
    let ghost mut f: nat = fuel;
    let ghost mut k: int = 0;
    let mut ct: isize = 0;
    proof {
        assert(cells.take(0) =~= Seq::<Value>::empty());
    }
    loop
        invariant
            heap.list_finite(Some(args), fuel),
            cells == heap.list_cells(Some(args), fuel),
            heap.list_finite(iter.current(), f),
            0 <= k <= cells.len(),
            heap.list_cells(iter.current(), f) == cells.skip(k),
            iter.current() matches Some(c) ==> c is Pair,
            ct == sum_cells(heap, cells.take(k)),
            forall|j: int|
                0 <= j <= k ==> isize::MIN <= #[trigger] sum_cells(heap, cells.take(j))
                    <= isize::MAX,
        decreases f,
    {
        let ghost cur = iter.current();
        match iter.next(heap) {
            None => {
                assert(cells.skip(k).len() == 0);
                assert(cells.take(k) =~= cells);
                proof {
                    assert forall|g: nat| heap.list_finite(Some(args), g) implies heap.list_cells(
                        Some(args),
                        g,
                    ) == cells by {
                        if g <= fuel {
                            heap.lemma_list_cells_fuel(Some(args), g, fuel);
                        } else {
                            heap.lemma_list_cells_fuel(Some(args), fuel, g);
                        }
                    }
                }
                return Some(ct);
            },
            Some(v) => {
                proof {
                    assert(heap.list_cells(cur, f) == seq![v] + heap.list_cells(
                        heap.list_step(cur),
                        (f - 1) as nat,
                    ));
                    assert(cells.skip(k)[0] == v);
                    assert(cells[k] == v);
                    assert(cells.take(k + 1).drop_last() =~= cells.take(k));
                    assert(cells.take(k + 1).last() == v);
                    let rest = heap.list_cells(iter.current(), (f - 1) as nat);
                    assert((seq![v] + rest).drop_first() =~= rest);
                    assert(cells.skip(k).drop_first() =~= cells.skip(k + 1));
                    assert(rest =~= cells.skip(k + 1));
                }
                match v.car(heap) {
                    Value::Integer(i) => {
                        match ct.checked_add(i) {
                            Some(s) => {
                                ct = s;
                            },
                            None => {
                                proof {
                                    assert(!(isize::MIN <= sum_cells(heap, cells.take(k + 1))
                                        <= isize::MAX));
                                    assert forall|g: nat| heap.list_finite(Some(args), g) implies heap.list_cells(
                                        Some(args),
                                        g,
                                    ) == cells by {
                                        if g <= fuel {
                                            heap.lemma_list_cells_fuel(Some(args), g, fuel);
                                        } else {
                                            heap.lemma_list_cells_fuel(Some(args), fuel, g);
                                        }
                                    }
                                }
                                return None;
                            },
                        }
                    },
                    _ => {},
                }
                proof {
                    k = k + 1;
                    f = (f - 1) as nat;
                }
            },
        }
    }
}

/// Whether the list iterator from `v` ends within `bound` cells.
pub fn list_ends_within(heap: &Heap, v: Value, bound: usize) -> (b: bool)
    requires
        heap.valid(v),
    ensures
        b == heap.list_finite(Some(v), bound as nat),
{
    let mut iter = ValueListIter::from(v);
    let mut n: usize = bound;
    loop
        invariant
            n <= bound,
            iter.current() matches Some(c) ==> heap.valid(c),
            heap.list_finite(Some(v), bound as nat) == heap.list_finite(iter.current(), n as nat),
        decreases n,
    {
        match iter.peek() {
            None => {
                return true;
            },
            Some(_) => {},
        }
        if n == 0 {
            return false;
        }
        let _ = iter.next(heap);
        n = n - 1;
    }
}

impl Primitive for Prim {
    /// `lambda` makes a lambda of its form (nil when the form has no second
    /// item); `+` adds the integers among its arguments (nil when a running
    /// sum overflows, and when the list of arguments has more cells than the
    /// heap has pairs, which only a cycle can make).
    open spec fn call_spec(
        &self,
        args: Value,
        before: Context<Prim>,
        after: Context<Prim>,
        r: Value,
    ) -> bool {
        match *self {
            Prim::Lambda => if args is Pair && before.heap.valid(args) && before.heap.cdr_of(
                args,
            ) is Pair {
                &&& r == Value::Lambda(before.heap.lambdas_view().len() as usize)
                &&& after.heap.lambdas_view() == before.heap.lambdas_view().push(
                    Lambda {
                        bindings: before.heap.car_of(before.heap.cdr_of(args)),
                        body: before.heap.cdr_of(before.heap.cdr_of(args)),
                    },
                )
                &&& after.heap.pairs_view() == before.heap.pairs_view()
                &&& after.symbol_table == before.symbol_table
                &&& after.builtins == before.builtins
                &&& after.env == before.env
                &&& after.ast == before.ast
            } else {
                r == Value::Nil && after == before
            },
            Prim::Add => {
                &&& after == before
                &&& if args is Pair && before.heap.valid(args) && before.heap.list_finite(
                    Some(args),
                    before.heap.pairs_view().len(),
                ) {
                    let cells = before.heap.list_cells(Some(args), before.heap.pairs_view().len());
                    if sums_fit(&before.heap, cells) {
                        r == Value::Integer(sum_cells(&before.heap, cells) as isize)
                    } else {
                        r == Value::Nil
                    }
                } else {
                    r == Value::Nil
                }
            },
        }
    }

    fn call(&self, args: &Value, ctx: &mut Context<Prim>) -> (r: Value)
    {
        proof {
            use_type_invariant(&ctx.heap);
        }
        match self {
            Prim::Lambda => {
                if matches!(*args, Value::Pair(_)) && ctx.heap.is_valid(*args) && matches!(
                    args.cdr(&ctx.heap),
                    Value::Pair(_)
                ) {
                    make_lambda(&mut ctx.heap, *args)
                } else {
                    Value::Nil
                }
            },
            Prim::Add => {
                if matches!(*args, Value::Pair(_)) && ctx.heap.is_valid(*args) {
                    let bound = ctx.heap.pair_count();
                    if list_ends_within(&ctx.heap, *args, bound) {
                        match sum_integers(&ctx.heap, *args) {
                            Some(n) => Value::Integer(n),
                            None => Value::Nil,
                        }
                    } else {
                        Value::Nil
                    }
                } else {
                    Value::Nil
                }
            },
        }
    }
}

/// The builtins of this crate never change a pair nor the builtins, and
/// return no pair, so they keep the walk over a program finite.
pub proof fn lemma_prim_forms_keep_pairs(ctx: &Context<Prim>)
    ensures
        ctx.forms_keep_pairs(),
{
}

impl Context<Prim> {
    /// Whether expanding the special forms of the program is sure to end, as
    /// `process_special_forms` needs: the program is a pair whose tree is
    /// bounded by `fuel` (see [`Heap::tree_bounded`]).
    pub fn special_forms_end(&self, fuel: usize) -> (b: bool)
        ensures
            b == (self.ast is Pair && self.heap.tree_bounded(self.ast, fuel as nat)),
            b ==> exists|n: nat| self.walk_ends(n),
    {
        if matches!(self.ast, Value::Pair(_)) && self.heap.tree_is_bounded(self.ast, fuel) {
            proof {
                lemma_prim_forms_keep_pairs(self);
                self.lemma_walk_ends(fuel as nat);
            }
            true
        } else {
            false
        }
    }
}

} // verus!
