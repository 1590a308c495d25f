//! Values of the interpreter and the heap that holds their pairs and lambdas.
//!
//! A pair or a lambda is a handle (an index) into a [`Heap`]; a symbol is an
//! index into the symbol table of a context; a builtin is an index into the
//! table of builtins of a context. Values are plain data and can be copied
//! freely; what a pair holds is read and written through the heap.
use vstd::prelude::*;

verus! {

/// A value: nil, an integer, a symbol, a builtin, a lambda or a pair.
#[derive(Clone, Copy, Debug, PartialEq, Eq, Structural)]
pub enum Value {
    Nil,
    Integer(isize),
    /// Index into the symbol table of the context.
    Symbol(usize),
    /// Index into the builtins of the context.
    Builtin(usize),
    /// Handle of a lambda in the heap.
    Lambda(usize),
    /// Handle of a pair in the heap.
    Pair(usize),
}

/// The contents of one cons cell.
#[derive(Clone, Copy, Debug)]
pub struct Pair {
    pub car: Value,
    pub cdr: Value,
}

/// The contents of one lambda: its parameter list and its body.
#[derive(Clone, Copy, Debug)]
pub struct Lambda {
    pub bindings: Value,
    pub body: Value,
}

/// How a builtin is applied.
#[derive(Clone, Copy, Debug, PartialEq, Eq, Structural)]
pub enum BuiltinType {
    Normal,
    Macro,
    SpecialForm,
}

/// A builtin: its name (an index into the symbol table), its kind and the
/// function that implements it.
#[derive(Clone, Copy, Debug)]
pub struct Builtin<F> {
    pub name: usize,
    pub ty: BuiltinType,
    pub func: F,
}

/// The store of all pairs and lambdas. Every handle that the heap itself
/// holds refers to a cell of the heap.
pub struct Heap {
    pairs: Vec<Pair>,
    lambdas: Vec<Lambda>,
}

/// Whether `v` is a handle that refers into the given cells.
pub open spec fn valid_in(pairs: Seq<Pair>, lambdas: Seq<Lambda>, v: Value) -> bool {
    match v {
        Value::Pair(i) => i < pairs.len(),
        Value::Lambda(i) => i < lambdas.len(),
        _ => true,
    }
}

/// Whether all handles stored in the given cells refer into them.
pub open spec fn cells_wf(pairs: Seq<Pair>, lambdas: Seq<Lambda>) -> bool {
    &&& forall|i: int|
        #![trigger pairs[i]]
        0 <= i < pairs.len() ==> valid_in(pairs, lambdas, pairs[i].car) && valid_in(
            pairs,
            lambdas,
            pairs[i].cdr,
        )
    &&& forall|i: int|
        #![trigger lambdas[i]]
        0 <= i < lambdas.len() ==> valid_in(pairs, lambdas, lambdas[i].bindings)
            && valid_in(pairs, lambdas, lambdas[i].body)
}

impl Heap {
    /// The pairs of the heap, by handle.
    pub closed spec fn pairs_view(&self) -> Seq<Pair> {
        self.pairs@
    }

    /// The lambdas of the heap, by handle.
    pub closed spec fn lambdas_view(&self) -> Seq<Lambda> {
        self.lambdas@
    }

    #[verifier::type_invariant]
    pub open spec fn wf(&self) -> bool {
        &&& cells_wf(self.pairs_view(), self.lambdas_view())
        &&& self.pairs_view().len() <= usize::MAX
        &&& self.lambdas_view().len() <= usize::MAX
    }

    /// Whether `v` refers to a cell of this heap (always true of non-handles).
    pub open spec fn valid(&self, v: Value) -> bool {
        valid_in(self.pairs_view(), self.lambdas_view(), v)
    }

    /// What the pair `v` holds in its car (nil when `v` is no pair).
    pub open spec fn car_of(&self, v: Value) -> Value {
        match v {
            Value::Pair(i) => self.pairs_view()[i as int].car,
            _ => Value::Nil,
        }
    }

    /// What the pair `v` holds in its cdr (nil when `v` is no pair).
    pub open spec fn cdr_of(&self, v: Value) -> Value {
        match v {
            Value::Pair(i) => self.pairs_view()[i as int].cdr,
            _ => Value::Nil,
        }
    }

    /// The empty list is a pair whose car and cdr are both nil.
    pub open spec fn is_empty_list(&self, v: Value) -> bool {
        v is Pair && self.car_of(v) == Value::Nil && self.cdr_of(v) == Value::Nil
    }

    /// Whether this heap holds every cell of `old` unchanged (it may hold more).
    pub open spec fn extends(&self, old: &Heap) -> bool {
        &&& old.pairs_view().len() <= self.pairs_view().len()
        &&& old.lambdas_view().len() <= self.lambdas_view().len()
        &&& self.pairs_view().take(old.pairs_view().len() as int) == old.pairs_view()
        &&& self.lambdas_view().take(old.lambdas_view().len() as int) == old.lambdas_view()
    }

    /// The heap after allocating one pair holding `car` and `cdr`.
    pub open spec fn with_pair(&self, new: &Heap, car: Value, cdr: Value) -> bool {
        &&& new.pairs_view() == self.pairs_view().push(Pair { car, cdr })
        &&& new.lambdas_view() == self.lambdas_view()
    }

    /// What is written into the car of a pair is read back from it, its cdr
    /// reads as before, and so does every other pair.
    pub proof fn lemma_read_after_write_car(h1: &Heap, h2: &Heap, v: Value, x: Value, w: Value)
        requires
            v is Pair,
            h1.valid(v),
            h1.valid(w),
            h2.pairs_view() == h1.pairs_view().update(
                v->Pair_0 as int,
                Pair { car: x, cdr: h1.cdr_of(v) },
            ),
        ensures
            h2.car_of(v) == x,
            h2.cdr_of(v) == h1.cdr_of(v),
            w != v ==> h2.car_of(w) == h1.car_of(w) && h2.cdr_of(w) == h1.cdr_of(w),
    {
    }

    /// What is written into the cdr of a pair is read back from it, its car
    /// reads as before, and so does every other pair.
    pub proof fn lemma_read_after_write_cdr(h1: &Heap, h2: &Heap, v: Value, x: Value, w: Value)
        requires
            v is Pair,
            h1.valid(v),
            h1.valid(w),
            h2.pairs_view() == h1.pairs_view().update(
                v->Pair_0 as int,
                Pair { car: h1.car_of(v), cdr: x },
            ),
        ensures
            h2.cdr_of(v) == x,
            h2.car_of(v) == h1.car_of(v),
            w != v ==> h2.car_of(w) == h1.car_of(w) && h2.cdr_of(w) == h1.cdr_of(w),
    {
    }

    /// Allocating a pair keeps every cell of the heap.
    pub proof fn lemma_with_pair_extends(&self, new: &Heap, car: Value, cdr: Value)
        requires
            self.with_pair(new, car, cdr),
        ensures
            new.extends(self),
    {
        assert(new.pairs_view().take(self.pairs_view().len() as int) =~= self.pairs_view());
        assert(new.lambdas_view().take(self.lambdas_view().len() as int) =~= self.lambdas_view());
    }

    /// A heap that keeps the cells of a heap that keeps the cells of `c`
    /// keeps the cells of `c`.
    pub proof fn lemma_extends_trans(a: &Heap, b: &Heap, c: &Heap)
        requires
            a.extends(b),
            b.extends(c),
        ensures
            a.extends(c),
    {
        assert(a.pairs_view().take(c.pairs_view().len() as int) =~= b.pairs_view().take(
            c.pairs_view().len() as int,
        ));
        assert(a.lambdas_view().take(c.lambdas_view().len() as int) =~= b.lambdas_view().take(
            c.lambdas_view().len() as int,
        ));
    }

    /// A heap keeps its own cells.
    pub proof fn lemma_extends_refl(&self)
        ensures
            self.extends(self),
    {
        assert(self.pairs_view().take(self.pairs_view().len() as int) =~= self.pairs_view());
        assert(self.lambdas_view().take(self.lambdas_view().len() as int) =~= self.lambdas_view());
    }

    /// An empty heap.
    pub fn new() -> (heap: Heap)
        ensures
            heap.pairs_view().len() == 0,
            heap.lambdas_view().len() == 0,
    {
        Heap { pairs: Vec::new(), lambdas: Vec::new() }
    }

    /// Whether `v` refers to a cell of this heap.
    pub fn is_valid(&self, v: Value) -> (b: bool)
        ensures
            b == self.valid(v),
    {
        match v {
            Value::Pair(i) => i < self.pairs.len(),
            Value::Lambda(i) => i < self.lambdas.len(),
            _ => true,
        }
    }

    /// The number of pairs in the heap.
    pub fn pair_count(&self) -> (n: usize)
        ensures
            n == self.pairs_view().len(),
    {
        self.pairs.len()
    }

    /// The number of lambdas in the heap.
    pub fn lambda_count(&self) -> (n: usize)
        ensures
            n == self.lambdas_view().len(),
    {
        self.lambdas.len()
    }

    /// What the lambda with handle `i` holds.
    pub fn lambda(&self, i: usize) -> (l: Lambda)
        requires
            i < self.lambdas_view().len(),
        ensures
            l == self.lambdas_view()[i as int],
    {
        self.lambdas[i]
    }

    fn push_pair(&mut self, p: Pair) -> (i: usize)
        requires
            old(self).valid(p.car),
            old(self).valid(p.cdr),
        ensures
            i == old(self).pairs_view().len(),
            final(self).pairs_view() == old(self).pairs_view().push(p),
            final(self).lambdas_view() == old(self).lambdas_view(),
    {
        proof {
            use_type_invariant(&*self);
        }
        let mut taken = Heap::new();
        std::mem::swap(self, &mut taken);
        let Heap { mut pairs, lambdas } = taken;
        let i = pairs.len();
        pairs.push(p);
        let _count = pairs.len();
        proof {
            assert forall|k: int| 0 <= k < pairs@.len() implies valid_in(
                pairs@,
                lambdas@,
                #[trigger] pairs@[k].car,
            ) && valid_in(pairs@, lambdas@, pairs@[k].cdr) by {
                if k < i {
                    assert(valid_in(old(self).pairs_view(), lambdas@, pairs@[k].car));
                    assert(valid_in(old(self).pairs_view(), lambdas@, pairs@[k].cdr));
                }
            }
            assert forall|k: int| 0 <= k < lambdas@.len() implies valid_in(
                pairs@,
                lambdas@,
                #[trigger] lambdas@[k].bindings,
            ) && valid_in(pairs@, lambdas@, lambdas@[k].body) by {
                assert(valid_in(old(self).pairs_view(), lambdas@, lambdas@[k].bindings));
                assert(valid_in(old(self).pairs_view(), lambdas@, lambdas@[k].body));
            }
        }
        *self = Heap { pairs, lambdas };
        i
    }

    fn push_lambda(&mut self, l: Lambda) -> (i: usize)
        requires
            old(self).valid(l.bindings),
            old(self).valid(l.body),
        ensures
            i == old(self).lambdas_view().len(),
            final(self).lambdas_view() == old(self).lambdas_view().push(l),
            final(self).pairs_view() == old(self).pairs_view(),
    {
        proof {
            use_type_invariant(&*self);
        }
        let mut taken = Heap::new();
        std::mem::swap(self, &mut taken);
        let Heap { pairs, mut lambdas } = taken;
        let i = lambdas.len();
        lambdas.push(l);
        let _count = lambdas.len();
        proof {
            assert forall|k: int| 0 <= k < pairs@.len() implies valid_in(
                pairs@,
                lambdas@,
                #[trigger] pairs@[k].car,
            ) && valid_in(pairs@, lambdas@, pairs@[k].cdr) by {
                assert(valid_in(pairs@, old(self).lambdas_view(), pairs@[k].car));
                assert(valid_in(pairs@, old(self).lambdas_view(), pairs@[k].cdr));
            }
            assert forall|k: int| 0 <= k < lambdas@.len() implies valid_in(
                pairs@,
                lambdas@,
                #[trigger] lambdas@[k].bindings,
            ) && valid_in(pairs@, lambdas@, lambdas@[k].body) by {
                if k < i {
                    assert(valid_in(pairs@, old(self).lambdas_view(), lambdas@[k].bindings));
                    assert(valid_in(pairs@, old(self).lambdas_view(), lambdas@[k].body));
                }
            }
        }
        *self = Heap { pairs, lambdas };
        i
    }

    fn set_pair(&mut self, i: usize, p: Pair)
        requires
            i < old(self).pairs_view().len(),
            old(self).valid(p.car),
            old(self).valid(p.cdr),
        ensures
            final(self).pairs_view() == old(self).pairs_view().update(i as int, p),
            final(self).lambdas_view() == old(self).lambdas_view(),
    {
        proof {
            use_type_invariant(&*self);
        }
        let mut taken = Heap::new();
        std::mem::swap(self, &mut taken);
        let Heap { mut pairs, lambdas } = taken;
        pairs.set(i, p);
        proof {
            assert forall|k: int| 0 <= k < pairs@.len() implies valid_in(
                pairs@,
                lambdas@,
                #[trigger] pairs@[k].car,
            ) && valid_in(pairs@, lambdas@, pairs@[k].cdr) by {
                if k != i {
                    assert(valid_in(old(self).pairs_view(), lambdas@, pairs@[k].car));
                    assert(valid_in(old(self).pairs_view(), lambdas@, pairs@[k].cdr));
                }
            }
            assert forall|k: int| 0 <= k < lambdas@.len() implies valid_in(
                pairs@,
                lambdas@,
                #[trigger] lambdas@[k].bindings,
            ) && valid_in(pairs@, lambdas@, lambdas@[k].body) by {
                assert(valid_in(old(self).pairs_view(), lambdas@, lambdas@[k].bindings));
                assert(valid_in(old(self).pairs_view(), lambdas@, lambdas@[k].body));
            }
        }
        *self = Heap { pairs, lambdas };
    }
}

impl Heap {
    /// The value that a list iterator at `cur` holds after one step: the cdr
    /// of the current cell when that is a pair other than the empty list.
    pub open spec fn list_step(&self, cur: Option<Value>) -> Option<Value> {
        match cur {
            Some(v) => {
                if v is Pair {
                    let c = self.cdr_of(v);
                    if c is Pair && !self.is_empty_list(c) {
                        Some(c)
                    } else {
                        None
                    }
                } else {
                    None
                }
            },
            None => None,
        }
    }

    /// Whether the cells that a list iterator visits from `cur` end within
    /// `fuel` steps.
    pub open spec fn list_finite(&self, cur: Option<Value>, fuel: nat) -> bool
        decreases fuel,
    {
        match cur {
            None => true,
            Some(v) => fuel > 0 && self.valid(v) && self.list_finite(self.list_step(cur), (fuel - 1) as nat),
        }
    }

    /// The cells that a list iterator visits from `cur`, in order.
    pub open spec fn list_cells(&self, cur: Option<Value>, fuel: nat) -> Seq<Value>
        decreases fuel,
    {
        match cur {
            None => Seq::empty(),
            Some(v) => if fuel > 0 {
                seq![v] + self.list_cells(self.list_step(cur), (fuel - 1) as nat)
            } else {
                Seq::empty()
            },
        }
    }

    /// Whether every path through the pairs reachable from `v` has fewer than
    /// `fuel` pairs (no cycle, and every handle valid).
    pub open spec fn tree_bounded(&self, v: Value, fuel: nat) -> bool
        decreases fuel,
    {
        match v {
            Value::Pair(_) => fuel > 0 && self.valid(v) && self.tree_bounded(
                self.car_of(v),
                (fuel - 1) as nat,
            ) && self.tree_bounded(self.cdr_of(v), (fuel - 1) as nat),
            _ => true,
        }
    }

    /// The cells that a tree iterator visits from the list iterator at `cur`:
    /// each cell, then the cells below its car, then the rest of the list.
    pub open spec fn list_walk(&self, cur: Option<Value>, fuel: nat) -> Seq<Value>
        decreases fuel,
    {
        if fuel == 0 {
            Seq::empty()
        } else {
            match cur {
                None => Seq::empty(),
                Some(v) => {
                    let below = if v is Pair && self.car_of(v) is Pair {
                        self.list_walk(Some(self.car_of(v)), (fuel - 1) as nat)
                    } else {
                        Seq::empty()
                    };
                    seq![v] + below + self.list_walk(self.list_step(cur), (fuel - 1) as nat)
                },
            }
        }
    }

    /// The cells that a tree iterator with the stack `st` (top last) visits.
    pub open spec fn stack_walk(&self, st: Seq<Option<Value>>, fuel: nat) -> Seq<Value>
        decreases st.len(),
    {
        if st.len() == 0 {
            Seq::empty()
        } else {
            self.list_walk(st.last(), fuel) + self.stack_walk(st.drop_last(), fuel)
        }
    }

    /// Whether every list iterator of the stack is finished or at a pair of
    /// this heap.
    pub open spec fn stack_ok(&self, st: Seq<Option<Value>>) -> bool {
        forall|k: int|
            0 <= k < st.len() ==> (#[trigger] st[k] matches Some(v) ==> v is Pair && self.valid(v))
    }

    /// One step of a tree iterator: the new stack and the cell it yields.
    pub open spec fn tree_next(&self, st: Seq<Option<Value>>) -> (Seq<Option<Value>>, Option<Value>)
        decreases st.len(),
    {
        if st.len() == 0 {
            (st, None)
        } else {
            match st.last() {
                None => self.tree_next(st.drop_last()),
                Some(v) => {
                    let st1 = st.drop_last().push(self.list_step(st.last()));
                    let c = self.car_of(v);
                    let st2 = if c is Pair {
                        st1.push(Some(c))
                    } else {
                        st1
                    };
                    (st2, Some(v))
                },
            }
        }
    }
}

impl Value {
    /// A new empty list: a fresh pair of two nils.
    pub fn new_pair(heap: &mut Heap) -> (v: Value)
        ensures
            v == Value::Pair(old(heap).pairs_view().len() as usize),
            old(heap).with_pair(&*final(heap), Value::Nil, Value::Nil),
            final(heap).valid(v),
            final(heap).is_empty_list(v),
    {
        Self::new_pair_car_cdr(heap, Value::Nil, Value::Nil)
    }

    /// A fresh pair holding `car` and `cdr`.
    pub fn new_pair_car_cdr(heap: &mut Heap, car: Value, cdr: Value) -> (v: Value)
        requires
            old(heap).valid(car),
            old(heap).valid(cdr),
        ensures
            v == Value::Pair(old(heap).pairs_view().len() as usize),
            old(heap).with_pair(&*final(heap), car, cdr),
            final(heap).valid(v),
            final(heap).car_of(v) == car,
            final(heap).cdr_of(v) == cdr,
    {
        let i = heap.push_pair(Pair { car, cdr });
        Value::Pair(i)
    }

    /// Whether this value is the empty list: a pair of two nils.
    pub fn is_empty_list(&self, heap: &Heap) -> (b: bool)
        requires
            heap.valid(*self),
        ensures
            b == heap.is_empty_list(*self),
    {
        match *self {
            Value::Pair(i) => {
                let p = heap.pairs[i];
                p.car == Value::Nil && p.cdr == Value::Nil
            },
            _ => false,
        }
    }

    /// The car of this pair.
    pub fn car(&self, heap: &Heap) -> (v: Value)
        requires
            *self is Pair,
            heap.valid(*self),
        ensures
            v == heap.car_of(*self),
            heap.valid(v),
    {
        proof {
            use_type_invariant(heap);
        }
        match *self {
            Value::Pair(i) => heap.pairs[i].car,
            _ => Value::Nil,
        }
    }

    /// The cdr of this pair.
    pub fn cdr(&self, heap: &Heap) -> (v: Value)
        requires
            *self is Pair,
            heap.valid(*self),
        ensures
            v == heap.cdr_of(*self),
            heap.valid(v),
    {
        proof {
            use_type_invariant(heap);
        }
        match *self {
            Value::Pair(i) => heap.pairs[i].cdr,
            _ => Value::Nil,
        }
    }

    /// The car of this value if it is a pair.
    pub fn try_car(&self, heap: &Heap) -> (v: Option<Value>)
        requires
            heap.valid(*self),
        ensures
            v == (if *self is Pair {
                Some(heap.car_of(*self))
            } else {
                None
            }),
            v matches Some(c) ==> heap.valid(c),
    {
        if let Value::Pair(_) = *self {
            Some(self.car(heap))
        } else {
            None
        }
    }

    /// The cdr of this value if it is a pair.
    pub fn try_cdr(&self, heap: &Heap) -> (v: Option<Value>)
        requires
            heap.valid(*self),
        ensures
            v == (if *self is Pair {
                Some(heap.cdr_of(*self))
            } else {
                None
            }),
            v matches Some(c) ==> heap.valid(c),
    {
        if let Value::Pair(_) = *self {
            Some(self.cdr(heap))
        } else {
            None
        }
    }

    /// The car of this pair, read in place.
    pub fn borrow_car(&self, heap: &Heap) -> (v: Value)
        requires
            *self is Pair,
            heap.valid(*self),
        ensures
            v == heap.car_of(*self),
            heap.valid(v),
    {
        self.car(heap)
    }

    /// The car of this value if it is a pair, read in place.
    pub fn try_borrow_car(&self, heap: &Heap) -> (v: Option<Value>)
        requires
            heap.valid(*self),
        ensures
            v == (if *self is Pair {
                Some(heap.car_of(*self))
            } else {
                None
            }),
            v matches Some(c) ==> heap.valid(c),
    {
        if let Value::Pair(_) = *self {
            Some(self.borrow_car(heap))
        } else {
            None
        }
    }

    /// Writes `value` into the car of this pair and gives back what it held;
    /// `None`, with the heap unchanged, when this value is no pair.
    pub fn borrow_mut_car(&self, heap: &mut Heap, value: Value) -> (prev: Option<Value>)
        requires
            old(heap).valid(*self),
            old(heap).valid(value),
        ensures
            match *self {
                Value::Pair(i) => {
                    &&& prev == Some(old(heap).car_of(*self))
                    &&& final(heap).pairs_view() == old(heap).pairs_view().update(
                        i as int,
                        Pair { car: value, cdr: old(heap).cdr_of(*self) },
                    )
                    &&& final(heap).lambdas_view() == old(heap).lambdas_view()
                },
                _ => prev is None && *final(heap) == *old(heap),
            },
    {
        proof {
            use_type_invariant(&*heap);
        }
        match *self {
            Value::Pair(i) => {
                let p = heap.pairs[i];
                heap.set_pair(i, Pair { car: value, cdr: p.cdr });
                Some(p.car)
            },
            _ => None,
        }
    }

    /// Writes `value` into the cdr of this pair and gives back what it held;
    /// `None`, with the heap unchanged, when this value is no pair.
    pub fn borrow_mut_cdr(&self, heap: &mut Heap, value: Value) -> (prev: Option<Value>)
        requires
            old(heap).valid(*self),
            old(heap).valid(value),
        ensures
            match *self {
                Value::Pair(i) => {
                    &&& prev == Some(old(heap).cdr_of(*self))
                    &&& final(heap).pairs_view() == old(heap).pairs_view().update(
                        i as int,
                        Pair { car: old(heap).car_of(*self), cdr: value },
                    )
                    &&& final(heap).lambdas_view() == old(heap).lambdas_view()
                },
                _ => prev is None && *final(heap) == *old(heap),
            },
    {
        proof {
            use_type_invariant(&*heap);
        }
        match *self {
            Value::Pair(i) => {
                let p = heap.pairs[i];
                heap.set_pair(i, Pair { car: p.car, cdr: value });
                Some(p.cdr)
            },
            _ => None,
        }
    }

    /// A symbol with the given index in the symbol table.
    pub fn new_symbol(s: usize) -> (v: Value)
        ensures
            v == Value::Symbol(s),
    {
        Value::Symbol(s)
    }

    /// Whether this value is a symbol.
    pub fn is_symbol(&self) -> (b: bool)
        ensures
            b == (*self is Symbol),
    {
        matches!(*self, Value::Symbol(_))
    }

    /// The index in the symbol table of this symbol.
    pub fn as_symbol(&self) -> (s: usize)
        requires
            *self is Symbol,
        ensures
            *self == Value::Symbol(s),
    {
        match *self {
            Value::Symbol(s) => s,
            _ => 0,
        }
    }

    /// An integer.
    pub fn new_integer(i: isize) -> (v: Value)
        ensures
            v == Value::Integer(i),
    {
        Value::Integer(i)
    }

    /// The builtin with the given index in the table of builtins.
    pub fn new_builtin(b: usize) -> (v: Value)
        ensures
            v == Value::Builtin(b),
    {
        Value::Builtin(b)
    }

    /// A fresh lambda holding `l`.
    pub fn new_lambda(heap: &mut Heap, l: Lambda) -> (v: Value)
        requires
            old(heap).valid(l.bindings),
            old(heap).valid(l.body),
        ensures
            v == Value::Lambda(old(heap).lambdas_view().len() as usize),
            final(heap).valid(v),
            final(heap).lambdas_view()[old(heap).lambdas_view().len() as int] == l,
            final(heap).lambdas_view() == old(heap).lambdas_view().push(l),
            final(heap).pairs_view() == old(heap).pairs_view(),
    {
        let i = heap.push_lambda(l);
        Value::Lambda(i)
    }
}

/// Walks the cells of a list: first the cell it starts at, then each cdr
/// that is a pair other than the empty list.
pub struct ValueListIter {
    current: Option<Value>,
}

impl ValueListIter {
    /// The cell that the next step yields; `None` when the walk is over.
    pub closed spec fn current(&self) -> Option<Value> {
        self.current
    }

    /// An iterator that starts at `v`.
    pub fn from(v: Value) -> (it: Self)
        ensures
            it.current() == Some(v),
    {
        ValueListIter { current: Some(v) }
    }

    /// The cell that the next step yields, without moving.
    pub fn peek(&self) -> (r: Option<Value>)
        ensures
            r == self.current(),
    {
        self.current
    }

    /// Yields the current cell and moves to the next one.
    pub fn next(&mut self, heap: &Heap) -> (r: Option<Value>)
        requires
            old(self).current() matches Some(v) ==> heap.valid(v),
        ensures
            r == old(self).current(),
            final(self).current() == heap.list_step(old(self).current()),
            final(self).current() matches Some(v) ==> heap.valid(v) && v is Pair,
    {
        let ret = self.current;
        let next = match self.current {
            Some(v) => match v.try_cdr(heap) {
                Some(c) => {
                    if matches!(c, Value::Pair(_)) && !c.is_empty_list(heap) {
                        Some(c)
                    } else {
                        None
                    }
                },
                None => None,
            },
            None => None,
        };
        self.current = next;
        ret
    }
}

/// Walks a tree of lists depth first: each cell of a list, and after a cell
/// whose car is a pair, the cells of that list.
pub struct ValueTreeIter {
    iterators: Vec<ValueListIter>,
}

impl ValueTreeIter {
    /// The list iterators of the walk, innermost last.
    pub closed spec fn stack(&self) -> Seq<Option<Value>> {
        self.iterators@.map_values(|it: ValueListIter| it.current())
    }

    /// A tree iterator that starts at `v`.
    pub fn from(v: Value) -> (it: Self)
        ensures
            it.stack() == seq![Some(v)],
    {
        let mut iterators = Vec::new();
        iterators.push(ValueListIter::from(v));
        let it = ValueTreeIter { iterators };
        assert(it.stack() =~= seq![Some(v)]);
        it
    }

    /// Yields the next cell of the walk, or `None` when the walk is over.
    pub fn next(&mut self, heap: &Heap) -> (r: Option<Value>)
        requires
            heap.stack_ok(old(self).stack()),
        ensures
            (final(self).stack(), r) == heap.tree_next(old(self).stack()),
            heap.stack_ok(final(self).stack()),
    {
        proof {
            use_type_invariant(heap);
        }
        loop
            invariant
                heap.stack_ok(self.stack()),
                heap.tree_next(self.stack()) == heap.tree_next(old(self).stack()),
            decreases self.iterators@.len(),
        {
            let ghost st = self.stack();
            match self.iterators.pop() {
                None => {
                    assert(self.stack() =~= st);
                    return None;
                },
                Some(mut it) => {
                    assert(st.last() == it.current());
                    assert(self.stack() =~= st.drop_last());
                    assert(st[st.len() - 1] == st.last());
                    let r = it.next(heap);
                    match r {
                        None => {
                            assert(heap.stack_ok(self.stack()));
                        },
                        Some(v) => {
                            self.iterators.push(it);
                            let c = v.car(heap);
                            if let Value::Pair(_) = c {
                                self.iterators.push(ValueListIter::from(c));
                            }
                            let ghost st1 = st.drop_last().push(heap.list_step(st.last()));
                            assert(self.stack() =~= (if c is Pair {
                                st1.push(Some(c))
                            } else {
                                st1
                            }));
                            return Some(v);
                        },
                    }
                },
            }
        }
    }
}

impl Heap {
    /// Whether every iterator of the stack is finished or at a pair whose
    /// tree is bounded by `fuel`.
    pub open spec fn stack_bounded(&self, st: Seq<Option<Value>>, fuel: nat) -> bool {
        forall|k: int|
            0 <= k < st.len() ==> (#[trigger] st[k] matches Some(v) ==> v is Pair
                && self.tree_bounded(v, fuel))
    }

    /// A tree bound stays a bound with more fuel.
    pub proof fn lemma_tree_bounded_mono(&self, v: Value, f: nat, g: nat)
        requires
            self.tree_bounded(v, f),
            f <= g,
        ensures
            self.tree_bounded(v, g),
        decreases f,
    {
        if v is Pair {
            self.lemma_tree_bounded_mono(self.car_of(v), (f - 1) as nat, (g - 1) as nat);
            self.lemma_tree_bounded_mono(self.cdr_of(v), (f - 1) as nat, (g - 1) as nat);
        }
    }

    /// On a bounded tree, the walk does not depend on the fuel.
    pub proof fn lemma_list_walk_fuel(&self, v: Value, f: nat, g: nat)
        requires
            v is Pair,
            self.tree_bounded(v, f),
            f <= g,
        ensures
            self.list_walk(Some(v), f) == self.list_walk(Some(v), g),
        decreases f,
    {
        let c = self.car_of(v);
        let f1 = (f - 1) as nat;
        let g1 = (g - 1) as nat;
        if c is Pair {
            self.lemma_list_walk_fuel(c, f1, g1);
        }
        let step = self.list_step(Some(v));
        if let Some(d) = step {
            self.lemma_list_walk_fuel(d, f1, g1);
        }
        let below_f = if c is Pair {
            self.list_walk(Some(c), f1)
        } else {
            Seq::empty()
        };
        let below_g = if c is Pair {
            self.list_walk(Some(c), g1)
        } else {
            Seq::empty()
        };
        assert(below_f == below_g);
        assert(self.list_walk(step, f1) == self.list_walk(step, g1));
        assert(self.list_walk(Some(v), f) == seq![v] + below_f + self.list_walk(step, f1));
        assert(self.list_walk(Some(v), g) == seq![v] + below_g + self.list_walk(step, g1));
    }

    /// A tree iterator that yields nothing is left with an empty stack.
    pub proof fn lemma_tree_next_none(&self, st: Seq<Option<Value>>)
        ensures
            self.tree_next(st).1 is None ==> self.tree_next(st).0.len() == 0,
        decreases st.len(),
    {
        if st.len() > 0 && st.last() is None {
            self.lemma_tree_next_none(st.drop_last());
        }
    }

    /// On bounded trees, the walk of a stack does not depend on the fuel.
    pub proof fn lemma_stack_walk_fuel(&self, st: Seq<Option<Value>>, f: nat, g: nat)
        requires
            self.stack_bounded(st, f),
            self.stack_bounded(st, g),
        ensures
            self.stack_walk(st, f) == self.stack_walk(st, g),
        decreases st.len(),
    {
        if st.len() > 0 {
            let rest = st.drop_last();
            assert(self.stack_bounded(rest, f) && self.stack_bounded(rest, g)) by {
                assert forall|k: int| 0 <= k < rest.len() implies #[trigger] rest[k] == st[k] by {}
            }
            self.lemma_stack_walk_fuel(rest, f, g);
            assert(st.last() == st[st.len() - 1]);
            if let Some(v) = st.last() {
                if f <= g {
                    self.lemma_list_walk_fuel(v, f, g);
                } else {
                    self.lemma_list_walk_fuel(v, g, f);
                }
            }
        }
    }

    proof fn lemma_stack_walk_push(&self, st: Seq<Option<Value>>, x: Option<Value>, fuel: nat)
        ensures
            self.stack_walk(st.push(x), fuel) == self.list_walk(x, fuel) + self.stack_walk(st, fuel),
    {
        assert(st.push(x).drop_last() =~= st);
    }

    /// One step of a tree iterator yields the first cell of its walk and
    /// leaves the rest of the walk.
    pub proof fn lemma_tree_next_walk(&self, st: Seq<Option<Value>>, fuel: nat)
        requires
            self.stack_ok(st),
            self.stack_bounded(st, fuel),
        ensures
            ({
                let (st2, r) = self.tree_next(st);
                let w = self.stack_walk(st, fuel);
                &&& self.stack_ok(st2)
                &&& self.stack_bounded(st2, fuel)
                &&& r is None <==> w.len() == 0
                &&& r matches Some(c) ==> c == w[0] && self.stack_walk(st2, fuel) == w.drop_first()
            }),
        decreases st.len(),
    {
        if st.len() == 0 {
        } else {
            let rest = st.drop_last();
            assert(self.stack_ok(rest)) by {
                assert forall|k: int| 0 <= k < rest.len() implies (#[trigger] rest[k] matches Some(
                    v,
                ) ==> v is Pair && self.valid(v)) by {
                    assert(rest[k] == st[k]);
                }
            }
            assert(self.stack_bounded(rest, fuel)) by {
                assert forall|k: int| 0 <= k < rest.len() implies (#[trigger] rest[k] matches Some(
                    v,
                ) ==> v is Pair && self.tree_bounded(v, fuel)) by {
                    assert(rest[k] == st[k]);
                }
            }
            assert(st.last() == st[st.len() - 1]);
            match st.last() {
                None => {
                    self.lemma_tree_next_walk(rest, fuel);
                },
                Some(v) => {
                    let c = self.car_of(v);
                    let step = self.list_step(st.last());
                    let f1 = (fuel - 1) as nat;
                    if c is Pair {
                        self.lemma_list_walk_fuel(c, f1, fuel);
                        self.lemma_tree_bounded_mono(c, f1, fuel);
                    }
                    if let Some(d) = step {
                        self.lemma_list_walk_fuel(d, f1, fuel);
                        self.lemma_tree_bounded_mono(d, f1, fuel);
                    }
                    let st1 = rest.push(step);
                    self.lemma_stack_walk_push(rest, step, fuel);
                    let st2 = if c is Pair {
                        st1.push(Some(c))
                    } else {
                        st1
                    };
                    if c is Pair {
                        self.lemma_stack_walk_push(st1, Some(c), fuel);
                    }
                    let w = self.stack_walk(st, fuel);
                    let below = if c is Pair {
                        self.list_walk(Some(c), f1)
                    } else {
                        Seq::empty()
                    };
                    assert(w == seq![v] + below + self.list_walk(step, f1) + self.stack_walk(
                        rest,
                        fuel,
                    ));
                    assert(self.stack_walk(st2, fuel) =~= w.drop_first());
                    assert forall|k: int| 0 <= k < st2.len() implies (#[trigger] st2[k] matches Some(
                        x,
                    ) ==> x is Pair && self.valid(x) && self.tree_bounded(x, fuel)) by {
                        if k < rest.len() {
                            assert(st2[k] == rest[k]);
                        }
                    }
                },
            }
        }
    }
}

impl Heap {
    /// Whether `new` is this heap with `x` put in the car of the pair `c`.
    pub open spec fn with_car(&self, new: &Heap, c: Value, x: Value) -> bool {
        new.pairs_view() == self.pairs_view().update(
            c->Pair_0 as int,
            Pair { car: x, cdr: self.cdr_of(c) },
        )
    }

    /// Putting a value that is no pair in the car of a pair whose car was a
    /// pair (or changing no pair at all) keeps a bounded tree bounded, and
    /// never lengthens the walk of a list of it.
    pub proof fn lemma_with_car_atom(&self, new: &Heap, c: Value, x: Value, v: Value, f: nat)
        requires
            c is Pair,
            self.valid(c),
            self.car_of(c) is Pair,
            !(x is Pair),
            self.with_car(new, c, x) || new.pairs_view() == self.pairs_view(),
            self.tree_bounded(v, f),
        ensures
            new.tree_bounded(v, f),
            v is Pair ==> new.list_walk(Some(v), f).len() <= self.list_walk(Some(v), f).len(),
        decreases f,
    {
        if v is Pair {
            let f1 = (f - 1) as nat;
            let i = v->Pair_0 as int;
            let ci = c->Pair_0 as int;
            if i != ci {
                assert(new.pairs_view()[i] == self.pairs_view()[i]);
            }
            assert(new.cdr_of(v) == self.cdr_of(v));
            let a = self.car_of(v);
            let d = self.cdr_of(v);
            if v != c || new.pairs_view() == self.pairs_view() {
                self.lemma_with_car_atom(new, c, x, a, f1);
            } else {
                assert(new.car_of(v) == x);
            }
            assert(new.valid(v));
            self.lemma_with_car_atom(new, c, x, d, f1);
            assert(new.tree_bounded(new.car_of(v), f1));
            assert(new.tree_bounded(new.cdr_of(v), f1));
            assert(f > 0);
            if d is Pair && d != c {
                let di = d->Pair_0 as int;
                assert(di != ci);
                assert(new.pairs_view()[di] == self.pairs_view()[di]);
            }
            if d == c {
                assert(!self.is_empty_list(d));
            }
            let step = self.list_step(Some(v));
            let step2 = new.list_step(Some(v));
            assert(step2 == step || step2 is None);
            let below = if v is Pair && self.car_of(v) is Pair {
                self.list_walk(Some(self.car_of(v)), f1)
            } else {
                Seq::empty()
            };
            let below2 = if v is Pair && new.car_of(v) is Pair {
                new.list_walk(Some(new.car_of(v)), f1)
            } else {
                Seq::empty()
            };
            assert(below2.len() <= below.len()) by {
                if v == c && new.pairs_view() != self.pairs_view() {
                    assert(new.car_of(v) == x);
                }
            }
            let rest = self.list_walk(step, f1);
            let rest2 = new.list_walk(step2, f1);
            assert(rest2.len() <= rest.len());
            assert(self.list_walk(Some(v), f) == seq![v] + below + rest);
            assert(new.list_walk(Some(v), f) == seq![v] + below2 + rest2);
        }
    }

    /// The same for every list of a stack of list walks; the lists of the
    /// stack stay pairs of the heap.
    pub proof fn lemma_with_car_atom_stack(
        &self,
        new: &Heap,
        c: Value,
        x: Value,
        st: Seq<Option<Value>>,
        f: nat,
    )
        requires
            c is Pair,
            self.valid(c),
            self.car_of(c) is Pair,
            !(x is Pair),
            self.with_car(new, c, x) || new.pairs_view() == self.pairs_view(),
            self.stack_bounded(st, f),
        ensures
            new.stack_bounded(st, f),
            new.stack_ok(st),
            new.stack_walk(st, f).len() <= self.stack_walk(st, f).len(),
        decreases st.len(),
    {
        assert forall|k: int| 0 <= k < st.len() implies (#[trigger] st[k] matches Some(v) ==> v is Pair
            && new.tree_bounded(v, f)) by {
            if let Some(v) = st[k] {
                self.lemma_with_car_atom(new, c, x, v, f);
            }
        }
        if st.len() > 0 {
            let rest = st.drop_last();
            assert(self.stack_bounded(rest, f)) by {
                assert forall|k: int| 0 <= k < rest.len() implies (#[trigger] rest[k] matches Some(
                    v,
                ) ==> v is Pair && self.tree_bounded(v, f)) by {
                    assert(rest[k] == st[k]);
                }
            }
            self.lemma_with_car_atom_stack(new, c, x, rest, f);
            assert(st.last() == st[st.len() - 1]);
            if let Some(v) = st.last() {
                self.lemma_with_car_atom(new, c, x, v, f);
            }
        }
    }
}

impl ValueTreeIter {
    /// Runs the walk to its end and gives back every cell it yields, in order.
    pub fn remaining(&mut self, heap: &Heap) -> (cells: Vec<Value>)
        requires
            heap.stack_ok(old(self).stack()),
            exists|f: nat| heap.stack_bounded(old(self).stack(), f),
        ensures
            forall|f: nat|
                heap.stack_bounded(old(self).stack(), f) ==> cells@ == heap.stack_walk(
                    old(self).stack(),
                    f,
                ),
            final(self).stack().len() == 0,
    {
        let ghost fuel = choose|f: nat| heap.stack_bounded(old(self).stack(), f);
        let mut cells: Vec<Value> = Vec::new();
        loop
            invariant
                heap.stack_ok(self.stack()),
                heap.stack_bounded(self.stack(), fuel),
                heap.stack_bounded(old(self).stack(), fuel),
                heap.stack_walk(old(self).stack(), fuel) == cells@ + heap.stack_walk(
                    self.stack(),
                    fuel,
                ),
            decreases heap.stack_walk(self.stack(), fuel).len(),
        {
            proof {
                heap.lemma_tree_next_walk(self.stack(), fuel);
            }
            let ghost w = heap.stack_walk(self.stack(), fuel);
            let ghost old_st = self.stack();
            match self.next(heap) {
                None => {
                    assert(cells@ =~= cells@ + w);
                    proof {
                        assert forall|f: nat| heap.stack_bounded(old(self).stack(), f) implies cells@
                            == heap.stack_walk(old(self).stack(), f) by {
                            heap.lemma_stack_walk_fuel(old(self).stack(), fuel, f);
                        }
                    }
                    proof {
                        heap.lemma_tree_next_none(old_st);
                    }
                    return cells;
                },
                Some(c) => {
                    assert(w =~= seq![c] + w.drop_first());
                    cells.push(c);
                },
            }
        }
    }
}

impl Heap {
    /// On a finite list, the cells visited do not depend on the fuel.
    pub proof fn lemma_list_cells_fuel(&self, cur: Option<Value>, f: nat, g: nat)
        requires
            self.list_finite(cur, f),
            f <= g,
        ensures
            self.list_finite(cur, g),
            self.list_cells(cur, f) == self.list_cells(cur, g),
        decreases f,
    {
        if cur is Some {
            self.lemma_list_cells_fuel(self.list_step(cur), (f - 1) as nat, (g - 1) as nat);
        }
    }
}

impl ValueListIter {
    /// Runs the walk to its end and gives back every cell it yields, in order.
    pub fn remaining(&mut self, heap: &Heap) -> (cells: Vec<Value>)
        requires
            exists|f: nat| heap.list_finite(old(self).current(), f),
        ensures
            forall|f: nat|
                heap.list_finite(old(self).current(), f) ==> cells@ == heap.list_cells(
                    old(self).current(),
                    f,
                ),
            final(self).current() is None,
    {
        let ghost fuel = choose|f: nat| heap.list_finite(old(self).current(), f);
        let ghost mut f: nat = fuel;
        let mut cells: Vec<Value> = Vec::new();
        while self.current.is_some()
            invariant
                heap.list_finite(old(self).current(), fuel),
                heap.list_finite(self.current(), f),
                heap.list_cells(old(self).current(), fuel) == cells@ + heap.list_cells(
                    self.current(),
                    f,
                ),
            decreases f,
        {
            let ghost cur = self.current();
            let c = self.next(heap);
            proof {
                assert(heap.list_cells(cur, f) == seq![c.unwrap()] + heap.list_cells(
                    self.current(),
                    (f - 1) as nat,
                ));
                f = (f - 1) as nat;
            }
            cells.push(c.unwrap());
            assert(heap.list_cells(old(self).current(), fuel) =~= cells@ + heap.list_cells(
                self.current(),
                f,
            ));
        }
        proof {
            assert(cells@ =~= cells@ + heap.list_cells(self.current(), f));
            assert forall|g: nat| heap.list_finite(old(self).current(), g) implies cells@
                == heap.list_cells(old(self).current(), g) by {
                if g <= fuel {
                    heap.lemma_list_cells_fuel(old(self).current(), g, fuel);
                } else {
                    heap.lemma_list_cells_fuel(old(self).current(), fuel, g);
                }
            }
        }
        cells
    }
}

/// The name of the key of the association-list cell `cell`: the symbol in
/// the car of its car.
pub open spec fn entry_name(heap: &Heap, syms: Seq<Seq<char>>, cell: Value) -> Option<Seq<char>> {
    let entry = heap.car_of(cell);
    let key = heap.car_of(entry);
    if cell is Pair && entry is Pair && key is Symbol && key->Symbol_0 < syms.len() {
        Some(syms[key->Symbol_0 as int])
    } else {
        None
    }
}

/// The value of the first entry from cell `k` on whose key is `name`.
pub open spec fn alist_lookup(
    heap: &Heap,
    syms: Seq<Seq<char>>,
    cells: Seq<Value>,
    name: Seq<char>,
    k: int,
) -> Option<Value>
    decreases cells.len() - k,
{
    if k < 0 || k >= cells.len() {
        None
    } else if entry_name(heap, syms, cells[k]) == Some(name) {
        Some(heap.cdr_of(heap.car_of(cells[k])))
    } else {
        alist_lookup(heap, syms, cells, name, k + 1)
    }
}

/// Whether every entry looked at, from cell `k` up to the first whose key
/// is `name`, has a symbol as its key.
pub open spec fn alist_ok(
    heap: &Heap,
    syms: Seq<Seq<char>>,
    cells: Seq<Value>,
    name: Seq<char>,
    k: int,
) -> bool
    decreases cells.len() - k,
{
    if k < 0 || k >= cells.len() {
        true
    } else {
        entry_name(heap, syms, cells[k]) is Some && (entry_name(heap, syms, cells[k]) == Some(name)
            || alist_ok(heap, syms, cells, name, k + 1))
    }
}

/// Looking a name up gives the value of an entry whose key is a symbol
/// named exactly that name, with no such entry before it; it gives nothing
/// only when no entry from cell `k` on has a key so named.
pub proof fn lemma_alist_lookup_finds_first(
    heap: &Heap,
    syms: Seq<Seq<char>>,
    cells: Seq<Value>,
    name: Seq<char>,
    k: int,
)
    requires
        0 <= k,
    ensures
        alist_lookup(heap, syms, cells, name, k) matches Some(v) ==> exists|j: int|
            k <= j < cells.len() && (heap.car_of(heap.car_of(#[trigger] cells[j]))
                matches Value::Symbol(s) && s < syms.len() && syms[s as int] == name) && v
                == heap.cdr_of(heap.car_of(cells[j])) && forall|i: int|
                k <= i < j ==> !(heap.car_of(heap.car_of(#[trigger] cells[i]))
                    matches Value::Symbol(s) && s < syms.len() && syms[s as int] == name),
        alist_lookup(heap, syms, cells, name, k) is None ==> forall|j: int|
            k <= j < cells.len() ==> !(heap.car_of(heap.car_of(#[trigger] cells[j]))
                matches Value::Symbol(s) && s < syms.len() && syms[s as int] == name),
    decreases cells.len() - k,
{
    if k < cells.len() {
        lemma_alist_lookup_finds_first(heap, syms, cells, name, k + 1);
        if entry_name(heap, syms, cells[k]) != Some(name) {
            if let Some(v) = alist_lookup(heap, syms, cells, name, k + 1) {
                let j = choose|j: int|
                    k + 1 <= j < cells.len() && (heap.car_of(heap.car_of(#[trigger] cells[j]))
                        matches Value::Symbol(s) && s < syms.len() && syms[s as int] == name) && v
                        == heap.cdr_of(heap.car_of(cells[j])) && forall|i: int|
                        k + 1 <= i < j ==> !(heap.car_of(heap.car_of(#[trigger] cells[i]))
                            matches Value::Symbol(s) && s < syms.len() && syms[s as int] == name);
            }
        }
    }
}

impl Value {
    /// Looks `name` up in this association list: the cdr of the first entry
    /// whose car is the symbol `name`.
    pub fn assoc(&self, heap: &Heap, symbol_table: &Vec<String>, name: &str) -> (r: Option<Value>)
        requires
            exists|f: nat|
                heap.list_finite(Some(*self), f) && alist_ok(
                    heap,
                    symbol_table@.map_values(|s: String| s@),
                    #[trigger] heap.list_cells(Some(*self), f),
                    name@,
                    0,
                ),
        ensures
            forall|f: nat|
                heap.list_finite(Some(*self), f) ==> r == alist_lookup(
                    heap,
                    symbol_table@.map_values(|s: String| s@),
                    #[trigger] heap.list_cells(Some(*self), f),
                    name@,
                    0,
                ),
            forall|f: nat|
                #[trigger] heap.list_finite(Some(*self), f) ==> ({
                    let cells = heap.list_cells(Some(*self), f);
                    let syms = symbol_table@.map_values(|s: String| s@);
                    &&& r matches Some(v) ==> exists|j: int|
                        0 <= j < cells.len() && (heap.car_of(heap.car_of(#[trigger] cells[j]))
                            matches Value::Symbol(s) && s < syms.len() && syms[s as int] == name@)
                            && v == heap.cdr_of(heap.car_of(cells[j])) && forall|i: int|
                            0 <= i < j ==> !(heap.car_of(heap.car_of(#[trigger] cells[i]))
                                matches Value::Symbol(s) && s < syms.len() && syms[s as int]
                                == name@)
                    &&& r is None ==> forall|j: int|
                        0 <= j < cells.len() ==> !(heap.car_of(heap.car_of(#[trigger] cells[j]))
                            matches Value::Symbol(s) && s < syms.len() && syms[s as int] == name@)
                }),
    {
        proof {
            use_type_invariant(heap);
        }
        let ghost syms = symbol_table@.map_values(|s: String| s@);
        let ghost fuel = choose|f: nat|
            heap.list_finite(Some(*self), f) && alist_ok(
                heap,
                syms,
                #[trigger] heap.list_cells(Some(*self), f),
                name@,
                0,
            );
        let ghost cells = heap.list_cells(Some(*self), fuel);
        proof {
            assert forall|g: nat| heap.list_finite(Some(*self), g) implies #[trigger] heap.list_cells(
                Some(*self),
                g,
            ) == cells by {
                if g <= fuel {
                    heap.lemma_list_cells_fuel(Some(*self), g, fuel);
                } else {
                    heap.lemma_list_cells_fuel(Some(*self), fuel, g);
                }
            }
        }
        let key: String = name.to_owned();
        let mut iter = ValueListIter::from(*self);
        let ghost mut f: nat = fuel;
        let ghost mut k: int = 0;
        assert(cells.skip(0) =~= cells);
        loop
            invariant
                syms == symbol_table@.map_values(|s: String| s@),
                key@ == name@,
                cells == heap.list_cells(Some(*self), fuel),
                forall|g: nat|
                    heap.list_finite(Some(*self), g) ==> #[trigger] heap.list_cells(Some(*self), g)
                        == cells,
                heap.list_finite(iter.current(), f),
                0 <= k <= cells.len(),
                heap.list_cells(iter.current(), f) == cells.skip(k),
                alist_ok(heap, syms, cells, name@, k),
                alist_lookup(heap, syms, cells, name@, 0) == alist_lookup(
                    heap,
                    syms,
                    cells,
                    name@,
                    k,
                ),
            decreases f,
        {
            let ghost cur = iter.current();
            match iter.next(heap) {
                None => {
                    assert(cells.skip(k).len() == 0);
                    proof {
                        lemma_alist_lookup_finds_first(heap, syms, cells, name@, 0);
                    }
                    return None;
                },
                Some(v) => {
                    proof {
                        assert(heap.list_cells(cur, f) == seq![v] + heap.list_cells(
                            heap.list_step(cur),
                            (f - 1) as nat,
                        ));
                        assert(cells.skip(k)[0] == v);
                        assert(cells[k] == v);
                        let rest = heap.list_cells(iter.current(), (f - 1) as nat);
                        assert((seq![v] + rest).drop_first() =~= rest);
                        assert(cells.skip(k).drop_first() =~= cells.skip(k + 1));
                    }
                    let entry = v.car(heap);
                    let sym = entry.car(heap);
                    let s = sym.as_symbol();
                    if symbol_table[s] == key {
                        proof {
                            assert(syms[s as int] == symbol_table@[s as int]@);
                            assert(entry_name(heap, syms, cells[k]) == Some(name@));
                            assert(alist_lookup(heap, syms, cells, name@, k) == Some(
                                heap.cdr_of(entry),
                            ));
                            lemma_alist_lookup_finds_first(heap, syms, cells, name@, 0);
                        }
                        let r = entry.cdr(heap);
                        return Some(r);
                    }
                    proof {
                        k = k + 1;
                        f = (f - 1) as nat;
                    }
                },
            }
        }
    }
}

} // verus!
