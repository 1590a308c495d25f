//! The interpreter state: the heap, the symbol table, the builtins, and the
//! program read last; reading a program, expanding its special forms and
//! evaluating values.
use vstd::prelude::*;

use crate::syntax::{
    atom, close_token, intern_tokens, lemma_intern_tokens_concat, lemma_intern_tokens_prefix,
    lemma_intern_trailing_closes, lemma_parse_seq_bounds, lemma_represents_frame,
    lemma_represents_list_frame, lemma_represents_valid, parse_seq, program, program_ok,
    represents, represents_list, table_extends, Sexp, rep_cells, rep_list_cells, cells_within,
    lemma_cells_concat, lemma_rep_cells_frame, lemma_rep_list_cells_frame,
};
use crate::text::{parse_isize, parse_isize_spec};
use crate::tokenizer::{byte_len, exhausted_at, lemma_token_bounds, tokens_from, Tokenizer};
use crate::value::{Builtin, BuiltinType, Heap, Value, ValueTreeIter};

verus! {

/// The function behind a builtin. The interpreter applies it to the
/// arguments of a call (or, for a special form, to the whole form) and to
/// the context, and uses what it returns.
pub trait Primitive: Sized {
    /// Whether a call with the arguments `args`, made in the context
    /// `before`, may return `r` and leave the context as `after`.
    spec fn call_spec(&self, args: Value, before: Context<Self>, after: Context<Self>, r: Value) -> bool;

    /// Applies the function to `args` in the context `ctx`.
    fn call(&self, args: &Value, ctx: &mut Context<Self>) -> (r: Value)
        ensures
            self.call_spec(*args, *old(ctx), *final(ctx), r),
    ;
}

/// The state of the interpreter.
pub struct Context<F> {
    /// The global environment.
    pub env: Value,
    /// The names of all symbols; a symbol is an index into this table.
    pub symbol_table: Vec<String>,
    /// The builtins, in the order they were added.
    pub builtins: Vec<Builtin<F>>,
    /// The program read last: a list of its top-level forms.
    pub ast: Value,
    /// The pairs and lambdas of the interpreter.
    pub heap: Heap,
}

/// The table after interning `name`: unchanged when the name is there
/// already, else with the name added at the end.
pub open spec fn intern(syms: Seq<Seq<char>>, name: Seq<char>) -> Seq<Seq<char>> {
    if syms.contains(name) {
        syms
    } else {
        syms.push(name)
    }
}

/// Whether no name occurs twice in the table.
pub open spec fn no_duplicates(syms: Seq<Seq<char>>) -> bool {
    forall|i: int, j: int| 0 <= i < j < syms.len() ==> syms[i] != syms[j]
}

/// Interning a name twice interns it once: the second time leaves the table
/// as the first left it, and the name is then in the table.
pub proof fn lemma_intern_idempotent(syms: Seq<Seq<char>>, name: Seq<char>)
    ensures
        intern(syms, name).contains(name),
        intern(intern(syms, name), name) == intern(syms, name),
{
    if !syms.contains(name) {
        assert(syms.push(name)[syms.len() as int] == name);
    }
}

/// Interning keeps a table free of duplicates: distinct symbols have
/// distinct names.
pub proof fn lemma_intern_no_duplicates(syms: Seq<Seq<char>>, name: Seq<char>)
    requires
        no_duplicates(syms),
    ensures
        no_duplicates(intern(syms, name)),
{
    if !syms.contains(name) {
        let t = syms.push(name);
        assert forall|i: int, j: int| 0 <= i < j < t.len() implies t[i] != t[j] by {
            if j == syms.len() {
                assert(t[i] == syms[i]);
            } else {
                assert(t[i] == syms[i] && t[j] == syms[j]);
            }
        }
    }
}

/// Reading tokens keeps a table free of duplicates.
pub proof fn lemma_intern_tokens_no_duplicates(syms: Seq<Seq<char>>, toks: Seq<Seq<char>>)
    requires
        no_duplicates(syms),
    ensures
        no_duplicates(intern_tokens(syms, toks)),
    decreases toks.len(),
{
    if toks.len() > 0 {
        lemma_intern_tokens_no_duplicates(syms, toks.drop_last());
        lemma_intern_no_duplicates(intern_tokens(syms, toks.drop_last()), toks.last());
    }
}

/// Whether builtin `b` has the name `name` in the table `syms`.
pub open spec fn builtin_named<F>(syms: Seq<Seq<char>>, b: Builtin<F>, name: Seq<char>) -> bool {
    b.name < syms.len() && syms[b.name as int] == name
}

/// The index of the first builtin from `k` on that has the name `name`.
pub open spec fn first_builtin_from<F>(
    syms: Seq<Seq<char>>,
    bs: Seq<Builtin<F>>,
    name: Seq<char>,
    k: int,
) -> Option<int>
    decreases bs.len() - k,
{
    if k < 0 || k >= bs.len() {
        None
    } else if builtin_named(syms, bs[k], name) {
        Some(k)
    } else {
        first_builtin_from(syms, bs, name, k + 1)
    }
}

/// The builtin found from `k` on is one of the builtins.
pub proof fn lemma_first_builtin_bounds<F>(
    syms: Seq<Seq<char>>,
    bs: Seq<Builtin<F>>,
    name: Seq<char>,
    k: int,
)
    ensures
        first_builtin_from(syms, bs, name, k) matches Some(i) ==> 0 <= k <= i < bs.len(),
    decreases bs.len() - k,
{
    if 0 <= k < bs.len() && !builtin_named(syms, bs[k], name) {
        lemma_first_builtin_bounds(syms, bs, name, k + 1);
    }
}

/// The builtin found from `k` on is named `name`, and none before it from
/// `k` on is; nothing is found only when no builtin from `k` on is named
/// `name`.
pub proof fn lemma_first_builtin_named<F>(
    syms: Seq<Seq<char>>,
    bs: Seq<Builtin<F>>,
    name: Seq<char>,
    k: int,
)
    requires
        0 <= k,
    ensures
        first_builtin_from(syms, bs, name, k) matches Some(i) ==> {
            &&& k <= i < bs.len()
            &&& bs[i].name < syms.len() && syms[bs[i].name as int] == name
            &&& forall|j: int|
                k <= j < i ==> !(bs[j].name < syms.len() && syms[#[trigger] bs[j].name as int]
                    == name)
        },
        first_builtin_from(syms, bs, name, k) is None ==> forall|j: int|
            k <= j < bs.len() ==> !(bs[j].name < syms.len() && syms[#[trigger] bs[j].name as int]
                == name),
    decreases bs.len() - k,
{
    if k < bs.len() {
        lemma_first_builtin_named(syms, bs, name, k + 1);
    }
}

impl<F> Context<F> {
    /// The names of the symbols, by index.
    pub open spec fn symbols(&self) -> Seq<Seq<char>> {
        self.symbol_table@.map_values(|s: String| s@)
    }

    /// The index of the first builtin named `name`.
    pub open spec fn builtin_index(&self, name: Seq<char>) -> Option<int> {
        first_builtin_from(self.symbols(), self.builtins@, name, 0)
    }

    /// A fresh interpreter: its environment is a new empty list, and it has
    /// no symbols, no builtins and no program.
    pub fn new() -> (ctx: Self)
        ensures
            ctx.env == Value::Pair(0),
            ctx.heap.pairs_view() == seq![crate::value::Pair { car: Value::Nil, cdr: Value::Nil }],
            ctx.heap.lambdas_view().len() == 0,
            ctx.symbol_table@.len() == 0,
            ctx.builtins@.len() == 0,
            ctx.ast == Value::Nil,
    {
        let mut heap = Heap::new();
        let env = Value::new_pair(&mut heap);
        assert(heap.pairs_view() =~= seq![crate::value::Pair { car: Value::Nil, cdr: Value::Nil }]);
        Context { env, symbol_table: Vec::new(), builtins: Vec::new(), ast: Value::Nil, heap }
    }

    /// The index of the symbol `name`, added to the table if it is new.
    pub fn get_symbol(&mut self, name: &str) -> (s: usize)
        ensures
            final(self).symbols() == intern(old(self).symbols(), name@),
            s < final(self).symbols().len(),
            final(self).symbols()[s as int] == name@,
            forall|j: int| 0 <= j < s ==> final(self).symbols()[j] != name@,
            final(self).env == old(self).env,
            final(self).builtins == old(self).builtins,
            final(self).ast == old(self).ast,
            final(self).heap == old(self).heap,
    {
        let key: String = name.to_owned();
        let n = self.symbol_table.len();
        let mut i: usize = 0;
        while i < n
            invariant
                n == self.symbol_table@.len(),
                key@ == name@,
                0 <= i <= n,
                forall|j: int| 0 <= j < i ==> self.symbols()[j] != name@,
            decreases n - i,
        {
            if self.symbol_table[i] == key {
                assert(self.symbols().contains(name@)) by {
                    assert(self.symbols()[i as int] == name@);
                }
                return i;
            }
            i = i + 1;
        }
        assert(!self.symbols().contains(name@));
        self.symbol_table.push(key);
        assert(self.symbols() =~= intern(old(self).symbols(), name@));
        n
    }

    /// Adds a builtin named `name`.
    pub fn add_builtin(&mut self, name: &str, ty: BuiltinType, func: F)
        ensures
            final(self).symbols() == intern(old(self).symbols(), name@),
            final(self).builtins@.len() == old(self).builtins@.len() + 1,
            final(self).builtins@.drop_last() == old(self).builtins@,
            final(self).builtins@.last().ty == ty,
            final(self).builtins@.last().func == func,
            final(self).builtins@.last().name < final(self).symbols().len(),
            final(self).symbols()[final(self).builtins@.last().name as int] == name@,
            forall|j: int|
                0 <= j < final(self).builtins@.last().name ==> final(self).symbols()[j] != name@,
            final(self).env == old(self).env,
            final(self).ast == old(self).ast,
            final(self).heap == old(self).heap,
    {
        let name_rc = self.get_symbol(name);
        self.builtins.push(Builtin { name: name_rc, ty, func });
        assert(self.builtins@.drop_last() =~= old(self).builtins@);
    }
}

impl<F: Copy> Context<F> {
    /// The first builtin named `name`.
    pub fn get_builtin(&self, name: &str) -> (b: Option<Builtin<F>>)
        ensures
            match self.builtin_index(name@) {
                Some(k) => b == Some(self.builtins@[k]),
                None => b is None,
            },
            b matches Some(x) ==> exists|k: int|
                #![trigger self.builtins@[k]]
                0 <= k < self.builtins@.len() && self.builtins@[k] == x && x.name
                    < self.symbols().len() && self.symbols()[x.name as int] == name@ && forall|j: int|
                    0 <= j < k ==> !(self.builtins@[j].name < self.symbols().len()
                        && self.symbols()[#[trigger] self.builtins@[j].name as int] == name@),
            b is None ==> forall|j: int|
                0 <= j < self.builtins@.len() ==> !(self.builtins@[j].name < self.symbols().len()
                    && self.symbols()[#[trigger] self.builtins@[j].name as int] == name@),
    {
        proof {
            lemma_first_builtin_named(self.symbols(), self.builtins@, name@, 0);
        }
        let key: String = name.to_owned();
        let n = self.builtins.len();
        let mut i: usize = 0;
        while i < n
            invariant
                n == self.builtins@.len(),
                key@ == name@,
                0 <= i <= n,
                self.builtin_index(name@) == first_builtin_from(
                    self.symbols(),
                    self.builtins@,
                    name@,
                    i as int,
                ),
            decreases n - i,
        {
            let b = self.builtins[i];
            if b.name < self.symbol_table.len() && self.symbol_table[b.name] == key {
                proof {
                    assert(self.symbols()[b.name as int] == name@);
                    assert(self.builtin_index(name@) == Some(i as int));
                    assert(self.builtins@[i as int] == b);
                    lemma_first_builtin_named(self.symbols(), self.builtins@, name@, 0);
                    assert(forall|j: int|
                        0 <= j < i ==> !(self.builtins@[j].name < self.symbols().len()
                            && self.symbols()[#[trigger] self.builtins@[j].name as int] == name@));
                }
                return Some(b);
            }
            i = i + 1;
        }
        None
    }
}

/// Whether `tok` is the single char `c`.
fn token_is(tok: &str, c: char) -> (b: bool)
    ensures
        b == (tok@ == seq![c]),
{
    if tok.unicode_len() == 1 {
        let first = tok.get_char(0);
        if first == c {
            assert(tok@ =~= seq![c]);
            true
        } else {
            false
        }
    } else {
        false
    }
}

/// The text of each token.
pub open spec fn token_texts(toks: Seq<&str>) -> Seq<Seq<char>> {
    toks.map_values(|t: &str| t@)
}

/// Reads every token that the tokenizer yields, until the first `None`.
fn read_tokens<'a>(t: &mut Tokenizer<'a>) -> (toks: Vec<&'a str>)
    ensures
        token_texts(toks@) == tokens_from(old(t).text(), old(t).position()),
        final(t).text() == old(t).text(),
        final(t).position() == exhausted_at(old(t).text(), old(t).position()),
{
    let mut toks: Vec<&'a str> = Vec::new();
    proof {
        use_type_invariant(&*t);
    }
    loop
        invariant
            t.text() == old(t).text(),
            0 <= t.position() <= byte_len(t.text()),
            tokens_from(old(t).text(), old(t).position()) == token_texts(toks@) + tokens_from(
                t.text(),
                t.position(),
            ),
            exhausted_at(old(t).text(), old(t).position()) == exhausted_at(t.text(), t.position()),
        decreases byte_len(t.text()) - t.position(),
    {
        proof {
            lemma_token_bounds(t.text(), t.position());
        }
        let ghost at = t.position();
        match t.next() {
            None => {
                assert(token_texts(toks@) =~= token_texts(toks@) + tokens_from(t.text(), at));
                return toks;
            },
            Some(tok) => {
                proof {
                    use_type_invariant(&*t);
                }
                let ghost before = token_texts(toks@);
                toks.push(tok);
                assert(token_texts(toks@) =~= before.push(tok@));
                assert(tokens_from(t.text(), at) == seq![tok@] + tokens_from(t.text(), t.position()));
                assert(tokens_from(old(t).text(), old(t).position()) =~= token_texts(toks@)
                    + tokens_from(t.text(), t.position()));
            },
        }
    }
}

impl<F> Context<F> {
    /// The value of a token other than a parenthesis: an integer where it
    /// parses as one, else its symbol.
    fn read_atom(&mut self, tok: &str) -> (v: Value)
        ensures
            represents(&final(self).heap, final(self).symbols(), v, atom(tok@)),
            final(self).symbols() == (if parse_isize_spec(tok@) is None {
                intern(old(self).symbols(), tok@)
            } else {
                old(self).symbols()
            }),
            final(self).heap == old(self).heap,
            final(self).env == old(self).env,
            final(self).builtins == old(self).builtins,
            final(self).ast == old(self).ast,
    {
        match parse_isize(tok) {
            Some(i) => Value::new_integer(i),
            None => {
                let symbol = self.get_symbol(tok);
                Value::new_symbol(symbol)
            },
        }
    }

    /// Reads the list whose items start at token `pos`, up to its `)` or the
    /// end of the tokens, builds it in the heap, and gives back the list and
    /// the position after it.
    #[verifier::spinoff_prover]
    fn read_list(&mut self, toks: &Vec<&str>, pos: usize) -> (r: (Value, usize))
        requires
            pos <= toks@.len(),
        ensures
            r.1 == parse_seq(token_texts(toks@), pos as int).1,
            represents_list(
                &final(self).heap,
                final(self).symbols(),
                r.0,
                parse_seq(token_texts(toks@), pos as int).0,
            ),
            final(self).heap.extends(&old(self).heap),
            rep_list_cells(
                &final(self).heap,
                r.0,
                parse_seq(token_texts(toks@), pos as int).0,
            ).no_duplicates(),
            cells_within(
                rep_list_cells(&final(self).heap, r.0, parse_seq(token_texts(toks@), pos as int).0),
                old(self).heap.pairs_view().len() as int,
                final(self).heap.pairs_view().len() as int,
            ),
            final(self).symbols() == intern_tokens(
                old(self).symbols(),
                token_texts(toks@).subrange(pos as int, r.1 as int),
            ),
            final(self).env == old(self).env,
            final(self).builtins == old(self).builtins,
            final(self).ast == old(self).ast,
        decreases toks@.len() - pos,
    {
        let ghost tv = token_texts(toks@);
        let ghost s0 = old(self).symbols();
        let mut items: Vec<Value> = Vec::new();
        let ghost mut done: Seq<Sexp> = Seq::empty();
        let ghost l0 = old(self).heap.pairs_view().len() as int;
        let ghost mut bounds: Seq<int> = seq![l0];
        let mut i: usize = pos;
        proof {
            self.heap.lemma_extends_refl();
            lemma_parse_seq_bounds(tv, pos as int);
            assert(tv.subrange(pos as int, pos as int) =~= Seq::<Seq<char>>::empty());
            assert(done + parse_seq(tv, pos as int).0 =~= parse_seq(tv, pos as int).0);
        }
        let mut end: usize = pos;
        loop
            invariant_except_break
                parse_seq(tv, pos as int) == (done + parse_seq(tv, i as int).0, parse_seq(
                    tv,
                    i as int,
                ).1),
            invariant
                tv == token_texts(toks@),
                s0 == old(self).symbols(),
                pos <= i <= toks@.len(),
                items@.len() == done.len(),
                forall|k: int|
                    0 <= k < done.len() ==> represents(
                        &self.heap,
                        self.symbols(),
                        #[trigger] items@[k],
                        done[k],
                    ),
                self.heap.extends(&old(self).heap),
                l0 == old(self).heap.pairs_view().len(),
                bounds.len() == done.len() + 1,
                bounds[0] == l0,
                bounds.last() == self.heap.pairs_view().len(),
                forall|k: int|
                    0 <= k < bounds.len() ==> l0 <= #[trigger] bounds[k]
                        <= self.heap.pairs_view().len(),
                forall|k: int| 0 <= k < done.len() ==> #[trigger] bounds[k] <= bounds[k + 1],
                forall|k: int|
                    0 <= k < done.len() ==> (#[trigger] rep_cells(
                        &self.heap,
                        items@[k],
                        done[k],
                    )).no_duplicates() && cells_within(
                        rep_cells(&self.heap, items@[k], done[k]),
                        bounds[k],
                        bounds[k + 1],
                    ),
                self.symbols() == intern_tokens(s0, tv.subrange(pos as int, i as int)),
                self.env == old(self).env,
                self.builtins == old(self).builtins,
                self.ast == old(self).ast,
            ensures
                parse_seq(tv, pos as int) == (done, end as int),
                pos <= end <= toks@.len(),
                self.symbols() == intern_tokens(s0, tv.subrange(pos as int, end as int)),
            decreases toks@.len() - i,
        {
            if i >= toks.len() {
                assert(done + parse_seq(tv, i as int).0 =~= done);
                end = i;
                break ;
            }
            let tok = toks[i];
            assert(tv[i as int] == tok@);
            let ghost sub = tv.subrange(pos as int, i as int);
            assert(tv.subrange(pos as int, i + 1) =~= sub.push(tv[i as int]));
            assert(tv.subrange(pos as int, i + 1).drop_last() =~= sub);
            if token_is(tok, ')') {
                assert(done + parse_seq(tv, i as int).0 =~= done);
                end = i + 1;
                break ;
            }
            if token_is(tok, '(') {
                proof {
                    lemma_parse_seq_bounds(tv, i + 1);
                }
                let ghost h_before = self.heap;
                let ghost syms_before = self.symbols();
                let (v, p2) = self.read_list(toks, i + 1);
                proof {
                    Heap::lemma_extends_trans(&self.heap, &h_before, &old(self).heap);
                    lemma_parse_seq_bounds(tv, i + 1);
                    lemma_intern_tokens_prefix(syms_before, tv.subrange(i + 1, p2 as int));
                    assert forall|k: int| 0 <= k < done.len() implies represents(
                        &self.heap,
                        self.symbols(),
                        #[trigger] items@[k],
                        done[k],
                    ) && rep_cells(&self.heap, items@[k], done[k]) == rep_cells(
                        &h_before,
                        items@[k],
                        done[k],
                    ) by {
                        lemma_represents_frame(
                            &h_before,
                            syms_before,
                            &self.heap,
                            self.symbols(),
                            items@[k],
                            done[k],
                        );
                        lemma_rep_cells_frame(&h_before, syms_before, &self.heap, items@[k], done[k]);
                    }
                    lemma_intern_tokens_concat(
                        s0,
                        tv.subrange(pos as int, i + 1),
                        tv.subrange(i + 1, p2 as int),
                    );
                    assert(tv.subrange(pos as int, i + 1) + tv.subrange(i + 1, p2 as int)
                        =~= tv.subrange(pos as int, p2 as int));
                    if p2 < toks@.len() {
                        lemma_parse_seq_bounds(tv, p2 as int);
                    }
                }
                items.push(v);
                proof {
                    let inner = parse_seq(tv, i + 1).0;
                    assert(parse_seq(tv, i as int).0 == seq![Sexp::List(inner)] + parse_seq(
                        tv,
                        p2 as int,
                    ).0);
                    let b0 = bounds;
                    done = done.push(Sexp::List(inner));
                    bounds = bounds.push(self.heap.pairs_view().len() as int);
                    assert(items@[items@.len() - 1] == v);
                    assert forall|k: int| 0 <= k < b0.len() implies #[trigger] bounds[k] == b0[k] by {}
                    assert(rep_cells(&self.heap, v, Sexp::List(inner)) == rep_list_cells(
                        &self.heap,
                        v,
                        inner,
                    ));
                }
                i = p2;
                assert(parse_seq(tv, pos as int).0 =~= done + parse_seq(tv, i as int).0);
            } else {
                let ghost h_before = self.heap;
                let ghost syms_before = self.symbols();
                let v = self.read_atom(tok);
                proof {
                    self.heap.lemma_extends_refl();
                    assert(table_extends(self.symbols(), syms_before)) by {
                        if parse_isize_spec(tok@) is None && !syms_before.contains(tok@) {
                            assert(syms_before.push(tok@).take(syms_before.len() as int)
                                =~= syms_before);
                        } else {
                            assert(syms_before.take(syms_before.len() as int) =~= syms_before);
                        }
                    }
                    assert forall|k: int| 0 <= k < done.len() implies represents(
                        &self.heap,
                        self.symbols(),
                        #[trigger] items@[k],
                        done[k],
                    ) by {
                        lemma_represents_frame(
                            &h_before,
                            syms_before,
                            &self.heap,
                            self.symbols(),
                            items@[k],
                            done[k],
                        );
                    }
                    lemma_parse_seq_bounds(tv, i + 1);
                }
                items.push(v);
                proof {
                    let b0 = bounds;
                    done = done.push(atom(tok@));
                    bounds = bounds.push(self.heap.pairs_view().len() as int);
                    assert(items@[items@.len() - 1] == v);
                    assert forall|k: int| 0 <= k < b0.len() implies #[trigger] bounds[k] == b0[k] by {}
                    assert(rep_cells(&self.heap, v, atom(tok@)) =~= Seq::<int>::empty());
                }
                i = i + 1;
                assert(parse_seq(tv, pos as int).0 =~= done + parse_seq(tv, i as int).0);
            }
        }
        // Build the list from its last item back to its first.
        proof {
            use_type_invariant(&self.heap);
        }
        let ghost h_items = self.heap;
        let ghost hl = self.heap.pairs_view().len() as int;
        let mut cell = Value::new_pair(&mut self.heap);
        let n = items.len();
        let mut k = n;
        proof {
            h_items.lemma_with_pair_extends(&self.heap, Value::Nil, Value::Nil);
            Heap::lemma_extends_trans(&self.heap, &h_items, &old(self).heap);
            assert(table_extends(self.symbols(), self.symbols())) by {
                assert(self.symbols().take(self.symbols().len() as int) =~= self.symbols());
            }
            assert(done.subrange(n as int, n as int).len() == 0);
            assert(self.heap.is_empty_list(cell));
            assert(represents_list(&self.heap, self.symbols(), cell, done.subrange(n as int, n as int)));
            assert forall|j: int| 0 <= j < done.len() implies represents(
                &self.heap,
                self.symbols(),
                #[trigger] items@[j],
                done[j],
            ) by {
                lemma_represents_frame(
                    &h_items,
                    self.symbols(),
                    &self.heap,
                    self.symbols(),
                    items@[j],
                    done[j],
                );
            }
            assert(cell->Pair_0 as int == hl);
            assert(rep_list_cells(&self.heap, cell, done.subrange(n as int, n as int)) =~= seq![hl]);
            assert forall|j: int| 0 <= j < done.len() implies rep_cells(
                &self.heap,
                #[trigger] items@[j],
                done[j],
            ) == rep_cells(&h_items, items@[j], done[j]) by {
                lemma_rep_cells_frame(&h_items, self.symbols(), &self.heap, items@[j], done[j]);
            }
        }
        while k > 0
            invariant
                0 <= k <= n,
                n == items@.len(),
                n == done.len(),
                represents_list(&self.heap, self.symbols(), cell, done.subrange(k as int, n as int)),
                forall|j: int|
                    0 <= j < done.len() ==> represents(
                        &self.heap,
                        self.symbols(),
                        #[trigger] items@[j],
                        done[j],
                    ),
                self.heap.extends(&old(self).heap),
                l0 == old(self).heap.pairs_view().len(),
                bounds.len() == n + 1,
                bounds[0] == l0,
                bounds[n as int] == hl,
                hl + 1 + (n - k) == self.heap.pairs_view().len(),
                forall|j: int| 0 <= j < bounds.len() ==> l0 <= #[trigger] bounds[j] <= hl,
                forall|j: int| 0 <= j < n ==> #[trigger] bounds[j] <= bounds[j + 1],
                forall|j: int|
                    0 <= j < n ==> (#[trigger] rep_cells(
                        &self.heap,
                        items@[j],
                        done[j],
                    )).no_duplicates() && cells_within(
                        rep_cells(&self.heap, items@[j], done[j]),
                        bounds[j],
                        bounds[j + 1],
                    ),
                rep_list_cells(&self.heap, cell, done.subrange(k as int, n as int)).no_duplicates(),
                cells_within(
                    rep_list_cells(&self.heap, cell, done.subrange(k as int, n as int)),
                    bounds[k as int],
                    self.heap.pairs_view().len() as int,
                ),
                self.symbols() == intern_tokens(s0, tv.subrange(pos as int, end as int)),
                self.env == old(self).env,
                self.builtins == old(self).builtins,
                self.ast == old(self).ast,
            decreases k,
        {
            k = k - 1;
            proof {
                use_type_invariant(&self.heap);
            }
            let ghost h_before = self.heap;
            let item = items[k];
            proof {
                lemma_represents_valid(&self.heap, self.symbols(), item, done[k as int]);
            }
            let ghost old_cell = cell;
            cell = Value::new_pair_car_cdr(&mut self.heap, item, cell);
            proof {
                h_before.lemma_with_pair_extends(&self.heap, item, old_cell);
                Heap::lemma_extends_trans(&self.heap, &h_before, &old(self).heap);
                assert(table_extends(self.symbols(), self.symbols())) by {
                    assert(self.symbols().take(self.symbols().len() as int) =~= self.symbols());
                }
                assert forall|j: int| 0 <= j < done.len() implies represents(
                    &self.heap,
                    self.symbols(),
                    #[trigger] items@[j],
                    done[j],
                ) && rep_cells(&self.heap, items@[j], done[j]) == rep_cells(
                    &h_before,
                    items@[j],
                    done[j],
                ) by {
                    lemma_represents_frame(
                        &h_before,
                        self.symbols(),
                        &self.heap,
                        self.symbols(),
                        items@[j],
                        done[j],
                    );
                    lemma_rep_cells_frame(&h_before, self.symbols(), &self.heap, items@[j], done[j]);
                }
                lemma_rep_list_cells_frame(
                    &h_before,
                    self.symbols(),
                    &self.heap,
                    old_cell,
                    done.subrange(k + 1, n as int),
                );
                lemma_represents_list_frame(
                    &h_before,
                    self.symbols(),
                    &self.heap,
                    self.symbols(),
                    old_cell,
                    done.subrange(k + 1, n as int),
                );
                let rest = done.subrange(k as int, n as int);
                assert(rest[0] == done[k as int]);
                assert(rest.subrange(1, rest.len() as int) =~= done.subrange(k + 1, n as int));
                assert(self.heap.car_of(cell) == item);
                assert(self.heap.cdr_of(cell) == old_cell);
                let lb = h_before.pairs_view().len() as int;
                assert(cell->Pair_0 as int == lb);
                let ic = rep_cells(&self.heap, item, done[k as int]);
                let rc = rep_list_cells(&self.heap, old_cell, done.subrange(k + 1, n as int));
                assert(rep_list_cells(&self.heap, cell, rest) == seq![lb] + (ic + rc));
                assert(rc[0] == old_cell->Pair_0 as int);
                lemma_cells_concat(ic, rc, bounds[k as int], bounds[k + 1], bounds[k + 1], lb);
                assert(cells_within(ic + rc, bounds[k as int], lb)) by {
                    assert forall|m: int| 0 <= m < (ic + rc).len() implies bounds[k as int] <= #[trigger] (ic + rc)[m] < lb by {
                        if m < ic.len() {
                            assert((ic + rc)[m] == ic[m]);
                        } else {
                            assert((ic + rc)[m] == rc[m - ic.len()]);
                        }
                    }
                }
                lemma_cells_concat(seq![lb], ic + rc, lb, lb + 1, bounds[k as int], lb);
                assert(cells_within(seq![lb] + (ic + rc), bounds[k as int], lb + 1)) by {
                    assert forall|m: int| 0 <= m < (seq![lb] + (ic + rc)).len() implies bounds[k as int] <= #[trigger] (seq![lb] + (ic + rc))[m] < lb + 1 by {
                        if m > 0 {
                            assert((seq![lb] + (ic + rc))[m] == (ic + rc)[m - 1]);
                        }
                    }
                }
            }
        }
        assert(done.subrange(0, n as int) =~= done);
        (cell, end)
    }
}

impl<F> Context<F> {
    /// Reads a program from the tokenizer, to its end: the program becomes a
    /// list of its top-level forms, built in the heap from new pairs, none
    /// of them used twice, and its symbols are added to the symbol table in
    /// the order they appear.
    pub fn parse(&mut self, t: &mut Tokenizer<'_>)
        requires
            program_ok(tokens_from(old(t).text(), old(t).position())),
        ensures
            represents_list(
                &final(self).heap,
                final(self).symbols(),
                final(self).ast,
                program(tokens_from(old(t).text(), old(t).position())),
            ),
            final(self).heap.extends(&old(self).heap),
            rep_list_cells(
                &final(self).heap,
                final(self).ast,
                program(tokens_from(old(t).text(), old(t).position())),
            ).no_duplicates(),
            cells_within(
                rep_list_cells(
                    &final(self).heap,
                    final(self).ast,
                    program(tokens_from(old(t).text(), old(t).position())),
                ),
                old(self).heap.pairs_view().len() as int,
                final(self).heap.pairs_view().len() as int,
            ),
            final(self).symbols() == intern_tokens(
                old(self).symbols(),
                tokens_from(old(t).text(), old(t).position()),
            ),
            final(self).env == old(self).env,
            final(self).builtins == old(self).builtins,
            final(t).text() == old(t).text(),
            final(t).position() == exhausted_at(old(t).text(), old(t).position()),
    {
        let toks = read_tokens(t);
        let (root, end) = self.read_list(&toks, 0);
        proof {
            let tv = token_texts(toks@);
            lemma_parse_seq_bounds(tv, 0);
            lemma_intern_trailing_closes(old(self).symbols(), tv, end as int);
        }
        self.ast = root;
    }
}

impl<F> Context<F> {
    /// Whether following cars from `v` ends, within `fuel` pairs of the heap,
    /// at a value that is no pair, and at a symbol only when there is a
    /// builtin.
    pub open spec fn chain_ok(&self, v: Value, fuel: nat) -> bool
        decreases fuel,
    {
        match v {
            Value::Pair(_) => fuel > 0 && self.heap.valid(v) && self.chain_ok(
                self.heap.car_of(v),
                (fuel - 1) as nat,
            ),
            Value::Symbol(_) => self.builtins@.len() > 0,
            _ => true,
        }
    }

    /// The value of a value that is no pair: a symbol stands for the last
    /// builtin; anything else for itself.
    pub open spec fn eval_atom(&self, v: Value) -> Value {
        match v {
            Value::Symbol(_) => Value::Builtin((self.builtins@.len() - 1) as usize),
            _ => v,
        }
    }

    /// What evaluating `v` gives when it applies no builtin; `None` when it
    /// applies one. A pair applies what its car evaluates to: a builtin is
    /// applied to the cdr, anything else gives nil.
    pub open spec fn eval_pure(&self, v: Value, fuel: nat) -> Option<Value>
        decreases fuel,
    {
        match v {
            Value::Pair(_) => if fuel == 0 {
                None
            } else {
                match self.eval_pure(self.heap.car_of(v), (fuel - 1) as nat) {
                    Some(Value::Builtin(b)) => if b < self.builtins@.len() {
                        None
                    } else {
                        Some(Value::Nil)
                    },
                    Some(_) => Some(Value::Nil),
                    None => None,
                }
            },
            _ => Some(self.eval_atom(v)),
        }
    }

    /// On a chain that ends, evaluation does not depend on the fuel.
    pub proof fn lemma_eval_pure_fuel(&self, v: Value, f: nat, g: nat)
        requires
            self.chain_ok(v, f),
            f <= g,
        ensures
            self.chain_ok(v, g),
            self.eval_pure(v, f) == self.eval_pure(v, g),
        decreases f,
    {
        if v is Pair {
            self.lemma_eval_pure_fuel(self.heap.car_of(v), (f - 1) as nat, (g - 1) as nat);
        }
    }

    /// The index of the special form that applies to the form in the car of
    /// `cell`: the first builtin named by the head symbol of that form, when
    /// it is a special form.
    pub open spec fn special_form_at(&self, cell: Value) -> Option<int> {
        let expr = self.heap.car_of(cell);
        let head = self.heap.car_of(expr);
        if cell is Pair && self.heap.valid(cell) && expr is Pair && head is Symbol
            && head->Symbol_0 < self.symbols().len() {
            match self.builtin_index(self.symbols()[head->Symbol_0 as int]) {
                Some(k) => if self.builtins@[k].ty == BuiltinType::SpecialForm {
                    Some(k)
                } else {
                    None
                },
                None => None,
            }
        } else {
            None
        }
    }
}

impl<F> Context<F> {
    /// Whether `after` is `before` with `form` put in the car of the list
    /// cell `cell`; when `cell` is no pair of the heap or `form` refers to
    /// no cell of it, `after` is `before`.
    pub open spec fn placed(before: Self, cell: Value, form: Value, after: Self) -> bool {
        if cell is Pair && before.heap.valid(cell) && before.heap.valid(form) {
            &&& after.heap.pairs_view() == before.heap.pairs_view().update(
                cell->Pair_0 as int,
                crate::value::Pair { car: form, cdr: before.heap.cdr_of(cell) },
            )
            &&& after.heap.lambdas_view() == before.heap.lambdas_view()
            &&& after.env == before.env
            &&& after.symbol_table == before.symbol_table
            &&& after.builtins == before.builtins
            &&& after.ast == before.ast
        } else {
            after == before
        }
    }
}

impl<F: Primitive> Context<F> {
    /// Whether expanding at the list cell `cell` in this context may give
    /// `r` and leave the context as `after`. Where no special form applies
    /// to the form in the car of `cell`, nothing happens and the result is
    /// `None`. Where one does, it is called with that whole form, and what
    /// it returns is the result and goes in the car of `cell`.
    pub open spec fn expand_rel(&self, cell: Value, after: Self, r: Option<Value>) -> bool {
        match self.special_form_at(cell) {
            None => r is None && after == *self,
            Some(k) => exists|mid: Self, v: Value|
                #[trigger] self.builtins@[k].func.call_spec(self.heap.car_of(cell), *self, mid, v)
                    && r == Some(v) && Self::placed(mid, cell, v, after),
        }
    }

    /// Whether `states`, `stacks`, `cells` and `rs` record the first
    /// `rs.len()` steps of expanding the special forms of the program from
    /// this context. At step `k` the tree walk, with the stack of list walks
    /// `stacks[k]`, reads the heap of `states[k]`, yields the cell `cells[k]`
    /// and leaves the stack `stacks[k + 1]`; expanding at that cell then
    /// gives `rs[k]` and leaves the context `states[k + 1]`.
    pub open spec fn walk_trace(
        &self,
        states: Seq<Self>,
        stacks: Seq<Seq<Option<Value>>>,
        cells: Seq<Value>,
        rs: Seq<Option<Value>>,
    ) -> bool {
        &&& states.len() == rs.len() + 1
        &&& stacks.len() == rs.len() + 1
        &&& cells.len() == rs.len()
        &&& states[0] == *self
        &&& stacks[0] == seq![Some(self.ast)]
        &&& forall|k: int|
            0 <= k < rs.len() ==> #[trigger] states[k].heap.tree_next(stacks[k]) == (
                stacks[k + 1],
                Some(cells[k]),
            )
        &&& forall|k: int|
            0 <= k < rs.len() ==> #[trigger] states[k].expand_rel(cells[k], states[k + 1], rs[k])
    }

    /// Whether expanding the special forms of the program ends within `n`
    /// steps, whatever the special forms return: every record of its steps
    /// is shorter than `n`, and the walk never holds a list that is no pair
    /// of the heap.
    pub open spec fn walk_ends(&self, n: nat) -> bool {
        forall|
            states: Seq<Self>,
            stacks: Seq<Seq<Option<Value>>>,
            cells: Seq<Value>,
            rs: Seq<Option<Value>>,
        |
            #[trigger] self.walk_trace(states, stacks, cells, rs) ==> rs.len() < n
                && states.last().heap.stack_ok(stacks.last())
    }

    /// Whether every special form of this context, whatever it is called
    /// with, leaves the pairs of the heap and the builtins as they were and
    /// returns no pair.
    pub open spec fn forms_keep_pairs(&self) -> bool {
        forall|k: int, args: Value, before: Self, after: Self, r: Value|
            0 <= k < self.builtins@.len() && self.builtins@[k].ty == BuiltinType::SpecialForm
                && #[trigger] self.builtins@[k].func.call_spec(args, before, after, r)
                ==> after.heap.pairs_view() == before.heap.pairs_view() && after.builtins
                == before.builtins && !(r is Pair)
    }

    proof fn lemma_walk_measure(
        &self,
        f: nat,
        states: Seq<Self>,
        stacks: Seq<Seq<Option<Value>>>,
        cells: Seq<Value>,
        rs: Seq<Option<Value>>,
        j: int,
    )
        requires
            self.ast is Pair,
            self.heap.tree_bounded(self.ast, f),
            self.forms_keep_pairs(),
            self.walk_trace(states, stacks, cells, rs),
            0 <= j <= rs.len(),
        ensures
            states[j].builtins == self.builtins,
            states[j].heap.stack_bounded(stacks[j], f),
            states[j].heap.stack_ok(stacks[j]),
            states[j].heap.stack_walk(stacks[j], f).len() + j <= self.heap.stack_walk(
                seq![Some(self.ast)],
                f,
            ).len(),
        decreases j,
    {
        if j == 0 {
            let st = seq![Some(self.ast)];
            assert(st[0] == Some(self.ast));
        } else {
            let k = j - 1;
            self.lemma_walk_measure(f, states, stacks, cells, rs, k);
            let h = states[k].heap;
            let st = stacks[k];
            let cell = cells[k];
            h.lemma_tree_next_walk(st, f);
            assert(h.tree_next(st) == (stacks[j], Some(cell)));
            let w = h.stack_walk(st, f);
            assert(states[k].expand_rel(cell, states[j], rs[k]));
            match states[k].special_form_at(cell) {
                None => {
                    assert(states[j] == states[k]);
                },
                Some(b) => {
                    let ctx = states[k];
                    let e = ctx.heap.car_of(cell);
                    lemma_first_builtin_bounds(
                        ctx.symbols(),
                        ctx.builtins@,
                        ctx.symbols()[ctx.heap.car_of(e)->Symbol_0 as int],
                        0,
                    );
                    assert(0 <= b < self.builtins@.len());
                    let (mid, v) = choose|mid: Self, v: Value|
                        #[trigger] states[k].builtins@[b].func.call_spec(
                            h.car_of(cell),
                            states[k],
                            mid,
                            v,
                        ) && rs[k] == Some(v) && Self::placed(mid, cell, v, states[j]);
                    assert(self.builtins@[b] == states[k].builtins@[b]);
                    assert(self.builtins@[b].func.call_spec(h.car_of(cell), states[k], mid, v));
                    h.lemma_with_car_atom_stack(&states[j].heap, cell, v, stacks[j], f);
                },
            }
        }
    }

    /// Expanding the special forms of a program ends when its tree is
    /// bounded and every special form leaves the pairs alone and returns no
    /// pair: within one step per cell of the walk of the tree.
    pub proof fn lemma_walk_ends(&self, f: nat)
        requires
            self.ast is Pair,
            self.heap.tree_bounded(self.ast, f),
            self.forms_keep_pairs(),
        ensures
            self.walk_ends(self.heap.stack_walk(seq![Some(self.ast)], f).len() + 1),
    {
        let m = self.heap.stack_walk(seq![Some(self.ast)], f).len();
        assert forall|
            states: Seq<Self>,
            stacks: Seq<Seq<Option<Value>>>,
            cells: Seq<Value>,
            rs: Seq<Option<Value>>,
        | #[trigger] self.walk_trace(states, stacks, cells, rs) implies rs.len() < m + 1
            && states.last().heap.stack_ok(stacks.last()) by {
            self.lemma_walk_measure(f, states, stacks, cells, rs, rs.len() as int);
        }
    }

    /// Whether applying `head` to `args` in this context may return `r` and
    /// leave the context as `after`: a builtin of the context is called with
    /// `args`; anything else gives nil and changes nothing.
    pub open spec fn apply_rel(&self, head: Value, args: Value, after: Self, r: Value) -> bool {
        match head {
            Value::Builtin(b) => if b < self.builtins@.len() {
                self.builtins@[b as int].func.call_spec(args, *self, after, r)
            } else {
                after == *self && r == Value::Nil
            },
            _ => after == *self && r == Value::Nil,
        }
    }

    /// Whether evaluating `v` in this context, with `fuel` pairs to follow,
    /// may return `r` and leave the context as `after`, where `steps` holds,
    /// innermost first, the context and the value after evaluating each car
    /// of the chain. A pair first evaluates its car, then applies what that
    /// gave to its cdr (both car and cdr read before anything is applied);
    /// any other value gives its value as an atom and changes nothing.
    pub open spec fn eval_steps(
        &self,
        v: Value,
        steps: Seq<(Self, Value)>,
        after: Self,
        r: Value,
        fuel: nat,
    ) -> bool
        decreases fuel,
    {
        match v {
            Value::Pair(_) => {
                &&& fuel > 0
                &&& steps.len() > 0
                &&& self.eval_steps(
                    self.heap.car_of(v),
                    steps.drop_last(),
                    steps.last().0,
                    steps.last().1,
                    (fuel - 1) as nat,
                )
                &&& steps.last().0.apply_rel(steps.last().1, self.heap.cdr_of(v), after, r)
            },
            _ => steps.len() == 0 && after == *self && r == self.eval_atom(v),
        }
    }

    /// Whether evaluating `v` in this context, with `fuel` pairs to follow,
    /// may return `r` and leave the context as `after`.
    pub open spec fn eval_rel(&self, v: Value, after: Self, r: Value, fuel: nat) -> bool {
        exists|steps: Seq<(Self, Value)>| #[trigger] self.eval_steps(v, steps, after, r, fuel)
    }

    /// Evaluating a value that is no pair changes nothing: a symbol gives
    /// the last builtin, any other value gives itself.
    pub proof fn lemma_eval_rel_atom(&self, v: Value, after: Self, r: Value, f: nat)
        requires
            !(v is Pair),
        ensures
            !(v is Symbol) ==> (self.eval_rel(v, after, r, f) <==> (after == *self && r == v)),
            v is Symbol ==> (self.eval_rel(v, after, r, f) <==> (after == *self && r
                == Value::Builtin((self.builtins@.len() - 1) as usize))),
    {
        if after == *self && r == self.eval_atom(v) {
            assert(self.eval_steps(v, Seq::empty(), after, r, f));
        }
    }

    /// On a chain that ends, what evaluation may do does not depend on the
    /// fuel.
    pub proof fn lemma_eval_steps_fuel(
        &self,
        v: Value,
        steps: Seq<(Self, Value)>,
        after: Self,
        r: Value,
        f: nat,
        g: nat,
    )
        requires
            self.chain_ok(v, f),
            f <= g,
        ensures
            self.eval_steps(v, steps, after, r, f) == self.eval_steps(v, steps, after, r, g),
        decreases f,
    {
        if v is Pair && steps.len() > 0 {
            self.lemma_eval_steps_fuel(
                self.heap.car_of(v),
                steps.drop_last(),
                steps.last().0,
                steps.last().1,
                (f - 1) as nat,
                (g - 1) as nat,
            );
        }
    }
}

impl<F: Primitive + Copy> Context<F> {
    fn eval_fuel(&mut self, value: Value, Ghost(fuel): Ghost<nat>) -> (r: Value)
        requires
            old(self).chain_ok(value, fuel),
        ensures
            old(self).eval_pure(value, fuel) matches Some(r0) ==> r == r0 && *final(self) == *old(
                self,
            ),
            old(self).eval_rel(value, *final(self), r, fuel),
            !(value is Pair) && !(value is Symbol) ==> r == value && *final(self) == *old(self),
            value is Symbol ==> (r matches Value::Builtin(b) && b == old(self).builtins@.len() - 1
                && *final(self) == *old(self)),
            value is Pair ==> ({
                let head = old(self).heap.car_of(value);
                let args = old(self).heap.cdr_of(value);
                let n = old(self).builtins@.len();
                &&& head is Symbol ==> old(self).builtins@[n - 1].func.call_spec(
                    args,
                    *old(self),
                    *final(self),
                    r,
                )
                &&& head matches Value::Builtin(b) ==> (b < n ==> old(
                    self,
                ).builtins@[b as int].func.call_spec(args, *old(self), *final(self), r))
                &&& !(head is Pair || head is Symbol || (head is Builtin && head->Builtin_0 < n))
                    ==> r == Value::Nil && *final(self) == *old(self)
            }),
        decreases fuel,
    {
        match value {
            Value::Pair(_) => {
                let func = value.car(&self.heap);
                let args = value.cdr(&self.heap);
                let ghost before = *self;
                let from_env = self.eval_fuel(func, Ghost((fuel - 1) as nat));
                let ghost mid = *self;
                let r = match self.builtin_to_apply(from_env) {
                    Some(b) => b.func.call(&args, self),
                    None => Value::Nil,
                };
                proof {
                    let inner = choose|steps: Seq<(Self, Value)>|
                        #[trigger] before.eval_steps(func, steps, mid, from_env, (fuel - 1) as nat);
                    let steps = inner.push((mid, from_env));
                    assert(steps.drop_last() =~= inner);
                    assert(before.eval_steps(value, steps, *self, r, fuel));
                    if !(func is Pair) {
                        assert(mid == before);
                        if func is Symbol {
                            assert(before.builtins@.len() > 0);
                        }
                    }
                }
                r
            },
            Value::Symbol(_) => {
                assert(old(self).eval_steps(
                    value,
                    Seq::empty(),
                    *self,
                    Value::Builtin((self.builtins@.len() - 1) as usize),
                    fuel,
                ));
                Value::Builtin(self.builtins.len() - 1)
            },
            _ => {
                assert(old(self).eval_steps(value, Seq::empty(), *self, value, fuel));
                value
            },
        }
    }

    /// The builtin that a pair applies when its car evaluates to `head`:
    /// the builtin that `head` names, if it names one.
    pub fn builtin_to_apply(&self, head: Value) -> (r: Option<Builtin<F>>)
        ensures
            match head {
                Value::Builtin(b) => if b < self.builtins@.len() {
                    r == Some(self.builtins@[b as int])
                } else {
                    r is None
                },
                _ => r is None,
            },
    {
        match head {
            Value::Builtin(b) => {
                if b < self.builtins.len() {
                    Some(self.builtins[b])
                } else {
                    None
                }
            },
            _ => None,
        }
    }

    /// Puts `form` in the car of the list cell `cell`, where an expanded
    /// special form goes; does nothing when `cell` is no pair of the heap or
    /// `form` refers to no cell of it.
    pub fn place_form(&mut self, cell: Value, form: Value)
        ensures
            Self::placed(*old(self), cell, form, *final(self)),
    {
        if matches!(cell, Value::Pair(_)) && self.heap.is_valid(cell) && self.heap.is_valid(form) {
            let _ = cell.borrow_mut_car(&mut self.heap, form);
        }
    }

    /// Evaluates `value`. A symbol stands for the last builtin added; a pair
    /// applies the value of its car: a builtin is called with the cdr as its
    /// arguments, and anything else gives nil; every other value stands for
    /// itself.
    pub fn eval(&mut self, value: Value) -> (r: Value)
        requires
            exists|f: nat| old(self).chain_ok(value, f),
        ensures
            forall|f: nat|
                old(self).chain_ok(value, f) ==> (old(self).eval_pure(value, f) matches Some(r0)
                    ==> r == r0 && *final(self) == *old(self)),
            forall|f: nat|
                old(self).chain_ok(value, f) ==> #[trigger] old(self).eval_rel(
                    value,
                    *final(self),
                    r,
                    f,
                ),
            !(value is Pair) && !(value is Symbol) ==> r == value && *final(self) == *old(self),
            value is Symbol ==> (r matches Value::Builtin(b) && b == old(self).builtins@.len() - 1
                && *final(self) == *old(self)),
            value is Pair ==> ({
                let head = old(self).heap.car_of(value);
                let args = old(self).heap.cdr_of(value);
                let n = old(self).builtins@.len();
                &&& head is Symbol ==> old(self).builtins@[n - 1].func.call_spec(
                    args,
                    *old(self),
                    *final(self),
                    r,
                )
                &&& head matches Value::Builtin(b) ==> (b < n ==> old(
                    self,
                ).builtins@[b as int].func.call_spec(args, *old(self), *final(self), r))
                &&& !(head is Pair || head is Symbol || (head is Builtin && head->Builtin_0 < n))
                    ==> r == Value::Nil && *final(self) == *old(self)
            }),
    {
        let ghost fuel = choose|f: nat| old(self).chain_ok(value, f);
        let r = self.eval_fuel(value, Ghost(fuel));
        proof {
            assert forall|f: nat| old(self).chain_ok(value, f) implies (old(self).eval_pure(
                value,
                f,
            ) matches Some(r0) ==> r == r0 && *self == *old(self)) by {
                if f <= fuel {
                    old(self).lemma_eval_pure_fuel(value, f, fuel);
                } else {
                    old(self).lemma_eval_pure_fuel(value, fuel, f);
                }
            }
            assert forall|f: nat| old(self).chain_ok(value, f) implies #[trigger] old(
                self,
            ).eval_rel(value, *self, r, f) by {
                let steps = choose|steps: Seq<(Self, Value)>|
                    #[trigger] old(self).eval_steps(value, steps, *self, r, fuel);
                if f <= fuel {
                    old(self).lemma_eval_steps_fuel(value, steps, *self, r, f, fuel);
                } else {
                    old(self).lemma_eval_steps_fuel(value, steps, *self, r, fuel, f);
                }
                assert(old(self).eval_steps(value, steps, *self, r, f));
            }
        }
        r
    }

    /// The special form that applies to the form in the car of `cell`, if any.
    pub fn special_form_for(&self, cell: Value) -> (r: Option<Builtin<F>>)
        ensures
            match self.special_form_at(cell) {
                Some(k) => r == Some(self.builtins@[k]),
                None => r is None,
            },
            ({
                let form = self.heap.car_of(cell);
                let head = self.heap.car_of(form);
                let headed = cell is Pair && self.heap.valid(cell) && form is Pair && head is Symbol
                    && head->Symbol_0 < self.symbols().len();
                let name = self.symbols()[head->Symbol_0 as int];
                &&& r matches Some(b) ==> {
                    &&& headed
                    &&& b.ty == BuiltinType::SpecialForm
                    &&& exists|k: int|
                        #![trigger self.builtins@[k]]
                        0 <= k < self.builtins@.len() && self.builtins@[k] == b && b.name
                            < self.symbols().len() && self.symbols()[b.name as int] == name
                            && forall|j: int|
                            0 <= j < k ==> !(self.builtins@[j].name < self.symbols().len()
                                && self.symbols()[#[trigger] self.builtins@[j].name as int] == name)
                }
                &&& r is None ==> (headed ==> forall|k: int|
                    #![trigger self.builtins@[k]]
                    0 <= k < self.builtins@.len() && self.builtins@[k].name < self.symbols().len()
                        && self.symbols()[self.builtins@[k].name as int] == name && (forall|j: int|
                        0 <= j < k ==> !(self.builtins@[j].name < self.symbols().len()
                            && self.symbols()[#[trigger] self.builtins@[j].name as int] == name))
                        ==> self.builtins@[k].ty != BuiltinType::SpecialForm)
            }),
    {
        proof {
            use_type_invariant(&self.heap);
            let form = self.heap.car_of(cell);
            let head = self.heap.car_of(form);
            if head is Symbol && head->Symbol_0 < self.symbols().len() {
                let name = self.symbols()[head->Symbol_0 as int];
                lemma_first_builtin_named(self.symbols(), self.builtins@, name, 0);
                lemma_first_builtin_bounds(self.symbols(), self.builtins@, name, 0);
            }
        }
        if !matches!(cell, Value::Pair(_)) || !self.heap.is_valid(cell) {
            return None;
        }
        let expr = cell.car(&self.heap);
        match expr.try_borrow_car(&self.heap) {
            Some(Value::Symbol(s)) => {
                if s < self.symbol_table.len() {
                    match self.get_builtin(self.symbol_table[s].as_str()) {
                        Some(b) => {
                            if b.ty == BuiltinType::SpecialForm {
                                Some(b)
                            } else {
                                None
                            }
                        },
                        None => None,
                    }
                } else {
                    None
                }
            },
            _ => None,
        }
    }

    /// Expands the special form in the car of `cell`, if one applies: calls
    /// it with the form and puts what it returns in place of the form. Gives
    /// back what the special form returned, or `None` when none applies.
    pub fn expand_at(&mut self, cell: Value) -> (r: Option<Value>)
        ensures
            old(self).expand_rel(cell, *final(self), r),
            r is Some <==> old(self).special_form_at(cell) is Some,
            r is None ==> *final(self) == *old(self),
            r matches Some(v) ==> (cell is Pair && final(self).heap.valid(cell)
                && final(self).heap.valid(v) ==> final(self).heap.car_of(cell) == v),
    {
        match self.special_form_for(cell) {
            Some(b) => {
                let ghost before = *self;
                let expr = cell.car(&self.heap);
                let new_car = b.func.call(&expr, self);
                let ghost mid = *self;
                self.place_form(cell, new_car);
                proof {
                    let k = before.special_form_at(cell)->Some_0;
                    assert(before.builtins@[k].func.call_spec(
                        before.heap.car_of(cell),
                        before,
                        mid,
                        new_car,
                    ));
                }
                Some(new_car)
            },
            None => None,
        }
    }

    /// Expands the special forms of the program: walks the tree of the
    /// program and, at each cell whose car is a form headed by the name of a
    /// special form, calls the special form with that form and puts what it
    /// returns in its place. The walk reads each cell when it reaches it,
    /// so it sees what earlier expansions left there. Gives back, for each
    /// cell of the walk, what the special form there returned, or `None`
    /// where none applied.
    pub fn process_special_forms(&mut self) -> (expanded: Vec<Option<Value>>)
        requires
            exists|n: nat| old(self).walk_ends(n),
        ensures
            exists|
                states: Seq<Self>,
                stacks: Seq<Seq<Option<Value>>>,
                cells: Seq<Value>,
            |
                #[trigger] old(self).walk_trace(states, stacks, cells, expanded@)
                    && states.last() == *final(self) && final(self).heap.tree_next(
                    stacks.last(),
                ).1 is None,
            (forall|k: int| 0 <= k < expanded@.len() ==> #[trigger] expanded@[k] is None)
                ==> *final(self) == *old(self),
    {
        let ghost n = choose|n: nat| old(self).walk_ends(n);
        let mut iter = ValueTreeIter::from(self.ast);
        let mut expanded: Vec<Option<Value>> = Vec::new();
        let ghost mut states: Seq<Self> = seq![*self];
        let ghost mut stacks: Seq<Seq<Option<Value>>> = seq![iter.stack()];
        let ghost mut cells: Seq<Value> = seq![];
        loop
            invariant_except_break
                stacks.last() == iter.stack(),
            invariant
                old(self).walk_ends(n),
                old(self).walk_trace(states, stacks, cells, expanded@),
                states.last() == *self,
                (forall|k: int| 0 <= k < expanded@.len() ==> #[trigger] expanded@[k] is None)
                    ==> *self == *old(self),
            ensures
                self.heap.tree_next(stacks.last()).1 is None,
            decreases n - expanded@.len(),
        {
            proof {
                assert(old(self).walk_trace(states, stacks, cells, expanded@));
            }
            let ghost st = iter.stack();
            match iter.next(&self.heap) {
                None => {
                    break ;
                },
                Some(cell) => {
                    let ghost before = *self;
                    let ghost rs = expanded@;
                    let ghost states0 = states;
                    let ghost stacks0 = stacks;
                    let ghost cells0 = cells;
                    let r = self.expand_at(cell);
                    expanded.push(r);
                    proof {
                        states = states0.push(*self);
                        stacks = stacks0.push(iter.stack());
                        cells = cells0.push(cell);
                        let rs2 = expanded@;
                        assert(rs2 == rs.push(r));
                        let i = rs.len() as int;
                        assert(states[i] == before);
                        assert(stacks[i] == st);
                        assert forall|k: int| 0 <= k < rs2.len() implies #[trigger] states[k].heap.tree_next(
                            stacks[k],
                        ) == (stacks[k + 1], Some(cells[k])) by {
                            if k < i {
                                assert(states[k] == states0[k]);
                                assert(stacks[k] == stacks0[k]);
                                assert(stacks[k + 1] == stacks0[k + 1]);
                                assert(cells[k] == cells0[k]);
                            }
                        }
                        assert forall|k: int| 0 <= k < rs2.len() implies #[trigger] states[k].expand_rel(
                            cells[k],
                            states[k + 1],
                            rs2[k],
                        ) by {
                            if k < i {
                                assert(states[k] == states0[k]);
                                assert(states[k + 1] == states0[k + 1]);
                                assert(cells[k] == cells0[k]);
                                assert(rs2[k] == rs[k]);
                            }
                        }
                        assert(states[0] == states0[0]);
                        assert(stacks[0] == stacks0[0]);
                        if forall|k: int| 0 <= k < rs2.len() ==> #[trigger] rs2[k] is None {
                            assert(rs2[i] is None);
                            assert forall|k: int| 0 <= k < rs.len() implies #[trigger] rs[k] is None by {
                                assert(rs2[k] is None);
                            }
                        }
                    }
                },
            }
        }
        expanded
    }
}

/// The position after the list that starts at token `pos`, as reading it
/// would find it, without building anything.
fn list_end(toks: &Vec<&str>, pos: usize) -> (end: usize)
    requires
        pos <= toks@.len(),
    ensures
        end == parse_seq(token_texts(toks@), pos as int).1,
    decreases toks@.len() - pos,
{
    let ghost tv = token_texts(toks@);
    let mut i: usize = pos;
    proof {
        lemma_parse_seq_bounds(tv, pos as int);
    }
    loop
        invariant
            tv == token_texts(toks@),
            pos <= i <= toks@.len(),
            parse_seq(tv, pos as int).1 == parse_seq(tv, i as int).1,
        decreases toks@.len() - i,
    {
        if i >= toks.len() {
            return i;
        }
        let tok = toks[i];
        assert(tv[i as int] == tok@);
        if token_is(tok, ')') {
            return i + 1;
        }
        if token_is(tok, '(') {
            proof {
                lemma_parse_seq_bounds(tv, i + 1);
            }
            let p2 = list_end(toks, i + 1);
            proof {
                if p2 < toks@.len() {
                    lemma_parse_seq_bounds(tv, p2 as int);
                }
            }
            i = p2;
        } else {
            proof {
                lemma_parse_seq_bounds(tv, i + 1);
            }
            i = i + 1;
        }
    }
}

/// Whether `input` can be read as a program: after the `)` that would close
/// the top level, only `)` follows.
pub fn check_program(input: &str) -> (b: bool)
    ensures
        b == program_ok(tokens_from(input@, 0)),
{
    let mut t = Tokenizer::new(input);
    let toks = read_tokens(&mut t);
    let ghost tv = token_texts(toks@);
    let end = list_end(&toks, 0);
    proof {
        lemma_parse_seq_bounds(tv, 0);
    }
    let mut k = end;
    while k < toks.len()
        invariant
            tv == token_texts(toks@),
            tv == tokens_from(input@, 0),
            end == parse_seq(tv, 0).1,
            end <= k <= toks@.len(),
            forall|j: int| end <= j < k ==> #[trigger] tv[j] == close_token(),
        decreases toks@.len() - k,
    {
        assert(tv[k as int] == toks@[k as int]@);
        if !token_is(toks[k], ')') {
            return false;
        }
        k = k + 1;
    }
    true
}

impl<F> Context<F> {
    /// Whether following cars from `v` ends within `fuel` pairs, as `eval`
    /// needs (see [`Context::chain_ok`]).
    pub fn chain_ends(&self, v: Value, fuel: usize) -> (b: bool)
        ensures
            b == self.chain_ok(v, fuel as nat),
        decreases fuel,
    {
        proof {
            use_type_invariant(&self.heap);
        }
        match v {
            Value::Pair(_) => {
                if fuel == 0 || !self.heap.is_valid(v) {
                    false
                } else {
                    self.chain_ends(v.car(&self.heap), fuel - 1)
                }
            },
            Value::Symbol(_) => self.builtins.len() > 0,
            _ => true,
        }
    }
}

impl Heap {
    /// Whether every path through the pairs from `v` has fewer than `fuel`
    /// pairs (see [`Heap::tree_bounded`]).
    pub fn tree_is_bounded(&self, v: Value, fuel: usize) -> (b: bool)
        ensures
            b == self.tree_bounded(v, fuel as nat),
        decreases fuel,
    {
        proof {
            use_type_invariant(self);
        }
        match v {
            Value::Pair(_) => {
                if fuel == 0 || !self.is_valid(v) {
                    false
                } else {
                    self.tree_is_bounded(v.car(self), fuel - 1) && self.tree_is_bounded(
                        v.cdr(self),
                        fuel - 1,
                    )
                }
            },
            _ => true,
        }
    }
}

} // verus!
