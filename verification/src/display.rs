//! Writing values as text.
use vstd::prelude::*;

use crate::context::Context;
use crate::syntax::{
    atom, balanced, close_token, depth, items_end, items_size, lemma_parse_seq_bounds,
    lemma_parse_seq_depth, open_token, parse_seq, program, represents, represents_list, sexp_size,
    Sexp,
};
use crate::text::{decimal, parse_isize_spec, push_char, push_decimal};
use crate::value::{Value, ValueListIter};

verus! {

/// What separates the car of list cell `c` from the next item: a space,
/// unless the cell is the last one before the empty list.
pub open spec fn item_sep<F>(ctx: &Context<F>, c: Value) -> Seq<char> {
    let d = ctx.heap.cdr_of(c);
    if d is Pair && ctx.heap.cdr_of(d) != Value::Nil {
        seq![' ']
    } else {
        Seq::empty()
    }
}

/// How `v` is written: `nil`; `i.` and the integer in decimal; the name of a
/// symbol; the name of a builtin in brackets; a lambda as `\` and its
/// parameters, `:` and its body; the empty list as `()`; a list as its items
/// in parentheses, separated by spaces; any other pair as `(car . cdr)`.
pub open spec fn show<F>(ctx: &Context<F>, v: Value, fuel: nat) -> Seq<char>
    decreases fuel,
{
    if fuel == 0 {
        Seq::empty()
    } else {
        let f = (fuel - 1) as nat;
        match v {
            Value::Nil => seq!['n', 'i', 'l'],
            Value::Integer(i) => seq!['i', '.'] + decimal(i as int),
            Value::Symbol(s) => ctx.symbols()[s as int],
            Value::Builtin(b) => seq!['['] + ctx.symbols()[ctx.builtins@[b as int].name as int]
                + seq![']'],
            Value::Lambda(l) => seq!['\\'] + show(
                ctx,
                ctx.heap.lambdas_view()[l as int].bindings,
                f,
            ) + seq![':'] + show(ctx, ctx.heap.lambdas_view()[l as int].body, f),
            Value::Pair(_) => {
                if ctx.heap.is_empty_list(v) {
                    seq!['(', ')']
                } else if ctx.heap.cdr_of(v) is Pair {
                    seq!['('] + show_items(ctx, Some(v), f) + seq![')']
                } else {
                    seq!['('] + show(ctx, ctx.heap.car_of(v), f) + seq![' ', '.', ' '] + show(
                        ctx,
                        ctx.heap.cdr_of(v),
                        f,
                    ) + seq![')']
                }
            },
        }
    }
}

/// How the items of a list are written, from the cell `cur` on.
pub open spec fn show_items<F>(ctx: &Context<F>, cur: Option<Value>, fuel: nat) -> Seq<char>
    decreases fuel,
{
    match cur {
        Some(c) => if fuel == 0 {
            Seq::empty()
        } else {
            let f = (fuel - 1) as nat;
            show(ctx, ctx.heap.car_of(c), f) + item_sep(ctx, c) + show_items(
                ctx,
                ctx.heap.list_step(cur),
                f,
            )
        },
        None => Seq::empty(),
    }
}

/// Whether `v` can be written within `fuel` nested steps: every handle and
/// index it reaches is valid, and it reaches no cycle.
pub open spec fn displayable<F>(ctx: &Context<F>, v: Value, fuel: nat) -> bool
    decreases fuel,
{
    if fuel == 0 {
        false
    } else {
        let f = (fuel - 1) as nat;
        match v {
            Value::Symbol(s) => s < ctx.symbols().len(),
            Value::Builtin(b) => b < ctx.builtins@.len() && ctx.builtins@[b as int].name
                < ctx.symbols().len(),
            Value::Lambda(l) => ctx.heap.valid(v) && displayable(
                ctx,
                ctx.heap.lambdas_view()[l as int].bindings,
                f,
            ) && displayable(ctx, ctx.heap.lambdas_view()[l as int].body, f),
            Value::Pair(_) => ctx.heap.valid(v) && (ctx.heap.is_empty_list(v) || (if ctx.heap.cdr_of(
                v,
            ) is Pair {
                items_displayable(ctx, Some(v), f)
            } else {
                displayable(ctx, ctx.heap.car_of(v), f) && displayable(ctx, ctx.heap.cdr_of(v), f)
            })),
            _ => true,
        }
    }
}

/// Whether the items of a list, from the cell `cur` on, can be written.
pub open spec fn items_displayable<F>(ctx: &Context<F>, cur: Option<Value>, fuel: nat) -> bool
    decreases fuel,
{
    match cur {
        Some(c) => fuel > 0 && c is Pair && ctx.heap.valid(c) && displayable(
            ctx,
            ctx.heap.car_of(c),
            (fuel - 1) as nat,
        ) && items_displayable(ctx, ctx.heap.list_step(cur), (fuel - 1) as nat),
        None => true,
    }
}

/// With enough fuel to write a value, more fuel writes the same.
pub proof fn lemma_show_fuel<F>(ctx: &Context<F>, v: Value, f: nat, g: nat)
    requires
        displayable(ctx, v, f),
        f <= g,
    ensures
        displayable(ctx, v, g),
        show(ctx, v, f) == show(ctx, v, g),
    decreases f,
{
    let f1 = (f - 1) as nat;
    let g1 = (g - 1) as nat;
    match v {
        Value::Lambda(l) => {
            lemma_show_fuel(ctx, ctx.heap.lambdas_view()[l as int].bindings, f1, g1);
            lemma_show_fuel(ctx, ctx.heap.lambdas_view()[l as int].body, f1, g1);
        },
        Value::Pair(_) => {
            if !ctx.heap.is_empty_list(v) {
                if ctx.heap.cdr_of(v) is Pair {
                    lemma_show_items_fuel(ctx, Some(v), f1, g1);
                } else {
                    lemma_show_fuel(ctx, ctx.heap.car_of(v), f1, g1);
                    lemma_show_fuel(ctx, ctx.heap.cdr_of(v), f1, g1);
                }
            }
        },
        _ => {},
    }
}

/// With enough fuel to write the items of a list, more fuel writes the same.
pub proof fn lemma_show_items_fuel<F>(ctx: &Context<F>, cur: Option<Value>, f: nat, g: nat)
    requires
        items_displayable(ctx, cur, f),
        f <= g,
    ensures
        items_displayable(ctx, cur, g),
        show_items(ctx, cur, f) == show_items(ctx, cur, g),
    decreases f,
{
    if let Some(c) = cur {
        let f1 = (f - 1) as nat;
        let g1 = (g - 1) as nat;
        lemma_show_fuel(ctx, ctx.heap.car_of(c), f1, g1);
        lemma_show_items_fuel(ctx, ctx.heap.list_step(cur), f1, g1);
    }
}

fn push_items<F>(ctx: &Context<F>, v: Value, out: &mut String, Ghost(fuel): Ghost<nat>)
    requires
        items_displayable(ctx, Some(v), fuel),
    ensures
        final(out)@ == old(out)@ + show_items(ctx, Some(v), fuel),
    decreases fuel, 0nat,
{
    proof {
        use_type_invariant(&ctx.heap);
    }
    let mut iter = ValueListIter::from(v);
    let ghost mut f: nat = fuel;
    loop
        invariant
            items_displayable(ctx, iter.current(), f),
            f <= fuel,
            old(out)@ + show_items(ctx, Some(v), fuel) == out@ + show_items(ctx, iter.current(), f),
        decreases f,
    {
        let ghost cur = iter.current();
        match iter.next(&ctx.heap) {
            None => {
                assert(out@ + show_items(ctx, cur, f) =~= out@);
                return;
            },
            Some(c) => {
                let car = c.car(&ctx.heap);
                let ghost before = out@;
                push_value(ctx, car, out, Ghost((f - 1) as nat));
                match c.cdr(&ctx.heap) {
                    Value::Pair(d) => {
                        if !matches!(Value::Pair(d).cdr(&ctx.heap), Value::Nil) {
                            push_char(out, ' ');
                        }
                    },
                    _ => {},
                }
                proof {
                    assert(out@ =~= before + show(ctx, ctx.heap.car_of(c), (f - 1) as nat)
                        + item_sep(ctx, c));
                    f = (f - 1) as nat;
                }
            },
        }
    }
}

fn push_value<F>(ctx: &Context<F>, v: Value, out: &mut String, Ghost(fuel): Ghost<nat>)
    requires
        displayable(ctx, v, fuel),
    ensures
        final(out)@ == old(out)@ + show(ctx, v, fuel),
    decreases fuel, 1nat,
{
    proof {
        use_type_invariant(&ctx.heap);
    }
    let ghost f = (fuel - 1) as nat;
    match v {
        Value::Nil => {
            push_char(out, 'n');
            push_char(out, 'i');
            push_char(out, 'l');
        },
        Value::Integer(i) => {
            push_char(out, 'i');
            push_char(out, '.');
            push_decimal(out, i);
        },
        Value::Symbol(s) => {
            out.append(ctx.symbol_table[s].as_str());
        },
        Value::Builtin(b) => {
            push_char(out, '[');
            out.append(ctx.symbol_table[ctx.builtins[b].name].as_str());
            push_char(out, ']');
        },
        Value::Lambda(l) => {
            let lambda = ctx.heap.lambda(l);
            push_char(out, '\\');
            push_value(ctx, lambda.bindings, out, Ghost(f));
            push_char(out, ':');
            push_value(ctx, lambda.body, out, Ghost(f));
        },
        Value::Pair(_) => {
            if v.is_empty_list(&ctx.heap) {
                push_char(out, '(');
                push_char(out, ')');
            } else {
                let cdr = v.cdr(&ctx.heap);
                if matches!(cdr, Value::Pair(_)) {
                    push_char(out, '(');
                    push_items(ctx, v, out, Ghost(f));
                    push_char(out, ')');
                } else {
                    push_char(out, '(');
                    push_value(ctx, v.car(&ctx.heap), out, Ghost(f));
                    push_char(out, ' ');
                    push_char(out, '.');
                    push_char(out, ' ');
                    push_value(ctx, cdr, out, Ghost(f));
                    push_char(out, ')');
                }
            }
        },
    }
    assert(out@ =~= old(out)@ + show(ctx, v, fuel));
}

impl Value {
    /// This value written as text (see [`show`]).
    pub fn display<F>(&self, ctx: &Context<F>) -> (s: String)
        requires
            exists|f: nat| displayable(ctx, *self, f),
        ensures
            forall|f: nat| displayable(ctx, *self, f) ==> s@ == show(ctx, *self, f),
    {
        let ghost fuel = choose|f: nat| displayable(ctx, *self, f);
        let mut out = String::new();
        push_value(ctx, *self, &mut out, Ghost(fuel));
        proof {
            assert(out@ =~= show(ctx, *self, fuel));
            assert forall|f: nat| displayable(ctx, *self, f) implies out@ == show(
                ctx,
                *self,
                f,
            ) by {
                if f <= fuel {
                    lemma_show_fuel(ctx, *self, f, fuel);
                } else {
                    lemma_show_fuel(ctx, *self, fuel, f);
                }
            }
        }
        out
    }
}

/// How a program tree is written: an integer as `i.` and its decimal, a
/// symbol as its name, a list as its items in parentheses, separated by
/// single spaces.
pub open spec fn render(e: Sexp) -> Seq<char>
    decreases e,
{
    match e {
        Sexp::Int(n) => seq!['i', '.'] + decimal(n),
        Sexp::Sym(name) => name,
        Sexp::List(items) => if items.len() == 0 {
            seq!['(', ')']
        } else {
            seq!['('] + render_items(items) + seq![')']
        },
    }
}

/// The items of a list, written and separated by single spaces.
pub open spec fn render_items(items: Seq<Sexp>) -> Seq<char>
    decreases items,
{
    if items.len() == 0 {
        Seq::empty()
    } else if items.len() == 1 {
        render(items[0])
    } else {
        render(items[0]) + seq![' '] + render_items(items.subrange(1, items.len() as int))
    }
}

proof fn lemma_represents_not_nil<F>(ctx: &Context<F>, v: Value, e: Sexp)
    requires
        represents(&ctx.heap, ctx.symbols(), v, e),
    ensures
        v != Value::Nil,
{
}

/// A value that holds a program tree is written as the tree is rendered.
pub proof fn lemma_display_represents<F>(ctx: &Context<F>, v: Value, e: Sexp, fuel: nat)
    requires
        represents(&ctx.heap, ctx.symbols(), v, e),
        fuel >= sexp_size(e),
    ensures
        displayable(ctx, v, fuel),
        show(ctx, v, fuel) == render(e),
    decreases e,
{
    match e {
        Sexp::List(items) => {
            assert(represents_list(&ctx.heap, ctx.symbols(), v, items));
            if items.len() > 0 {
                let rest = items.subrange(1, items.len() as int);
                assert(represents_list(&ctx.heap, ctx.symbols(), ctx.heap.cdr_of(v), rest));
                assert(ctx.heap.cdr_of(v) is Pair);
                lemma_represents_not_nil(ctx, ctx.heap.car_of(v), items[0]);
                assert(!ctx.heap.is_empty_list(v));
                lemma_display_items(ctx, v, items, (fuel - 1) as nat);
                assert(show(ctx, v, fuel) == seq!['('] + show_items(ctx, Some(v), (fuel - 1) as nat)
                    + seq![')']);
            } else {
                assert(ctx.heap.is_empty_list(v));
            }
        },
        _ => {},
    }
}

/// The items of a list that holds program trees are written as the trees
/// are rendered, separated by single spaces.
pub proof fn lemma_display_items<F>(ctx: &Context<F>, v: Value, items: Seq<Sexp>, fuel: nat)
    requires
        represents_list(&ctx.heap, ctx.symbols(), v, items),
        items.len() > 0,
        fuel >= items_size(items),
    ensures
        items_displayable(ctx, Some(v), fuel),
        show_items(ctx, Some(v), fuel) == render_items(items),
    decreases items,
{
    let f1 = (fuel - 1) as nat;
    let rest = items.subrange(1, items.len() as int);
    let c2 = ctx.heap.cdr_of(v);
    assert(represents_list(&ctx.heap, ctx.symbols(), c2, rest));
    lemma_display_represents(ctx, ctx.heap.car_of(v), items[0], f1);
    if rest.len() == 0 {
        assert(ctx.heap.is_empty_list(c2));
        assert(ctx.heap.list_step(Some(v)) is None);
        assert(show_items(ctx, ctx.heap.list_step(Some(v)), f1) == Seq::<char>::empty());
        assert(item_sep(ctx, v) == Seq::<char>::empty());
        assert(items_displayable(ctx, ctx.heap.list_step(Some(v)), f1));
        assert(show_items(ctx, Some(v), fuel) =~= render_items(items));
    } else {
        assert(represents(&ctx.heap, ctx.symbols(), ctx.heap.car_of(c2), rest[0]));
        lemma_represents_not_nil(ctx, ctx.heap.car_of(c2), rest[0]);
        assert(represents_list(
            &ctx.heap,
            ctx.symbols(),
            ctx.heap.cdr_of(c2),
            rest.subrange(1, rest.len() as int),
        ));
        assert(ctx.heap.cdr_of(c2) is Pair);
        assert(!ctx.heap.is_empty_list(c2));
        assert(ctx.heap.list_step(Some(v)) == Some(c2));
        assert(item_sep(ctx, v) == seq![' ']);
        lemma_display_items(ctx, c2, rest, f1);
        assert(items_displayable(ctx, ctx.heap.list_step(Some(v)), f1));
    }
}

/// Whether `v` can be written within `fuel` nested steps, as
/// [`Value::display`] needs (see [`displayable`]).
pub fn is_displayable<F>(ctx: &Context<F>, v: Value, fuel: usize) -> (b: bool)
    ensures
        b == displayable(ctx, v, fuel as nat),
    decreases fuel, 1nat,
{
    proof {
        use_type_invariant(&ctx.heap);
    }
    if fuel == 0 {
        return false;
    }
    let f = fuel - 1;
    match v {
        Value::Symbol(s) => s < ctx.symbol_table.len(),
        Value::Builtin(b) => b < ctx.builtins.len() && ctx.builtins[b].name < ctx.symbol_table.len(),
        Value::Lambda(l) => {
            if !ctx.heap.is_valid(v) {
                return false;
            }
            let lambda = ctx.heap.lambda(l);
            is_displayable(ctx, lambda.bindings, f) && is_displayable(ctx, lambda.body, f)
        },
        Value::Pair(_) => {
            if !ctx.heap.is_valid(v) {
                return false;
            }
            if v.is_empty_list(&ctx.heap) {
                return true;
            }
            let cdr = v.cdr(&ctx.heap);
            if matches!(cdr, Value::Pair(_)) {
                items_are_displayable(ctx, Some(v), f)
            } else {
                is_displayable(ctx, v.car(&ctx.heap), f) && is_displayable(ctx, cdr, f)
            }
        },
        _ => true,
    }
}

fn items_are_displayable<F>(ctx: &Context<F>, cur: Option<Value>, fuel: usize) -> (b: bool)
    requires
        cur matches Some(c) ==> ctx.heap.valid(c),
    ensures
        b == items_displayable(ctx, cur, fuel as nat),
    decreases fuel, 0nat,
{
    proof {
        use_type_invariant(&ctx.heap);
    }
    match cur {
        None => true,
        Some(c) => {
            if fuel == 0 || !matches!(c, Value::Pair(_)) {
                return false;
            }
            let mut iter = ValueListIter::from(c);
            let _ = iter.next(&ctx.heap);
            is_displayable(ctx, c.car(&ctx.heap), fuel - 1) && items_are_displayable(
                ctx,
                iter.peek(),
                fuel - 1,
            )
        },
    }
}

/// How a token reads back once written: an integer as `i.` and its value in
/// decimal, any other token as itself.
pub open spec fn write_token(tok: Seq<char>) -> Seq<char> {
    match parse_isize_spec(tok) {
        Some(n) => seq!['i', '.'] + decimal(n),
        None => tok,
    }
}

/// What goes between two adjacent tokens once written: a space, but not
/// right after `(` nor right before `)`.
pub open spec fn token_sep(a: Seq<char>, b: Seq<char>) -> Seq<char> {
    if a != open_token() && b != close_token() {
        seq![' ']
    } else {
        Seq::empty()
    }
}

/// The tokens written one after the other, each as [`write_token`] gives
/// it, with [`token_sep`] between adjacent ones.
pub open spec fn written(toks: Seq<Seq<char>>) -> Seq<char>
    decreases toks.len(),
{
    if toks.len() == 0 {
        Seq::empty()
    } else if toks.len() == 1 {
        write_token(toks[0])
    } else {
        write_token(toks[0]) + token_sep(toks[0], toks[1]) + written(toks.drop_first())
    }
}

proof fn lemma_written_concat(a: Seq<Seq<char>>, b: Seq<Seq<char>>)
    requires
        a.len() > 0,
        b.len() > 0,
    ensures
        written(a + b) == written(a) + token_sep(a.last(), b[0]) + written(b),
    decreases a.len(),
{
    let c = a + b;
    assert(c[0] == a[0]);
    if a.len() == 1 {
        assert(c.drop_first() =~= b);
        assert(c[1] == b[0]);
    } else {
        assert(c.drop_first() =~= a.drop_first() + b);
        assert(c[1] == a[1]);
        lemma_written_concat(a.drop_first(), b);
        assert(a.drop_first().last() == a.last());
    }
}

/// The items of the list that starts at token `pos` are rendered as the
/// tokens up to where they end are written, when every list opened after
/// `pos` is closed again.
proof fn lemma_render_parse_seq(toks: Seq<Seq<char>>, pos: int)
    requires
        0 <= pos <= toks.len(),
        forall|k: int| pos <= k <= toks.len() ==> #[trigger] depth(toks, k) >= 0,
        depth(toks, toks.len() as int) == 0,
    ensures
        pos <= items_end(toks, pos) <= toks.len(),
        parse_seq(toks, pos).0.len() == 0 <==> items_end(toks, pos) == pos,
        render_items(parse_seq(toks, pos).0) == written(toks.subrange(pos, items_end(toks, pos))),
    decreases toks.len() - pos,
{
    lemma_parse_seq_bounds(toks, pos);
    lemma_parse_seq_depth(toks, pos);
    if pos == toks.len() {
        assert(toks.subrange(pos, pos).len() == 0);
    } else if toks[pos] == close_token() {
        assert(depth(toks, pos + 1) == depth(toks, pos) - 1);
        assert(toks.subrange(pos, pos).len() == 0);
    } else if toks[pos] == open_token() {
        assert(depth(toks, pos + 1) == depth(toks, pos) + 1);
        lemma_parse_seq_depth(toks, pos + 1);
        lemma_parse_seq_bounds(toks, pos + 1);
        let (inner, p2) = parse_seq(toks, pos + 1);
        // The inner list closes: running to the end would leave it open.
        assert(pos + 1 < p2 <= toks.len() && toks[p2 - 1] == close_token() && depth(toks, p2)
            == depth(toks, pos)) by {
            if !(pos + 1 < p2 <= toks.len() && toks[p2 - 1] == close_token() && depth(toks, p2)
                == depth(toks, pos + 1) - 1) {
                assert(depth(toks, toks.len() as int) >= depth(toks, pos + 1));
            }
        }
        lemma_render_parse_seq(toks, pos + 1);
        assert(items_end(toks, pos + 1) == p2 - 1);
        let q2 = p2 - 1;
        lemma_parse_seq_bounds(toks, p2);
        lemma_parse_seq_depth(toks, p2);
        lemma_render_parse_seq(toks, p2);
        let (rest, p3) = parse_seq(toks, p2);
        let q3 = items_end(toks, p2);
        assert(parse_seq(toks, pos) == (seq![Sexp::List(inner)] + rest, p3));
        assert(items_end(toks, pos) == q3);
        let items = seq![Sexp::List(inner)] + rest;
        assert(items[0] == Sexp::List(inner));
        assert(items.subrange(1, items.len() as int) =~= rest);
        let mid = toks.subrange(pos + 1, q2);
        let head = seq![open_token()] + mid + seq![close_token()];
        assert(render(Sexp::List(inner)) == written(head)) by {
            if inner.len() == 0 {
                assert(mid.len() == 0);
                assert(head =~= seq![open_token(), close_token()]);
                assert(head.drop_first() =~= seq![close_token()]);
            } else {
                assert(mid.len() > 0);
                lemma_written_concat(seq![open_token()], mid);
                assert(written(seq![open_token()]) == write_token(open_token()));
                lemma_written_concat(seq![open_token()] + mid, seq![close_token()]);
                assert((seq![open_token()] + mid).last() == mid.last());
                assert(written(seq![close_token()]) == write_token(close_token()));
                assert(mid[0] != close_token()) by {
                    assert(mid[0] == toks[pos + 1]);
                }
            }
        }
        assert(toks.subrange(pos, q2 + 1) =~= head) by {
            assert(toks[q2] == close_token());
        }
        if rest.len() == 0 {
            assert(q3 == p2);
            assert(toks.subrange(pos, q3) =~= head);
        } else {
            let tail = toks.subrange(p2, q3);
            assert(toks.subrange(pos, q3) =~= head + tail);
            lemma_written_concat(head, tail);
            assert(head.last() == close_token());
            assert(tail[0] == toks[p2]);
            assert(toks[p2] != close_token()) by {
                if toks[p2] == close_token() {
                    assert(rest.len() == 0);
                }
            }
            assert(toks[p2] != open_token() ==> tail[0] != close_token());
        }
    } else {
        assert(depth(toks, pos + 1) == depth(toks, pos));
        lemma_parse_seq_bounds(toks, pos + 1);
        lemma_parse_seq_depth(toks, pos + 1);
        lemma_render_parse_seq(toks, pos + 1);
        let (rest, p3) = parse_seq(toks, pos + 1);
        let q3 = items_end(toks, pos + 1);
        let tok = toks[pos];
        assert(parse_seq(toks, pos) == (seq![atom(tok)] + rest, p3));
        assert(items_end(toks, pos) == q3);
        let items = seq![atom(tok)] + rest;
        assert(items[0] == atom(tok));
        assert(items.subrange(1, items.len() as int) =~= rest);
        assert(render(atom(tok)) == write_token(tok));
        if rest.len() == 0 {
            assert(q3 == pos + 1);
            assert(toks.subrange(pos, q3) =~= seq![tok]);
        } else {
            let tail = toks.subrange(pos + 1, q3);
            assert(toks.subrange(pos, q3) =~= seq![tok] + tail);
            lemma_written_concat(seq![tok], tail);
            assert(tail[0] == toks[pos + 1]);
            assert(toks[pos + 1] != close_token()) by {
                if toks[pos + 1] == close_token() {
                    assert(rest.len() == 0);
                }
            }
        }
    }
}

/// A program read from balanced tokens is rendered as its tokens written in
/// order, inside one pair of parentheses.
pub proof fn lemma_render_program(toks: Seq<Seq<char>>)
    requires
        balanced(toks),
    ensures
        render(Sexp::List(program(toks))) == seq!['('] + written(toks) + seq![')'],
{
    lemma_render_parse_seq(toks, 0);
    lemma_parse_seq_depth(toks, 0);
    assert(depth(toks, 0) == 0);
    let p = parse_seq(toks, 0).1;
    // The top level never closes: that would take the count below zero.
    assert(p == toks.len() && depth(toks, p) >= depth(toks, 0)) by {
        if !(p == toks.len() && depth(toks, p) >= depth(toks, 0)) {
            assert(depth(toks, p) == -1);
            assert(0 <= p <= toks.len());
        }
    }
    assert(items_end(toks, 0) == toks.len());
    assert(toks.subrange(0, toks.len() as int) =~= toks);
}

/// Reading a program from balanced tokens and writing it back gives the
/// tokens in order, inside one pair of parentheses, with integers as `i.`
/// and their value, and one space between adjacent tokens but after `(` and
/// before `)`.
pub proof fn lemma_display_program<F>(ctx: &Context<F>, toks: Seq<Seq<char>>)
    requires
        balanced(toks),
        represents_list(&ctx.heap, ctx.symbols(), ctx.ast, program(toks)),
    ensures
        displayable(ctx, ctx.ast, sexp_size(Sexp::List(program(toks)))),
        show(ctx, ctx.ast, sexp_size(Sexp::List(program(toks)))) == seq!['('] + written(toks)
            + seq![')'],
{
    let e = Sexp::List(program(toks));
    assert(represents(&ctx.heap, ctx.symbols(), ctx.ast, e));
    lemma_display_represents(ctx, ctx.ast, e, sexp_size(e));
    lemma_render_program(toks);
}

} // verus!
