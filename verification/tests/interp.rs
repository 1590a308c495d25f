use lib::display::is_displayable;
use lib::prims::{list_ends_within, make_lambda, sum_integers};
use lib::{BuiltinType, Context, Heap, Lambda, Prim, Primitive, Tokenizer, Value, ValueListIter, ValueTreeIter};

fn show(ctx: &Context<Prim>, v: Value) -> String {
    v.display(ctx)
}

fn standard() -> Context<Prim> {
    let mut ctx: Context<Prim> = Context::new();
    ctx.add_builtin("lambda", BuiltinType::SpecialForm, Prim::Lambda);
    ctx.add_builtin("+", BuiltinType::Normal, Prim::Add);
    ctx
}

fn read(ctx: &mut Context<Prim>, input: &str) {
    let mut t = Tokenizer::new(input);
    ctx.parse(&mut t);
}

/// Builds the list of `items` in the heap, ending in the empty list.
fn list(heap: &mut Heap, items: &[Value]) -> Value {
    let mut cell = Value::new_pair(heap);
    for v in items.iter().rev() {
        cell = Value::new_pair_car_cdr(heap, *v, cell);
    }
    cell
}

#[test]
fn eval_of_atoms_is_the_atom() {
    let mut ctx = standard();
    assert_eq!(ctx.eval(Value::Integer(9)), Value::Integer(9));
    assert_eq!(ctx.eval(Value::Nil), Value::Nil);
    assert_eq!(ctx.eval(Value::Builtin(0)), Value::Builtin(0));
}

#[test]
fn eval_of_a_symbol_is_the_last_builtin() {
    let mut ctx = standard();
    assert_eq!(ctx.eval(Value::Symbol(0)), Value::Builtin(1));
}

#[test]
fn eval_adds_integers() {
    let mut ctx = standard();
    read(&mut ctx, "(+ 1 2 40)");
    let form = ctx.ast.car(&ctx.heap);
    assert_eq!(ctx.eval(form), Value::Integer(43));
}

#[test]
fn eval_of_a_pair_headed_by_no_builtin_is_nil() {
    let mut ctx = standard();
    read(&mut ctx, "(1 2)");
    let form = ctx.ast.car(&ctx.heap);
    assert_eq!(ctx.eval(form), Value::Nil);
}

#[test]
fn eval_of_a_nested_head() {
    let mut ctx = standard();
    // The head (+ 1) evaluates to an integer, which is no builtin.
    read(&mut ctx, "((+ 1) 2)");
    let form = ctx.ast.car(&ctx.heap);
    assert_eq!(ctx.eval(form), Value::Nil);
}

#[test]
fn add_skips_non_integers() {
    let mut ctx = standard();
    read(&mut ctx, "(+ 1 x (2) 3)");
    let form = ctx.ast.car(&ctx.heap);
    assert_eq!(ctx.eval(form), Value::Integer(4));
}

#[test]
fn add_of_nothing_is_zero() {
    let mut ctx = standard();
    read(&mut ctx, "(+)");
    let form = ctx.ast.car(&ctx.heap);
    assert_eq!(ctx.eval(form), Value::Integer(0));
}

#[test]
fn sum_integers_reports_overflow() {
    let mut heap = Heap::new();
    let args = list(&mut heap, &[Value::Integer(isize::MAX), Value::Integer(1)]);
    assert_eq!(sum_integers(&heap, args), None);
    let args = list(&mut heap, &[Value::Integer(isize::MAX), Value::Integer(-1), Value::Integer(1)]);
    assert_eq!(sum_integers(&heap, args), Some(isize::MAX));
    let mut ctx: Context<Prim> = Context::new();
    let args = list(&mut ctx.heap, &[Value::Integer(isize::MIN), Value::Integer(-1)]);
    assert_eq!(Prim::Add.call(&args, &mut ctx), Value::Nil);
}

#[test]
fn add_on_a_cyclic_list_gives_nil() {
    let mut ctx: Context<Prim> = Context::new();
    let a = Value::new_pair_car_cdr(&mut ctx.heap, Value::Integer(1), Value::Nil);
    let b = Value::new_pair_car_cdr(&mut ctx.heap, Value::Integer(2), a);
    let _ = a.borrow_mut_cdr(&mut ctx.heap, b);
    assert!(!list_ends_within(&ctx.heap, a, 10));
    assert_eq!(Prim::Add.call(&a, &mut ctx), Value::Nil);
}

#[test]
fn special_forms_make_lambdas() {
    let mut ctx = standard();
    read(&mut ctx, "((lambda () (+ 1 2)))");
    let expanded = ctx.process_special_forms();
    let placed: Vec<Value> = expanded.iter().flatten().copied().collect();
    assert_eq!(placed, vec![Value::Lambda(0)]);
    assert_eq!(expanded[0], None);
    assert_eq!(expanded[1], Some(Value::Lambda(0)));
    assert_eq!(ctx.heap.lambda_count(), 1);
    let l = ctx.heap.lambda(0);
    assert!(l.bindings.is_empty_list(&ctx.heap));
    assert_eq!(show(&ctx, l.body), "((+ i.1 i.2))");
    assert_eq!(show(&ctx, ctx.ast), "((\\():((+ i.1 i.2))))");
    let form = ctx.ast.car(&ctx.heap);
    assert_eq!(ctx.eval(form), Value::Nil);
}

#[test]
fn special_forms_with_parameters() {
    let mut ctx = standard();
    read(&mut ctx, "(lambda xyz (lambda abc (xyz abc))) (+ 2 3)");
    ctx.process_special_forms();
    // The outer form is expanded first; the walk then goes on through the
    // form as it was read, and expands the inner one too.
    assert_eq!(ctx.heap.lambda_count(), 2);
    assert_eq!(show(&ctx, ctx.ast), "(\\xyz:(\\abc:((xyz abc))) (+ i.2 i.3))");
}

#[test]
fn special_forms_leave_programs_without_them() {
    let mut ctx = standard();
    read(&mut ctx, "(+ 1 2) (a (b c))");
    let before = show(&ctx, ctx.ast);
    let expanded = ctx.process_special_forms();
    assert!(expanded.iter().all(|e| e.is_none()));
    assert_eq!(show(&ctx, ctx.ast), before);
    assert_eq!(ctx.heap.lambda_count(), 0);
}

#[test]
fn special_form_for_finds_only_special_forms() {
    let mut ctx = standard();
    read(&mut ctx, "(lambda x) (+ 1)");
    let cell = ctx.ast;
    let b = ctx.special_form_for(cell).unwrap();
    assert_eq!(b.func, Prim::Lambda);
    let next = cell.cdr(&ctx.heap);
    assert!(ctx.special_form_for(next).is_none());
    assert!(ctx.special_form_for(Value::Nil).is_none());
}

#[test]
fn make_lambda_takes_bindings_and_body() {
    let mut ctx = standard();
    read(&mut ctx, "(lambda (a b) a b)");
    let form = ctx.ast.car(&ctx.heap);
    let l = make_lambda(&mut ctx.heap, form);
    assert_eq!(l, Value::Lambda(0));
    assert_eq!(show(&ctx, l), "\\(a b):(a b)");
}

#[test]
fn lambda_builtin_without_parameters_gives_nil() {
    let mut ctx = standard();
    let form = Value::new_pair_car_cdr(&mut ctx.heap, Value::Symbol(0), Value::Nil);
    assert_eq!(Prim::Lambda.call(&form, &mut ctx), Value::Nil);
}

#[test]
fn pairs_read_back_what_was_written() {
    let mut heap = Heap::new();
    let p = Value::new_pair_car_cdr(&mut heap, Value::Integer(1), Value::Nil);
    let q = Value::new_pair(&mut heap);
    assert_eq!(p.car(&heap), Value::Integer(1));
    assert_eq!(p.cdr(&heap), Value::Nil);
    assert_eq!(p.borrow_mut_car(&mut heap, Value::Integer(5)), Some(Value::Integer(1)));
    assert_eq!(p.borrow_car(&heap), Value::Integer(5));
    assert_eq!(p.borrow_mut_cdr(&mut heap, q), Some(Value::Nil));
    assert_eq!(p.try_cdr(&heap), Some(q));
    assert!(q.is_empty_list(&heap));
    assert!(!p.is_empty_list(&heap));
    assert_eq!(Value::Integer(3).borrow_mut_car(&mut heap, Value::Nil), None);
    assert_eq!(heap.pair_count(), 2);
}

#[test]
fn try_accessors_on_non_pairs() {
    let heap = Heap::new();
    assert_eq!(Value::Nil.try_car(&heap), None);
    assert_eq!(Value::Integer(1).try_cdr(&heap), None);
    assert_eq!(Value::Symbol(2).try_borrow_car(&heap), None);
    assert!(!Value::Nil.is_empty_list(&heap));
}

#[test]
fn symbols_and_constructors() {
    let s = Value::new_symbol(4);
    assert!(s.is_symbol());
    assert_eq!(s.as_symbol(), 4);
    assert!(!Value::new_integer(4).is_symbol());
    assert_eq!(Value::new_builtin(2), Value::Builtin(2));
    let mut heap = Heap::new();
    let l = Value::new_lambda(&mut heap, Lambda { bindings: Value::Nil, body: Value::Integer(1) });
    assert_eq!(l, Value::Lambda(0));
    assert_eq!(heap.lambda(0).body, Value::Integer(1));
}

#[test]
fn assoc_finds_the_first_entry() {
    let mut ctx: Context<Prim> = Context::new();
    let a = ctx.get_symbol("a");
    let b = ctx.get_symbol("b");
    let e1 = Value::new_pair_car_cdr(&mut ctx.heap, Value::Symbol(a), Value::Integer(1));
    let e2 = Value::new_pair_car_cdr(&mut ctx.heap, Value::Symbol(b), Value::Integer(2));
    let e3 = Value::new_pair_car_cdr(&mut ctx.heap, Value::Symbol(a), Value::Integer(3));
    let alist = list(&mut ctx.heap, &[e1, e2, e3]);
    assert_eq!(alist.assoc(&ctx.heap, &ctx.symbol_table, "b"), Some(Value::Integer(2)));
    assert_eq!(alist.assoc(&ctx.heap, &ctx.symbol_table, "a"), Some(Value::Integer(1)));
    assert_eq!(alist.assoc(&ctx.heap, &ctx.symbol_table, "c"), None);
}

#[test]
fn list_iterator_walks_the_cells() {
    let mut ctx: Context<Prim> = Context::new();
    read(&mut ctx, "1 2 3");
    let mut it = ValueListIter::from(ctx.ast);
    let cells = it.remaining(&ctx.heap);
    let cars: Vec<Value> = cells.iter().map(|c| c.car(&ctx.heap)).collect();
    assert_eq!(cars, vec![Value::Integer(1), Value::Integer(2), Value::Integer(3)]);
    assert_eq!(it.next(&ctx.heap), None);
}

#[test]
fn list_iterator_on_the_empty_list_yields_it() {
    let mut heap = Heap::new();
    let e = Value::new_pair(&mut heap);
    let mut it = ValueListIter::from(e);
    assert_eq!(it.next(&heap), Some(e));
    assert_eq!(it.next(&heap), None);
}

#[test]
fn tree_iterator_walks_depth_first() {
    let mut ctx: Context<Prim> = Context::new();
    read(&mut ctx, "(a (b) c) d");
    let mut it = ValueTreeIter::from(ctx.ast);
    let cells = it.remaining(&ctx.heap);
    let shown: Vec<String> = cells
        .iter()
        .map(|c| show(&ctx, c.car(&ctx.heap)))
        .collect();
    assert_eq!(shown, vec!["(a (b) c)", "a", "(b)", "b", "c", "d"]);
    assert_eq!(it.next(&ctx.heap), None);
}

#[test]
fn display_of_values() {
    let mut ctx = standard();
    assert_eq!(show(&ctx, Value::Nil), "nil");
    assert_eq!(show(&ctx, Value::Integer(-12)), "i.-12");
    assert_eq!(show(&ctx, Value::Integer(0)), "i.0");
    assert_eq!(show(&ctx, Value::Symbol(1)), "+");
    assert_eq!(show(&ctx, Value::Builtin(0)), "[lambda]");
    let dotted = Value::new_pair_car_cdr(&mut ctx.heap, Value::Integer(1), Value::Integer(2));
    assert_eq!(show(&ctx, dotted), "(i.1 . i.2)");
    let e = Value::new_pair(&mut ctx.heap);
    assert_eq!(show(&ctx, e), "()");
    assert_eq!(show(&ctx, Value::Integer(isize::MIN)), format!("i.{}", isize::MIN));
}

#[test]
fn displayability_is_checked() {
    let mut ctx = standard();
    assert!(is_displayable(&ctx, Value::Symbol(1), 1));
    assert!(!is_displayable(&ctx, Value::Symbol(7), 5));
    assert!(!is_displayable(&ctx, Value::Integer(1), 0));
    let a = Value::new_pair_car_cdr(&mut ctx.heap, Value::Integer(1), Value::Nil);
    let _ = a.borrow_mut_cdr(&mut ctx.heap, a);
    assert!(!is_displayable(&ctx, a, 50));
}

#[test]
fn checks_for_eval_and_special_forms() {
    let mut ctx = standard();
    read(&mut ctx, "(a b)");
    let bound = ctx.heap.pair_count() + 1;
    assert!(ctx.heap.tree_is_bounded(ctx.ast, bound));
    assert!(ctx.chain_ends(ctx.ast, bound));
    let a = Value::new_pair(&mut ctx.heap);
    let _ = a.borrow_mut_car(&mut ctx.heap, a);
    assert!(!ctx.heap.tree_is_bounded(a, 100));
    assert!(!ctx.chain_ends(a, 100));
    let empty: Context<Prim> = Context::new();
    assert!(!empty.chain_ends(Value::Symbol(0), 3));
}

#[test]
fn builtin_to_apply_names_only_builtins() {
    let ctx = standard();
    assert_eq!(ctx.builtin_to_apply(Value::Builtin(1)).unwrap().func, Prim::Add);
    assert!(ctx.builtin_to_apply(Value::Builtin(2)).is_none());
    assert!(ctx.builtin_to_apply(Value::Integer(1)).is_none());
    assert!(ctx.builtin_to_apply(Value::Symbol(0)).is_none());
}

#[test]
fn place_form_writes_only_into_pairs() {
    let mut ctx = standard();
    read(&mut ctx, "(a b)");
    let cell = ctx.ast;
    ctx.place_form(cell, Value::Integer(7));
    assert_eq!(cell.car(&ctx.heap), Value::Integer(7));
    ctx.place_form(Value::Integer(1), Value::Integer(8));
    ctx.place_form(cell, Value::Pair(1000));
    assert_eq!(cell.car(&ctx.heap), Value::Integer(7));
}

#[test]
fn expand_at_expands_one_form() {
    let mut ctx = standard();
    read(&mut ctx, "(lambda (x) x) (lambda (y) y)");
    let first = ctx.ast;
    assert_eq!(ctx.expand_at(first), Some(Value::Lambda(0)));
    assert_eq!(ctx.heap.lambda_count(), 1);
    assert_eq!(show(&ctx, ctx.ast), "(\\(x):(x) (lambda (y) y))");
    assert_eq!(ctx.expand_at(Value::Integer(3)), None);
    assert_eq!(ctx.heap.lambda_count(), 1);
}

/// Builtins for a test of the walk: `cut` drops the third top-level form by
/// linking the second to the fourth, `mark` gives 7.
#[derive(Clone, Copy, Debug, PartialEq)]
enum Edit {
    Cut,
    Mark,
}

impl Primitive for Edit {
    // What a call may do is stated only for the verifier; this test type
    // makes no claim.
    fn call_spec(&self, _: Value, _: Context<Edit>, _: Context<Edit>, _: Value) -> bool {
        true
    }

    fn call(&self, _args: &Value, ctx: &mut Context<Edit>) -> Value {
        match self {
            Edit::Cut => {
                let second = ctx.ast.cdr(&ctx.heap);
                let third = second.cdr(&ctx.heap);
                let fourth = third.cdr(&ctx.heap);
                let _ = second.borrow_mut_cdr(&mut ctx.heap, fourth);
                Value::Integer(0)
            }
            Edit::Mark => Value::Integer(7),
        }
    }
}

#[test]
fn special_forms_see_what_earlier_ones_changed() {
    let mut ctx: Context<Edit> = Context::new();
    ctx.add_builtin("cut", BuiltinType::SpecialForm, Edit::Cut);
    ctx.add_builtin("mark", BuiltinType::SpecialForm, Edit::Mark);
    ctx.parse(&mut Tokenizer::new("(cut) (a) (mark) (mark)"));
    let expanded = ctx.process_special_forms();
    // The walk reads each cell when it reaches it: after `cut`, the third
    // form is no longer in the list, and its `mark` is never called.
    let called: Vec<Value> = expanded.iter().flatten().copied().collect();
    assert_eq!(called, vec![Value::Integer(0), Value::Integer(7)]);
    let fourth = ctx.ast.cdr(&ctx.heap).cdr(&ctx.heap);
    assert_eq!(fourth.car(&ctx.heap), Value::Integer(7));
}

#[test]
fn special_forms_end_checks_the_program() {
    let mut ctx = standard();
    assert!(!ctx.special_forms_end(10));
    read(&mut ctx, "(lambda () 1)");
    let bound = ctx.heap.pair_count() + 1;
    assert!(ctx.special_forms_end(bound));
    assert!(!ctx.special_forms_end(1));
}
