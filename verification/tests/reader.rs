use lib::context::check_program;
use lib::text::parse_isize;
use lib::{BuiltinType, Context, Prim, Tokenizer, Value};

fn tokens(input: &str) -> Vec<String> {
    let mut t = Tokenizer::new(input);
    let mut out = Vec::new();
    while let Some(tok) = t.next() {
        out.push(tok.to_string());
    }
    out
}

fn show(ctx: &Context<Prim>, v: Value) -> String {
    v.display(ctx)
}

#[test]
fn tokenizer_splits_parens_and_symbols() {
    assert_eq!(tokens("(+ 1 2)"), vec!["(", "+", "1", "2", ")"]);
}

#[test]
fn tokenizer_skips_spaces_and_newlines() {
    assert_eq!(tokens("  (a\n  bc)  \n"), vec!["(", "a", "bc", ")"]);
}

#[test]
fn tokenizer_nested_program() {
    assert_eq!(
        tokens("((lambda () (+ 1 2)))"),
        vec!["(", "(", "lambda", "(", ")", "(", "+", "1", "2", ")", ")", ")"]
    );
}

#[test]
fn tokenizer_empty_and_blank_input() {
    assert!(tokens("").is_empty());
    assert!(tokens("   \n ").is_empty());
}

#[test]
fn tokenizer_keeps_other_chars_in_symbols() {
    assert_eq!(tokens("a\tb x-y"), vec!["a\tb", "x-y"]);
}

#[test]
fn tokenizer_stays_exhausted() {
    let mut t = Tokenizer::new("x");
    assert_eq!(t.next(), Some("x"));
    assert_eq!(t.next(), None);
    assert_eq!(t.next(), None);
}

#[test]
fn parse_isize_accepts_signed_decimals() {
    assert_eq!(parse_isize("42"), Some(42));
    assert_eq!(parse_isize("-7"), Some(-7));
    assert_eq!(parse_isize("+3"), Some(3));
    assert_eq!(parse_isize("007"), Some(7));
    assert_eq!(parse_isize(&isize::MAX.to_string()), Some(isize::MAX));
    assert_eq!(parse_isize(&isize::MIN.to_string()), Some(isize::MIN));
}

#[test]
fn parse_isize_rejects_others() {
    assert_eq!(parse_isize(""), None);
    assert_eq!(parse_isize("-"), None);
    assert_eq!(parse_isize("+"), None);
    assert_eq!(parse_isize("12a"), None);
    assert_eq!(parse_isize("+-1"), None);
    assert_eq!(parse_isize(" 1"), None);
    assert_eq!(parse_isize("99999999999999999999999"), None);
    assert_eq!(parse_isize("-99999999999999999999999"), None);
}

#[test]
fn parse_isize_agrees_with_std() {
    for s in ["0", "1", "-0", "+0", "123456", "-98765", "x", "1-", "--1", "٣"] {
        assert_eq!(parse_isize(s), s.parse::<isize>().ok(), "{}", s);
    }
}

#[test]
fn get_symbol_interns_names() {
    let mut ctx: Context<Prim> = Context::new();
    let a = ctx.get_symbol("a");
    let b = ctx.get_symbol("b");
    let a2 = ctx.get_symbol("a");
    assert_eq!(a, 0);
    assert_eq!(b, 1);
    assert_eq!(a2, a);
    assert_eq!(ctx.symbol_table, vec!["a".to_string(), "b".to_string()]);
}

#[test]
fn new_context_is_empty() {
    let ctx: Context<Prim> = Context::new();
    assert_eq!(ctx.env, Value::Pair(0));
    assert!(ctx.env.is_empty_list(&ctx.heap));
    assert_eq!(ctx.ast, Value::Nil);
    assert!(ctx.symbol_table.is_empty());
    assert!(ctx.builtins.is_empty());
}

#[test]
fn parse_builds_the_program_list() {
    let mut ctx: Context<Prim> = Context::new();
    let mut t = Tokenizer::new("(+ 1 2) foo");
    ctx.parse(&mut t);
    assert_eq!(show(&ctx, ctx.ast), "((+ i.1 i.2) foo)");
    let first = ctx.ast.car(&ctx.heap);
    assert_eq!(first.car(&ctx.heap), Value::Symbol(0));
    assert_eq!(ctx.symbol_table, vec!["+".to_string(), "foo".to_string()]);
    assert_eq!(t.next(), None);
}

#[test]
fn parse_empty_input_gives_empty_list() {
    let mut ctx: Context<Prim> = Context::new();
    let mut t = Tokenizer::new("");
    ctx.parse(&mut t);
    assert!(ctx.ast.is_empty_list(&ctx.heap));
    assert_eq!(show(&ctx, ctx.ast), "()");
}

#[test]
fn parse_unclosed_lists_end_at_the_input_end() {
    let mut ctx: Context<Prim> = Context::new();
    let mut t = Tokenizer::new("(a (b");
    ctx.parse(&mut t);
    assert_eq!(show(&ctx, ctx.ast), "((a (b)))");
}

#[test]
fn parse_stops_at_closing_top_level() {
    let mut ctx: Context<Prim> = Context::new();
    let mut t = Tokenizer::new("a ) )");
    ctx.parse(&mut t);
    assert_eq!(show(&ctx, ctx.ast), "(a)");
}

#[test]
fn parse_empty_list_and_negative_numbers() {
    let mut ctx: Context<Prim> = Context::new();
    let mut t = Tokenizer::new("(() -5 +7 x)");
    ctx.parse(&mut t);
    assert_eq!(show(&ctx, ctx.ast), "((() i.-5 i.7 x))");
}

#[test]
fn check_program_finds_tokens_after_the_end() {
    assert!(check_program("(a b) c"));
    assert!(check_program("(a))"));
    assert!(check_program(""));
    assert!(!check_program("a ) b"));
    assert!(!check_program(") ("));
}

#[test]
fn add_and_get_builtins() {
    let mut ctx: Context<Prim> = Context::new();
    ctx.add_builtin("f", BuiltinType::Normal, Prim::Add);
    ctx.add_builtin("f", BuiltinType::SpecialForm, Prim::Lambda);
    ctx.add_builtin("g", BuiltinType::Macro, Prim::Lambda);
    assert_eq!(ctx.builtins.len(), 3);
    assert_eq!(ctx.symbol_table.len(), 2);
    let f = ctx.get_builtin("f").unwrap();
    assert_eq!(f.ty, BuiltinType::Normal);
    assert_eq!(f.func, Prim::Add);
    let g = ctx.get_builtin("g").unwrap();
    assert_eq!(g.ty, BuiltinType::Macro);
    assert!(ctx.get_builtin("h").is_none());
}

#[test]
fn tokenizer_counts_chars_but_cuts_bytes() {
    // Positions count chars while tokens are cut by byte offsets, so text
    // with multi-byte chars splits only where both agree.
    assert_eq!(tokens("é"), vec!["é"]);
    assert_eq!(tokens("a é"), vec!["a", "é"]);
    assert!(tokens("é a").is_empty());
}

#[test]
fn parse_builds_a_tree_of_new_pairs() {
    let mut ctx: Context<Prim> = Context::new();
    ctx.parse(&mut Tokenizer::new("(a (b) (b)) ()"));
    let before = ctx.heap.pair_count();
    ctx.parse(&mut Tokenizer::new("(a (b) (b)) ()"));
    let mut it = lib::ValueTreeIter::from(ctx.ast);
    let mut seen: Vec<usize> = Vec::new();
    while let Some(cell) = it.next(&ctx.heap) {
        match cell {
            Value::Pair(i) => {
                assert!(i >= before);
                assert!(!seen.contains(&i));
                seen.push(i);
            }
            _ => panic!("walk yields only pairs"),
        }
    }
    assert_eq!(seen.len(), 8);
    assert_eq!(ctx.heap.pair_count() - before, 12);
}

#[test]
fn tokenizer_separates_adjacent_symbols_by_whitespace() {
    assert_eq!(tokens("ab c(d)e"), vec!["ab", "c", "(", "d", ")", "e"]);
    assert_eq!(tokens("ab\nc"), vec!["ab", "c"]);
}

#[test]
fn tokenizer_stays_exhausted_after_trailing_whitespace() {
    let mut t = Tokenizer::new("(x)  \n");
    assert_eq!(t.next(), Some("("));
    assert_eq!(t.next(), Some("x"));
    assert_eq!(t.next(), Some(")"));
    assert_eq!(t.next(), None);
    assert_eq!(t.next(), None);
    assert_eq!(t.next(), None);
}

#[test]
fn display_of_a_program_writes_its_tokens() {
    let mut ctx: Context<Prim> = Context::new();
    ctx.parse(&mut Tokenizer::new("(  a(b )c) 12\n(-3)"));
    assert_eq!(show(&ctx, ctx.ast), "((a (b) c) i.12 (i.-3))");
}
