use notelisp::atom::{Atom, Status};
use notelisp::env::Env;
use notelisp::display::same_atom;
use notelisp::eval::{all_neighbours_equal, call_with, expand_notes, ArithOp, NoteSpan, NumberOps, TrigFn};
use notelisp::parser::{build_tree, classify, construct_ast, note_key, parse_input, parse_note, parse_octave, update_symbols, TokenKind};
use notelisp::text::decimal_string;
use notelisp::tokenizer::tokenize;

struct Single;

impl NumberOps for Single {
    fn parse_number(&self, text: &str) -> Option<u32> {
        text.parse::<f32>().ok().map(f32::to_bits)
    }

    fn arith(&self, op: ArithOp, a: u32, b: u32) -> u32 {
        let (a, b) = (f32::from_bits(a), f32::from_bits(b));
        let r = match op {
            ArithOp::Add => a + b,
            ArithOp::Sub => a - b,
            ArithOp::Mul => a * b,
            ArithOp::Div => a / b,
        };
        r.to_bits()
    }

    fn trig(&self, f: TrigFn, x: u32) -> u32 {
        let x = f32::from_bits(x);
        let r = match f {
            TrigFn::Sin => x.sin(),
            TrigFn::Cos => x.cos(),
            TrigFn::Tan => x.tan(),
        };
        r.to_bits()
    }

    fn from_count(&self, n: usize) -> u32 {
        (n as f32).to_bits()
    }

    fn scaled_count(&self, duration: u32, beat: u32, rate: usize) -> usize {
        (f32::from_bits(duration) * f32::from_bits(beat) * rate as f32) as usize
    }

    fn key_frequency(&self, key: i64) -> u32 {
        (440.0f32 * 2.0f32.powf((key as f32 - 49.0) / 12.0)).to_bits()
    }

    fn number_text(&self, x: u32) -> String {
        format!("{}", f32::from_bits(x))
    }
}

fn num(x: f32) -> Atom {
    Atom::Number(x.to_bits())
}

fn list(items: Vec<Atom>) -> Atom {
    Atom::List(items)
}

fn sym(s: &str) -> Atom {
    Atom::Symbol(s.to_string())
}

fn err(s: &str) -> Atom {
    Atom::Error(s.to_string())
}

fn run(env: &mut Env, src: &str) -> Vec<Atom> {
    parse_input(env, src, &Single)
}

fn run1(src: &str) -> Atom {
    let mut env = Env::new();
    let mut r = run(&mut env, src);
    assert_eq!(r.len(), 1);
    r.remove(0)
}

fn strings(v: &[&str]) -> Vec<String> {
    v.iter().map(|s| s.to_string()).collect()
}

#[test]
fn tokenize_splits_parentheses() {
    assert_eq!(tokenize("(+ 1 (* 2 3))"), strings(&["(", "+", "1", "(", "*", "2", "3", ")", ")"]));
    assert_eq!(tokenize("(a)(b)"), strings(&["(", "a", ")", "(", "b", ")"]));
}

#[test]
fn tokenize_keeps_quoted_whitespace() {
    assert_eq!(tokenize("(load \"my  file\")\n"), strings(&["(", "load", "\"my  file\"", ")"]));
}

#[test]
fn tokenize_edges() {
    assert_eq!(tokenize(""), Vec::<String>::new());
    assert_eq!(tokenize("  \t\n "), Vec::<String>::new());
    assert_eq!(tokenize("abc"), strings(&["abc"]));
    assert_eq!(tokenize("A4:1 C#3:0.5"), strings(&["A4:1", "C#3:0.5"]));
}

#[test]
fn arithmetic_fold_is_left_to_right() {
    assert_eq!(run1("(- 10 3 2)"), num(5.0));
    assert_eq!(run1("(/ 8 2 2)"), num(2.0));
    assert_eq!(run1("(+ 1 2 3 4)"), num(10.0));
    assert_eq!(run1("(* 2 3 4)"), num(24.0));
    assert_eq!(run1("(- 7)"), num(7.0));
}

#[test]
fn division_by_zero_is_not_an_error() {
    assert_eq!(run1("(/ 1 0)"), num(f32::INFINITY));
}

#[test]
fn equality_is_adjacent_pairwise() {
    assert_eq!(run1("(equals 1 1 2)"), Atom::Boolean(false));
    assert_eq!(run1("(equals 2 2 2)"), Atom::Boolean(true));
    assert_eq!(run1("(equals (1 2) (1 2))"), Atom::Boolean(true));
    assert_eq!(run1("(equals (1 2) (1 2 3))"), Atom::Boolean(false));
}

#[test]
fn conditional_short_circuits() {
    assert_eq!(run1("(if TRUE (+ 1 1) (undefined-symbol))"), num(2.0));
    assert_eq!(run1("(if FALSE (undefined-symbol) \"no\")"), Atom::String("no".to_string()));
}

#[test]
fn zero_argument_definition_round_trip() {
    let mut env = Env::new();
    let r = run(&mut env, "(def x 5) x");
    assert_eq!(r, vec![num(5.0), num(5.0)]);
}

#[test]
fn function_substitution() {
    let mut env = Env::new();
    let r = run(&mut env, "(def square (n) (* n n)) (square 4) (square 1 2)");
    assert_eq!(r[0], Atom::Nil);
    assert_eq!(r[1], num(16.0));
    assert_eq!(r[2], err("Incorrect number of arguments to `square` (expected 1, found 2)"));
}

#[test]
fn parameters_shadow_globals_only_inside_the_body() {
    let mut env = Env::new();
    let r = run(&mut env, "(def n 100) (def inc (n) (+ n 1)) (inc 1) n");
    assert_eq!(r[2], num(2.0));
    assert_eq!(r[3], num(100.0));
}

#[test]
fn note_literal_frequency() {
    let toks = tokenize("A4:1");
    let (atoms, used) = construct_ast(&toks, &Single).unwrap();
    assert_eq!(used, 1);
    assert_eq!(atoms, vec![list(vec![num(440.0), num(1.0)])]);
    let toks = tokenize("C4:0.5");
    let (atoms, _) = construct_ast(&toks, &Single).unwrap();
    match &atoms[0] {
        Atom::List(pair) => {
            match pair[0] {
                Atom::Number(f) => assert!(f32::from_bits(f) < 440.0),
                _ => panic!("frequency is not a number"),
            }
            assert_eq!(pair[1], num(0.5));
        }
        _ => panic!("note literal did not give a list"),
    }
}

#[test]
fn rest_note_has_zero_frequency() {
    assert_eq!(run1("(R4:2)"), list(vec![list(vec![num(0.0), num(2.0)])]));
}

#[test]
fn malformed_note_literal_fails_the_input() {
    let mut env = Env::new();
    let r = run(&mut env, "(def x 1) X4:1");
    assert_eq!(r.len(), 1);
    assert_eq!(r[0], err("Malformed note literal `X4:1`: unrecognized pitch"));
    assert_eq!(run1("A:1"), err("Malformed note literal `A:1`: unreadable octave"));
    assert_eq!(run1("A4:x"), err("Malformed note literal `A4:x`: unreadable duration"));
}

#[test]
fn note_keys() {
    assert_eq!(note_key("A", 4), Some(49));
    assert_eq!(note_key("C", 4), Some(40));
    assert_eq!(note_key("A#", 4), note_key("Bb", 4));
    assert_eq!(note_key("Bb", 3), Some(38));
    assert_eq!(note_key("H", 4), None);
    assert_eq!(note_key("A##", 4), None);
}

#[test]
fn octaves() {
    assert_eq!(parse_octave("4"), Some(4));
    assert_eq!(parse_octave("12"), Some(12));
    assert_eq!(parse_octave(""), None);
    assert_eq!(parse_octave("1x"), None);
    assert_eq!(parse_octave("99999"), None);
}

#[test]
fn render_sample_count() {
    let wrapped = run1("(render 1.0 ((A4:1)))");
    assert_eq!(wrapped, err("Note passed as argument to `render` should have format `(frequency, duration)`"));
    let r = run1("(render 1.0 (A4:1))");
    match r {
        Atom::List(samples) => {
            assert_eq!(samples.len(), 44100);
            assert!(samples.iter().all(|s| *s == num(440.0)));
        }
        _ => panic!("render did not give a list"),
    }
}

#[test]
fn render_keeps_note_order() {
    let r = run1("(render 1 ((100 0.0001) (200 0.0001)))");
    match r {
        Atom::List(samples) => {
            assert_eq!(samples.len(), 8);
            assert_eq!(samples[0], num(100.0));
            assert_eq!(samples[3], num(100.0));
            assert_eq!(samples[4], num(200.0));
            assert_eq!(samples[7], num(200.0));
        }
        _ => panic!("render did not give a list"),
    }
}

#[test]
fn expand_notes_repeats_each_frequency() {
    let spans = vec![
        NoteSpan { frequency: 1, samples: 2 },
        NoteSpan { frequency: 3, samples: 0 },
        NoteSpan { frequency: 5, samples: 1 },
    ];
    let r = expand_notes(&spans);
    assert!(same_atom(&list(r), &list(vec![Atom::Number(1), Atom::Number(1), Atom::Number(5)])));
}

#[test]
fn map_time_indexing() {
    let mut env = Env::new();
    let r = run(&mut env, "(def id (f t) f) (map (id) (100 200)) (def at (f t) t) (map (at) (100 200))");
    assert_eq!(r[1], list(vec![num(100.0), num(200.0)]));
    assert_eq!(r[3], list(vec![num(0.0), num(44100.0)]));
}

#[test]
fn map_builds_calls() {
    let r = call_with(&vec![sym("f"), num(1.0)], 7, 9);
    assert_eq!(r, vec![sym("f"), num(1.0), Atom::Number(7), Atom::Number(9)]);
}

#[test]
fn unbound_symbol() {
    let mut env = Env::new();
    let r = run(&mut env, "mystery (+ 1 1)");
    assert_eq!(r[0], err("Symbol `mystery` not found"));
    assert_eq!(r[1], num(2.0));
}

#[test]
fn functions_are_not_values() {
    let mut env = Env::new();
    let r = run(&mut env, "(def sq (n) (* n n)) sq");
    assert_eq!(r[1], err("Functions are not yet supported as first-class objects"));
}

#[test]
fn unknown_function() {
    assert_eq!(run1("(nope 1)"), err("Function `nope` not found"));
}

#[test]
fn built_in_errors() {
    assert_eq!(run1("(load)"), err("Incorrect number of arguments to `load` (expected 1, found 0)"));
    assert_eq!(run1("(load 3)"), err("Argument 1 of `load` has incorrect type: expected String"));
    assert_eq!(run1("(+)"), err("Incorrect number of arguments to `+` (expected 1+, found 0)"));
    assert_eq!(run1("(+ TRUE 1)"), err("Argument 1 of `+` has incorrect type: expected Number"));
    assert_eq!(run1("(+ 1 TRUE)"), err("Argument 2 of `+` has incorrect type: expected Number"));
    assert_eq!(run1("(sin 1 2)"), err("Incorrect number of arguments to `sin` (expected 1, found 2)"));
    assert_eq!(run1("(cos \"a\")"), err("Argument 1 of `cos` has incorrect type: expected Number"));
    assert_eq!(run1("(equals 1)"), err("Incorrect number of arguments to `equals` (expected 2+, found 1)"));
    assert_eq!(run1("(if TRUE 1)"), err("Incorrect number of arguments to `if` (expected 3, found 2)"));
    assert_eq!(run1("(if 1 2 3)"), err("Argument 1 of `if` has incorrect type: expected Boolean"));
    assert_eq!(run1("(render 1)"), err("Incorrect number of arguments to `render` (expected 2, found 1)"));
    assert_eq!(run1("(render x ())"), err("Argument 1 of `render` has incorrect type: expected Number"));
    assert_eq!(run1("(render 1 2)"), err("Argument 2 of `render` has incorrect type: expected List"));
    assert_eq!(run1("(render 1 ((1 2 3)))"), err("Note passed as argument to `render` should have format `(frequency, duration)`"));
    assert_eq!(run1("(render 1 ((a 2)))"), err("Unable to read frequency of note in `render`"));
    assert_eq!(run1("(render 1 ((1 b)))"), err("Unable to read duration of note in `render`"));
    assert_eq!(run1("(map (f))"), err("Incorrect number of arguments to `map` (expected 2, found 1)"));
    assert_eq!(run1("(map f (1))"), err("Argument 1 of `map` has incorrect type: expected List"));
    assert_eq!(run1("(map (f) 1)"), err("Argument 2 of `map` has incorrect type: expected List"));
    assert_eq!(run1("(map (f) (TRUE))"), err("Unable to read frequency in `map`"));
}

#[test]
fn definition_errors() {
    assert_eq!(run1("(def x)"), err("Incorrect number of arguments to `def` (expected 2, found 1)"));
    assert_eq!(run1("(def 5 1)"), err("Argument 1 of `def` has incorrect type: expected Symbol"));
    assert_eq!(run1("(def f 5 x)"), err("Argument 2 of `def` has incorrect type: expected List"));
    assert_eq!(run1("(def f (x 1) x)"), err("Expected Symbols in parameter list of `def`"));
    assert_eq!(run1("(def f (x x) x)"), err("Repeated name in parameter list of `def`"));
    assert_eq!(run1("(def f (x) (g x))"), err("Argument `g` not found"));
    let mut env = Env::new();
    let r = run(&mut env, "(def f (x) (g x)) (f 1)");
    assert_eq!(r[1], err("Function `f` not found"));
}

#[test]
fn status_messages() {
    assert!(matches!(run1("(quit now)"), Atom::StatusMsg(Status::Quit)));
    match run1("(load \"song.txt\")") {
        Atom::StatusMsg(Status::LoadModule(p)) => assert_eq!(p, "song.txt"),
        _ => panic!("load did not ask for a module"),
    }
    assert_eq!(run1("(out 1 2)"), Atom::Nil);
}

#[test]
fn plain_data_lists() {
    assert_eq!(run1("(1 (+ 1 1) TRUE)"), list(vec![num(1.0), num(2.0), Atom::Boolean(true)]));
    assert_eq!(run1("()"), list(vec![]));
}

#[test]
fn trigonometry() {
    assert_eq!(run1("(sin 0)"), num(0.0));
    assert_eq!(run1("(cos 0)"), num(1.0));
    assert_eq!(run1("(tan 0)"), num(0.0));
}

#[test]
fn definitions_within_one_input_are_seen_later() {
    let mut env = Env::new();
    update_symbols(&mut env, "(def a 2) (def twice (v) (* v 2))", &Single);
    let r = run(&mut env, "(twice a)");
    assert_eq!(r, vec![num(4.0)]);
}

#[test]
fn runaway_recursion_is_an_error() {
    let mut env = Env::new();
    let r = run(&mut env, "(def forever (n) (forever n))");
    assert_eq!(r[0], err("Argument `forever` not found"));
    let r = run(&mut env, "(def forever 0) (def forever (n) (forever n)) (forever 1)");
    assert_eq!(r[1], Atom::Nil);
    assert_eq!(r[2], err("Evaluation is nested too deeply"));
}

#[test]
fn substitution_and_resolution() {
    let body = list(vec![sym("+"), sym("n"), sym("k")]);
    let mut env = Env::new();
    run(&mut env, "(def k 3)");
    let params = vec!["n".to_string()];
    let resolved = body.parse_args(&params, &env);
    assert_eq!(resolved, list(vec![sym("+"), Atom::Arg(0), sym("k")]));
    let call = vec![sym("f"), num(7.0)];
    assert_eq!(resolved.substitute_args(&call), list(vec![sym("+"), num(7.0), sym("k")]));
    assert_eq!(sym("zz").parse_args(&params, &env), err("Argument `zz` not found"));
    assert!(sym("render").is_reserved_keyword());
    assert!(!sym("square").is_reserved_keyword());
    assert!(!num(1.0).is_reserved_keyword());
}

#[test]
fn display_text() {
    let v = list(vec![num(1.5), Atom::Boolean(true), sym("x"), list(vec![]), Atom::Nil]);
    assert_eq!(v.to_text(&Single), "(1.5 TRUE x () None)");
    assert_eq!(err("bad").to_text(&Single), "ERROR: bad");
    assert_eq!(Atom::Boolean(false).to_text(&Single), "FALSE");
}

#[test]
fn decimal_text() {
    assert_eq!(decimal_string(0), "0");
    assert_eq!(decimal_string(7), "7");
    assert_eq!(decimal_string(44100), "44100");
}

#[test]
fn neighbours() {
    assert!(all_neighbours_equal(&vec![]));
    assert!(all_neighbours_equal(&vec![num(1.0)]));
    assert!(!all_neighbours_equal(&vec![num(1.0), num(1.0), num(2.0)]));
}

#[test]
fn variants() {
    assert!(num(1.0).is_same_type(&num(2.0)));
    assert!(list(vec![]).is_same_type(&list(vec![num(1.0)])));
    assert!(!num(1.0).is_same_type(&sym("x")));
    assert!(!Atom::Nil.is_same_type(&err("x")));
}

#[test]
fn token_kinds() {
    assert!(matches!(classify("(", &Single), TokenKind::Open));
    assert!(matches!(classify(")", &Single), TokenKind::Close));
    match classify("12.5", &Single) {
        TokenKind::Leaf(a) => assert_eq!(a, num(12.5)),
        _ => panic!("number not read"),
    }
    match classify("\"a b\"", &Single) {
        TokenKind::Leaf(a) => assert_eq!(a, Atom::String("a b".to_string())),
        _ => panic!("string not read"),
    }
    match classify("TRUE", &Single) {
        TokenKind::Leaf(a) => assert_eq!(a, Atom::Boolean(true)),
        _ => panic!("boolean not read"),
    }
    match classify("\"", &Single) {
        TokenKind::Leaf(a) => assert_eq!(a, sym("\"")),
        _ => panic!("lone quote not read"),
    }
    assert!(matches!(classify("X4:1", &Single), TokenKind::Bad(_)));
}

#[test]
fn tree_building() {
    let kinds = vec![TokenKind::Open, TokenKind::Leaf(num(1.0)), TokenKind::Close, TokenKind::Leaf(num(2.0))];
    let (atoms, used) = build_tree(&kinds).unwrap();
    assert_eq!(atoms, vec![list(vec![num(1.0)]), num(2.0)]);
    assert_eq!(used, 4);
    let kinds = vec![TokenKind::Leaf(num(1.0)), TokenKind::Close, TokenKind::Leaf(num(2.0))];
    let (atoms, used) = build_tree(&kinds).unwrap();
    assert_eq!(atoms, vec![num(1.0)]);
    assert_eq!(used, 2);
    let kinds = vec![TokenKind::Open, TokenKind::Bad("no".to_string()), TokenKind::Close];
    assert_eq!(build_tree(&kinds).unwrap_err(), "no");
    let (atoms, used) = construct_ast(&tokenize("(a (b c)) d"), &Single).unwrap();
    assert_eq!(atoms, vec![list(vec![sym("a"), list(vec![sym("b"), sym("c")])]), sym("d")]);
    assert_eq!(used, 8);
}

#[test]
fn note_parts() {
    assert_eq!(parse_note("A4", &Single).unwrap_err(), "Malformed note literal `A4`: missing `:`");
    assert_eq!(parse_note("Bb3:2", &Single).unwrap(), list(vec![num(440.0 * 2.0f32.powf(-11.0 / 12.0)), num(2.0)]));
    assert_eq!(parse_note("A5:0.25", &Single).unwrap(), list(vec![num(880.0), num(0.25)]));
}

#[test]
fn arguments_are_evaluated_in_order() {
    let mut env = Env::new();
    let r = run(&mut env, "(+ (def x 2) x) (equals (+ 1 1) 2 (* 1 2))");
    assert_eq!(r, vec![num(4.0), Atom::Boolean(true)]);
}

#[test]
fn map_over_a_rendered_timeline() {
    let mut env = Env::new();
    let r = run(&mut env, "(def id (f t) f) (map (id) (render 1 ((100 0.0001))))");
    assert_eq!(r[1], list(vec![num(100.0), num(100.0), num(100.0), num(100.0)]));
}

#[test]
fn nested_display_text() {
    let v = list(vec![list(vec![num(1.0), num(2.0)]), Atom::String("a b".to_string())]);
    assert_eq!(v.to_text(&Single), "((1 2) a b)");
}
