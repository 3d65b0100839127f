use lam::engine::Block;
use lam::parse;
use lam::reader::Error;
use lam::term::{Pattern, Term};

fn parsed(src: &[u8]) -> Block {
    parse(src.to_vec()).expect("program should resolve")
}

fn reduced(src: &[u8]) -> Block {
    let (b, done) = parsed(src).reduce(1000).expect("within machine range");
    assert!(done, "budget should suffice for these programs");
    b
}

#[test]
fn wildcard_application_returns_argument() {
    // apply \x.x to the constant A
    let b = reduced(br"`\x x A");
    assert_eq!(b.t, Term::K(1));
    assert_eq!(b.k_list[1], b"A".to_vec());
}

#[test]
fn constant_pattern_mismatch_goes_stuck() {
    // the abstraction matches only A; applied to B it collapses to the
    // stuck sentinel, constant slot 0
    let b = reduced(br"`\A A B");
    assert_eq!(b.t, Term::K(0));
    assert_eq!(b.k_list[0], b"Stk".to_vec());
}

#[test]
fn same_constant_interns_once() {
    // two occurrences of A resolve to one table slot
    let b = parsed(br"`A A");
    assert_eq!(b.t, Term::App(Box::new(Term::K(1)), vec![Term::K(1)]));
    assert_eq!(b.k_list.len(), 2);
}

#[test]
fn distinct_constants_intern_apart() {
    let b = parsed(br"`A B");
    assert_eq!(b.t, Term::App(Box::new(Term::K(1)), vec![Term::K(2)]));
    assert_eq!(b.k_list[1], b"A".to_vec());
    assert_eq!(b.k_list[2], b"B".to_vec());
}

#[test]
fn choice_function_distributes() {
    // (A | B) applied to C becomes a choice of the two applications
    let b = reduced(br"`|A B C");
    let left = Term::App(Box::new(Term::K(1)), vec![Term::K(3)]);
    let right = Term::App(Box::new(Term::K(2)), vec![Term::K(3)]);
    assert_eq!(b.t, Term::Struct(vec![left, right]));
}

#[test]
fn all_stuck_choice_collapses_to_one_stuck() {
    // both alternatives fail their match, so the whole choice becomes
    // exactly one stuck term, never an empty choice
    let b = reduced(br"`|\A A \B B C");
    assert_eq!(b.t, Term::K(0));
}

#[test]
fn fixpoint_step_reports_no_change_forever() {
    let b = reduced(br"`\x x A");
    let before = Term::K(1);
    let (b, changed) = b.step().expect("within machine range");
    assert!(!changed);
    assert_eq!(b.t, before);
    let (b, changed) = b.step().expect("within machine range");
    assert!(!changed);
    assert_eq!(b.t, before);
}

#[test]
fn constructor_pattern_needs_exact_arity() {
    // the pattern wants Pair applied to exactly one argument; the argument
    // applies Pair to two, so the match fails even though the head agrees
    let b = reduced(br"`\`Pair x x ``Pair A B");
    assert_eq!(b.t, Term::K(0));
}

#[test]
fn constructor_pattern_matches_exact_arity() {
    // same abstraction, argument with the right argument count: the
    // wildcard capture comes out
    let b = reduced(br"`\`Pair x x `Pair A");
    assert_eq!(b.t, Term::K(2));
    assert_eq!(b.k_list[1], b"Pair".to_vec());
    assert_eq!(b.k_list[2], b"A".to_vec());
}

#[test]
fn curried_arguments_apply_in_turn() {
    // two nested wildcard abstractions consume both arguments; the body
    // returns the nearer binder, bound by the first consumed argument
    let b = reduced(br"``\x\y y A B");
    // arguments are listed newest first, so B is consumed by x, A by y,
    // and y's slot holds A; B was resolved first and sits at slot 1
    assert_eq!(b.t, Term::K(2));
    assert_eq!(b.k_list[1], b"B".to_vec());
    assert_eq!(b.k_list[2], b"A".to_vec());
}

#[test]
fn junk_bytes_are_skipped() {
    let b = parsed(b" ( A ) ");
    assert_eq!(b.t, Term::K(1));
}

#[test]
fn pattern_table_survives_resolution() {
    let b = parsed(br"`\`Pair x x `Pair A");
    assert_eq!(b.pats, vec![Pattern::App(1, vec![Pattern::Var])]);
}

#[test]
fn empty_input_is_rejected() {
    assert_eq!(parse(Vec::new()), Err(Error::UnexpectedEnd));
    assert_eq!(parse(b"   ".to_vec()), Err(Error::UnexpectedEnd));
}

#[test]
fn truncated_application_is_rejected() {
    assert_eq!(parse(b"`A".to_vec()), Err(Error::UnexpectedEnd));
}

#[test]
fn pattern_head_must_be_constant() {
    let src: &[u8] = br"`\`x y A B";
    assert_eq!(parse(src.to_vec()), Err(Error::BadPatternHead));
}

#[test]
fn unbound_variable_is_rejected() {
    assert_eq!(parse(b"x".to_vec()), Err(Error::UnboundVariable));
    let src: &[u8] = br"`\x y A";
    assert_eq!(parse(src.to_vec()), Err(Error::UnboundVariable));
}

#[test]
fn reserved_sentinel_name_is_rejected() {
    assert_eq!(parse(b"Stk".to_vec()), Err(Error::ReservedConstant));
    let src: &[u8] = br"`\x x Stk";
    assert_eq!(parse(src.to_vec()), Err(Error::ReservedConstant));
}

#[test]
fn stuck_argument_kills_the_application() {
    // the inner application goes stuck; the outer one dies with it instead
    // of matching the wildcard against a dead alternative
    let b = reduced(br"`\x x `\A A B");
    assert_eq!(b.t, Term::K(0));
}

#[test]
fn choice_argument_distributes_when_ready() {
    // \x.x applied to the choice (A | B): one application per alternative
    let b = reduced(br"`\x x |A B");
    assert_eq!(b.t, Term::Struct(vec![Term::K(1), Term::K(2)]));
}

#[test]
fn abstraction_alone_is_normal() {
    let b = parsed(br"\x x");
    let (b2, changed) = b.step().expect("within machine range");
    assert!(!changed);
    assert_eq!(b2.t, Term::Abs(0, 1, Box::new(Term::Var(0))));
}

#[test]
fn budget_of_zero_still_reports_unfinished_work() {
    // one step is taken; the flag says whether a fixpoint was reached
    let b = parsed(br"`\x x A");
    let (_b2, done) = b.reduce(0).expect("within machine range");
    assert!(!done);
}

#[test]
fn capture_is_reanchored_under_a_binder() {
    // (\x. ((\y.\z. y) x)) A : the captured x must be promoted past z's
    // binder slot, so the inner body keeps pointing at the right value
    let b = reduced(br"`\x`\y\z y x A");
    assert_eq!(b.t, Term::Abs(2, 1, Box::new(Term::K(1))));
    assert_eq!(b.k_list[1], b"A".to_vec());
}

#[test]
fn substitution_creates_and_flattens_a_nested_application() {
    // (\x. (x B)) (A C) : splicing the captured application into function
    // position nests two applications, which flatten into one argument list
    let b = reduced(br"`\x`x B`A C");
    assert_eq!(
        b.t,
        Term::App(Box::new(Term::K(2)), vec![Term::K(3), Term::K(1)])
    );
    assert_eq!(b.k_list[1], b"B".to_vec());
    assert_eq!(b.k_list[2], b"A".to_vec());
    assert_eq!(b.k_list[3], b"C".to_vec());
}

#[test]
fn constant_sub_pattern_must_agree() {
    // the pattern wants Pair applied to exactly the constant A
    let b = reduced(br"`\`Pair A B `Pair A");
    assert_eq!(b.t, Term::K(1));
    assert_eq!(b.k_list[1], b"B".to_vec());
    let stuck = reduced(br"`\`Pair A B `Pair C");
    assert_eq!(stuck.t, Term::K(0));
}

#[test]
fn renaming_bound_variables_changes_nothing() {
    // the same program under two spellings of its pattern-bound variables
    let a = reduced(br"`\x`\y\z y x A");
    let b = reduced(br"`\long`\odd\name odd long A");
    assert_eq!(a.t, b.t);
    assert_eq!(a.pats, b.pats);
    assert_eq!(a.k_list, b.k_list);
}
