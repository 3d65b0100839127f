use vstd::prelude::*;

verus! {

/// A term of the calculus after name resolution.
///
/// Variables are de Bruijn indices counting outward through enclosing binder
/// slots (0 = nearest). Constants are indices into the interned constant
/// table; index 0 is the reserved "stuck" sentinel, the value a failed match
/// collapses to. An abstraction stores the index of its pattern in the
/// pattern table together with that pattern's arity (how many binder slots a
/// successful match consumes). Application is n-ary: one function and an
/// ordered, non-empty argument list. `Struct` is an ordered set of
/// simultaneously live alternative terms (a choice).
#[derive(Debug, PartialEq, Eq)]
pub enum Term {
    Var(usize),
    K(usize),
    Abs(usize, usize, Box<Term>),
    App(Box<Term>, Vec<Term>),
    Struct(Vec<Term>),
}

/// A compiled pattern. `Var` is a wildcard (captures one subterm), `K` matches
/// exactly one interned constant, `App` matches an application whose head is
/// the given constant and whose argument count equals the sub-pattern count.
#[derive(Debug, PartialEq, Eq)]
pub enum Pattern {
    Var,
    K(usize),
    App(usize, Vec<Pattern>),
}

/// Mathematical mirror of `Term`: unbounded indices, `Seq` children.
pub ghost enum TermV {
    Var(nat),
    K(nat),
    Abs(nat, nat, Box<TermV>),
    App(Box<TermV>, Seq<TermV>),
    Struct(Seq<TermV>),
}

/// Mathematical mirror of `Pattern`.
pub ghost enum PatternV {
    Var,
    K(nat),
    App(nat, Seq<PatternV>),
}

/// The stuck sentinel: the reserved constant at table slot 0.
pub open spec fn stuck() -> TermV {
    TermV::K(0)
}

pub open spec fn view_term(t: Term) -> TermV
    decreases t,
{
    match t {
        Term::Var(i) => TermV::Var(i as nat),
        Term::K(i) => TermV::K(i as nat),
        Term::Abs(p, n, b) => TermV::Abs(p as nat, n as nat, Box::new(view_term(*b))),
        Term::App(f, args) => TermV::App(Box::new(view_term(*f)), view_terms(args@)),
        Term::Struct(ms) => TermV::Struct(view_terms(ms@)),
    }
}

pub open spec fn view_terms(ts: Seq<Term>) -> Seq<TermV>
    decreases ts,
{
    if ts.len() == 0 {
        Seq::empty()
    } else {
        seq![view_term(ts[0])] + view_terms(ts.drop_first())
    }
}

pub open spec fn view_pat(p: Pattern) -> PatternV
    decreases p,
{
    match p {
        Pattern::Var => PatternV::Var,
        Pattern::K(k) => PatternV::K(k as nat),
        Pattern::App(k, ps) => PatternV::App(k as nat, view_pats(ps@)),
    }
}

pub open spec fn view_pats(ps: Seq<Pattern>) -> Seq<PatternV>
    decreases ps,
{
    if ps.len() == 0 {
        Seq::empty()
    } else {
        seq![view_pat(ps[0])] + view_pats(ps.drop_first())
    }
}

pub broadcast proof fn lemma_view_terms(ts: Seq<Term>)
    ensures
        (#[trigger] view_terms(ts)).len() == ts.len(),
        forall|i: int| 0 <= i < ts.len() ==> view_terms(ts)[i] == view_term(ts[i]),
    decreases ts,
{
    if ts.len() > 0 {
        lemma_view_terms(ts.drop_first());
    }
}

pub broadcast proof fn lemma_view_pats(ps: Seq<Pattern>)
    ensures
        (#[trigger] view_pats(ps)).len() == ps.len(),
        forall|i: int| 0 <= i < ps.len() ==> view_pats(ps)[i] == view_pat(ps[i]),
    decreases ps,
{
    if ps.len() > 0 {
        lemma_view_pats(ps.drop_first());
    }
}

pub proof fn lemma_view_terms_add(a: Seq<Term>, b: Seq<Term>)
    ensures
        view_terms(a + b) == view_terms(a) + view_terms(b),
    decreases a,
{
    if a.len() == 0 {
        assert(a + b =~= b);
        assert(view_terms(a) + view_terms(b) =~= view_terms(b));
    } else {
        lemma_view_terms_add(a.drop_first(), b);
        assert((a + b).drop_first() =~= a.drop_first() + b);
        assert((a + b)[0] == a[0]);
        assert(seq![view_term(a[0])] + (view_terms(a.drop_first()) + view_terms(b)) =~= (
        seq![view_term(a[0])] + view_terms(a.drop_first())) + view_terms(b));
    }
}

/// The view of an optional term, for stating what the engine's executable
/// walks return.
pub open spec fn opt_view(r: Option<Term>) -> Option<TermV> {
    match r {
        Some(t) => Some(view_term(t)),
        None => None,
    }
}

pub open spec fn opt_views(r: Option<Vec<Term>>) -> Option<Seq<TermV>> {
    match r {
        Some(ts) => Some(view_terms(ts@)),
        None => None,
    }
}

pub open spec fn opt_step_view(r: Option<(Term, bool)>) -> Option<(TermV, bool)> {
    match r {
        Some((t, c)) => Some((view_term(t), c)),
        None => None,
    }
}

pub open spec fn opt_vec_step_view(r: Option<(Vec<Term>, bool)>) -> Option<(Seq<TermV>, bool)> {
    match r {
        Some((ts, c)) => Some((view_terms(ts@), c)),
        None => None,
    }
}

/// Arity of a pattern: how many subterms a successful match captures, which
/// equals the number of binder slots the owning abstraction consumes.
pub open spec fn pat_arity(p: PatternV) -> nat
    decreases p,
{
    match p {
        PatternV::Var => 1,
        PatternV::K(_) => 0,
        PatternV::App(_, ps) => pats_arity(ps),
    }
}

pub open spec fn pats_arity(ps: Seq<PatternV>) -> nat
    decreases ps,
{
    if ps.len() == 0 {
        0
    } else {
        pat_arity(ps[0]) + pats_arity(ps.drop_first())
    }
}

/// Well-formedness of a term against the finished tables: every pattern index
/// is in range and carries that pattern's true arity, every constant index is
/// in range, applications have at least one argument, and a choice is never
/// empty.
pub open spec fn wf_term(t: TermV, pats: Seq<PatternV>, kn: nat) -> bool
    decreases t,
{
    match t {
        TermV::Var(_) => true,
        TermV::K(k) => k < kn,
        TermV::Abs(p, n, b) => p < pats.len() && n == pat_arity(pats[p as int]) && wf_term(
            *b,
            pats,
            kn,
        ),
        TermV::App(f, args) => wf_term(*f, pats, kn) && args.len() >= 1 && wf_terms(
            args,
            pats,
            kn,
        ),
        TermV::Struct(ms) => ms.len() >= 1 && wf_terms(ms, pats, kn),
    }
}

pub open spec fn wf_terms(ts: Seq<TermV>, pats: Seq<PatternV>, kn: nat) -> bool
    decreases ts,
{
    forall|i: int| 0 <= i < ts.len() ==> wf_term(#[trigger] ts[i], pats, kn)
}

/// The tail of a sequence stands lower in the termination order than the
/// sequence, and so does each element; recursive walks over the children of
/// an application or a choice lean on this.
pub proof fn seq_skip_parts<A>(ts: Seq<A>, i: int)
    requires
        0 <= i < ts.len(),
    ensures
        decreases_to!(ts.skip(i) => ts[i]),
        decreases_to!(ts.skip(i) => ts.skip(i + 1)),
{
    let s = ts.skip(i);
    assert(s[0] == ts[i]);
    assert(decreases_to!(s => s[0]));
    assert(s.subrange(1, s.len() as int) =~= ts.skip(i + 1));
    assert(decreases_to!(s => s.subrange(1, s.len() as int)));
}

/// Deep copy with an exact contract; the engine duplicates subterms when it
/// distributes an application over the alternatives of a choice.
pub fn clone_term(t: &Term) -> (r: Term)
    ensures
        view_term(r) == view_term(*t),
    decreases *t,
{
    match t {
        Term::Var(i) => Term::Var(*i),
        Term::K(i) => Term::K(*i),
        Term::Abs(p, n, b) => Term::Abs(*p, *n, Box::new(clone_term(&**b))),
        Term::App(f, args) => {
            proof {
                assert(args@.skip(0) =~= args@);
            }
            Term::App(Box::new(clone_term(&**f)), clone_terms_from(args, 0))
        },
        Term::Struct(ms) => {
            proof {
                assert(ms@.skip(0) =~= ms@);
            }
            Term::Struct(clone_terms_from(ms, 0))
        },
    }
}

pub fn clone_terms(ts: &Vec<Term>) -> (r: Vec<Term>)
    ensures
        view_terms(r@) == view_terms(ts@),
        r@.len() == ts@.len(),
{
    proof {
        assert(ts@.skip(0) =~= ts@);
    }
    clone_terms_from(ts, 0)
}

fn clone_terms_from(ts: &Vec<Term>, i: usize) -> (r: Vec<Term>)
    requires
        i <= ts@.len(),
    ensures
        view_terms(r@) == view_terms(ts@.skip(i as int)),
        r@.len() == ts@.len() - i,
    decreases ts@.skip(i as int),
{
    if i == ts.len() {
        let r: Vec<Term> = Vec::new();
        proof {
            assert(ts@.skip(i as int) =~= Seq::<Term>::empty());
        }
        r
    } else {
        proof {
            seq_skip_parts(ts@, i as int);
        }
        let h = clone_term(&ts[i]);
        let mut r = clone_terms_from(ts, i + 1);
        let ghost tail = r@;
        r.insert(0, h);
        proof {
            let s = ts@.skip(i as int);
            assert(s[0] == ts@[i as int]);
            assert(s.drop_first() =~= ts@.skip(i as int + 1));
            assert(r@[0] == h);
            assert(r@.drop_first() =~= tail);
        }
        r
    }
}

} // verus!
