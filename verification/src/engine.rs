use vstd::prelude::*;

use crate::term::{
    Pattern, PatternV, Term, TermV, clone_term, clone_terms, lemma_view_pats, lemma_view_terms,
    lemma_view_terms_add, opt_step_view, opt_vec_step_view, opt_view, opt_views, pat_arity, pats_arity,
    seq_skip_parts, stuck, view_pat, view_pats, view_term, view_terms, wf_term, wf_terms,
};

verus! {

// ---------------------------------------------------------------------------
// Readiness: the restricted weak-normal form an application's first argument
// must reach before a match is attempted. A term is ready when it is a
// variable, an abstraction, a non-stuck constant, or an application whose
// head is ultimately a non-stuck constant. The stuck sentinel is never ready:
// a dead argument instead makes the whole application collapse.
// ---------------------------------------------------------------------------

pub open spec fn const_headed(t: TermV) -> bool
    decreases t,
{
    match t {
        TermV::K(k) => k != 0,
        TermV::App(f, _) => const_headed(*f),
        _ => false,
    }
}

pub open spec fn ready(t: TermV) -> bool {
    match t {
        TermV::Var(_) => true,
        TermV::Abs(_, _, _) => true,
        TermV::K(k) => k != 0,
        TermV::App(_, _) => const_headed(t),
        TermV::Struct(_) => false,
    }
}

pub open spec fn all_ready(ts: Seq<TermV>) -> bool {
    forall|i: int| 0 <= i < ts.len() ==> ready(#[trigger] ts[i])
}

// ---------------------------------------------------------------------------
// The matcher. A wildcard captures the whole value; a constant pattern wants
// exactly that interned constant; a constructor pattern wants an application
// whose head is literally that constant and whose argument count equals the
// sub-pattern count, sub-patterns matched pairwise, captures concatenated
// left to right. Failure is all or nothing.
// ---------------------------------------------------------------------------

pub open spec fn pmatch(p: PatternV, v: TermV) -> Option<Seq<TermV>>
    decreases p,
{
    match p {
        PatternV::Var => Some(seq![v]),
        PatternV::K(k) => if v == TermV::K(k) {
            Some(Seq::empty())
        } else {
            None
        },
        PatternV::App(k, ps) => match v {
            TermV::App(f, args) => if *f == TermV::K(k) && args.len() == ps.len() {
                pmatch_seq(ps, args)
            } else {
                None
            },
            _ => None,
        },
    }
}

pub open spec fn pmatch_seq(ps: Seq<PatternV>, vs: Seq<TermV>) -> Option<Seq<TermV>>
    decreases ps,
{
    if ps.len() == 0 {
        Some(Seq::empty())
    } else {
        match pmatch(ps[0], vs[0]) {
            None => None,
            Some(c0) => match pmatch_seq(ps.drop_first(), vs.drop_first()) {
                None => None,
                Some(cr) => Some(c0 + cr),
            },
        }
    }
}

/// A successful match hands back exactly as many captures as the pattern has
/// wildcards: its arity.
pub proof fn lemma_pmatch_arity(p: PatternV, v: TermV)
    ensures
        pmatch(p, v) matches Some(caps) ==> caps.len() == pat_arity(p),
    decreases p,
{
    match p {
        PatternV::Var => {},
        PatternV::K(_) => {},
        PatternV::App(k, ps) => {
            match v {
                TermV::App(f, args) => lemma_pmatch_seq_arity(ps, args),
                _ => {},
            }
        },
    }
}

pub proof fn lemma_pmatch_seq_arity(ps: Seq<PatternV>, vs: Seq<TermV>)
    ensures
        pmatch_seq(ps, vs) matches Some(caps) ==> caps.len() == pats_arity(ps),
    decreases ps,
{
    if ps.len() > 0 {
        lemma_pmatch_arity(ps[0], vs[0]);
        lemma_pmatch_seq_arity(ps.drop_first(), vs.drop_first());
    }
}

// ---------------------------------------------------------------------------
// Index-shift primitives. Both walk the whole subtree threading a threshold
// that grows by each nested abstraction's bound-slot count, so that only
// indices referring outside all intervening binders are touched. `promote`
// re-anchors a captured value's free references when it is spliced beneath
// additional binders; `compact` removes consumed binder slots from the index
// space. A promoted index must stay representable in a machine word; where it
// would not, the result is `None` and the engine reports the term as beyond
// the machine's range.
// ---------------------------------------------------------------------------

pub open spec fn promote(thr: nat, inc: nat, t: TermV) -> Option<TermV>
    decreases t,
{
    match t {
        TermV::Var(i) => if i < thr {
            Some(t)
        } else if i + inc <= usize::MAX {
            Some(TermV::Var((i + inc) as nat))
        } else {
            None
        },
        TermV::K(_) => Some(t),
        TermV::Abs(p, n, b) => match promote(thr + n, inc, *b) {
            Some(b2) => Some(TermV::Abs(p, n, Box::new(b2))),
            None => None,
        },
        TermV::App(f, args) => match promote(thr, inc, *f) {
            Some(f2) => match promote_seq(thr, inc, args) {
                Some(a2) => Some(TermV::App(Box::new(f2), a2)),
                None => None,
            },
            None => None,
        },
        TermV::Struct(ms) => match promote_seq(thr, inc, ms) {
            Some(m2) => Some(TermV::Struct(m2)),
            None => None,
        },
    }
}

pub open spec fn promote_seq(thr: nat, inc: nat, ts: Seq<TermV>) -> Option<Seq<TermV>>
    decreases ts,
{
    if ts.len() == 0 {
        Some(ts)
    } else {
        match promote(thr, inc, ts[0]) {
            Some(h) => match promote_seq(thr, inc, ts.drop_first()) {
                Some(r) => Some(seq![h] + r),
                None => None,
            },
            None => None,
        }
    }
}

pub open spec fn compact(thr: nat, dec: nat, t: TermV) -> TermV
    decreases t,
{
    match t {
        TermV::Var(i) => if i >= thr {
            TermV::Var((i - dec) as nat)
        } else {
            t
        },
        TermV::K(_) => t,
        TermV::Abs(p, n, b) => TermV::Abs(p, n, Box::new(compact(thr + n, dec, *b))),
        TermV::App(f, args) => TermV::App(
            Box::new(compact(thr, dec, *f)),
            compact_seq(thr, dec, args),
        ),
        TermV::Struct(ms) => TermV::Struct(compact_seq(thr, dec, ms)),
    }
}

pub open spec fn compact_seq(thr: nat, dec: nat, ts: Seq<TermV>) -> Seq<TermV>
    decreases ts,
{
    if ts.len() == 0 {
        ts
    } else {
        seq![compact(thr, dec, ts[0])] + compact_seq(thr, dec, ts.drop_first())
    }
}

// ---------------------------------------------------------------------------
// Substitution: replace each variable lying in the consumed binder range with
// the corresponding captured value, consumed in reverse positional order
// (index 0, the nearest slot, takes the rightmost capture), promoting the
// capture's own free indices to the insertion depth before splicing it in.
// The consumed slots themselves are removed afterwards by `compact`.
// ---------------------------------------------------------------------------

pub open spec fn subst(d: nat, n: nat, caps: Seq<TermV>, t: TermV) -> Option<TermV>
    decreases t,
{
    match t {
        TermV::Var(i) => if i < d {
            Some(t)
        } else if i - d < n {
            if d + n <= usize::MAX {
                promote(0, d + n, caps[n - 1 - (i - d)])
            } else {
                None
            }
        } else {
            Some(t)
        },
        TermV::K(_) => Some(t),
        TermV::Abs(p, m, b) => match subst(d + m, n, caps, *b) {
            Some(b2) => Some(TermV::Abs(p, m, Box::new(b2))),
            None => None,
        },
        TermV::App(f, args) => match subst(d, n, caps, *f) {
            Some(f2) => match subst_seq(d, n, caps, args) {
                Some(a2) => Some(TermV::App(Box::new(f2), a2)),
                None => None,
            },
            None => None,
        },
        TermV::Struct(ms) => match subst_seq(d, n, caps, ms) {
            Some(m2) => Some(TermV::Struct(m2)),
            None => None,
        },
    }
}

pub open spec fn subst_seq(d: nat, n: nat, caps: Seq<TermV>, ts: Seq<TermV>) -> Option<Seq<TermV>>
    decreases ts,
{
    if ts.len() == 0 {
        Some(ts)
    } else {
        match subst(d, n, caps, ts[0]) {
            Some(h) => match subst_seq(d, n, caps, ts.drop_first()) {
                Some(r) => Some(seq![h] + r),
                None => None,
            },
            None => None,
        }
    }
}

// ---------------------------------------------------------------------------
// Every index of a term that exists in memory fits a machine word; a shift
// whose threshold already lies beyond every index leaves the term untouched.
// The executable walks rely on this where a threshold sum no longer fits.
// ---------------------------------------------------------------------------

pub open spec fn idx_bounded(t: TermV, bound: nat) -> bool
    decreases t,
{
    match t {
        TermV::Var(i) => i <= bound,
        TermV::K(_) => true,
        TermV::Abs(_, _, b) => idx_bounded(*b, bound),
        TermV::App(f, args) => idx_bounded(*f, bound) && idx_bounded_seq(args, bound),
        TermV::Struct(ms) => idx_bounded_seq(ms, bound),
    }
}

pub open spec fn idx_bounded_seq(ts: Seq<TermV>, bound: nat) -> bool
    decreases ts,
{
    if ts.len() == 0 {
        true
    } else {
        idx_bounded(ts[0], bound) && idx_bounded_seq(ts.drop_first(), bound)
    }
}

// ---------------------------------------------------------------------------
// One atomic rewrite step. The result carries whether anything changed; the
// caller loops to a fixpoint. `None` means an index shift left the machine's
// range. Reduction is innermost first: subterms are normalized before the
// top-level redex is attempted. On an application, in priority order: the
// function position is stepped (which descends into an abstraction's body);
// a nested application is flattened into one argument list; a stuck function
// kills the application; the first argument is forced towards readiness, and
// a stuck first argument kills the application; then `apply_rules` matches a
// ready argument, or distributes over a choice in function position or over
// a fully ready choice argument. A choice steps its members in place and
// drops the stuck ones; a choice emptied of alternatives collapses to the
// stuck sentinel itself.
// ---------------------------------------------------------------------------

pub open spec fn has_stuck_member(ts: Seq<TermV>) -> bool {
    exists|i: int| 0 <= i < ts.len() && ts[i] == stuck()
}

pub open spec fn prune(ts: Seq<TermV>) -> Seq<TermV>
    decreases ts,
{
    if ts.len() == 0 {
        ts
    } else if ts[0] == stuck() {
        prune(ts.drop_first())
    } else {
        seq![ts[0]] + prune(ts.drop_first())
    }
}

/// Distribution of one argument list over the alternatives of a choice in
/// function position: one application per alternative.
pub open spec fn dist_fun(ms: Seq<TermV>, args: Seq<TermV>) -> Seq<TermV> {
    ms.map_values(|m: TermV| TermV::App(Box::new(m), args))
}

/// Distribution over a choice first argument: one application per ready
/// alternative, each applied together with the remaining arguments.
pub open spec fn dist_arg(f: TermV, ms: Seq<TermV>, rest: Seq<TermV>) -> Seq<TermV> {
    ms.map_values(|m: TermV| TermV::App(Box::new(f), seq![m] + rest))
}

/// Pattern application once the function position is fully reduced and the
/// first argument has been forced as far as it goes: match an abstraction
/// against a ready first argument (success substitutes the captures and
/// removes the consumed binder slots, failure collapses the application to
/// the stuck sentinel), or distribute the application over a choice in
/// function position, or over a fully ready choice first argument.
pub open spec fn apply_rules(pats: Seq<PatternV>, f: TermV, args: Seq<TermV>) -> Option<
    (TermV, bool),
> {
    match f {
        TermV::Abs(p, n, b) => if ready(args[0]) {
            match pmatch(pats[p as int], args[0]) {
                Some(caps) => match subst(0, n, caps, *b) {
                    Some(sb) => {
                        let body = compact(n, n, sb);
                        if args.len() == 1 {
                            Some((body, true))
                        } else {
                            Some((TermV::App(Box::new(body), args.drop_first()), true))
                        }
                    },
                    None => None,
                },
                None => Some((stuck(), true)),
            }
        } else {
            choice_arg(f, args)
        },
        TermV::Struct(ms) => Some((TermV::Struct(dist_fun(ms, args)), true)),
        _ => choice_arg(f, args),
    }
}

/// What an application does when its first argument is a choice: distribute
/// once every alternative is ready, otherwise stand still.
pub open spec fn choice_arg(f: TermV, args: Seq<TermV>) -> Option<(TermV, bool)> {
    match args[0] {
        TermV::Struct(ms) => if all_ready(ms) {
            Some((TermV::Struct(dist_arg(f, ms, args.drop_first())), true))
        } else {
            Some((TermV::App(Box::new(f), args), false))
        },
        _ => Some((TermV::App(Box::new(f), args), false)),
    }
}

pub open spec fn step_spec(pats: Seq<PatternV>, t: TermV) -> Option<(TermV, bool)>
    decreases t,
{
    match t {
        TermV::Var(_) => Some((t, false)),
        TermV::K(_) => Some((t, false)),
        TermV::Abs(p, n, b) => match step_spec(pats, *b) {
            Some((b2, c)) => Some((TermV::Abs(p, n, Box::new(b2)), c)),
            None => None,
        },
        TermV::Struct(ms) => if has_stuck_member(ms) {
            let kept = prune(ms);
            if kept.len() == 0 {
                Some((stuck(), true))
            } else {
                Some((TermV::Struct(kept), true))
            }
        } else {
            match step_seq(pats, ms) {
                Some((ms2, c)) => Some((TermV::Struct(ms2), c)),
                None => None,
            }
        },
        TermV::App(f, args) => match step_spec(pats, *f) {
            None => None,
            Some((f2, true)) => Some((TermV::App(Box::new(f2), args), true)),
            Some((f2, false)) => match f2 {
                TermV::App(g, iargs) => Some((TermV::App(g, iargs + args), true)),
                _ => if f2 == stuck() {
                    Some((stuck(), true))
                } else if args.len() == 0 {
                    Some((TermV::App(Box::new(f2), args), false))
                } else if !ready(args[0]) {
                    match step_spec(pats, args[0]) {
                        None => None,
                        Some((a2, true)) => Some(
                            (TermV::App(Box::new(f2), args.update(0, a2)), true),
                        ),
                        Some((a2, false)) => if a2 == stuck() {
                            Some((stuck(), true))
                        } else {
                            apply_rules(pats, f2, args.update(0, a2))
                        },
                    }
                } else {
                    apply_rules(pats, f2, args)
                },
            },
        },
    }
}

/// Steps the leftmost member that still changes, leaving the others alone.
pub open spec fn step_seq(pats: Seq<PatternV>, ts: Seq<TermV>) -> Option<(Seq<TermV>, bool)>
    decreases ts,
{
    if ts.len() == 0 {
        Some((ts, false))
    } else {
        match step_spec(pats, ts[0]) {
            None => None,
            Some((h, true)) => Some((seq![h] + ts.drop_first(), true)),
            Some((h, false)) => match step_seq(pats, ts.drop_first()) {
                None => None,
                Some((r, c)) => Some((seq![h] + r, c)),
            },
        }
    }
}

/// The view of any term that exists in memory has all its de Bruijn indices
/// within a machine word.
pub proof fn lemma_view_idx_bounded(t: Term)
    ensures
        idx_bounded(view_term(t), usize::MAX as nat),
    decreases t,
{
    match t {
        Term::Var(_) => {},
        Term::K(_) => {},
        Term::Abs(_, _, b) => lemma_view_idx_bounded(*b),
        Term::App(f, args) => {
            lemma_view_idx_bounded(*f);
            lemma_view_idx_bounded_seq(args@);
        },
        Term::Struct(ms) => lemma_view_idx_bounded_seq(ms@),
    }
}

pub proof fn lemma_view_idx_bounded_seq(ts: Seq<Term>)
    ensures
        idx_bounded_seq(view_terms(ts), usize::MAX as nat),
    decreases ts,
{
    if ts.len() > 0 {
        lemma_view_idx_bounded(ts[0]);
        lemma_view_idx_bounded_seq(ts.drop_first());
        let v = view_terms(ts);
        assert(v[0] == view_term(ts[0]));
        assert(v.drop_first() =~= view_terms(ts.drop_first()));
    }
}

/// A shift whose threshold lies beyond every index leaves the term untouched.
pub proof fn lemma_promote_high(thr: nat, inc: nat, t: TermV, bound: nat)
    requires
        idx_bounded(t, bound),
        thr > bound,
    ensures
        promote(thr, inc, t) == Some(t),
    decreases t,
{
    match t {
        TermV::Var(_) => {},
        TermV::K(_) => {},
        TermV::Abs(p, n, b) => lemma_promote_high(thr + n, inc, *b, bound),
        TermV::App(f, args) => {
            lemma_promote_high(thr, inc, *f, bound);
            lemma_promote_high_seq(thr, inc, args, bound);
        },
        TermV::Struct(ms) => lemma_promote_high_seq(thr, inc, ms, bound),
    }
}

pub proof fn lemma_promote_high_seq(thr: nat, inc: nat, ts: Seq<TermV>, bound: nat)
    requires
        idx_bounded_seq(ts, bound),
        thr > bound,
    ensures
        promote_seq(thr, inc, ts) == Some(ts),
    decreases ts,
{
    if ts.len() > 0 {
        lemma_promote_high(thr, inc, ts[0], bound);
        lemma_promote_high_seq(thr, inc, ts.drop_first(), bound);
        assert(seq![ts[0]] + ts.drop_first() =~= ts);
    }
}

pub proof fn lemma_compact_high(thr: nat, dec: nat, t: TermV, bound: nat)
    requires
        idx_bounded(t, bound),
        thr > bound,
    ensures
        compact(thr, dec, t) == t,
    decreases t,
{
    match t {
        TermV::Var(_) => {},
        TermV::K(_) => {},
        TermV::Abs(p, n, b) => lemma_compact_high(thr + n, dec, *b, bound),
        TermV::App(f, args) => {
            lemma_compact_high(thr, dec, *f, bound);
            lemma_compact_high_seq(thr, dec, args, bound);
        },
        TermV::Struct(ms) => lemma_compact_high_seq(thr, dec, ms, bound),
    }
}

pub proof fn lemma_compact_high_seq(thr: nat, dec: nat, ts: Seq<TermV>, bound: nat)
    requires
        idx_bounded_seq(ts, bound),
        thr > bound,
    ensures
        compact_seq(thr, dec, ts) == ts,
    decreases ts,
{
    if ts.len() > 0 {
        lemma_compact_high(thr, dec, ts[0], bound);
        lemma_compact_high_seq(thr, dec, ts.drop_first(), bound);
        assert(seq![ts[0]] + ts.drop_first() =~= ts);
    }
}

pub proof fn lemma_subst_high(d: nat, n: nat, caps: Seq<TermV>, t: TermV, bound: nat)
    requires
        idx_bounded(t, bound),
        d > bound,
    ensures
        subst(d, n, caps, t) == Some(t),
    decreases t,
{
    match t {
        TermV::Var(_) => {},
        TermV::K(_) => {},
        TermV::Abs(p, m, b) => lemma_subst_high(d + m, n, caps, *b, bound),
        TermV::App(f, args) => {
            lemma_subst_high(d, n, caps, *f, bound);
            lemma_subst_high_seq(d, n, caps, args, bound);
        },
        TermV::Struct(ms) => lemma_subst_high_seq(d, n, caps, ms, bound),
    }
}

pub proof fn lemma_subst_high_seq(d: nat, n: nat, caps: Seq<TermV>, ts: Seq<TermV>, bound: nat)
    requires
        idx_bounded_seq(ts, bound),
        d > bound,
    ensures
        subst_seq(d, n, caps, ts) == Some(ts),
    decreases ts,
{
    if ts.len() > 0 {
        lemma_subst_high(d, n, caps, ts[0], bound);
        lemma_subst_high_seq(d, n, caps, ts.drop_first(), bound);
        assert(seq![ts[0]] + ts.drop_first() =~= ts);
    }
}

/// A step that reports "no change" hands the term back untouched. This is
/// the heart of fixpoint idempotence: once a step reports no change, every
/// later step reports the same and the term never moves again.
pub proof fn lemma_step_id(pats: Seq<PatternV>, t: TermV)
    ensures
        step_spec(pats, t) matches Some((t2, false)) ==> t2 == t,
    decreases t,
{
    match t {
        TermV::Var(_) => {},
        TermV::K(_) => {},
        TermV::Abs(p, n, b) => lemma_step_id(pats, *b),
        TermV::Struct(ms) => {
            if !has_stuck_member(ms) {
                lemma_step_seq_id(pats, ms);
            }
        },
        TermV::App(f, args) => {
            lemma_step_id(pats, *f);
            match step_spec(pats, *f) {
                Some((f2, false)) => {
                    match f2 {
                        TermV::App(_, _) => {},
                        _ => {
                            if f2 != stuck() && args.len() > 0 && !ready(args[0]) {
                                lemma_step_id(pats, args[0]);
                                match step_spec(pats, args[0]) {
                                    Some((a2, false)) => {
                                        assert(a2 == args[0]);
                                        assert(args.update(0, a2) =~= args);
                                    },
                                    _ => {},
                                }
                            }
                        },
                    }
                },
                _ => {},
            }
        },
    }
}

pub proof fn lemma_step_seq_id(pats: Seq<PatternV>, ts: Seq<TermV>)
    ensures
        step_seq(pats, ts) matches Some((ts2, false)) ==> ts2 == ts,
    decreases ts,
{
    if ts.len() > 0 {
        lemma_step_id(pats, ts[0]);
        lemma_step_seq_id(pats, ts.drop_first());
        match step_spec(pats, ts[0]) {
            Some((h, false)) => {
                assert(seq![h] + ts.drop_first() =~= ts);
            },
            _ => {},
        }
    }
}

/// Iterated stepping, at most `fuel` steps. The flag says whether a fixpoint
/// (a normal form or a globally stuck term) was reached within the budget.
pub open spec fn reduce_spec(pats: Seq<PatternV>, t: TermV, fuel: nat) -> Option<(TermV, bool)>
    decreases fuel,
{
    match step_spec(pats, t) {
        None => None,
        Some((t2, c)) => if !c {
            Some((t2, true))
        } else if fuel == 0 {
            Some((t2, false))
        } else {
            reduce_spec(pats, t2, (fuel - 1) as nat)
        },
    }
}

// ---------------------------------------------------------------------------
// Executable mirrors. Each walk returns exactly what its specification
// function says of the views; `None` reports an index shift that left the
// machine's range.
// ---------------------------------------------------------------------------

pub fn const_headed_t(t: &Term) -> (r: bool)
    ensures
        r == const_headed(view_term(*t)),
    decreases *t,
{
    match t {
        Term::K(k) => *k != 0,
        Term::App(f, _) => const_headed_t(&**f),
        _ => false,
    }
}

pub fn ready_t(t: &Term) -> (r: bool)
    ensures
        r == ready(view_term(*t)),
{
    match t {
        Term::Var(_) => true,
        Term::Abs(_, _, _) => true,
        Term::K(k) => *k != 0,
        Term::App(_, _) => const_headed_t(t),
        Term::Struct(_) => false,
    }
}

pub fn is_stuck(t: &Term) -> (r: bool)
    ensures
        r == (view_term(*t) == stuck()),
{
    match t {
        Term::K(k) => *k == 0,
        _ => false,
    }
}

fn has_stuck_t(ms: &Vec<Term>) -> (r: bool)
    ensures
        r == has_stuck_member(view_terms(ms@)),
{
    proof {
        lemma_view_terms(ms@);
    }
    let ghost msv = view_terms(ms@);
    let mut i: usize = 0;
    while i < ms.len()
        invariant
            i <= ms@.len(),
            msv == view_terms(ms@),
            msv.len() == ms@.len(),
            forall|j: int| 0 <= j < ms@.len() ==> msv[j] == view_term(ms@[j]),
            forall|j: int| 0 <= j < i ==> msv[j] != stuck(),
        decreases ms@.len() - i,
    {
        if is_stuck(&ms[i]) {
            proof {
                assert(msv[i as int] == stuck());
            }
            return true;
        }
        i += 1;
    }
    false
}

fn all_ready_t(ms: &Vec<Term>) -> (r: bool)
    ensures
        r == all_ready(view_terms(ms@)),
{
    proof {
        lemma_view_terms(ms@);
    }
    let ghost msv = view_terms(ms@);
    let mut i: usize = 0;
    while i < ms.len()
        invariant
            i <= ms@.len(),
            msv == view_terms(ms@),
            msv.len() == ms@.len(),
            forall|j: int| 0 <= j < ms@.len() ==> msv[j] == view_term(ms@[j]),
            forall|j: int| 0 <= j < i ==> ready(msv[j]),
        decreases ms@.len() - i,
    {
        if !ready_t(&ms[i]) {
            proof {
                assert(!ready(msv[i as int]));
            }
            return false;
        }
        i += 1;
    }
    true
}

fn prune_vec(ms: Vec<Term>) -> (r: Vec<Term>)
    ensures
        view_terms(r@) == prune(view_terms(ms@)),
    decreases ms@.len(),
{
    let mut ms = ms;
    let ghost orig = ms@;
    if ms.len() == 0 {
        ms
    } else {
        let h = ms.remove(0);
        proof {
            assert(ms@ =~= orig.drop_first());
            assert(view_terms(orig)[0] == view_term(orig[0]));
            assert(view_terms(orig).drop_first() =~= view_terms(orig.drop_first()));
        }
        let rest = prune_vec(ms);
        if is_stuck(&h) {
            rest
        } else {
            let ghost restv = rest@;
            let mut rest = rest;
            rest.insert(0, h);
            proof {
                assert(rest@[0] == h);
                assert(rest@.drop_first() =~= restv);
                assert(view_terms(rest@) =~= prune(view_terms(orig)));
            }
            rest
        }
    }
}


pub fn promote_t(thr: usize, inc: usize, t: Term) -> (r: Option<Term>)
    ensures
        opt_view(r) == promote(thr as nat, inc as nat, view_term(t)),
    decreases t,
{
    match t {
        Term::Var(i) => if i < thr {
            Some(Term::Var(i))
        } else {
            match i.checked_add(inc) {
                Some(j) => Some(Term::Var(j)),
                None => None,
            }
        },
        Term::K(i) => Some(Term::K(i)),
        Term::Abs(p, n, b) => match thr.checked_add(n) {
            None => {
                proof {
                    lemma_view_idx_bounded(*b);
                    lemma_promote_high(
                        thr as nat + n as nat,
                        inc as nat,
                        view_term(*b),
                        usize::MAX as nat,
                    );
                }
                Some(Term::Abs(p, n, b))
            },
            Some(thr2) => match promote_t(thr2, inc, *b) {
                Some(b2) => Some(Term::Abs(p, n, Box::new(b2))),
                None => None,
            },
        },
        Term::App(f, args) => match promote_t(thr, inc, *f) {
            None => None,
            Some(f2) => match promote_vec(thr, inc, args) {
                None => None,
                Some(a2) => Some(Term::App(Box::new(f2), a2)),
            },
        },
        Term::Struct(ms) => match promote_vec(thr, inc, ms) {
            None => None,
            Some(m2) => Some(Term::Struct(m2)),
        },
    }
}

fn promote_vec(thr: usize, inc: usize, ts: Vec<Term>) -> (r: Option<Vec<Term>>)
    ensures
        opt_views(r) == promote_seq(thr as nat, inc as nat, view_terms(ts@)),
    decreases ts@,
{
    let mut ts = ts;
    let ghost orig = ts@;
    if ts.len() == 0 {
        Some(ts)
    } else {
        let h = ts.remove(0);
        proof {
            assert(decreases_to!(orig => orig[0]));
            assert(orig.subrange(1, orig.len() as int) =~= ts@);
            assert(decreases_to!(orig => orig.subrange(1, orig.len() as int)));
            assert(view_terms(orig)[0] == view_term(h));
            assert(view_terms(orig).drop_first() =~= view_terms(ts@));
        }
        match promote_t(thr, inc, h) {
            None => None,
            Some(h2) => match promote_vec(thr, inc, ts) {
                None => None,
                Some(r) => {
                    let ghost rv = r@;
                    let mut r = r;
                    r.insert(0, h2);
                    proof {
                        assert(r@[0] == h2);
                        assert(r@.drop_first() =~= rv);
                        assert(view_terms(r@) =~= seq![view_term(h2)] + view_terms(rv));
                    }
                    Some(r)
                },
            },
        }
    }
}

pub fn compact_t(thr: usize, dec: usize, t: Term) -> (r: Term)
    requires
        dec <= thr,
    ensures
        view_term(r) == compact(thr as nat, dec as nat, view_term(t)),
    decreases t,
{
    match t {
        Term::Var(i) => if i >= thr {
            Term::Var(i - dec)
        } else {
            Term::Var(i)
        },
        Term::K(i) => Term::K(i),
        Term::Abs(p, n, b) => match thr.checked_add(n) {
            None => {
                proof {
                    lemma_view_idx_bounded(*b);
                    lemma_compact_high(
                        thr as nat + n as nat,
                        dec as nat,
                        view_term(*b),
                        usize::MAX as nat,
                    );
                }
                Term::Abs(p, n, b)
            },
            Some(thr2) => Term::Abs(p, n, Box::new(compact_t(thr2, dec, *b))),
        },
        Term::App(f, args) => Term::App(
            Box::new(compact_t(thr, dec, *f)),
            compact_vec(thr, dec, args),
        ),
        Term::Struct(ms) => Term::Struct(compact_vec(thr, dec, ms)),
    }
}

fn compact_vec(thr: usize, dec: usize, ts: Vec<Term>) -> (r: Vec<Term>)
    requires
        dec <= thr,
    ensures
        view_terms(r@) == compact_seq(thr as nat, dec as nat, view_terms(ts@)),
    decreases ts@,
{
    let mut ts = ts;
    let ghost orig = ts@;
    if ts.len() == 0 {
        ts
    } else {
        let h = ts.remove(0);
        proof {
            assert(decreases_to!(orig => orig[0]));
            assert(orig.subrange(1, orig.len() as int) =~= ts@);
            assert(decreases_to!(orig => orig.subrange(1, orig.len() as int)));
            assert(view_terms(orig)[0] == view_term(h));
            assert(view_terms(orig).drop_first() =~= view_terms(ts@));
        }
        let h2 = compact_t(thr, dec, h);
        let r = compact_vec(thr, dec, ts);
        let ghost rv = r@;
        let mut r = r;
        r.insert(0, h2);
        proof {
            assert(r@[0] == h2);
            assert(r@.drop_first() =~= rv);
            assert(view_terms(r@) =~= seq![view_term(h2)] + view_terms(rv));
        }
        r
    }
}

pub fn subst_t(d: usize, n: usize, caps: &Vec<Term>, t: Term) -> (r: Option<Term>)
    requires
        caps@.len() == n,
    ensures
        opt_view(r) == subst(d as nat, n as nat, view_terms(caps@), view_term(t)),
    decreases t,
{
    match t {
        Term::Var(i) => if i < d {
            Some(Term::Var(i))
        } else if i - d < n {
            match d.checked_add(n) {
                None => None,
                Some(dn) => {
                    let idx = n - 1 - (i - d);
                    proof {
                        lemma_view_terms(caps@);
                    }
                    let cap = clone_term(&caps[idx]);
                    promote_t(0, dn, cap)
                },
            }
        } else {
            Some(Term::Var(i))
        },
        Term::K(i) => Some(Term::K(i)),
        Term::Abs(p, m, b) => match d.checked_add(m) {
            None => {
                proof {
                    lemma_view_idx_bounded(*b);
                    lemma_subst_high(
                        d as nat + m as nat,
                        n as nat,
                        view_terms(caps@),
                        view_term(*b),
                        usize::MAX as nat,
                    );
                }
                Some(Term::Abs(p, m, b))
            },
            Some(d2) => match subst_t(d2, n, caps, *b) {
                Some(b2) => Some(Term::Abs(p, m, Box::new(b2))),
                None => None,
            },
        },
        Term::App(f, args) => match subst_t(d, n, caps, *f) {
            None => None,
            Some(f2) => match subst_vec(d, n, caps, args) {
                None => None,
                Some(a2) => Some(Term::App(Box::new(f2), a2)),
            },
        },
        Term::Struct(ms) => match subst_vec(d, n, caps, ms) {
            None => None,
            Some(m2) => Some(Term::Struct(m2)),
        },
    }
}

fn subst_vec(d: usize, n: usize, caps: &Vec<Term>, ts: Vec<Term>) -> (r: Option<Vec<Term>>)
    requires
        caps@.len() == n,
    ensures
        opt_views(r) == subst_seq(d as nat, n as nat, view_terms(caps@), view_terms(ts@)),
    decreases ts@,
{
    let mut ts = ts;
    let ghost orig = ts@;
    if ts.len() == 0 {
        Some(ts)
    } else {
        let h = ts.remove(0);
        proof {
            assert(decreases_to!(orig => orig[0]));
            assert(orig.subrange(1, orig.len() as int) =~= ts@);
            assert(decreases_to!(orig => orig.subrange(1, orig.len() as int)));
            assert(view_terms(orig)[0] == view_term(h));
            assert(view_terms(orig).drop_first() =~= view_terms(ts@));
        }
        match subst_t(d, n, caps, h) {
            None => None,
            Some(h2) => match subst_vec(d, n, caps, ts) {
                None => None,
                Some(r) => {
                    let ghost rv = r@;
                    let mut r = r;
                    r.insert(0, h2);
                    proof {
                        assert(r@[0] == h2);
                        assert(r@.drop_first() =~= rv);
                        assert(view_terms(r@) =~= seq![view_term(h2)] + view_terms(rv));
                    }
                    Some(r)
                },
            },
        }
    }
}

pub fn pmatch_t(p: &Pattern, v: &Term) -> (r: Option<Vec<Term>>)
    ensures
        opt_views(r) == pmatch(view_pat(*p), view_term(*v)),
    decreases *p,
{
    match p {
        Pattern::Var => {
            let mut out: Vec<Term> = Vec::new();
            let c = clone_term(v);
            out.push(c);
            proof {
                assert(out@.len() == 1);
                assert(out@[0] == c);
                assert(out@.drop_first() =~= Seq::<Term>::empty());
                assert(view_terms(out@.drop_first()) =~= Seq::<TermV>::empty());
                assert(view_terms(out@) =~= seq![view_term(c)]);
            }
            Some(out)
        },
        Pattern::K(k) => match v {
            Term::K(j) => if *j == *k {
                let out: Vec<Term> = Vec::new();
                proof {
                    assert(view_terms(out@) =~= Seq::<TermV>::empty());
                }
                Some(out)
            } else {
                None
            },
            _ => None,
        },
        Pattern::App(k, ps) => match v {
            Term::App(f, args) => match &**f {
                Term::K(j) => {
                    proof {
                        lemma_view_pats(ps@);
                        lemma_view_terms(args@);
                        assert(ps@.skip(0) =~= ps@);
                        assert(args@.skip(0) =~= args@);
                    }
                    if *j == *k && args.len() == ps.len() {
                        pmatch_vec(ps, args, 0)
                    } else {
                        proof {
                            assert(view_term(*v) matches TermV::App(fb, av) && *fb == view_term(
                                **f,
                            ) && av == view_terms(args@));
                            assert(view_term(**f) == TermV::K(*j as nat));
                        }
                        None
                    }
                },
                _ => {
                    proof {
                        assert(view_term(*v) matches TermV::App(fb, av) && *fb == view_term(
                            **f,
                        ));
                    }
                    None
                },
            },
            _ => None,
        },
    }
}

fn pmatch_vec(ps: &Vec<Pattern>, vs: &Vec<Term>, i: usize) -> (r: Option<Vec<Term>>)
    requires
        i <= ps@.len(),
        ps@.len() == vs@.len(),
    ensures
        opt_views(r) == pmatch_seq(
            view_pats(ps@.skip(i as int)),
            view_terms(vs@.skip(i as int)),
        ),
    decreases ps@.skip(i as int),
{
    if i == ps.len() {
        proof {
            assert(ps@.skip(i as int) =~= Seq::<Pattern>::empty());
            assert(view_pats(ps@.skip(i as int)) =~= Seq::<PatternV>::empty());
        }
        let out: Vec<Term> = Vec::new();
        Some(out)
    } else {
        proof {
            seq_skip_parts(ps@, i as int);
            let psk = view_pats(ps@.skip(i as int));
            let vsk = view_terms(vs@.skip(i as int));
            lemma_view_pats(ps@.skip(i as int));
            lemma_view_terms(vs@.skip(i as int));
            lemma_view_pats(ps@.skip(i as int + 1));
            lemma_view_terms(vs@.skip(i as int + 1));
            assert(psk[0] == view_pat(ps@[i as int]));
            assert(vsk[0] == view_term(vs@[i as int]));
            assert(psk.drop_first() =~= view_pats(ps@.skip(i as int + 1)));
            assert(vsk.drop_first() =~= view_terms(vs@.skip(i as int + 1)));
        }
        match pmatch_t(&ps[i], &vs[i]) {
            None => None,
            Some(c0) => match pmatch_vec(ps, vs, i + 1) {
                None => None,
                Some(cr) => {
                    let ghost c0v = c0@;
                    let ghost crv = cr@;
                    let mut c0 = c0;
                    let mut cr = cr;
                    c0.append(&mut cr);
                    proof {
                        lemma_view_terms_add(c0v, crv);
                    }
                    Some(c0)
                },
            },
        }
    }
}



fn dist_f(ms: Vec<Term>, args: &Vec<Term>) -> (r: Vec<Term>)
    ensures
        view_terms(r@) == dist_fun(view_terms(ms@), view_terms(args@)),
    decreases ms@.len(),
{
    let mut ms = ms;
    let ghost orig = ms@;
    proof {
        lemma_view_terms(orig);
    }
    if ms.len() == 0 {
        proof {
            assert(view_terms(ms@) =~= dist_fun(view_terms(orig), view_terms(args@)));
        }
        ms
    } else {
        let h = ms.remove(0);
        proof {
            assert(ms@ =~= orig.drop_first());
            assert(view_terms(orig).drop_first() =~= view_terms(ms@));
        }
        let node = Term::App(Box::new(h), clone_terms(args));
        let rest = dist_f(ms, args);
        let ghost restv = rest@;
        let mut rest = rest;
        rest.insert(0, node);
        proof {
            lemma_view_terms(rest@);
            lemma_view_terms(restv);
            assert(rest@[0] == node);
            assert(rest@.drop_first() =~= restv);
            assert(view_terms(rest@) =~= dist_fun(view_terms(orig), view_terms(args@)));
        }
        rest
    }
}

fn dist_a(f: &Term, ms: Vec<Term>, rest: &Vec<Term>) -> (r: Vec<Term>)
    ensures
        view_terms(r@) == dist_arg(view_term(*f), view_terms(ms@), view_terms(rest@)),
    decreases ms@.len(),
{
    let mut ms = ms;
    let ghost orig = ms@;
    proof {
        lemma_view_terms(orig);
    }
    if ms.len() == 0 {
        proof {
            assert(view_terms(ms@) =~= dist_arg(
                view_term(*f),
                view_terms(orig),
                view_terms(rest@),
            ));
        }
        ms
    } else {
        let h = ms.remove(0);
        proof {
            assert(ms@ =~= orig.drop_first());
            assert(view_terms(orig).drop_first() =~= view_terms(ms@));
        }
        let mut one = clone_terms(rest);
        let ghost onev = one@;
        one.insert(0, h);
        proof {
            assert(one@[0] == h);
            assert(one@.drop_first() =~= onev);
            assert(view_terms(one@) =~= seq![view_term(h)] + view_terms(rest@));
        }
        let node = Term::App(Box::new(clone_term(f)), one);
        let tail = dist_a(f, ms, rest);
        let ghost tailv = tail@;
        let mut tail = tail;
        tail.insert(0, node);
        proof {
            lemma_view_terms(tail@);
            lemma_view_terms(tailv);
            assert(tail@[0] == node);
            assert(tail@.drop_first() =~= tailv);
            assert(view_terms(tail@) =~= dist_arg(
                view_term(*f),
                view_terms(orig),
                view_terms(rest@),
            ));
        }
        tail
    }
}

fn choice_arg_t(f: Term, args: Vec<Term>) -> (r: (Term, bool))
    requires
        args@.len() >= 1,
    ensures
        choice_arg(view_term(f), view_terms(args@)) == Some((view_term(r.0), r.1)),
{
    let ghost argsv = view_terms(args@);
    proof {
        lemma_view_terms(args@);
    }
    let mut args = args;
    let ghost orig = args@;
    let a0 = args.remove(0);
    proof {
        assert(args@ =~= orig.drop_first());
        assert(argsv[0] == view_term(a0));
        assert(argsv.drop_first() =~= view_terms(args@));
    }
    match a0 {
        Term::Struct(ms) => {
            if all_ready_t(&ms) {
                let ghost a0v = view_term(a0);
                proof {
                    assert(a0v matches TermV::Struct(msv) && msv == view_terms(ms@));
                }
                let r = dist_a(&f, ms, &args);
                (Term::Struct(r), true)
            } else {
                let stuffed = Term::Struct(ms);
                let mut args = args;
                args.insert(0, stuffed);
                proof {
                    assert(args@ =~= orig);
                }
                (Term::App(Box::new(f), args), false)
            }
        },
        a0 => {
            let mut args = args;
            args.insert(0, a0);
            proof {
                assert(args@ =~= orig);
            }
            (Term::App(Box::new(f), args), false)
        },
    }
}

fn apply_rules_t(pats: &Vec<Pattern>, f: Term, args: Vec<Term>, Ghost(kn): Ghost<nat>) -> (r:
    Option<(Term, bool)>)
    requires
        args@.len() >= 1,
        wf_term(view_term(f), view_pats(pats@), kn),
    ensures
        opt_step_view(r) == apply_rules(view_pats(pats@), view_term(f), view_terms(args@)),
{
    let ghost patsv = view_pats(pats@);
    let ghost argsv = view_terms(args@);
    proof {
        lemma_view_pats(pats@);
        lemma_view_terms(args@);
    }
    match f {
        Term::Abs(p, n, b) => {
            if ready_t(&args[0]) {
                proof {
                    assert(view_pat(pats@[p as int]) == patsv[p as int]);
                }
                match pmatch_t(&pats[p], &args[0]) {
                    Some(caps) => {
                        proof {
                            lemma_pmatch_arity(patsv[p as int], argsv[0]);
                            lemma_view_terms(caps@);
                        }
                        match subst_t(0, n, &caps, *b) {
                            None => None,
                            Some(sb) => {
                                let body = compact_t(n, n, sb);
                                if args.len() == 1 {
                                    Some((body, true))
                                } else {
                                    let mut args = args;
                                    let ghost orig = args@;
                                    let _a0 = args.remove(0);
                                    proof {
                                        assert(args@ =~= orig.drop_first());
                                        assert(argsv.drop_first() =~= view_terms(args@));
                                    }
                                    Some((Term::App(Box::new(body), args), true))
                                }
                            },
                        }
                    },
                    None => Some((Term::K(0), true)),
                }
            } else {
                let (t2, c) = choice_arg_t(Term::Abs(p, n, b), args);
                Some((t2, c))
            }
        },
        Term::Struct(ms) => {
            let r = dist_f(ms, &args);
            Some((Term::Struct(r), true))
        },
        f => {
            let (t2, c) = choice_arg_t(f, args);
            Some((t2, c))
        },
    }
}


/// One atomic rewrite step over an owned term, against the finished pattern
/// table. Returns the stepped term and whether anything changed; `None`
/// reports a de Bruijn index pushed beyond the machine's range.
pub fn step_t(pats: &Vec<Pattern>, t: Term, Ghost(kn): Ghost<nat>) -> (r: Option<(Term, bool)>)
    requires
        wf_term(view_term(t), view_pats(pats@), kn),
    ensures
        opt_step_view(r) == step_spec(view_pats(pats@), view_term(t)),
    decreases t,
{
    let ghost patsv = view_pats(pats@);
    match t {
        Term::Var(i) => Some((Term::Var(i), false)),
        Term::K(i) => Some((Term::K(i), false)),
        Term::Abs(p, n, b) => match step_t(pats, *b, Ghost(kn)) {
            None => None,
            Some((b2, c)) => Some((Term::Abs(p, n, Box::new(b2)), c)),
        },
        Term::Struct(ms) => {
            let ghost msv = view_terms(ms@);
            if has_stuck_t(&ms) {
                let kept = prune_vec(ms);
                if kept.len() == 0 {
                    proof {
                        lemma_view_terms(kept@);
                    }
                    Some((Term::K(0), true))
                } else {
                    proof {
                        lemma_view_terms(kept@);
                    }
                    Some((Term::Struct(kept), true))
                }
            } else {
                match step_vec(pats, ms, Ghost(kn)) {
                    None => None,
                    Some((ms2, c)) => Some((Term::Struct(ms2), c)),
                }
            }
        },
        Term::App(f, args) => {
            let ghost fv = view_term(*f);
            let ghost argsv = view_terms(args@);
            proof {
                lemma_view_terms(args@);
                assert(view_term(t) matches TermV::App(fb, ab) && *fb == fv && ab == argsv);
                assert(wf_term(fv, patsv, kn) && argsv.len() >= 1 && wf_terms(argsv, patsv, kn));
            }
            match step_t(pats, *f, Ghost(kn)) {
                None => None,
                Some((f2, true)) => Some((Term::App(Box::new(f2), args), true)),
                Some((f2, false)) => {
                    proof {
                        lemma_step_id(patsv, fv);
                        assert(view_term(f2) == fv);
                    }
                    match f2 {
                        Term::App(g, iargs) => {
                            let ghost iv = iargs@;
                            let ghost av = args@;
                            let mut iargs = iargs;
                            let mut args = args;
                            iargs.append(&mut args);
                            proof {
                                assert(iargs@ =~= iv + av);
                                lemma_view_terms_add(iv, av);
                            }
                            Some((Term::App(g, iargs), true))
                        },
                        f2 => {
                            if is_stuck(&f2) {
                                return Some((Term::K(0), true));
                            }
                            if !ready_t(&args[0]) {
                                let mut args = args;
                                let ghost orig = args@;
                                let a0 = args.remove(0);
                                let ghost a0v = view_term(a0);
                                proof {
                                    assert(decreases_to!(orig => orig[0]));
                                    assert(argsv[0] == a0v);
                                    assert(args@ =~= orig.drop_first());
                                    assert(argsv.drop_first() =~= view_terms(args@));
                                    assert(wf_term(argsv[0], patsv, kn));
                                }
                                match step_t(pats, a0, Ghost(kn)) {
                                    None => None,
                                    Some((a2, true)) => {
                                        let mut args = args;
                                        args.insert(0, a2);
                                        proof {
                                            lemma_view_terms(args@);
                                            lemma_view_terms(orig);
                                            assert(view_terms(args@) =~= argsv.update(
                                                0,
                                                view_term(a2),
                                            ));
                                        }
                                        Some((Term::App(Box::new(f2), args), true))
                                    },
                                    Some((a2, false)) => {
                                        if is_stuck(&a2) {
                                            Some((Term::K(0), true))
                                        } else {
                                            proof {
                                                lemma_step_id(patsv, a0v);
                                                assert(view_term(a2) == a0v);
                                            }
                                            let mut args = args;
                                            args.insert(0, a2);
                                            proof {
                                                lemma_view_terms(args@);
                                                lemma_view_terms(orig);
                                                assert(view_terms(args@) =~= argsv.update(
                                                    0,
                                                    view_term(a2),
                                                ));
                                                assert(view_terms(args@) =~= argsv);
                                            }
                                            apply_rules_t(pats, f2, args, Ghost(kn))
                                        }
                                    },
                                }
                            } else {
                                apply_rules_t(pats, f2, args, Ghost(kn))
                            }
                        },
                    }
                },
            }
        },
    }
}

fn step_vec(pats: &Vec<Pattern>, ms: Vec<Term>, Ghost(kn): Ghost<nat>) -> (r: Option<
    (Vec<Term>, bool)>)
    requires
        wf_terms(view_terms(ms@), view_pats(pats@), kn),
    ensures
        opt_vec_step_view(r) == step_seq(view_pats(pats@), view_terms(ms@)),
    decreases ms@,
{
    let ghost patsv = view_pats(pats@);
    let mut ms = ms;
    let ghost orig = ms@;
    let ghost origv = view_terms(orig);
    proof {
        lemma_view_terms(orig);
    }
    if ms.len() == 0 {
        Some((ms, false))
    } else {
        let h = ms.remove(0);
        proof {
            assert(decreases_to!(orig => orig[0]));
            assert(orig.subrange(1, orig.len() as int) =~= ms@);
            assert(decreases_to!(orig => orig.subrange(1, orig.len() as int)));
            assert(origv[0] == view_term(h));
            assert(origv.drop_first() =~= view_terms(ms@));
            assert(wf_term(view_term(h), patsv, kn));
            assert(wf_terms(view_terms(ms@), patsv, kn)) by {
                lemma_view_terms(ms@);
            }
        }
        match step_t(pats, h, Ghost(kn)) {
            None => None,
            Some((h2, true)) => {
                let mut ms = ms;
                ms.insert(0, h2);
                proof {
                    let ghost tail = origv.drop_first();
                    lemma_view_terms(ms@);
                    assert(view_terms(ms@) =~= seq![view_term(h2)] + tail);
                }
                Some((ms, true))
            },
            Some((h2, false)) => match step_vec(pats, ms, Ghost(kn)) {
                None => None,
                Some((r, c)) => {
                    let ghost rv = r@;
                    let mut r = r;
                    r.insert(0, h2);
                    proof {
                        assert(r@[0] == h2);
                        assert(r@.drop_first() =~= rv);
                        assert(view_terms(r@) =~= seq![view_term(h2)] + view_terms(rv));
                    }
                    Some((r, c))
                },
            },
        }
    }
}


// ---------------------------------------------------------------------------
// A step preserves well-formedness: the stepped term is again valid against
// the same tables, so the caller may go on stepping it to a fixpoint.
// ---------------------------------------------------------------------------

pub proof fn lemma_promote_wf(thr: nat, inc: nat, t: TermV, pats: Seq<PatternV>, kn: nat)
    requires
        wf_term(t, pats, kn),
    ensures
        promote(thr, inc, t) matches Some(t2) ==> wf_term(t2, pats, kn),
    decreases t,
{
    match t {
        TermV::Var(_) => {},
        TermV::K(_) => {},
        TermV::Abs(p, n, b) => lemma_promote_wf(thr + n, inc, *b, pats, kn),
        TermV::App(f, args) => {
            lemma_promote_wf(thr, inc, *f, pats, kn);
            lemma_promote_seq_wf(thr, inc, args, pats, kn);
        },
        TermV::Struct(ms) => lemma_promote_seq_wf(thr, inc, ms, pats, kn),
    }
}

pub proof fn lemma_promote_seq_wf(thr: nat, inc: nat, ts: Seq<TermV>, pats: Seq<PatternV>, kn: nat)
    requires
        wf_terms(ts, pats, kn),
    ensures
        promote_seq(thr, inc, ts) matches Some(ts2) ==> ts2.len() == ts.len() && wf_terms(
            ts2,
            pats,
            kn,
        ),
    decreases ts,
{
    if ts.len() > 0 {
        assert(wf_term(ts[0], pats, kn));
        lemma_promote_wf(thr, inc, ts[0], pats, kn);
        assert(wf_terms(ts.drop_first(), pats, kn)) by {
            assert(forall|i: int|
                0 <= i < ts.drop_first().len() ==> #[trigger] ts.drop_first()[i] == ts[i + 1]);
        }
        lemma_promote_seq_wf(thr, inc, ts.drop_first(), pats, kn);
        match promote(thr, inc, ts[0]) {
            Some(h) => match promote_seq(thr, inc, ts.drop_first()) {
                Some(r) => {
                    let out = seq![h] + r;
                    assert(forall|i: int|
                        0 <= i < out.len() ==> wf_term(#[trigger] out[i], pats, kn)) by {
                        assert(forall|i: int| 1 <= i < out.len() ==> out[i] == r[i - 1]);
                    }
                    assert(wf_terms(out, pats, kn));
                },
                None => {},
            },
            None => {},
        }
    }
}

pub proof fn lemma_compact_wf(thr: nat, dec: nat, t: TermV, pats: Seq<PatternV>, kn: nat)
    requires
        wf_term(t, pats, kn),
    ensures
        wf_term(compact(thr, dec, t), pats, kn),
    decreases t,
{
    match t {
        TermV::Var(_) => {},
        TermV::K(_) => {},
        TermV::Abs(p, n, b) => lemma_compact_wf(thr + n, dec, *b, pats, kn),
        TermV::App(f, args) => {
            lemma_compact_wf(thr, dec, *f, pats, kn);
            lemma_compact_seq_wf(thr, dec, args, pats, kn);
        },
        TermV::Struct(ms) => lemma_compact_seq_wf(thr, dec, ms, pats, kn),
    }
}

pub proof fn lemma_compact_seq_wf(thr: nat, dec: nat, ts: Seq<TermV>, pats: Seq<PatternV>, kn: nat)
    requires
        wf_terms(ts, pats, kn),
    ensures
        compact_seq(thr, dec, ts).len() == ts.len(),
        wf_terms(compact_seq(thr, dec, ts), pats, kn),
    decreases ts,
{
    if ts.len() > 0 {
        assert(wf_term(ts[0], pats, kn));
        lemma_compact_wf(thr, dec, ts[0], pats, kn);
        assert(wf_terms(ts.drop_first(), pats, kn)) by {
            assert(forall|i: int|
                0 <= i < ts.drop_first().len() ==> #[trigger] ts.drop_first()[i] == ts[i + 1]);
        }
        lemma_compact_seq_wf(thr, dec, ts.drop_first(), pats, kn);
        let out = seq![compact(thr, dec, ts[0])] + compact_seq(thr, dec, ts.drop_first());
        assert(forall|i: int| 0 <= i < out.len() ==> wf_term(#[trigger] out[i], pats, kn)) by {
            assert(forall|i: int|
                1 <= i < out.len() ==> out[i] == compact_seq(thr, dec, ts.drop_first())[i - 1]);
        }
        assert(wf_terms(out, pats, kn));
    }
}

pub proof fn lemma_subst_wf(
    d: nat,
    n: nat,
    caps: Seq<TermV>,
    t: TermV,
    pats: Seq<PatternV>,
    kn: nat,
)
    requires
        wf_term(t, pats, kn),
        wf_terms(caps, pats, kn),
        caps.len() == n,
    ensures
        subst(d, n, caps, t) matches Some(t2) ==> wf_term(t2, pats, kn),
    decreases t,
{
    match t {
        TermV::Var(i) => {
            if i >= d && i - d < n && d + n <= usize::MAX {
                let idx = n - 1 - (i - d);
                assert(wf_term(caps[idx as int], pats, kn));
                lemma_promote_wf(0, d + n, caps[idx as int], pats, kn);
            }
        },
        TermV::K(_) => {},
        TermV::Abs(p, m, b) => lemma_subst_wf(d + m, n, caps, *b, pats, kn),
        TermV::App(f, args) => {
            lemma_subst_wf(d, n, caps, *f, pats, kn);
            lemma_subst_seq_wf(d, n, caps, args, pats, kn);
        },
        TermV::Struct(ms) => lemma_subst_seq_wf(d, n, caps, ms, pats, kn),
    }
}

pub proof fn lemma_subst_seq_wf(
    d: nat,
    n: nat,
    caps: Seq<TermV>,
    ts: Seq<TermV>,
    pats: Seq<PatternV>,
    kn: nat,
)
    requires
        wf_terms(ts, pats, kn),
        wf_terms(caps, pats, kn),
        caps.len() == n,
    ensures
        subst_seq(d, n, caps, ts) matches Some(ts2) ==> ts2.len() == ts.len() && wf_terms(
            ts2,
            pats,
            kn,
        ),
    decreases ts,
{
    if ts.len() > 0 {
        assert(wf_term(ts[0], pats, kn));
        lemma_subst_wf(d, n, caps, ts[0], pats, kn);
        assert(wf_terms(ts.drop_first(), pats, kn)) by {
            assert(forall|i: int|
                0 <= i < ts.drop_first().len() ==> #[trigger] ts.drop_first()[i] == ts[i + 1]);
        }
        lemma_subst_seq_wf(d, n, caps, ts.drop_first(), pats, kn);
        match subst(d, n, caps, ts[0]) {
            Some(h) => match subst_seq(d, n, caps, ts.drop_first()) {
                Some(r) => {
                    let out = seq![h] + r;
                    assert(forall|i: int|
                        0 <= i < out.len() ==> wf_term(#[trigger] out[i], pats, kn)) by {
                        assert(forall|i: int| 1 <= i < out.len() ==> out[i] == r[i - 1]);
                    }
                    assert(wf_terms(out, pats, kn));
                },
                None => {},
            },
            None => {},
        }
    }
}

pub proof fn lemma_pmatch_wf(p: PatternV, v: TermV, pats: Seq<PatternV>, kn: nat)
    requires
        wf_term(v, pats, kn),
    ensures
        pmatch(p, v) matches Some(caps) ==> wf_terms(caps, pats, kn),
    decreases p,
{
    match p {
        PatternV::Var => {
            let caps = seq![v];
            assert(forall|i: int| 0 <= i < caps.len() ==> wf_term(#[trigger] caps[i], pats, kn));
        },
        PatternV::K(_) => {},
        PatternV::App(k, ps) => {
            match v {
                TermV::App(f, args) => {
                    if *f == TermV::K(k) && args.len() == ps.len() {
                        lemma_pmatch_seq_wf(ps, args, pats, kn);
                    }
                },
                _ => {},
            }
        },
    }
}

pub proof fn lemma_pmatch_seq_wf(ps: Seq<PatternV>, vs: Seq<TermV>, pats: Seq<PatternV>, kn: nat)
    requires
        wf_terms(vs, pats, kn),
        ps.len() == vs.len(),
    ensures
        pmatch_seq(ps, vs) matches Some(caps) ==> wf_terms(caps, pats, kn),
    decreases ps,
{
    if ps.len() > 0 {
        assert(wf_term(vs[0], pats, kn));
        lemma_pmatch_wf(ps[0], vs[0], pats, kn);
        assert(wf_terms(vs.drop_first(), pats, kn)) by {
            assert(forall|i: int|
                0 <= i < vs.drop_first().len() ==> #[trigger] vs.drop_first()[i] == vs[i + 1]);
        }
        lemma_pmatch_seq_wf(ps.drop_first(), vs.drop_first(), pats, kn);
        match pmatch(ps[0], vs[0]) {
            Some(c0) => match pmatch_seq(ps.drop_first(), vs.drop_first()) {
                Some(cr) => {
                    let out = c0 + cr;
                    assert(forall|i: int|
                        0 <= i < out.len() ==> wf_term(#[trigger] out[i], pats, kn)) by {
                        assert(forall|i: int| 0 <= i < c0.len() ==> out[i] == c0[i]);
                        assert(forall|i: int|
                            c0.len() <= i < out.len() ==> out[i] == cr[i - c0.len()]);
                    }
                    assert(wf_terms(out, pats, kn));
                },
                None => {},
            },
            None => {},
        }
    }
}

pub proof fn lemma_prune_wf(ts: Seq<TermV>, pats: Seq<PatternV>, kn: nat)
    requires
        wf_terms(ts, pats, kn),
    ensures
        wf_terms(prune(ts), pats, kn),
        prune(ts).len() <= ts.len(),
    decreases ts,
{
    if ts.len() > 0 {
        assert(wf_term(ts[0], pats, kn));
        assert(wf_terms(ts.drop_first(), pats, kn)) by {
            assert(forall|i: int|
                0 <= i < ts.drop_first().len() ==> #[trigger] ts.drop_first()[i] == ts[i + 1]);
        }
        lemma_prune_wf(ts.drop_first(), pats, kn);
        if ts[0] != stuck() {
            let out = seq![ts[0]] + prune(ts.drop_first());
            assert(forall|i: int| 0 <= i < out.len() ==> wf_term(#[trigger] out[i], pats, kn)) by {
                assert(forall|i: int|
                    1 <= i < out.len() ==> out[i] == prune(ts.drop_first())[i - 1]);
            }
            assert(wf_terms(out, pats, kn));
        }
    }
}

pub proof fn lemma_step_wf(pats: Seq<PatternV>, t: TermV, kn: nat)
    requires
        wf_term(t, pats, kn),
        kn >= 1,
    ensures
        step_spec(pats, t) matches Some((t2, c)) ==> wf_term(t2, pats, kn),
    decreases t,
{
    match t {
        TermV::Var(_) => {},
        TermV::K(_) => {},
        TermV::Abs(p, n, b) => lemma_step_wf(pats, *b, kn),
        TermV::Struct(ms) => {
            if has_stuck_member(ms) {
                lemma_prune_wf(ms, pats, kn);
            } else {
                lemma_step_seq_wf(pats, ms, kn);
            }
        },
        TermV::App(f, args) => {
            assert(wf_term(*f, pats, kn) && args.len() >= 1 && wf_terms(args, pats, kn));
            lemma_step_wf(pats, *f, kn);
            match step_spec(pats, *f) {
                Some((f2, true)) => {
                    assert(wf_term(f2, pats, kn));
                    assert(wf_term(TermV::App(Box::new(f2), args), pats, kn));
                },
                Some((f2, false)) => {
                    assert(wf_term(f2, pats, kn));
                    match f2 {
                        TermV::App(g, iargs) => {
                            assert(wf_terms(iargs, pats, kn));
                            let out = iargs + args;
                            assert(forall|i: int|
                                0 <= i < out.len() ==> wf_term(#[trigger] out[i], pats, kn)) by {
                                assert(forall|i: int|
                                    0 <= i < iargs.len() ==> out[i] == iargs[i]);
                                assert(forall|i: int|
                                    iargs.len() <= i < out.len() ==> out[i] == args[i
                                        - iargs.len()]);
                            }
                            assert(wf_terms(out, pats, kn));
                        },
                        _ => {
                            if f2 != stuck() && args.len() > 0 {
                                if !ready(args[0]) {
                                    assert(wf_term(args[0], pats, kn));
                                    lemma_step_wf(pats, args[0], kn);
                                    match step_spec(pats, args[0]) {
                                        Some((a2, false)) => {
                                            if a2 != stuck() {
                                                let up = args.update(0, a2);
                                                assert(wf_terms(up, pats, kn)) by {
                                                    assert(forall|i: int|
                                                        1 <= i < up.len() ==> up[i] == args[i]);
                                                }
                                                lemma_apply_rules_wf(pats, f2, up, kn);
                                            }
                                        },
                                        Some((a2, true)) => {
                                            let up = args.update(0, a2);
                                            assert(wf_terms(up, pats, kn)) by {
                                                assert(forall|i: int|
                                                    1 <= i < up.len() ==> up[i] == args[i]);
                                            }
                                        },
                                        _ => {},
                                    }
                                } else {
                                    lemma_apply_rules_wf(pats, f2, args, kn);
                                }
                            }
                        },
                    }
                },
                _ => {},
            }
        },
    }
}

pub proof fn lemma_step_seq_wf(pats: Seq<PatternV>, ts: Seq<TermV>, kn: nat)
    requires
        wf_terms(ts, pats, kn),
        kn >= 1,
    ensures
        step_seq(pats, ts) matches Some((ts2, c)) ==> ts2.len() == ts.len() && wf_terms(
            ts2,
            pats,
            kn,
        ),
    decreases ts,
{
    if ts.len() > 0 {
        assert(wf_term(ts[0], pats, kn));
        lemma_step_wf(pats, ts[0], kn);
        assert(wf_terms(ts.drop_first(), pats, kn)) by {
            assert(forall|i: int|
                0 <= i < ts.drop_first().len() ==> #[trigger] ts.drop_first()[i] == ts[i + 1]);
        }
        lemma_step_seq_wf(pats, ts.drop_first(), kn);
        match step_spec(pats, ts[0]) {
            Some((h, true)) => {
                let out = seq![h] + ts.drop_first();
                assert(forall|i: int|
                    0 <= i < out.len() ==> wf_term(#[trigger] out[i], pats, kn)) by {
                    assert(forall|i: int|
                        1 <= i < out.len() ==> out[i] == ts.drop_first()[i - 1]);
                }
                assert(wf_terms(out, pats, kn));
            },
            Some((h, false)) => {
                match step_seq(pats, ts.drop_first()) {
                    Some((r, c)) => {
                        let out = seq![h] + r;
                        assert(forall|i: int|
                            0 <= i < out.len() ==> wf_term(#[trigger] out[i], pats, kn)) by {
                            assert(forall|i: int| 1 <= i < out.len() ==> out[i] == r[i - 1]);
                        }
                        assert(wf_terms(out, pats, kn));
                    },
                    None => {},
                }
            },
            None => {},
        }
    }
}

pub proof fn lemma_apply_rules_wf(pats: Seq<PatternV>, f: TermV, args: Seq<TermV>, kn: nat)
    requires
        wf_term(f, pats, kn),
        wf_terms(args, pats, kn),
        args.len() >= 1,
        kn >= 1,
    ensures
        apply_rules(pats, f, args) matches Some((t2, c)) ==> wf_term(t2, pats, kn),
{
    match f {
        TermV::Abs(p, n, b) => {
            assert(p < pats.len() && n == pat_arity(pats[p as int]) && wf_term(*b, pats, kn));
            if ready(args[0]) {
                assert(wf_term(args[0], pats, kn));
                lemma_pmatch_arity(pats[p as int], args[0]);
                lemma_pmatch_wf(pats[p as int], args[0], pats, kn);
                match pmatch(pats[p as int], args[0]) {
                    Some(caps) => {
                        lemma_subst_wf(0, n, caps, *b, pats, kn);
                        match subst(0, n, caps, *b) {
                            Some(sb) => {
                                lemma_compact_wf(n, n, sb, pats, kn);
                                if args.len() > 1 {
                                    assert(wf_terms(args.drop_first(), pats, kn)) by {
                                        assert(forall|i: int|
                                            0 <= i < args.drop_first().len()
                                                ==> #[trigger] args.drop_first()[i] == args[i
                                                + 1]);
                                    }
                                }
                            },
                            None => {},
                        }
                    },
                    None => {},
                }
            } else {
                lemma_choice_arg_wf(pats, f, args, kn);
            }
        },
        TermV::Struct(ms) => {
            assert(ms.len() >= 1 && wf_terms(ms, pats, kn));
            let out = dist_fun(ms, args);
            assert forall|i: int| 0 <= i < out.len() implies wf_term(
                #[trigger] out[i],
                pats,
                kn,
            ) by {
                assert(wf_term(ms[i], pats, kn));
                assert(out[i] == TermV::App(Box::new(ms[i]), args));
            }
            assert(wf_terms(out, pats, kn));
        },
        _ => lemma_choice_arg_wf(pats, f, args, kn),
    }
}

pub proof fn lemma_choice_arg_wf(pats: Seq<PatternV>, f: TermV, args: Seq<TermV>, kn: nat)
    requires
        wf_term(f, pats, kn),
        wf_terms(args, pats, kn),
        args.len() >= 1,
        kn >= 1,
    ensures
        choice_arg(f, args) matches Some((t2, c)) ==> wf_term(t2, pats, kn),
{
    assert(wf_term(args[0], pats, kn));
    match args[0] {
        TermV::Struct(ms) => {
            if all_ready(ms) {
                assert(ms.len() >= 1 && wf_terms(ms, pats, kn));
                let rest = args.drop_first();
                assert(wf_terms(rest, pats, kn)) by {
                    assert(forall|i: int|
                        0 <= i < rest.len() ==> #[trigger] rest[i] == args[i + 1]);
                }
                let out = dist_arg(f, ms, rest);
                assert forall|i: int| 0 <= i < out.len() implies wf_term(
                    #[trigger] out[i],
                    pats,
                    kn,
                ) by {
                    let arglist = seq![ms[i]] + rest;
                    assert(wf_term(ms[i], pats, kn));
                    assert(arglist[0] == ms[i]);
                    assert(forall|j: int| 1 <= j < arglist.len() ==> arglist[j] == rest[j - 1]);
                    assert(wf_terms(arglist, pats, kn)) by {
                        assert(forall|j: int|
                            0 <= j < arglist.len() ==> wf_term(#[trigger] arglist[j], pats, kn));
                    }
                    assert(out[i] == TermV::App(Box::new(f), arglist));
                }
                assert(wf_terms(out, pats, kn));
            }
        },
        _ => {},
    }
}


// ---------------------------------------------------------------------------
// A resolved program: the term tree together with the finished, immutable
// pattern table and constant name table built by resolution. The engine owns
// the term and rewrites it; the tables are never touched again.
// ---------------------------------------------------------------------------

#[derive(Debug, PartialEq, Eq)]
pub struct Block {
    pub t: Term,
    pub pats: Vec<Pattern>,
    pub k_list: Vec<Vec<u8>>,
}

impl Block {
    /// The term is valid against the tables, and the table holds at least the
    /// reserved stuck sentinel at slot 0.
    pub open spec fn wf(self) -> bool {
        &&& wf_term(view_term(self.t), view_pats(self.pats@), self.k_list@.len() as nat)
        &&& self.k_list@.len() >= 1
    }

    /// One atomic rewrite step over the owned term; the flag reports whether
    /// anything changed, so the caller can loop this to a fixpoint. `None`
    /// reports a de Bruijn index pushed beyond the machine's range.
    pub fn step(self) -> (r: Option<(Block, bool)>)
        requires
            self.wf(),
        ensures
            match r {
                Some((b2, c)) => {
                    &&& b2.wf()
                    &&& b2.pats@ == self.pats@
                    &&& b2.k_list@ == self.k_list@
                    &&& Some((view_term(b2.t), c)) == step_spec(
                        view_pats(self.pats@),
                        view_term(self.t),
                    )
                },
                None => step_spec(view_pats(self.pats@), view_term(self.t)) is None,
            },
    {
        let Block { t, pats, k_list } = self;
        proof {
            lemma_step_wf(view_pats(pats@), view_term(t), k_list@.len() as nat);
        }
        match step_t(&pats, t, Ghost(k_list@.len() as nat)) {
            None => None,
            Some((t2, c)) => Some((Block { t: t2, pats, k_list }, c)),
        }
    }

    /// Steps the term towards its fixpoint, at most `fuel` + 1 times; the
    /// flag reports whether a fixpoint (a normal form, possibly holding stuck
    /// subterms) was reached within the budget. The calculus admits diverging
    /// programs, so an unbounded loop to the fixpoint is the caller's choice.
    pub fn reduce(self, fuel: usize) -> (r: Option<(Block, bool)>)
        requires
            self.wf(),
        ensures
            match r {
                Some((b2, done)) => {
                    &&& b2.wf()
                    &&& b2.pats@ == self.pats@
                    &&& b2.k_list@ == self.k_list@
                    &&& Some((view_term(b2.t), done)) == reduce_spec(
                        view_pats(self.pats@),
                        view_term(self.t),
                        fuel as nat,
                    )
                },
                None => reduce_spec(view_pats(self.pats@), view_term(self.t), fuel as nat)
                    is None,
            },
        decreases fuel,
    {
        match self.step() {
            None => None,
            Some((b2, c)) => if !c {
                Some((b2, true))
            } else if fuel == 0 {
                Some((b2, false))
            } else {
                b2.reduce(fuel - 1)
            },
        }
    }
}

} // verus!
