use vstd::prelude::*;

use crate::engine::{lemma_step_id, pmatch, prune, reduce_spec, step_spec};
use crate::reader::{Error, PPatternV, PTermV, prefix_of};
use crate::resolver::{
    compile_pat, compile_pats, find_name, intern, lemma_find_char, lookup, pat_names, pats_names,
    reserved_name, resolve_term, resolve_terms,
};
use crate::term::{PatternV, TermV, stuck};

verus! {

/// Fixpoint idempotence: once one rewrite step reports "no change", the term
/// it hands back is the very term it was given, so every subsequent step on
/// it reports "no change" too and leaves it bit for bit unchanged.
pub proof fn law_fixpoint_idempotence(pats: Seq<PatternV>, t: TermV)
    ensures
        step_spec(pats, t) matches Some((t2, false)) ==> t2 == t && step_spec(pats, t2) == Some(
            (t, false),
        ),
{
    lemma_step_id(pats, t);
}

/// Exact-arity matching: an application whose argument count differs from a
/// constructor pattern's sub-pattern count never matches it, whatever its
/// head — even the very constant the pattern names.
pub proof fn law_exact_arity(k: nat, ps: Seq<PatternV>, f: TermV, args: Seq<TermV>)
    requires
        args.len() != ps.len(),
    ensures
        pmatch(PatternV::App(k, ps), TermV::App(Box::new(f), args)) is None,
{
}

/// Choice pruning soundness: stepping a choice all of whose members are the
/// stuck sentinel yields exactly one stuck term — never an empty choice.
pub proof fn law_choice_pruning(pats: Seq<PatternV>, ms: Seq<TermV>)
    requires
        ms.len() >= 1,
        forall|i: int| 0 <= i < ms.len() ==> ms[i] == stuck(),
    ensures
        step_spec(pats, TermV::Struct(ms)) == Some((stuck(), true)),
{
    assert(ms[0] == stuck());
    lemma_prune_all_stuck(ms);
}

proof fn lemma_prune_all_stuck(ms: Seq<TermV>)
    requires
        forall|i: int| 0 <= i < ms.len() ==> ms[i] == stuck(),
    ensures
        prune(ms).len() == 0,
    decreases ms,
{
    if ms.len() > 0 {
        assert(forall|i: int|
            0 <= i < ms.drop_first().len() ==> #[trigger] ms.drop_first()[i] == ms[i + 1]);
        lemma_prune_all_stuck(ms.drop_first());
    }
}


/// After a name is interned, any later interning of the same name — however
/// many other names entered the growth-only table in between — returns the
/// very same index and leaves the table untouched. Together with
/// `law_distinct_constants` this is constant interning stability: two
/// occurrences of one name anywhere in a program share one index.
pub proof fn law_interning_stability(ks: Seq<Seq<u8>>, kt: Seq<Seq<u8>>, s: Seq<u8>)
    requires
        prefix_of(intern(ks, s).1, kt),
    ensures
        intern(kt, s).0 == intern(ks, s).0,
        intern(kt, s).1 == kt,
{
    let (i, ks2) = intern(ks, s);
    lemma_find_char(ks, s);
    lemma_find_char(kt, s);
    assert(ks2[i as int] == s) by {
        match find_name(ks, s) {
            Some(_) => {},
            None => {},
        }
    }
    assert(forall|j: int| 0 <= j < ks2.len() ==> #[trigger] kt[j] == ks2.subrange(
        0,
        ks2.len() as int,
    )[j]);
    assert(kt[i as int] == s);
    match find_name(kt, s) {
        Some(i2) => {
            if i2 < i {
                assert(kt[i2 as int] != s) by {
                    match find_name(ks, s) {
                        Some(_) => {
                            assert(ks[i2 as int] != s);
                            assert(ks2[i2 as int] == ks[i2 as int]);
                        },
                        None => {
                            assert(ks2[i2 as int] == ks[i2 as int]);
                            assert(ks[i2 as int] != s);
                        },
                    }
                }
                assert(kt[i2 as int] == s);
            }
            if i2 > i {
                assert(kt[i as int] != s);
            }
        },
        None => {
            assert(kt[i as int] != s);
        },
    }
}

/// Two different constant names never come to share a table index: interning
/// one and then the other yields distinct slots.
pub proof fn law_distinct_constants(ks: Seq<Seq<u8>>, s1: Seq<u8>, s2: Seq<u8>)
    requires
        s1 != s2,
    ensures
        ({
            let (i1, ks1) = intern(ks, s1);
            let (i2, ks2) = intern(ks1, s2);
            i1 != i2
        }),
{
    let (i1, ks1) = intern(ks, s1);
    let (i2, ks2) = intern(ks1, s2);
    lemma_find_char(ks, s1);
    lemma_find_char(ks1, s2);
    assert(ks1[i1 as int] == s1) by {
        match find_name(ks, s1) {
            Some(_) => {},
            None => {},
        }
    }
    if i1 == i2 {
        match find_name(ks1, s2) {
            Some(_) => {
                assert(ks1[i2 as int] == s2);
            },
            None => {
                assert(i2 == ks1.len());
            },
        }
    }
}


// ---------------------------------------------------------------------------
// Capture-avoidance: renaming the pattern-bound variables of a program
// consistently — one name for one name, no two names collapsing into one —
// changes nothing in its resolved, nameless form, and therefore nothing in
// how it reduces. Constant names are not variables and stay as they are.
// ---------------------------------------------------------------------------

pub open spec fn injective(r: spec_fn(Seq<u8>) -> Seq<u8>) -> bool {
    forall|a: Seq<u8>, b: Seq<u8>| #[trigger] r(a) == #[trigger] r(b) ==> a == b
}

pub open spec fn rename_ppat(r: spec_fn(Seq<u8>) -> Seq<u8>, p: PPatternV) -> PPatternV
    decreases p,
{
    match p {
        PPatternV::Var(s) => PPatternV::Var(r(s)),
        PPatternV::K(s) => PPatternV::K(s),
        PPatternV::App(s, ps) => PPatternV::App(s, rename_ppats(r, ps)),
    }
}

pub open spec fn rename_ppats(r: spec_fn(Seq<u8>) -> Seq<u8>, ps: Seq<PPatternV>) -> Seq<
    PPatternV,
>
    decreases ps,
{
    if ps.len() == 0 {
        ps
    } else {
        seq![rename_ppat(r, ps[0])] + rename_ppats(r, ps.drop_first())
    }
}

pub open spec fn rename_pterm(r: spec_fn(Seq<u8>) -> Seq<u8>, t: PTermV) -> PTermV
    decreases t,
{
    match t {
        PTermV::Var(s) => PTermV::Var(r(s)),
        PTermV::K(s) => PTermV::K(s),
        PTermV::Abs(p, n, b) => PTermV::Abs(p, n, Box::new(rename_pterm(r, *b))),
        PTermV::App(f, a) => PTermV::App(Box::new(rename_pterm(r, *f)), rename_pterms(r, a)),
        PTermV::Struct(ms) => PTermV::Struct(rename_pterms(r, ms)),
    }
}

pub open spec fn rename_pterms(r: spec_fn(Seq<u8>) -> Seq<u8>, ts: Seq<PTermV>) -> Seq<PTermV>
    decreases ts,
{
    if ts.len() == 0 {
        ts
    } else {
        seq![rename_pterm(r, ts[0])] + rename_pterms(r, ts.drop_first())
    }
}

proof fn lemma_lookup_rename(r: spec_fn(Seq<u8>) -> Seq<u8>, vars: Seq<Seq<u8>>, s: Seq<u8>)
    requires
        injective(r),
    ensures
        lookup(vars.map_values(r), r(s)) == lookup(vars, s),
    decreases vars,
{
    let rv = vars.map_values(r);
    if vars.len() > 0 {
        assert(rv.last() == r(vars.last()));
        if vars.last() == s {
        } else {
            assert(rv.last() != r(s));
            lemma_lookup_rename(r, vars.drop_last(), s);
            assert(rv.drop_last() =~= vars.drop_last().map_values(r));
        }
    }
}

proof fn lemma_pat_names_rename(r: spec_fn(Seq<u8>) -> Seq<u8>, p: PPatternV)
    ensures
        pat_names(rename_ppat(r, p)) == pat_names(p).map_values(r),
    decreases p,
{
    match p {
        PPatternV::Var(s) => {
            assert(seq![r(s)] =~= seq![s].map_values(r));
        },
        PPatternV::K(_) => {
            assert(Seq::<Seq<u8>>::empty() =~= Seq::<Seq<u8>>::empty().map_values(r));
        },
        PPatternV::App(_, ps) => {
            lemma_pats_names_rename(r, ps);
        },
    }
}

proof fn lemma_pats_names_rename(r: spec_fn(Seq<u8>) -> Seq<u8>, ps: Seq<PPatternV>)
    ensures
        pats_names(rename_ppats(r, ps)) == pats_names(ps).map_values(r),
    decreases ps,
{
    if ps.len() == 0 {
        assert(pats_names(ps).map_values(r) =~= Seq::<Seq<u8>>::empty());
    } else {
        lemma_pat_names_rename(r, ps[0]);
        lemma_pats_names_rename(r, ps.drop_first());
        let rp = rename_ppats(r, ps);
        assert(rp[0] == rename_ppat(r, ps[0]));
        assert(rp.drop_first() =~= rename_ppats(r, ps.drop_first()));
        assert(pat_names(ps[0]).map_values(r) + pats_names(ps.drop_first()).map_values(r) =~= (
        pat_names(ps[0]) + pats_names(ps.drop_first())).map_values(r));
    }
}

proof fn lemma_resolve_rename(
    r: spec_fn(Seq<u8>) -> Seq<u8>,
    t: PTermV,
    vars: Seq<Seq<u8>>,
    ks: Seq<Seq<u8>>,
    psv: Seq<PPatternV>,
)
    requires
        injective(r),
        crate::reader::wf_pterm(t, psv),
    ensures
        resolve_term(rename_pterm(r, t), vars.map_values(r), ks, rename_ppats(r, psv))
            == resolve_term(t, vars, ks, psv),
    decreases t,
{
    proof_rename_ppats_index(r, psv);
    match t {
        PTermV::Var(s) => {
            lemma_lookup_rename(r, vars, s);
        },
        PTermV::K(_) => {},
        PTermV::Abs(p, n, b) => {
            lemma_pat_names_rename(r, psv[p as int]);
            assert(vars.map_values(r) + pat_names(psv[p as int]).map_values(r) =~= (vars
                + pat_names(psv[p as int])).map_values(r));
            lemma_resolve_rename(r, *b, vars + pat_names(psv[p as int]), ks, psv);
        },
        PTermV::App(f, a) => {
            assert(crate::reader::wf_pterms(a, psv));
            lemma_resolve_rename(r, *f, vars, ks, psv);
            match resolve_term(*f, vars, ks, psv) {
                Ok((fv, ks1)) => {
                    lemma_resolve_seq_rename(r, a, vars, ks1, psv);
                },
                Err(_) => {},
            }
        },
        PTermV::Struct(ms) => {
            assert(crate::reader::wf_pterms(ms, psv));
            lemma_resolve_seq_rename(r, ms, vars, ks, psv);
        },
    }
}

proof fn lemma_resolve_seq_rename(
    r: spec_fn(Seq<u8>) -> Seq<u8>,
    ts: Seq<PTermV>,
    vars: Seq<Seq<u8>>,
    ks: Seq<Seq<u8>>,
    psv: Seq<PPatternV>,
)
    requires
        injective(r),
        crate::reader::wf_pterms(ts, psv),
    ensures
        resolve_terms(rename_pterms(r, ts), vars.map_values(r), ks, rename_ppats(r, psv))
            == resolve_terms(ts, vars, ks, psv),
    decreases ts,
{
    if ts.len() > 0 {
        let rts = rename_pterms(r, ts);
        assert(rts[0] == rename_pterm(r, ts[0]));
        assert(rts.drop_first() =~= rename_pterms(r, ts.drop_first()));
        assert(crate::reader::wf_pterm(ts[0], psv));
        assert(crate::reader::wf_pterms(ts.drop_first(), psv)) by {
            assert(forall|i: int|
                0 <= i < ts.drop_first().len() ==> #[trigger] ts.drop_first()[i] == ts[i + 1]);
        }
        lemma_resolve_rename(r, ts[0], vars, ks, psv);
        match resolve_term(ts[0], vars, ks, psv) {
            Ok((h, ks1)) => {
                lemma_resolve_seq_rename(r, ts.drop_first(), vars, ks1, psv);
            },
            Err(_) => {},
        }
    }
}

proof fn proof_rename_ppats_index(r: spec_fn(Seq<u8>) -> Seq<u8>, ps: Seq<PPatternV>)
    ensures
        rename_ppats(r, ps).len() == ps.len(),
        forall|i: int|
            0 <= i < ps.len() ==> rename_ppats(r, ps)[i] == rename_ppat(r, #[trigger] ps[i]),
    decreases ps,
{
    if ps.len() > 0 {
        proof_rename_ppats_index(r, ps.drop_first());
        let rp = rename_ppats(r, ps);
        assert(rp[0] == rename_ppat(r, ps[0]));
        assert(rp.drop_first() =~= rename_ppats(r, ps.drop_first()));
        assert(forall|i: int|
            0 <= i < ps.drop_first().len() ==> #[trigger] ps.drop_first()[i] == ps[i + 1]);
        assert forall|i: int| 0 <= i < ps.len() implies rp[i] == rename_ppat(
            r,
            #[trigger] ps[i],
        ) by {
            if i > 0 {
                assert(rp[i] == rename_ppats(r, ps.drop_first())[i - 1]);
                assert(ps.drop_first()[i - 1] == ps[i]);
                assert(rename_ppats(r, ps.drop_first())[i - 1] == rename_ppat(
                    r,
                    ps.drop_first()[i - 1],
                ));
            }
        }
    }
}

proof fn lemma_compile_rename(r: spec_fn(Seq<u8>) -> Seq<u8>, p: PPatternV, ks: Seq<Seq<u8>>)
    ensures
        compile_pat(rename_ppat(r, p), ks) == compile_pat(p, ks),
    decreases p,
{
    match p {
        PPatternV::Var(_) => {},
        PPatternV::K(_) => {},
        PPatternV::App(s, ps) => {
            match crate::resolver::intern_full(ks, s) {
                Ok((i, ks1)) => lemma_compile_seq_rename(r, ps, ks1),
                Err(_) => {},
            }
        },
    }
}

proof fn lemma_compile_seq_rename(
    r: spec_fn(Seq<u8>) -> Seq<u8>,
    ps: Seq<PPatternV>,
    ks: Seq<Seq<u8>>,
)
    ensures
        compile_pats(rename_ppats(r, ps), ks) == compile_pats(ps, ks),
    decreases ps,
{
    if ps.len() > 0 {
        let rp = rename_ppats(r, ps);
        assert(rp[0] == rename_ppat(r, ps[0]));
        assert(rp.drop_first() =~= rename_ppats(r, ps.drop_first()));
        lemma_compile_rename(r, ps[0], ks);
        match compile_pat(ps[0], ks) {
            Ok((h, ks1)) => lemma_compile_seq_rename(r, ps.drop_first(), ks1),
            Err(_) => {},
        }
    }
}


/// Resolving and compiling a read program against the freshly seeded
/// constant table: what `parse` does after the reader has run.
pub open spec fn resolve_program(t: PTermV, ps: Seq<PPatternV>) -> Result<
    (TermV, Seq<PatternV>, Seq<Seq<u8>>),
    Error,
> {
    match resolve_term(t, Seq::empty(), seq![reserved_name()], ps) {
        Err(e) => Err(e),
        Ok((tv, ks1)) => match compile_pats(ps, ks1) {
            Err(e) => Err(e),
            Ok((pats, ks2)) => Ok((tv, pats, ks2)),
        },
    }
}

/// Capture-avoidance: renaming the pattern-bound variables of a whole
/// program consistently (injectively; constants are not touched) yields the
/// very same resolved program — term, pattern table and constant table — and
/// therefore the same reduction result at every step budget.
pub proof fn law_capture_avoidance(r: spec_fn(Seq<u8>) -> Seq<u8>, t: PTermV, ps: Seq<PPatternV>)
    requires
        injective(r),
        crate::reader::wf_pterm(t, ps),
    ensures
        resolve_program(rename_pterm(r, t), rename_ppats(r, ps)) == resolve_program(t, ps),
        ({
            let a = resolve_program(rename_pterm(r, t), rename_ppats(r, ps));
            let b = resolve_program(t, ps);
            match (a, b) {
                (Ok((tv2, pats2, _)), Ok((tv, pats, _))) => forall|fuel: nat|
                    #[trigger] reduce_spec(pats2, tv2, fuel) == reduce_spec(pats, tv, fuel),
                _ => true,
            }
        }),
{
    assert(Seq::<Seq<u8>>::empty().map_values(r) =~= Seq::<Seq<u8>>::empty());
    lemma_resolve_rename(r, t, Seq::empty(), seq![reserved_name()], ps);
    match resolve_term(t, Seq::empty(), seq![reserved_name()], ps) {
        Ok((tv, ks1)) => lemma_compile_seq_rename(r, ps, ks1),
        Err(_) => {},
    }
}

} // verus!
