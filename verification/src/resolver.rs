use vstd::prelude::*;

use crate::reader::{
    Error, PPattern, PPatternV, PTerm, PTermV, lemma_view_ppats, lemma_view_pterms, ppat_arity,
    ppats_arity, prefix_of, view_ppat, view_ppats, view_pterm, view_pterms, wf_pterm, wf_pterms,
};
use crate::term::{
    Pattern, PatternV, Term, TermV, pat_arity, pats_arity, seq_skip_parts, view_pat, view_pats,
    view_term, view_terms, wf_term, wf_terms,
};

verus! {

/// The reserved name interned at slot 0 for the stuck sentinel. A source
/// constant spelled the same would collide with it and is rejected.
pub open spec fn reserved_name() -> Seq<u8> {
    seq![83u8, 116u8, 107u8]
}

pub open spec fn names_view(ks: Seq<Vec<u8>>) -> Seq<Seq<u8>> {
    ks.map_values(|v: Vec<u8>| v@)
}

/// Innermost-outward lookup in the scope stack: the nearest (last pushed)
/// binding of the name wins, and its distance from the top is the de Bruijn
/// index.
pub open spec fn lookup(vars: Seq<Seq<u8>>, s: Seq<u8>) -> Option<nat>
    decreases vars,
{
    if vars.len() == 0 {
        None
    } else if vars.last() == s {
        Some(0)
    } else {
        match lookup(vars.drop_last(), s) {
            Some(i) => Some(i + 1),
            None => None,
        }
    }
}

/// First occurrence wins: the index of the first table entry spelling the
/// name, if any.
pub open spec fn find_name(ks: Seq<Seq<u8>>, s: Seq<u8>) -> Option<nat>
    decreases ks,
{
    if ks.len() == 0 {
        None
    } else if ks[0] == s {
        Some(0)
    } else {
        match find_name(ks.drop_first(), s) {
            Some(i) => Some(i + 1),
            None => None,
        }
    }
}

/// Look up or append: a known name keeps its index and the table, a new name
/// takes the next slot.
pub open spec fn intern(ks: Seq<Seq<u8>>, s: Seq<u8>) -> (nat, Seq<Seq<u8>>) {
    match find_name(ks, s) {
        Some(i) => (i, ks),
        None => (ks.len(), ks.push(s)),
    }
}

/// Interning of a source constant: the reserved sentinel name is rejected.
pub open spec fn intern_full(ks: Seq<Seq<u8>>, s: Seq<u8>) -> Result<(nat, Seq<Seq<u8>>), Error> {
    if s == reserved_name() {
        Err(Error::ReservedConstant)
    } else {
        Ok(intern(ks, s))
    }
}

/// The wildcard names a pattern binds, in left-to-right occurrence order.
pub open spec fn pat_names(p: PPatternV) -> Seq<Seq<u8>>
    decreases p,
{
    match p {
        PPatternV::Var(s) => seq![s],
        PPatternV::K(_) => Seq::empty(),
        PPatternV::App(_, ps) => pats_names(ps),
    }
}

pub open spec fn pats_names(ps: Seq<PPatternV>) -> Seq<Seq<u8>>
    decreases ps,
{
    if ps.len() == 0 {
        Seq::empty()
    } else {
        pat_names(ps[0]) + pats_names(ps.drop_first())
    }
}

/// Name resolution: variables become de Bruijn indices against the scope
/// stack, constants are interned (the table threads through left to right),
/// and an abstraction pushes its pattern's wildcard names around its body.
pub open spec fn resolve_term(
    t: PTermV,
    vars: Seq<Seq<u8>>,
    ks: Seq<Seq<u8>>,
    psv: Seq<PPatternV>,
) -> Result<(TermV, Seq<Seq<u8>>), Error>
    decreases t,
{
    match t {
        PTermV::Var(s) => match lookup(vars, s) {
            Some(i) => Ok((TermV::Var(i), ks)),
            None => Err(Error::UnboundVariable),
        },
        PTermV::K(s) => match intern_full(ks, s) {
            Ok((i, ks2)) => Ok((TermV::K(i), ks2)),
            Err(e) => Err(e),
        },
        PTermV::Abs(p, n, b) => match resolve_term(
            *b,
            vars + pat_names(psv[p as int]),
            ks,
            psv,
        ) {
            Ok((bv, ks2)) => Ok((TermV::Abs(p, n, Box::new(bv)), ks2)),
            Err(e) => Err(e),
        },
        PTermV::App(f, a) => match resolve_term(*f, vars, ks, psv) {
            Ok((fv, ks1)) => match resolve_terms(a, vars, ks1, psv) {
                Ok((av, ks2)) => Ok((TermV::App(Box::new(fv), av), ks2)),
                Err(e) => Err(e),
            },
            Err(e) => Err(e),
        },
        PTermV::Struct(ms) => match resolve_terms(ms, vars, ks, psv) {
            Ok((mv, ks2)) => Ok((TermV::Struct(mv), ks2)),
            Err(e) => Err(e),
        },
    }
}

pub open spec fn resolve_terms(
    ts: Seq<PTermV>,
    vars: Seq<Seq<u8>>,
    ks: Seq<Seq<u8>>,
    psv: Seq<PPatternV>,
) -> Result<(Seq<TermV>, Seq<Seq<u8>>), Error>
    decreases ts,
{
    if ts.len() == 0 {
        Ok((Seq::empty(), ks))
    } else {
        match resolve_term(ts[0], vars, ks, psv) {
            Ok((h, ks1)) => match resolve_terms(ts.drop_first(), vars, ks1, psv) {
                Ok((r, ks2)) => Ok((seq![h] + r, ks2)),
                Err(e) => Err(e),
            },
            Err(e) => Err(e),
        }
    }
}

/// Pattern compilation: wildcards forget their names, constant names are
/// interned in the same left-to-right order this pass encounters them.
pub open spec fn compile_pat(p: PPatternV, ks: Seq<Seq<u8>>) -> Result<
    (PatternV, Seq<Seq<u8>>),
    Error,
>
    decreases p,
{
    match p {
        PPatternV::Var(_) => Ok((PatternV::Var, ks)),
        PPatternV::K(s) => match intern_full(ks, s) {
            Ok((i, ks2)) => Ok((PatternV::K(i), ks2)),
            Err(e) => Err(e),
        },
        PPatternV::App(s, ps) => match intern_full(ks, s) {
            Ok((i, ks1)) => match compile_pats(ps, ks1) {
                Ok((pv, ks2)) => Ok((PatternV::App(i, pv), ks2)),
                Err(e) => Err(e),
            },
            Err(e) => Err(e),
        },
    }
}

pub open spec fn compile_pats(ps: Seq<PPatternV>, ks: Seq<Seq<u8>>) -> Result<
    (Seq<PatternV>, Seq<Seq<u8>>),
    Error,
>
    decreases ps,
{
    if ps.len() == 0 {
        Ok((Seq::empty(), ks))
    } else {
        match compile_pat(ps[0], ks) {
            Ok((h, ks1)) => match compile_pats(ps.drop_first(), ks1) {
                Ok((r, ks2)) => Ok((seq![h] + r, ks2)),
                Err(e) => Err(e),
            },
            Err(e) => Err(e),
        }
    }
}

// ---------------------------------------------------------------------------
// Executable helpers.
// ---------------------------------------------------------------------------

fn bytes_eq(a: &Vec<u8>, b: &Vec<u8>) -> (r: bool)
    ensures
        r == (a@ == b@),
{
    if a.len() != b.len() {
        proof {
            assert(a@.len() != b@.len());
        }
        return false;
    }
    let mut i: usize = 0;
    while i < a.len()
        invariant
            i <= a@.len(),
            a@.len() == b@.len(),
            forall|j: int| 0 <= j < i ==> a@[j] == b@[j],
        decreases a@.len() - i,
    {
        if a[i] != b[i] {
            return false;
        }
        i += 1;
    }
    proof {
        assert(a@ =~= b@);
    }
    true
}

fn clone_bytes(v: &Vec<u8>) -> (r: Vec<u8>)
    ensures
        r@ == v@,
{
    let mut r: Vec<u8> = Vec::new();
    let mut i: usize = 0;
    while i < v.len()
        invariant
            i <= v@.len(),
            r@ == v@.subrange(0, i as int),
        decreases v@.len() - i,
    {
        r.push(v[i]);
        proof {
            assert(r@ =~= v@.subrange(0, i as int + 1));
        }
        i += 1;
    }
    proof {
        assert(v@.subrange(0, v@.len() as int) =~= v@);
    }
    r
}

fn reserved_vec() -> (r: Vec<u8>)
    ensures
        r@ == reserved_name(),
{
    let mut r: Vec<u8> = Vec::new();
    r.push(83);
    r.push(116);
    r.push(107);
    proof {
        assert(r@ =~= reserved_name());
    }
    r
}

/// The scan from the innermost binding outward finds the index `lookup`
/// names.
proof fn lemma_lookup_char(vars: Seq<Seq<u8>>, s: Seq<u8>)
    ensures
        match lookup(vars, s) {
            Some(i) => i < vars.len() && vars[vars.len() - 1 - i] == s && forall|j: int|
                0 <= j < i ==> #[trigger] vars[vars.len() - 1 - j] != s,
            None => forall|j: int| 0 <= j < vars.len() ==> vars[j] != s,
        },
    decreases vars,
{
    if vars.len() > 0 {
        if vars.last() == s {
            assert(vars[vars.len() - 1] == s);
        } else {
            let d = vars.drop_last();
            lemma_lookup_char(d, s);
            assert(forall|j: int| 0 <= j < d.len() ==> #[trigger] vars[j] == d[j]);
            match lookup(d, s) {
                Some(i) => {
                    assert(vars[vars.len() - 1 - (i as int + 1)] == d[d.len() - 1 - i as int]);
                    assert forall|j: int| 0 <= j < i + 1 implies #[trigger] vars[vars.len() - 1
                        - j] != s by {
                        if j == 0 {
                            assert(vars[vars.len() - 1] == vars.last());
                        } else {
                            assert(vars[vars.len() - 1 - j] == d[d.len() - 1 - (j - 1)]);
                        }
                    }
                },
                None => {
                    assert forall|j: int| 0 <= j < vars.len() implies #[trigger] vars[j] != s by {
                        if j < vars.len() - 1 {
                            assert(vars[j] == d[j]);
                        } else {
                            assert(vars[j] == vars.last());
                        }
                    }
                },
            }
        }
    }
}

/// The forward scan finds the index `find_name` names.
pub proof fn lemma_find_char(ks: Seq<Seq<u8>>, s: Seq<u8>)
    ensures
        match find_name(ks, s) {
            Some(i) => i < ks.len() && ks[i as int] == s && forall|j: int|
                0 <= j < i ==> #[trigger] ks[j] != s,
            None => forall|j: int| 0 <= j < ks.len() ==> ks[j] != s,
        },
    decreases ks,
{
    if ks.len() > 0 && ks[0] != s {
        let d = ks.drop_first();
        lemma_find_char(d, s);
        assert(forall|j: int| 0 <= j < d.len() ==> #[trigger] d[j] == ks[j + 1]);
        match find_name(d, s) {
            Some(i) => {
                assert(ks[i as int + 1] == d[i as int]);
                assert forall|j: int| 0 <= j < i + 1 implies #[trigger] ks[j] != s by {
                    if j > 0 {
                        assert(ks[j] == d[j - 1]);
                    }
                }
            },
            None => {
                assert forall|j: int| 0 <= j < ks.len() implies #[trigger] ks[j] != s by {
                    if j > 0 {
                        assert(ks[j] == d[j - 1]);
                    }
                }
            },
        }
    }
}

// ---------------------------------------------------------------------------
// The resolver pass. It owns the pattern pre-table from the reader, a scope
// stack of bound names, and the growth-only constant table, seeded with the
// reserved sentinel name at slot 0.
// ---------------------------------------------------------------------------

pub struct Pass2 {
    pub pspace: Vec<PPattern>,
    pub vars: Vec<Vec<u8>>,
    pub k_list: Vec<Vec<u8>>,
}

impl Pass2 {
    pub fn new(pspace: Vec<PPattern>) -> (r: Pass2)
        ensures
            r.pspace@ == pspace@,
            r.vars@.len() == 0,
            names_view(r.k_list@) == seq![reserved_name()],
    {
        let mut k_list: Vec<Vec<u8>> = Vec::new();
        k_list.push(reserved_vec());
        proof {
            assert(names_view(k_list@) =~= seq![reserved_name()]);
        }
        Pass2 { pspace, vars: Vec::new(), k_list }
    }

    /// The de Bruijn index of the nearest binding of `s`, if any.
    fn get(&self, s: &Vec<u8>) -> (r: Option<usize>)
        ensures
            match r {
                Some(i) => lookup(names_view(self.vars@), s@) == Some(i as nat),
                None => lookup(names_view(self.vars@), s@) is None,
            },
    {
        let ghost nv = names_view(self.vars@);
        let n = self.vars.len();
        let mut j: usize = 0;
        while j < n
            invariant
                j <= n,
                n == self.vars@.len(),
                nv == names_view(self.vars@),
                forall|x: int| 0 <= x < j ==> #[trigger] nv[n - 1 - x] != s@,
            decreases n - j,
        {
            if bytes_eq(&self.vars[n - 1 - j], s) {
                proof {
                    lemma_lookup_char(nv, s@);
                    assert(nv.len() == n);
                    assert(nv[n - 1 - j as int] == self.vars@[n - 1 - j as int]@);
                    assert(nv[n - 1 - j as int] == s@);
                    match lookup(nv, s@) {
                        Some(i) => {
                            if i < j {
                                assert(nv[n - 1 - i as int] != s@);
                                assert(nv[n - 1 - i as int] == s@);
                            }
                            if i > j {
                                assert(nv[n - 1 - j as int] != s@);
                            }
                        },
                        None => {
                            assert(nv[n - 1 - j as int] != s@);
                        },
                    }
                }
                return Some(j);
            }
            proof {
                assert(nv[n - 1 - j as int] == self.vars@[n - 1 - j as int]@);
            }
            j += 1;
        }
        proof {
            lemma_lookup_char(nv, s@);
            assert(nv.len() == n);
            match lookup(nv, s@) {
                Some(i) => {
                    assert(nv[n - 1 - i as int] != s@);
                    assert(nv[n - 1 - i as int] == s@);
                },
                None => {},
            }
        }
        None
    }

    /// Interns a constant name: a known name keeps its index, a new one takes
    /// the next slot. The reserved sentinel name is rejected.
    fn get_constant(&mut self, s: Vec<u8>) -> (r: Result<usize, Error>)
        ensures
            final(self).pspace@ == old(self).pspace@,
            final(self).vars@ == old(self).vars@,
            match r {
                Ok(i) => intern_full(names_view(old(self).k_list@), s@) == Ok::<_, Error>(
                    (i as nat, names_view(final(self).k_list@)),
                ),
                Err(e) => intern_full(names_view(old(self).k_list@), s@) == Err::<
                    (nat, Seq<Seq<u8>>),
                    _,
                >(e) && final(self).k_list@ == old(self).k_list@,
            },
    {
        let rsv = reserved_vec();
        if bytes_eq(&s, &rsv) {
            return Err(Error::ReservedConstant);
        }
        let ghost kv = names_view(self.k_list@);
        let n = self.k_list.len();
        let mut j: usize = 0;
        while j < n
            invariant
                s@ != reserved_name(),
                j <= n,
                n == self.k_list@.len(),
                kv == names_view(self.k_list@),
                forall|x: int| 0 <= x < j ==> #[trigger] kv[x] != s@,
            decreases n - j,
        {
            if bytes_eq(&self.k_list[j], &s) {
                proof {
                    lemma_find_char(kv, s@);
                    assert(kv.len() == n);
                    assert(kv[j as int] == self.k_list@[j as int]@);
                    assert(kv[j as int] == s@);
                    match find_name(kv, s@) {
                        Some(i) => {
                            if i < j {
                                assert(kv[i as int] != s@);
                                assert(kv[i as int] == s@);
                            }
                            if i > j {
                                assert(kv[j as int] != s@);
                            }
                        },
                        None => {
                            assert(kv[j as int] != s@);
                        },
                    }
                }
                return Ok(j);
            }
            proof {
                assert(kv[j as int] == self.k_list@[j as int]@);
            }
            j += 1;
        }
        proof {
            lemma_find_char(kv, s@);
            assert(kv.len() == n);
            match find_name(kv, s@) {
                Some(i) => {
                    assert(kv[i as int] != s@);
                    assert(kv[i as int] == s@);
                },
                None => {},
            }
        }
        self.k_list.push(s);
        proof {
            assert(names_view(self.k_list@) =~= kv.push(self.k_list@.last()@));
        }
        Ok(n)
    }

    /// Pushes the wildcard names a pattern binds, left to right.
    fn add(vars: &mut Vec<Vec<u8>>, p: &PPattern)
        ensures
            final(vars)@.len() >= old(vars)@.len(),
            final(vars)@.subrange(0, old(vars)@.len() as int) == old(vars)@,
            names_view(final(vars)@) == names_view(old(vars)@) + pat_names(view_ppat(*p)),
        decreases *p,
    {
        match p {
            PPattern::Var(s) => {
                let ghost before = vars@;
                vars.push(clone_bytes(s));
                proof {
                    assert(vars@.subrange(0, before.len() as int) =~= before);
                    assert(names_view(vars@) =~= names_view(before) + seq![s@]);
                }
            },
            PPattern::K(_) => {
                proof {
                    assert(vars@.subrange(0, vars@.len() as int) =~= vars@);
                    assert(names_view(vars@) =~= names_view(vars@) + Seq::<Seq<u8>>::empty());
                }
            },
            PPattern::App(_, ps) => {
                proof {
                    assert(ps@.skip(0) =~= ps@);
                    assert(pats_names(view_ppats(ps@.skip(0))) == pat_names(view_ppat(*p)));
                }
                Self::add_vec(vars, ps, 0);
            },
        }
    }

    fn add_vec(vars: &mut Vec<Vec<u8>>, ps: &Vec<PPattern>, i: usize)
        requires
            i <= ps@.len(),
        ensures
            final(vars)@.len() >= old(vars)@.len(),
            final(vars)@.subrange(0, old(vars)@.len() as int) == old(vars)@,
            names_view(final(vars)@) == names_view(old(vars)@) + pats_names(
                view_ppats(ps@.skip(i as int)),
            ),
        decreases ps@.skip(i as int),
    {
        if i == ps.len() {
            proof {
                assert(ps@.skip(i as int) =~= Seq::<PPattern>::empty());
                assert(vars@.subrange(0, vars@.len() as int) =~= vars@);
                assert(names_view(vars@) =~= names_view(vars@) + pats_names(
                    view_ppats(ps@.skip(i as int)),
                ));
            }
        } else {
            proof {
                seq_skip_parts(ps@, i as int);
                crate::reader::lemma_view_ppats(ps@.skip(i as int));
                assert(view_ppats(ps@.skip(i as int))[0] == view_ppat(ps@[i as int]));
                assert(view_ppats(ps@.skip(i as int)).drop_first() =~= view_ppats(
                    ps@.skip(i as int + 1),
                )) by {
                    crate::reader::lemma_view_ppats(ps@.skip(i as int + 1));
                }
            }
            let ghost before = vars@;
            Self::add(vars, &ps[i]);
            let ghost mid = vars@;
            Self::add_vec(vars, ps, i + 1);
            proof {
                assert(vars@.subrange(0, before.len() as int) =~= mid.subrange(
                    0,
                    before.len() as int,
                ));
                assert(names_view(vars@) =~= names_view(before) + (pat_names(
                    view_ppat(ps@[i as int]),
                ) + pats_names(view_ppats(ps@.skip(i as int + 1)))));
            }
        }
    }
}


impl Pass2 {
    /// Resolves one read term against the current scope stack, interning the
    /// constants it mentions. On success the scope stack is exactly as it
    /// was.
    pub fn parse_t(&mut self, v: PTerm) -> (r: Result<Term, Error>)
        requires
            wf_pterm(view_pterm(v), view_ppats(old(self).pspace@)),
        ensures
            final(self).pspace@ == old(self).pspace@,
            match r {
                Ok(t) => final(self).vars@ == old(self).vars@ && resolve_term(
                    view_pterm(v),
                    names_view(old(self).vars@),
                    names_view(old(self).k_list@),
                    view_ppats(old(self).pspace@),
                ) == Ok::<_, Error>((view_term(t), names_view(final(self).k_list@))),
                Err(e) => resolve_term(
                    view_pterm(v),
                    names_view(old(self).vars@),
                    names_view(old(self).k_list@),
                    view_ppats(old(self).pspace@),
                ) == Err::<(TermV, Seq<Seq<u8>>), _>(e),
            },
        decreases v,
    {
        let ghost psv = view_ppats(self.pspace@);
        match v {
            PTerm::Var(s) => match self.get(&s) {
                Some(i) => Ok(Term::Var(i)),
                None => Err(Error::UnboundVariable),
            },
            PTerm::K(s) => match self.get_constant(s) {
                Ok(i) => Ok(Term::K(i)),
                Err(e) => Err(e),
            },
            PTerm::Abs(p, n, b) => {
                proof {
                    lemma_view_ppats(self.pspace@);
                    assert(psv[p as int] == view_ppat(self.pspace@[p as int]));
                }
                let old_len = self.vars.len();
                let ghost vars0 = self.vars@;
                Self::add(&mut self.vars, &self.pspace[p]);
                let ghost pushed = self.vars@;
                let body = match self.parse_t(*b) {
                    Ok(x) => x,
                    Err(e) => {
                        return Err(e);
                    },
                };
                let ghost pspace0 = self.pspace@;
                let ghost klist0 = self.k_list@;
                while self.vars.len() > old_len
                    invariant
                        old_len <= self.vars@.len(),
                        self.vars@.len() <= pushed.len(),
                        self.vars@ == pushed.subrange(0, self.vars@.len() as int),
                        self.pspace@ == pspace0,
                        self.k_list@ == klist0,
                    decreases self.vars@.len(),
                {
                    self.vars.pop();
                    proof {
                        assert(self.vars@ =~= pushed.subrange(0, self.vars@.len() as int));
                    }
                }
                proof {
                    assert(self.vars@ =~= vars0);
                }
                Ok(Term::Abs(p, n, Box::new(body)))
            },
            PTerm::App(f, a) => {
                let fv = match self.parse_t(*f) {
                    Ok(x) => x,
                    Err(e) => {
                        return Err(e);
                    },
                };
                proof {
                    assert(a@.skip(0) =~= a@);
                    lemma_view_pterms(a@);
                }
                let av = match self.parse_t_vec(a, 0) {
                    Ok(x) => x,
                    Err(e) => {
                        return Err(e);
                    },
                };
                Ok(Term::App(Box::new(fv), av))
            },
            PTerm::Struct(ms) => {
                proof {
                    assert(ms@.skip(0) =~= ms@);
                    lemma_view_pterms(ms@);
                }
                let mv = match self.parse_t_vec(ms, 0) {
                    Ok(x) => x,
                    Err(e) => {
                        return Err(e);
                    },
                };
                Ok(Term::Struct(mv))
            },
        }
    }

    fn parse_t_vec(&mut self, ts: Vec<PTerm>, i: usize) -> (r: Result<Vec<Term>, Error>)
        requires
            i <= ts@.len(),
            wf_pterms(view_pterms(ts@.skip(i as int)), view_ppats(old(self).pspace@)),
        ensures
            final(self).pspace@ == old(self).pspace@,
            match r {
                Ok(out) => final(self).vars@ == old(self).vars@ && resolve_terms(
                    view_pterms(ts@.skip(i as int)),
                    names_view(old(self).vars@),
                    names_view(old(self).k_list@),
                    view_ppats(old(self).pspace@),
                ) == Ok::<_, Error>((view_terms(out@), names_view(final(self).k_list@))),
                Err(e) => resolve_terms(
                    view_pterms(ts@.skip(i as int)),
                    names_view(old(self).vars@),
                    names_view(old(self).k_list@),
                    view_ppats(old(self).pspace@),
                ) == Err::<(Seq<TermV>, Seq<Seq<u8>>), _>(e),
            },
        decreases ts@.skip(i as int),
    {
        let mut ts = ts;
        if i == ts.len() {
            let out: Vec<Term> = Vec::new();
            proof {
                assert(ts@.skip(i as int) =~= Seq::<PTerm>::empty());
                assert(view_pterms(ts@.skip(i as int)) =~= Seq::<PTermV>::empty());
                assert(view_terms(out@) =~= Seq::<TermV>::empty());
            }
            Ok(out)
        } else {
            let ghost tsv = view_pterms(ts@.skip(i as int));
            proof {
                seq_skip_parts(ts@, i as int);
                lemma_view_pterms(ts@.skip(i as int));
                lemma_view_pterms(ts@.skip(i as int + 1));
                assert(tsv[0] == view_pterm(ts@[i as int]));
                assert(tsv.drop_first() =~= view_pterms(ts@.skip(i as int + 1)));
                assert(wf_pterm(tsv[0], view_ppats(old(self).pspace@)));
            }
            let ghost orig = ts@;
            let h = ts.remove(i);
            proof {
                assert(ts@.skip(i as int) =~= orig.skip(i as int + 1));
                assert(h == orig[i as int]);
            }
            let hv = match self.parse_t(h) {
                Ok(x) => x,
                Err(e) => {
                    return Err(e);
                },
            };
            let rest = match self.parse_t_vec(ts, i) {
                Ok(x) => x,
                Err(e) => {
                    return Err(e);
                },
            };
            let ghost restv = rest@;
            let mut rest = rest;
            rest.insert(0, hv);
            proof {
                assert(rest@[0] == hv);
                assert(rest@.drop_first() =~= restv);
                assert(view_terms(rest@) =~= seq![view_term(hv)] + view_terms(restv));
            }
            Ok(rest)
        }
    }
}


impl Pass2 {
    /// Compiles one pre-table pattern, interning the constant names it
    /// mentions in left-to-right order.
    pub fn parse_p_(&mut self, p: &PPattern) -> (r: Result<Pattern, Error>)
        ensures
            final(self).pspace@ == old(self).pspace@,
            final(self).vars@ == old(self).vars@,
            match r {
                Ok(pt) => compile_pat(view_ppat(*p), names_view(old(self).k_list@)) == Ok::<
                    _,
                    Error,
                >((view_pat(pt), names_view(final(self).k_list@))),
                Err(e) => compile_pat(view_ppat(*p), names_view(old(self).k_list@)) == Err::<
                    (PatternV, Seq<Seq<u8>>),
                    _,
                >(e),
            },
        decreases *p,
    {
        match p {
            PPattern::Var(_) => Ok(Pattern::Var),
            PPattern::K(s) => match self.get_constant(clone_bytes(s)) {
                Ok(i) => Ok(Pattern::K(i)),
                Err(e) => Err(e),
            },
            PPattern::App(s, ps) => {
                let i = match self.get_constant(clone_bytes(s)) {
                    Ok(i) => i,
                    Err(e) => {
                        return Err(e);
                    },
                };
                proof {
                    assert(ps@.skip(0) =~= ps@);
                }
                match self.parse_p_vec(ps, 0) {
                    Ok(pv) => Ok(Pattern::App(i, pv)),
                    Err(e) => Err(e),
                }
            },
        }
    }

    fn parse_p_vec(&mut self, ps: &Vec<PPattern>, i: usize) -> (r: Result<Vec<Pattern>, Error>)
        requires
            i <= ps@.len(),
        ensures
            final(self).pspace@ == old(self).pspace@,
            final(self).vars@ == old(self).vars@,
            match r {
                Ok(out) => compile_pats(
                    view_ppats(ps@.skip(i as int)),
                    names_view(old(self).k_list@),
                ) == Ok::<_, Error>((view_pats(out@), names_view(final(self).k_list@))),
                Err(e) => compile_pats(
                    view_ppats(ps@.skip(i as int)),
                    names_view(old(self).k_list@),
                ) == Err::<(Seq<PatternV>, Seq<Seq<u8>>), _>(e),
            },
        decreases ps@.skip(i as int),
    {
        if i == ps.len() {
            let out: Vec<Pattern> = Vec::new();
            proof {
                assert(ps@.skip(i as int) =~= Seq::<PPattern>::empty());
                assert(view_ppats(ps@.skip(i as int)) =~= Seq::<PPatternV>::empty());
                assert(view_pats(out@) =~= Seq::<PatternV>::empty());
            }
            Ok(out)
        } else {
            proof {
                seq_skip_parts(ps@, i as int);
                lemma_view_ppats(ps@.skip(i as int));
                lemma_view_ppats(ps@.skip(i as int + 1));
                assert(view_ppats(ps@.skip(i as int))[0] == view_ppat(ps@[i as int]));
                assert(view_ppats(ps@.skip(i as int)).drop_first() =~= view_ppats(
                    ps@.skip(i as int + 1),
                ));
            }
            let h = match self.parse_p_(&ps[i]) {
                Ok(x) => x,
                Err(e) => {
                    return Err(e);
                },
            };
            let rest = match self.parse_p_vec(ps, i + 1) {
                Ok(x) => x,
                Err(e) => {
                    return Err(e);
                },
            };
            let ghost restv = rest@;
            let mut rest = rest;
            rest.insert(0, h);
            proof {
                assert(rest@[0] == h);
                assert(rest@.drop_first() =~= restv);
                assert(view_pats(rest@) =~= seq![view_pat(h)] + view_pats(restv));
            }
            Ok(rest)
        }
    }

    /// Compiles the whole pre-table, leaving it empty; patterns are compiled
    /// in the order the reader stored them.
    pub fn parse_p(&mut self) -> (r: Result<Vec<Pattern>, Error>)
        ensures
            final(self).vars@ == old(self).vars@,
            final(self).pspace@.len() == 0,
            match r {
                Ok(out) => compile_pats(
                    view_ppats(old(self).pspace@),
                    names_view(old(self).k_list@),
                ) == Ok::<_, Error>((view_pats(out@), names_view(final(self).k_list@))),
                Err(e) => compile_pats(
                    view_ppats(old(self).pspace@),
                    names_view(old(self).k_list@),
                ) == Err::<(Seq<PatternV>, Seq<Seq<u8>>), _>(e),
            },
    {
        let mut ps: Vec<PPattern> = Vec::new();
        std::mem::swap(&mut self.pspace, &mut ps);
        proof {
            assert(ps@.skip(0) =~= ps@);
        }
        self.parse_p_vec(&ps, 0)
    }

    /// Hands out the finished constant name table.
    pub fn get_k_list(self) -> (r: Vec<Vec<u8>>)
        ensures
            r@ == self.k_list@,
    {
        let Pass2 { pspace: _, vars: _, k_list } = self;
        k_list
    }
}


// ---------------------------------------------------------------------------
// What resolution guarantees: the constant table only grows, every constant
// index it writes lies inside the final table, and every abstraction records
// its pattern's slot and true arity. Compilation preserves each pattern's
// arity, so the resolved term is well formed against the compiled table.
// ---------------------------------------------------------------------------

/// Shape of a resolved term measured against the pattern pre-table (arities
/// taken from the source patterns) and a constant table size.
pub open spec fn wf_resolved(t: TermV, psv: Seq<PPatternV>, kn: nat) -> bool
    decreases t,
{
    match t {
        TermV::Var(_) => true,
        TermV::K(k) => k < kn,
        TermV::Abs(p, n, b) => p < psv.len() && n == ppat_arity(psv[p as int]) && wf_resolved(
            *b,
            psv,
            kn,
        ),
        TermV::App(f, args) => wf_resolved(*f, psv, kn) && args.len() >= 1 && wf_resolveds(
            args,
            psv,
            kn,
        ),
        TermV::Struct(ms) => ms.len() >= 1 && wf_resolveds(ms, psv, kn),
    }
}

pub open spec fn wf_resolveds(ts: Seq<TermV>, psv: Seq<PPatternV>, kn: nat) -> bool
    decreases ts,
{
    forall|i: int| 0 <= i < ts.len() ==> wf_resolved(#[trigger] ts[i], psv, kn)
}

pub proof fn lemma_prefix_trans<A>(a: Seq<A>, b: Seq<A>, c: Seq<A>)
    requires
        prefix_of(a, b),
        prefix_of(b, c),
    ensures
        prefix_of(a, c),
{
    assert(c.subrange(0, a.len() as int) =~= c.subrange(0, b.len() as int).subrange(
        0,
        a.len() as int,
    ));
}

pub proof fn lemma_intern_props(ks: Seq<Seq<u8>>, s: Seq<u8>)
    ensures
        prefix_of(ks, intern(ks, s).1),
        intern(ks, s).0 < intern(ks, s).1.len(),
{
    lemma_find_char(ks, s);
    match find_name(ks, s) {
        Some(i) => {
            assert(ks.subrange(0, ks.len() as int) =~= ks);
        },
        None => {
            assert(ks.push(s).subrange(0, ks.len() as int) =~= ks);
        },
    }
}

pub proof fn lemma_wf_resolved_grow(t: TermV, psv: Seq<PPatternV>, kn: nat, kn2: nat)
    requires
        wf_resolved(t, psv, kn),
        kn <= kn2,
    ensures
        wf_resolved(t, psv, kn2),
    decreases t,
{
    match t {
        TermV::Var(_) => {},
        TermV::K(_) => {},
        TermV::Abs(_, _, b) => lemma_wf_resolved_grow(*b, psv, kn, kn2),
        TermV::App(f, args) => {
            lemma_wf_resolved_grow(*f, psv, kn, kn2);
            assert(wf_resolveds(args, psv, kn));
            assert forall|i: int| 0 <= i < args.len() implies wf_resolved(
                #[trigger] args[i],
                psv,
                kn2,
            ) by {
                lemma_wf_resolved_grow(args[i], psv, kn, kn2);
            }
            assert(wf_resolveds(args, psv, kn2));
        },
        TermV::Struct(ms) => {
            assert(wf_resolveds(ms, psv, kn));
            assert forall|i: int| 0 <= i < ms.len() implies wf_resolved(
                #[trigger] ms[i],
                psv,
                kn2,
            ) by {
                lemma_wf_resolved_grow(ms[i], psv, kn, kn2);
            }
            assert(wf_resolveds(ms, psv, kn2));
        },
    }
}

pub proof fn lemma_resolve_wf(t: PTermV, vars: Seq<Seq<u8>>, ks: Seq<Seq<u8>>, psv: Seq<PPatternV>)
    requires
        wf_pterm(t, psv),
    ensures
        resolve_term(t, vars, ks, psv) matches Ok((tv, ks2)) ==> prefix_of(ks, ks2)
            && wf_resolved(tv, psv, ks2.len()),
    decreases t,
{
    match t {
        PTermV::Var(_) => {
            assert(ks.subrange(0, ks.len() as int) =~= ks);
        },
        PTermV::K(s) => {
            lemma_intern_props(ks, s);
        },
        PTermV::Abs(p, n, b) => {
            lemma_resolve_wf(*b, vars + pat_names(psv[p as int]), ks, psv);
        },
        PTermV::App(f, a) => {
            lemma_resolve_wf(*f, vars, ks, psv);
            match resolve_term(*f, vars, ks, psv) {
                Ok((fv, ks1)) => {
                    assert(wf_pterms(a, psv));
                    lemma_resolve_seq_wf(a, vars, ks1, psv);
                    match resolve_terms(a, vars, ks1, psv) {
                        Ok((av, ks2)) => {
                            lemma_prefix_trans(ks, ks1, ks2);
                            lemma_wf_resolved_grow(fv, psv, ks1.len() as nat, ks2.len() as nat);
                        },
                        _ => {},
                    }
                },
                _ => {},
            }
        },
        PTermV::Struct(ms) => {
            assert(wf_pterms(ms, psv));
            lemma_resolve_seq_wf(ms, vars, ks, psv);
        },
    }
}

pub proof fn lemma_resolve_seq_wf(
    ts: Seq<PTermV>,
    vars: Seq<Seq<u8>>,
    ks: Seq<Seq<u8>>,
    psv: Seq<PPatternV>,
)
    requires
        wf_pterms(ts, psv),
    ensures
        resolve_terms(ts, vars, ks, psv) matches Ok((tvs, ks2)) ==> prefix_of(ks, ks2)
            && tvs.len() == ts.len() && wf_resolveds(tvs, psv, ks2.len()),
    decreases ts,
{
    if ts.len() == 0 {
        assert(ks.subrange(0, ks.len() as int) =~= ks);
    } else {
        assert(wf_pterm(ts[0], psv));
        lemma_resolve_wf(ts[0], vars, ks, psv);
        match resolve_term(ts[0], vars, ks, psv) {
            Ok((h, ks1)) => {
                assert(wf_pterms(ts.drop_first(), psv)) by {
                    assert(forall|i: int|
                        0 <= i < ts.drop_first().len() ==> #[trigger] ts.drop_first()[i] == ts[i
                            + 1]);
                }
                lemma_resolve_seq_wf(ts.drop_first(), vars, ks1, psv);
                match resolve_terms(ts.drop_first(), vars, ks1, psv) {
                    Ok((r, ks2)) => {
                        lemma_prefix_trans(ks, ks1, ks2);
                        lemma_wf_resolved_grow(h, psv, ks1.len() as nat, ks2.len() as nat);
                        let out = seq![h] + r;
                        assert(wf_resolveds(r, psv, ks2.len()));
                        assert forall|i: int| 0 <= i < out.len() implies wf_resolved(
                            #[trigger] out[i],
                            psv,
                            ks2.len() as nat,
                        ) by {
                            if i > 0 {
                                assert(out[i] == r[i - 1]);
                                assert(wf_resolved(r[i - 1], psv, ks2.len() as nat));
                            }
                        }
                        assert(wf_resolveds(out, psv, ks2.len() as nat));
                    },
                    _ => {},
                }
            },
            _ => {},
        }
    }
}

pub proof fn lemma_compile_wf(p: PPatternV, ks: Seq<Seq<u8>>)
    ensures
        compile_pat(p, ks) matches Ok((pv, ks2)) ==> prefix_of(ks, ks2) && pat_arity(pv)
            == ppat_arity(p),
    decreases p,
{
    match p {
        PPatternV::Var(_) => {
            assert(ks.subrange(0, ks.len() as int) =~= ks);
        },
        PPatternV::K(s) => {
            lemma_intern_props(ks, s);
        },
        PPatternV::App(s, ps) => {
            lemma_intern_props(ks, s);
            match intern_full(ks, s) {
                Ok((i, ks1)) => {
                    lemma_compile_seq_wf(ps, ks1);
                    match compile_pats(ps, ks1) {
                        Ok((pv, ks2)) => {
                            lemma_prefix_trans(ks, ks1, ks2);
                        },
                        _ => {},
                    }
                },
                _ => {},
            }
        },
    }
}

pub proof fn lemma_compile_seq_wf(ps: Seq<PPatternV>, ks: Seq<Seq<u8>>)
    ensures
        compile_pats(ps, ks) matches Ok((pvs, ks2)) ==> prefix_of(ks, ks2) && pvs.len()
            == ps.len() && pats_arity(pvs) == ppats_arity(ps) && (forall|j: int|
            0 <= j < ps.len() ==> pat_arity(#[trigger] pvs[j]) == ppat_arity(ps[j])),
    decreases ps,
{
    if ps.len() == 0 {
        assert(ks.subrange(0, ks.len() as int) =~= ks);
    } else {
        lemma_compile_wf(ps[0], ks);
        match compile_pat(ps[0], ks) {
            Ok((h, ks1)) => {
                lemma_compile_seq_wf(ps.drop_first(), ks1);
                match compile_pats(ps.drop_first(), ks1) {
                    Ok((r, ks2)) => {
                        lemma_prefix_trans(ks, ks1, ks2);
                        let out = seq![h] + r;
                        assert(out.drop_first() =~= r);
                        assert(out[0] == h);
                        assert(pats_arity(out) == pat_arity(h) + pats_arity(r));
                        assert(ppats_arity(ps) == ppat_arity(ps[0]) + ppats_arity(
                            ps.drop_first(),
                        ));
                        assert(forall|j: int|
                            0 <= j < ps.drop_first().len() ==> #[trigger] ps.drop_first()[j]
                                == ps[j + 1]);
                        assert forall|j: int| 0 <= j < ps.len() implies pat_arity(
                            #[trigger] out[j],
                        ) == ppat_arity(ps[j]) by {
                            if j > 0 {
                                assert(out[j] == r[j - 1]);
                                assert(pat_arity(r[j - 1]) == ppat_arity(ps.drop_first()[j - 1]));
                            }
                        }
                    },
                    _ => {},
                }
            },
            _ => {},
        }
    }
}

/// A resolved term is well formed against the compiled pattern table, since
/// compilation preserves each slot's arity.
pub proof fn lemma_wf_transfer(t: TermV, psv: Seq<PPatternV>, pats: Seq<PatternV>, kn: nat)
    requires
        wf_resolved(t, psv, kn),
        pats.len() == psv.len(),
        forall|j: int| 0 <= j < psv.len() ==> pat_arity(#[trigger] pats[j]) == ppat_arity(psv[j]),
    ensures
        wf_term(t, pats, kn),
    decreases t,
{
    match t {
        TermV::Var(_) => {},
        TermV::K(_) => {},
        TermV::Abs(p, n, b) => {
            lemma_wf_transfer(*b, psv, pats, kn);
        },
        TermV::App(f, args) => {
            lemma_wf_transfer(*f, psv, pats, kn);
            assert(wf_resolveds(args, psv, kn));
            assert forall|i: int| 0 <= i < args.len() implies wf_term(
                #[trigger] args[i],
                pats,
                kn,
            ) by {
                lemma_wf_transfer(args[i], psv, pats, kn);
            }
            assert(wf_terms(args, pats, kn));
        },
        TermV::Struct(ms) => {
            assert(wf_resolveds(ms, psv, kn));
            assert forall|i: int| 0 <= i < ms.len() implies wf_term(#[trigger] ms[i], pats, kn)
                by {
                lemma_wf_transfer(ms[i], psv, pats, kn);
            }
            assert(wf_terms(ms, pats, kn));
        },
    }
}

} // verus!
