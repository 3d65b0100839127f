use vstd::prelude::*;

verus! {

/// The errors the pipeline can raise. The first two are the reader's fatal
/// syntax errors, the third is the resolver's unbound-identifier error, and
/// the last rejects a source constant that collides with the reserved name of
/// the stuck sentinel at table slot 0.
#[derive(Debug, Clone, Copy, PartialEq, Eq, Structural)]
pub enum Error {
    UnexpectedEnd,
    BadPatternHead,
    UnboundVariable,
    ReservedConstant,
}

/// A pattern as read from source, names still in place.
#[derive(Debug, PartialEq, Eq)]
pub enum PPattern {
    Var(Vec<u8>),
    K(Vec<u8>),
    App(Vec<u8>, Vec<PPattern>),
}

/// A term as read from source, names still in place. An abstraction holds the
/// slot its pattern occupies in the pre-table and that pattern's arity.
#[derive(Debug, PartialEq, Eq)]
pub enum PTerm {
    Var(Vec<u8>),
    K(Vec<u8>),
    Abs(usize, usize, Box<PTerm>),
    App(Box<PTerm>, Vec<PTerm>),
    Struct(Vec<PTerm>),
}

/// Mathematical mirrors.
pub ghost enum PPatternV {
    Var(Seq<u8>),
    K(Seq<u8>),
    App(Seq<u8>, Seq<PPatternV>),
}

pub ghost enum PTermV {
    Var(Seq<u8>),
    K(Seq<u8>),
    Abs(nat, nat, Box<PTermV>),
    App(Box<PTermV>, Seq<PTermV>),
    Struct(Seq<PTermV>),
}

pub open spec fn view_ppat(p: PPattern) -> PPatternV
    decreases p,
{
    match p {
        PPattern::Var(s) => PPatternV::Var(s@),
        PPattern::K(s) => PPatternV::K(s@),
        PPattern::App(s, ps) => PPatternV::App(s@, view_ppats(ps@)),
    }
}

pub open spec fn view_ppats(ps: Seq<PPattern>) -> Seq<PPatternV>
    decreases ps,
{
    if ps.len() == 0 {
        Seq::empty()
    } else {
        seq![view_ppat(ps[0])] + view_ppats(ps.drop_first())
    }
}

pub open spec fn view_pterm(t: PTerm) -> PTermV
    decreases t,
{
    match t {
        PTerm::Var(s) => PTermV::Var(s@),
        PTerm::K(s) => PTermV::K(s@),
        PTerm::Abs(p, n, b) => PTermV::Abs(p as nat, n as nat, Box::new(view_pterm(*b))),
        PTerm::App(f, args) => PTermV::App(Box::new(view_pterm(*f)), view_pterms(args@)),
        PTerm::Struct(ms) => PTermV::Struct(view_pterms(ms@)),
    }
}

pub open spec fn view_pterms(ts: Seq<PTerm>) -> Seq<PTermV>
    decreases ts,
{
    if ts.len() == 0 {
        Seq::empty()
    } else {
        seq![view_pterm(ts[0])] + view_pterms(ts.drop_first())
    }
}

pub broadcast proof fn lemma_view_ppats(ps: Seq<PPattern>)
    ensures
        (#[trigger] view_ppats(ps)).len() == ps.len(),
        forall|i: int| 0 <= i < ps.len() ==> view_ppats(ps)[i] == view_ppat(ps[i]),
    decreases ps,
{
    if ps.len() > 0 {
        lemma_view_ppats(ps.drop_first());
    }
}

/// Arity of a source pattern: the number of wildcard names it binds, counted
/// in left-to-right textual order.
pub open spec fn ppat_arity(p: PPatternV) -> nat
    decreases p,
{
    match p {
        PPatternV::Var(_) => 1,
        PPatternV::K(_) => 0,
        PPatternV::App(_, ps) => ppats_arity(ps),
    }
}

pub open spec fn ppats_arity(ps: Seq<PPatternV>) -> nat
    decreases ps,
{
    if ps.len() == 0 {
        0
    } else {
        ppat_arity(ps[0]) + ppats_arity(ps.drop_first())
    }
}

// ---------------------------------------------------------------------------
// Byte classes. Only ASCII letters and digits form identifiers; an uppercase
// first letter makes a constant, a lowercase one a variable. Any byte outside
// the grammar, whitespace included, is skipped.
// ---------------------------------------------------------------------------

pub open spec fn is_upper(c: u8) -> bool {
    65 <= c <= 90
}

pub open spec fn is_lower(c: u8) -> bool {
    97 <= c <= 122
}

pub open spec fn is_alnum(c: u8) -> bool {
    is_upper(c) || is_lower(c) || (48 <= c <= 57)
}

fn upper_t(c: u8) -> (r: bool)
    ensures
        r == is_upper(c),
{
    65 <= c && c <= 90
}

fn lower_t(c: u8) -> (r: bool)
    ensures
        r == is_lower(c),
{
    97 <= c && c <= 122
}

fn alnum_t(c: u8) -> (r: bool)
    ensures
        r == is_alnum(c),
{
    upper_t(c) || lower_t(c) || (48 <= c && c <= 57)
}

// ---------------------------------------------------------------------------
// The reader, specification side. Positions advance strictly; each reading
// function consumes at least one byte. The specification guards the
// recursion on that, and the reading code proves the guards always hold.
// ---------------------------------------------------------------------------

/// Scans the identifier continuation after its first letter.
pub open spec fn ident_spec(s: Seq<u8>, pos: nat, acc: Seq<u8>) -> (Seq<u8>, nat)
    decreases s.len() - pos,
{
    if pos < s.len() && is_alnum(s[pos as int]) {
        ident_spec(s, pos + 1, acc.push(s[pos as int]))
    } else {
        (acc, pos)
    }
}

pub open spec fn parse_pattern_spec(s: Seq<u8>, pos: nat) -> Result<(nat, PPatternV, nat), Error>
    decreases s.len() - pos,
{
    if pos >= s.len() {
        Err(Error::UnexpectedEnd)
    } else {
        let c = s[pos as int];
        if c == 96 {
            match parse_pattern_spec(s, pos + 1) {
                Err(e) => Err(e),
                Ok((n1, p1, q1)) => if pos < q1 <= s.len() {
                    match p1 {
                        PPatternV::App(k, b) => match parse_pattern_spec(s, q1) {
                            Err(e) => Err(e),
                            Ok((n2, p2, q2)) => Ok(
                                ((n1 + n2) as nat, PPatternV::App(k, seq![p2] + b), q2),
                            ),
                        },
                        PPatternV::K(k) => match parse_pattern_spec(s, q1) {
                            Err(e) => Err(e),
                            Ok((n2, p2, q2)) => Ok((n2, PPatternV::App(k, seq![p2]), q2)),
                        },
                        PPatternV::Var(_) => Err(Error::BadPatternHead),
                    }
                } else {
                    Err(Error::UnexpectedEnd)
                },
            }
        } else if is_upper(c) {
            let (name, q) = ident_spec(s, pos + 1, seq![c]);
            Ok((0, PPatternV::K(name), q))
        } else if is_lower(c) {
            let (name, q) = ident_spec(s, pos + 1, seq![c]);
            Ok((1, PPatternV::Var(name), q))
        } else {
            parse_pattern_spec(s, pos + 1)
        }
    }
}

pub open spec fn parse_term_spec(s: Seq<u8>, pos: nat, ps: Seq<PPatternV>) -> Result<
    (PTermV, nat, Seq<PPatternV>),
    Error,
>
    decreases s.len() - pos,
{
    if pos >= s.len() {
        Err(Error::UnexpectedEnd)
    } else {
        let c = s[pos as int];
        if c == 96 {
            match parse_term_spec(s, pos + 1, ps) {
                Err(e) => Err(e),
                Ok((t1, q1, ps1)) => if pos < q1 <= s.len() {
                    match parse_term_spec(s, q1, ps1) {
                        Err(e) => Err(e),
                        Ok((t2, q2, ps2)) => match t1 {
                            PTermV::App(f, a) => Ok((PTermV::App(f, seq![t2] + a), q2, ps2)),
                            _ => Ok((PTermV::App(Box::new(t1), seq![t2]), q2, ps2)),
                        },
                    }
                } else {
                    Err(Error::UnexpectedEnd)
                },
            }
        } else if c == 92 {
            let idx = ps.len();
            match parse_pattern_spec(s, pos + 1) {
                Err(e) => Err(e),
                Ok((n, pat, q1)) => if pos < q1 <= s.len() {
                    match parse_term_spec(s, q1, ps.push(pat)) {
                        Err(e) => Err(e),
                        Ok((b, q2, ps2)) => Ok((PTermV::Abs(idx, n, Box::new(b)), q2, ps2)),
                    }
                } else {
                    Err(Error::UnexpectedEnd)
                },
            }
        } else if c == 124 {
            match parse_term_spec(s, pos + 1, ps) {
                Err(e) => Err(e),
                Ok((t1, q1, ps1)) => if pos < q1 <= s.len() {
                    match parse_term_spec(s, q1, ps1) {
                        Err(e) => Err(e),
                        Ok((t2, q2, ps2)) => match t1 {
                            PTermV::Struct(ms) => Ok((PTermV::Struct(ms.push(t2)), q2, ps2)),
                            _ => Ok((PTermV::Struct(seq![t1, t2]), q2, ps2)),
                        },
                    }
                } else {
                    Err(Error::UnexpectedEnd)
                },
            }
        } else if is_upper(c) {
            let (name, q) = ident_spec(s, pos + 1, seq![c]);
            Ok((PTermV::K(name), q, ps))
        } else if is_lower(c) {
            let (name, q) = ident_spec(s, pos + 1, seq![c]);
            Ok((PTermV::Var(name), q, ps))
        } else {
            parse_term_spec(s, pos + 1, ps)
        }
    }
}

/// Every reading function moves the position strictly forward and never past
/// the end of the input.
pub proof fn lemma_ident_pos(s: Seq<u8>, pos: nat, acc: Seq<u8>)
    requires
        pos <= s.len(),
    ensures
        pos <= ident_spec(s, pos, acc).1 <= s.len(),
    decreases s.len() - pos,
{
    if pos < s.len() && is_alnum(s[pos as int]) {
        lemma_ident_pos(s, pos + 1, acc.push(s[pos as int]));
    }
}

pub proof fn lemma_parse_pattern_pos(s: Seq<u8>, pos: nat)
    ensures
        parse_pattern_spec(s, pos) matches Ok((n, p, q)) ==> pos < q <= s.len(),
    decreases s.len() - pos,
{
    if pos < s.len() {
        let c = s[pos as int];
        if c == 96 {
            lemma_parse_pattern_pos(s, pos + 1);
            match parse_pattern_spec(s, pos + 1) {
                Ok((n1, p1, q1)) => {
                    if pos < q1 <= s.len() {
                        lemma_parse_pattern_pos(s, q1);
                    }
                },
                _ => {},
            }
        } else if is_upper(c) || is_lower(c) {
            lemma_ident_pos(s, pos + 1, seq![c]);
        } else {
            lemma_parse_pattern_pos(s, pos + 1);
        }
    }
}

pub proof fn lemma_parse_term_pos(s: Seq<u8>, pos: nat, ps: Seq<PPatternV>)
    ensures
        parse_term_spec(s, pos, ps) matches Ok((t, q, ps2)) ==> pos < q <= s.len(),
    decreases s.len() - pos,
{
    if pos < s.len() {
        let c = s[pos as int];
        if c == 96 || c == 124 {
            lemma_parse_term_pos(s, pos + 1, ps);
            match parse_term_spec(s, pos + 1, ps) {
                Ok((t1, q1, ps1)) => {
                    if pos < q1 <= s.len() {
                        lemma_parse_term_pos(s, q1, ps1);
                    }
                },
                _ => {},
            }
        } else if c == 92 {
            lemma_parse_pattern_pos(s, pos + 1);
            match parse_pattern_spec(s, pos + 1) {
                Ok((n, pat, q1)) => {
                    if pos < q1 <= s.len() {
                        lemma_parse_term_pos(s, q1, ps.push(pat));
                    }
                },
                _ => {},
            }
        } else if is_upper(c) || is_lower(c) {
            lemma_ident_pos(s, pos + 1, seq![c]);
        } else {
            lemma_parse_term_pos(s, pos + 1, ps);
        }
    }
}

// ---------------------------------------------------------------------------
// The reader, executable side.
// ---------------------------------------------------------------------------

/// Reads the identifier that began with `first` at `pos - 1`.
pub fn parse_ident(first: u8, s: &Vec<u8>, pos: usize) -> (r: (Vec<u8>, usize))
    requires
        pos <= s@.len(),
    ensures
        (r.0@, r.1 as nat) == ident_spec(s@, pos as nat, seq![first]),
        pos <= r.1 <= s@.len(),
{
    let mut acc: Vec<u8> = Vec::new();
    acc.push(first);
    let mut i = pos;
    proof {
        assert(acc@ =~= seq![first]);
    }
    loop
        invariant
            pos <= i <= s@.len(),
            ident_spec(s@, pos as nat, seq![first]) == ident_spec(s@, i as nat, acc@),
        decreases s@.len() - i,
    {
        if i < s.len() && alnum_t(s[i]) {
            acc.push(s[i]);
            i += 1;
        } else {
            return (acc, i);
        }
    }
}

pub fn parse_pattern(s: &Vec<u8>, pos: usize) -> (r: Result<(usize, PPattern, usize), Error>)
    requires
        pos <= s@.len(),
    ensures
        match r {
            Ok((n, p, q)) => parse_pattern_spec(s@, pos as nat) == Ok::<_, Error>(
                (n as nat, view_ppat(p), q as nat),
            ) && pos < q <= s@.len(),
            Err(e) => parse_pattern_spec(s@, pos as nat) == Err::<(nat, PPatternV, nat), _>(e),
        },
    decreases s@.len() - pos,
{
    if pos >= s.len() {
        return Err(Error::UnexpectedEnd);
    }
    let c = s[pos];
    if c == 96 {
        match parse_pattern(s, pos + 1) {
            Err(e) => Err(e),
            Ok((n1, p1, q1)) => match p1 {
                PPattern::App(k, b) => match parse_pattern(s, q1) {
                    Err(e) => Err(e),
                    Ok((n2, p2, q2)) => {
                        let ghost bv = b@;
                        let mut b = b;
                        b.insert(0, p2);
                        proof {
                            assert(b@[0] == p2);
                            assert(b@.drop_first() =~= bv);
                            assert(view_ppats(b@) =~= seq![view_ppat(p2)] + view_ppats(bv));
                        }
                        proof {
                            lemma_parse_pattern_arity(s@, pos as nat + 1);
                            lemma_parse_pattern_arity(s@, q1 as nat);
                        }
                        Ok((n1 + n2, PPattern::App(k, b), q2))
                    },
                },
                PPattern::K(k) => match parse_pattern(s, q1) {
                    Err(e) => Err(e),
                    Ok((n2, p2, q2)) => {
                        let mut b: Vec<PPattern> = Vec::new();
                        b.push(p2);
                        proof {
                            assert(b@.drop_first() =~= Seq::<PPattern>::empty());
                            assert(view_ppats(b@.drop_first()) =~= Seq::<PPatternV>::empty());
                            assert(view_ppats(b@) =~= seq![view_ppat(b@[0])]);
                        }
                        Ok((n2, PPattern::App(k, b), q2))
                    },
                },
                PPattern::Var(_) => Err(Error::BadPatternHead),
            },
        }
    } else if upper_t(c) {
        let (name, q) = parse_ident(c, s, pos + 1);
        Ok((0, PPattern::K(name), q))
    } else if lower_t(c) {
        let (name, q) = parse_ident(c, s, pos + 1);
        Ok((1, PPattern::Var(name), q))
    } else {
        parse_pattern(s, pos + 1)
    }
}

/// A pattern's reported arity is genuine, and it is bounded by the number of
/// input bytes the read spanned, so arity sums of adjacent reads fit a
/// machine word.
pub proof fn lemma_parse_pattern_arity(s: Seq<u8>, pos: nat)
    ensures
        parse_pattern_spec(s, pos) matches Ok((n, p, q)) ==> n == ppat_arity(p) && pos + n <= q,
    decreases s.len() - pos,
{
    lemma_parse_pattern_pos(s, pos);
    if pos < s.len() {
        let c = s[pos as int];
        if c == 96 {
            lemma_parse_pattern_pos(s, pos + 1);
            lemma_parse_pattern_arity(s, pos + 1);
            match parse_pattern_spec(s, pos + 1) {
                Ok((n1, p1, q1)) => {
                    if pos < q1 <= s.len() {
                        lemma_parse_pattern_pos(s, q1);
                        lemma_parse_pattern_arity(s, q1);
                        match p1 {
                            PPatternV::App(k, b) => {
                                match parse_pattern_spec(s, q1) {
                                    Ok((n2, p2, q2)) => {
                                        assert(ppats_arity(seq![p2] + b) == ppat_arity(p2)
                                            + ppats_arity(b)) by {
                                            assert((seq![p2] + b).drop_first() =~= b);
                                        }
                                    },
                                    _ => {},
                                }
                            },
                            PPatternV::K(k) => {
                                match parse_pattern_spec(s, q1) {
                                    Ok((n2, p2, q2)) => {
                                        assert(ppats_arity(seq![p2]) == ppat_arity(p2)) by {
                                            assert(seq![p2].drop_first()
                                                =~= Seq::<PPatternV>::empty());
                                            assert(ppats_arity(Seq::<PPatternV>::empty()) == 0);
                                        }
                                    },
                                    _ => {},
                                }
                            },
                            _ => {},
                        }
                    }
                },
                _ => {},
            }
        } else if is_upper(c) || is_lower(c) {
            lemma_ident_pos(s, pos + 1, seq![c]);
        } else {
            lemma_parse_pattern_arity(s, pos + 1);
        }
    }
}

pub fn parse_term(s: &Vec<u8>, pos: usize, ps: &mut Vec<PPattern>) -> (r: Result<
    (PTerm, usize),
    Error,
>)
    requires
        pos <= s@.len(),
    ensures
        match r {
            Ok((t, q)) => parse_term_spec(s@, pos as nat, view_ppats(old(ps)@)) == Ok::<_, Error>(
                (view_pterm(t), q as nat, view_ppats(final(ps)@)),
            ) && pos < q <= s@.len(),
            Err(e) => parse_term_spec(s@, pos as nat, view_ppats(old(ps)@)) == Err::<
                (PTermV, nat, Seq<PPatternV>),
                _,
            >(e),
        },
    decreases s@.len() - pos,
{
    if pos >= s.len() {
        return Err(Error::UnexpectedEnd);
    }
    let c = s[pos];
    if c == 96 {
        match parse_term(s, pos + 1, ps) {
            Err(e) => Err(e),
            Ok((t1, q1)) => match parse_term(s, q1, ps) {
                Err(e) => Err(e),
                Ok((t2, q2)) => match t1 {
                    PTerm::App(f, a) => {
                        let ghost av = a@;
                        let mut a = a;
                        a.insert(0, t2);
                        proof {
                            assert(a@[0] == t2);
                            assert(a@.drop_first() =~= av);
                            assert(view_pterms(a@) =~= seq![view_pterm(a@[0])] + view_pterms(av));
                        }
                        Ok((PTerm::App(f, a), q2))
                    },
                    t1 => {
                        let mut a: Vec<PTerm> = Vec::new();
                        a.push(t2);
                        proof {
                            assert(a@.drop_first() =~= Seq::<PTerm>::empty());
                            assert(view_pterms(a@.drop_first()) =~= Seq::<PTermV>::empty());
                            assert(view_pterms(a@) =~= seq![view_pterm(a@[0])]);
                        }
                        Ok((PTerm::App(Box::new(t1), a), q2))
                    },
                },
            },
        }
    } else if c == 92 {
        let idx = ps.len();
        match parse_pattern(s, pos + 1) {
            Err(e) => Err(e),
            Ok((n, pat, q1)) => {
                let ghost psv = view_ppats(ps@);
                ps.push(pat);
                proof {
                    lemma_view_ppats(ps@);
                    assert(ps@.drop_last() =~= old(ps)@);
                    assert(view_ppats(ps@) =~= psv.push(view_ppat(pat))) by {
                        lemma_view_ppats(old(ps)@);
                        assert(forall|i: int|
                            0 <= i < old(ps)@.len() ==> ps@[i] == old(ps)@[i]);
                    }
                }
                match parse_term(s, q1, ps) {
                    Err(e) => Err(e),
                    Ok((b, q2)) => Ok((PTerm::Abs(idx, n, Box::new(b)), q2)),
                }
            },
        }
    } else if c == 124 {
        match parse_term(s, pos + 1, ps) {
            Err(e) => Err(e),
            Ok((t1, q1)) => match parse_term(s, q1, ps) {
                Err(e) => Err(e),
                Ok((t2, q2)) => match t1 {
                    PTerm::Struct(ms) => {
                        let ghost msv = ms@;
                        let mut ms = ms;
                        ms.push(t2);
                        proof {
                            lemma_view_pterms_push(msv, t2);
                        }
                        Ok((PTerm::Struct(ms), q2))
                    },
                    t1 => {
                        let mut ms: Vec<PTerm> = Vec::new();
                        ms.push(t1);
                        let ghost one = ms@;
                        ms.push(t2);
                        proof {
                            lemma_view_pterms_push(one, t2);
                            assert(one.drop_first() =~= Seq::<PTerm>::empty());
                            assert(view_pterms(one.drop_first()) =~= Seq::<PTermV>::empty());
                            assert(view_pterms(one) =~= seq![view_pterm(one[0])]);
                            assert(view_pterms(ms@) =~= seq![
                                view_pterm(ms@[0]),
                                view_pterm(ms@[1]),
                            ]);
                        }
                        Ok((PTerm::Struct(ms), q2))
                    },
                },
            },
        }
    } else if upper_t(c) {
        let (name, q) = parse_ident(c, s, pos + 1);
        Ok((PTerm::K(name), q))
    } else if lower_t(c) {
        let (name, q) = parse_ident(c, s, pos + 1);
        Ok((PTerm::Var(name), q))
    } else {
        parse_term(s, pos + 1, ps)
    }
}

pub proof fn lemma_view_pterms_push(ts: Seq<PTerm>, t: PTerm)
    ensures
        view_pterms(ts.push(t)) == view_pterms(ts).push(view_pterm(t)),
    decreases ts,
{
    if ts.len() == 0 {
        assert(ts.push(t).drop_first() =~= Seq::<PTerm>::empty());
        assert(view_pterms(ts.push(t).drop_first()) =~= Seq::<PTermV>::empty());
        assert(ts.push(t)[0] == t);
        assert(view_pterms(ts.push(t)) =~= seq![view_pterm(t)]);
        assert(view_pterms(ts).push(view_pterm(t)) =~= seq![view_pterm(t)]);
    } else {
        lemma_view_pterms_push(ts.drop_first(), t);
        assert(ts.push(t).drop_first() =~= ts.drop_first().push(t));
        assert(ts.push(t)[0] == ts[0]);
        assert(seq![view_pterm(ts[0])] + view_pterms(ts.drop_first()).push(view_pterm(t)) =~= (
        seq![view_pterm(ts[0])] + view_pterms(ts.drop_first())).push(view_pterm(t)));
    }
}


pub broadcast proof fn lemma_view_pterms(ts: Seq<PTerm>)
    ensures
        (#[trigger] view_pterms(ts)).len() == ts.len(),
        forall|i: int| 0 <= i < ts.len() ==> view_pterms(ts)[i] == view_pterm(ts[i]),
    decreases ts,
{
    if ts.len() > 0 {
        lemma_view_pterms(ts.drop_first());
    }
}

/// Well-formedness of a read term against the pattern pre-table: every
/// abstraction's slot index is in range and carries the pattern's true arity.
pub open spec fn wf_pterm(t: PTermV, psv: Seq<PPatternV>) -> bool
    decreases t,
{
    match t {
        PTermV::Var(_) => true,
        PTermV::K(_) => true,
        PTermV::Abs(p, n, b) => p < psv.len() && n == ppat_arity(psv[p as int]) && wf_pterm(
            *b,
            psv,
        ),
        PTermV::App(f, a) => wf_pterm(*f, psv) && a.len() >= 1 && wf_pterms(a, psv),
        PTermV::Struct(ms) => ms.len() >= 1 && wf_pterms(ms, psv),
    }
}

pub open spec fn wf_pterms(ts: Seq<PTermV>, psv: Seq<PPatternV>) -> bool
    decreases ts,
{
    forall|i: int| 0 <= i < ts.len() ==> wf_pterm(#[trigger] ts[i], psv)
}


/// One table is an initial segment of another: the reader and the resolver
/// only ever append to their tables.
pub open spec fn prefix_of<A>(a: Seq<A>, b: Seq<A>) -> bool {
    a.len() <= b.len() && b.subrange(0, a.len() as int) == a
}

/// Growing the pre-table keeps a read term well formed: slot indices stay in
/// range and keep pointing at the same patterns.
pub proof fn lemma_wf_pterm_grow(t: PTermV, a: Seq<PPatternV>, b: Seq<PPatternV>)
    requires
        wf_pterm(t, a),
        prefix_of(a, b),
    ensures
        wf_pterm(t, b),
    decreases t,
{
    match t {
        PTermV::Var(_) => {},
        PTermV::K(_) => {},
        PTermV::Abs(p, n, bd) => {
            assert(b[p as int] == a.subrange(0, a.len() as int)[p as int]);
            lemma_wf_pterm_grow(*bd, a, b);
        },
        PTermV::App(f, args) => {
            lemma_wf_pterm_grow(*f, a, b);
            assert(wf_pterms(args, a));
            assert forall|i: int| 0 <= i < args.len() implies wf_pterm(#[trigger] args[i], b) by {
                assert(wf_pterm(args[i], a));
                lemma_wf_pterm_grow(args[i], a, b);
            }
            assert(wf_pterms(args, b));
        },
        PTermV::Struct(ms) => {
            assert(wf_pterms(ms, a));
            assert forall|i: int| 0 <= i < ms.len() implies wf_pterm(#[trigger] ms[i], b) by {
                assert(wf_pterm(ms[i], a));
                lemma_wf_pterm_grow(ms[i], a, b);
            }
            assert(wf_pterms(ms, b));
        },
    }
}

/// The reader only appends to the pre-table, and the term it hands back is
/// well formed against the grown table.
pub proof fn lemma_parse_term_wf(s: Seq<u8>, pos: nat, ps: Seq<PPatternV>)
    ensures
        parse_term_spec(s, pos, ps) matches Ok((t, q, ps2)) ==> prefix_of(ps, ps2) && wf_pterm(
            t,
            ps2,
        ),
    decreases s.len() - pos,
{
    if pos < s.len() {
        let c = s[pos as int];
        if c == 96 || c == 124 {
            lemma_parse_term_pos(s, pos + 1, ps);
            lemma_parse_term_wf(s, pos + 1, ps);
            match parse_term_spec(s, pos + 1, ps) {
                Ok((t1, q1, ps1)) => {
                    if pos < q1 <= s.len() {
                        lemma_parse_term_wf(s, q1, ps1);
                        match parse_term_spec(s, q1, ps1) {
                            Ok((t2, q2, ps2)) => {
                                assert(prefix_of(ps, ps2)) by {
                                    assert(ps2.subrange(0, ps.len() as int) =~= ps2.subrange(
                                        0,
                                        ps1.len() as int,
                                    ).subrange(0, ps.len() as int));
                                }
                                lemma_wf_pterm_grow(t1, ps1, ps2);
                                if c == 96 {
                                    match t1 {
                                        PTermV::App(f, a) => {
                                            assert(wf_pterms(a, ps2));
                                            let na = seq![t2] + a;
                                            assert forall|i: int|
                                                0 <= i < na.len() implies wf_pterm(
                                                #[trigger] na[i],
                                                ps2,
                                            ) by {
                                                if i > 0 {
                                                    assert(na[i] == a[i - 1]);
                                                    assert(wf_pterm(a[i - 1], ps2));
                                                }
                                            }
                                            assert(wf_pterms(na, ps2));
                                        },
                                        _ => {
                                            let na = seq![t2];
                                            assert(wf_pterms(na, ps2)) by {
                                                assert(forall|i: int|
                                                    0 <= i < na.len() ==> #[trigger] na[i] == t2);
                                            }
                                        },
                                    }
                                } else {
                                    match t1 {
                                        PTermV::Struct(ms) => {
                                            assert(wf_pterms(ms, ps2));
                                            let nm = ms.push(t2);
                                            assert forall|i: int|
                                                0 <= i < nm.len() implies wf_pterm(
                                                #[trigger] nm[i],
                                                ps2,
                                            ) by {
                                                if i < ms.len() {
                                                    assert(nm[i] == ms[i]);
                                                    assert(wf_pterm(ms[i], ps2));
                                                }
                                            }
                                            assert(wf_pterms(nm, ps2));
                                        },
                                        _ => {
                                            let nm = seq![t1, t2];
                                            assert(wf_pterms(nm, ps2)) by {
                                                assert(forall|i: int|
                                                    0 <= i < nm.len() ==> #[trigger] nm[i] == t1
                                                        || nm[i] == t2);
                                            }
                                        },
                                    }
                                }
                            },
                            _ => {},
                        }
                    }
                },
                _ => {},
            }
        } else if c == 92 {
            lemma_parse_pattern_pos(s, pos + 1);
            lemma_parse_pattern_arity(s, pos + 1);
            match parse_pattern_spec(s, pos + 1) {
                Ok((n, pat, q1)) => {
                    if pos < q1 <= s.len() {
                        lemma_parse_term_wf(s, q1, ps.push(pat));
                        match parse_term_spec(s, q1, ps.push(pat)) {
                            Ok((b, q2, ps2)) => {
                                assert(prefix_of(ps, ps2)) by {
                                    assert(ps.push(pat).subrange(0, ps.len() as int) =~= ps);
                                    assert(ps2.subrange(0, ps.len() as int) =~= ps2.subrange(
                                        0,
                                        ps.push(pat).len() as int,
                                    ).subrange(0, ps.len() as int));
                                }
                                assert(ps2[ps.len() as int] == ps.push(pat).subrange(
                                    0,
                                    ps.push(pat).len() as int,
                                )[ps.len() as int]);
                                assert(ps2[ps.len() as int] == pat);
                            },
                            _ => {},
                        }
                    }
                },
                _ => {},
            }
        } else if is_upper(c) || is_lower(c) {
            assert(ps.subrange(0, ps.len() as int) =~= ps);
        } else {
            lemma_parse_term_wf(s, pos + 1, ps);
        }
    }
}

} // verus!
