use vstd::prelude::*;

pub mod engine;
pub mod laws;
pub mod reader;
pub mod resolver;
pub mod term;

use crate::engine::Block;
use crate::reader::{
    Error, PPattern, PPatternV, PTermV, lemma_parse_term_wf, parse_term, parse_term_spec,
    view_ppats,
};
use crate::resolver::{
    Pass2, compile_pats, lemma_compile_seq_wf, lemma_resolve_wf, lemma_wf_resolved_grow,
    lemma_wf_transfer, names_view, reserved_name, resolve_term,
};
use crate::term::{PatternV, TermV, view_pats, view_term};

verus! {

/// What reading and resolving a whole source text yields: the de Bruijn term
/// tree, the compiled pattern table, and the interned constant name table,
/// whose slot 0 is the reserved name of the stuck sentinel.
pub open spec fn program_spec(s: Seq<u8>) -> Result<
    (TermV, Seq<PatternV>, Seq<Seq<u8>>),
    Error,
> {
    match parse_term_spec(s, 0, Seq::empty()) {
        Err(e) => Err(e),
        Ok((t, _q, ps)) => match resolve_term(t, Seq::empty(), seq![reserved_name()], ps) {
            Err(e) => Err(e),
            Ok((tv, ks1)) => match compile_pats(ps, ks1) {
                Err(e) => Err(e),
                Ok((patsv, ks2)) => Ok((tv, patsv, ks2)),
            },
        },
    }
}

/// Reads and resolves a whole program. The result owns the term tree and the
/// finished, immutable tables, ready for the rewrite engine; errors are the
/// reader's syntax errors, an unbound variable, or a source constant that
/// collides with the reserved sentinel name.
pub fn parse(b: Vec<u8>) -> (r: Result<Block, Error>)
    ensures
        match r {
            Ok(block) => block.wf() && program_spec(b@) == Ok::<_, Error>(
                (view_term(block.t), view_pats(block.pats@), names_view(block.k_list@)),
            ),
            Err(e) => program_spec(b@) == Err::<(TermV, Seq<PatternV>, Seq<Seq<u8>>), _>(e),
        },
{
    let mut pspace: Vec<PPattern> = Vec::new();
    proof {
        assert(view_ppats(pspace@) =~= Seq::<PPatternV>::empty());
    }
    let pt = match parse_term(&b, 0, &mut pspace) {
        Ok((pt, _q)) => pt,
        Err(e) => {
            return Err(e);
        },
    };
    let ghost psv = view_ppats(pspace@);
    proof {
        lemma_parse_term_wf(b@, 0, Seq::empty());
    }
    let mut p2 = Pass2::new(pspace);
    proof {
        assert(names_view(p2.vars@) =~= Seq::<Seq<u8>>::empty());
    }
    let t = match p2.parse_t(pt) {
        Ok(t) => t,
        Err(e) => {
            return Err(e);
        },
    };
    let ghost ks1 = names_view(p2.k_list@);
    let pats = match p2.parse_p() {
        Ok(pats) => pats,
        Err(e) => {
            return Err(e);
        },
    };
    let ghost ks2 = names_view(p2.k_list@);
    let k_list = p2.get_k_list();
    proof {
        lemma_resolve_wf(crate::reader::view_pterm(pt), Seq::empty(), seq![reserved_name()], psv);
        lemma_compile_seq_wf(psv, ks1);
        lemma_wf_resolved_grow(view_term(t), psv, ks1.len() as nat, ks2.len() as nat);
        lemma_wf_transfer(view_term(t), psv, view_pats(pats@), ks2.len() as nat);
        assert(ks1.len() >= 1);
        assert(ks2.len() >= ks1.len());
    }
    Ok(Block { t, pats, k_list })
}

} // verus!
