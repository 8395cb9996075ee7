//! The top-level driver logic: feed each form of a source text to the
//! evaluator in turn over one shared environment store.

use vstd::prelude::*;

use crate::env::ChainMap;
use crate::error::LispError;
use crate::eval::eval;
use crate::lexer::tokenize;
use crate::lexer::tokens_model;
use crate::lexer::TokenM;
use crate::parser::lemma_parse_spec_adv;
use crate::parser::parse;
use crate::parser::parse_spec;
use crate::sem;
use crate::sem::CellModel;
use crate::sem::Datum;

verus! {

/// What evaluating every form of a token stream yields: the values in
/// order, or the first error, with the store as the run left it.
pub open spec fn run_forms(
    ts: Seq<TokenM>,
    pos: int,
    cells: Seq<CellModel>,
    env: int,
    fuel: nat,
) -> (Result<Seq<Datum>, LispError>, Seq<CellModel>)
    decreases ts.len() - pos,
{
    if pos < 0 || pos >= ts.len() {
        (Ok(Seq::empty()), cells)
    } else {
        let p = parse_spec(ts, pos);
        match p.0 {
            Err(e) => (Err(e), cells),
            Ok(d) => if pos < p.1 <= ts.len() {
                let ev = sem::eval_model(cells, env, d, fuel);
                match ev.0 {
                    Err(e) => (Err(e), ev.1),
                    Ok(v) => {
                        let rest = run_forms(ts, p.1, ev.1, env, fuel);
                        match rest.0 {
                            Ok(vs) => (Ok(seq![v] + vs), rest.1),
                            Err(e) => (Err(e), rest.1),
                        }
                    },
                }
            } else {
                (Err(LispError::SyntaxError), cells)
            },
        }
    }
}

/// What running a whole source text yields.
pub open spec fn run_text_model(
    cs: Seq<char>,
    cells: Seq<CellModel>,
    env: int,
    fuel: nat,
) -> (Result<Seq<Datum>, LispError>, Seq<CellModel>) {
    match crate::lexer::lex_all(cs, 0) {
        Err(e) => (Err(e), cells),
        Ok(ts) => run_forms(ts, 0, cells, env, fuel),
    }
}

/// Read every form of `chars` and evaluate each in turn in environment
/// `env`, spending at most `fuel` machine steps per form; the values come
/// back in order, or the first error ends the run.
pub fn run_text(chars: &Vec<char>, heap: &mut ChainMap, env: usize, fuel: u64) -> (r: Result<
    Vec<crate::value::Value>,
    LispError,
>)
    requires
        old(heap).wf(),
    ensures
        final(heap).wf(),
        ({
            let m = run_text_model(chars@, old(heap)@, env as int, fuel as nat);
            m.1 == final(heap)@ && match r {
                Ok(vs) => m.0 == Ok::<Seq<Datum>, LispError>(sem::datum_seq(vs@)),
                Err(e) => m.0 == Err::<Seq<Datum>, LispError>(e),
            }
        }),
{
    let tokens = match tokenize(chars) {
        Ok(ts) => ts,
        Err(e) => {
            return Err(e);
        },
    };
    let ghost tsm = tokens_model(tokens@);
    let ghost cells0 = heap@;
    let len = tokens.len();
    let mut out: Vec<crate::value::Value> = Vec::new();
    let mut pos: usize = 0;
    proof {
        crate::lexer::lemma_tokens_model_index(tokens@);
    }
    while pos < len
        invariant
            heap.wf(),
            pos <= len,
            len == tokens@.len(),
            tsm == tokens_model(tokens@),
            tsm.len() == tokens@.len(),
            cells0 == old(heap)@,
            crate::lexer::lex_all(chars@, 0) == Ok::<Seq<TokenM>, LispError>(tsm),
            ({
                let rest = run_forms(tsm, pos as int, heap@, env as int, fuel as nat);
                let full = run_forms(tsm, 0, cells0, env as int, fuel as nat);
                full.1 == rest.1 && match rest.0 {
                    Ok(vs) => full.0 == Ok::<Seq<Datum>, LispError>(
                        sem::datum_seq(out@) + vs,
                    ),
                    Err(e) => full.0 == Err::<Seq<Datum>, LispError>(e),
                }
            }),
        decreases len - pos,
    {
        let ghost pos0 = pos as int;
        proof {
            lemma_parse_spec_adv(tsm, pos as int);
            sem::lemma_datum_seq_index(out@);
        }
        let form = match parse(&tokens, &mut pos) {
            Ok(v) => v,
            Err(e) => {
                return Err(e);
            },
        };
        let ghost dm = form@;
        let v = match eval(form, env, heap, fuel, false) {
            Ok(v) => v,
            Err(e) => {
                return Err(e);
            },
        };
        let ghost prev = out@;
        out.push(v);
        proof {
            assert(out@.drop_last() =~= prev);
            sem::lemma_datum_seq_index(out@);
            let restp = run_forms(tsm, pos as int, heap@, env as int, fuel as nat);
            match restp.0 {
                Ok(vs) => {
                    assert(sem::datum_seq(prev) + (seq![out@.last()@] + vs) =~= sem::datum_seq(
                        out@,
                    ) + vs);
                },
                Err(_) => {},
            }
        }
    }
    proof {
        assert(sem::datum_seq(out@) + Seq::<Datum>::empty() =~= sem::datum_seq(out@));
    }
    Ok(out)
}

} // verus!
