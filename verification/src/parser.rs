//! The specification parser.
//!
//! Grammar, over bytes:
//! ```text
//! Specification   := Ident "," Ident "," { StateBlock "," }
//! StateBlock      := Ident "{" { TransitionEdge "," } "}"
//! TransitionEdge  := Ident { "|" Ident } "=>" Ident { "|" Ident }
//! ```
//! Both repetition lists allow an optional trailing separator and may be
//! empty; alternative lists are non-empty.  Whitespace separates tokens
//! freely.  Parsing is total and deterministic: the executable parser
//! returns the abstract syntax tree exactly when `spec_parse` does.

use vstd::prelude::*;
use crate::ast::{BlockV, EdgeV, SpecV, Specification, StateBlock, TransitionEdge};
use crate::idents::seq_views;
use vstd::slice::{slice_subrange, slice_to_vec};

verus! {

broadcast use crate::idents::lemma_seq_views_push, crate::idents::lemma_seq_views_add;

/// A malformed specification: the offending byte (`None` at end of input)
/// and its position.
#[derive(Debug)]
pub struct SyntaxError {
    pub pos: usize,
    pub found: Option<u8>,
}

pub open spec fn is_ws(c: u8) -> bool {
    c == 32 || c == 9 || c == 10 || c == 13
}

pub open spec fn is_ident_start(c: u8) -> bool {
    (97 <= c <= 122) || (65 <= c <= 90) || c == 95
}

pub open spec fn is_ident_char(c: u8) -> bool {
    is_ident_start(c) || (48 <= c <= 57)
}

/// The first position at or after `i` holding no whitespace.
pub open spec fn ws_end(s: Seq<u8>, i: int) -> int
    decreases s.len() - i,
{
    if i < s.len() && is_ws(s[i]) {
        ws_end(s, i + 1)
    } else {
        i
    }
}

/// The first position at or after `i` holding no identifier byte.
pub open spec fn ident_end(s: Seq<u8>, i: int) -> int
    decreases s.len() - i,
{
    if i < s.len() && is_ident_char(s[i]) {
        ident_end(s, i + 1)
    } else {
        i
    }
}

/// The identifier starting at `i` (after whitespace), and the position
/// just past it.
pub open spec fn ident_at(s: Seq<u8>, i: int) -> Option<(Seq<u8>, int)> {
    let j = ws_end(s, i);
    if j < s.len() && is_ident_start(s[j]) {
        let k = ident_end(s, j);
        Some((s.subrange(j, k), k))
    } else {
        None
    }
}

/// The position just past the punctuation byte `c` at `i` (after
/// whitespace).
pub open spec fn punct_at(s: Seq<u8>, i: int, c: u8) -> Option<int> {
    let j = ws_end(s, i);
    if j < s.len() && s[j] == c {
        Some(j + 1)
    } else {
        None
    }
}

/// The position just past the arrow token at `i` (after whitespace).
pub open spec fn arrow_at(s: Seq<u8>, i: int) -> Option<int> {
    let j = ws_end(s, i);
    if j + 2 <= s.len() && s[j] == 61 && s[j + 1] == 62 {
        Some(j + 2)
    } else {
        None
    }
}

/// A non-empty `|`-separated list of identifiers.
pub open spec fn alts_at(s: Seq<u8>, i: int) -> Option<(Seq<Seq<u8>>, int)>
    decreases s.len() - i,
{
    match ident_at(s, i) {
        None => None,
        Some((id, j)) => match punct_at(s, j, 124) {
            None => Some((seq![id], j)),
            Some(k) => if i < k <= s.len() {
                match alts_at(s, k) {
                    None => None,
                    Some((rest, m)) => Some((seq![id] + rest, m)),
                }
            } else {
                None
            },
        },
    }
}

/// One transition edge: action alternatives, an arrow, target alternatives.
pub open spec fn edge_at(s: Seq<u8>, i: int) -> Option<(EdgeV, int)> {
    match alts_at(s, i) {
        None => None,
        Some((actions, j)) => match arrow_at(s, j) {
            None => None,
            Some(k) => match alts_at(s, k) {
                None => None,
                Some((targets, m)) => Some((EdgeV { actions, targets }, m)),
            },
        },
    }
}

/// A `,`-terminated edge list; ends at the position of the closing brace,
/// which is not consumed.
pub open spec fn edges_at(s: Seq<u8>, i: int) -> Option<(Seq<EdgeV>, int)>
    decreases s.len() - i,
{
    let j = ws_end(s, i);
    if j < s.len() && s[j] == 125 {
        Some((seq![], j))
    } else {
        match edge_at(s, i) {
            None => None,
            Some((e, k)) => {
                let m = ws_end(s, k);
                if m < s.len() && s[m] == 125 {
                    Some((seq![e], m))
                } else {
                    match punct_at(s, k, 44) {
                        None => None,
                        Some(p) => if i < p <= s.len() {
                            match edges_at(s, p) {
                                None => None,
                                Some((rest, q)) => Some((seq![e] + rest, q)),
                            }
                        } else {
                            None
                        },
                    }
                }
            },
        }
    }
}

/// One state block: an identifier and its braced edge list.
pub open spec fn block_at(s: Seq<u8>, i: int) -> Option<(BlockV, int)> {
    match ident_at(s, i) {
        None => None,
        Some((state, j)) => match punct_at(s, j, 123) {
            None => None,
            Some(k) => match edges_at(s, k) {
                None => None,
                Some((edges, m)) => Some((BlockV { state, edges }, m + 1)),
            },
        },
    }
}

/// A `,`-terminated block list, ending at the end of input.
pub open spec fn blocks_at(s: Seq<u8>, i: int) -> Option<(Seq<BlockV>, int)>
    decreases s.len() - i,
{
    let j = ws_end(s, i);
    if j >= s.len() {
        Some((seq![], j))
    } else {
        match block_at(s, i) {
            None => None,
            Some((b, k)) => {
                let m = ws_end(s, k);
                if m >= s.len() {
                    Some((seq![b], m))
                } else {
                    match punct_at(s, k, 44) {
                        None => None,
                        Some(p) => if i < p <= s.len() {
                            match blocks_at(s, p) {
                                None => None,
                                Some((rest, q)) => Some((seq![b] + rest, q)),
                            }
                        } else {
                            None
                        },
                    }
                }
            },
        }
    }
}

/// What a specification text denotes: the state-union name, the action-union
/// name, and the declared blocks, when the text conforms to the grammar.
pub open spec fn spec_parse(s: Seq<u8>) -> Option<SpecV> {
    match ident_at(s, 0) {
        None => None,
        Some((state_name, i)) => match punct_at(s, i, 44) {
            None => None,
            Some(j) => match ident_at(s, j) {
                None => None,
                Some((action_name, k)) => match punct_at(s, k, 44) {
                    None => None,
                    Some(m) => match blocks_at(s, m) {
                        None => None,
                        Some((blocks, _)) => Some(SpecV { state_name, action_name, blocks }),
                    },
                },
            },
        },
    }
}

fn is_ws_x(c: u8) -> (r: bool)
    ensures
        r == is_ws(c),
{
    c == 32 || c == 9 || c == 10 || c == 13
}

fn is_ident_start_x(c: u8) -> (r: bool)
    ensures
        r == is_ident_start(c),
{
    (97 <= c && c <= 122) || (65 <= c && c <= 90) || c == 95
}

fn is_ident_char_x(c: u8) -> (r: bool)
    ensures
        r == is_ident_char(c),
{
    is_ident_start_x(c) || (48 <= c && c <= 57)
}

fn skip_ws(s: &[u8], i: usize) -> (r: usize)
    requires
        i <= s.len(),
    ensures
        r == ws_end(s@, i as int),
        i <= r <= s.len(),
    decreases s.len() - i,
{
    if i < s.len() && is_ws_x(s[i]) {
        skip_ws(s, i + 1)
    } else {
        i
    }
}

fn scan_ident_end(s: &[u8], i: usize) -> (r: usize)
    requires
        i <= s.len(),
    ensures
        r == ident_end(s@, i as int),
        i <= r <= s.len(),
    decreases s.len() - i,
{
    if i < s.len() && is_ident_char_x(s[i]) {
        scan_ident_end(s, i + 1)
    } else {
        i
    }
}

proof fn lemma_ident_end_lb(s: Seq<u8>, i: int)
    requires
        i <= s.len(),
    ensures
        ident_end(s, i) >= i,
    decreases s.len() - i,
{
    if i < s.len() && is_ident_char(s[i]) {
        lemma_ident_end_lb(s, i + 1);
    }
}

/// The error for an unexpected byte (or end of input) at `i`.
fn syntax_error(s: &[u8], i: usize) -> (e: SyntaxError)
    requires
        i <= s.len(),
    ensures
        e.pos == i,
{
    SyntaxError { pos: i, found: if i < s.len() { Some(s[i]) } else { None } }
}

fn take_ident(s: &[u8], i: usize) -> (r: Result<(Vec<u8>, usize), SyntaxError>)
    requires
        i <= s.len(),
    ensures
        match r {
            Result::Ok((id, j)) => ident_at(s@, i as int) == Some((id@, j as int)) && i < j
                <= s.len(),
            Result::Err(e) => ident_at(s@, i as int) is None && e.pos <= s.len(),
        },
{
    let j = skip_ws(s, i);
    if j < s.len() && is_ident_start_x(s[j]) {
        let k = scan_ident_end(s, j);
        proof {
            lemma_ident_end_lb(s@, j as int + 1);
            assert(ident_end(s@, j as int) == ident_end(s@, j as int + 1));
        }
        let id = slice_to_vec(slice_subrange(s, j, k));
        Ok((id, k))
    } else {
        Err(syntax_error(s, j))
    }
}

fn take_punct(s: &[u8], i: usize, c: u8) -> (r: Result<usize, SyntaxError>)
    requires
        i <= s.len(),
    ensures
        match r {
            Result::Ok(j) => punct_at(s@, i as int, c) == Some(j as int) && i < j <= s.len(),
            Result::Err(e) => punct_at(s@, i as int, c) is None && e.pos <= s.len(),
        },
{
    let j = skip_ws(s, i);
    if j < s.len() && s[j] == c {
        Ok(j + 1)
    } else {
        Err(syntax_error(s, j))
    }
}

fn take_arrow(s: &[u8], i: usize) -> (r: Result<usize, SyntaxError>)
    requires
        i <= s.len(),
    ensures
        match r {
            Result::Ok(j) => arrow_at(s@, i as int) == Some(j as int) && i < j <= s.len(),
            Result::Err(e) => arrow_at(s@, i as int) is None && e.pos <= s.len(),
        },
{
    let j = skip_ws(s, i);
    if j < s.len() && s[j] == 61 {
        if j + 1 < s.len() && s[j + 1] == 62 {
            return Ok(j + 2);
        }
        Err(syntax_error(s, j))
    } else {
        Err(syntax_error(s, j))
    }
}

fn take_alts(s: &[u8], i: usize) -> (r: Result<(Vec<Vec<u8>>, usize), SyntaxError>)
    requires
        i <= s.len(),
    ensures
        match r {
            Result::Ok((v, j)) => alts_at(s@, i as int) == Some((seq_views(v@), j as int)) && i
                < j <= s.len(),
            Result::Err(e) => alts_at(s@, i as int) is None && e.pos <= s.len(),
        },
    decreases s.len() - i,
{
    match take_ident(s, i) {
        Err(e) => Err(e),
        Ok((id, j)) => {
            match take_punct(s, j, 124) {
                Err(_) => {
                    let mut v: Vec<Vec<u8>> = Vec::new();
                    let ghost idv = id@;
                    v.push(id);
                    proof {
                        assert(seq_views(v@) =~= seq![idv]);
                    }
                    Ok((v, j))
                },
                Ok(k) => {
                    match take_alts(s, k) {
                        Err(e) => Err(e),
                        Ok((mut rest, m)) => {
                            let mut v: Vec<Vec<u8>> = Vec::new();
                            let ghost idv = id@;
                            let ghost restv = seq_views(rest@);
                            v.push(id);
                            v.append(&mut rest);
                            proof {
                                assert(v@ =~= seq![].push(v@[0]) + v@.skip(1));
                                assert(seq_views(v@) =~= seq![idv] + restv);
                            }
                            Ok((v, m))
                        },
                    }
                },
            }
        },
    }
}

fn take_edge(s: &[u8], i: usize) -> (r: Result<(TransitionEdge, usize), SyntaxError>)
    requires
        i <= s.len(),
    ensures
        match r {
            Result::Ok((e, j)) => edge_at(s@, i as int) == Some((e@, j as int)) && i < j
                <= s.len(),
            Result::Err(e) => edge_at(s@, i as int) is None && e.pos <= s.len(),
        },
{
    match take_alts(s, i) {
        Err(e) => Err(e),
        Ok((actions, j)) => match take_arrow(s, j) {
            Err(e) => Err(e),
            Ok(k) => match take_alts(s, k) {
                Err(e) => Err(e),
                Ok((targets, m)) => Ok((TransitionEdge { actions, targets }, m)),
            },
        },
    }
}

fn take_edges(s: &[u8], i: usize) -> (r: Result<(Vec<TransitionEdge>, usize), SyntaxError>)
    requires
        i <= s.len(),
    ensures
        match r {
            Result::Ok((v, j)) => edges_at(s@, i as int) == Some((seq_views(v@), j as int)) && i
                <= j < s.len(),
            Result::Err(e) => edges_at(s@, i as int) is None && e.pos <= s.len(),
        },
    decreases s.len() - i,
{
    let j = skip_ws(s, i);
    if j < s.len() && s[j] == 125 {
        let v: Vec<TransitionEdge> = Vec::new();
        proof {
            assert(seq_views(v@) =~= Seq::<EdgeV>::empty());
        }
        return Ok((v, j));
    }
    match take_edge(s, i) {
        Err(e) => Err(e),
        Ok((e, k)) => {
            let m = skip_ws(s, k);
            if m < s.len() && s[m] == 125 {
                let mut v: Vec<TransitionEdge> = Vec::new();
                let ghost ev = e@;
                v.push(e);
                proof {
                    assert(seq_views(v@) =~= seq![ev]);
                }
                return Ok((v, m));
            }
            match take_punct(s, k, 44) {
                Err(err) => Err(err),
                Ok(p) => match take_edges(s, p) {
                    Err(err) => Err(err),
                    Ok((mut rest, q)) => {
                        let mut v: Vec<TransitionEdge> = Vec::new();
                        let ghost ev = e@;
                        let ghost restv = seq_views(rest@);
                        v.push(e);
                        v.append(&mut rest);
                        proof {
                            assert(seq_views(v@) =~= seq![ev] + restv);
                        }
                        Ok((v, q))
                    },
                },
            }
        },
    }
}

fn take_block(s: &[u8], i: usize) -> (r: Result<(StateBlock, usize), SyntaxError>)
    requires
        i <= s.len(),
    ensures
        match r {
            Result::Ok((b, j)) => block_at(s@, i as int) == Some((b@, j as int)) && i < j
                <= s.len(),
            Result::Err(e) => block_at(s@, i as int) is None && e.pos <= s.len(),
        },
{
    match take_ident(s, i) {
        Err(e) => Err(e),
        Ok((state, j)) => match take_punct(s, j, 123) {
            Err(e) => Err(e),
            Ok(k) => match take_edges(s, k) {
                Err(e) => Err(e),
                Ok((edges, m)) => Ok((StateBlock { state, edges }, m + 1)),
            },
        },
    }
}

fn take_blocks(s: &[u8], i: usize) -> (r: Result<(Vec<StateBlock>, usize), SyntaxError>)
    requires
        i <= s.len(),
    ensures
        match r {
            Result::Ok((v, j)) => blocks_at(s@, i as int) == Some((seq_views(v@), j as int))
                && i <= j <= s.len(),
            Result::Err(e) => blocks_at(s@, i as int) is None && e.pos <= s.len(),
        },
    decreases s.len() - i,
{
    let j = skip_ws(s, i);
    if j >= s.len() {
        let v: Vec<StateBlock> = Vec::new();
        proof {
            assert(seq_views(v@) =~= Seq::<BlockV>::empty());
        }
        return Ok((v, j));
    }
    match take_block(s, i) {
        Err(e) => Err(e),
        Ok((b, k)) => {
            let m = skip_ws(s, k);
            if m >= s.len() {
                let mut v: Vec<StateBlock> = Vec::new();
                let ghost bv = b@;
                v.push(b);
                proof {
                    assert(seq_views(v@) =~= seq![bv]);
                }
                return Ok((v, m));
            }
            match take_punct(s, k, 44) {
                Err(err) => Err(err),
                Ok(p) => match take_blocks(s, p) {
                    Err(err) => Err(err),
                    Ok((mut rest, q)) => {
                        let mut v: Vec<StateBlock> = Vec::new();
                        let ghost bv = b@;
                        let ghost restv = seq_views(rest@);
                        v.push(b);
                        v.append(&mut rest);
                        proof {
                            assert(seq_views(v@) =~= seq![bv] + restv);
                        }
                        Ok((v, q))
                    },
                },
            }
        },
    }
}

/// Parses a specification text.  Returns the abstract syntax tree exactly
/// when the text conforms to the grammar; otherwise reports the offending
/// byte and its position.  Parsing is total, deterministic and free of side
/// effects.
pub fn parse_specification(s: &[u8]) -> (r: Result<Specification, SyntaxError>)
    ensures
        match r {
            Result::Ok(sp) => spec_parse(s@) == Some(sp@),
            Result::Err(e) => spec_parse(s@) is None && e.pos <= s.len(),
        },
{
    match take_ident(s, 0) {
        Err(e) => Err(e),
        Ok((state_name, i)) => match take_punct(s, i, 44) {
            Err(e) => Err(e),
            Ok(j) => match take_ident(s, j) {
                Err(e) => Err(e),
                Ok((action_name, k)) => match take_punct(s, k, 44) {
                    Err(e) => Err(e),
                    Ok(m) => match take_blocks(s, m) {
                        Err(e) => Err(e),
                        Ok((blocks, _)) => Ok(Specification { state_name, action_name, blocks }),
                    },
                },
            },
        },
    }
}

} // verus!
