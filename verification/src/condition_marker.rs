//! Preprocessing pass that marks the conditions of `ProcExprIfPrefix`/`ProcExprIfThen` in
//! process specifications, so that the grammar does not have to guess them by backtracking.
//!
//! - §1: `ProcExprIfPrefix`/`ProcExprIfThen` both start by greedily parsing a full `DataExpr`,
//!   hoping to find a trailing `->`. Because `DataExpr`'s infix operators (`+`, `.`, `||`) are the
//!   same tokens `ProcExpr` uses for choice/sequence/parallel, a failed attempt walks all the way
//!   to the end of the enclosing process-expression chain before backtracking — and this is
//!   retried at every operand position, giving quadratic time on `+`/`.`/`||`-heavy
//!   specifications.
//! - §1b: once a condition and its `->` are found, the optional `<>` tail is attempted
//!   unconditionally, which on a chain of if-without-`<>` terms costs exponential time.
//!
//! [mark_process_conditions] finds, in one linear scan, every position that is genuinely the start
//! of such a condition (inserting [CONDITION_MARKER] there) and, for each one, whether it has a
//! reachable matching `<>` under the standard nearest-enclosing-if rule (inserting [ELSE_MARKER]
//! right after its `->` if so).
//!
//! Getting every edge case of "is this a genuine condition" / "does it have an else" exactly right
//! is not required for correctness: both markers are codepoints that cannot appear anywhere in
//! valid mCRL2 source and that no grammar rule other than `ProcExprIfPrefix`/`ProcExprIfThen`
//! expects, so a wrongly placed (or wrongly omitted) marker can only ever cause a hard parse error,
//! never a silently different parse.
use vstd::prelude::*;
use vstd::utf8::*;
use vstd::string::StringSliceAdditionalSpecFns;
use crate::lexical::TAB;
use crate::lexical::LF;
use crate::lexical::CR;
use crate::lexical::SPACE;
use crate::lexical::BANG;
use crate::lexical::HASH;
use crate::lexical::PERCENT;
use crate::lexical::AMP;
use crate::lexical::QUOTE;
use crate::lexical::LPAREN;
use crate::lexical::RPAREN;
use crate::lexical::STAR;
use crate::lexical::PLUS;
use crate::lexical::COMMA;
use crate::lexical::MINUS;
use crate::lexical::DOT;
use crate::lexical::SLASH;
use crate::lexical::SEMI;
use crate::lexical::LT;
use crate::lexical::EQ;
use crate::lexical::GT;
use crate::lexical::AT;
use crate::lexical::LBRACK;
use crate::lexical::RBRACK;
use crate::lexical::UNDERSCORE;
use crate::lexical::LBRACE;
use crate::lexical::PIPE;
use crate::lexical::RBRACE;
use crate::lexical::is_space;
use crate::lexical::spec_is_word_byte;
use crate::lexical::is_open_bracket;
use crate::lexical::is_close_bracket;
use crate::lexical::byte_at;
use crate::lexical::spec_skip_trivia;
use crate::lexical::spec_word_end;
use crate::lexical::spec_matches_keyword;
use crate::lexical::spec_find_matching_close;
use crate::lexical::spec_looks_like_data_expr_list;
use crate::lexical::spec_skip_binder_prefix;
use crate::lexical::whr_keyword;
use crate::lexical::spec_skip_whr;
use crate::lexical::to_usize_option;
use crate::lexical::skip_trivia;
use crate::lexical::word_end;
use crate::lexical::is_word_byte;
use crate::lexical::matches_keyword;
use crate::lexical::find_matching_close;
use crate::lexical::looks_like_data_expr_list;
use crate::lexical::skip_binder_prefix;
use crate::lexical::skip_whr;
use crate::lexical::lemma_trivia_end_bounds;
use crate::lexical::lemma_word_end_bounds;
use crate::lexical::lemma_word_end_prefix;
use crate::lexical::lemma_keyword_is_word;

verus! {

/// The marker inserted before every condition this scan finds. Taken from the Private Use Area,
/// so it cannot occur in, or be confused with, any valid mCRL2 token.
pub const CONDITION_MARKER: char = '\u{E000}';

/// The marker inserted immediately after the `->` of every condition this scan proves has a
/// reachable `<>`.
pub const ELSE_MARKER: char = '\u{E001}';

/// The number of bytes either marker occupies once UTF-8 encoded, i.e. how far every following
/// position shifts relative to the unmarked text.
pub const CONDITION_MARKER_LEN: usize = 3;

/// Which of the two markers a pending insertion is.
#[derive(Clone, Copy, Debug, PartialEq, Eq, Structural)]
pub enum Marker {
    Condition,
    Else,
}

/// One pending marker insertion: the byte offset (in the *original*, unmarked source) to splice
/// the marker at.
pub type Mark = (usize, Marker);

// ------------------------------------------------------------------------------------------------
// The scanner, as a function of the source bytes.
// ------------------------------------------------------------------------------------------------

/// `chain_start.get_or_insert(pos)`.
pub open spec fn chain_or(chain: Option<usize>, pos: int) -> Option<usize> {
    match chain {
        Some(start) => Some(start),
        None => Some(pos as usize),
    }
}

/// What one token of a process-expression region does to the scan.
pub enum Step {
    /// The region ends here.
    Stop { end: int, process_only: bool, marks: Seq<Mark> },
    /// The scan goes on at `pos` with the given state.
    Go { pos: int, chain: Option<usize>, process_only: bool, pending: Seq<usize>, marks: Seq<Mark> },
}

pub open spec fn block_keyword() -> Seq<u8> {
    seq![0x62u8, 0x6cu8, 0x6fu8, 0x63u8, 0x6bu8]
}

pub open spec fn allow_keyword() -> Seq<u8> {
    seq![0x61u8, 0x6cu8, 0x6cu8, 0x6fu8, 0x77u8]
}

pub open spec fn hide_keyword() -> Seq<u8> {
    seq![0x68u8, 0x69u8, 0x64u8, 0x65u8]
}

pub open spec fn rename_keyword() -> Seq<u8> {
    seq![0x72u8, 0x65u8, 0x6eu8, 0x61u8, 0x6du8, 0x65u8]
}

pub open spec fn comm_keyword() -> Seq<u8> {
    seq![0x63u8, 0x6fu8, 0x6du8, 0x6du8]
}

pub open spec fn sum_keyword() -> Seq<u8> {
    seq![0x73u8, 0x75u8, 0x6du8]
}

pub open spec fn dist_keyword() -> Seq<u8> {
    seq![0x64u8, 0x69u8, 0x73u8, 0x74u8]
}

pub open spec fn forall_keyword() -> Seq<u8> {
    seq![0x66u8, 0x6fu8, 0x72u8, 0x61u8, 0x6cu8, 0x6cu8]
}

pub open spec fn exists_keyword() -> Seq<u8> {
    seq![0x65u8, 0x78u8, 0x69u8, 0x73u8, 0x74u8, 0x73u8]
}

pub open spec fn lambda_keyword() -> Seq<u8> {
    seq![0x6cu8, 0x61u8, 0x6du8, 0x62u8, 0x64u8, 0x61u8]
}

pub open spec fn proc_keyword() -> Seq<u8> {
    seq![0x70u8, 0x72u8, 0x6fu8, 0x63u8]
}

pub open spec fn init_keyword() -> Seq<u8> {
    seq![0x69u8, 0x6eu8, 0x69u8, 0x74u8]
}

/// A `block`/`allow`/`hide`/`rename`/`comm` keyword at `pos`.
pub open spec fn is_shape_keyword(bytes: Seq<u8>, pos: int) -> bool {
    spec_matches_keyword(bytes, pos, block_keyword()) || spec_matches_keyword(bytes, pos, allow_keyword())
        || spec_matches_keyword(bytes, pos, hide_keyword()) || spec_matches_keyword(
        bytes,
        pos,
        rename_keyword(),
    ) || spec_matches_keyword(bytes, pos, comm_keyword())
}

/// The continuation after one token whose only effect is to move the scan on to `next`.
pub open spec fn go_on(
    next: int,
    chain: Option<usize>,
    process_only: bool,
    pending: Seq<usize>,
    marks: Seq<Mark>,
) -> Step {
    Step::Go { pos: next, chain, process_only, pending, marks }
}

/// The step `st` with `prior` marks produced before it.
pub open spec fn with_prior(st: Step, prior: Seq<Mark>) -> Step {
    match st {
        Step::Stop { end, process_only, marks } => Step::Stop { end, process_only, marks: prior + marks },
        Step::Go { pos, chain, process_only, pending, marks } => Step::Go {
            pos,
            chain,
            process_only,
            pending,
            marks: prior + marks,
        },
    }
}

/// The effect of the token at `p` (a byte that is neither a `sum`/`dist`/`forall`/`exists`/
/// `lambda` keyword nor a successfully scanned shape operator). `inner` is the scan of the
/// region right after `p`, used when `p` is a `(`.
#[verifier::opaque]
pub open spec fn token_step(
    bytes: Seq<u8>,
    p: int,
    chain: Option<usize>,
    po: bool,
    pending: Seq<usize>,
    inner: (int, bool, Seq<Mark>),
) -> Step {
    let prior = Seq::<Mark>::empty();
    let c = bytes[p];
    let stop = Step::Stop { end: p, process_only: po || chain is None, marks: prior };
    if c == LPAREN {
        match spec_find_matching_close(bytes, p) {
            None => stop,
            Some(close) => if inner.1 {
                go_on(close + 1, None, true, pending, prior + inner.2)
            } else {
                go_on(close + 1, chain_or(chain, p), po, pending, prior + inner.2)
            },
        }
    } else if c == LBRACK || c == LBRACE {
        match spec_find_matching_close(bytes, p) {
            None => stop,
            Some(close) => go_on(close + 1, chain_or(chain, p), po, pending, prior),
        }
    } else if c == SEMI || c == COMMA || c == RPAREN || c == RBRACK || c == RBRACE {
        stop
    } else if c == LT && byte_at(bytes, p + 1, LT) {
        go_on(p + 2, None, true, pending, prior)
    } else if c == LT && byte_at(bytes, p + 1, GT) {
        if pending.len() > 0 {
            go_on(p + 2, None, true, pending.drop_last(), prior.push((pending.last(), Marker::Else)))
        } else {
            go_on(p + 2, None, true, pending, prior)
        }
    } else if c == PIPE && byte_at(bytes, p + 1, PIPE) && byte_at(bytes, p + 2, UNDERSCORE) {
        go_on(p + 3, None, true, pending, prior)
    } else if c == PIPE && (byte_at(bytes, p + 1, PIPE) || byte_at(bytes, p + 1, GT)) {
        go_on(p + 2, chain, po, pending, prior)
    } else if c == PIPE {
        go_on(p + 1, None, true, pending, prior)
    } else if c == AT {
        let q = spec_skip_trivia(bytes, p + 1);
        if 0 <= q < bytes.len() && is_open_bracket(bytes[q]) {
            match spec_find_matching_close(bytes, q) {
                Some(close) => go_on(close + 1, None, true, pending, prior),
                None => Step::Stop { end: q, process_only: true, marks: prior },
            }
        } else if 0 <= q < bytes.len() && spec_is_word_byte(bytes[q]) {
            go_on(spec_word_end(bytes, q), None, true, pending, prior)
        } else {
            Step::Stop { end: q, process_only: true, marks: prior }
        }
    } else if c == MINUS && byte_at(bytes, p + 1, GT) {
        match chain {
            Some(start) => go_on(
                p + 2,
                None,
                true,
                pending.push((p + 2) as usize),
                prior.push((start, Marker::Condition)),
            ),
            None => go_on(p + 2, None, true, pending, prior),
        }
    } else if (c == BANG && !byte_at(bytes, p + 1, EQ)) || c == HASH || c == MINUS {
        go_on(p + 1, chain_or(chain, p), po, pending, prior)
    } else if c == 0x77 && spec_matches_keyword(bytes, p, whr_keyword()) {
        match spec_skip_whr(bytes, p) {
            Some(next) => go_on(next, chain, po, pending, prior),
            None => stop,
        }
    } else if (c == EQ && (byte_at(bytes, p + 1, GT) || byte_at(bytes, p + 1, EQ))) || c == BANG || (c
        == AMP && byte_at(bytes, p + 1, AMP)) || (c == LT && (byte_at(bytes, p + 1, EQ) || byte_at(
        bytes,
        p + 1,
        PIPE,
    ))) || (c == GT && byte_at(bytes, p + 1, EQ)) || (c == PLUS && byte_at(bytes, p + 1, PLUS)) {
        go_on(p + 2, chain, po, pending, prior)
    } else if c == LT || c == GT || c == PLUS || c == DOT || c == SLASH || c == STAR {
        go_on(p + 1, chain, po, pending, prior)
    } else if spec_is_word_byte(c) {
        let after_word = spec_word_end(bytes, p);
        let call_start = spec_skip_trivia(bytes, after_word);
        let started = chain_or(chain, p);
        if byte_at(bytes, call_start, LPAREN) {
            match spec_find_matching_close(bytes, call_start) {
                None => Step::Stop { end: p, process_only: po, marks: prior },
                Some(close) => if spec_looks_like_data_expr_list(bytes, call_start, close) {
                    go_on(close + 1, started, po, pending, prior)
                } else {
                    go_on(close + 1, None, po, pending, prior)
                },
            }
        } else {
            go_on(after_word, started, po, pending, prior)
        }
    } else {
        go_on(p + 1, None, po, pending, prior)
    }
}

/// The effect of the token at `p`, given the scan of the region after a `(` at `p` and the
/// result of a shape-operator scan at `p`.
#[verifier::opaque]
pub open spec fn step(
    bytes: Seq<u8>,
    p: int,
    chain: Option<usize>,
    po: bool,
    pending: Seq<usize>,
    inner: (int, bool, Seq<Mark>),
    shape: (Option<int>, Seq<Mark>),
) -> Step {
    if spec_matches_keyword(bytes, p, sum_keyword()) || spec_matches_keyword(bytes, p, dist_keyword()) {
        match spec_skip_binder_prefix(bytes, p) {
            Some(next) => go_on(next, None, true, pending, seq![]),
            None => Step::Stop { end: p, process_only: true, marks: seq![] },
        }
    } else if spec_matches_keyword(bytes, p, forall_keyword()) || spec_matches_keyword(
        bytes,
        p,
        exists_keyword(),
    ) || spec_matches_keyword(bytes, p, lambda_keyword()) {
        match spec_skip_binder_prefix(bytes, p) {
            Some(next) => go_on(next, chain_or(chain, p), po, pending, seq![]),
            None => Step::Stop { end: p, process_only: po || chain is None, marks: seq![] },
        }
    } else if is_shape_keyword(bytes, p) {
        match shape.0 {
            Some(next) => go_on(next, None, true, pending, shape.1),
            None => with_prior(token_step(bytes, p, chain, po, pending, inner), shape.1),
        }
    } else {
        token_step(bytes, p, chain, po, pending, inner)
    }
}

/// Scans one `ProcExpr`-shaped region from `pos` with the given state, up to (but not including)
/// the first top-level `;`, `,`, or unmatched closing bracket. The result is the position where it
/// stopped, whether the region is definitely not a plain `DataExpr`, and the marks it produced,
/// in the order they were found.
///
/// `chain` is the leftmost position of the run of `DataExpr`-compatible tokens ending at the
/// current position; on every `->` found while a run is open, that is where a condition marker
/// goes. `pending` holds the "just after `->`" positions of the conditions not yet matched with a
/// `<>`, most recent last; a `<>` resolves the most recent one (the nearest-enclosing-if rule).
pub open spec fn region_from(
    bytes: Seq<u8>,
    pos: int,
    chain: Option<usize>,
    po: bool,
    pending: Seq<usize>,
) -> (int, bool, Seq<Mark>)
    decreases bytes.len() - pos, 2nat,
{
    let p = spec_skip_trivia(bytes, pos);
    if pos < 0 || p < pos || p >= bytes.len() {
        (p, po || chain is None, seq![])
    } else {
        let inner = if bytes[p] == LPAREN {
            region_from(bytes, p + 1, None, false, seq![])
        } else {
            (0, false, seq![])
        };
        let shape = if is_shape_keyword(bytes, p) {
            shape_operator(bytes, p)
        } else {
            (None, seq![])
        };
        match step(bytes, p, chain, po, pending, inner, shape) {
            Step::Stop { end, process_only, marks } => (end, process_only, marks),
            Step::Go { pos: next, chain: next_chain, process_only, pending: next_pending, marks } => {
                if p < next <= bytes.len() {
                    let rest = region_from(bytes, next, next_chain, process_only, next_pending);
                    (rest.0, rest.1, marks + rest.2)
                } else {
                    (p, true, marks)
                }
            },
        }
    }
}

/// Scans a `block`/`allow`/`hide`/`rename`/`comm` call at `pos` (positioned at the keyword):
/// `keyword ~ "(" ~ <curly-braced set> ~ "," ~ ProcExpr ~ ")"`. The result is the position right
/// after the whole call (if the expected shape is there) and the marks its `ProcExpr` produced.
pub open spec fn shape_operator(bytes: Seq<u8>, pos: int) -> (Option<int>, Seq<Mark>)
    decreases bytes.len() - pos, 0nat,
{
    let i1 = spec_skip_trivia(bytes, spec_word_end(bytes, pos));
    if !byte_at(bytes, i1, LPAREN) {
        (None, seq![])
    } else {
        let i2 = spec_skip_trivia(bytes, i1 + 1);
        if !byte_at(bytes, i2, LBRACE) {
            (None, seq![])
        } else {
            match spec_find_matching_close(bytes, i2) {
                None => (None, seq![]),
                Some(close) => {
                    let i3 = spec_skip_trivia(bytes, close + 1);
                    if !byte_at(bytes, i3, COMMA) {
                        (None, seq![])
                    } else {
                        let i4 = spec_skip_trivia(bytes, i3 + 1);
                        if pos < i4 <= bytes.len() {
                            let r = region_from(bytes, i4, None, false, seq![]);
                            if byte_at(bytes, r.0, RPAREN) {
                                (Some(r.0 + 1), r.2)
                            } else {
                                (None, r.2)
                            }
                        } else {
                            (None, seq![])
                        }
                    }
                },
            }
        }
    }
}

/// The scan of a region from `pos` with a fresh state.
pub open spec fn spec_scan_expr_region(bytes: Seq<u8>, pos: int) -> (int, bool, Seq<Mark>) {
    region_from(bytes, pos, None, false, seq![])
}

/// One `ProcExpr` body from `pos`, up to and including its terminating top-level `;`.
pub open spec fn spec_scan_decl_body(bytes: Seq<u8>, pos: int) -> (int, Seq<Mark>) {
    let r = spec_scan_expr_region(bytes, pos);
    let after = spec_skip_trivia(bytes, r.0);
    if byte_at(bytes, after, SEMI) {
        (after + 1, r.2)
    } else {
        (after, r.2)
    }
}

/// Zero or more `Id ~ ("(" ~ VarsDeclList ~ ")")? ~ "=" ~ ProcExpr ~ ";"` declarations from `pos`.
pub open spec fn spec_scan_proc_spec(bytes: Seq<u8>, pos: int) -> (int, Seq<Mark>)
    decreases bytes.len() - pos,
{
    let start = spec_skip_trivia(bytes, pos);
    if !(0 <= start < bytes.len() && spec_is_word_byte(bytes[start])) {
        (start, seq![])
    } else {
        let after_name = spec_skip_trivia(bytes, spec_word_end(bytes, start));
        let after_params = if byte_at(bytes, after_name, LPAREN) {
            match spec_find_matching_close(bytes, after_name) {
                Some(close) => Some(spec_skip_trivia(bytes, close + 1)),
                None => None,
            }
        } else {
            Some(after_name)
        };
        match after_params {
            None => (start, seq![]),
            Some(a) => if !byte_at(bytes, a, EQ) {
                (start, seq![])
            } else {
                let body = spec_scan_decl_body(bytes, spec_skip_trivia(bytes, a + 1));
                if pos < body.0 <= bytes.len() {
                    let rest = spec_scan_proc_spec(bytes, body.0);
                    (rest.0, body.1 + rest.1)
                } else {
                    (body.0, body.1)
                }
            },
        }
    }
}

/// The marks of the top-level scan from `pos`: `proc`/`init` sections anywhere at bracket depth 0
/// have their bodies scanned; everything else is skipped without being inspected.
pub open spec fn spec_scan_top_level(bytes: Seq<u8>, pos: int) -> Seq<Mark>
    decreases bytes.len() - pos,
{
    let start = spec_skip_trivia(bytes, pos);
    if start < pos || pos < 0 || start >= bytes.len() {
        seq![]
    } else if is_open_bracket(bytes[start]) {
        match spec_find_matching_close(bytes, start) {
            Some(close) => if pos < close + 1 <= bytes.len() {
                spec_scan_top_level(bytes, close + 1)
            } else {
                seq![]
            },
            None => seq![],
        }
    } else if spec_is_word_byte(bytes[start]) {
        if spec_matches_keyword(bytes, start, proc_keyword()) {
            let r = spec_scan_proc_spec(bytes, spec_word_end(bytes, start));
            if pos < r.0 <= bytes.len() {
                r.1 + spec_scan_top_level(bytes, r.0)
            } else {
                r.1
            }
        } else if spec_matches_keyword(bytes, start, init_keyword()) {
            let r = spec_scan_decl_body(bytes, spec_skip_trivia(bytes, spec_word_end(bytes, start)));
            if pos < r.0 <= bytes.len() {
                r.1 + spec_scan_top_level(bytes, r.0)
            } else {
                r.1
            }
        } else {
            let next = spec_word_end(bytes, start);
            if pos < next <= bytes.len() {
                spec_scan_top_level(bytes, next)
            } else {
                seq![]
            }
        }
    } else {
        spec_scan_top_level(bytes, start + 1)
    }
}


// ------------------------------------------------------------------------------------------------
// The scanner.
// ------------------------------------------------------------------------------------------------

/// Whether a `sum` or `dist` keyword stands at `p`.
fn at_process_binder(bytes: &[u8], p: usize) -> (r: bool)
    requires
        p <= bytes@.len(),
    ensures
        r == (spec_matches_keyword(bytes@, p as int, sum_keyword()) || spec_matches_keyword(
            bytes@,
            p as int,
            dist_keyword(),
        )),
{
    let sum: [u8; 3] = [0x73, 0x75, 0x6d];
    let dist: [u8; 4] = [0x64, 0x69, 0x73, 0x74];
    assert(sum@ =~= sum_keyword());
    assert(dist@ =~= dist_keyword());
    matches_keyword(bytes, p, &sum) || matches_keyword(bytes, p, &dist)
}

/// Whether a `forall`, `exists` or `lambda` keyword stands at `p`.
fn at_data_binder(bytes: &[u8], p: usize) -> (r: bool)
    requires
        p <= bytes@.len(),
    ensures
        r == (spec_matches_keyword(bytes@, p as int, forall_keyword()) || spec_matches_keyword(
            bytes@,
            p as int,
            exists_keyword(),
        ) || spec_matches_keyword(bytes@, p as int, lambda_keyword())),
{
    let forall_kw: [u8; 6] = [0x66, 0x6f, 0x72, 0x61, 0x6c, 0x6c];
    let exists_kw: [u8; 6] = [0x65, 0x78, 0x69, 0x73, 0x74, 0x73];
    let lambda_kw: [u8; 6] = [0x6c, 0x61, 0x6d, 0x62, 0x64, 0x61];
    assert(forall_kw@ =~= forall_keyword());
    assert(exists_kw@ =~= exists_keyword());
    assert(lambda_kw@ =~= lambda_keyword());
    matches_keyword(bytes, p, &forall_kw) || matches_keyword(bytes, p, &exists_kw) || matches_keyword(
        bytes,
        p,
        &lambda_kw,
    )
}

/// Whether a `block`, `allow`, `hide`, `rename` or `comm` keyword stands at `p`.
fn at_shape_keyword(bytes: &[u8], p: usize) -> (r: bool)
    requires
        p <= bytes@.len(),
    ensures
        r == is_shape_keyword(bytes@, p as int),
{
    let block: [u8; 5] = [0x62, 0x6c, 0x6f, 0x63, 0x6b];
    let allow: [u8; 5] = [0x61, 0x6c, 0x6c, 0x6f, 0x77];
    let hide: [u8; 4] = [0x68, 0x69, 0x64, 0x65];
    let rename: [u8; 6] = [0x72, 0x65, 0x6e, 0x61, 0x6d, 0x65];
    let comm: [u8; 4] = [0x63, 0x6f, 0x6d, 0x6d];
    assert(block@ =~= block_keyword());
    assert(allow@ =~= allow_keyword());
    assert(hide@ =~= hide_keyword());
    assert(rename@ =~= rename_keyword());
    assert(comm@ =~= comm_keyword());
    matches_keyword(bytes, p, &block) || matches_keyword(bytes, p, &allow) || matches_keyword(
        bytes,
        p,
        &hide,
    ) || matches_keyword(bytes, p, &rename) || matches_keyword(bytes, p, &comm)
}

/// Whether a `whr` keyword stands at `p`.
fn at_whr(bytes: &[u8], p: usize) -> (r: bool)
    requires
        p <= bytes@.len(),
    ensures
        r == spec_matches_keyword(bytes@, p as int, whr_keyword()),
{
    let whr: [u8; 3] = [0x77, 0x68, 0x72];
    assert(whr@ =~= whr_keyword());
    matches_keyword(bytes, p, &whr)
}

/// Whether `bytes[i]` exists and equals `byte`.
fn has_byte(bytes: &[u8], i: usize, byte: u8) -> (r: bool)
    ensures
        r == byte_at(bytes@, i as int, byte),
        r ==> i < bytes.len(),
{
    i < bytes.len() && bytes[i] == byte
}

/// Scans a `block`/`allow`/`hide`/`rename`/`comm` call at `pos` (positioned at the keyword):
/// `keyword ~ "(" ~ <curly-braced set> ~ "," ~ ProcExpr ~ ")"`. The set is always `{...}`-shaped
/// and opaque; the trailing `ProcExpr` is a fresh nested region, scanned recursively. Returns the
/// position right after the whole call, or `None` if the expected shape is not there.
fn scan_shape_operator(bytes: &[u8], pos: usize, marks: &mut Vec<Mark>) -> (r: Option<usize>)
    requires
        pos <= bytes@.len(),
    ensures
        r == to_usize_option(shape_operator(bytes@, pos as int).0),
        shape_operator(bytes@, pos as int).0 matches Some(n) ==> r is Some && n == r->0 as int,
        final(marks)@ == old(marks)@ + shape_operator(bytes@, pos as int).1,
        r matches Some(n) ==> pos < n <= bytes@.len(),
    decreases bytes@.len() - pos, 0nat,
{
    let mut i = skip_trivia(bytes, word_end(bytes, pos));
    if !has_byte(bytes, i, LPAREN) {
        assert(old(marks)@ + seq![] =~= old(marks)@);
        return None;
    }
    i = skip_trivia(bytes, i + 1);
    if !has_byte(bytes, i, LBRACE) {
        assert(old(marks)@ + seq![] =~= old(marks)@);
        return None;
    }
    let close = match find_matching_close(bytes, i) {
        Some(c) => c,
        None => {
            assert(old(marks)@ + seq![] =~= old(marks)@);
            return None;
        },
    };
    i = skip_trivia(bytes, close + 1);
    if !has_byte(bytes, i, COMMA) {
        assert(old(marks)@ + seq![] =~= old(marks)@);
        return None;
    }
    i = skip_trivia(bytes, i + 1);
    let (end, _) = scan_expr_region(bytes, i, marks);
    if has_byte(bytes, end, RPAREN) {
        Some(end + 1)
    } else {
        None
    }
}

/// The effect of the token at `p` on the scan state, for every token other than a binder keyword
/// or a successfully scanned shape operator. Returns whether the region goes on, and the position
/// it goes on at (or ends at).
fn scan_token(
    bytes: &[u8],
    p: usize,
    chain_start: &mut Option<usize>,
    is_process_only: &mut bool,
    pending_ifs: &mut Vec<usize>,
    marks: &mut Vec<Mark>,
    Ghost(inner): Ghost<(int, bool, Seq<Mark>)>,
) -> (r: (bool, usize))
    requires
        p < bytes@.len(),
        inner == (if bytes@[p as int] == LPAREN {
            region_from(bytes@, p + 1, None, false, seq![])
        } else {
            (0int, false, seq![])
        }),
        forall|k: int| 0 <= k < old(pending_ifs)@.len() ==> old(pending_ifs)@[k] <= bytes@.len(),
    ensures
        match token_step(bytes@, p as int, *old(chain_start), *old(is_process_only), old(pending_ifs)@, inner) {
            Step::Stop { end, process_only, marks: m } => {
                &&& !r.0
                &&& r.1 as int == end
                &&& (*final(is_process_only) || (*final(chain_start)) is None) == process_only
                &&& final(marks)@ == old(marks)@ + m
            },
            Step::Go { pos, chain, process_only, pending, marks: m } => {
                &&& r.0
                &&& r.1 as int == pos
                &&& *final(chain_start) == chain
                &&& *final(is_process_only) == process_only
                &&& final(pending_ifs)@ == pending
                &&& final(marks)@ == old(marks)@ + m
            },
        },
        r.0 ==> p < r.1 <= bytes@.len(),
        !r.0 ==> p <= r.1 <= bytes@.len(),
        forall|k: int| 0 <= k < final(pending_ifs)@.len() ==> final(pending_ifs)@[k] <= bytes@.len(),
    decreases bytes@.len() - p, 1nat,
{
    reveal(token_step);
    let byte = bytes[p];
    if byte == LPAREN {
        match find_matching_close(bytes, p) {
            None => {
                assert(old(marks)@ + seq![] =~= old(marks)@);
                (false, p)
            },
            Some(close) => {
                let (_, inner_process_only) = scan_expr_region(bytes, p + 1, marks);
                if inner_process_only {
                    // `DataExprBrackets` requires its entire content to be a plain `DataExpr`;
                    // since it is not, whatever chain was open before these parens cannot reach
                    // past them, and this region inherits the same fact.
                    *chain_start = None;
                    *is_process_only = true;
                } else if chain_start.is_none() {
                    *chain_start = Some(p);
                }
                assert(seq![] + inner.2 =~= inner.2);
                (true, close + 1)
            },
        }
    } else if byte == LBRACK || byte == LBRACE {
        // Pure `DataExpr` content that can never itself contain a `ProcExpr` condition: always
        // skipped whole, never scanned.
        assert(old(marks)@ + seq![] =~= old(marks)@);
        match find_matching_close(bytes, p) {
            None => (false, p),
            Some(close) => {
                if chain_start.is_none() {
                    *chain_start = Some(p);
                }
                (true, close + 1)
            },
        }
    } else if byte == SEMI || byte == COMMA || byte == RPAREN || byte == RBRACK || byte == RBRACE {
        assert(old(marks)@ + seq![] =~= old(marks)@);
        (false, p)
    } else if byte == LT && has_byte(bytes, p + 1, LT) {
        // `ProcExprUntil`: process-only, the chain provably ends here.
        assert(old(marks)@ + seq![] =~= old(marks)@);
        *chain_start = None;
        *is_process_only = true;
        (true, p + 2)
    } else if byte == LT && has_byte(bytes, p + 1, GT) {
        // The else branch of a condition: closes the nearest still-open condition of this region.
        *chain_start = None;
        *is_process_only = true;
        match pending_ifs.pop() {
            Some(arrow_end) => {
                marks.push((arrow_end, Marker::Else));
                assert(old(marks)@.push((arrow_end, Marker::Else)) =~= old(marks)@ + seq![].push(
                    (arrow_end, Marker::Else),
                ));
            },
            None => {
                assert(old(marks)@ + seq![] =~= old(marks)@);
            },
        }
        (true, p + 2)
    } else if byte == PIPE && has_byte(bytes, p + 1, PIPE) && has_byte(bytes, p + 2, UNDERSCORE) {
        // `ProcExprLeftMerge`.
        assert(old(marks)@ + seq![] =~= old(marks)@);
        *chain_start = None;
        *is_process_only = true;
        (true, p + 3)
    } else if byte == PIPE && (has_byte(bytes, p + 1, PIPE) || has_byte(bytes, p + 1, GT)) {
        // `DataExprDisj` / `ProcExprParallel`, or `DataExprCons`: continues the chain.
        assert(old(marks)@ + seq![] =~= old(marks)@);
        (true, p + 2)
    } else if byte == PIPE {
        // `ProcExprSync`.
        assert(old(marks)@ + seq![] =~= old(marks)@);
        *chain_start = None;
        *is_process_only = true;
        (true, p + 1)
    } else if byte == AT {
        // `ProcExprAt`'s operand is one `DataExprUnit` atom, with no chain carried through it.
        assert(old(marks)@ + seq![] =~= old(marks)@);
        *is_process_only = true;
        let q = skip_trivia(bytes, p + 1);
        if q < bytes.len() && (bytes[q] == LPAREN || bytes[q] == LBRACK || bytes[q] == LBRACE) {
            match find_matching_close(bytes, q) {
                Some(close) => {
                    *chain_start = None;
                    (true, close + 1)
                },
                None => (false, q),
            }
        } else if q < bytes.len() && is_word_byte(bytes[q]) {
            *chain_start = None;
            let next = word_end(bytes, q);
            proof {
                lemma_word_end_prefix(bytes@, q as int, 1);
            }
            (true, next)
        } else {
            (false, q)
        }
    } else if byte == MINUS && has_byte(bytes, p + 1, GT) {
        // A condition's `->`: the open chain, if any, is the condition.
        *is_process_only = true;
        match *chain_start {
            Some(start) => {
                marks.push((start, Marker::Condition));
                pending_ifs.push(p + 2);
                assert(old(marks)@.push((start, Marker::Condition)) =~= old(marks)@ + seq![].push(
                    (start, Marker::Condition),
                ));
            },
            None => {
                assert(old(marks)@ + seq![] =~= old(marks)@);
            },
        }
        *chain_start = None;
        (true, p + 2)
    } else if (byte == BANG && !has_byte(bytes, p + 1, EQ)) || byte == HASH || byte == MINUS {
        // `DataExprPrefix`: belongs to whatever chain was already open, or starts one.
        assert(old(marks)@ + seq![] =~= old(marks)@);
        if chain_start.is_none() {
            *chain_start = Some(p);
        }
        (true, p + 1)
    } else if byte == 0x77 && at_whr(bytes, p) {
        // `whr AssignmentList end`: opaque, and neither starts nor ends a chain.
        assert(old(marks)@ + seq![] =~= old(marks)@);
        match skip_whr(bytes, p) {
            Some(next) => {
                proof {
                    let whr = whr_keyword();
                    assert(whr[0] == 0x77u8 && whr[1] == 0x68u8 && whr[2] == 0x72u8);
                    lemma_keyword_is_word(bytes@, p as int, whr);
                    lemma_word_end_prefix(bytes@, p as int, 3);
                }
                (true, next)
            },
            None => (false, p),
        }
    } else if (byte == EQ && (has_byte(bytes, p + 1, GT) || has_byte(bytes, p + 1, EQ))) || byte == BANG
        || (byte == AMP && has_byte(bytes, p + 1, AMP)) || (byte == LT && (has_byte(bytes, p + 1, EQ)
        || has_byte(bytes, p + 1, PIPE))) || (byte == GT && has_byte(bytes, p + 1, EQ)) || (byte
        == PLUS && has_byte(bytes, p + 1, PLUS)) {
        // Two-byte binary `DataExprInfix` tokens: continue whatever chain was already open.
        assert(old(marks)@ + seq![] =~= old(marks)@);
        (true, p + 2)
    } else if byte == LT || byte == GT || byte == PLUS || byte == DOT || byte == SLASH || byte == STAR {
        // One-byte binary tokens, `+`/`.` shared with `ProcExprChoice`/`ProcExprSeq`.
        assert(old(marks)@ + seq![] =~= old(marks)@);
        (true, p + 1)
    } else if is_word_byte(byte) {
        assert(old(marks)@ + seq![] =~= old(marks)@);
        let after_word = word_end(bytes, p);
        proof {
            lemma_word_end_prefix(bytes@, p as int, 1);
        }
        let call_start = skip_trivia(bytes, after_word);
        if chain_start.is_none() {
            *chain_start = Some(p);
        }
        if has_byte(bytes, call_start, LPAREN) {
            match find_matching_close(bytes, call_start) {
                None => (false, p),
                Some(close) => {
                    // An empty or assignment-shaped argument list is valid `Action`/`ProcExprId`
                    // syntax that `DataExprApplication` rejects, so no chain reaches past it.
                    if !looks_like_data_expr_list(bytes, call_start, close) {
                        *chain_start = None;
                    }
                    (true, close + 1)
                },
            }
        } else {
            (true, after_word)
        }
    } else {
        // Not a token this scanner specifically recognizes: a hard chain boundary.
        assert(old(marks)@ + seq![] =~= old(marks)@);
        *chain_start = None;
        (true, p + 1)
    }
}

/// The effect of the token at `p` on the scan state: a `sum`/`dist`/`forall`/`exists`/`lambda`
/// binder prefix, a shape operator, or any other token. Returns whether the region goes on, and
/// the position it goes on at (or ends at).
fn scan_step(
    bytes: &[u8],
    p: usize,
    chain_start: &mut Option<usize>,
    is_process_only: &mut bool,
    pending_ifs: &mut Vec<usize>,
    marks: &mut Vec<Mark>,
    Ghost(inner): Ghost<(int, bool, Seq<Mark>)>,
    Ghost(shape): Ghost<(Option<int>, Seq<Mark>)>,
) -> (r: (bool, usize))
    requires
        p < bytes@.len(),
        inner == (if bytes@[p as int] == LPAREN {
            region_from(bytes@, p + 1, None, false, seq![])
        } else {
            (0int, false, seq![])
        }),
        shape == (if is_shape_keyword(bytes@, p as int) {
            shape_operator(bytes@, p as int)
        } else {
            (None, seq![])
        }),
        forall|k: int| 0 <= k < old(pending_ifs)@.len() ==> old(pending_ifs)@[k] <= bytes@.len(),
    ensures
        match step(bytes@, p as int, *old(chain_start), *old(is_process_only), old(pending_ifs)@, inner, shape) {
            Step::Stop { end, process_only, marks: m } => {
                &&& !r.0
                &&& r.1 as int == end
                &&& (*final(is_process_only) || (*final(chain_start)) is None) == process_only
                &&& final(marks)@ == old(marks)@ + m
            },
            Step::Go { pos, chain, process_only, pending, marks: m } => {
                &&& r.0
                &&& r.1 as int == pos
                &&& *final(chain_start) == chain
                &&& *final(is_process_only) == process_only
                &&& final(pending_ifs)@ == pending
                &&& final(marks)@ == old(marks)@ + m
            },
        },
        r.0 ==> p < r.1 <= bytes@.len(),
        !r.0 ==> p <= r.1 <= bytes@.len(),
        forall|k: int| 0 <= k < final(pending_ifs)@.len() ==> final(pending_ifs)@[k] <= bytes@.len(),
    decreases bytes@.len() - p, 2nat,
{
    reveal(step);
    if at_process_binder(bytes, p) {
        // `ProcExprSum`/`ProcExprDist` are process-only: whatever chain was open before them is
        // unreachable from here.
        assert(old(marks)@ + seq![] =~= old(marks)@);
        *is_process_only = true;
        match skip_binder_prefix(bytes, p) {
            Some(next) => {
                *chain_start = None;
                (true, next)
            },
            None => (false, p),
        }
    } else if at_data_binder(bytes, p) {
        // `DataExprForall`/`Exists`/`Lambda` belong to whatever `DataExpr` chain was already open,
        // or start one.
        assert(old(marks)@ + seq![] =~= old(marks)@);
        match skip_binder_prefix(bytes, p) {
            Some(next) => {
                if chain_start.is_none() {
                    *chain_start = Some(p);
                }
                (true, next)
            },
            None => (false, p),
        }
    } else {
        let mut shaped: Option<usize> = None;
        if at_shape_keyword(bytes, p) {
            shaped = scan_shape_operator(bytes, p, marks);
        } else {
            assert(marks@ =~= old(marks)@ + shape.1);
        }
        match shaped {
            Some(next) => {
                // `block(...)`/etc. is never itself a `DataExpr`, so it cannot continue a chain.
                *is_process_only = true;
                *chain_start = None;
                (true, next)
            },
            None => {
                let ghost mid = marks@;
                let r = scan_token(bytes, p, chain_start, is_process_only, pending_ifs, marks, Ghost(inner));
                proof {
                    let t = token_step(bytes@, p as int, *old(chain_start), *old(is_process_only), old(pending_ifs)@, inner);
                    let m = match t {
                        Step::Stop { marks, .. } => marks,
                        Step::Go { marks, .. } => marks,
                    };
                    assert(marks@ =~= old(marks)@ + (shape.1 + m));
                    if !is_shape_keyword(bytes@, p as int) {
                        assert(shape.1 + m =~= m);
                    }
                }
                r
            },
        }
    }
}

/// Scans one `ProcExpr`/`ProcExprNoIf`-shaped region starting at `from`, up to (but not
/// including) the first top-level `;`, `,`, or unmatched closing bracket — i.e. up to whatever ends
/// the enclosing construct — recursing into nested `ProcExpr`s (bare parentheses, and the last
/// argument of `block`/`allow`/`hide`/`rename`/`comm`) along the way. Returns the position where
/// it stopped, and whether this region is *definitely* not representable as a plain `DataExpr`.
///
/// `chain_start` tracks the leftmost position of the run of `DataExpr`-compatible tokens (atoms
/// joined by `+`/`.`/`||`/…) ending at the current position — exactly what `DataExpr`'s own
/// possessive infix loop would have consumed, greedily, starting from wherever the run began. On
/// every `->` found while some run is open, `chain_start` is exactly the position
/// `ProcExprIfPrefix`/`ProcExprIfThen` would need to be attempted from to reach it, so that is
/// where the marker goes.
///
/// `pending_ifs` holds the "just after `->`" position of every condition found so far *in this
/// region* that has not yet been matched with a `<>`, most-recent last; a bare `<>` resolves the
/// most recent one. Entries left unresolved when the region ends are dropped.
fn scan_expr_region(bytes: &[u8], from: usize, marks: &mut Vec<Mark>) -> (r: (usize, bool))
    requires
        from <= bytes@.len(),
    ensures
        r.0 as int == spec_scan_expr_region(bytes@, from as int).0,
        r.1 == spec_scan_expr_region(bytes@, from as int).1,
        final(marks)@ == old(marks)@ + spec_scan_expr_region(bytes@, from as int).2,
        from <= r.0 <= bytes@.len(),
        marks_placed(bytes@, spec_scan_expr_region(bytes@, from as int).2, from as int),
        count_marker(spec_scan_expr_region(bytes@, from as int).2, Marker::Else) <= count_marker(
            spec_scan_expr_region(bytes@, from as int).2,
            Marker::Condition,
        ),
    decreases bytes@.len() - from, 3nat,
{
    let length = bytes.len();
    proof {
        assert(bytes@.len() == length);
        law_region_marks_placed(bytes@, from as int);
    }
    let ghost start_marks = marks@;
    let ghost mut acc: Seq<Mark> = seq![];
    let mut pos = from;
    let mut chain_start: Option<usize> = None;
    let mut is_process_only = false;
    let mut pending_ifs: Vec<usize> = Vec::new();
    assert(start_marks + acc =~= start_marks);

    loop
        invariant
            from <= pos <= bytes@.len(),
            start_marks == old(marks)@,
            marks@ == start_marks + acc,
            region_from(bytes@, pos as int, chain_start, is_process_only, pending_ifs@).0
                == spec_scan_expr_region(bytes@, from as int).0,
            region_from(bytes@, pos as int, chain_start, is_process_only, pending_ifs@).1
                == spec_scan_expr_region(bytes@, from as int).1,
            acc + region_from(bytes@, pos as int, chain_start, is_process_only, pending_ifs@).2
                == spec_scan_expr_region(bytes@, from as int).2,
            forall|k: int| 0 <= k < pending_ifs@.len() ==> pending_ifs@[k] <= bytes@.len(),
            marks_placed(bytes@, spec_scan_expr_region(bytes@, from as int).2, from as int),
            count_marker(spec_scan_expr_region(bytes@, from as int).2, Marker::Else) <= count_marker(
                spec_scan_expr_region(bytes@, from as int).2,
                Marker::Condition,
            ),
        decreases bytes@.len() - pos,
    {
        let ghost pos0 = pos;
        let ghost marks0 = marks@;
        let p = skip_trivia(bytes, pos);
        if p >= bytes.len() {
            assert(acc + seq![] =~= acc);
            return (p, is_process_only || chain_start.is_none());
        }
        let ghost inner = if bytes@[p as int] == LPAREN {
            region_from(bytes@, p + 1, None, false, seq![])
        } else {
            (0int, false, seq![])
        };
        let ghost shape = if is_shape_keyword(bytes@, p as int) {
            shape_operator(bytes@, p as int)
        } else {
            (None, seq![])
        };
        let stepped = scan_step(
            bytes,
            p,
            &mut chain_start,
            &mut is_process_only,
            &mut pending_ifs,
            marks,
            Ghost(inner),
            Ghost(shape),
        );
        if !stepped.0 {
            let ghost added = marks@.subrange(marks0.len() as int, marks@.len() as int);
            assert(marks@ =~= marks0 + added);
            assert(marks@ =~= start_marks + (acc + added));
            return (stepped.1, is_process_only || chain_start.is_none());
        }
        pos = stepped.1;
        proof {
            let added = marks@.subrange(marks0.len() as int, marks@.len() as int);
            assert(marks@ == marks0 + added);
            acc = acc + added;
            assert(marks@ =~= start_marks + acc);
        }
    }
}


/// Scans one `ProcExpr` body starting at `pos`, up to (and including) its terminating top-level
/// `;`. Returns the position right after the `;`, or right where it stopped if none is found.
fn scan_decl_body(bytes: &[u8], pos: usize, marks: &mut Vec<Mark>) -> (r: usize)
    requires
        pos <= bytes@.len(),
    ensures
        r as int == spec_scan_decl_body(bytes@, pos as int).0,
        final(marks)@ == old(marks)@ + spec_scan_decl_body(bytes@, pos as int).1,
        pos <= r <= bytes@.len(),
{
    let (end, _) = scan_expr_region(bytes, pos, marks);
    let after = skip_trivia(bytes, end);
    if has_byte(bytes, after, SEMI) {
        after + 1
    } else {
        after
    }
}

/// Whether a `proc` keyword stands at `p`.
fn at_proc(bytes: &[u8], p: usize) -> (r: bool)
    requires
        p <= bytes@.len(),
    ensures
        r == spec_matches_keyword(bytes@, p as int, proc_keyword()),
{
    let proc_kw: [u8; 4] = [0x70, 0x72, 0x6f, 0x63];
    assert(proc_kw@ =~= proc_keyword());
    matches_keyword(bytes, p, &proc_kw)
}

/// Whether an `init` keyword stands at `p`.
fn at_init(bytes: &[u8], p: usize) -> (r: bool)
    requires
        p <= bytes@.len(),
    ensures
        r == spec_matches_keyword(bytes@, p as int, init_keyword()),
{
    let init_kw: [u8; 4] = [0x69, 0x6e, 0x69, 0x74];
    assert(init_kw@ =~= init_keyword());
    matches_keyword(bytes, p, &init_kw)
}

/// Scans zero or more `Id ~ ("(" ~ VarsDeclList ~ ")")? ~ "=" ~ ProcExpr ~ ";"` declarations
/// starting at `from` (right after the `proc` keyword), stopping cleanly the first time what
/// follows does not look like another one.
fn scan_proc_spec(bytes: &[u8], from: usize, marks: &mut Vec<Mark>) -> (r: usize)
    requires
        from <= bytes@.len(),
    ensures
        r as int == spec_scan_proc_spec(bytes@, from as int).0,
        final(marks)@ == old(marks)@ + spec_scan_proc_spec(bytes@, from as int).1,
        from <= r <= bytes@.len(),
{
    let ghost mut acc: Seq<Mark> = seq![];
    let mut pos = from;
    assert(old(marks)@ + acc =~= old(marks)@);
    loop
        invariant
            from <= pos <= bytes@.len(),
            marks@ == old(marks)@ + acc,
            spec_scan_proc_spec(bytes@, pos as int).0 == spec_scan_proc_spec(bytes@, from as int).0,
            acc + spec_scan_proc_spec(bytes@, pos as int).1 == spec_scan_proc_spec(bytes@, from as int).1,
        decreases bytes@.len() - pos,
    {
        let ghost marks0 = marks@;
        let ghost pos0 = pos;
        let start = skip_trivia(bytes, pos);
        if !(start < bytes.len() && is_word_byte(bytes[start])) {
            assert(acc + seq![] =~= acc);
            return start;
        }
        let mut after_name = word_end(bytes, start);
        after_name = skip_trivia(bytes, after_name);
        if has_byte(bytes, after_name, LPAREN) {
            after_name = match find_matching_close(bytes, after_name) {
                Some(close) => skip_trivia(bytes, close + 1),
                None => {
                    assert(acc + seq![] =~= acc);
                    return start;
                },
            };
        }
        if !has_byte(bytes, after_name, EQ) {
            // Not another `ProcDecl` (likely the next top-level section's keyword): stop here and
            // let the top-level scan re-dispatch from `start`.
            assert(acc + seq![] =~= acc);
            return start;
        }
        let body_start = skip_trivia(bytes, after_name + 1);
        pos = scan_decl_body(bytes, body_start, marks);
        proof {
            let added = marks@.subrange(marks0.len() as int, marks@.len() as int);
            assert(marks@ =~= marks0 + added);
            assert(spec_scan_proc_spec(bytes@, pos0 as int).1 =~= added + spec_scan_proc_spec(bytes@, pos as int).1);
            assert(acc + added + spec_scan_proc_spec(bytes@, pos as int).1 =~= acc + (added + spec_scan_proc_spec(bytes@, pos as int).1));
            acc = acc + added;
            assert(marks@ =~= old(marks)@ + acc);
        }
    }
}

/// The top-level scan: finds `proc`/`init` sections (the only places `ProcExpr` occurs) anywhere
/// at bracket depth 0 and hands their bodies to [scan_expr_region]. Everything else is skipped
/// without being inspected.
fn scan_top_level(bytes: &[u8], marks: &mut Vec<Mark>)
    ensures
        final(marks)@ == old(marks)@ + spec_scan_top_level(bytes@, 0),
{
    let ghost mut acc: Seq<Mark> = seq![];
    let mut pos: usize = 0;
    assert(old(marks)@ + acc =~= old(marks)@);
    while pos < bytes.len()
        invariant
            pos <= bytes@.len(),
            marks@ == old(marks)@ + acc,
            acc + spec_scan_top_level(bytes@, pos as int) == spec_scan_top_level(bytes@, 0),
        decreases bytes@.len() - pos,
    {
        let ghost marks0 = marks@;
        let ghost pos0 = pos;
        let start = skip_trivia(bytes, pos);
        if start >= bytes.len() {
            assert(acc + seq![] =~= acc);
            return;
        }
        let byte = bytes[start];
        if byte == LPAREN || byte == LBRACK || byte == LBRACE {
            pos = match find_matching_close(bytes, start) {
                Some(close) => close + 1,
                None => {
                    assert(acc + seq![] =~= acc);
                    return;
                },
            };
        } else if is_word_byte(byte) {
            proof {
                lemma_word_end_prefix(bytes@, start as int, 1);
            }
            if at_proc(bytes, start) {
                pos = scan_proc_spec(bytes, word_end(bytes, start), marks);
            } else if at_init(bytes, start) {
                // `Init = "init" ~ ProcExpr ~ ";"`: the body starts right after the keyword.
                let body_start = skip_trivia(bytes, word_end(bytes, start));
                pos = scan_decl_body(bytes, body_start, marks);
            } else {
                pos = word_end(bytes, start);
            }
        } else {
            pos = start + 1;
        }
        proof {
            let added = marks@.subrange(marks0.len() as int, marks@.len() as int);
            assert(marks@ =~= marks0 + added);
            assert(spec_scan_top_level(bytes@, pos0 as int) =~= added + spec_scan_top_level(bytes@, pos as int));
            assert(acc + added + spec_scan_top_level(bytes@, pos as int) =~= acc + (added + spec_scan_top_level(bytes@, pos as int)));
            acc = acc + added;
            assert(marks@ =~= old(marks)@ + acc);
        }
    }
    assert(acc + seq![] =~= acc);
}


// ------------------------------------------------------------------------------------------------
// How a region scan treats the tokens of a data expression.
// ------------------------------------------------------------------------------------------------

/// At `p` stands a binary operator of data expressions of two bytes: `&&`, `||` (not the process
/// operator `||_`), `==`, `!=`, `<=`, `>=`, `=>`, `++`, `|>` or `<|`.
pub open spec fn binary_data_operator(bytes: Seq<u8>, p: int) -> bool {
    &&& 0 <= p
    &&& p + 1 < bytes.len()
    &&& {
        ||| bytes[p] == AMP && bytes[p + 1] == AMP
        ||| bytes[p] == PIPE && bytes[p + 1] == PIPE && !byte_at(bytes, p + 2, UNDERSCORE)
        ||| bytes[p] == EQ && (bytes[p + 1] == EQ || bytes[p + 1] == GT)
        ||| bytes[p] == BANG && bytes[p + 1] == EQ
        ||| bytes[p] == LT && bytes[p + 1] == EQ
        ||| bytes[p] == GT && bytes[p + 1] == EQ
        ||| bytes[p] == PLUS && bytes[p + 1] == PLUS
        ||| bytes[p] == PIPE && bytes[p + 1] == GT
        ||| bytes[p] == LT && bytes[p + 1] == PIPE
    }
}

/// At `p` stands a binary operator of data expressions of one byte: `<` (none of `<=`, `<|`,
/// `<<`, `<>`), `>` (not `>=`), `+` (not `++`), `.`, `/` or `*`.
pub open spec fn unit_data_operator(bytes: Seq<u8>, p: int) -> bool {
    &&& 0 <= p < bytes.len()
    &&& {
        ||| bytes[p] == LT && !byte_at(bytes, p + 1, EQ) && !byte_at(bytes, p + 1, PIPE) && !byte_at(bytes, p + 1, LT)
            && !byte_at(bytes, p + 1, GT)
        ||| bytes[p] == GT && !byte_at(bytes, p + 1, EQ)
        ||| bytes[p] == PLUS && !byte_at(bytes, p + 1, PLUS)
        ||| bytes[p] == DOT
        ||| bytes[p] == SLASH
        ||| bytes[p] == STAR
    }
}

/// At `p` stands a prefix operator of data expressions: `!` (not `!=`), `#`, or `-` (not `->`).
pub open spec fn prefix_data_operator(bytes: Seq<u8>, p: int) -> bool {
    &&& 0 <= p < bytes.len()
    &&& {
        ||| bytes[p] == BANG && !byte_at(bytes, p + 1, EQ)
        ||| bytes[p] == HASH
        ||| bytes[p] == MINUS && !byte_at(bytes, p + 1, GT)
    }
}

/// No keyword starts at a byte other than its first.
proof fn lemma_no_keyword_at(bytes: Seq<u8>, p: int, keyword: Seq<u8>)
    requires
        0 <= p < bytes.len(),
        keyword.len() > 0,
        bytes[p] != keyword[0],
    ensures
        !spec_matches_keyword(bytes, p, keyword),
{
    if spec_matches_keyword(bytes, p, keyword) {
        assert(bytes.subrange(p, p + keyword.len())[0] == bytes[p]);
    }
}

/// No keyword of the scan starts at a byte that is no lower-case letter.
proof fn lemma_no_scan_keyword_at(bytes: Seq<u8>, p: int)
    requires
        0 <= p < bytes.len(),
        !(0x61 <= bytes[p] <= 0x7a),
    ensures
        !is_shape_keyword(bytes, p),
        !spec_matches_keyword(bytes, p, sum_keyword()),
        !spec_matches_keyword(bytes, p, dist_keyword()),
        !spec_matches_keyword(bytes, p, forall_keyword()),
        !spec_matches_keyword(bytes, p, exists_keyword()),
        !spec_matches_keyword(bytes, p, lambda_keyword()),
{
    lemma_no_keyword_at(bytes, p, block_keyword());
    lemma_no_keyword_at(bytes, p, allow_keyword());
    lemma_no_keyword_at(bytes, p, hide_keyword());
    lemma_no_keyword_at(bytes, p, rename_keyword());
    lemma_no_keyword_at(bytes, p, comm_keyword());
    lemma_no_keyword_at(bytes, p, sum_keyword());
    lemma_no_keyword_at(bytes, p, dist_keyword());
    lemma_no_keyword_at(bytes, p, forall_keyword());
    lemma_no_keyword_at(bytes, p, exists_keyword());
    lemma_no_keyword_at(bytes, p, lambda_keyword());
}

/// A binary data operator does not end a run of data tokens: scanning from the operator with a
/// run open since `start` is scanning from just after it with the same run, so that a `->` later
/// in the run marks the whole run, operands on both sides, as the condition.
pub proof fn law_data_operators_continue_the_run(
    bytes: Seq<u8>,
    p: int,
    start: usize,
    po: bool,
    pending: Seq<usize>,
)
    requires
        binary_data_operator(bytes, p),
        spec_skip_trivia(bytes, p) == p,
    ensures
        region_from(bytes, p, Some(start), po, pending) == region_from(bytes, p + 2, Some(start), po, pending),
{
    reveal(step);
    reveal(token_step);
    lemma_no_scan_keyword_at(bytes, p);
    let rest = region_from(bytes, p + 2, Some(start), po, pending);
    assert(Seq::<Mark>::empty() + rest.2 =~= rest.2);
}

/// A one-byte binary data operator does not end the run of data tokens that is open, nor start
/// one: scanning from the operator is scanning from just after it with the same run.
pub proof fn law_unit_operators_continue_the_run(
    bytes: Seq<u8>,
    p: int,
    chain: Option<usize>,
    po: bool,
    pending: Seq<usize>,
)
    requires
        unit_data_operator(bytes, p),
        spec_skip_trivia(bytes, p) == p,
    ensures
        region_from(bytes, p, chain, po, pending) == region_from(bytes, p + 1, chain, po, pending),
{
    reveal(step);
    reveal(token_step);
    lemma_no_scan_keyword_at(bytes, p);
    let rest = region_from(bytes, p + 1, chain, po, pending);
    assert(Seq::<Mark>::empty() + rest.2 =~= rest.2);
}

/// A prefix data operator belongs to the run of data tokens that is open, or starts one: scanning
/// from it is scanning from just after it with the run open since the earlier start, or since
/// the operator.
pub proof fn law_prefix_operators_join_the_run(
    bytes: Seq<u8>,
    p: int,
    chain: Option<usize>,
    po: bool,
    pending: Seq<usize>,
)
    requires
        prefix_data_operator(bytes, p),
        spec_skip_trivia(bytes, p) == p,
    ensures
        region_from(bytes, p, chain, po, pending) == region_from(bytes, p + 1, chain_or(chain, p), po, pending),
{
    reveal(step);
    reveal(token_step);
    lemma_no_scan_keyword_at(bytes, p);
    let rest = region_from(bytes, p + 1, chain_or(chain, p), po, pending);
    assert(Seq::<Mark>::empty() + rest.2 =~= rest.2);
}

/// An identifier that is no keyword and is not applied to arguments joins the run of data tokens,
/// starting it when none is open: scanning from it is scanning from its end with the run open
/// since the earlier start, or since the identifier.
pub proof fn law_identifiers_join_the_run(
    bytes: Seq<u8>,
    p: int,
    chain: Option<usize>,
    po: bool,
    pending: Seq<usize>,
)
    requires
        0 <= p < bytes.len(),
        spec_is_word_byte(bytes[p]),
        spec_skip_trivia(bytes, p) == p,
        !is_shape_keyword(bytes, p),
        !spec_matches_keyword(bytes, p, sum_keyword()),
        !spec_matches_keyword(bytes, p, dist_keyword()),
        !spec_matches_keyword(bytes, p, forall_keyword()),
        !spec_matches_keyword(bytes, p, exists_keyword()),
        !spec_matches_keyword(bytes, p, lambda_keyword()),
        !spec_matches_keyword(bytes, p, whr_keyword()),
        !byte_at(bytes, spec_skip_trivia(bytes, spec_word_end(bytes, p)), LPAREN),
    ensures
        region_from(bytes, p, chain, po, pending) == region_from(
            bytes,
            spec_word_end(bytes, p),
            chain_or(chain, p),
            po,
            pending,
        ),
{
    reveal(step);
    reveal(token_step);
    lemma_word_end_bounds(bytes, p);
    let rest = region_from(bytes, spec_word_end(bytes, p), chain_or(chain, p), po, pending);
    assert(Seq::<Mark>::empty() + rest.2 =~= rest.2);
}

/// A `->` reached with a run of data tokens open since `start` marks the run's start as the
/// condition, before any other mark of the rest of the region.
pub proof fn law_arrow_marks_the_run_start(
    bytes: Seq<u8>,
    p: int,
    start: usize,
    po: bool,
    pending: Seq<usize>,
)
    requires
        0 <= p,
        p + 1 < bytes.len(),
        bytes[p] == MINUS,
        bytes[p + 1] == GT,
        spec_skip_trivia(bytes, p) == p,
    ensures
        region_from(bytes, p, Some(start), po, pending).2.len() >= 1,
        region_from(bytes, p, Some(start), po, pending).2[0] == (start, Marker::Condition),
{
    reveal(step);
    reveal(token_step);
    lemma_no_scan_keyword_at(bytes, p);
}

// ------------------------------------------------------------------------------------------------
// Where a region scan puts its marks.
// ------------------------------------------------------------------------------------------------

/// A `->` ends right before position `q`.
pub open spec fn arrow_before(bytes: Seq<u8>, q: int) -> bool {
    2 <= q <= bytes.len() && bytes[q - 2] == MINUS && bytes[q - 1] == GT
}

/// How many of `marks` are `marker`.
pub open spec fn count_marker(marks: Seq<Mark>, marker: Marker) -> nat
    decreases marks.len(),
{
    if marks.len() == 0 {
        0
    } else {
        count_marker(marks.drop_last(), marker) + if marks.last().1 == marker {
            1nat
        } else {
            0nat
        }
    }
}

/// Every mark lies between `from` and the end of `bytes`, and every else mark right after a `->`.
pub open spec fn marks_placed(bytes: Seq<u8>, marks: Seq<Mark>, from: int) -> bool {
    forall|i: int|
        0 <= i < marks.len() ==> from <= #[trigger] marks[i].0 <= bytes.len() && (marks[i].1 == Marker::Else
            ==> arrow_before(bytes, marks[i].0 as int))
}

/// Every pending position lies at or after `from`, right after a `->`.
pub open spec fn pending_placed(bytes: Seq<u8>, pending: Seq<usize>, from: int) -> bool {
    forall|k: int| 0 <= k < pending.len() ==> from <= #[trigger] pending[k] && arrow_before(bytes, pending[k] as int)
}

/// An open run starts between `from` and the end of `bytes`.
pub open spec fn chain_placed(bytes: Seq<u8>, chain: Option<usize>, from: int) -> bool {
    chain matches Some(start) ==> from <= start <= bytes.len()
}

/// Counting is additive over concatenation.
pub proof fn lemma_count_add(a: Seq<Mark>, b: Seq<Mark>, marker: Marker)
    ensures
        count_marker(a + b, marker) == count_marker(a, marker) + count_marker(b, marker),
    decreases b.len(),
{
    if b.len() > 0 {
        lemma_count_add(a, b.drop_last(), marker);
        assert((a + b).drop_last() =~= a + b.drop_last());
    }
}

/// Placement is kept by concatenation.
proof fn lemma_placed_add(bytes: Seq<u8>, a: Seq<Mark>, b: Seq<Mark>, from: int)
    requires
        marks_placed(bytes, a, from),
        marks_placed(bytes, b, from),
    ensures
        marks_placed(bytes, a + b, from),
{
    assert forall|i: int| 0 <= i < (a + b).len() implies from <= #[trigger] (a + b)[i].0 <= bytes.len() && ((a
        + b)[i].1 == Marker::Else ==> arrow_before(bytes, (a + b)[i].0 as int)) by {
        if i < a.len() {
            assert((a + b)[i] == a[i]);
        } else {
            assert((a + b)[i] == b[i - a.len()]);
        }
    }
}

/// One token keeps the marks placed and never resolves more conditions than it has opened.
proof fn lemma_token_step_placed(
    bytes: Seq<u8>,
    p: int,
    chain: Option<usize>,
    po: bool,
    pending: Seq<usize>,
    inner: (int, bool, Seq<Mark>),
    from: int,
)
    requires
        0 <= from <= p < bytes.len() <= usize::MAX,
        pending_placed(bytes, pending, from),
        chain_placed(bytes, chain, from),
        marks_placed(bytes, inner.2, from),
        count_marker(inner.2, Marker::Else) <= count_marker(inner.2, Marker::Condition),
    ensures
        match token_step(bytes, p, chain, po, pending, inner) {
            Step::Stop { marks, .. } => marks_placed(bytes, marks, from) && count_marker(marks, Marker::Else)
                <= count_marker(marks, Marker::Condition) + pending.len(),
            Step::Go { chain: next_chain, pending: next_pending, marks, .. } => {
                &&& marks_placed(bytes, marks, from)
                &&& pending_placed(bytes, next_pending, from)
                &&& chain_placed(bytes, next_chain, from)
                &&& count_marker(marks, Marker::Else) + next_pending.len() <= count_marker(marks, Marker::Condition)
                    + pending.len()
            },
        },
{
    reveal(token_step);
    let empty = Seq::<Mark>::empty();
    assert(empty + inner.2 =~= inner.2);
    assert(count_marker(empty, Marker::Else) == 0);
    assert(count_marker(empty, Marker::Condition) == 0);
    if pending.len() > 0 {
        let last = pending.last();
        let pushed = empty.push((last, Marker::Else));
        assert(pushed.drop_last() =~= empty);
        assert(count_marker(pushed, Marker::Else) == 1);
        assert(count_marker(pushed, Marker::Condition) == 0);
        assert(pending[pending.len() - 1] == last);
        assert forall|k: int| 0 <= k < pending.drop_last().len() implies from <= #[trigger] pending.drop_last()[k]
            && arrow_before(bytes, pending.drop_last()[k] as int) by {
            assert(pending.drop_last()[k] == pending[k]);
        }
    }
    if let Some(start) = chain {
        let pushed = empty.push((start, Marker::Condition));
        assert(pushed.drop_last() =~= empty);
        assert(count_marker(pushed, Marker::Else) == 0);
        assert(count_marker(pushed, Marker::Condition) == 1);
        if byte_at(bytes, p + 1, GT) && bytes[p] == MINUS {
            let q = (p + 2) as usize;
            assert(arrow_before(bytes, q as int));
            assert forall|k: int| 0 <= k < pending.push(q).len() implies from <= #[trigger] pending.push(q)[k]
                && arrow_before(bytes, pending.push(q)[k] as int) by {
                if k < pending.len() {
                    assert(pending.push(q)[k] == pending[k]);
                }
            }
        }
    }
}

/// One step of a region scan keeps the marks placed and never resolves more conditions than it
/// has opened.
proof fn lemma_step_placed(
    bytes: Seq<u8>,
    p: int,
    chain: Option<usize>,
    po: bool,
    pending: Seq<usize>,
    inner: (int, bool, Seq<Mark>),
    shape: (Option<int>, Seq<Mark>),
    from: int,
)
    requires
        0 <= from <= p < bytes.len() <= usize::MAX,
        pending_placed(bytes, pending, from),
        chain_placed(bytes, chain, from),
        marks_placed(bytes, inner.2, from),
        count_marker(inner.2, Marker::Else) <= count_marker(inner.2, Marker::Condition),
        marks_placed(bytes, shape.1, from),
        count_marker(shape.1, Marker::Else) <= count_marker(shape.1, Marker::Condition),
    ensures
        match step(bytes, p, chain, po, pending, inner, shape) {
            Step::Stop { marks, .. } => marks_placed(bytes, marks, from) && count_marker(marks, Marker::Else)
                <= count_marker(marks, Marker::Condition) + pending.len(),
            Step::Go { chain: next_chain, pending: next_pending, marks, .. } => {
                &&& marks_placed(bytes, marks, from)
                &&& pending_placed(bytes, next_pending, from)
                &&& chain_placed(bytes, next_chain, from)
                &&& count_marker(marks, Marker::Else) + next_pending.len() <= count_marker(marks, Marker::Condition)
                    + pending.len()
            },
        },
{
    reveal(step);
    lemma_token_step_placed(bytes, p, chain, po, pending, inner, from);
    let empty = Seq::<Mark>::empty();
    assert(count_marker(empty, Marker::Else) == 0);
    assert(count_marker(empty, Marker::Condition) == 0);
    match token_step(bytes, p, chain, po, pending, inner) {
        Step::Stop { marks, .. } => {
            lemma_count_add(shape.1, marks, Marker::Else);
            lemma_count_add(shape.1, marks, Marker::Condition);
            lemma_placed_add(bytes, shape.1, marks, from);
        },
        Step::Go { marks, .. } => {
            lemma_count_add(shape.1, marks, Marker::Else);
            lemma_count_add(shape.1, marks, Marker::Condition);
            lemma_placed_add(bytes, shape.1, marks, from);
        },
    }
}

/// A region scan from `pos` keeps its marks placed at or after `from`, and resolves no more
/// conditions than it opens besides those still pending when it starts.
proof fn lemma_region_placed(
    bytes: Seq<u8>,
    pos: int,
    chain: Option<usize>,
    po: bool,
    pending: Seq<usize>,
    from: int,
)
    requires
        0 <= from <= pos,
        bytes.len() <= usize::MAX,
        pending_placed(bytes, pending, from),
        chain_placed(bytes, chain, from),
    ensures
        marks_placed(bytes, region_from(bytes, pos, chain, po, pending).2, from),
        count_marker(region_from(bytes, pos, chain, po, pending).2, Marker::Else) <= count_marker(
            region_from(bytes, pos, chain, po, pending).2,
            Marker::Condition,
        ) + pending.len(),
    decreases bytes.len() - pos, 2nat,
{
    let p = spec_skip_trivia(bytes, pos);
    let empty = Seq::<Mark>::empty();
    assert(count_marker(empty, Marker::Else) == 0);
    if pos < 0 || p < pos || p >= bytes.len() {
    } else {
        let inner = if bytes[p] == LPAREN {
            region_from(bytes, p + 1, None, false, seq![])
        } else {
            (0int, false, seq![])
        };
        if bytes[p] == LPAREN {
            lemma_region_placed(bytes, p + 1, None, false, seq![], p + 1);
        }
        let shape = if is_shape_keyword(bytes, p) {
            shape_operator(bytes, p)
        } else {
            (None, seq![])
        };
        if is_shape_keyword(bytes, p) {
            lemma_shape_placed(bytes, p);
        }
        assert(count_marker(inner.2, Marker::Else) <= count_marker(inner.2, Marker::Condition));
        assert(count_marker(shape.1, Marker::Else) <= count_marker(shape.1, Marker::Condition));
        lemma_step_placed(bytes, p, chain, po, pending, inner, shape, from);
        match step(bytes, p, chain, po, pending, inner, shape) {
            Step::Stop { .. } => {},
            Step::Go { pos: next, chain: next_chain, process_only, pending: next_pending, marks } => {
                if p < next <= bytes.len() {
                    let rest = region_from(bytes, next, next_chain, process_only, next_pending);
                    lemma_region_placed(bytes, next, next_chain, process_only, next_pending, from);
                    lemma_count_add(marks, rest.2, Marker::Else);
                    lemma_count_add(marks, rest.2, Marker::Condition);
                    lemma_placed_add(bytes, marks, rest.2, from);
                }
            },
        }
    }
}

/// The marks of a shape operator's region lie at or after its keyword, and are balanced.
proof fn lemma_shape_placed(bytes: Seq<u8>, pos: int)
    requires
        0 <= pos,
        bytes.len() <= usize::MAX,
    ensures
        marks_placed(bytes, shape_operator(bytes, pos).1, pos),
        count_marker(shape_operator(bytes, pos).1, Marker::Else) <= count_marker(
            shape_operator(bytes, pos).1,
            Marker::Condition,
        ),
    decreases bytes.len() - pos, 0nat,
{
    let empty = Seq::<Mark>::empty();
    assert(count_marker(empty, Marker::Else) == 0);
    let i1 = spec_skip_trivia(bytes, spec_word_end(bytes, pos));
    if byte_at(bytes, i1, LPAREN) {
        let i2 = spec_skip_trivia(bytes, i1 + 1);
        if byte_at(bytes, i2, LBRACE) {
            if let Some(close) = spec_find_matching_close(bytes, i2) {
                let i3 = spec_skip_trivia(bytes, close + 1);
                if byte_at(bytes, i3, COMMA) {
                    let i4 = spec_skip_trivia(bytes, i3 + 1);
                    if pos < i4 <= bytes.len() {
                        lemma_region_placed(bytes, i4, None, false, seq![], i4);
                    }
                }
            }
        }
    }
}

/// Of the marks a region scan from `from` adds, each lies between `from` and the end of the
/// source, each else marker stands right after a `->`, and there are never more else markers
/// than condition markers.
pub proof fn law_region_marks_placed(bytes: Seq<u8>, from: int)
    requires
        0 <= from <= bytes.len() <= usize::MAX,
    ensures
        marks_placed(bytes, spec_scan_expr_region(bytes, from).2, from),
        count_marker(spec_scan_expr_region(bytes, from).2, Marker::Else) <= count_marker(
            spec_scan_expr_region(bytes, from).2,
            Marker::Condition,
        ),
{
    lemma_region_placed(bytes, from, None, false, seq![], from);
}

// ------------------------------------------------------------------------------------------------
// Ordering the marks, and splicing them into the source.
// ------------------------------------------------------------------------------------------------

/// The order of two markers at the same position: the condition marker comes first.
pub open spec fn marker_rank(marker: Marker) -> int {
    match marker {
        Marker::Condition => 0,
        Marker::Else => 1,
    }
}

/// `a` sorts strictly before `b`: by position, then by marker.
pub open spec fn mark_before(a: Mark, b: Mark) -> bool {
    a.0 < b.0 || (a.0 == b.0 && marker_rank(a.1) < marker_rank(b.1))
}

/// Every mark sorts strictly before every later one (so the sequence has no duplicates).
pub open spec fn strictly_sorted(marks: Seq<Mark>) -> bool {
    forall|i: int, j: int| 0 <= i < j < marks.len() ==> mark_before(marks[i], marks[j])
}

/// Inserting `mark` into the sorted `marks`, unless it is already there.
pub open spec fn insert_sorted(marks: Seq<Mark>, mark: Mark) -> Seq<Mark>
    decreases marks.len(),
{
    if marks.len() == 0 {
        seq![mark]
    } else if mark_before(mark, marks[0]) {
        seq![mark] + marks
    } else if mark == marks[0] {
        marks
    } else {
        seq![marks[0]] + insert_sorted(marks.drop_first(), mark)
    }
}

/// The marks of `raw`, sorted by position (then marker) with duplicates removed.
pub open spec fn sort_marks(raw: Seq<Mark>) -> Seq<Mark>
    decreases raw.len(),
{
    if raw.len() == 0 {
        seq![]
    } else {
        insert_sorted(sort_marks(raw.drop_last()), raw.last())
    }
}

/// The marks the scan of `bytes` produces, in splicing order.
pub open spec fn spec_marks(bytes: Seq<u8>) -> Seq<Mark> {
    sort_marks(spec_scan_top_level(bytes, 0))
}

/// The character a marker stands for.
pub open spec fn marker_char(marker: Marker) -> char {
    match marker {
        Marker::Condition => CONDITION_MARKER,
        Marker::Else => ELSE_MARKER,
    }
}

/// The UTF-8 encoding of a marker.
pub open spec fn marker_bytes(marker: Marker) -> Seq<u8> {
    match marker {
        Marker::Condition => seq![0xeeu8, 0x80u8, 0x80u8],
        Marker::Else => seq![0xeeu8, 0x80u8, 0x81u8],
    }
}

/// `bytes` with the encoding of each mark's marker spliced in at the mark's position.
pub open spec fn spec_marked_bytes(bytes: Seq<u8>, marks: Seq<Mark>) -> Seq<u8>
    decreases marks.len(),
{
    if marks.len() == 0 {
        bytes
    } else {
        let last = marks.last();
        spec_marked_bytes(bytes.take(last.0 as int), marks.drop_last()) + marker_bytes(last.1)
            + bytes.skip(last.0 as int)
    }
}

/// Where the markers stand in the marked text: each mark's position shifted by the markers
/// inserted before it.
pub open spec fn spec_marked_positions(marks: Seq<Mark>) -> Seq<usize> {
    Seq::new(marks.len(), |i: int| (marks[i].0 + CONDITION_MARKER_LEN * i) as usize)
}

/// Every mark's position is a character boundary of `bytes`.
pub open spec fn marks_at_char_boundaries(bytes: Seq<u8>, marks: Seq<Mark>) -> bool {
    forall|i: int| 0 <= i < marks.len() ==> is_char_boundary(bytes, #[trigger] marks[i].0 as int)
}

/// The positions of `marks` never decrease, and none exceeds `bound`.
pub open spec fn positions_ascending_within(marks: Seq<Mark>, bound: int) -> bool {
    &&& forall|i: int, j: int| 0 <= i <= j < marks.len() ==> marks[i].0 <= marks[j].0
    &&& forall|i: int| 0 <= i < marks.len() ==> #[trigger] marks[i].0 <= bound
}

pub proof fn lemma_marker_bytes_encode(marker: Marker)
    ensures
        marker_bytes(marker) == encode_utf8(seq![marker_char(marker)]),
{
    reveal_with_fuel(encode_utf8, 2);
    let c = marker_char(marker);
    assert(seq![c].drop_first() =~= Seq::<char>::empty());
    let v = c as u32;
    match marker {
        Marker::Condition => {
            assert(v == 0xe000u32);
            assert((0xE0u8 | (((0xe000u32 >> 12u32) & 0x0Fu32) as u8)) == 0xeeu8) by (bit_vector);
            assert((0x80u8 | (((0xe000u32 >> 6u32) & 0x3Fu32) as u8)) == 0x80u8) by (bit_vector);
            assert((0x80u8 | ((0xe000u32 & 0x3Fu32) as u8)) == 0x80u8) by (bit_vector);
        },
        Marker::Else => {
            assert(v == 0xe001u32);
            assert((0xE0u8 | (((0xe001u32 >> 12u32) & 0x0Fu32) as u8)) == 0xeeu8) by (bit_vector);
            assert((0x80u8 | (((0xe001u32 >> 6u32) & 0x3Fu32) as u8)) == 0x80u8) by (bit_vector);
            assert((0x80u8 | ((0xe001u32 & 0x3Fu32) as u8)) == 0x81u8) by (bit_vector);
        },
    }
    assert(encode_utf8(seq![c]) =~= encode_scalar(v));
    assert(marker_bytes(marker) =~= encode_scalar(v));
}


/// Two distinct marks are ordered one way or the other, and never both.
pub proof fn lemma_mark_order(a: Mark, b: Mark)
    ensures
        !(mark_before(a, b) && mark_before(b, a)),
        !mark_before(a, a),
        a != b ==> mark_before(a, b) || mark_before(b, a),
{
    if a.0 == b.0 && marker_rank(a.1) == marker_rank(b.1) {
        assert(a.1 == b.1);
    }
}

/// Inserting at the first position whose mark does not sort before `mark`.
pub proof fn lemma_insert_sorted_at(marks: Seq<Mark>, mark: Mark, i: int)
    requires
        strictly_sorted(marks),
        0 <= i <= marks.len(),
        forall|j: int| 0 <= j < i ==> mark_before(#[trigger] marks[j], mark),
        i < marks.len() ==> !mark_before(marks[i], mark),
    ensures
        insert_sorted(marks, mark) == (if i < marks.len() && marks[i] == mark {
            marks
        } else {
            marks.insert(i, mark)
        }),
    decreases marks.len(),
{
    if marks.len() == 0 {
        assert(marks.insert(i, mark) =~= seq![mark]);
    } else {
        lemma_mark_order(mark, marks[0]);
        if i == 0 {
            if mark_before(mark, marks[0]) {
                assert(marks.insert(0, mark) =~= seq![mark] + marks);
            }
        } else {
            assert(mark_before(marks[0], mark));
            let rest = marks.drop_first();
            assert forall|j: int| 0 <= j < i - 1 implies mark_before(#[trigger] rest[j], mark) by {
                assert(rest[j] == marks[j + 1]);
            }
            assert(strictly_sorted(rest)) by {
                assert forall|a: int, b: int| 0 <= a < b < rest.len() implies mark_before(rest[a], rest[b]) by {
                    assert(rest[a] == marks[a + 1] && rest[b] == marks[b + 1]);
                }
            }
            lemma_insert_sorted_at(rest, mark, i - 1);
            if i < marks.len() && marks[i] == mark {
                assert(seq![marks[0]] + rest =~= marks);
            } else {
                assert(seq![marks[0]] + rest.insert(i - 1, mark) =~= marks.insert(i, mark));
            }
        }
    }
}

/// Inserting keeps a sequence strictly sorted, and adds exactly the inserted mark.
pub proof fn lemma_insert_sorted_properties(marks: Seq<Mark>, mark: Mark)
    requires
        strictly_sorted(marks),
    ensures
        strictly_sorted(insert_sorted(marks, mark)),
        forall|x: Mark|
            #![trigger insert_sorted(marks, mark).contains(x)]
            insert_sorted(marks, mark).contains(x) <==> (marks.contains(x) || x == mark),
    decreases marks.len(),
{
    if marks.len() == 0 {
        assert(insert_sorted(marks, mark) =~= seq![mark]);
        assert forall|x: Mark| seq![mark].contains(x) <==> (marks.contains(x) || x == mark) by {
            if seq![mark].contains(x) {
                let k = choose|k: int| 0 <= k < 1 && seq![mark][k] == x;
            }
            if x == mark {
                assert(seq![mark][0] == x);
            }
        }
    } else {
        lemma_mark_order(mark, marks[0]);
        let r = insert_sorted(marks, mark);
        if mark_before(mark, marks[0]) {
            assert forall|a: int, b: int| 0 <= a < b < r.len() implies mark_before(r[a], r[b]) by {
                if a == 0 {
                    if b > 1 {
                        lemma_mark_transitive(mark, marks[0], marks[b - 1]);
                    }
                } else {
                    assert(r[a] == marks[a - 1] && r[b] == marks[b - 1]);
                }
            }
            assert forall|x: Mark| r.contains(x) <==> (marks.contains(x) || x == mark) by {
                if r.contains(x) {
                    let k = choose|k: int| 0 <= k < r.len() && r[k] == x;
                    if k > 0 {
                        assert(marks[k - 1] == x);
                    }
                }
                if marks.contains(x) {
                    let k = choose|k: int| 0 <= k < marks.len() && marks[k] == x;
                    assert(r[k + 1] == x);
                }
                if x == mark {
                    assert(r[0] == x);
                }
            }
        } else if mark == marks[0] {
            assert(marks.contains(mark)) by {
                assert(marks[0] == mark);
            }
        } else {
            let rest = marks.drop_first();
            assert(strictly_sorted(rest)) by {
                assert forall|a: int, b: int| 0 <= a < b < rest.len() implies mark_before(rest[a], rest[b]) by {
                    assert(rest[a] == marks[a + 1] && rest[b] == marks[b + 1]);
                }
            }
            lemma_insert_sorted_properties(rest, mark);
            let t = insert_sorted(rest, mark);
            assert(r == seq![marks[0]] + t);
            assert forall|a: int, b: int| 0 <= a < b < r.len() implies mark_before(r[a], r[b]) by {
                if a == 0 {
                    let y = t[b - 1];
                    assert(r[b] == y);
                    assert(t.contains(y)) by {
                        assert(0 <= b - 1 < t.len());
                    }
                    assert(rest.contains(y) || y == mark);
                    if y == mark {
                        assert(mark_before(marks[0], mark));
                    } else {
                        assert(rest.contains(y));
                        let k = choose|k: int| 0 <= k < rest.len() && rest[k] == y;
                        assert(marks[k + 1] == y);
                        assert(mark_before(marks[0], marks[k + 1]));
                    }
                } else {
                    assert(r[a] == t[a - 1] && r[b] == t[b - 1]);
                }
            }
            assert forall|x: Mark| r.contains(x) <==> (marks.contains(x) || x == mark) by {
                if r.contains(x) {
                    let k = choose|k: int| 0 <= k < r.len() && r[k] == x;
                    if k == 0 {
                        assert(marks[0] == x);
                    } else {
                        assert(t[k - 1] == x);
                        assert(t.contains(x));
                        if rest.contains(x) {
                            let q = choose|q: int| 0 <= q < rest.len() && rest[q] == x;
                            assert(marks[q + 1] == x);
                        }
                    }
                }
                if marks.contains(x) {
                    let k = choose|k: int| 0 <= k < marks.len() && marks[k] == x;
                    if k == 0 {
                        assert(r[0] == x);
                    } else {
                        assert(rest[k - 1] == x);
                        assert(rest.contains(x));
                        assert(t.contains(x));
                        let q = choose|q: int| 0 <= q < t.len() && t[q] == x;
                        assert(r[q + 1] == x);
                    }
                }
                if x == mark {
                    assert(t.contains(x));
                    let q = choose|q: int| 0 <= q < t.len() && t[q] == x;
                    assert(r[q + 1] == x);
                }
            }
        }
    }
}

pub proof fn lemma_mark_transitive(a: Mark, b: Mark, c: Mark)
    requires
        mark_before(a, b),
        mark_before(b, c),
    ensures
        mark_before(a, c),
{
}

/// The marks are put in order: strictly sorted by position then marker, holding exactly the marks
/// the scan found, each once.
pub proof fn law_sorted_marks_are_ordered_and_complete(raw: Seq<Mark>)
    ensures
        strictly_sorted(sort_marks(raw)),
        forall|x: Mark| sort_marks(raw).contains(x) <==> raw.contains(x),
    decreases raw.len(),
{
    if raw.len() > 0 {
        let prefix = raw.drop_last();
        law_sorted_marks_are_ordered_and_complete(prefix);
        lemma_insert_sorted_properties(sort_marks(prefix), raw.last());
        assert forall|x: Mark| sort_marks(raw).contains(x) <==> raw.contains(x) by {
            if prefix.contains(x) {
                let k = choose|k: int| 0 <= k < prefix.len() && prefix[k] == x;
                assert(raw[k] == x);
            }
            if raw.contains(x) {
                let k = choose|k: int| 0 <= k < raw.len() && raw[k] == x;
                if k < raw.len() - 1 {
                    assert(prefix[k] == x);
                }
            }
            if x == raw.last() {
                assert(raw[raw.len() - 1] == x);
            }
        }
    }
}

/// Two strictly sorted sequences holding the same marks are equal: the order of the marks is
/// determined by the marks alone.
pub proof fn law_strictly_sorted_marks_are_unique(a: Seq<Mark>, b: Seq<Mark>)
    requires
        strictly_sorted(a),
        strictly_sorted(b),
        forall|x: Mark| a.contains(x) <==> b.contains(x),
    ensures
        a == b,
    decreases a.len(),
{
    if a.len() == 0 {
        if b.len() > 0 {
            assert(b.contains(b[0]));
        }
    } else if b.len() == 0 {
        assert(a.contains(a[0]));
    } else {
        assert(a.contains(a[0]));
        assert(b.contains(b[0]));
        let i = choose|i: int| 0 <= i < b.len() && b[i] == a[0];
        let j = choose|j: int| 0 <= j < a.len() && a[j] == b[0];
        lemma_mark_order(a[0], b[0]);
        if i > 0 {
            lemma_mark_order(b[0], b[i]);
            if j > 0 {
                lemma_mark_order(a[0], a[j]);
            }
        }
        assert(a[0] == b[0]) by {
            if a[0] != b[0] {
                if j > 0 {
                    lemma_mark_order(a[0], a[j]);
                }
            }
        }
        let ra = a.drop_first();
        let rb = b.drop_first();
        assert(strictly_sorted(ra)) by {
            assert forall|p: int, q: int| 0 <= p < q < ra.len() implies mark_before(ra[p], ra[q]) by {
                assert(ra[p] == a[p + 1] && ra[q] == a[q + 1]);
            }
        }
        assert(strictly_sorted(rb)) by {
            assert forall|p: int, q: int| 0 <= p < q < rb.len() implies mark_before(rb[p], rb[q]) by {
                assert(rb[p] == b[p + 1] && rb[q] == b[q + 1]);
            }
        }
        assert forall|x: Mark| ra.contains(x) <==> rb.contains(x) by {
            if ra.contains(x) {
                let k = choose|k: int| 0 <= k < ra.len() && ra[k] == x;
                assert(a[k + 1] == x);
                assert(a.contains(x));
                let q = choose|q: int| 0 <= q < b.len() && b[q] == x;
                lemma_mark_order(a[0], a[k + 1]);
                if q == 0 {
                    assert(false);
                }
                assert(rb[q - 1] == x);
            }
            if rb.contains(x) {
                let k = choose|k: int| 0 <= k < rb.len() && rb[k] == x;
                assert(b[k + 1] == x);
                assert(b.contains(x));
                let q = choose|q: int| 0 <= q < a.len() && a[q] == x;
                lemma_mark_order(b[0], b[k + 1]);
                if q == 0 {
                    assert(false);
                }
                assert(ra[q - 1] == x);
            }
        }
        law_strictly_sorted_marks_are_unique(ra, rb);
        assert(a =~= seq![a[0]] + ra);
        assert(b =~= seq![b[0]] + rb);
    }
}

/// Whether mark `a` sorts strictly before mark `b`.
fn mark_precedes(a: Mark, b: Mark) -> (r: bool)
    ensures
        r == mark_before(a, b),
{
    let rank_a: u8 = match a.1 {
        Marker::Condition => 0,
        Marker::Else => 1,
    };
    let rank_b: u8 = match b.1 {
        Marker::Condition => 0,
        Marker::Else => 1,
    };
    a.0 < b.0 || (a.0 == b.0 && rank_a < rank_b)
}

/// The marks of `raw`, sorted by position (then marker) with duplicates removed.
fn sort_and_dedup(raw: &Vec<Mark>) -> (r: Vec<Mark>)
    ensures
        r@ == sort_marks(raw@),
{
    let mut sorted: Vec<Mark> = Vec::new();
    let mut k: usize = 0;
    assert(raw@.take(0) =~= Seq::<Mark>::empty());
    while k < raw.len()
        invariant
            k <= raw@.len(),
            sorted@ == sort_marks(raw@.take(k as int)),
        decreases raw.len() - k,
    {
        let mark = raw[k];
        proof {
            law_sorted_marks_are_ordered_and_complete(raw@.take(k as int));
        }
        let mut i: usize = 0;
        while i < sorted.len() && mark_precedes(sorted[i], mark)
            invariant
                i <= sorted@.len(),
                forall|j: int| 0 <= j < i ==> mark_before(#[trigger] sorted@[j], mark),
            decreases sorted.len() - i,
        {
            i = i + 1;
        }
        proof {
            lemma_insert_sorted_at(sorted@, mark, i as int);
            assert(raw@.take(k + 1).drop_last() =~= raw@.take(k as int));
        }
        if i < sorted.len() && sorted[i].0 == mark.0 && sorted[i].1 == mark.1 {
        } else {
            sorted.insert(i, mark);
        }
        k = k + 1;
    }
    assert(raw@.take(k as int) =~= raw@);
    sorted
}


/// Splicing marks that all lie at or before `i` commutes with appending the source text between
/// `i` and `j`.
pub proof fn lemma_marked_extend(bytes: Seq<u8>, marks: Seq<Mark>, i: int, j: int)
    requires
        positions_ascending_within(marks, i),
        0 <= i <= j <= bytes.len(),
    ensures
        spec_marked_bytes(bytes.take(j), marks) == spec_marked_bytes(bytes.take(i), marks)
            + bytes.subrange(i, j),
{
    if marks.len() == 0 {
        assert(bytes.take(j) =~= bytes.take(i) + bytes.subrange(i, j));
    } else {
        let last = marks.last();
        let p = last.0 as int;
        assert(marks[marks.len() - 1].0 <= i);
        assert(bytes.take(j).take(p) =~= bytes.take(p));
        assert(bytes.take(i).take(p) =~= bytes.take(p));
        assert(bytes.take(j).skip(p) =~= bytes.take(i).skip(p) + bytes.subrange(i, j));
        let front = spec_marked_bytes(bytes.take(p), marks.drop_last());
        assert(front + marker_bytes(last.1) + bytes.take(j).skip(p) =~= front + marker_bytes(last.1)
            + bytes.take(i).skip(p) + bytes.subrange(i, j));
    }
}

/// The sorted prefixes of ascending marks stay ascending.
pub proof fn lemma_ascending_prefix(marks: Seq<Mark>, bound: int, k: int, new_bound: int)
    requires
        positions_ascending_within(marks, bound),
        0 <= k <= marks.len(),
        k > 0 ==> marks[k - 1].0 <= new_bound,
    ensures
        positions_ascending_within(marks.take(k), new_bound),
{
    assert forall|i: int| 0 <= i < k implies #[trigger] marks.take(k)[i].0 <= new_bound by {
        assert(marks[i].0 <= marks[k - 1].0);
    }
}

/// Each spliced marker adds its three bytes.
pub proof fn lemma_marked_len(bytes: Seq<u8>, marks: Seq<Mark>)
    requires
        positions_ascending_within(marks, bytes.len() as int),
    ensures
        spec_marked_bytes(bytes, marks).len() == bytes.len() + CONDITION_MARKER_LEN * marks.len(),
    decreases marks.len(),
{
    if marks.len() > 0 {
        let last = marks.last();
        let p = last.0 as int;
        assert(marks[marks.len() - 1].0 <= bytes.len());
        lemma_ascending_prefix(marks, bytes.len() as int, marks.len() - 1, p);
        assert(marks.take(marks.len() - 1) =~= marks.drop_last());
        lemma_marked_len(bytes.take(p), marks.drop_last());
    }
}

/// A position that is a character boundary of valid text stays one in every prefix that ends at
/// a character boundary at or after it.
pub proof fn lemma_char_boundary_of_prefix(bytes: Seq<u8>, q: int, p: int)
    requires
        valid_utf8(bytes),
        is_char_boundary(bytes, q),
        is_char_boundary(bytes, p),
        0 <= q <= p <= bytes.len(),
    ensures
        valid_utf8(bytes.take(p)),
        is_char_boundary(bytes.take(p), q),
{
    valid_utf8_split(bytes, p);
    assert(bytes.take(p) =~= bytes.subrange(0, p));
    is_char_boundary_start_end_of_seq(bytes.take(p));
    if q < p {
        is_char_boundary_iff_not_is_continuation_byte(bytes, q);
        is_char_boundary_iff_not_is_continuation_byte(bytes.take(p), q);
    }
}

/// Splicing markers in at character boundaries of valid UTF-8 text gives valid UTF-8 text.
pub proof fn lemma_marked_valid(bytes: Seq<u8>, marks: Seq<Mark>)
    requires
        valid_utf8(bytes),
        positions_ascending_within(marks, bytes.len() as int),
        marks_at_char_boundaries(bytes, marks),
    ensures
        valid_utf8(spec_marked_bytes(bytes, marks)),
    decreases marks.len(),
{
    if marks.len() > 0 {
        let last = marks.last();
        let p = last.0 as int;
        let front = marks.drop_last();
        assert(is_char_boundary(bytes, marks[marks.len() - 1].0 as int));
        assert(marks[marks.len() - 1].0 <= bytes.len());
        lemma_char_boundary_of_prefix(bytes, p, p);
        lemma_ascending_prefix(marks, bytes.len() as int, marks.len() - 1, p);
        assert(marks.take(marks.len() - 1) =~= front);
        assert forall|i: int| 0 <= i < front.len() implies is_char_boundary(
            bytes.take(p),
            #[trigger] front[i].0 as int,
        ) by {
            assert(front[i] == marks[i]);
            assert(is_char_boundary(bytes, marks[i].0 as int));
            lemma_char_boundary_of_prefix(bytes, front[i].0 as int, p);
        }
        lemma_marked_valid(bytes.take(p), front);
        valid_utf8_split(bytes, p);
        assert(bytes.skip(p) =~= bytes.subrange(p, bytes.len() as int));
        lemma_marker_bytes_encode(last.1);
        encode_utf8_valid_utf8(seq![marker_char(last.1)]);
        let a = spec_marked_bytes(bytes.take(p), front);
        valid_utf8_concat(a, marker_bytes(last.1));
        valid_utf8_concat(a + marker_bytes(last.1), bytes.skip(p));
    }
}

/// Strictly sorted marks have ascending positions.
pub proof fn lemma_sorted_ascending(marks: Seq<Mark>, bytes: Seq<u8>)
    requires
        valid_utf8(bytes),
        strictly_sorted(marks),
        marks_at_char_boundaries(bytes, marks),
    ensures
        positions_ascending_within(marks, bytes.len() as int),
{
    assert forall|i: int, j: int| 0 <= i <= j < marks.len() implies marks[i].0 <= marks[j].0 by {
        if i < j {
            assert(mark_before(marks[i], marks[j]));
        }
    }
    assert forall|i: int| 0 <= i < marks.len() implies #[trigger] marks[i].0 <= bytes.len() by {
        assert(is_char_boundary(bytes, marks[i].0 as int));
    }
}

/// Appends `bytes[from..to]` to `out`.
fn append_range(out: &mut Vec<u8>, bytes: &[u8], from: usize, to: usize)
    requires
        from <= to <= bytes@.len(),
    ensures
        final(out)@ == old(out)@ + bytes@.subrange(from as int, to as int),
{
    let mut i = from;
    assert(old(out)@ =~= old(out)@ + bytes@.subrange(from as int, from as int));
    while i < to
        invariant
            from <= i <= to,
            to <= bytes@.len(),
            out@ == old(out)@ + bytes@.subrange(from as int, i as int),
        decreases to - i,
    {
        out.push(bytes[i]);
        i = i + 1;
        assert(bytes@.subrange(from as int, i as int) =~= bytes@.subrange(from as int, i - 1).push(
            bytes@[i - 1],
        ));
        assert(out@ =~= old(out)@ + bytes@.subrange(from as int, i as int));
    }
}

/// Appends the UTF-8 encoding of `marker` to `out`.
fn append_marker(out: &mut Vec<u8>, marker: Marker)
    ensures
        final(out)@ == old(out)@ + marker_bytes(marker),
{
    match marker {
        Marker::Condition => {
            out.push(0xee);
            out.push(0x80);
            out.push(0x80);
        },
        Marker::Else => {
            out.push(0xee);
            out.push(0x80);
            out.push(0x81);
        },
    }
    assert(final(out)@ =~= old(out)@ + marker_bytes(marker));
}

/// Splicing one more mark, at the end of the text so far.
pub proof fn lemma_marked_step(bytes: Seq<u8>, marks: Seq<Mark>, k: int, position: int)
    requires
        0 <= k < marks.len(),
        marks[k].0 == position,
        0 <= position <= bytes.len(),
    ensures
        spec_marked_bytes(bytes.take(position), marks.take(k + 1)) == spec_marked_bytes(
            bytes.take(position),
            marks.take(k),
        ) + marker_bytes(marks[k].1),
        spec_marked_positions(marks.take(k + 1)) == spec_marked_positions(marks.take(k)).push(
            (position + CONDITION_MARKER_LEN * k) as usize,
        ),
{
    let next = marks.take(k + 1);
    assert(next.drop_last() =~= marks.take(k));
    assert(next.last() == marks[k]);
    let bp = bytes.take(position);
    assert(bp.take(position) =~= bp);
    assert(bp.skip(position) =~= Seq::<u8>::empty());
    assert(spec_marked_bytes(bp, next) =~= spec_marked_bytes(bp, marks.take(k)) + marker_bytes(marks[k].1));
    assert(spec_marked_positions(next) =~= spec_marked_positions(marks.take(k)).push(
        (position + CONDITION_MARKER_LEN * k) as usize,
    ));
}

/// Calls `String::from_utf8`, which succeeds exactly on valid UTF-8 input and then holds the
/// characters that the bytes encode; its error is mapped to `None`.
#[verifier::external_body]
fn string_from_utf8(bytes: Vec<u8>) -> (r: Option<String>)
    ensures
        r is Some <==> valid_utf8(bytes@),
        r matches Some(text) ==> text@ == decode_utf8(bytes@),
{
    String::from_utf8(bytes).ok()
}

/// Scans `source` for the start of every `ProcExprIfPrefix`/`ProcExprIfThen` condition and returns
/// a copy of `source` with [CONDITION_MARKER] inserted at each one (and [ELSE_MARKER] after every
/// one that has a reachable `<>`), together with the sorted (marked-text) byte offsets the markers
/// were inserted at.
///
/// This only looks inside `proc`/`init` bodies (the only place `ProcExpr` appears) and only
/// reasons about the token *shapes* `DataExpr` and `ProcExpr` share. If no condition is found, or
/// some marker position is not a character boundary of `source`, the text is returned unmarked.
pub fn mark_process_conditions(source: &str) -> (r: (String, Vec<usize>))
    ensures
        ({
            let bytes = source.spec_bytes();
            let marks = spec_marks(bytes);
            if marks.len() > 0 && marks_at_char_boundaries(bytes, marks) {
                &&& encode_utf8(r.0@) == spec_marked_bytes(bytes, marks)
                &&& r.1@ == spec_marked_positions(marks)
            } else {
                &&& r.0@ == source@
                &&& r.1@ == Seq::<usize>::empty()
            }
        }),
{
    let bytes = source.as_bytes();
    let ghost b = bytes@;
    proof {
        encode_utf8_valid_utf8(source@);
    }
    let mut raw: Vec<Mark> = Vec::new();
    scan_top_level(bytes, &mut raw);
    assert(raw@ =~= spec_scan_top_level(b, 0));
    let marks = sort_and_dedup(&raw);
    if marks.len() == 0 {
        return (source.to_owned(), Vec::new());
    }
    proof {
        law_sorted_marks_are_ordered_and_complete(raw@);
    }
    let mut k: usize = 0;
    while k < marks.len()
        invariant
            k <= marks@.len(),
            b == source.spec_bytes(),
            marks@ == spec_marks(b),
            forall|i: int| 0 <= i < k ==> is_char_boundary(b, #[trigger] marks@[i].0 as int),
        decreases marks.len() - k,
    {
        if !source.is_char_boundary(marks[k].0) {
            return (source.to_owned(), Vec::new());
        }
        k = k + 1;
    }
    assert(marks_at_char_boundaries(b, marks@));
    proof {
        lemma_sorted_ascending(marks@, b);
        assert(b.take(0) =~= Seq::<u8>::empty());
        assert(marks@.take(0) =~= Seq::<Mark>::empty());
    }
    let mut marked: Vec<u8> = Vec::new();
    let mut positions: Vec<usize> = Vec::new();
    let mut previous: usize = 0;
    let mut k: usize = 0;
    assert(spec_marked_positions(marks@.take(0)) =~= positions@);
    while k < marks.len()
        invariant
            k <= marks@.len(),
            previous <= b.len(),
            b == bytes@,
            positions_ascending_within(marks@, b.len() as int),
            k == 0 ==> previous == 0,
            k > 0 ==> previous == marks@[k - 1].0,
            marked@ == spec_marked_bytes(b.take(previous as int), marks@.take(k as int)),
            positions@ == spec_marked_positions(marks@.take(k as int)),
        decreases marks.len() - k,
    {
        let position = marks[k].0;
        proof {
            lemma_ascending_prefix(marks@, b.len() as int, k as int, previous as int);
            if k > 0 {
                assert(marks@[k - 1].0 <= marks@[k as int].0);
            }
        }
        append_range(&mut marked, bytes, previous, position);
        proof {
            lemma_marked_extend(b, marks@.take(k as int), previous as int, position as int);
            lemma_ascending_prefix(marks@, b.len() as int, k as int, position as int);
            lemma_marked_len(b.take(position as int), marks@.take(k as int));
            lemma_marked_step(b, marks@, k as int, position as int);
        }
        positions.push(marked.len());
        append_marker(&mut marked, marks[k].1);
        previous = position;
        k = k + 1;
    }
    append_range(&mut marked, bytes, previous, bytes.len());
    proof {
        assert(marks@.take(k as int) =~= marks@);
        lemma_ascending_prefix(marks@, b.len() as int, k as int, previous as int);
        lemma_marked_extend(b, marks@, previous as int, b.len() as int);
        assert(b.take(b.len() as int) =~= b);
        lemma_marked_valid(b, marks@);
    }
    match string_from_utf8(marked) {
        Some(text) => {
            proof {
                decode_utf8_encode_utf8(spec_marked_bytes(b, marks@));
            }
            (text, positions)
        },
        None => (source.to_owned(), Vec::new()),
    }
}


/// `text` with the three marker bytes at each of `positions` removed (last position first).
pub open spec fn erase_markers(text: Seq<u8>, positions: Seq<usize>) -> Seq<u8>
    decreases positions.len(),
{
    if positions.len() == 0 {
        text
    } else {
        let p = positions.last() as int;
        erase_markers(text.take(p) + text.skip(p + CONDITION_MARKER_LEN), positions.drop_last())
    }
}

/// Positions at least a marker's length apart, the last one leaving room for a marker in a text of
/// length `len`.
pub open spec fn spaced_within(positions: Seq<usize>, len: int) -> bool {
    &&& forall|i: int, j: int|
        0 <= i < j < positions.len() ==> positions[i] + CONDITION_MARKER_LEN <= positions[j]
    &&& forall|i: int| 0 <= i < positions.len() ==> #[trigger] positions[i] + CONDITION_MARKER_LEN <= len
}

pub proof fn lemma_erase_append(text: Seq<u8>, suffix: Seq<u8>, positions: Seq<usize>)
    requires
        spaced_within(positions, text.len() as int),
    ensures
        erase_markers(text + suffix, positions) == erase_markers(text, positions) + suffix,
    decreases positions.len(),
{
    if positions.len() > 0 {
        let p = positions.last() as int;
        let n = CONDITION_MARKER_LEN as int;
        assert(positions[positions.len() - 1] + n <= text.len());
        let shorter = text.take(p) + text.skip(p + n);
        assert((text + suffix).take(p) + (text + suffix).skip(p + n) =~= shorter + suffix);
        let front = positions.drop_last();
        assert(spaced_within(front, shorter.len() as int)) by {
            assert forall|i: int| 0 <= i < front.len() implies #[trigger] front[i] + n <= shorter.len() by {
                assert(front[i] == positions[i]);
                assert(positions[i] + n <= positions[positions.len() - 1]);
            }
            assert forall|i: int, j: int| 0 <= i < j < front.len() implies front[i] + n <= front[j] by {
                assert(front[i] == positions[i] && front[j] == positions[j]);
            }
        }
        lemma_erase_append(shorter, suffix, front);
    }
}

/// Removing the markers from the marked text at the reported positions gives back the source
/// text: marking only ever inserts markers.
pub proof fn law_erasing_markers_restores_source(bytes: Seq<u8>, marks: Seq<Mark>)
    requires
        positions_ascending_within(marks, bytes.len() as int),
        bytes.len() + CONDITION_MARKER_LEN * marks.len() <= usize::MAX,
    ensures
        erase_markers(spec_marked_bytes(bytes, marks), spec_marked_positions(marks)) == bytes,
    decreases marks.len(),
{
    let n = CONDITION_MARKER_LEN as int;
    let positions = spec_marked_positions(marks);
    if marks.len() == 0 {
    } else {
        let k = marks.len() as int;
        let last = marks.last();
        let p = last.0 as int;
        let front = marks.drop_last();
        assert(marks[k - 1].0 <= bytes.len());
        lemma_ascending_prefix(marks, bytes.len() as int, k - 1, p);
        assert(marks.take(k - 1) =~= front);
        let prefix = spec_marked_bytes(bytes.take(p), front);
        lemma_marked_len(bytes.take(p), front);
        let text = spec_marked_bytes(bytes, marks);
        assert(text == prefix + marker_bytes(last.1) + bytes.skip(p));
        assert(p + n * (k - 1) <= usize::MAX);
        assert(positions.last() == p + n * (k - 1));
        assert(text.take(p + n * (k - 1)) + text.skip(p + n * (k - 1) + n) =~= prefix + bytes.skip(p));
        assert(positions.drop_last() =~= spec_marked_positions(front));
        assert(spaced_within(spec_marked_positions(front), prefix.len() as int)) by {
            let fp = spec_marked_positions(front);
            assert forall|i: int| 0 <= i < fp.len() implies #[trigger] fp[i] + n <= prefix.len() by {
                assert(front[i] == marks[i]);
                assert(marks[i].0 <= marks[k - 1].0);
            }
            assert forall|i: int, j: int| 0 <= i < j < fp.len() implies fp[i] + n <= fp[j] by {
                assert(front[i] == marks[i] && front[j] == marks[j]);
                assert(marks[i].0 <= marks[j].0);
            }
        }
        lemma_erase_append(prefix, bytes.skip(p), spec_marked_positions(front));
        law_erasing_markers_restores_source(bytes.take(p), front);
        assert(bytes.take(p) + bytes.skip(p) =~= bytes);
    }
}

/// At each reported position the marked text holds the encoding of that mark's marker.
pub proof fn law_markers_stand_at_reported_positions(bytes: Seq<u8>, marks: Seq<Mark>, i: int)
    requires
        positions_ascending_within(marks, bytes.len() as int),
        bytes.len() + CONDITION_MARKER_LEN * marks.len() <= usize::MAX,
        0 <= i < marks.len(),
    ensures
        spec_marked_bytes(bytes, marks).subrange(
            spec_marked_positions(marks)[i] as int,
            spec_marked_positions(marks)[i] + CONDITION_MARKER_LEN,
        ) == marker_bytes(marks[i].1),
    decreases marks.len(),
{
    let n = CONDITION_MARKER_LEN as int;
    let k = marks.len() as int;
    let last = marks.last();
    let p = last.0 as int;
    let front = marks.drop_last();
    assert(marks[k - 1].0 <= bytes.len());
    lemma_ascending_prefix(marks, bytes.len() as int, k - 1, p);
    assert(marks.take(k - 1) =~= front);
    let prefix = spec_marked_bytes(bytes.take(p), front);
    lemma_marked_len(bytes.take(p), front);
    let text = spec_marked_bytes(bytes, marks);
    assert(text == prefix + marker_bytes(last.1) + bytes.skip(p));
    let at = spec_marked_positions(marks)[i] as int;
    assert(marks[i].0 <= bytes.len());
    assert(marks[i].0 + n * i <= usize::MAX);
    assert(at == marks[i].0 + n * i);
    if i == k - 1 {
        assert(at == prefix.len());
        assert(text.subrange(at, at + n) =~= marker_bytes(last.1));
    } else {
        assert(front[i] == marks[i]);
        assert(marks[i].0 <= marks[k - 1].0);
        law_markers_stand_at_reported_positions(bytes.take(p), front, i);
        assert(spec_marked_positions(front)[i] == spec_marked_positions(marks)[i]);
        assert(at + n <= prefix.len());
        assert(text.subrange(at, at + n) =~= prefix.subrange(at, at + n));
    }
}

/// The reported positions are strictly increasing, a marker's length apart.
pub proof fn law_marked_positions_are_sorted(bytes: Seq<u8>, marks: Seq<Mark>)
    requires
        positions_ascending_within(marks, bytes.len() as int),
        bytes.len() + CONDITION_MARKER_LEN * marks.len() <= usize::MAX,
    ensures
        forall|i: int, j: int|
            0 <= i < j < marks.len() ==> spec_marked_positions(marks)[i] + CONDITION_MARKER_LEN
                <= spec_marked_positions(marks)[j],
        forall|i: int|
            0 <= i < marks.len() ==> #[trigger] spec_marked_positions(marks)[i] + CONDITION_MARKER_LEN
                <= spec_marked_bytes(bytes, marks).len(),
{
    lemma_marked_len(bytes, marks);
    assert forall|i: int, j: int| 0 <= i < j < marks.len() implies spec_marked_positions(marks)[i]
        + CONDITION_MARKER_LEN <= spec_marked_positions(marks)[j] by {
        assert(marks[i].0 <= marks[j].0);
        assert(marks[j].0 <= bytes.len());
        assert(marks[j].0 + CONDITION_MARKER_LEN * j <= usize::MAX);
    }
    assert forall|i: int| 0 <= i < marks.len() implies #[trigger] spec_marked_positions(marks)[i]
        + CONDITION_MARKER_LEN <= spec_marked_bytes(bytes, marks).len() by {
        assert(marks[i].0 <= bytes.len());
    }
}

} // verus!
