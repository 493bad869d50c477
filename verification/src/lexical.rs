//! Byte-level lexical helpers shared by the scanners over mCRL2 source text:
//! trivia (whitespace and `%`-comments), identifier words, whole-word
//! keywords, bracket matching and the opaque skipping of binder prefixes and
//! `whr ... end` blocks.
use vstd::prelude::*;

verus! {

pub const TAB: u8 = 0x09;
pub const LF: u8 = 0x0a;
pub const CR: u8 = 0x0d;
pub const SPACE: u8 = 0x20;
pub const BANG: u8 = 0x21;
pub const HASH: u8 = 0x23;
pub const PERCENT: u8 = 0x25;
pub const AMP: u8 = 0x26;
pub const QUOTE: u8 = 0x27;
pub const LPAREN: u8 = 0x28;
pub const RPAREN: u8 = 0x29;
pub const STAR: u8 = 0x2a;
pub const PLUS: u8 = 0x2b;
pub const COMMA: u8 = 0x2c;
pub const MINUS: u8 = 0x2d;
pub const DOT: u8 = 0x2e;
pub const SLASH: u8 = 0x2f;
pub const SEMI: u8 = 0x3b;
pub const LT: u8 = 0x3c;
pub const EQ: u8 = 0x3d;
pub const GT: u8 = 0x3e;
pub const AT: u8 = 0x40;
pub const LBRACK: u8 = 0x5b;
pub const RBRACK: u8 = 0x5d;
pub const UNDERSCORE: u8 = 0x5f;
pub const LBRACE: u8 = 0x7b;
pub const PIPE: u8 = 0x7c;
pub const RBRACE: u8 = 0x7d;

/// Whitespace as the grammar's `WHITESPACE` rule has it.
pub open spec fn is_space(byte: u8) -> bool {
    byte == SPACE || byte == TAB || byte == CR || byte == LF
}

/// A character of an identifier, number or keyword: ASCII alphanumerics, `_` and `'`.
pub open spec fn spec_is_word_byte(byte: u8) -> bool {
    (0x30 <= byte <= 0x39) || (0x41 <= byte <= 0x5a) || (0x61 <= byte <= 0x7a) || byte == UNDERSCORE
        || byte == QUOTE
}

pub open spec fn is_open_bracket(byte: u8) -> bool {
    byte == LPAREN || byte == LBRACK || byte == LBRACE
}

pub open spec fn is_close_bracket(byte: u8) -> bool {
    byte == RPAREN || byte == RBRACK || byte == RBRACE
}

/// The opening bracket that a closing bracket closes.
pub open spec fn opener_of(close: u8) -> u8 {
    if close == RPAREN {
        LPAREN
    } else if close == RBRACK {
        LBRACK
    } else {
        LBRACE
    }
}

/// An optional position, as the machine integer the executable code holds.
pub open spec fn to_usize_option(o: Option<int>) -> Option<usize> {
    match o {
        Some(n) => Some(n as usize),
        None => None,
    }
}

/// Whether `bytes[i]` exists and equals `byte`.
pub open spec fn byte_at(bytes: Seq<u8>, i: int, byte: u8) -> bool {
    0 <= i < bytes.len() && bytes[i] == byte
}

/// The first position at or after `pos` that is neither whitespace nor inside a
/// `%`-comment; `in_comment` says whether `pos` lies inside a comment.
pub open spec fn trivia_end(bytes: Seq<u8>, pos: int, in_comment: bool) -> int
    decreases bytes.len() - pos,
{
    if pos < 0 || pos >= bytes.len() {
        pos
    } else if in_comment {
        trivia_end(bytes, pos + 1, bytes[pos] != LF)
    } else if is_space(bytes[pos]) {
        trivia_end(bytes, pos + 1, false)
    } else if bytes[pos] == PERCENT {
        trivia_end(bytes, pos + 1, true)
    } else {
        pos
    }
}

pub open spec fn spec_skip_trivia(bytes: Seq<u8>, pos: int) -> int {
    trivia_end(bytes, pos, false)
}

/// The end of the maximal run of word bytes starting at `pos`.
pub open spec fn spec_word_end(bytes: Seq<u8>, pos: int) -> int
    decreases bytes.len() - pos,
{
    if 0 <= pos < bytes.len() && spec_is_word_byte(bytes[pos]) {
        spec_word_end(bytes, pos + 1)
    } else {
        pos
    }
}

/// `keyword` occurs at `pos` as a whole word, not as a prefix of a longer identifier.
pub open spec fn spec_matches_keyword(bytes: Seq<u8>, pos: int, keyword: Seq<u8>) -> bool {
    &&& 0 <= pos
    &&& pos + keyword.len() <= bytes.len()
    &&& bytes.subrange(pos, pos + keyword.len()) == keyword
    &&& !(pos + keyword.len() < bytes.len() && spec_is_word_byte(bytes[pos + keyword.len()]))
}

/// Bracket matching from position `i`, with `stack` the brackets still open (innermost last).
pub open spec fn close_from(bytes: Seq<u8>, i: int, stack: Seq<u8>) -> Option<int>
    decreases bytes.len() - i,
{
    let start = spec_skip_trivia(bytes, i);
    if start < i || start < 0 || start >= bytes.len() {
        None
    } else if is_open_bracket(bytes[start]) {
        close_from(bytes, start + 1, stack.push(bytes[start]))
    } else if is_close_bracket(bytes[start]) {
        if stack.len() == 0 || stack.last() != opener_of(bytes[start]) {
            None
        } else if stack.len() == 1 {
            Some(start)
        } else {
            close_from(bytes, start + 1, stack.drop_last())
        }
    } else {
        close_from(bytes, start + 1, stack)
    }
}

/// The position of the bracket that closes the one at `pos`, if the brackets balance.
pub open spec fn spec_find_matching_close(bytes: Seq<u8>, pos: int) -> Option<int> {
    close_from(bytes, pos + 1, seq![bytes[pos]])
}

/// Scanning an argument list from `i` up to `close` for a top-level bare `=`.
pub open spec fn data_list_from(bytes: Seq<u8>, i: int, close: int) -> bool
    decreases bytes.len() - i,
{
    if i >= close || i < 0 || i >= bytes.len() {
        true
    } else if is_open_bracket(bytes[i]) {
        let next = match spec_find_matching_close(bytes, i) {
            Some(c) => c + 1,
            None => close,
        };
        if i < next <= bytes.len() {
            data_list_from(bytes, next, close)
        } else {
            true
        }
    } else if bytes[i] == EQ && (byte_at(bytes, i + 1, EQ) || byte_at(bytes, i + 1, GT)) {
        data_list_from(bytes, i + 2, close)
    } else if (bytes[i] == BANG || bytes[i] == LT || bytes[i] == GT) && byte_at(bytes, i + 1, EQ) {
        data_list_from(bytes, i + 2, close)
    } else if bytes[i] == EQ {
        false
    } else {
        data_list_from(bytes, i + 1, close)
    }
}

/// The content between `open` and `close` is non-empty and has no top-level bare `=`.
pub open spec fn spec_looks_like_data_expr_list(bytes: Seq<u8>, open: int, close: int) -> bool {
    let i = spec_skip_trivia(bytes, open + 1);
    if i >= close {
        false
    } else {
        data_list_from(bytes, i, close)
    }
}

/// Skipping a binder's declarations from `i` up to and including the terminating `.`.
pub open spec fn binder_from(bytes: Seq<u8>, i: int) -> Option<int>
    decreases bytes.len() - i,
{
    let start = spec_skip_trivia(bytes, i);
    if start < i || start < 0 || start >= bytes.len() {
        None
    } else if is_open_bracket(bytes[start]) {
        match spec_find_matching_close(bytes, start) {
            Some(c) => if i < c + 1 <= bytes.len() {
                binder_from(bytes, c + 1)
            } else {
                None
            },
            None => None,
        }
    } else if bytes[start] == DOT {
        Some(start + 1)
    } else {
        binder_from(bytes, start + 1)
    }
}

/// The position right after the `.` that ends the binder prefix starting with the keyword at `pos`.
pub open spec fn spec_skip_binder_prefix(bytes: Seq<u8>, pos: int) -> Option<int> {
    binder_from(bytes, spec_word_end(bytes, pos))
}

pub open spec fn whr_keyword() -> Seq<u8> {
    seq![0x77u8, 0x68u8, 0x72u8]
}

pub open spec fn end_keyword() -> Seq<u8> {
    seq![0x65u8, 0x6eu8, 0x64u8]
}

/// Skipping nested `whr ... end` blocks from `i`, with `depth` blocks still open.
pub open spec fn whr_from(bytes: Seq<u8>, i: int, depth: int) -> Option<int>
    decreases bytes.len() - i,
{
    let start = spec_skip_trivia(bytes, i);
    if start < i || i < 0 || start > bytes.len() {
        None
    } else if spec_matches_keyword(bytes, start, whr_keyword()) {
        let next = spec_word_end(bytes, start);
        if i < next <= bytes.len() {
            whr_from(bytes, next, depth + 1)
        } else {
            None
        }
    } else if spec_matches_keyword(bytes, start, end_keyword()) {
        let next = spec_word_end(bytes, start);
        if depth - 1 == 0 {
            Some(next)
        } else if i < next <= bytes.len() {
            whr_from(bytes, next, depth - 1)
        } else {
            None
        }
    } else if start >= bytes.len() {
        None
    } else if is_open_bracket(bytes[start]) {
        match spec_find_matching_close(bytes, start) {
            Some(c) => if i < c + 1 <= bytes.len() {
                whr_from(bytes, c + 1, depth)
            } else {
                None
            },
            None => None,
        }
    } else if spec_is_word_byte(bytes[start]) {
        let next = spec_word_end(bytes, start);
        if i < next <= bytes.len() {
            whr_from(bytes, next, depth)
        } else {
            None
        }
    } else {
        whr_from(bytes, start + 1, depth)
    }
}

/// The position right after the `end` that closes the `whr` at `pos`.
pub open spec fn spec_skip_whr(bytes: Seq<u8>, pos: int) -> Option<int> {
    whr_from(bytes, spec_word_end(bytes, pos), 1)
}

pub proof fn lemma_trivia_end_bounds(bytes: Seq<u8>, pos: int, in_comment: bool)
    requires
        0 <= pos,
    ensures
        pos <= trivia_end(bytes, pos, in_comment),
        pos <= bytes.len() ==> trivia_end(bytes, pos, in_comment) <= bytes.len(),
    decreases bytes.len() - pos,
{
    if pos < bytes.len() {
        lemma_trivia_end_bounds(bytes, pos + 1, bytes[pos] != LF);
        lemma_trivia_end_bounds(bytes, pos + 1, false);
        lemma_trivia_end_bounds(bytes, pos + 1, true);
    }
}

pub proof fn lemma_word_end_bounds(bytes: Seq<u8>, pos: int)
    requires
        0 <= pos,
    ensures
        pos <= spec_word_end(bytes, pos),
        pos <= bytes.len() ==> spec_word_end(bytes, pos) <= bytes.len(),
    decreases bytes.len() - pos,
{
    if 0 <= pos < bytes.len() && spec_is_word_byte(bytes[pos]) {
        lemma_word_end_bounds(bytes, pos + 1);
    }
}

pub proof fn lemma_close_from_bounds(bytes: Seq<u8>, i: int, stack: Seq<u8>)
    requires
        0 <= i,
    ensures
        close_from(bytes, i, stack) matches Some(c) ==> i <= c < bytes.len(),
    decreases bytes.len() - i,
{
    let start = spec_skip_trivia(bytes, i);
    if start < i || start < 0 || start >= bytes.len() {
    } else if is_open_bracket(bytes[start]) {
        lemma_close_from_bounds(bytes, start + 1, stack.push(bytes[start]));
    } else if is_close_bracket(bytes[start]) {
        if stack.len() == 0 || stack.last() != opener_of(bytes[start]) {
        } else if stack.len() == 1 {
        } else {
            lemma_close_from_bounds(bytes, start + 1, stack.drop_last());
        }
    } else {
        lemma_close_from_bounds(bytes, start + 1, stack);
    }
}

pub proof fn lemma_binder_from_bounds(bytes: Seq<u8>, i: int)
    requires
        0 <= i,
    ensures
        binder_from(bytes, i) matches Some(n) ==> i < n <= bytes.len(),
    decreases bytes.len() - i,
{
    let start = spec_skip_trivia(bytes, i);
    lemma_trivia_end_bounds(bytes, i, false);
    if start < i || start < 0 || start >= bytes.len() {
    } else if is_open_bracket(bytes[start]) {
        match spec_find_matching_close(bytes, start) {
            Some(c) => if i < c + 1 <= bytes.len() {
                lemma_binder_from_bounds(bytes, c + 1);
            },
            None => {},
        }
    } else if bytes[start] == DOT {
    } else {
        lemma_binder_from_bounds(bytes, start + 1);
    }
}

pub proof fn lemma_whr_from_bounds(bytes: Seq<u8>, i: int, depth: int)
    requires
        0 <= i <= bytes.len(),
    ensures
        whr_from(bytes, i, depth) matches Some(n) ==> i <= n <= bytes.len(),
    decreases bytes.len() - i,
{
    let start = spec_skip_trivia(bytes, i);
    lemma_trivia_end_bounds(bytes, i, false);
    if start < i || i < 0 || start > bytes.len() {
    } else if spec_matches_keyword(bytes, start, whr_keyword()) {
        let next = spec_word_end(bytes, start);
        if i < next <= bytes.len() {
            lemma_whr_from_bounds(bytes, next, depth + 1);
        }
    } else if spec_matches_keyword(bytes, start, end_keyword()) {
        let next = spec_word_end(bytes, start);
        lemma_word_end_bounds(bytes, start);
        if depth - 1 == 0 {
        } else if i < next <= bytes.len() {
            lemma_whr_from_bounds(bytes, next, depth - 1);
        }
    } else if start >= bytes.len() {
    } else if is_open_bracket(bytes[start]) {
        match spec_find_matching_close(bytes, start) {
            Some(c) => if i < c + 1 <= bytes.len() {
                lemma_whr_from_bounds(bytes, c + 1, depth);
            },
            None => {},
        }
    } else if spec_is_word_byte(bytes[start]) {
        let next = spec_word_end(bytes, start);
        if i < next <= bytes.len() {
            lemma_whr_from_bounds(bytes, next, depth);
        }
    } else {
        lemma_whr_from_bounds(bytes, start + 1, depth);
    }
}

/// Skips whitespace and `%`-comments, mirroring the grammar's `WHITESPACE`/`COMMENT` rules.
pub fn skip_trivia(bytes: &[u8], from: usize) -> (r: usize)
    ensures
        r as int == spec_skip_trivia(bytes@, from as int),
        from <= r,
        from <= bytes@.len() ==> r <= bytes@.len(),
{
    proof {
        lemma_trivia_end_bounds(bytes@, from as int, false);
    }
    let mut pos = from;
    let mut in_comment = false;
    while pos < bytes.len()
        invariant
            from <= pos,
            from <= bytes@.len() ==> pos <= bytes@.len(),
            trivia_end(bytes@, pos as int, in_comment) == spec_skip_trivia(bytes@, from as int),
        decreases bytes.len() - pos,
    {
        let byte = bytes[pos];
        if in_comment {
            in_comment = byte != LF;
        } else if byte == SPACE || byte == TAB || byte == CR || byte == LF {
        } else if byte == PERCENT {
            in_comment = true;
        } else {
            return pos;
        }
        pos = pos + 1;
    }
    pos
}

/// Whether `byte` is an identifier/number/keyword character, per the grammar's `Id`.
pub fn is_word_byte(byte: u8) -> (r: bool)
    ensures
        r == spec_is_word_byte(byte),
{
    (0x30 <= byte && byte <= 0x39) || (0x41 <= byte && byte <= 0x5a) || (0x61 <= byte && byte <= 0x7a)
        || byte == UNDERSCORE || byte == QUOTE
}

/// The end of the maximal run of word bytes starting at `from`.
pub fn word_end(bytes: &[u8], from: usize) -> (r: usize)
    ensures
        r as int == spec_word_end(bytes@, from as int),
        from <= r,
        from <= bytes@.len() ==> r <= bytes@.len(),
{
    proof {
        lemma_word_end_bounds(bytes@, from as int);
    }
    let mut pos = from;
    while pos < bytes.len() && is_word_byte(bytes[pos])
        invariant
            from <= pos,
            from <= bytes@.len() ==> pos <= bytes@.len(),
            spec_word_end(bytes@, pos as int) == spec_word_end(bytes@, from as int),
        decreases bytes.len() - pos,
    {
        pos = pos + 1;
    }
    pos
}

/// Whether `keyword` occurs at `pos` as a whole word (not a prefix of a longer identifier).
pub fn matches_keyword(bytes: &[u8], pos: usize, keyword: &[u8]) -> (r: bool)
    requires
        pos <= bytes@.len(),
    ensures
        r == spec_matches_keyword(bytes@, pos as int, keyword@),
{
    if keyword.len() > bytes.len() - pos {
        return false;
    }
    let end = pos + keyword.len();
    let mut i: usize = 0;
    while i < keyword.len()
        invariant
            end == pos + keyword@.len(),
            end <= bytes@.len(),
            i <= keyword@.len(),
            forall|j: int| 0 <= j < i ==> bytes@[pos + j] == keyword@[j],
        decreases keyword.len() - i,
    {
        if bytes[pos + i] != keyword[i] {
            assert(bytes@.subrange(pos as int, pos + keyword@.len())[i as int] != keyword@[i as int]);
            return false;
        }
        i = i + 1;
    }
    assert(bytes@.subrange(pos as int, pos + keyword@.len()) =~= keyword@);
    !(end < bytes.len() && is_word_byte(bytes[end]))
}

/// Given `pos` at an opening `(`/`[`/`{`, returns the index of its matching closing bracket,
/// treating comments as opaque and tracking all three bracket kinds so mismatched nesting inside
/// (e.g. `(a[b]c)`) does not confuse it. Returns `None` on unbalanced/malformed input.
pub fn find_matching_close(bytes: &[u8], pos: usize) -> (r: Option<usize>)
    requires
        pos < bytes@.len(),
    ensures
        r == to_usize_option(spec_find_matching_close(bytes@, pos as int)),
        spec_find_matching_close(bytes@, pos as int) is Some <==> r is Some,
        spec_find_matching_close(bytes@, pos as int) matches Some(n) ==> n == r->0 as int,
        r matches Some(c) ==> pos < c < bytes@.len(),
{
    proof {
        lemma_close_from_bounds(bytes@, pos + 1, seq![bytes@[pos as int]]);
    }
    let mut depth: Vec<u8> = Vec::new();
    depth.push(bytes[pos]);
    let mut i = pos + 1;
    loop
        invariant
            pos < i <= bytes@.len(),
            depth@.len() > 0,
            close_from(bytes@, i as int, depth@) == spec_find_matching_close(bytes@, pos as int),
        decreases bytes.len() - i,
    {
        let start = skip_trivia(bytes, i);
        if start >= bytes.len() {
            return None;
        }
        let byte = bytes[start];
        if byte == LPAREN || byte == LBRACK || byte == LBRACE {
            depth.push(byte);
        } else if byte == RPAREN || byte == RBRACK || byte == RBRACE {
            let open = if byte == RPAREN {
                LPAREN
            } else if byte == RBRACK {
                LBRACK
            } else {
                LBRACE
            };
            let top = depth.pop();
            if top != Some(open) {
                return None;
            }
            if depth.len() == 0 {
                return Some(start);
            }
        }
        i = start + 1;
    }
}

/// Whether the content between `open` (a `(`) and `close` (its matching `)`) could be a
/// `DataExprList` (one or more comma-separated plain `DataExpr`s) — as opposed to empty, or
/// `AssignmentList`-shaped (`x=y, ...`), which `Action`/`ProcExprId` also accept as argument lists
/// but `DataExprApplication` does not. Only a top-level (not inside a further nested bracket) bare
/// `=` is checked for — `==`/`!=`/`<=`/`>=`/`=>` are not assignments.
pub fn looks_like_data_expr_list(bytes: &[u8], open: usize, close: usize) -> (r: bool)
    requires
        open < close < bytes@.len(),
    ensures
        r == spec_looks_like_data_expr_list(bytes@, open as int, close as int),
{
    let mut i = skip_trivia(bytes, open + 1);
    if i >= close {
        return false;
    }
    while i < close
        invariant
            i <= bytes@.len(),
            close < bytes@.len(),
            data_list_from(bytes@, i as int, close as int) == spec_looks_like_data_expr_list(
                bytes@,
                open as int,
                close as int,
            ),
        decreases bytes.len() - i,
    {
        let byte = bytes[i];
        if byte == LPAREN || byte == LBRACK || byte == LBRACE {
            i = match find_matching_close(bytes, i) {
                Some(c) => c + 1,
                None => close,
            };
        } else if byte == EQ && i + 1 < bytes.len() && (bytes[i + 1] == EQ || bytes[i + 1] == GT) {
            i = i + 2;
        } else if (byte == BANG || byte == LT || byte == GT) && i + 1 < bytes.len() && bytes[i + 1] == EQ {
            i = i + 2;
        } else if byte == EQ {
            return false;
        } else {
            i = i + 1;
        }
    }
    true
}

/// Skips a `sum`/`dist`/`forall`/`exists`/`lambda` prefix's `VarsDeclList` (and, for `dist`, the
/// following `"[" DataExpr "]"`), up to and including the terminating `"."`. This is always
/// opaque: its `SortExpr`s can contain their own unrelated `->` (`SortExprFunction`), which must
/// never be mistaken for a condition arrow.
pub fn skip_binder_prefix(bytes: &[u8], pos: usize) -> (r: Option<usize>)
    requires
        pos <= bytes@.len(),
    ensures
        r == to_usize_option(spec_skip_binder_prefix(bytes@, pos as int)),
        spec_skip_binder_prefix(bytes@, pos as int) is Some <==> r is Some,
        spec_skip_binder_prefix(bytes@, pos as int) matches Some(n) ==> n == r->0 as int,
        r matches Some(n) ==> pos < n <= bytes@.len(),
{
    // `dist`'s trailing `"[" DataExpr "]"` is bracketed, so the generic bracket-skip below already
    // treats it as opaque before the terminating "." — nothing further to special-case for it.
    let mut i = word_end(bytes, pos);
    proof {
        lemma_binder_from_bounds(bytes@, i as int);
    }
    loop
        invariant
            pos <= i <= bytes@.len(),
            binder_from(bytes@, i as int) == spec_skip_binder_prefix(bytes@, pos as int),
        decreases bytes.len() - i,
    {
        let start = skip_trivia(bytes, i);
        if start >= bytes.len() {
            return None;
        }
        let byte = bytes[start];
        if byte == LPAREN || byte == LBRACK || byte == LBRACE {
            match find_matching_close(bytes, start) {
                Some(c) => {
                    i = c + 1;
                },
                None => {
                    return None;
                },
            }
        } else if byte == DOT {
            return Some(start + 1);
        } else {
            i = start + 1;
        }
    }
}

/// Skips a `whr AssignmentList end`, which can itself nest another `whr ... end` (its assignments
/// are plain `DataExpr`s, which can carry their own `whr` postfix) — tracked the same way bracket
/// nesting is, just keyed on the keywords instead of punctuation.
pub fn skip_whr(bytes: &[u8], pos: usize) -> (r: Option<usize>)
    requires
        pos <= bytes@.len(),
    ensures
        r == to_usize_option(spec_skip_whr(bytes@, pos as int)),
        r matches Some(n) ==> spec_word_end(bytes@, pos as int) <= n,
        spec_skip_whr(bytes@, pos as int) is Some <==> r is Some,
        spec_skip_whr(bytes@, pos as int) matches Some(n) ==> n == r->0 as int,
        r matches Some(n) ==> pos <= n <= bytes@.len(),
{
    let whr: [u8; 3] = [0x77, 0x68, 0x72];
    let end: [u8; 3] = [0x65, 0x6e, 0x64];
    assert(whr@ =~= whr_keyword());
    assert(end@ =~= end_keyword());
    let mut depth: usize = 1;
    let mut i = word_end(bytes, pos);
    proof {
        lemma_whr_from_bounds(bytes@, i as int, 1);
    }
    loop
        invariant
            pos <= i <= bytes@.len(),
            1 <= depth <= i + 1,
            spec_word_end(bytes@, pos as int) <= i,
            whr@ == whr_keyword(),
            end@ == end_keyword(),
            whr_from(bytes@, i as int, depth as int) == spec_skip_whr(bytes@, pos as int),
        decreases bytes.len() - i,
    {
        let start = skip_trivia(bytes, i);
        if matches_keyword(bytes, start, &whr) {
            depth = depth + 1;
            i = word_end(bytes, start);
            proof {
                assert(start + 3 <= i) by {
                    lemma_keyword_is_word(bytes@, start as int, whr@);
                    lemma_word_end_prefix(bytes@, start as int, 3);
                }
            }
        } else if matches_keyword(bytes, start, &end) {
            depth = depth - 1;
            i = word_end(bytes, start);
            if depth == 0 {
                return Some(i);
            }
            proof {
                assert(start + 3 <= i) by {
                    lemma_keyword_is_word(bytes@, start as int, end@);
                    lemma_word_end_prefix(bytes@, start as int, 3);
                }
            }
        } else {
            if start >= bytes.len() {
                return None;
            }
            let byte = bytes[start];
            if byte == LPAREN || byte == LBRACK || byte == LBRACE {
                match find_matching_close(bytes, start) {
                    Some(c) => {
                        i = c + 1;
                    },
                    None => {
                        return None;
                    },
                }
            } else if is_word_byte(byte) {
                i = word_end(bytes, start);
                proof {
                    lemma_word_end_prefix(bytes@, start as int, 1);
                }
            } else {
                i = start + 1;
            }
        }
    }
}

/// A matched all-word keyword consists of word bytes in the text.
pub proof fn lemma_keyword_is_word(bytes: Seq<u8>, pos: int, keyword: Seq<u8>)
    requires
        spec_matches_keyword(bytes, pos, keyword),
        forall|j: int| 0 <= j < keyword.len() ==> spec_is_word_byte(#[trigger] keyword[j]),
    ensures
        forall|j: int| pos <= j < pos + keyword.len() ==> spec_is_word_byte(#[trigger] bytes[j]),
{
    assert forall|j: int| pos <= j < pos + keyword.len() implies spec_is_word_byte(#[trigger] bytes[j]) by {
        assert(bytes.subrange(pos, pos + keyword.len())[j - pos] == keyword[j - pos]);
    }
}

/// A word run covers every word byte it starts with.
pub proof fn lemma_word_end_prefix(bytes: Seq<u8>, pos: int, n: int)
    requires
        0 <= pos,
        0 <= n,
        pos + n <= bytes.len(),
        forall|j: int| pos <= j < pos + n ==> spec_is_word_byte(#[trigger] bytes[j]),
    ensures
        pos + n <= spec_word_end(bytes, pos),
    decreases n,
{
    lemma_word_end_bounds(bytes, pos);
    if n > 0 {
        assert(spec_is_word_byte(bytes[pos]));
        lemma_word_end_prefix(bytes, pos + 1, n - 1);
    }
}

} // verus!
