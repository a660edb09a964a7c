use vstd::prelude::*;
use crate::lisp::ast::{Expr, SExpr, exprs_view, lemma_exprs_view};
use crate::text::{chars_of, string_from_chars};

verus! {

broadcast use vstd::std_specs::vec::group_vec_axioms;

/// Why a text is not one s-expression.
#[derive(Debug, Clone, Copy, PartialEq, Eq, Structural)]
pub enum ParseError {
    UnexpectedEof,
    UnexpectedCloseParen,
    TrailingInput,
}

/// The message of a parse error.
pub open spec fn parse_error_text(e: ParseError) -> Seq<char> {
    match e {
        ParseError::UnexpectedEof => "unexpected end of input"@,
        ParseError::UnexpectedCloseParen => "unexpected closing paren"@,
        ParseError::TrailingInput => "trailing input after expression"@,
    }
}

impl ParseError {
    /// The message that describes the error.
    pub fn message(&self) -> (s: String)
        ensures
            s@ == parse_error_text(*self),
    {
        match self {
            ParseError::UnexpectedEof => String::from_str("unexpected end of input"),
            ParseError::UnexpectedCloseParen => String::from_str("unexpected closing paren"),
            ParseError::TrailingInput => String::from_str("trailing input after expression"),
        }
    }
}

// ---------------------------------------------------------------------------
// Tokens
// ---------------------------------------------------------------------------

pub open spec fn is_ws(c: char) -> bool {
    c == ' ' || c == '\t' || c == '\n' || c == '\r'
}

pub open spec fn is_delim(c: char) -> bool {
    is_ws(c) || c == '(' || c == ')'
}

/// Index just past the line comment that starts at `i`: past its newline, or the end.
pub open spec fn comment_end(cs: Seq<char>, i: int) -> int
    decreases cs.len() - i,
{
    if i >= cs.len() {
        cs.len() as int
    } else if cs[i] == '\n' {
        i + 1
    } else {
        comment_end(cs, i + 1)
    }
}

/// Index of the first `"` at or after `i`, or the end.
pub open spec fn quote_end(cs: Seq<char>, i: int) -> int
    decreases cs.len() - i,
{
    if i >= cs.len() {
        cs.len() as int
    } else if cs[i] == '"' {
        i
    } else {
        quote_end(cs, i + 1)
    }
}

/// Index of the first whitespace or parenthesis at or after `i`, or the end.
pub open spec fn atom_end(cs: Seq<char>, i: int) -> int
    decreases cs.len() - i,
{
    if i >= cs.len() {
        cs.len() as int
    } else if is_delim(cs[i]) {
        i
    } else {
        atom_end(cs, i + 1)
    }
}

pub proof fn lemma_scan_bounds(cs: Seq<char>, i: int)
    requires
        0 <= i <= cs.len(),
    ensures
        i <= comment_end(cs, i) <= cs.len(),
        i < cs.len() ==> i < comment_end(cs, i),
        i <= quote_end(cs, i) <= cs.len(),
        i <= atom_end(cs, i) <= cs.len(),
    decreases cs.len() - i,
{
    if i < cs.len() {
        lemma_scan_bounds(cs, i + 1);
    }
}

/// The token that a text yields from position `i` on, and where the next one starts:
/// parentheses and the quote mark are tokens of their own; a string literal runs
/// from `"` to the next `"` (or the end); any other token runs to the next
/// whitespace or parenthesis.
pub open spec fn tokens_from(cs: Seq<char>, i: int) -> Seq<Seq<char>>
    decreases cs.len() - i,
{
    if i < 0 || i >= cs.len() {
        Seq::empty()
    } else {
        let c = cs[i];
        if is_ws(c) {
            tokens_from(cs, i + 1)
        } else if c == ';' {
            let j = comment_end(cs, i);
            if i < j <= cs.len() {
                tokens_from(cs, j)
            } else {
                Seq::empty()
            }
        } else if c == '(' || c == ')' || c == '\'' {
            seq![seq![c]] + tokens_from(cs, i + 1)
        } else if c == '"' {
            let j = quote_end(cs, i + 1);
            if i < j < cs.len() {
                seq![seq!['"'] + cs.subrange(i + 1, j) + seq!['"']] + tokens_from(cs, j + 1)
            } else {
                seq![seq!['"'] + cs.subrange(i + 1, cs.len() as int)]
            }
        } else {
            let j = atom_end(cs, i);
            if i < j <= cs.len() {
                seq![cs.subrange(i, j)] + tokens_from(cs, j)
            } else {
                Seq::empty()
            }
        }
    }
}

proof fn lemma_atom_stops(cs: Seq<char>, j: int, i: int)
    requires
        0 <= j <= i < cs.len(),
        is_delim(cs[i]),
    ensures
        atom_end(cs, j) <= i,
    decreases i - j,
{
    if !is_delim(cs[j]) {
        lemma_atom_stops(cs, j + 1, i);
    }
}

/// A space, a tab, a newline and a carriage return each separate tokens: a
/// token never runs across one, and the tokens from one on are those from
/// just after it.
pub proof fn law_whitespace_separates(cs: Seq<char>, i: int)
    requires
        0 <= i < cs.len(),
        cs[i] == ' ' || cs[i] == '\t' || cs[i] == '\n' || cs[i] == '\r',
    ensures
        tokens_from(cs, i) == tokens_from(cs, i + 1),
        forall|j: int| 0 <= j <= i ==> #[trigger] atom_end(cs, j) <= i,
{
    assert forall|j: int| 0 <= j <= i implies #[trigger] atom_end(cs, j) <= i by {
        lemma_atom_stops(cs, j, i);
    }
}

proof fn lemma_same_suffix_scans(a: Seq<char>, b: Seq<char>, j: int)
    requires
        a.len() == b.len(),
        0 <= j <= a.len(),
        forall|k: int| j <= k < a.len() ==> a[k] == b[k],
    ensures
        comment_end(a, j) == comment_end(b, j),
        quote_end(a, j) == quote_end(b, j),
        atom_end(a, j) == atom_end(b, j),
    decreases a.len() - j,
{
    if j < a.len() {
        lemma_same_suffix_scans(a, b, j + 1);
    }
}

proof fn lemma_same_suffix_tokens(a: Seq<char>, b: Seq<char>, j: int)
    requires
        a.len() == b.len(),
        0 <= j,
        forall|k: int| j <= k < a.len() ==> a[k] == b[k],
    ensures
        tokens_from(a, j) == tokens_from(b, j),
    decreases a.len() - j,
{
    if j < a.len() {
        lemma_same_suffix_scans(a, b, j);
        lemma_same_suffix_scans(a, b, j + 1);
        lemma_scan_bounds(a, j);
        lemma_scan_bounds(a, j + 1);
        let c = a[j];
        if is_ws(c) {
            lemma_same_suffix_tokens(a, b, j + 1);
        } else if c == ';' {
            let e = comment_end(a, j);
            if j < e <= a.len() {
                lemma_same_suffix_tokens(a, b, e);
            }
        } else if c == '(' || c == ')' || c == '\'' {
            lemma_same_suffix_tokens(a, b, j + 1);
        } else if c == '"' {
            let e = quote_end(a, j + 1);
            if j < e < a.len() {
                lemma_same_suffix_tokens(a, b, e + 1);
                assert(a.subrange(j + 1, e) =~= b.subrange(j + 1, e));
            } else {
                assert(a.subrange(j + 1, a.len() as int) =~= b.subrange(j + 1, b.len() as int));
            }
        } else {
            let e = atom_end(a, j);
            if j < e <= a.len() {
                lemma_same_suffix_tokens(a, b, e);
                assert(a.subrange(j, e) =~= b.subrange(j, e));
            }
        }
    }
}

/// Where a text has whitespace, which whitespace it is does not matter to the
/// tokens read from there on: a space, a tab, a newline and a carriage return
/// there give the same tokens.
pub proof fn law_whitespace_interchangeable(cs: Seq<char>, i: int, c1: char, c2: char)
    requires
        0 <= i < cs.len(),
        c1 == ' ' || c1 == '\t' || c1 == '\n' || c1 == '\r',
        c2 == ' ' || c2 == '\t' || c2 == '\n' || c2 == '\r',
    ensures
        tokens_from(cs.update(i, c1), i) == tokens_from(cs.update(i, c2), i),
{
    let a = cs.update(i, c1);
    let b = cs.update(i, c2);
    law_whitespace_separates(a, i);
    law_whitespace_separates(b, i);
    lemma_same_suffix_tokens(a, b, i + 1);
}

/// The tokens of a text.
pub open spec fn tokenize_spec(cs: Seq<char>) -> Seq<Seq<char>> {
    tokens_from(cs, 0)
}

pub open spec fn tokens_view(ts: Seq<Vec<char>>) -> Seq<Seq<char>> {
    ts.map_values(|t: Vec<char>| t@)
}

fn is_ws_char(c: char) -> (b: bool)
    ensures
        b == is_ws(c),
{
    c == ' ' || c == '\t' || c == '\n' || c == '\r'
}

fn slice_chars(cs: &Vec<char>, from: usize, to: usize) -> (r: Vec<char>)
    requires
        from <= to <= cs.len(),
    ensures
        r@ == cs@.subrange(from as int, to as int),
{
    let mut r: Vec<char> = Vec::new();
    let mut k = from;
    while k < to
        invariant
            from <= k <= to <= cs.len(),
            r@ == cs@.subrange(from as int, k as int),
        decreases to - k,
    {
        r.push(cs[k]);
        assert(cs@.subrange(from as int, k + 1) == cs@.subrange(from as int, k as int).push(
            cs@[k as int],
        ));
        k += 1;
    }
    r
}

/// Splits text into tokens.
fn tokenize(input: &str) -> (toks: Vec<Vec<char>>)
    ensures
        tokens_view(toks@) == tokenize_spec(input@),
{
    let cs = chars_of(input);
    let ghost all = tokens_from(cs@, 0);
    let mut toks: Vec<Vec<char>> = Vec::new();
    let mut i: usize = 0;
    while i < cs.len()
        invariant
            i <= cs.len(),
            all == tokens_from(cs@, 0),
            tokens_view(toks@) + tokens_from(cs@, i as int) == all,
        decreases cs.len() - i,
    {
        let c = cs[i];
        proof {
            lemma_scan_bounds(cs@, i as int);
            lemma_scan_bounds(cs@, i + 1);
        }
        if is_ws_char(c) {
            i += 1;
        } else if c == ';' {
            let mut k = i;
            let ghost target = comment_end(cs@, i as int);
            loop
                invariant_except_break
                    comment_end(cs@, k as int) == target,
                invariant
                    i <= k <= cs.len(),
                ensures
                    k == target,
                decreases cs.len() - k,
            {
                if k >= cs.len() {
                    break ;
                }
                if cs[k] == '\n' {
                    k += 1;
                    break ;
                }
                k += 1;
            }
            i = k;
        } else if c == '(' || c == ')' || c == '\'' {
            let ghost prev = toks@;
            toks.push(vec![c]);
            proof {
                assert(toks@[toks@.len() - 1]@ =~= seq![c]);
                assert(tokens_view(toks@) =~= tokens_view(prev).push(seq![c]));
                assert(tokens_view(prev) + tokens_from(cs@, i as int) == tokens_view(prev) + (seq![
                    seq![c],
                ] + tokens_from(cs@, i + 1)));
                assert(tokens_view(prev) + (seq![seq![c]] + tokens_from(cs@, i + 1)) =~= tokens_view(
                    prev,
                ).push(seq![c]) + tokens_from(cs@, i + 1));
            }
            i += 1;
        } else if c == '"' {
            let mut k = i + 1;
            let ghost target = quote_end(cs@, i + 1);
            loop
                invariant
                    i + 1 <= k <= cs.len(),
                    quote_end(cs@, k as int) == target,
                ensures
                    k == target,
                decreases cs.len() - k,
            {
                if k >= cs.len() {
                    break ;
                }
                if cs[k] == '"' {
                    break ;
                }
                k += 1;
            }
            let mut tok: Vec<char> = Vec::new();
            tok.push('"');
            let body = slice_chars(&cs, i + 1, k);
            let mut body = body;
            tok.append(&mut body);
            let ghost prev = toks@;
            if k < cs.len() {
                tok.push('"');
                toks.push(tok);
                proof {
                    let t = seq!['"'] + cs@.subrange(i + 1, k as int) + seq!['"'];
                    assert(toks@[toks@.len() - 1]@ =~= t);
                    assert(tokens_view(toks@) =~= tokens_view(prev).push(t));
                    assert(tokens_view(prev) + (seq![t] + tokens_from(cs@, k + 1)) =~= tokens_view(
                        prev,
                    ).push(t) + tokens_from(cs@, k + 1));
                }
                i = k + 1;
            } else {
                toks.push(tok);
                proof {
                    let t = seq!['"'] + cs@.subrange(i + 1, cs@.len() as int);
                    assert(toks@[toks@.len() - 1]@ =~= t);
                    assert(tokens_view(toks@) =~= tokens_view(prev).push(t));
                    assert(tokens_view(prev) + seq![t] =~= tokens_view(prev).push(t));
                    assert(tokens_from(cs@, cs@.len() as int) == Seq::<Seq<char>>::empty());
                    assert(tokens_view(toks@) + tokens_from(cs@, cs@.len() as int) =~= tokens_view(
                        toks@,
                    ));
                }
                i = cs.len();
            }
        } else {
            let mut k = i;
            let ghost target = atom_end(cs@, i as int);
            while k < cs.len()
                invariant
                    i <= k <= cs.len(),
                    atom_end(cs@, k as int) == target,
                ensures
                    k == target,
                decreases cs.len() - k,
            {
                let ch = cs[k];
                if is_ws_char(ch) || ch == '(' || ch == ')' {
                    break ;
                }
                k += 1;
            }
            let tok = slice_chars(&cs, i, k);
            let ghost prev = toks@;
            toks.push(tok);
            proof {
                let t = cs@.subrange(i as int, k as int);
                assert(tokens_view(toks@) =~= tokens_view(prev).push(t));
                assert(tokens_view(prev) + (seq![t] + tokens_from(cs@, k as int)) =~= tokens_view(
                    prev,
                ).push(t) + tokens_from(cs@, k as int));
            }
            i = k;
        }
    }
    proof {
        assert(tokens_view(toks@) + tokens_from(cs@, i as int) =~= tokens_view(toks@));
    }
    toks
}

// ---------------------------------------------------------------------------
// Integers
// ---------------------------------------------------------------------------

pub open spec fn is_digit(c: char) -> bool {
    48 <= (c as u32) <= 57
}

pub open spec fn all_digits(ds: Seq<char>) -> bool {
    forall|i: int| 0 <= i < ds.len() ==> is_digit(#[trigger] ds[i])
}

/// The number that a run of decimal digits spells.
pub open spec fn digits_value(ds: Seq<char>) -> int
    decreases ds.len(),
{
    if ds.len() == 0 {
        0
    } else {
        digits_value(ds.drop_last()) * 10 + ((ds[ds.len() - 1] as u32) - 48)
    }
}

/// The `i64` that a token spells, as Rust's `i64::from_str` reads it: an optional
/// `+` or `-`, then one or more decimal digits, within the range of `i64`.
pub open spec fn parse_i64(t: Seq<char>) -> Option<i64> {
    let signed = t.len() > 0 && (t[0] == '-' || t[0] == '+');
    let ds = if signed {
        t.drop_first()
    } else {
        t
    };
    if ds.len() == 0 || !all_digits(ds) {
        None
    } else {
        let v = if t[0] == '-' {
            -digits_value(ds)
        } else {
            digits_value(ds)
        };
        if i64::MIN <= v <= i64::MAX {
            Some(v as i64)
        } else {
            None
        }
    }
}

proof fn lemma_digits_grow(ds: Seq<char>, k: int)
    requires
        0 <= k <= ds.len(),
        all_digits(ds),
    ensures
        0 <= digits_value(ds.take(k)) <= digits_value(ds),
    decreases ds.len() - k,
{
    if k < ds.len() {
        lemma_digits_grow(ds, k + 1);
        assert(ds.take(k + 1).drop_last() == ds.take(k));
        assert(is_digit(ds[k]));
    } else {
        assert(ds.take(k) == ds);
        lemma_digits_nonneg(ds);
    }
}

proof fn lemma_digits_nonneg(ds: Seq<char>)
    requires
        all_digits(ds),
    ensures
        digits_value(ds) >= 0,
    decreases ds.len(),
{
    if ds.len() > 0 {
        let d = ds.drop_last();
        assert(all_digits(d)) by {
            assert forall|i: int| 0 <= i < d.len() implies is_digit(#[trigger] d[i]) by {
                assert(d[i] == ds[i]);
            }
        }
        lemma_digits_nonneg(d);
        assert(is_digit(ds[ds.len() - 1]));
    }
}

/// Reads a token as an `i64`, as `i64::from_str` does.
fn parse_int(t: &Vec<char>) -> (r: Option<i64>)
    ensures
        r == parse_i64(t@),
{
    let n = t.len();
    let signed = n > 0 && (t[0] == '-' || t[0] == '+');
    let start: usize = if signed {
        1
    } else {
        0
    };
    let ghost ds = if signed {
        t@.drop_first()
    } else {
        t@
    };
    assert(ds == t@.subrange(start as int, n as int));
    if start >= n {
        return None;
    }
    let limit: u64 = 9223372036854775808u64;
    let mut mag: u64 = 0;
    let mut k = start;
    while k < n
        invariant
            start <= k <= n,
            n == t@.len(),
            ds == t@.subrange(start as int, n as int),
            ds == (if t@.len() > 0 && (t@[0] == '-' || t@[0] == '+') {
                t@.drop_first()
            } else {
                t@
            }),
            mag as int == digits_value(ds.take(k - start)),
            all_digits(ds.take(k - start)),
            mag <= limit,
            limit == 9223372036854775808u64,
        decreases n - k,
    {
        let c = t[k];
        let cu = c as u32;
        assert(cu == ds[k - start] as u32);
        if !(48 <= cu && cu <= 57) {
            assert(!all_digits(ds)) by {
                assert(ds[k - start] == c);
                assert(!is_digit(ds[k - start]));
            }
            return None;
        }
        let d = (cu - 48) as u64;
        proof {
            assert(ds.take(k - start + 1).drop_last() == ds.take(k - start));
            assert(ds[k - start] == c);
            assert(ds.take(k - start + 1)[k - start] == c);
        }
        if mag > (limit - d) / 10 {
            proof {
                assert(digits_value(ds.take(k - start + 1)) > limit);
                if all_digits(ds) {
                    lemma_digits_grow(ds, k - start + 1);
                }
            }
            return None;
        }
        mag = mag * 10 + d;
        assert(all_digits(ds.take(k - start + 1))) by {
            assert forall|i: int| 0 <= i < k - start + 1 implies is_digit(
                #[trigger] ds.take(k - start + 1)[i],
            ) by {
                if i < k - start {
                    assert(ds.take(k - start + 1)[i] == ds.take(k - start)[i]);
                }
            }
        }
        k += 1;
    }
    assert(ds.take(n - start) == ds);
    if t[0] == '-' {
        if mag == limit {
            Some(i64::MIN)
        } else {
            Some(-(mag as i64))
        }
    } else {
        if mag == limit {
            None
        } else {
            Some(mag as i64)
        }
    }
}

// ---------------------------------------------------------------------------
// Expressions
// ---------------------------------------------------------------------------

pub open spec fn quote_symbol() -> Seq<char> {
    seq!['q', 'u', 'o', 't', 'e']
}

/// The expression that starts at token `pos`, and the position after it.
pub open spec fn parse_at(toks: Seq<Seq<char>>, pos: int) -> Result<(SExpr, int), ParseError>
    decreases toks.len() - pos, 0int,
{
    if pos < 0 || pos >= toks.len() {
        Err(ParseError::UnexpectedEof)
    } else {
        let tok = toks[pos];
        if tok == seq!['('] {
            parse_items(toks, pos + 1, Seq::empty())
        } else if tok == seq![')'] {
            Err(ParseError::UnexpectedCloseParen)
        } else if tok == seq!['\''] {
            match parse_at(toks, pos + 1) {
                Ok((e, p)) => Ok((SExpr::List(seq![SExpr::Symbol(quote_symbol()), e]), p)),
                Err(err) => Err(err),
            }
        } else if tok.len() >= 2 && tok[0] == '"' && tok[tok.len() - 1] == '"' {
            Ok(
                (
                    SExpr::List(
                        seq![
                            SExpr::Symbol(quote_symbol()),
                            SExpr::Symbol(tok.subrange(1, tok.len() - 1)),
                        ],
                    ),
                    pos + 1,
                ),
            )
        } else {
            match parse_i64(tok) {
                Some(n) => Ok((SExpr::Number(n), pos + 1)),
                None => Ok((SExpr::Symbol(tok), pos + 1)),
            }
        }
    }
}

/// The rest of a list whose elements so far are `acc`, from token `pos`.
pub open spec fn parse_items(toks: Seq<Seq<char>>, pos: int, acc: Seq<SExpr>) -> Result<
    (SExpr, int),
    ParseError,
>
    decreases toks.len() - pos, 1int,
{
    if pos < 0 || pos >= toks.len() {
        Err(ParseError::UnexpectedEof)
    } else if toks[pos] == seq![')'] {
        Ok((SExpr::List(acc), pos + 1))
    } else {
        match parse_at(toks, pos) {
            Err(err) => Err(err),
            Ok((e, p)) => if pos < p <= toks.len() {
                parse_items(toks, p, acc.push(e))
            } else {
                Err(ParseError::UnexpectedEof)
            },
        }
    }
}

/// Every successful parse consumes at least one token and stays within the input.
pub proof fn lemma_parse_advances(toks: Seq<Seq<char>>, pos: int)
    ensures
        parse_at(toks, pos) matches Ok((_, p)) ==> pos < p <= toks.len(),
    decreases toks.len() - pos, 0int,
{
    if 0 <= pos < toks.len() {
        let tok = toks[pos];
        if tok == seq!['('] {
            lemma_items_advance(toks, pos + 1, Seq::empty());
        } else if tok == seq!['\''] {
            lemma_parse_advances(toks, pos + 1);
        }
    }
}

pub proof fn lemma_items_advance(toks: Seq<Seq<char>>, pos: int, acc: Seq<SExpr>)
    ensures
        parse_items(toks, pos, acc) matches Ok((_, p)) ==> pos < p <= toks.len(),
    decreases toks.len() - pos, 1int,
{
    if 0 <= pos < toks.len() && toks[pos] != seq![')'] {
        lemma_parse_advances(toks, pos);
        match parse_at(toks, pos) {
            Ok((e, p)) => {
                if pos < p <= toks.len() {
                    lemma_items_advance(toks, p, acc.push(e));
                }
            },
            Err(_) => {},
        }
    }
}

/// One s-expression read from a whole text.
pub open spec fn parse_spec(cs: Seq<char>) -> Result<SExpr, ParseError> {
    let toks = tokenize_spec(cs);
    if toks.len() == 0 {
        Err(ParseError::UnexpectedEof)
    } else {
        match parse_at(toks, 0) {
            Err(err) => Err(err),
            Ok((e, p)) => if p < toks.len() {
                Err(ParseError::TrailingInput)
            } else {
                Ok(e)
            },
        }
    }
}

/// All top-level expressions from token `pos` on.
pub open spec fn parse_all(toks: Seq<Seq<char>>, pos: int) -> Result<Seq<SExpr>, ParseError>
    decreases toks.len() - pos,
{
    if pos < 0 || pos >= toks.len() {
        Ok(Seq::empty())
    } else {
        match parse_at(toks, pos) {
            Err(err) => Err(err),
            Ok((e, p)) => if pos < p <= toks.len() {
                match parse_all(toks, p) {
                    Ok(rest) => Ok(seq![e] + rest),
                    Err(err) => Err(err),
                }
            } else {
                Err(ParseError::UnexpectedEof)
            },
        }
    }
}

/// Every top-level expression of a text.
pub open spec fn parse_many_spec(cs: Seq<char>) -> Result<Seq<SExpr>, ParseError> {
    parse_all(tokenize_spec(cs), 0)
}

fn tok_is(t: &Vec<char>, c: char) -> (b: bool)
    ensures
        b == (t@ == seq![c]),
{
    if t.len() == 1 && t[0] == c {
        assert(t@ =~= seq![c]);
        true
    } else {
        assert(t@.len() != 1 || t@[0] != c);
        false
    }
}

fn quote_string() -> (s: String)
    ensures
        s@ == quote_symbol(),
{
    string_from_chars(&['q', 'u', 'o', 't', 'e'])
}

fn parse_tokens(toks: &Vec<Vec<char>>, pos: &mut usize) -> (r: Result<Expr, ParseError>)
    ensures
        match parse_at(tokens_view(toks@), *old(pos) as int) {
            Ok((e, p)) => r matches Ok(x) && x@ == e && *final(pos) as int == p,
            Err(err) => r == Err::<Expr, ParseError>(err),
        },
    decreases toks.len() - *old(pos), 0int,
{
    let ghost tv = tokens_view(toks@);
    let ghost p0 = *pos as int;
    assert(tv.len() == toks@.len());
    if *pos >= toks.len() {
        return Err(ParseError::UnexpectedEof);
    }
    let tok = &toks[*pos];
    assert(tv[p0] == tok@);
    if tok_is(tok, '(') {
        *pos += 1;
        let mut elems: Vec<Expr> = Vec::new();
        loop
            invariant
                p0 < *pos <= toks.len(),
                p0 == *old(pos) as int,
                tv == tokens_view(toks@),
                tv.len() == toks@.len(),
                tv[p0] == seq!['('],
                parse_at(tv, p0) == parse_items(tv, *pos as int, exprs_view(elems@)),
            decreases toks.len() - *pos,
        {
            if *pos >= toks.len() {
                return Err(ParseError::UnexpectedEof);
            }
            assert(tv[*pos as int] == toks@[*pos as int]@);
            if tok_is(&toks[*pos], ')') {
                *pos += 1;
                return Ok(Expr::List(elems));
            }
            let ghost before = *pos as int;
            proof {
                lemma_parse_advances(tv, before);
            }
            let e = parse_tokens(toks, pos)?;
            let ghost prev = elems@;
            elems.push(e);
            proof {
                assert(elems@.drop_last() == prev);
            }
        }
    } else if tok_is(tok, ')') {
        Err(ParseError::UnexpectedCloseParen)
    } else if tok_is(tok, '\'') {
        *pos += 1;
        let inner = parse_tokens(toks, pos)?;
        let mut v: Vec<Expr> = Vec::new();
        v.push(Expr::Symbol(quote_string()));
        v.push(inner);
        proof {
            lemma_exprs_view(v@);
            assert(exprs_view(v@) =~= seq![SExpr::Symbol(quote_symbol()), inner@]);
        }
        Ok(Expr::List(v))
    } else if tok.len() >= 2 && tok[0] == '"' && tok[tok.len() - 1] == '"' {
        *pos += 1;
        let content = slice_chars(tok, 1, tok.len() - 1);
        let mut v: Vec<Expr> = Vec::new();
        v.push(Expr::Symbol(quote_string()));
        v.push(Expr::Symbol(string_from_chars(content.as_slice())));
        proof {
            lemma_exprs_view(v@);
            assert(exprs_view(v@) =~= seq![
                SExpr::Symbol(quote_symbol()),
                SExpr::Symbol(tok@.subrange(1, tok@.len() - 1)),
            ]);
        }
        Ok(Expr::List(v))
    } else {
        match parse_int(tok) {
            Some(n) => {
                *pos += 1;
                Ok(Expr::Number(n))
            },
            None => {
                *pos += 1;
                Ok(Expr::Symbol(string_from_chars(tok.as_slice())))
            },
        }
    }
}

/// Parses a single s-expression from a string.
pub fn parse(input: &str) -> (r: Result<Expr, ParseError>)
    ensures
        match parse_spec(input@) {
            Ok(e) => r matches Ok(x) && x@ == e,
            Err(err) => r == Err::<Expr, ParseError>(err),
        },
{
    let tokens = tokenize(input);
    if tokens.len() == 0 {
        return Err(ParseError::UnexpectedEof);
    }
    let mut pos: usize = 0;
    let expr = parse_tokens(&tokens, &mut pos)?;
    if pos < tokens.len() {
        return Err(ParseError::TrailingInput);
    }
    Ok(expr)
}

/// Parses every top-level expression of a string.
pub fn parse_many(input: &str) -> (r: Result<Vec<Expr>, ParseError>)
    ensures
        match parse_many_spec(input@) {
            Ok(es) => r matches Ok(xs) && exprs_view(xs@) == es,
            Err(err) => r == Err::<Vec<Expr>, ParseError>(err),
        },
{
    let tokens = tokenize(input);
    let ghost tv = tokens_view(tokens@);
    let mut pos: usize = 0;
    let mut exprs: Vec<Expr> = Vec::new();
    while pos < tokens.len()
        invariant
            pos <= tokens.len(),
            tv == tokens_view(tokens@),
            tv == tokenize_spec(input@),
            parse_all(tv, 0) == match parse_all(tv, pos as int) {
                Ok(rest) => Ok(exprs_view(exprs@) + rest),
                Err(err) => Err(err),
            },
        decreases tokens.len() - pos,
    {
        let ghost before = pos as int;
        proof {
            lemma_parse_advances(tv, before);
        }
        let e = parse_tokens(&tokens, &mut pos)?;
        let ghost prev = exprs@;
        exprs.push(e);
        proof {
            assert(exprs@.drop_last() == prev);
            match parse_all(tv, pos as int) {
                Ok(rest) => {
                    assert(exprs_view(prev) + (seq![e@] + rest) =~= exprs_view(exprs@) + rest);
                },
                Err(_) => {},
            }
        }
    }
    proof {
        assert(exprs_view(exprs@) + Seq::<SExpr>::empty() =~= exprs_view(exprs@));
    }
    Ok(exprs)
}

} // verus!
