//! The surface grammar: text to a parsed program.
//!
//! ```text
//! program := [ "data" "{" { ident ":" | "[" number { "," number } "]" | string } "}" ] { stmt }
//! stmt    := "if" expr block [ "else" block ] | "while" expr block
//!          | "for" ident "=" expr "to" expr block
//!          | "fn" ident "(" [ ident { "," ident } ] ")" block
//!          | "goto" ident ";" | "label" ident ";"
//!          | "[" expr "]" ":=" expr ";" | "b[" expr "]" ":=" expr ";"
//!          | ident ":=" expr ";" | ident "(" args ")" ";"
//! block   := "{" { stmt } "}"
//! expr    := bitwise [ ( "<" | ">" | "<=" | ">=" | "==" | "!=" ) bitwise ]
//! bitwise := shift { ( "&" | "|" | "^" ) shift }
//! shift   := sum { ( "<<" | ">>" ) sum }
//! sum     := product { ( "+" | "-" ) product }
//! product := unary { ( "*" | "/" | "%" ) unary }
//! unary   := "!" unary | "&" ident | atom
//! atom    := number | "[" expr "]" | "b[" expr "]" | "(" expr ")"
//!          | ident "(" [ expr { "," expr } ] ")" | ident
//! ```
//! A `for` loop's end is exclusive. Whitespace separates tokens anywhere.
use vstd::prelude::*;

use crate::ast::{AssignTarget, Block, DataBlock, DataDef, Expr, Line, LineData};

verus! {

/// Where the input stopped matching a rule.
#[derive(Debug, Clone, Copy, PartialEq, Eq, Structural)]
pub struct ParseError {
    /// The index of the first character that does not fit.
    pub offset: usize,
}

/// A character that may start an identifier: an ASCII letter or `_`.
pub open spec fn ident_start(c: char) -> bool {
    ('a' <= c && c <= 'z') || ('A' <= c && c <= 'Z') || c == '_'
}

/// A character that may follow in an identifier: also an ASCII digit.
pub open spec fn ident_continue(c: char) -> bool {
    ident_start(c) || ('0' <= c && c <= '9')
}

/// The characters from `i` on may stand after the first one of an identifier.
pub open spec fn ident_tail(s: Seq<char>, i: int) -> bool {
    forall|k: int| i <= k < s.len() ==> ident_continue(#[trigger] s[k])
}

/// `s` is an identifier: a letter or `_`, then letters, digits and `_`.
pub open spec fn is_ident(s: Seq<char>) -> bool {
    s.len() > 0 && ident_start(s[0]) && ident_tail(s, 1)
}

fn is_ident_start(c: char) -> (r: bool)
    ensures
        r == ident_start(c),
{
    ('a' <= c && c <= 'z') || ('A' <= c && c <= 'Z') || c == '_'
}

fn is_ident_continue(c: char) -> (r: bool)
    ensures
        r == ident_continue(c),
{
    is_ident_start(c) || ('0' <= c && c <= '9')
}

/// Matches the whole input as an identifier and returns it; the error names
/// the first character that does not fit (or offset 0 for empty input).
pub fn ident(input: &str) -> (r: Result<String, ParseError>)
    ensures
        r is Ok <==> is_ident(input@),
        r matches Ok(s) ==> s@ == input@,
        r matches Err(e) ==> e.offset <= input@.len() && (e.offset == 0 || e.offset < input@.len())
            && (forall|k: int| 0 < k < e.offset ==> ident_continue(#[trigger] input@[k])) && (
        e.offset == 0 ==> input@.len() == 0 || !ident_start(input@[0])) && (e.offset > 0
            ==> !ident_continue(input@[e.offset as int])),
{
    let n = input.unicode_len();
    if n == 0 || !is_ident_start(input.get_char(0)) {
        return Err(ParseError { offset: 0 });
    }
    let mut i: usize = 1;
    while i < n
        invariant
            1 <= i <= n,
            n == input@.len(),
            forall|k: int| 0 < k < i ==> ident_continue(#[trigger] input@[k]),
        decreases n - i,
    {
        if !is_ident_continue(input.get_char(i)) {
            return Err(ParseError { offset: i });
        }
        i = i + 1;
    }
    Ok(String::from_str(input))
}

/// The decimal value of the digits `d`.
pub open spec fn digits_value(d: Seq<char>) -> nat
    decreases d.len(),
{
    if d.len() == 0 {
        0
    } else {
        digits_value(d.drop_last()) * 10 + ((d.last() as u32) - 48) as nat
    }
}

/// An ASCII digit.
pub open spec fn is_digit(c: char) -> bool {
    '0' <= c && c <= '9'
}

/// A character that only separates tokens.
pub open spec fn is_space(c: char) -> bool {
    c == ' ' || c == '\t' || c == '\n' || c == '\r'
}

/// The characters of `input`.
fn chars_of(input: &str) -> (r: Vec<char>)
    ensures
        r@ == input@,
{
    let n = input.unicode_len();
    let mut out: Vec<char> = Vec::new();
    let mut i: usize = 0;
    while i < n
        invariant
            n == input@.len(),
            i <= n,
            out@ == input@.subrange(0, i as int),
        decreases n - i,
    {
        out.push(input.get_char(i));
        i = i + 1;
        proof {
            assert(out@ =~= input@.subrange(0, i as int));
        }
    }
    proof {
        assert(input@.subrange(0, n as int) =~= input@);
    }
    out
}

/// The first position at or after `pos` that holds no whitespace.
fn skip_space(s: &Vec<char>, pos: usize) -> (r: usize)
    requires
        pos <= s@.len(),
    ensures
        pos <= r <= s@.len(),
        r == s@.len() || !is_space(s@[r as int]),
        forall|k: int| pos <= k < r ==> is_space(#[trigger] s@[k]),
{
    let mut i = pos;
    while i < s.len() && (s[i] == ' ' || s[i] == '\t' || s[i] == '\n' || s[i] == '\r')
        invariant
            pos <= i <= s@.len(),
            forall|k: int| pos <= k < i ==> is_space(#[trigger] s@[k]),
        decreases s@.len() - i,
    {
        i = i + 1;
    }
    i
}

/// After whitespace, the character `c`: the position after it.
fn eat(s: &Vec<char>, pos: usize, c: char) -> (r: Option<usize>)
    requires
        pos <= s@.len(),
    ensures
        r matches Some(end) ==> pos < end <= s@.len() && s@[end - 1] == c,
{
    let i = skip_space(s, pos);
    if i < s.len() && s[i] == c {
        Some(i + 1)
    } else {
        None
    }
}

/// After whitespace, the two characters `a` and `b`: the position after them.
fn eat2(s: &Vec<char>, pos: usize, a: char, b: char) -> (r: Option<usize>)
    requires
        pos <= s@.len(),
    ensures
        r matches Some(end) ==> pos + 1 < end <= s@.len(),
{
    let i = skip_space(s, pos);
    if i < s.len() && s.len() - i >= 2 && s[i] == a && s[i + 1] == b {
        Some(i + 2)
    } else {
        None
    }
}

/// After whitespace, an identifier and the position after it.
fn parse_ident(s: &Vec<char>, pos: usize) -> (r: Result<(String, usize), ParseError>)
    requires
        pos <= s@.len(),
    ensures
        r matches Ok((name, end)) ==> pos < end <= s@.len() && is_ident(name@),
        r matches Ok((name, end)) ==> name@.len() <= end && name@ == s@.subrange(
            end - name@.len(),
            end as int,
        ),
        r matches Ok((name, end)) ==> end == s@.len() || !ident_continue(s@[end as int]),
        r matches Err(e) ==> e.offset <= s@.len(),
{
    let start = skip_space(s, pos);
    if start >= s.len() || !is_ident_start(s[start]) {
        return Err(ParseError { offset: start });
    }
    let mut name = String::new();
    let mut end = start;
    while end < s.len() && is_ident_continue(s[end])
        invariant
            start <= end <= s@.len(),
            start < s@.len(),
            ident_start(s@[start as int]),
            name@ == s@.subrange(start as int, end as int),
            forall|k: int| start <= k < end ==> ident_continue(#[trigger] s@[k]),
        decreases s@.len() - end,
    {
        name.append(char_str(s[end]).as_str());
        end = end + 1;
        proof {
            assert(name@ =~= s@.subrange(start as int, end as int));
        }
    }
    proof {
        assert(name@[0] == s@[start as int]);
        assert forall|k: int| 1 <= k < name@.len() implies ident_continue(#[trigger] name@[k]) by {
            assert(name@[k] == s@[start + k]);
        }
    }
    Ok((name, end))
}

/// Relies on `char::to_string`: the one-character string holding `c`.
#[verifier::external_body]
fn char_str(c: char) -> (r: String)
    ensures
        r@ == seq![c],
{
    c.to_string()
}

/// After whitespace, a decimal number that fits in 32 bits.
fn parse_number(s: &Vec<char>, pos: usize) -> (r: Result<(u32, usize), ParseError>)
    requires
        pos <= s@.len(),
    ensures
        r matches Ok((_, end)) ==> pos < end <= s@.len(),
        r matches Ok((_, end)) ==> end == s@.len() || !is_digit(s@[end as int]),
        r matches Err(e) ==> e.offset <= s@.len(),
{
    let start = skip_space(s, pos);
    if start >= s.len() || !(s[start] >= '0' && s[start] <= '9') {
        return Err(ParseError { offset: start });
    }
    let mut value: u32 = 0;
    let mut end = start;
    proof {
        assert(s@.subrange(start as int, start as int) =~= Seq::<char>::empty());
    }
    while end < s.len() && s[end] >= '0' && s[end] <= '9'
        invariant
            start <= end <= s@.len(),
            start < s@.len(),
            is_digit(s@[start as int]),
            value == digits_value(s@.subrange(start as int, end as int)),
        decreases s@.len() - end,
    {
        let d = (s[end] as u32) - 48;
        if value > 429496729 || (value == 429496729 && d > 5) {
            return Err(ParseError { offset: end });
        }
        proof {
            assert(s@.subrange(start as int, end + 1).drop_last() =~= s@.subrange(
                start as int,
                end as int,
            ));
        }
        value = value * 10 + d;
        end = end + 1;
    }
    Ok((value, end))
}

/// Whether `name` is `word`.
fn is_word(name: &String, word: &str) -> (r: bool)
    ensures
        r == (name@ == word@),
{
    *name == String::from_str(word)
}

/// A left-associative chain of `unary`s joined by `*`, `/` or `%`.
fn parse_product(s: &Vec<char>, pos: usize) -> (r: Result<(Expr, usize), ParseError>)
    requires
        pos <= s@.len(),
    ensures
        r matches Ok((_, end)) ==> pos < end <= s@.len(),
        r matches Err(e) ==> e.offset <= s@.len(),
    decreases s@.len() - pos, 2nat,
{
    let (mut left, mut end) = match parse_unary(s, pos) {
        Ok(x) => x,
        Err(e) => return Err(e),
    };
    loop
        invariant
            pos < end <= s@.len(),
        decreases s@.len() - end,
    {
        let (op, next) = if let Some(n) = eat(s, end, '*') {
            (0u8, n)
        } else if let Some(n) = eat(s, end, '/') {
            (1u8, n)
        } else if let Some(n) = eat(s, end, '%') {
            (2u8, n)
        } else {
            return Ok((left, end));
        };
        let (right, after) = match parse_unary(s, next) {
            Ok(x) => x,
            Err(e) => return Err(e),
        };
        left = if op == 0 {
            Expr::Mul(Box::new(left), Box::new(right))
        } else if op == 1 {
            Expr::Div(Box::new(left), Box::new(right))
        } else {
            Expr::Mod(Box::new(left), Box::new(right))
        };
        end = after;
    }
}

/// A left-associative chain of products joined by `+` or `-`.
fn parse_sum(s: &Vec<char>, pos: usize) -> (r: Result<(Expr, usize), ParseError>)
    requires
        pos <= s@.len(),
    ensures
        r matches Ok((_, end)) ==> pos < end <= s@.len(),
        r matches Err(e) ==> e.offset <= s@.len(),
    decreases s@.len() - pos, 3nat,
{
    let (mut left, mut end) = match parse_product(s, pos) {
        Ok(x) => x,
        Err(e) => return Err(e),
    };
    loop
        invariant
            pos < end <= s@.len(),
        decreases s@.len() - end,
    {
        let (add, next) = if let Some(n) = eat(s, end, '+') {
            (true, n)
        } else if let Some(n) = eat(s, end, '-') {
            (false, n)
        } else {
            return Ok((left, end));
        };
        let (right, after) = match parse_product(s, next) {
            Ok(x) => x,
            Err(e) => return Err(e),
        };
        left = if add {
            Expr::Add(Box::new(left), Box::new(right))
        } else {
            Expr::Sub(Box::new(left), Box::new(right))
        };
        end = after;
    }
}

/// A left-associative chain of sums joined by `<<` or `>>`.
fn parse_shift(s: &Vec<char>, pos: usize) -> (r: Result<(Expr, usize), ParseError>)
    requires
        pos <= s@.len(),
    ensures
        r matches Ok((_, end)) ==> pos < end <= s@.len(),
        r matches Err(e) ==> e.offset <= s@.len(),
    decreases s@.len() - pos, 4nat,
{
    let (mut left, mut end) = match parse_sum(s, pos) {
        Ok(x) => x,
        Err(e) => return Err(e),
    };
    loop
        invariant
            pos < end <= s@.len(),
        decreases s@.len() - end,
    {
        let (shl, next) = if let Some(n) = eat2(s, end, '<', '<') {
            (true, n)
        } else if let Some(n) = eat2(s, end, '>', '>') {
            (false, n)
        } else {
            return Ok((left, end));
        };
        let (right, after) = match parse_sum(s, next) {
            Ok(x) => x,
            Err(e) => return Err(e),
        };
        left = if shl {
            Expr::Shl(Box::new(left), Box::new(right))
        } else {
            Expr::Shr(Box::new(left), Box::new(right))
        };
        end = after;
    }
}

/// A left-associative chain of shifts joined by `&`, `|` or `^`.
fn parse_bitwise(s: &Vec<char>, pos: usize) -> (r: Result<(Expr, usize), ParseError>)
    requires
        pos <= s@.len(),
    ensures
        r matches Ok((_, end)) ==> pos < end <= s@.len(),
        r matches Err(e) ==> e.offset <= s@.len(),
    decreases s@.len() - pos, 5nat,
{
    let (mut left, mut end) = match parse_shift(s, pos) {
        Ok(x) => x,
        Err(e) => return Err(e),
    };
    loop
        invariant
            pos < end <= s@.len(),
        decreases s@.len() - end,
    {
        let (op, next) = if let Some(n) = eat(s, end, '&') {
            (0u8, n)
        } else if let Some(n) = eat(s, end, '|') {
            (1u8, n)
        } else if let Some(n) = eat(s, end, '^') {
            (2u8, n)
        } else {
            return Ok((left, end));
        };
        let (right, after) = match parse_shift(s, next) {
            Ok(x) => x,
            Err(e) => return Err(e),
        };
        left = if op == 0 {
            Expr::BitAnd(Box::new(left), Box::new(right))
        } else if op == 1 {
            Expr::BitOr(Box::new(left), Box::new(right))
        } else {
            Expr::BitXor(Box::new(left), Box::new(right))
        };
        end = after;
    }
}

/// An expression: bitwise terms with at most one comparison between two.
fn parse_expr(s: &Vec<char>, pos: usize) -> (r: Result<(Expr, usize), ParseError>)
    requires
        pos <= s@.len(),
    ensures
        r matches Ok((_, end)) ==> pos < end <= s@.len(),
        r matches Err(e) ==> e.offset <= s@.len(),
    decreases s@.len() - pos, 6nat,
{
    let (left, end) = match parse_bitwise(s, pos) {
        Ok(x) => x,
        Err(e) => return Err(e),
    };
    // two-character operators first, so that `<=` is not read as `<`
    let (op, next) = if let Some(n) = eat2(s, end, '<', '=') {
        (2u8, n)
    } else if let Some(n) = eat2(s, end, '>', '=') {
        (3u8, n)
    } else if let Some(n) = eat2(s, end, '=', '=') {
        (4u8, n)
    } else if let Some(n) = eat2(s, end, '!', '=') {
        (5u8, n)
    } else if let Some(n) = eat(s, end, '<') {
        (0u8, n)
    } else if let Some(n) = eat(s, end, '>') {
        (1u8, n)
    } else {
        return Ok((left, end));
    };
    let (right, after) = match parse_bitwise(s, next) {
        Ok(x) => x,
        Err(e) => return Err(e),
    };
    let (l, r) = (Box::new(left), Box::new(right));
    let e = if op == 0 {
        Expr::Lt(l, r)
    } else if op == 1 {
        Expr::Gt(l, r)
    } else if op == 2 {
        Expr::Leq(l, r)
    } else if op == 3 {
        Expr::Geq(l, r)
    } else if op == 4 {
        Expr::Eq(l, r)
    } else {
        Expr::Neq(l, r)
    };
    Ok((e, after))
}

/// `!` and `&` prefixes, or an atom.
fn parse_unary(s: &Vec<char>, pos: usize) -> (r: Result<(Expr, usize), ParseError>)
    requires
        pos <= s@.len(),
    ensures
        r matches Ok((_, end)) ==> pos < end <= s@.len(),
        r matches Err(e) ==> e.offset <= s@.len(),
    decreases s@.len() - pos, 1nat,
{
    if let Some(n) = eat(s, pos, '!') {
        match parse_unary(s, n) {
            Ok((e, end)) => Ok((Expr::Invert(Box::new(e)), end)),
            Err(e) => Err(e),
        }
    } else if let Some(n) = eat(s, pos, '&') {
        match parse_ident(s, n) {
            Ok((name, end)) => Ok((Expr::VarAddress(name), end)),
            Err(e) => Err(e),
        }
    } else {
        parse_atom(s, pos)
    }
}

/// Comma-separated expressions up to a closing `)`, which is consumed.
fn parse_args(s: &Vec<char>, pos: usize) -> (r: Result<(Vec<Expr>, usize), ParseError>)
    requires
        pos <= s@.len(),
    ensures
        r matches Ok((_, end)) ==> pos < end <= s@.len(),
        r matches Err(e) ==> e.offset <= s@.len(),
    decreases s@.len() - pos, 7nat,
{
    let mut args: Vec<Expr> = Vec::new();
    if let Some(n) = eat(s, pos, ')') {
        return Ok((args, n));
    }
    let mut end = pos;
    loop
        invariant
            pos <= end <= s@.len(),
        decreases s@.len() - end,
    {
        let (e, after) = match parse_expr(s, end) {
            Ok(x) => x,
            Err(e) => return Err(e),
        };
        args.push(e);
        if let Some(n) = eat(s, after, ')') {
            return Ok((args, n));
        }
        match eat(s, after, ',') {
            Some(n) => {
                end = n;
            },
            None => return Err(ParseError { offset: skip_space(s, after) }),
        }
    }
}

/// A number, a dereference, a parenthesised expression, a call or a variable.
fn parse_atom(s: &Vec<char>, pos: usize) -> (r: Result<(Expr, usize), ParseError>)
    requires
        pos <= s@.len(),
    ensures
        r matches Ok((_, end)) ==> pos < end <= s@.len(),
        r matches Err(e) ==> e.offset <= s@.len(),
    decreases s@.len() - pos, 0nat,
{
    let start = skip_space(s, pos);
    if start >= s.len() {
        return Err(ParseError { offset: start });
    }
    if s[start] >= '0' && s[start] <= '9' {
        return match parse_number(s, start) {
            Ok((v, end)) => Ok((Expr::Literal(v), end)),
            Err(e) => Err(e),
        };
    }
    let byte = start + 1 < s.len() && s[start] == 'b' && s[start + 1] == '[';
    if s[start] == '[' || byte {
        let open = if byte {
            start + 2
        } else {
            start + 1
        };
        let (inner, after) = match parse_expr(s, open) {
            Ok(x) => x,
            Err(e) => return Err(e),
        };
        return match eat(s, after, ']') {
            Some(end) => if byte {
                Ok((Expr::DerefByte(Box::new(inner)), end))
            } else {
                Ok((Expr::Deref(Box::new(inner)), end))
            },
            None => Err(ParseError { offset: skip_space(s, after) }),
        };
    }
    if s[start] == '(' {
        let (inner, after) = match parse_expr(s, start + 1) {
            Ok(x) => x,
            Err(e) => return Err(e),
        };
        return match eat(s, after, ')') {
            Some(end) => Ok((inner, end)),
            None => Err(ParseError { offset: skip_space(s, after) }),
        };
    }
    let (name, after) = match parse_ident(s, start) {
        Ok(x) => x,
        Err(e) => return Err(e),
    };
    match eat(s, after, '(') {
        Some(n) => match parse_args(s, n) {
            Ok((args, end)) => Ok((Expr::FunCall(name, args), end)),
            Err(e) => Err(e),
        },
        None => Ok((Expr::Var(name), after)),
    }
}

/// Parses the whole input as one expression.
pub fn expression(input: &str) -> (r: Result<Expr, ParseError>)
    ensures
        r matches Err(e) ==> e.offset <= input@.len(),
        input@.len() == 0 ==> r is Err,
{
    let s = chars_of(input);
    match parse_expr(&s, 0) {
        Ok((e, end)) => {
            let rest = skip_space(&s, end);
            if rest == s.len() {
                Ok(e)
            } else {
                Err(ParseError { offset: rest })
            }
        },
        Err(e) => Err(e),
    }
}

/// `{`, statements, `}`.
fn parse_block(s: &Vec<char>, pos: usize) -> (r: Result<(Block, usize), ParseError>)
    requires
        pos <= s@.len(),
    ensures
        r matches Ok((_, end)) ==> pos < end <= s@.len(),
        r matches Err(e) ==> e.offset <= s@.len(),
    decreases s@.len() - pos, 1nat,
{
    let mut end = match eat(s, pos, '{') {
        Some(n) => n,
        None => return Err(ParseError { offset: skip_space(s, pos) }),
    };
    let mut block: Block = Vec::new();
    loop
        invariant
            pos < end <= s@.len(),
        decreases s@.len() - end,
    {
        if let Some(n) = eat(s, end, '}') {
            return Ok((block, n));
        }
        let (line, after) = match parse_stmt(s, end) {
            Ok(x) => x,
            Err(e) => return Err(e),
        };
        block.push(line);
        end = after;
    }
}

/// `:=`, an expression, `;`.
fn parse_assigned(s: &Vec<char>, pos: usize) -> (r: Result<(Expr, usize), ParseError>)
    requires
        pos <= s@.len(),
    ensures
        r matches Ok((_, end)) ==> pos < end <= s@.len(),
        r matches Err(e) ==> e.offset <= s@.len(),
{
    let n = match eat2(s, pos, ':', '=') {
        Some(n) => n,
        None => return Err(ParseError { offset: skip_space(s, pos) }),
    };
    let (e, after) = match parse_expr(s, n) {
        Ok(x) => x,
        Err(e) => return Err(e),
    };
    match eat(s, after, ';') {
        Some(end) => Ok((e, end)),
        None => Err(ParseError { offset: skip_space(s, after) }),
    }
}

/// An identifier followed by `;`.
fn parse_name_stmt(s: &Vec<char>, pos: usize) -> (r: Result<(String, usize), ParseError>)
    requires
        pos <= s@.len(),
    ensures
        r matches Ok((_, end)) ==> pos < end <= s@.len(),
        r matches Err(e) ==> e.offset <= s@.len(),
{
    let (name, after) = match parse_ident(s, pos) {
        Ok(x) => x,
        Err(e) => return Err(e),
    };
    match eat(s, after, ';') {
        Some(end) => Ok((name, end)),
        None => Err(ParseError { offset: skip_space(s, after) }),
    }
}

/// Parameter names up to a closing `)`, which is consumed.
fn parse_params(s: &Vec<char>, pos: usize) -> (r: Result<(Vec<String>, usize), ParseError>)
    requires
        pos <= s@.len(),
    ensures
        r matches Ok((_, end)) ==> pos < end <= s@.len(),
        r matches Err(e) ==> e.offset <= s@.len(),
{
    let mut params: Vec<String> = Vec::new();
    if let Some(n) = eat(s, pos, ')') {
        return Ok((params, n));
    }
    let mut end = pos;
    loop
        invariant
            pos <= end <= s@.len(),
        decreases s@.len() - end,
    {
        let (name, after) = match parse_ident(s, end) {
            Ok(x) => x,
            Err(e) => return Err(e),
        };
        params.push(name);
        if let Some(n) = eat(s, after, ')') {
            return Ok((params, n));
        }
        match eat(s, after, ',') {
            Some(n) => {
                end = n;
            },
            None => return Err(ParseError { offset: skip_space(s, after) }),
        }
    }
}

/// One statement.
fn parse_stmt(s: &Vec<char>, pos: usize) -> (r: Result<(LineData, usize), ParseError>)
    requires
        pos <= s@.len(),
    ensures
        r matches Ok((_, end)) ==> pos < end <= s@.len(),
        r matches Err(e) ==> e.offset <= s@.len(),
    decreases s@.len() - pos, 0nat,
{
    let start = skip_space(s, pos);
    if start >= s.len() {
        return Err(ParseError { offset: start });
    }
    let byte = start < s.len() && s.len() - start >= 2 && s[start] == 'b' && s[start + 1] == '[';
    if s[start] == '[' || byte {
        let open = if byte {
            start + 2
        } else {
            start + 1
        };
        let (addr, after) = match parse_expr(s, open) {
            Ok(x) => x,
            Err(e) => return Err(e),
        };
        let close = match eat(s, after, ']') {
            Some(n) => n,
            None => return Err(ParseError { offset: skip_space(s, after) }),
        };
        let (value, end) = match parse_assigned(s, close) {
            Ok(x) => x,
            Err(e) => return Err(e),
        };
        let target = if byte {
            AssignTarget::ByteAddr(addr)
        } else {
            AssignTarget::Addr(addr)
        };
        return Ok((LineData::new(start, Line::Assign(target, value)), end));
    }
    let (word, after) = match parse_ident(s, start) {
        Ok(x) => x,
        Err(e) => return Err(e),
    };
    if is_word(&word, "if") {
        let (test, t) = match parse_expr(s, after) {
            Ok(x) => x,
            Err(e) => return Err(e),
        };
        let (then_block, t2) = match parse_block(s, t) {
            Ok(x) => x,
            Err(e) => return Err(e),
        };
        let k = skip_space(s, t2);
        let is_else = match parse_ident(s, k) {
            Ok((w, _)) => is_word(&w, "else"),
            Err(_) => false,
        };
        if is_else {
            let (_, e1) = match parse_ident(s, k) {
                Ok(x) => x,
                Err(e) => return Err(e),
            };
            let (else_block, end) = match parse_block(s, e1) {
                Ok(x) => x,
                Err(e) => return Err(e),
            };
            return Ok((LineData::new(start, Line::If(test, then_block, Some(else_block))), end));
        }
        return Ok((LineData::new(start, Line::If(test, then_block, None)), t2));
    }
    if is_word(&word, "while") {
        let (cond, t) = match parse_expr(s, after) {
            Ok(x) => x,
            Err(e) => return Err(e),
        };
        let (body, end) = match parse_block(s, t) {
            Ok(x) => x,
            Err(e) => return Err(e),
        };
        return Ok((LineData::new(start, Line::While(cond, body)), end));
    }
    if is_word(&word, "for") {
        let (counter, t) = match parse_ident(s, after) {
            Ok(x) => x,
            Err(e) => return Err(e),
        };
        let t1 = match eat(s, t, '=') {
            Some(n) => n,
            None => return Err(ParseError { offset: skip_space(s, t) }),
        };
        let (from, t2) = match parse_expr(s, t1) {
            Ok(x) => x,
            Err(e) => return Err(e),
        };
        let t3 = match parse_ident(s, t2) {
            Ok((w, n)) => if is_word(&w, "to") {
                n
            } else {
                return Err(ParseError { offset: skip_space(s, t2) });
            },
            Err(e) => return Err(e),
        };
        let (to, t4) = match parse_expr(s, t3) {
            Ok(x) => x,
            Err(e) => return Err(e),
        };
        let (body, end) = match parse_block(s, t4) {
            Ok(x) => x,
            Err(e) => return Err(e),
        };
        return Ok((LineData::new(start, Line::For(counter, from, to, body)), end));
    }
    if is_word(&word, "fn") {
        let (name, t) = match parse_ident(s, after) {
            Ok(x) => x,
            Err(e) => return Err(e),
        };
        let t1 = match eat(s, t, '(') {
            Some(n) => n,
            None => return Err(ParseError { offset: skip_space(s, t) }),
        };
        let (params, t2) = match parse_params(s, t1) {
            Ok(x) => x,
            Err(e) => return Err(e),
        };
        let (body, end) = match parse_block(s, t2) {
            Ok(x) => x,
            Err(e) => return Err(e),
        };
        return Ok((LineData::new(start, Line::FunDeclaration(name, params, body, false)), end));
    }
    if is_word(&word, "goto") {
        return match parse_name_stmt(s, after) {
            Ok((l, end)) => Ok((LineData::new(start, Line::Goto(l)), end)),
            Err(e) => Err(e),
        };
    }
    if is_word(&word, "label") {
        return match parse_name_stmt(s, after) {
            Ok((l, end)) => Ok((LineData::new(start, Line::Label(l)), end)),
            Err(e) => Err(e),
        };
    }
    if let Some(n) = eat(s, after, '(') {
        let (args, t) = match parse_args(s, n) {
            Ok(x) => x,
            Err(e) => return Err(e),
        };
        return match eat(s, t, ';') {
            Some(end) => Ok((LineData::new(start, Line::Expr(Expr::FunCall(word, args))), end)),
            None => Err(ParseError { offset: skip_space(s, t) }),
        };
    }
    match parse_assigned(s, after) {
        Ok((value, end)) => Ok((LineData::new(start, Line::Assign(AssignTarget::Var(word), value)), end)),
        Err(e) => Err(e),
    }
}

/// One byte value, at most 255.
fn parse_byte(s: &Vec<char>, pos: usize) -> (r: Result<(u8, usize), ParseError>)
    requires
        pos <= s@.len(),
    ensures
        r matches Ok((_, end)) ==> pos < end <= s@.len(),
        r matches Err(e) ==> e.offset <= s@.len(),
{
    match parse_number(s, pos) {
        Ok((v, end)) => if v <= 255 {
            Ok((v as u8, end))
        } else {
            Err(ParseError { offset: skip_space(s, pos) })
        },
        Err(e) => Err(e),
    }
}

/// A string of ASCII characters between double quotes, as bytes; `\n`, `\0`,
/// `\\` and `\"` are escapes.
fn parse_string(s: &Vec<char>, pos: usize) -> (r: Result<(Vec<u8>, usize), ParseError>)
    requires
        pos < s@.len(),
        s@[pos as int] == '"',
    ensures
        r matches Ok((_, end)) ==> pos < end <= s@.len(),
        r matches Err(e) ==> e.offset <= s@.len(),
{
    let mut bytes: Vec<u8> = Vec::new();
    let _ = s.len();
    let mut i = pos + 1;
    while i < s.len()
        invariant
            pos < i <= s@.len(),
        decreases s@.len() - i,
    {
        let c = s[i];
        if c == '"' {
            return Ok((bytes, i + 1));
        }
        if c == '\\' {
            if i + 1 >= s.len() {
                return Err(ParseError { offset: i });
            }
            let e = s[i + 1];
            if e == 'n' {
                bytes.push(10);
            } else if e == '0' {
                bytes.push(0);
            } else if e == '\\' || e == '"' {
                bytes.push(e as u8);
            } else {
                return Err(ParseError { offset: i + 1 });
            }
            i = i + 2;
        } else if (c as u32) < 128 {
            bytes.push(c as u8);
            i = i + 1;
        } else {
            return Err(ParseError { offset: i });
        }
    }
    Err(ParseError { offset: s.len() })
}

/// The declarations of a `data` section up to its closing `}`, which is consumed.
fn parse_data(s: &Vec<char>, pos: usize) -> (r: Result<(DataBlock, usize), ParseError>)
    requires
        pos <= s@.len(),
    ensures
        r matches Ok((_, end)) ==> pos < end <= s@.len(),
        r matches Err(e) ==> e.offset <= s@.len(),
{
    let mut defs: DataBlock = Vec::new();
    let mut end = pos;
    loop
        invariant
            pos <= end <= s@.len(),
        decreases s@.len() - end,
    {
        if let Some(n) = eat(s, end, '}') {
            return Ok((defs, n));
        }
        let start = skip_space(s, end);
        if start < s.len() && s[start] == '"' {
            let (bytes, n) = match parse_string(s, start) {
                Ok(x) => x,
                Err(e) => return Err(e),
            };
            defs.push(DataDef::Bytes(bytes));
            end = n;
        } else if let Some(open) = eat(s, start, '[') {
            let mut bytes: Vec<u8> = Vec::new();
            let mut at = open;
            loop
                invariant
                    open <= at <= s@.len(),
                decreases s@.len() - at,
            {
                let (b, n) = match parse_byte(s, at) {
                    Ok(x) => x,
                    Err(e) => return Err(e),
                };
                bytes.push(b);
                if let Some(close) = eat(s, n, ']') {
                    at = close;
                    break;
                }
                match eat(s, n, ',') {
                    Some(m) => {
                        at = m;
                    },
                    None => return Err(ParseError { offset: skip_space(s, n) }),
                }
            }
            defs.push(DataDef::Bytes(bytes));
            end = at;
        } else {
            let (name, n) = match parse_ident(s, start) {
                Ok(x) => x,
                Err(e) => return Err(e),
            };
            match eat(s, n, ':') {
                Some(m) => {
                    defs.push(DataDef::Label(name));
                    end = m;
                },
                None => return Err(ParseError { offset: skip_space(s, n) }),
            }
        }
    }
}

/// Parses a whole program: an optional `data { ... }` section, then statements.
pub fn program(input: &str) -> (r: Result<(DataBlock, Block), ParseError>)
    ensures
        r matches Err(e) ==> e.offset <= input@.len(),
{
    let s = chars_of(input);
    let mut data: DataBlock = Vec::new();
    let mut end: usize = 0;
    if let Ok((w, n)) = parse_ident(&s, 0) {
        if is_word(&w, "data") {
            if let Some(m) = eat(&s, n, '{') {
                match parse_data(&s, m) {
                    Ok((defs, after)) => {
                        data = defs;
                        end = after;
                    },
                    Err(e) => return Err(e),
                }
            }
        }
    }
    let mut code: Block = Vec::new();
    loop
        invariant
            end <= s@.len(),
            s@ == input@,
        decreases s@.len() - end,
    {
        let k = skip_space(&s, end);
        if k == s.len() {
            return Ok((data, code));
        }
        let (line, after) = match parse_stmt(&s, k) {
            Ok(x) => x,
            Err(e) => return Err(e),
        };
        code.push(line);
        end = after;
    }
}

} // verus!
