//! Recursive-descent parser for the calculator language.
//!
//! Grammar, lowest precedence first:
//! `Program := {Statement}`;
//! `Statement := '@' Ident | '>' Ident | '<' Expr | Ident ':=' Expr`;
//! `Expr := Term {('+' | '-') Term}`; `Term := Factor {('*' | '/') Factor}`;
//! `Factor := Ident | Float | '(' Expr ')'`.
//! Whitespace is skipped before every token.
use vstd::prelude::*;
use crate::symbol_table::Name;
use vstd::std_specs::iter::IteratorSpec;

verus! {

#[derive(Debug, PartialEq, Eq, Clone, Copy, Structural)]
pub enum TermOperator {
    Multiply,
    Divide,
}

#[derive(Debug, PartialEq, Eq, Clone, Copy, Structural)]
pub enum ExpressionOperator {
    Add,
    Subtract,
}

/// The smallest expression unit. A literal keeps its source text, which the
/// host reads as a double.
#[derive(Debug)]
pub enum Factor {
    Literal(Vec<char>),
    Identifier(Name),
    SubExpression(Box<Expression>),
}

/// A first factor and the (operator, factor) pairs that follow it.
pub type Term = (Factor, Vec<(TermOperator, Factor)>);

/// A first term and the (operator, term) pairs that follow it.
pub type Expression = (Term, Vec<(ExpressionOperator, Term)>);

#[derive(Debug)]
pub enum Statement {
    Declaration(Name),
    Input(Name),
    Output(Expression),
    Assignment(Name, Expression),
}

pub type Program = Vec<Statement>;

pub open spec fn is_space(c: char) -> bool {
    c == ' ' || c == '\t' || c == '\r' || c == '\n'
}

pub open spec fn is_alpha(c: char) -> bool {
    ('a' <= c && c <= 'z') || ('A' <= c && c <= 'Z')
}

pub open spec fn is_digit(c: char) -> bool {
    '0' <= c && c <= '9'
}

/// `s` with every whitespace character removed.
pub open spec fn strip(s: Seq<char>) -> Seq<char>
    decreases s.len(),
{
    if s.len() == 0 {
        s
    } else if is_space(s.last()) {
        strip(s.drop_last())
    } else {
        strip(s.drop_last()).push(s.last())
    }
}

pub open spec fn term_op_char(op: TermOperator) -> char {
    match op {
        TermOperator::Multiply => '*',
        TermOperator::Divide => '/',
    }
}

pub open spec fn expr_op_char(op: ExpressionOperator) -> char {
    match op {
        ExpressionOperator::Add => '+',
        ExpressionOperator::Subtract => '-',
    }
}

/// The text of a factor, without whitespace.
pub open spec fn render_factor(f: Factor) -> Seq<char>
    decreases f,
{
    match f {
        Factor::Literal(t) => t@,
        Factor::Identifier(n) => n@,
        Factor::SubExpression(e) => seq!['('] + render_expression(*e) + seq![')'],
    }
}

pub open spec fn render_factor_pairs(ps: Seq<(TermOperator, Factor)>) -> Seq<char>
    decreases ps,
{
    if ps.len() == 0 {
        Seq::empty()
    } else {
        render_factor_pairs(ps.drop_last()) + seq![term_op_char(ps.last().0)]
            + render_factor(ps.last().1)
    }
}

/// The text of a term, without whitespace.
pub open spec fn render_term(t: Term) -> Seq<char>
    decreases t,
{
    render_factor(t.0) + render_factor_pairs(t.1@)
}

pub open spec fn render_term_pairs(ps: Seq<(ExpressionOperator, Term)>) -> Seq<char>
    decreases ps,
{
    if ps.len() == 0 {
        Seq::empty()
    } else {
        render_term_pairs(ps.drop_last()) + seq![expr_op_char(ps.last().0)] + render_term(
            ps.last().1,
        )
    }
}

/// The text of an expression, without whitespace.
pub open spec fn render_expression(e: Expression) -> Seq<char>
    decreases e,
{
    render_term(e.0) + render_term_pairs(e.1@)
}

/// The text of a statement, without whitespace.
pub open spec fn render_statement(st: Statement) -> Seq<char> {
    match st {
        Statement::Declaration(n) => seq!['@'] + n@,
        Statement::Input(n) => seq!['>'] + n@,
        Statement::Output(e) => seq!['<'] + render_expression(e),
        Statement::Assignment(n, e) => n@ + seq![':', '='] + render_expression(e),
    }
}

/// The text of a sequence of statements, without whitespace.
pub open spec fn render_statements(sts: Seq<Statement>) -> Seq<char>
    decreases sts.len(),
{
    if sts.len() == 0 {
        Seq::empty()
    } else {
        render_statements(sts.drop_last()) + render_statement(sts.last())
    }
}

/// Removing whitespace commutes with concatenation.
pub proof fn lemma_strip_concat(a: Seq<char>, b: Seq<char>)
    ensures
        strip(a + b) == strip(a) + strip(b),
    decreases b.len(),
{
    if b.len() == 0 {
        assert(a + b =~= a);
        assert(strip(b) =~= Seq::<char>::empty());
        assert(strip(a) + strip(b) =~= strip(a));
    } else {
        assert((a + b).drop_last() =~= a + b.drop_last());
        lemma_strip_concat(a, b.drop_last());
        if !is_space(b.last()) {
            assert(strip(a) + strip(b) =~= (strip(a) + strip(b.drop_last())).push(b.last()));
        }
    }
}

/// Removing whitespace from `s[a..c]` is removing it from `s[a..b]` and `s[b..c]`.
pub proof fn lemma_strip_split(s: Seq<char>, a: int, b: int, c: int)
    requires
        0 <= a <= b <= c <= s.len(),
    ensures
        strip(s.subrange(a, c)) == strip(s.subrange(a, b)) + strip(s.subrange(b, c)),
{
    assert(s.subrange(a, c) =~= s.subrange(a, b) + s.subrange(b, c));
    lemma_strip_concat(s.subrange(a, b), s.subrange(b, c));
}

/// Text that holds no whitespace is left as it is.
pub proof fn lemma_strip_solid(s: Seq<char>)
    requires
        forall|i: int| 0 <= i < s.len() ==> !is_space(s[i]),
    ensures
        strip(s) == s,
    decreases s.len(),
{
    if s.len() > 0 {
        lemma_strip_solid(s.drop_last());
        assert(s.drop_last().push(s.last()) =~= s);
    }
}

/// Text made of whitespace alone vanishes.
pub proof fn lemma_strip_blank(s: Seq<char>)
    requires
        forall|i: int| 0 <= i < s.len() ==> is_space(s[i]),
    ensures
        strip(s) == Seq::<char>::empty(),
    decreases s.len(),
{
    if s.len() > 0 {
        lemma_strip_blank(s.drop_last());
    }
}

/// A single character that is not whitespace.
proof fn lemma_strip_one(s: Seq<char>, i: int)
    requires
        0 <= i < s.len(),
        !is_space(s[i]),
    ensures
        strip(s.subrange(i, i + 1)) == seq![s[i]],
{
    lemma_strip_solid(s.subrange(i, i + 1));
    assert(s.subrange(i, i + 1) =~= seq![s[i]]);
}

/// The first position at or after `i` that holds no whitespace.
pub open spec fn skip_end(s: Seq<char>, i: int) -> int
    decreases s.len() - i,
{
    if 0 <= i < s.len() && is_space(s[i]) {
        skip_end(s, i + 1)
    } else {
        i
    }
}

/// The end of the run of alphabetic characters that starts at `i`.
pub open spec fn alpha_run_end(s: Seq<char>, i: int) -> int
    decreases s.len() - i,
{
    if 0 <= i < s.len() && is_alpha(s[i]) {
        alpha_run_end(s, i + 1)
    } else {
        i
    }
}

/// A factor as the grammar reads it: names and literals as their text.
pub enum SFactor {
    Literal(Seq<char>),
    Identifier(Seq<char>),
    SubExpression(Box<SExpression>),
}

pub type STerm = (SFactor, Seq<(TermOperator, SFactor)>);

pub type SExpression = (STerm, Seq<(ExpressionOperator, STerm)>);

/// A statement as the grammar reads it.
pub enum SStatement {
    Declaration(Seq<char>),
    Input(Seq<char>),
    Output(SExpression),
    Assignment(Seq<char>, SExpression),
}

/// The mathematical content of a parsed factor.
pub open spec fn view_factor(f: Factor) -> SFactor
    decreases f,
{
    match f {
        Factor::Literal(t) => SFactor::Literal(t@),
        Factor::Identifier(n) => SFactor::Identifier(n@),
        Factor::SubExpression(e) => SFactor::SubExpression(Box::new(view_expression(*e))),
    }
}

pub open spec fn view_factor_pairs(ps: Seq<(TermOperator, Factor)>) -> Seq<(TermOperator, SFactor)>
    decreases ps,
{
    if ps.len() == 0 {
        Seq::empty()
    } else {
        view_factor_pairs(ps.drop_last()).push((ps.last().0, view_factor(ps.last().1)))
    }
}

pub open spec fn view_term(t: Term) -> STerm
    decreases t,
{
    (view_factor(t.0), view_factor_pairs(t.1@))
}

pub open spec fn view_term_pairs(ps: Seq<(ExpressionOperator, Term)>) -> Seq<
    (ExpressionOperator, STerm),
>
    decreases ps,
{
    if ps.len() == 0 {
        Seq::empty()
    } else {
        view_term_pairs(ps.drop_last()).push((ps.last().0, view_term(ps.last().1)))
    }
}

/// The mathematical content of a parsed expression.
pub open spec fn view_expression(e: Expression) -> SExpression
    decreases e,
{
    (view_term(e.0), view_term_pairs(e.1@))
}

/// The mathematical content of a parsed statement.
pub open spec fn view_statement(st: Statement) -> SStatement {
    match st {
        Statement::Declaration(n) => SStatement::Declaration(n@),
        Statement::Input(n) => SStatement::Input(n@),
        Statement::Output(e) => SStatement::Output(view_expression(e)),
        Statement::Assignment(n, e) => SStatement::Assignment(n@, view_expression(e)),
    }
}

pub open spec fn view_statements(sts: Seq<Statement>) -> Seq<SStatement> {
    sts.map_values(|st: Statement| view_statement(st))
}

/// The factor the grammar reads from `pos` (whitespace first), with its end.
pub open spec fn factor_at(s: Seq<char>, pos: int) -> Option<(SFactor, int)>
    decreases s.len() - pos, 0nat,
{
    let p = skip_end(s, pos);
    if 0 <= p < s.len() && is_alpha(s[p]) {
        Some((SFactor::Identifier(s.subrange(p, alpha_run_end(s, p))), alpha_run_end(s, p)))
    } else if float_end(s, p) is Some {
        Some((SFactor::Literal(s.subrange(p, float_end(s, p)->0)), float_end(s, p)->0))
    } else if 0 <= pos <= p < s.len() && s[p] == '(' {
        match expression_at(s, p + 1) {
            Some((x, q)) => if 0 <= skip_end(s, q) < s.len() && s[skip_end(s, q)] == ')' {
                Some((SFactor::SubExpression(Box::new(x)), skip_end(s, q) + 1))
            } else {
                None
            },
            None => None,
        }
    } else {
        None
    }
}

/// The `*` and `/` factors the grammar reads after position `cur`, with their end.
pub open spec fn term_tail_at(s: Seq<char>, cur: int) -> (Seq<(TermOperator, SFactor)>, int)
    decreases s.len() - cur, 1nat,
{
    let p = skip_end(s, cur);
    if 0 <= cur <= p < s.len() && (s[p] == '*' || s[p] == '/') {
        let op = if s[p] == '*' {
            TermOperator::Multiply
        } else {
            TermOperator::Divide
        };
        match factor_at(s, p + 1) {
            Some((f, e)) => if p < e <= s.len() {
                (seq![(op, f)] + term_tail_at(s, e).0, term_tail_at(s, e).1)
            } else {
                (Seq::empty(), cur)
            },
            None => (Seq::empty(), cur),
        }
    } else {
        (Seq::empty(), cur)
    }
}

/// The term the grammar reads from `pos`, with its end.
pub open spec fn term_at(s: Seq<char>, pos: int) -> Option<(STerm, int)>
    decreases s.len() - pos, 2nat,
{
    match factor_at(s, pos) {
        Some((f, e)) => if 0 <= pos < e <= s.len() {
            Some(((f, term_tail_at(s, e).0), term_tail_at(s, e).1))
        } else {
            None
        },
        None => None,
    }
}

/// The `+` and `-` terms the grammar reads after position `cur`, with their end.
pub open spec fn expression_tail_at(s: Seq<char>, cur: int) -> (
    Seq<(ExpressionOperator, STerm)>,
    int,
)
    decreases s.len() - cur, 3nat,
{
    let p = skip_end(s, cur);
    if 0 <= cur <= p < s.len() && (s[p] == '+' || s[p] == '-') {
        let op = if s[p] == '+' {
            ExpressionOperator::Add
        } else {
            ExpressionOperator::Subtract
        };
        match term_at(s, p + 1) {
            Some((t, e)) => if p < e <= s.len() {
                (seq![(op, t)] + expression_tail_at(s, e).0, expression_tail_at(s, e).1)
            } else {
                (Seq::empty(), cur)
            },
            None => (Seq::empty(), cur),
        }
    } else {
        (Seq::empty(), cur)
    }
}

/// The expression the grammar reads from `pos`, with its end.
pub open spec fn expression_at(s: Seq<char>, pos: int) -> Option<(SExpression, int)>
    decreases s.len() - pos, 4nat,
{
    match term_at(s, pos) {
        Some((t, e)) => if 0 <= pos < e <= s.len() {
            Some(((t, expression_tail_at(s, e).0), expression_tail_at(s, e).1))
        } else {
            None
        },
        None => None,
    }
}

/// The statement the grammar reads when its first token is at `p`, with its end.
pub open spec fn statement_at(s: Seq<char>, p: int) -> Option<(SStatement, int)> {
    if 0 <= p < s.len() && (s[p] == '@' || s[p] == '>') {
        let q = skip_end(s, p + 1);
        if 0 <= q < s.len() && is_alpha(s[q]) {
            let n = s.subrange(q, alpha_run_end(s, q));
            if s[p] == '@' {
                Some((SStatement::Declaration(n), alpha_run_end(s, q)))
            } else {
                Some((SStatement::Input(n), alpha_run_end(s, q)))
            }
        } else {
            None
        }
    } else if 0 <= p < s.len() && s[p] == '<' {
        match expression_at(s, p + 1) {
            Some((x, e)) => Some((SStatement::Output(x), e)),
            None => None,
        }
    } else if 0 <= p < s.len() && is_alpha(s[p]) {
        let a = skip_end(s, alpha_run_end(s, p));
        if 0 <= a && a + 1 < s.len() && s[a] == ':' && s[a + 1] == '=' {
            match expression_at(s, a + 2) {
                Some((x, e)) => Some(
                    (SStatement::Assignment(s.subrange(p, alpha_run_end(s, p)), x), e),
                ),
                None => None,
            }
        } else {
            None
        }
    } else {
        None
    }
}

/// The statements the grammar reads from `cur` on, and where reading stops:
/// before the whitespace that precedes the first position where no statement
/// matches.
pub open spec fn program_at(s: Seq<char>, cur: int) -> (Seq<SStatement>, int)
    decreases s.len() - cur,
{
    match statement_at(s, skip_end(s, cur)) {
        Some((st, e)) => if 0 <= cur < e <= s.len() {
            (seq![st] + program_at(s, e).0, program_at(s, e).1)
        } else {
            (Seq::empty(), cur)
        },
        None => (Seq::empty(), cur),
    }
}

proof fn lemma_skip_end(s: Seq<char>, i: int, r: int)
    requires
        0 <= i <= r <= s.len(),
        r == s.len() || !is_space(s[r]),
        forall|k: int| i <= k < r ==> is_space(s[k]),
    ensures
        skip_end(s, i) == r,
    decreases r - i,
{
    if i < r {
        lemma_skip_end(s, i + 1, r);
    }
}

proof fn lemma_alpha_run_end(s: Seq<char>, i: int, r: int)
    requires
        0 <= i <= r <= s.len(),
        r == s.len() || !is_alpha(s[r]),
        forall|k: int| i <= k < r ==> is_alpha(s[k]),
    ensures
        alpha_run_end(s, i) == r,
    decreases r - i,
{
    if i < r {
        lemma_alpha_run_end(s, i + 1, r);
    }
}

fn is_space_char(c: char) -> (r: bool)
    ensures
        r == is_space(c),
{
    c == ' ' || c == '\t' || c == '\r' || c == '\n'
}

fn is_alpha_char(c: char) -> (r: bool)
    ensures
        r == is_alpha(c),
{
    ('a' <= c && c <= 'z') || ('A' <= c && c <= 'Z')
}

fn is_digit_char(c: char) -> (r: bool)
    ensures
        r == is_digit(c),
{
    '0' <= c && c <= '9'
}

/// The position of the first non-whitespace character at or after `pos`.
fn skip_spaces(s: &Vec<char>, pos: usize) -> (r: usize)
    requires
        pos <= s@.len(),
    ensures
        pos <= r <= s@.len(),
        r == s@.len() || !is_space(s@[r as int]),
        strip(s@.subrange(pos as int, r as int)) == Seq::<char>::empty(),
        r == skip_end(s@, pos as int),
{
    let mut i = pos;
    while i < s.len() && is_space_char(s[i])
        invariant
            pos <= i <= s@.len(),
            forall|k: int| pos <= k < i ==> is_space(s@[k]),
        decreases s@.len() - i,
    {
        i = i + 1;
    }
    proof {
        lemma_strip_blank(s@.subrange(pos as int, i as int));
        lemma_skip_end(s@, pos as int, i as int);
    }
    i
}

/// The end of the run of characters at or after `pos` that satisfy `is_digit`.
fn digits_end(s: &Vec<char>, pos: usize) -> (r: usize)
    requires
        pos <= s@.len(),
    ensures
        pos <= r <= s@.len(),
        r == s@.len() || !is_digit(s@[r as int]),
        forall|k: int| pos <= k < r ==> is_digit(s@[k]),
{
    let mut i = pos;
    while i < s.len() && is_digit_char(s[i])
        invariant
            pos <= i <= s@.len(),
            forall|k: int| pos <= k < i ==> is_digit(s@[k]),
        decreases s@.len() - i,
    {
        i = i + 1;
    }
    i
}

/// The characters `s[a..b]`.
fn slice_chars(s: &Vec<char>, a: usize, b: usize) -> (r: Vec<char>)
    requires
        a <= b <= s@.len(),
    ensures
        r@ == s@.subrange(a as int, b as int),
{
    let mut r: Vec<char> = Vec::new();
    let mut i = a;
    while i < b
        invariant
            a <= i <= b <= s@.len(),
            r@ =~= s@.subrange(a as int, i as int),
        decreases b - i,
    {
        r.push(s[i]);
        i = i + 1;
    }
    r
}

/// A maximal run of alphabetic characters starting at `pos`, if non-empty.
fn parse_identifier(s: &Vec<char>, pos: usize) -> (r: Option<(Name, usize)>)
    requires
        pos <= s@.len(),
    ensures
        r is None <==> (pos == s@.len() || !is_alpha(s@[pos as int])),
        r matches Some((n, e)) ==> {
            &&& pos < e <= s@.len()
            &&& n@ == s@.subrange(pos as int, e as int)
            &&& strip(n@) == n@
            &&& forall|k: int| 0 <= k < n@.len() ==> is_alpha(#[trigger] n@[k])
            &&& (e == s@.len() || !is_alpha(s@[e as int]))
            &&& e == alpha_run_end(s@, pos as int)
        },
{
    let mut i = pos;
    while i < s.len() && is_alpha_char(s[i])
        invariant
            pos <= i <= s@.len(),
            forall|k: int| pos <= k < i ==> is_alpha(s@[k]),
        decreases s@.len() - i,
    {
        i = i + 1;
    }
    if i == pos {
        return None;
    }
    let n = slice_chars(s, pos, i);
    proof {
        lemma_alpha_run_end(s@, pos as int, i as int);
        assert forall|k: int| 0 <= k < n@.len() implies is_alpha(#[trigger] n@[k]) by {
            assert(n@[k] == s@[pos + k]);
        }
        lemma_strip_solid(n@);
    }
    Some((n, i))
}

/// The end of the run of digits that starts at `i`.
pub open spec fn digit_run_end(s: Seq<char>, i: int) -> int
    decreases s.len() - i,
{
    if 0 <= i < s.len() && is_digit(s[i]) {
        digit_run_end(s, i + 1)
    } else {
        i
    }
}

/// Past an optional `+` or `-` at `i`.
pub open spec fn after_sign(s: Seq<char>, i: int) -> int {
    if 0 <= i < s.len() && (s[i] == '+' || s[i] == '-') {
        i + 1
    } else {
        i
    }
}

/// The end of the decimal floating-point literal that starts at `p`:
/// `[+-]? (digits ('.' digits?)? | '.' digits) ([eE] [+-]? digits)?`,
/// where an exponent mark not followed by digits is not part of it.
pub open spec fn float_end(s: Seq<char>, p: int) -> Option<int> {
    let a = after_sign(s, p);
    let d = digit_run_end(s, a);
    let mantissa = if d > a {
        if d < s.len() && s[d] == '.' {
            Some(digit_run_end(s, d + 1))
        } else {
            Some(d)
        }
    } else if a < s.len() && s[a] == '.' && digit_run_end(s, a + 1) > a + 1 {
        Some(digit_run_end(s, a + 1))
    } else {
        None
    };
    match mantissa {
        None => None,
        Some(m) => if m < s.len() && (s[m] == 'e' || s[m] == 'E') && digit_run_end(
            s,
            after_sign(s, m + 1),
        ) > after_sign(s, m + 1) {
            Some(digit_run_end(s, after_sign(s, m + 1)))
        } else {
            Some(m)
        },
    }
}

/// `digits_end` computes `digit_run_end`.
proof fn lemma_digits_end_is_run_end(s: Seq<char>, i: int, r: int)
    requires
        0 <= i <= r <= s.len(),
        r == s.len() || !is_digit(s[r]),
        forall|k: int| i <= k < r ==> is_digit(s[k]),
    ensures
        digit_run_end(s, i) == r,
    decreases r - i,
{
    if i < r {
        lemma_digits_end_is_run_end(s, i + 1, r);
    }
}

fn sign_end(s: &Vec<char>, i: usize) -> (r: usize)
    requires
        i <= s@.len(),
    ensures
        r == after_sign(s@, i as int),
{
    if i < s.len() && (s[i] == '+' || s[i] == '-') {
        i + 1
    } else {
        i
    }
}

fn run_end(s: &Vec<char>, i: usize) -> (r: usize)
    requires
        i <= s@.len(),
    ensures
        r == digit_run_end(s@, i as int),
        i <= r <= s@.len(),
        forall|k: int| i <= k < r ==> is_digit(s@[k]),
{
    let r = digits_end(s, i);
    proof {
        lemma_digits_end_is_run_end(s@, i as int, r as int);
    }
    r
}

/// A floating-point literal starting at `pos`, with the position after it.
fn parse_float(s: &Vec<char>, pos: usize) -> (r: Option<(Vec<char>, usize)>)
    requires
        pos <= s@.len(),
    ensures
        r is None <==> float_end(s@, pos as int) is None,
        r matches Some((t, e)) ==> {
            &&& float_end(s@, pos as int) == Some(e as int)
            &&& pos < e <= s@.len()
            &&& t@ == s@.subrange(pos as int, e as int)
            &&& strip(t@) == t@
        },
{
    let a = sign_end(s, pos);
    let d = run_end(s, a);
    let m: usize;
    if d > a {
        if d < s.len() && s[d] == '.' {
            m = run_end(s, d + 1);
        } else {
            m = d;
        }
    } else if a < s.len() && s[a] == '.' && run_end(s, a + 1) > a + 1 {
        m = run_end(s, a + 1);
    } else {
        return None;
    }
    let mut e = m;
    if m < s.len() && (s[m] == 'e' || s[m] == 'E') {
        let b = sign_end(s, m + 1);
        let x = run_end(s, b);
        if x > b {
            e = x;
        }
    }
    let t = slice_chars(s, pos, e);
    proof {
        assert forall|k: int| 0 <= k < t@.len() implies !is_space(t@[k]) by {
            assert(t@[k] == s@[pos + k]);
        }
        lemma_strip_solid(t@);
    }
    Some((t, e))
}

/// A factor, after optional whitespace, starting at `pos`.
fn parse_factor(s: &Vec<char>, pos: usize) -> (r: Option<(Factor, usize)>)
    requires
        pos <= s@.len(),
    ensures
        r matches Some((f, e)) ==> pos < e <= s@.len() && strip(s@.subrange(pos as int, e as int))
            == render_factor(f),
        match r {
            Some((f, e)) => factor_at(s@, pos as int) == Some((view_factor(f), e as int)),
            None => factor_at(s@, pos as int) is None,
        },
    decreases s@.len() - pos, 0nat,
{
    let p = skip_spaces(s, pos);
    if let Some((n, e)) = parse_identifier(s, p) {
        proof {
            lemma_strip_split(s@, pos as int, p as int, e as int);
            assert(Seq::<char>::empty() + n@ =~= n@);
        }
        return Some((Factor::Identifier(n), e));
    }
    if let Some((t, e)) = parse_float(s, p) {
        proof {
            lemma_strip_split(s@, pos as int, p as int, e as int);
            assert(Seq::<char>::empty() + t@ =~= t@);
        }
        return Some((Factor::Literal(t), e));
    }
    if p < s.len() && s[p] == '(' {
        if let Some((x, q)) = parse_expression(s, p + 1) {
            let c = skip_spaces(s, q);
            if c < s.len() && s[c] == ')' {
                proof {
                    lemma_strip_split(s@, pos as int, p as int, p + 1);
                    lemma_strip_split(s@, pos as int, p + 1, q as int);
                    lemma_strip_split(s@, pos as int, q as int, c as int);
                    lemma_strip_split(s@, pos as int, c as int, c + 1);
                    lemma_strip_one(s@, p as int);
                    lemma_strip_one(s@, c as int);
                    assert(Seq::<char>::empty() + seq!['('] =~= seq!['(']);
                    assert(seq!['('] + render_expression(x) + Seq::<char>::empty()
                        =~= seq!['('] + render_expression(x));
                }
                return Some((Factor::SubExpression(Box::new(x)), c + 1));
            }
        }
    }
    None
}

/// A term starting at `pos`: a factor and every `*` or `/` factor that follows.
fn parse_term(s: &Vec<char>, pos: usize) -> (r: Option<(Term, usize)>)
    requires
        pos <= s@.len(),
    ensures
        r matches Some((t, e)) ==> pos < e <= s@.len() && strip(s@.subrange(pos as int, e as int))
            == render_term(t),
        match r {
            Some((t, e)) => term_at(s@, pos as int) == Some((view_term(t), e as int)),
            None => term_at(s@, pos as int) is None,
        },
    decreases s@.len() - pos, 1nat,
{
    let (first, mut cur) = match parse_factor(s, pos) {
        Some(x) => x,
        None => { return None; },
    };
    let mut rest: Vec<(TermOperator, Factor)> = Vec::new();
    let ghost e0 = cur as int;
    assert(view_factor_pairs(rest@) + term_tail_at(s@, e0).0 =~= term_tail_at(s@, e0).0);
    assert(render_factor_pairs(rest@) =~= Seq::<char>::empty());
    assert(render_factor(first) + Seq::<char>::empty() =~= render_factor(first));
    loop
        invariant
            pos < cur <= s@.len(),
            strip(s@.subrange(pos as int, cur as int)) == render_factor(first) + render_factor_pairs(
                rest@,
            ),
            factor_at(s@, pos as int) == Some((view_factor(first), e0)),
            term_tail_at(s@, e0) == (
                view_factor_pairs(rest@) + term_tail_at(s@, cur as int).0,
                term_tail_at(s@, cur as int).1,
            ),
        ensures
            pos < cur <= s@.len(),
            strip(s@.subrange(pos as int, cur as int)) == render_factor(first) + render_factor_pairs(
                rest@,
            ),
            factor_at(s@, pos as int) == Some((view_factor(first), e0)),
            term_tail_at(s@, e0) == (view_factor_pairs(rest@), cur as int),
        decreases s@.len() - cur,
    {
        assert(view_factor_pairs(rest@) + Seq::<(TermOperator, SFactor)>::empty()
            =~= view_factor_pairs(rest@));
        let p = skip_spaces(s, cur);
        if p >= s.len() {
            break;
        }
        let op = if s[p] == '*' {
            TermOperator::Multiply
        } else if s[p] == '/' {
            TermOperator::Divide
        } else {
            break;
        };
        match parse_factor(s, p + 1) {
            None => { break; },
            Some((f, e)) => {
                proof {
                    lemma_strip_split(s@, pos as int, cur as int, p as int);
                    lemma_strip_split(s@, pos as int, p as int, p + 1);
                    lemma_strip_split(s@, pos as int, p + 1, e as int);
                    lemma_strip_one(s@, p as int);
                    assert(term_op_char(op) == s@[p as int]);
                }
                let ghost prev = rest@;
                let ghost vf = view_factor(f);
                rest.push((op, f));
                proof {
                    assert(rest@.drop_last() =~= prev);
                    assert(strip(s@.subrange(pos as int, e as int)) =~= render_factor(first)
                        + render_factor_pairs(rest@));
                    assert(view_factor_pairs(rest@) == view_factor_pairs(prev).push((op, vf)));
                    assert(view_factor_pairs(prev) + (seq![(op, vf)] + term_tail_at(s@, e as int).0)
                        =~= view_factor_pairs(rest@) + term_tail_at(s@, e as int).0);
                }
                cur = e;
            },
        }
    }
    Some(((first, rest), cur))
}

/// An expression starting at `pos`: a term and every `+` or `-` term that follows.
fn parse_expression(s: &Vec<char>, pos: usize) -> (r: Option<(Expression, usize)>)
    requires
        pos <= s@.len(),
    ensures
        r matches Some((x, e)) ==> pos < e <= s@.len() && strip(s@.subrange(pos as int, e as int))
            == render_expression(x),
        match r {
            Some((x, e)) => expression_at(s@, pos as int) == Some((view_expression(x), e as int)),
            None => expression_at(s@, pos as int) is None,
        },
    decreases s@.len() - pos, 2nat,
{
    let (first, mut cur) = match parse_term(s, pos) {
        Some(x) => x,
        None => { return None; },
    };
    let mut rest: Vec<(ExpressionOperator, Term)> = Vec::new();
    let ghost e0 = cur as int;
    assert(view_term_pairs(rest@) + expression_tail_at(s@, e0).0 =~= expression_tail_at(s@, e0).0);
    assert(render_term_pairs(rest@) =~= Seq::<char>::empty());
    assert(render_term(first) + Seq::<char>::empty() =~= render_term(first));
    loop
        invariant
            pos < cur <= s@.len(),
            strip(s@.subrange(pos as int, cur as int)) == render_term(first) + render_term_pairs(
                rest@,
            ),
            term_at(s@, pos as int) == Some((view_term(first), e0)),
            expression_tail_at(s@, e0) == (
                view_term_pairs(rest@) + expression_tail_at(s@, cur as int).0,
                expression_tail_at(s@, cur as int).1,
            ),
        ensures
            pos < cur <= s@.len(),
            strip(s@.subrange(pos as int, cur as int)) == render_term(first) + render_term_pairs(
                rest@,
            ),
            term_at(s@, pos as int) == Some((view_term(first), e0)),
            expression_tail_at(s@, e0) == (view_term_pairs(rest@), cur as int),
        decreases s@.len() - cur,
    {
        assert(view_term_pairs(rest@) + Seq::<(ExpressionOperator, STerm)>::empty()
            =~= view_term_pairs(rest@));
        let p = skip_spaces(s, cur);
        if p >= s.len() {
            break;
        }
        let op = if s[p] == '+' {
            ExpressionOperator::Add
        } else if s[p] == '-' {
            ExpressionOperator::Subtract
        } else {
            break;
        };
        match parse_term(s, p + 1) {
            None => { break; },
            Some((t, e)) => {
                proof {
                    lemma_strip_split(s@, pos as int, cur as int, p as int);
                    lemma_strip_split(s@, pos as int, p as int, p + 1);
                    lemma_strip_split(s@, pos as int, p + 1, e as int);
                    lemma_strip_one(s@, p as int);
                    assert(expr_op_char(op) == s@[p as int]);
                }
                let ghost prev = rest@;
                let ghost vt = view_term(t);
                rest.push((op, t));
                proof {
                    assert(rest@.drop_last() =~= prev);
                    assert(strip(s@.subrange(pos as int, e as int)) =~= render_term(first)
                        + render_term_pairs(rest@));
                    assert(view_term_pairs(rest@) == view_term_pairs(prev).push((op, vt)));
                    assert(view_term_pairs(prev) + (seq![(op, vt)] + expression_tail_at(
                        s@,
                        e as int,
                    ).0) =~= view_term_pairs(rest@) + expression_tail_at(s@, e as int).0);
                }
                cur = e;
            },
        }
    }
    Some(((first, rest), cur))
}

/// A statement whose first token starts at `p`.
fn parse_statement(s: &Vec<char>, p: usize) -> (r: Option<(Statement, usize)>)
    requires
        p <= s@.len(),
    ensures
        r matches Some((st, e)) ==> p < e <= s@.len() && strip(s@.subrange(p as int, e as int))
            == render_statement(st),
        match r {
            Some((st, e)) => statement_at(s@, p as int) == Some((view_statement(st), e as int)),
            None => statement_at(s@, p as int) is None,
        },
{
    if p < s.len() && (s[p] == '@' || s[p] == '>') {
        let q = skip_spaces(s, p + 1);
        if let Some((n, e)) = parse_identifier(s, q) {
            proof {
                lemma_strip_split(s@, p as int, p + 1, q as int);
                lemma_strip_split(s@, p as int, q as int, e as int);
                lemma_strip_one(s@, p as int);
                assert(seq![s@[p as int]] + Seq::<char>::empty() =~= seq![s@[p as int]]);
            }
            if s[p] == '@' {
                return Some((Statement::Declaration(n), e));
            } else {
                return Some((Statement::Input(n), e));
            }
        }
        return None;
    }
    if p < s.len() && s[p] == '<' {
        if let Some((x, e)) = parse_expression(s, p + 1) {
            proof {
                lemma_strip_split(s@, p as int, p + 1, e as int);
                lemma_strip_one(s@, p as int);
            }
            return Some((Statement::Output(x), e));
        }
        return None;
    }
    if let Some((n, q)) = parse_identifier(s, p) {
        let a = skip_spaces(s, q);
        if a < s.len() && s[a] == ':' && a + 1 < s.len() && s[a + 1] == '=' {
            if let Some((x, e)) = parse_expression(s, a + 2) {
                proof {
                    lemma_strip_split(s@, p as int, q as int, a as int);
                    lemma_strip_split(s@, p as int, a as int, a + 2);
                    lemma_strip_split(s@, a as int, a + 1, a + 2);
                    lemma_strip_split(s@, p as int, a + 2, e as int);
                    lemma_strip_one(s@, a as int);
                    lemma_strip_one(s@, a + 1);
                    assert(seq![':'] + seq!['='] =~= seq![':', '=']);
                    assert(n@ + Seq::<char>::empty() =~= n@);
                }
                return Some((Statement::Assignment(n, x), e));
            }
        }
    }
    None
}

/// Reads statements from the start of `s` for as long as they match, and
/// returns the position where reading stopped with the statements read.
fn parse_statements(s: &Vec<char>) -> (r: (usize, Program))
    ensures
        r.0 <= s@.len(),
        program_at(s@, 0) == (view_statements(r.1@), r.0 as int),
        strip(s@.subrange(0, r.0 as int)) == render_statements(r.1@),
{
    let mut prog: Program = Vec::new();
    let mut cur: usize = 0;
    assert(strip(s@.subrange(0, 0)) =~= Seq::<char>::empty());
    assert(view_statements(prog@) + program_at(s@, 0).0 =~= program_at(s@, 0).0);
    loop
        invariant
            cur <= s@.len(),
            strip(s@.subrange(0, cur as int)) == render_statements(prog@),
            program_at(s@, 0) == (
                view_statements(prog@) + program_at(s@, cur as int).0,
                program_at(s@, cur as int).1,
            ),
        ensures
            cur <= s@.len(),
            strip(s@.subrange(0, cur as int)) == render_statements(prog@),
            program_at(s@, 0) == (view_statements(prog@), cur as int),
        decreases s@.len() - cur,
    {
        assert(view_statements(prog@) + Seq::<SStatement>::empty() =~= view_statements(prog@));
        let p = skip_spaces(s, cur);
        match parse_statement(s, p) {
            None => { break; },
            Some((st, e)) => {
                proof {
                    lemma_strip_split(s@, 0, cur as int, p as int);
                    lemma_strip_split(s@, 0, p as int, e as int);
                }
                let ghost prev = prog@;
                let ghost vs = view_statement(st);
                prog.push(st);
                proof {
                    assert(prog@.drop_last() =~= prev);
                    assert(view_statements(prog@) =~= view_statements(prev).push(vs));
                    assert(view_statements(prev) + (seq![vs] + program_at(s@, e as int).0)
                        =~= view_statements(prog@) + program_at(s@, e as int).0);
                    assert(strip(s@.subrange(0, e as int)) =~= render_statements(prog@));
                }
                cur = e;
            },
        }
    }
    (cur, prog)
}

/// Whether `s` holds anything but whitespace.
pub fn has_text(s: &Vec<char>) -> (r: bool)
    ensures
        r == (strip(s@).len() > 0),
{
    let mut i: usize = 0;
    while i < s.len()
        invariant
            i <= s@.len(),
            forall|k: int| 0 <= k < i ==> is_space(s@[k]),
        decreases s@.len() - i,
    {
        if !is_space_char(s[i]) {
            proof {
                lemma_strip_split(s@, 0, i as int, s@.len() as int);
                lemma_strip_split(s@, i as int, i + 1, s@.len() as int);
                lemma_strip_one(s@, i as int);
                assert(s@.subrange(0, s@.len() as int) =~= s@);
            }
            return true;
        }
        i = i + 1;
    }
    proof {
        lemma_strip_blank(s@);
    }
    false
}

/// The characters of `text`, in order.
fn chars_of(text: &str) -> (r: Vec<char>)
    ensures
        r@ == text@,
{
    broadcast use vstd::string::axiom_spec_iter, vstd::string::next_postcondition;
    let mut it = text.chars();
    let mut r: Vec<char> = Vec::new();
    loop
        invariant
            it.obeys_prophetic_iter_laws(),
            it.decrease() is Some,
            r@ + it.remaining() == text@,
        ensures
            r@ == text@,
        decreases it.decrease()->0,
    {
        match it.next() {
            Some(c) => {
                r.push(c);
            },
            None => {
                assert(it.remaining().len() == 0);
                assert(r@ =~= r@ + it.remaining());
                assert(r@ == text@);
                break;
            },
        }
    }
    r
}

/// Parses `text` as a sequence of statements. Reading stops at the first
/// position where no statement matches; the unread rest is returned beside
/// the statements. The statements and the stopping point are exactly those of
/// `program_at`, and the read part, whitespace removed, is their text.
pub fn parse_program(text: &str) -> (r: (Vec<char>, Program))
    ensures
        r.0@.len() <= text@.len(),
        r.0@ == text@.subrange(text@.len() - r.0@.len(), text@.len() as int),
        program_at(text@, 0) == (view_statements(r.1@), text@.len() - r.0@.len()),
        strip(text@.subrange(0, text@.len() - r.0@.len())) == render_statements(r.1@),
{
    let s = chars_of(text);
    let (end, prog) = parse_statements(&s);
    let rest = slice_chars(&s, end, s.len());
    (rest, prog)
}

} // verus!
