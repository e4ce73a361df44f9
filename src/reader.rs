use vstd::prelude::*;
use std::rc::Rc;
use crate::compiler::Ast;
use vstd::std_specs::iter::IteratorSpec;

verus! {

/// A syntax tree as a mathematical value: lists as sequences, symbols by name.
pub enum Form {
    Nil,
    Boolean(bool),
    Integer(i32),
    Symbol(Seq<char>),
    List(Seq<Form>, Box<Form>),
    Undefined,
}

/// The form of a tree.
pub open spec fn form_of(a: Ast) -> Form
    decreases a,
{
    match a {
        Ast::Nil => Form::Nil,
        Ast::Boolean(b) => Form::Boolean(b),
        Ast::Integer(i) => Form::Integer(i),
        Ast::Symbol(s) => Form::Symbol(s@),
        Ast::List(xs, last) => Form::List(forms_of(xs@), Box::new(form_of(*last))),
        Ast::Undefined => Form::Undefined,
    }
}

/// The forms of a sequence of trees.
pub open spec fn forms_of(xs: Seq<Ast>) -> Seq<Form>
    decreases xs,
{
    if xs.len() == 0 {
        Seq::empty()
    } else {
        forms_of(xs.subrange(0, xs.len() - 1)).push(form_of(xs[xs.len() - 1]))
    }
}

pub proof fn lemma_forms_of_push(xs: Seq<Ast>, a: Ast)
    ensures
        forms_of(xs.push(a)) == forms_of(xs).push(form_of(a)),
{
    assert(xs.push(a).subrange(0, xs.len() as int) =~= xs);
}

/// The character code at `i`.
pub open spec fn code(s: Seq<char>, i: int) -> int {
    (s[i] as u32) as int
}

pub open spec fn is_space_code(c: int) -> bool {
    c == 32 || (9 <= c && c <= 13)
}

pub open spec fn is_digit_code(c: int) -> bool {
    48 <= c && c <= 57
}

pub open spec fn is_letter_code(c: int) -> bool {
    (65 <= c && c <= 90) || (97 <= c && c <= 122)
}

/// A character that may begin a symbol: a letter or one of `!$%&*/:<=>?^_~+-`.
pub open spec fn is_initial_code(c: int) -> bool {
    is_letter_code(c) || c == 33 || c == 36 || c == 37 || c == 38 || c == 42 || c == 47 || c == 58
        || c == 60 || c == 61 || c == 62 || c == 63 || c == 94 || c == 95 || c == 126 || c == 43 || c == 45
}

/// A character that may follow in a symbol: an initial, a digit or one of `+-.@`.
pub open spec fn is_subsequent_code(c: int) -> bool {
    is_initial_code(c) || is_digit_code(c) || c == 46 || c == 64
}

/// The position after the whitespace and `;` line comments from `p`;
/// `in_comment` while inside a comment.
pub open spec fn blank_end(s: Seq<char>, p: nat, in_comment: bool) -> nat
    decreases s.len() - p,
{
    if p >= s.len() {
        p
    } else if in_comment {
        blank_end(s, p + 1, code(s, p as int) != 10)
    } else if is_space_code(code(s, p as int)) {
        blank_end(s, p + 1, false)
    } else if code(s, p as int) == 59 {
        blank_end(s, p + 1, true)
    } else {
        p
    }
}

/// The end of the run of symbol characters from `p`.
pub open spec fn symbol_end(s: Seq<char>, p: nat) -> nat
    decreases s.len() - p,
{
    if p < s.len() && is_subsequent_code(code(s, p as int)) { symbol_end(s, p + 1) } else { p }
}

/// The end of the run of digits from `p`.
pub open spec fn digits_end(s: Seq<char>, p: nat) -> nat
    decreases s.len() - p,
{
    if p < s.len() && is_digit_code(code(s, p as int)) { digits_end(s, p + 1) } else { p }
}

/// The number the digits `s[a..b]` write in decimal.
pub open spec fn digits_value(s: Seq<char>, a: int, b: int) -> int
    decreases b - a,
{
    if b <= a { 0 } else { digits_value(s, a, b - 1) * 10 + (code(s, b - 1) - 48) }
}

/// The list `(word e)`.
pub open spec fn wrapped(word: Seq<char>, e: Form) -> Form {
    Form::List(seq![Form::Symbol(word), e], Box::new(Form::Nil))
}

/// The form that starts at `p`, and the position after it: an integer
/// (`-` and digits, or digits, within the range of `i32`), `#t`, `#f`, a
/// symbol, a list, or `'e`, `` `e ``, `,e`, `,@e` for `quote`, `quasiquote`,
/// `unquote` and `unquote-splicing` of `e`.
pub open spec fn parse_expr(s: Seq<char>, p: nat) -> Option<(Form, nat)>
    decreases s.len() - p, 0nat,
{
    if p >= s.len() {
        None
    } else {
        let c = code(s, p as int);
        let next_is = |k: int| p + 1 < s.len() && code(s, (p + 1) as int) == k;
        if c == 40 {
            parse_list(s, p + 1, Seq::empty())
        } else if c == 39 || c == 96 || (c == 44 && !next_is(64)) {
            let word = if c == 39 { "quote"@ } else if c == 96 { "quasiquote"@ } else { "unquote"@ };
            match parse_expr(s, p + 1) {
                Some((e, q)) => Some((wrapped(word, e), q)),
                None => None,
            }
        } else if c == 44 {
            match parse_expr(s, p + 2) {
                Some((e, q)) => Some((wrapped("unquote-splicing"@, e), q)),
                None => None,
            }
        } else if c == 35 {
            if next_is(116) {
                Some((Form::Boolean(true), p + 2))
            } else if next_is(102) {
                Some((Form::Boolean(false), p + 2))
            } else {
                None
            }
        } else if is_digit_code(c) || (c == 45 && p + 1 < s.len() && is_digit_code(code(s, (p + 1) as int))) {
            let a: nat = if c == 45 { p + 1 } else { p };
            let e = digits_end(s, a);
            let v = if c == 45 { -digits_value(s, a as int, e as int) } else { digits_value(s, a as int, e as int) };
            if i32::MIN <= v && v <= i32::MAX { Some((Form::Integer(v as i32), e)) } else { None }
        } else if is_initial_code(c) {
            let e = symbol_end(s, p + 1);
            Some((Form::Symbol(s.subrange(p as int, e as int)), e))
        } else {
            None
        }
    }
}

/// The rest of a list from `p`, after its `(` and the elements `acc`: more
/// elements, then `)`, or `.`, one form and `)`.
pub open spec fn parse_list(s: Seq<char>, p: nat, acc: Seq<Form>) -> Option<(Form, nat)>
    decreases s.len() - p, 1nat,
{
    let q = blank_end(s, p, false);
    if q < p || q >= s.len() || p > s.len() {
        None
    } else if code(s, q as int) == 41 {
        Some((Form::List(acc, Box::new(Form::Nil)), q + 1))
    } else if code(s, q as int) == 46 {
        let r = blank_end(s, q + 1, false);
        if r < q + 1 || r > s.len() {
            None
        } else {
            match parse_expr(s, r) {
                Some((last, a)) => {
                    let c = blank_end(s, a, false);
                    if c < s.len() && code(s, c as int) == 41 {
                        Some((Form::List(acc, Box::new(last)), c + 1))
                    } else {
                        None
                    }
                },
                None => None,
            }
        }
    } else {
        match parse_expr(s, q) {
            Some((e, a)) => if a <= q || a > s.len() { None } else { parse_list(s, a, acc.push(e)) },
            None => None,
        }
    }
}

/// The forms from `p` on, after the forms `acc`.
pub open spec fn forms_from(s: Seq<char>, p: nat, acc: Seq<Form>) -> Option<Seq<Form>>
    decreases s.len() - p,
{
    let q = blank_end(s, p, false);
    if q < p || p > s.len() {
        None
    } else if q >= s.len() {
        if acc.len() == 0 { None } else { Some(acc) }
    } else {
        match parse_expr(s, q) {
            Some((e, a)) => if a <= q || a > s.len() { None } else { forms_from(s, a, acc.push(e)) },
            None => None,
        }
    }
}

/// The forms of a whole text: one or more, with whitespace and comments
/// around them; `None` where the text is not that.
pub open spec fn parse_forms(s: Seq<char>) -> Option<Seq<Form>> {
    forms_from(s, 0, Seq::empty())
}

/// The text being read, with the code of each of its characters.
struct Source<'a> {
    text: &'a str,
    codes: Vec<u32>,
}

impl<'a> Source<'a> {
    spec fn wf(&self) -> bool {
        &&& self.codes@.len() == self.text@.len()
        &&& forall|i: int| 0 <= i < self.codes@.len() ==> #[trigger] self.codes@[i] as int == code(self.text@, i)
    }
}

/// The outcome of reading one form at some position: the form and the
/// position after it.
pub type Parsed = Result<(Ast, usize), String>;

/// The code of each character of `input`.
fn char_codes(input: &str) -> (r: Vec<u32>)
    ensures
        r@.len() == input@.len(),
        forall|i: int| 0 <= i < r@.len() ==> #[trigger] r@[i] as int == code(input@, i),
{
    let mut codes: Vec<u32> = Vec::new();
    let mut it = input.chars();
    proof {
        vstd::string::axiom_spec_iter(input);
    }
    loop
        invariant
            codes@.len() + it.remaining().len() == input@.len(),
            it.obeys_prophetic_iter_laws(),
            it.remaining() == input@.subrange(codes@.len() as int, input@.len() as int),
            forall|i: int| 0 <= i < codes@.len() ==> #[trigger] codes@[i] as int == code(input@, i),
        decreases input@.len() - codes@.len(),
    {
        let ghost before = it;
        match it.next() {
            Some(c) => {
                proof {
                    vstd::string::next_postcondition(&before, &it, Some(c));
                }
                codes.push(c as u32);
            },
            None => {
                proof {
                    vstd::string::next_postcondition(&before, &it, None::<char>);
                }
                return codes;
            },
        }
    }
}

/// Reads every form of a source text.
pub fn read(input: &str) -> (r: Result<Vec<Ast>, String>)
    ensures
        r is Ok == parse_forms(input@) is Some,
        r matches Ok(forms) ==> forms_of(forms@) == parse_forms(input@)->0,
{
    let codes = char_codes(input);
    let n = codes.len();
    let src = Source { text: input, codes };
    let mut forms: Vec<Ast> = Vec::new();
    let mut pos: usize = 0;
    assert(forms_of(forms@) =~= Seq::<Form>::empty());
    loop
        invariant
            src.wf(),
            src.text@ == input@,
            n == src.codes@.len(),
            pos <= n,
            parse_forms(input@) == forms_from(input@, pos as nat, forms_of(forms@)),
        decreases n - pos,
    {
        let q = skip_blank(&src, pos);
        if q >= n {
            if forms.len() == 0 {
                return Err("expression expected".to_owned());
            }
            return Ok(forms);
        }
        match expression(&src, q) {
            Ok((a, next)) => {
                proof {
                    lemma_forms_of_push(forms@, a);
                }
                forms.push(a);
                pos = next;
            },
            Err(e) => return Err(e),
        }
    }
}

fn is_space(b: u32) -> (r: bool)
    ensures
        r == is_space_code(b as int),
{
    b == 32 || (9 <= b && b <= 13)
}

fn is_digit(b: u32) -> (r: bool)
    ensures
        r == is_digit_code(b as int),
{
    48 <= b && b <= 57
}

fn is_letter(b: u32) -> (r: bool)
    ensures
        r == is_letter_code(b as int),
{
    (65 <= b && b <= 90) || (97 <= b && b <= 122)
}

fn is_initial(b: u32) -> (r: bool)
    ensures
        r == is_initial_code(b as int),
{
    is_letter(b) || b == 33 || b == 36 || b == 37 || b == 38 || b == 42 || b == 47 || b == 58 || b == 60
        || b == 61 || b == 62 || b == 63 || b == 94 || b == 95 || b == 126 || b == 43 || b == 45
}

fn is_subsequent(b: u32) -> (r: bool)
    ensures
        r == is_subsequent_code(b as int),
{
    is_initial(b) || is_digit(b) || b == 46 || b == 64
}

/// The position after any whitespace and line comments from `pos`.
fn skip_blank(src: &Source, pos: usize) -> (r: usize)
    requires
        src.wf(),
        pos <= src.codes@.len(),
    ensures
        r as nat == blank_end(src.text@, pos as nat, false),
        pos <= r <= src.codes@.len(),
{
    let n = src.codes.len();
    let mut p = pos;
    let mut in_comment = false;
    while p < n
        invariant
            src.wf(),
            n == src.codes@.len(),
            pos <= p <= n,
            blank_end(src.text@, pos as nat, false) == blank_end(src.text@, p as nat, in_comment),
        decreases n - p,
    {
        let b = src.codes[p];
        if in_comment {
            in_comment = b != 10;
        } else if is_space(b) {
        } else if b == 59 {
            in_comment = true;
        } else {
            return p;
        }
        p = p + 1;
    }
    p
}

/// The tree `(word e)`.
fn wrap(word: &str, e: Ast) -> (r: Ast)
    ensures
        form_of(r) == wrapped(word@, form_of(e)),
{
    let mut xs: Vec<Ast> = Vec::new();
    xs.push(Ast::Symbol(word.to_owned()));
    xs.push(e);
    let r = Ast::List(Rc::new(xs), Box::new(Ast::Nil));
    proof {
        let s0 = Seq::<Ast>::empty();
        lemma_forms_of_push(s0, xs@[0]);
        lemma_forms_of_push(s0.push(xs@[0]), e);
        assert(s0.push(xs@[0]).push(e) =~= xs@);
        assert(forms_of(s0) =~= Seq::<Form>::empty());
        assert(forms_of(xs@) =~= seq![Form::Symbol(word@), form_of(e)]);
        assert(form_of(Ast::Nil) == Form::Nil);
    }
    r
}

/// Reads one form at `pos`.
fn expression(src: &Source, pos: usize) -> (r: Parsed)
    requires
        src.wf(),
        pos <= src.codes@.len(),
    ensures
        r is Ok == parse_expr(src.text@, pos as nat) is Some,
        r matches Ok((a, next)) ==> parse_expr(src.text@, pos as nat) == Some((form_of(a), next as nat))
            && pos < next <= src.codes@.len(),
    decreases src.codes@.len() - pos, 0nat,
{
    let n = src.codes.len();
    if pos >= n {
        return Err("unexpected end of input".to_owned());
    }
    let b = src.codes[pos];
    if b == 40 {
        return list(src, pos + 1, Vec::new());
    }
    let comma_at = b == 44 && pos + 1 < n && src.codes[pos + 1] == 64;
    if b == 39 || b == 96 || b == 44 {
        let (word, start): (&str, usize) = if b == 39 {
            ("quote", pos + 1)
        } else if b == 96 {
            ("quasiquote", pos + 1)
        } else if comma_at {
            ("unquote-splicing", pos + 2)
        } else {
            ("unquote", pos + 1)
        };
        return match expression(src, start) {
            Ok((e, next)) => Ok((wrap(word, e), next)),
            Err(e) => Err(e),
        };
    }
    if b == 35 {
        if pos + 1 >= n {
            return Err("unexpected end of input".to_owned());
        }
        let c = src.codes[pos + 1];
        return if c == 116 {
            Ok((Ast::Boolean(true), pos + 2))
        } else if c == 102 {
            Ok((Ast::Boolean(false), pos + 2))
        } else {
            Err("unsupported # syntax".to_owned())
        };
    }
    let negative = b == 45 && pos + 1 < n && is_digit(src.codes[pos + 1]);
    if is_digit(b) || negative {
        return integer(src, pos, negative);
    }
    if is_initial(b) {
        let mut p = pos + 1;
        while p < n && is_subsequent(src.codes[p])
            invariant
                src.wf(),
                n == src.codes@.len(),
                pos < p <= n,
                symbol_end(src.text@, (pos + 1) as nat) == symbol_end(src.text@, p as nat),
            decreases n - p,
        {
            p = p + 1;
        }
        let name = src.text.substring_char(pos, p).to_owned();
        return Ok((Ast::Symbol(name), p));
    }
    Err("unexpected character".to_owned())
}

/// More digits never make a smaller number.
proof fn lemma_digits_grow(s: Seq<char>, a: int, k: int, e: int)
    requires
        a <= k <= e <= s.len(),
        forall|i: int| a <= i < e ==> is_digit_code(#[trigger] code(s, i)),
    ensures
        digits_value(s, a, k) <= digits_value(s, a, e),
    decreases e - k,
{
    if k < e {
        lemma_digits_grow(s, a, k, e - 1);
        assert(digits_value(s, a, e - 1) >= 0) by {
            lemma_digits_nonneg(s, a, e - 1);
        }
    }
}

proof fn lemma_digits_nonneg(s: Seq<char>, a: int, e: int)
    requires
        a <= e <= s.len(),
        forall|i: int| a <= i < e ==> is_digit_code(#[trigger] code(s, i)),
    ensures
        digits_value(s, a, e) >= 0,
    decreases e - a,
{
    if a < e {
        lemma_digits_nonneg(s, a, e - 1);
    }
}

proof fn lemma_digits_end(s: Seq<char>, a: nat, p: nat)
    requires
        a <= p <= s.len(),
        forall|i: int| a <= i < p ==> is_digit_code(#[trigger] code(s, i)),
        digits_end(s, a) == digits_end(s, p),
    ensures
        forall|i: int| a <= i < digits_end(s, a) ==> is_digit_code(#[trigger] code(s, i)),
        p <= digits_end(s, a) <= s.len(),
    decreases s.len() - p,
{
    if p < s.len() && is_digit_code(code(s, p as int)) {
        lemma_digits_end(s, a, p + 1);
    }
}

/// Reads a decimal integer at `pos`, after a `-` where `negative`.
fn integer(src: &Source, pos: usize, negative: bool) -> (r: Parsed)
    requires
        src.wf(),
        pos < src.codes@.len(),
        negative == (code(src.text@, pos as int) == 45 && pos + 1 < src.codes@.len()
            && is_digit_code(code(src.text@, pos + 1))),
        negative || is_digit_code(code(src.text@, pos as int)),
    ensures
        r is Ok == parse_expr(src.text@, pos as nat) is Some,
        r matches Ok((a, next)) ==> parse_expr(src.text@, pos as nat) == Some((form_of(a), next as nat))
            && pos < next <= src.codes@.len(),
{
    let ghost s = src.text@;
    let n = src.codes.len();
    let start = if negative { pos + 1 } else { pos };
    let mut p = start;
    let mut value: u64 = 0;
    while p < n && is_digit(src.codes[p])
        invariant
            src.wf(),
            s == src.text@,
            n == src.codes@.len(),
            start <= p <= n,
            pos < n,
            start == if negative { pos + 1 } else { pos as int },
            negative == (code(s, pos as int) == 45 && pos + 1 < n && is_digit_code(code(s, pos + 1))),
            negative || is_digit_code(code(s, pos as int)),
            value <= 2147483648,
            value == digits_value(s, start as int, p as int),
            forall|i: int| start <= i < p ==> is_digit_code(#[trigger] code(s, i)),
            digits_end(s, start as nat) == digits_end(s, p as nat),
        decreases n - p,
    {
        assert(digits_end(s, p as nat) == digits_end(s, (p + 1) as nat));
        value = value * 10 + (src.codes[p] - 48) as u64;
        p = p + 1;
        if value > 2147483648 {
            proof {
                lemma_digits_end(s, start as nat, p as nat);
                let e = digits_end(s, start as nat) as int;
                lemma_digits_grow(s, start as int, p as int, e);
                assert(digits_value(s, start as int, e) > 2147483648);
                let c = code(s, pos as int);
                assert(c != 40 && c != 39 && c != 96 && c != 44 && c != 35);
                let v = if c == 45 { -digits_value(s, start as int, e) } else { digits_value(s, start as int, e) };
                assert(!(i32::MIN <= v && v <= i32::MAX));
                assert(parse_expr(s, pos as nat) is None);
            }
            return Err("integer out of range".to_owned());
        }
    }
    assert(digits_end(s, p as nat) == p);
    assert(p > start);
    if !negative && value > 2147483647 {
        assert(parse_expr(s, pos as nat) is None);
        return Err("integer out of range".to_owned());
    }
    let i: i32 = if negative { (0 - (value as i64)) as i32 } else { value as i32 };
    Ok((Ast::Integer(i), p))
}

/// Reads the rest of a list from `pos`, after its `(` and the elements `xs`.
fn list(src: &Source, pos: usize, xs: Vec<Ast>) -> (r: Parsed)
    requires
        src.wf(),
        pos <= src.codes@.len(),
    ensures
        r is Ok == parse_list(src.text@, pos as nat, forms_of(xs@)) is Some,
        r matches Ok((a, next)) ==> parse_list(src.text@, pos as nat, forms_of(xs@)) == Some((form_of(a), next as nat))
            && pos < next <= src.codes@.len(),
    decreases src.codes@.len() - pos, 1nat,
{
    let ghost s = src.text@;
    let n = src.codes.len();
    let q = skip_blank(src, pos);
    if q >= n {
        return Err("unexpected end of input".to_owned());
    }
    let b = src.codes[q];
    if b == 41 {
        let r = Ast::List(Rc::new(xs), Box::new(Ast::Nil));
        assert(form_of(Ast::Nil) == Form::Nil);
        return Ok((r, q + 1));
    }
    if b == 46 {
        let r0 = skip_blank(src, q + 1);
        let (last, after) = match expression(src, r0) {
            Ok(x) => x,
            Err(e) => return Err(e),
        };
        let close = skip_blank(src, after);
        if close < n && src.codes[close] == 41 {
            return Ok((Ast::List(Rc::new(xs), Box::new(last)), close + 1));
        }
        return Err("`)` expected".to_owned());
    }
    match expression(src, q) {
        Ok((a, next)) => {
            let mut ys = xs;
            proof {
                lemma_forms_of_push(ys@, a);
            }
            ys.push(a);
            list(src, next, ys)
        },
        Err(e) => Err(e),
    }
}

} // verus!
