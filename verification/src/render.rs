use crate::ast::AstNode;
use vstd::prelude::*;

verus! {

/// The character of one decimal digit.
pub open spec fn digit_char(d: nat) -> char {
    if d == 0 {
        '0'
    } else if d == 1 {
        '1'
    } else if d == 2 {
        '2'
    } else if d == 3 {
        '3'
    } else if d == 4 {
        '4'
    } else if d == 5 {
        '5'
    } else if d == 6 {
        '6'
    } else if d == 7 {
        '7'
    } else if d == 8 {
        '8'
    } else {
        '9'
    }
}

/// The decimal digits of a nonnegative number, most significant first.
pub open spec fn dec_digits(n: nat) -> Seq<char>
    decreases n,
{
    if n < 10 {
        seq![digit_char(n)]
    } else {
        dec_digits(n / 10) + seq![digit_char(n % 10)]
    }
}

/// The decimal text of an integer, with a leading minus sign when it is
/// negative.
pub open spec fn int_text(n: int) -> Seq<char> {
    if n < 0 {
        seq!['-'] + dec_digits((-n) as nat)
    } else {
        dec_digits(n as nat)
    }
}

/// The canonical text of an expression, readable back under the usual
/// precedence: an additive node wraps itself in parentheses and shows
/// its operands as chains; multiplicative nodes show their operands in
/// full, parenthesizing a division's right operand when it is itself a
/// product or quotient. A subtraction's right operand always keeps its
/// own parentheses, so the text never conflates `a-(b+c)` with `a-b+c`.
pub open spec fn render_text(e: AstNode) -> Seq<char>
    decreases e, 0nat,
{
    match e {
        AstNode::Num(n) => int_text(n as int),
        AstNode::Add(l, r) => seq!['('] + chain_text(*l) + seq!['+'] + chain_text(*r) + seq![')'],
        AstNode::Sub(l, r) => seq!['('] + chain_text(*l) + seq!['-'] + render_text(*r) + seq![')'],
        AstNode::Mul(l, r) => render_text(*l) + seq!['*'] + render_text(*r),
        AstNode::Div(l, r) => render_text(*l) + seq!['/'] + (if *r is Mul || *r is Div {
            seq!['('] + render_text(*r) + seq![')']
        } else {
            render_text(*r)
        }),
    }
}

/// The text of an expression shown as one operand of an additive chain:
/// additive nodes drop their own outermost parentheses, which plain
/// left-to-right reading makes redundant there; anything else is shown
/// in full.
pub open spec fn chain_text(e: AstNode) -> Seq<char>
    decreases e, 1nat,
{
    match e {
        AstNode::Add(l, r) => chain_text(*l) + seq!['+'] + chain_text(*r),
        AstNode::Sub(l, r) => chain_text(*l) + seq!['-'] + render_text(*r),
        _ => render_text(e),
    }
}

/// The rendered text is never empty.
pub proof fn lemma_render_nonempty(e: AstNode)
    ensures
        render_text(e).len() >= 1,
    decreases e,
{
    match e {
        AstNode::Num(n) => {
            if n < 0 {
                assert(dec_digits((-(n as int)) as nat).len() >= 1);
            } else {
                assert(dec_digits((n as int) as nat).len() >= 1);
            }
        },
        AstNode::Add(l, r) => {},
        AstNode::Sub(l, r) => {},
        AstNode::Mul(l, r) => {
            lemma_render_nonempty(*l);
        },
        AstNode::Div(l, r) => {
            lemma_render_nonempty(*l);
        },
    }
}

/// Relies on `String::push`: appends exactly one character.
#[verifier::external_body]
fn push_char(s: &mut String, c: char)
    ensures
        final(s)@ == old(s)@.push(c),
{
    s.push(c);
}

/// Build a string out of a character vector.
pub fn string_of_chars(v: &Vec<char>) -> (s: String)
    ensures
        s@ == v@,
{
    let mut s = String::new();
    let mut i: usize = 0;
    while i < v.len()
        invariant
            i <= v@.len(),
            s@ == v@.take(i as int),
        decreases v@.len() - i,
    {
        push_char(&mut s, v[i]);
        proof {
            assert(v@.take(i as int + 1) =~= v@.take(i as int).push(v@[i as int]));
        }
        i += 1;
    }
    proof {
        assert(v@.take(v@.len() as int) =~= v@);
    }
    s
}

fn digit_char_of(d: u128) -> (c: char)
    requires
        d < 10,
    ensures
        c == digit_char(d as nat),
{
    if d == 0 {
        '0'
    } else if d == 1 {
        '1'
    } else if d == 2 {
        '2'
    } else if d == 3 {
        '3'
    } else if d == 4 {
        '4'
    } else if d == 5 {
        '5'
    } else if d == 6 {
        '6'
    } else if d == 7 {
        '7'
    } else if d == 8 {
        '8'
    } else {
        '9'
    }
}

fn push_u128_digits(n: u128, out: &mut Vec<char>)
    ensures
        final(out)@ == old(out)@ + dec_digits(n as nat),
    decreases n,
{
    if n < 10 {
        out.push(digit_char_of(n));
        proof {
            assert(final(out)@ =~= old(out)@ + dec_digits(n as nat));
        }
    } else {
        push_u128_digits(n / 10, out);
        out.push(digit_char_of(n % 10));
        proof {
            assert(final(out)@ =~= old(out)@ + dec_digits(n as nat));
        }
    }
}

/// Append the decimal text of a leaf value.
fn push_i64_text(n: i64, out: &mut Vec<char>)
    ensures
        final(out)@ == old(out)@ + int_text(n as int),
{
    if n < 0 {
        out.push('-');
        let ghost mid = out@;
        let m = (-(n as i128)) as u128;
        push_u128_digits(m, out);
        proof {
            assert(mid =~= old(out)@ + seq!['-']);
            assert(final(out)@ =~= old(out)@ + int_text(n as int));
        }
    } else {
        push_u128_digits(n as u128, out);
    }
}

/// Append the decimal text of a floored result.
pub fn push_i128_text(n: i128, out: &mut Vec<char>)
    requires
        n > i128::MIN,
    ensures
        final(out)@ == old(out)@ + int_text(n as int),
{
    if n < 0 {
        out.push('-');
        let ghost mid = out@;
        let m = (-n) as u128;
        push_u128_digits(m, out);
        proof {
            assert(mid =~= old(out)@ + seq!['-']);
            assert(final(out)@ =~= old(out)@ + int_text(n as int));
        }
    } else {
        push_u128_digits(n as u128, out);
    }
}

pub(crate) fn render_chars_of(e: &AstNode) -> (r: Vec<char>)
    ensures
        r@ == render_text(*e),
    decreases *e, 0nat,
{
    match e {
        AstNode::Num(n) => {
            let mut out: Vec<char> = Vec::new();
            push_i64_text(*n, &mut out);
            out
        },
        AstNode::Add(l, r) => {
            let mut out: Vec<char> = Vec::new();
            out.push('(');
            let mut ls = chain_chars_of(l);
            out.append(&mut ls);
            out.push('+');
            let mut rs = chain_chars_of(r);
            out.append(&mut rs);
            out.push(')');
            proof {
                assert(out@ =~= render_text(*e));
            }
            out
        },
        AstNode::Sub(l, r) => {
            let mut out: Vec<char> = Vec::new();
            out.push('(');
            let mut ls = chain_chars_of(l);
            out.append(&mut ls);
            out.push('-');
            let mut rs = render_chars_of(r);
            out.append(&mut rs);
            out.push(')');
            proof {
                assert(out@ =~= render_text(*e));
            }
            out
        },
        AstNode::Mul(l, r) => {
            let mut out = render_chars_of(l);
            out.push('*');
            let mut rs = render_chars_of(r);
            out.append(&mut rs);
            proof {
                assert(out@ =~= render_text(*e));
            }
            out
        },
        AstNode::Div(l, r) => {
            let mut out = render_chars_of(l);
            out.push('/');
            let wrap = match &**r {
                AstNode::Mul(_, _) => true,
                AstNode::Div(_, _) => true,
                _ => false,
            };
            if wrap {
                out.push('(');
            }
            let mut rs = render_chars_of(r);
            out.append(&mut rs);
            if wrap {
                out.push(')');
            }
            proof {
                assert(out@ =~= render_text(*e));
            }
            out
        },
    }
}

fn chain_chars_of(e: &AstNode) -> (r: Vec<char>)
    ensures
        r@ == chain_text(*e),
    decreases *e, 1nat,
{
    match e {
        AstNode::Add(l, r) => {
            let mut out = chain_chars_of(l);
            out.push('+');
            let mut rs = chain_chars_of(r);
            out.append(&mut rs);
            proof {
                assert(out@ =~= chain_text(*e));
            }
            out
        },
        AstNode::Sub(l, r) => {
            let mut out = chain_chars_of(l);
            out.push('-');
            let mut rs = render_chars_of(r);
            out.append(&mut rs);
            proof {
                assert(out@ =~= chain_text(*e));
            }
            out
        },
        _ => render_chars_of(e),
    }
}

impl AstNode {
    /// The canonical text of the expression.
    pub fn render(&self) -> (s: String)
        ensures
            s@ == render_text(*self),
    {
        let v = render_chars_of(self);
        string_of_chars(&v)
    }

    /// The expression's text as one operand of an additive chain: an
    /// additive node drops its own outermost parentheses.
    pub fn simplify(&self) -> (s: String)
        ensures
            s@ == chain_text(*self),
    {
        let v = chain_chars_of(self);
        string_of_chars(&v)
    }
}

} // verus!
