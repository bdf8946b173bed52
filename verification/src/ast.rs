use vstd::prelude::*;

verus! {

/// A symbolic arithmetic expression: integer leaves combined by the four
/// binary operators. Internal nodes own their two children.
#[derive(Debug)]
pub enum AstNode {
    Add(Box<AstNode>, Box<AstNode>),
    Mul(Box<AstNode>, Box<AstNode>),
    Sub(Box<AstNode>, Box<AstNode>),
    Div(Box<AstNode>, Box<AstNode>),
    Num(i64),
}

/// The leaf values of an expression, left to right.
pub open spec fn leaves(e: AstNode) -> Seq<i64>
    decreases e,
{
    match e {
        AstNode::Num(n) => seq![n],
        AstNode::Add(l, r) => leaves(*l) + leaves(*r),
        AstNode::Mul(l, r) => leaves(*l) + leaves(*r),
        AstNode::Sub(l, r) => leaves(*l) + leaves(*r),
        AstNode::Div(l, r) => leaves(*l) + leaves(*r),
    }
}

/// Every value of the sequence is a die face, 1 through 6.
pub open spec fn all_dice(s: Seq<i64>) -> bool {
    forall|i: int| 0 <= i < s.len() ==> 1 <= #[trigger] s[i] <= 6
}

/// The most dice the solver accepts in one request; keeps the exact
/// fractions produced during evaluation within `i128`.
pub const MAX_DICE: usize = 30;

/// The expression is over die faces and small enough to evaluate exactly.
pub open spec fn eval_ready(e: AstNode) -> bool {
    all_dice(leaves(e)) && leaves(e).len() <= MAX_DICE
}

/// The exact value of an expression as an unreduced fraction with a
/// positive denominator; `None` exactly when a division by zero occurs
/// somewhere inside it.
pub open spec fn eval_rat(e: AstNode) -> Option<(int, int)>
    decreases e,
{
    match e {
        AstNode::Num(n) => Some((n as int, 1int)),
        AstNode::Add(l, r) => match (eval_rat(*l), eval_rat(*r)) {
            (Some(p), Some(q)) => Some((p.0 * q.1 + q.0 * p.1, p.1 * q.1)),
            _ => None,
        },
        AstNode::Sub(l, r) => match (eval_rat(*l), eval_rat(*r)) {
            (Some(p), Some(q)) => Some((p.0 * q.1 - q.0 * p.1, p.1 * q.1)),
            _ => None,
        },
        AstNode::Mul(l, r) => match (eval_rat(*l), eval_rat(*r)) {
            (Some(p), Some(q)) => Some((p.0 * q.0, p.1 * q.1)),
            _ => None,
        },
        AstNode::Div(l, r) => match (eval_rat(*l), eval_rat(*r)) {
            (Some(p), Some(q)) => if q.0 == 0 {
                None
            } else if q.0 < 0 {
                Some((-(p.0 * q.1), p.1 * (-q.0)))
            } else {
                Some((p.0 * q.1, p.1 * q.0))
            },
            _ => None,
        },
    }
}

/// A bound on the numerator and denominator of the exact value: at a leaf
/// the magnitude of the value, doubled at every internal node.
pub open spec fn mag(e: AstNode) -> int
    decreases e,
{
    match e {
        AstNode::Num(n) => if n < 0 {
            -(n as int)
        } else if n == 0 {
            1
        } else {
            n as int
        },
        AstNode::Add(l, r) => 2 * mag(*l) * mag(*r),
        AstNode::Mul(l, r) => 2 * mag(*l) * mag(*r),
        AstNode::Sub(l, r) => 2 * mag(*l) * mag(*r),
        AstNode::Div(l, r) => 2 * mag(*l) * mag(*r),
    }
}

/// Twelve to the `n`-th power.
pub open spec fn pow12(n: nat) -> int
    decreases n,
{
    if n == 0 {
        1
    } else {
        12 * pow12((n - 1) as nat)
    }
}

/// The numeric value of `pow12(MAX_DICE)`.
pub const RAT_BOUND: i128 = 237376313799769806328950291431424;

proof fn lemma_mul_bound(a: int, b: int, ma: int, mb: int)
    by (nonlinear_arith)
    requires
        -ma <= a <= ma,
        -mb <= b <= mb,
        0 <= ma,
        0 <= mb,
    ensures
        -(ma * mb) <= a * b <= ma * mb,
{
}

pub proof fn lemma_all_dice_split(a: Seq<i64>, b: Seq<i64>)
    requires
        all_dice(a + b),
    ensures
        all_dice(a),
        all_dice(b),
{
    assert forall|i: int| 0 <= i < a.len() implies 1 <= #[trigger] a[i] <= 6 by {
        assert((a + b)[i] == a[i]);
    }
    assert forall|i: int| 0 <= i < b.len() implies 1 <= #[trigger] b[i] <= 6 by {
        assert((a + b)[a.len() + i] == b[i]);
    }
}

pub proof fn lemma_mag_pos(e: AstNode)
    ensures
        mag(e) >= 1,
    decreases e,
{
    match e {
        AstNode::Num(n) => {},
        AstNode::Add(l, r) => {
            lemma_mag_pos(*l);
            lemma_mag_pos(*r);
            assert(2 * mag(*l) * mag(*r) >= 1) by (nonlinear_arith)
                requires mag(*l) >= 1 && mag(*r) >= 1;
        },
        AstNode::Mul(l, r) => {
            lemma_mag_pos(*l);
            lemma_mag_pos(*r);
            assert(2 * mag(*l) * mag(*r) >= 1) by (nonlinear_arith)
                requires mag(*l) >= 1 && mag(*r) >= 1;
        },
        AstNode::Sub(l, r) => {
            lemma_mag_pos(*l);
            lemma_mag_pos(*r);
            assert(2 * mag(*l) * mag(*r) >= 1) by (nonlinear_arith)
                requires mag(*l) >= 1 && mag(*r) >= 1;
        },
        AstNode::Div(l, r) => {
            lemma_mag_pos(*l);
            lemma_mag_pos(*r);
            assert(2 * mag(*l) * mag(*r) >= 1) by (nonlinear_arith)
                requires mag(*l) >= 1 && mag(*r) >= 1;
        },
    }
}

proof fn lemma_pow12_add(a: nat, b: nat)
    ensures
        pow12(a + b) == pow12(a) * pow12(b),
    decreases a,
{
    if a == 0 {
        assert(pow12(b) == 1 * pow12(b));
    } else {
        lemma_pow12_add((a - 1) as nat, b);
        assert(12 * (pow12((a - 1) as nat) * pow12(b)) == (12 * pow12((a - 1) as nat)) * pow12(
            b,
        )) by (nonlinear_arith);
    }
}

proof fn lemma_pow12_pos(n: nat)
    ensures
        pow12(n) >= 1,
    decreases n,
{
    if n > 0 {
        lemma_pow12_pos((n - 1) as nat);
    }
}

pub proof fn lemma_pow12_mono(a: nat, b: nat)
    requires
        a <= b,
    ensures
        pow12(a) <= pow12(b),
    decreases b,
{
    if a < b {
        lemma_pow12_mono(a, (b - 1) as nat);
        lemma_pow12_pos((b - 1) as nat);
    }
}

pub proof fn lemma_pow12_max()
    ensures
        pow12(MAX_DICE as nat) == RAT_BOUND as int,
{
    reveal_with_fuel(pow12, 31);
}

/// The bound really bounds: a dice expression's magnitude stays below
/// half of `pow12` of its leaf count.
pub proof fn lemma_mag_bound(e: AstNode)
    requires
        all_dice(leaves(e)),
    ensures
        2 * mag(e) <= pow12(leaves(e).len()),
    decreases e,
{
    match e {
        AstNode::Num(n) => {
            assert(leaves(e)[0] == n);
            reveal_with_fuel(pow12, 2);
            assert(pow12(1) == 12);
        },
        AstNode::Add(l, r) => {
            lemma_all_dice_split(leaves(*l), leaves(*r));
            lemma_mag_bound(*l);
            lemma_mag_bound(*r);
            lemma_mag_pos(*l);
            lemma_mag_pos(*r);
            lemma_mag_bound_node(e, *l, *r);
        },
        AstNode::Mul(l, r) => {
            lemma_all_dice_split(leaves(*l), leaves(*r));
            lemma_mag_bound(*l);
            lemma_mag_bound(*r);
            lemma_mag_pos(*l);
            lemma_mag_pos(*r);
            lemma_mag_bound_node(e, *l, *r);
        },
        AstNode::Sub(l, r) => {
            lemma_all_dice_split(leaves(*l), leaves(*r));
            lemma_mag_bound(*l);
            lemma_mag_bound(*r);
            lemma_mag_pos(*l);
            lemma_mag_pos(*r);
            lemma_mag_bound_node(e, *l, *r);
        },
        AstNode::Div(l, r) => {
            lemma_all_dice_split(leaves(*l), leaves(*r));
            lemma_mag_bound(*l);
            lemma_mag_bound(*r);
            lemma_mag_pos(*l);
            lemma_mag_pos(*r);
            lemma_mag_bound_node(e, *l, *r);
        },
    }
}

proof fn lemma_mag_bound_node(e: AstNode, l: AstNode, r: AstNode)
    requires
        leaves(e) == leaves(l) + leaves(r),
        mag(e) == 2 * mag(l) * mag(r),
        2 * mag(l) <= pow12(leaves(l).len()),
        2 * mag(r) <= pow12(leaves(r).len()),
        mag(l) >= 1,
        mag(r) >= 1,
    ensures
        2 * mag(e) <= pow12(leaves(e).len()),
{
    let nl = leaves(l).len();
    let nr = leaves(r).len();
    lemma_pow12_add(nl, nr);
    assert(2 * (2 * mag(l) * mag(r)) <= pow12(nl) * pow12(nr)) by (nonlinear_arith)
        requires
            2 * mag(l) <= pow12(nl),
            2 * mag(r) <= pow12(nr),
            mag(l) >= 1,
            mag(r) >= 1;
}

/// The exact value of an expression fits inside its magnitude bound, and
/// its denominator is positive.
pub proof fn lemma_eval_bounds(e: AstNode)
    ensures
        eval_rat(e) matches Some(q) ==> 1 <= q.1 <= mag(e) && -mag(e) <= q.0 <= mag(e),
    decreases e,
{
    lemma_mag_pos(e);
    match e {
        AstNode::Num(n) => {},
        AstNode::Add(l, r) => {
            lemma_eval_bounds(*l);
            lemma_eval_bounds(*r);
            lemma_mag_pos(*l);
            lemma_mag_pos(*r);
            lemma_eval_bounds_node(*l, *r);
        },
        AstNode::Mul(l, r) => {
            lemma_eval_bounds(*l);
            lemma_eval_bounds(*r);
            lemma_mag_pos(*l);
            lemma_mag_pos(*r);
            lemma_eval_bounds_node(*l, *r);
        },
        AstNode::Sub(l, r) => {
            lemma_eval_bounds(*l);
            lemma_eval_bounds(*r);
            lemma_mag_pos(*l);
            lemma_mag_pos(*r);
            lemma_eval_bounds_node(*l, *r);
        },
        AstNode::Div(l, r) => {
            lemma_eval_bounds(*l);
            lemma_eval_bounds(*r);
            lemma_mag_pos(*l);
            lemma_mag_pos(*r);
            lemma_eval_bounds_node(*l, *r);
        },
    }
}

proof fn lemma_eval_bounds_node(l: AstNode, r: AstNode)
    requires
        eval_rat(l) matches Some(p) ==> 1 <= p.1 <= mag(l) && -mag(l) <= p.0 <= mag(l),
        eval_rat(r) matches Some(q) ==> 1 <= q.1 <= mag(r) && -mag(r) <= q.0 <= mag(r),
        mag(l) >= 1,
        mag(r) >= 1,
    ensures
        (eval_rat(l) is Some && eval_rat(r) is Some) ==> ({
            let p = eval_rat(l)->Some_0;
            let q = eval_rat(r)->Some_0;
            let ml = mag(l);
            let mr = mag(r);
            &&& -(ml * mr) <= p.0 * q.1 <= ml * mr
            &&& -(ml * mr) <= q.0 * p.1 <= ml * mr
            &&& -(ml * mr) <= p.0 * q.0 <= ml * mr
            &&& 1 <= p.1 * q.1 <= ml * mr
            &&& (q.0 != 0 ==> 1 <= p.1 * (if q.0 < 0 { -q.0 } else { q.0 }) <= ml * mr)
            &&& 2 * (ml * mr) == mag(AstNode::Add(Box::new(l), Box::new(r)))
        }),
        mag(l) <= mag(l) * mag(r),
        mag(r) <= mag(l) * mag(r),
{
    let ml = mag(l);
    let mr = mag(r);
    assert(2 * (ml * mr) == 2 * ml * mr) by (nonlinear_arith);
    assert(ml <= ml * mr && mr <= ml * mr) by (nonlinear_arith)
        requires ml >= 1 && mr >= 1;
    if eval_rat(l) is Some && eval_rat(r) is Some {
        let p = eval_rat(l)->Some_0;
        let q = eval_rat(r)->Some_0;
        lemma_mul_bound(p.0, q.1, ml, mr);
        assert(mr * ml == ml * mr) by (nonlinear_arith);
        lemma_mul_bound(q.0, p.1, mr, ml);
        lemma_mul_bound(p.0, q.0, ml, mr);
        lemma_mul_bound(p.1, q.1, ml, mr);
        assert(p.1 * q.1 >= 1) by (nonlinear_arith)
            requires p.1 >= 1 && q.1 >= 1;
        if q.0 != 0 {
            let aq = if q.0 < 0 { -q.0 } else { q.0 };
            lemma_mul_bound(p.1, aq, ml, mr);
            assert(p.1 * aq >= 1) by (nonlinear_arith)
                requires p.1 >= 1 && aq >= 1;
        }
    }
}

/// Everything `evaluate` needs to know before doing machine arithmetic.
pub proof fn lemma_eval_fits(e: AstNode)
    requires
        all_dice(leaves(e)),
        leaves(e).len() <= MAX_DICE,
    ensures
        mag(e) >= 1,
        2 * mag(e) <= RAT_BOUND as int,
        eval_rat(e) matches Some(q) ==> 1 <= q.1 <= mag(e) && -mag(e) <= q.0 <= mag(e),
{
    lemma_mag_pos(e);
    lemma_mag_bound(e);
    lemma_eval_bounds(e);
    lemma_pow12_mono(leaves(e).len(), MAX_DICE as nat);
    lemma_pow12_max();
}

pub proof fn lemma_leaves_nonempty(e: AstNode)
    ensures
        leaves(e).len() >= 1,
    decreases e,
{
    match e {
        AstNode::Num(n) => {},
        AstNode::Add(l, r) => { lemma_leaves_nonempty(*l); lemma_leaves_nonempty(*r); },
        AstNode::Mul(l, r) => { lemma_leaves_nonempty(*l); lemma_leaves_nonempty(*r); },
        AstNode::Sub(l, r) => { lemma_leaves_nonempty(*l); lemma_leaves_nonempty(*r); },
        AstNode::Div(l, r) => { lemma_leaves_nonempty(*l); lemma_leaves_nonempty(*r); },
    }
}

/// The floor of a fraction with positive denominator never exceeds a
/// nonnegative numerator, and is never positive for a negative one.
pub proof fn lemma_floor_le(n: int, d: int)
    requires
        d >= 1,
    ensures
        rat_floor(n, d) <= (if n >= 0 { n } else { 0 }),
{
    vstd::arithmetic::div_mod::lemma_fundamental_div_mod(n, d);
    let q = n / d;
    let r = n % d;
    if n >= 0 {
        assert(q >= 0) by (nonlinear_arith)
            requires
                n == d * q + r,
                0 <= r < d,
                d >= 1,
                n >= 0;
        assert(q <= n) by (nonlinear_arith)
            requires
                n == d * q + r,
                0 <= r,
                d >= 1,
                q >= 0;
    } else {
        assert(q <= 0) by (nonlinear_arith)
            requires
                n == d * q + r,
                0 <= r < d,
                d >= 1,
                n < 0;
    }
}

/// An exact fraction with a positive denominator.
#[derive(Debug, Clone, Copy, PartialEq, Eq, Structural)]
pub struct Rat {
    pub num: i128,
    pub den: i128,
}

/// Floor of `n / d` for a positive denominator `d`.
pub open spec fn rat_floor(n: int, d: int) -> int {
    n / d
}

impl AstNode {
    /// A deep copy, proved equal to the tree it copies.
    pub fn duplicate(&self) -> (r: AstNode)
        ensures
            r == *self,
        decreases *self,
    {
        match self {
            AstNode::Num(n) => AstNode::Num(*n),
            AstNode::Add(l, r) => AstNode::Add(Box::new(l.duplicate()), Box::new(r.duplicate())),
            AstNode::Mul(l, r) => AstNode::Mul(Box::new(l.duplicate()), Box::new(r.duplicate())),
            AstNode::Sub(l, r) => AstNode::Sub(Box::new(l.duplicate()), Box::new(r.duplicate())),
            AstNode::Div(l, r) => AstNode::Div(Box::new(l.duplicate()), Box::new(r.duplicate())),
        }
    }

    /// The exact value of the expression; `None` exactly when a division
    /// by zero occurs inside it.
    pub fn evaluate(&self) -> (r: Option<Rat>)
        requires
            eval_ready(*self),
        ensures
            match r {
                Some(q) => eval_rat(*self) == Some((q.num as int, q.den as int)),
                None => eval_rat(*self) is None,
            },
        decreases *self,
    {
        match self {
            AstNode::Num(n) => Some(Rat { num: *n as i128, den: 1 }),
            AstNode::Add(l, r) => {
                proof {
                    lemma_all_dice_split(leaves(**l), leaves(**r));
                }
                let ql = match l.evaluate() {
                    Some(q) => q,
                    None => { return None; },
                };
                let qr = match r.evaluate() {
                    Some(q) => q,
                    None => { return None; },
                };
                proof {
                    lemma_eval_fits(*self);
                    lemma_eval_bounds(**l);
                    lemma_eval_bounds(**r);
                    lemma_mag_pos(**l);
                    lemma_mag_pos(**r);
                    lemma_eval_bounds_node(**l, **r);
                }
                Some(Rat { num: ql.num * qr.den + qr.num * ql.den, den: ql.den * qr.den })
            },
            AstNode::Sub(l, r) => {
                proof {
                    lemma_all_dice_split(leaves(**l), leaves(**r));
                }
                let ql = match l.evaluate() {
                    Some(q) => q,
                    None => { return None; },
                };
                let qr = match r.evaluate() {
                    Some(q) => q,
                    None => { return None; },
                };
                proof {
                    lemma_eval_fits(*self);
                    lemma_eval_bounds(**l);
                    lemma_eval_bounds(**r);
                    lemma_mag_pos(**l);
                    lemma_mag_pos(**r);
                    lemma_eval_bounds_node(**l, **r);
                }
                Some(Rat { num: ql.num * qr.den - qr.num * ql.den, den: ql.den * qr.den })
            },
            AstNode::Mul(l, r) => {
                proof {
                    lemma_all_dice_split(leaves(**l), leaves(**r));
                }
                let ql = match l.evaluate() {
                    Some(q) => q,
                    None => { return None; },
                };
                let qr = match r.evaluate() {
                    Some(q) => q,
                    None => { return None; },
                };
                proof {
                    lemma_eval_fits(*self);
                    lemma_eval_bounds(**l);
                    lemma_eval_bounds(**r);
                    lemma_mag_pos(**l);
                    lemma_mag_pos(**r);
                    lemma_eval_bounds_node(**l, **r);
                }
                Some(Rat { num: ql.num * qr.num, den: ql.den * qr.den })
            },
            AstNode::Div(l, r) => {
                proof {
                    lemma_all_dice_split(leaves(**l), leaves(**r));
                }
                let ql = match l.evaluate() {
                    Some(q) => q,
                    None => { return None; },
                };
                let qr = match r.evaluate() {
                    Some(q) => q,
                    None => { return None; },
                };
                proof {
                    lemma_eval_fits(*self);
                    lemma_eval_bounds(**l);
                    lemma_eval_bounds(**r);
                    lemma_mag_pos(**l);
                    lemma_mag_pos(**r);
                    lemma_eval_bounds_node(**l, **r);
                }
                if qr.num == 0 {
                    None
                } else if qr.num < 0 {
                    Some(Rat { num: -(ql.num * qr.den), den: ql.den * (-qr.num) })
                } else {
                    Some(Rat { num: ql.num * qr.den, den: ql.den * qr.num })
                }
            },
        }
    }
}

impl Rat {
    /// Floor of the fraction, rounding toward negative infinity.
    pub fn floor(&self) -> (r: i128)
        requires
            1 <= self.den <= RAT_BOUND,
            -RAT_BOUND <= self.num <= RAT_BOUND,
        ensures
            r == rat_floor(self.num as int, self.den as int),
            -RAT_BOUND <= r <= RAT_BOUND,
    {
        let n = self.num;
        let d = self.den;
        if n >= 0 {
            let q = (n as u128) / (d as u128);
            proof {
                let qi = (n as int) / (d as int);
                vstd::arithmetic::div_mod::lemma_fundamental_div_mod(n as int, d as int);
                assert(qi >= 0) by (nonlinear_arith)
                    requires
                        n as int == (d as int) * qi + (n as int) % (d as int),
                        0 <= (n as int) % (d as int) < d as int,
                        (d as int) >= 1,
                        (n as int) >= 0;
                assert(qi <= n as int) by (nonlinear_arith)
                    requires
                        n as int == (d as int) * qi + (n as int) % (d as int),
                        0 <= (n as int) % (d as int),
                        (d as int) >= 1,
                        qi >= 0;
            }
            q as i128
        } else {
            let m = (-n) as u128;
            let du = d as u128;
            let q = (m + du - 1) / du;
            proof {
                lemma_neg_floor(n as int, d as int);
                let q0 = (n as int) / (d as int);
                vstd::arithmetic::div_mod::lemma_fundamental_div_mod(n as int, d as int);
                assert(q0 >= n as int) by (nonlinear_arith)
                    requires
                        n as int == (d as int) * q0 + (n as int) % (d as int),
                        0 <= (n as int) % (d as int) < d as int,
                        (d as int) >= 1,
                        (n as int) < 0;
                assert(q0 <= 0) by (nonlinear_arith)
                    requires
                        n as int == (d as int) * q0 + (n as int) % (d as int),
                        0 <= (n as int) % (d as int) < d as int,
                        (d as int) >= 1,
                        (n as int) < 0;
            }
            -(q as i128)
        }
    }
}

proof fn lemma_neg_floor(n: int, d: int)
    requires
        n < 0,
        d >= 1,
    ensures
        ((-n) + d - 1) / d == -(n / d),
{
    vstd::arithmetic::div_mod::lemma_fundamental_div_mod(n, d);
    let q0 = n / d;
    let r0 = n % d;
    assert((-n) + d - 1 == (-q0) * d + (d - 1 - r0)) by (nonlinear_arith)
        requires n == d * q0 + r0;
    vstd::arithmetic::div_mod::lemma_fundamental_div_mod_converse((-n) + d - 1, d, -q0, d - 1 - r0);
}

} // verus!
