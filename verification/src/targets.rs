use crate::ast::{
    all_dice, eval_rat, eval_ready, leaves, lemma_eval_fits, mag, pow12, rat_floor, AstNode,
    MAX_DICE, RAT_BOUND,
};
use vstd::prelude::*;

verus! {

/// The three prime targets of one level.
#[derive(Debug, Clone, Copy, PartialEq, Eq, Structural)]
pub struct Targets {
    pub t0: i64,
    pub t1: i64,
    pub t2: i64,
}

/// A level addresses three consecutive entries of the fixed table of
/// twenty-seven primes, so nine levels are addressable; anything else is
/// rejected before the table is touched.
pub open spec fn level_valid(level: int) -> bool {
    1 <= level <= 9
}

/// The fixed prime table, three consecutive primes per level, from 3
/// up to 107.
pub open spec fn spec_targets(level: int) -> Targets {
    if level == 1 {
        Targets { t0: 3, t1: 5, t2: 7 }
    } else if level == 2 {
        Targets { t0: 11, t1: 13, t2: 17 }
    } else if level == 3 {
        Targets { t0: 19, t1: 23, t2: 29 }
    } else if level == 4 {
        Targets { t0: 31, t1: 37, t2: 41 }
    } else if level == 5 {
        Targets { t0: 43, t1: 47, t2: 53 }
    } else if level == 6 {
        Targets { t0: 59, t1: 61, t2: 67 }
    } else if level == 7 {
        Targets { t0: 71, t1: 73, t2: 79 }
    } else if level == 8 {
        Targets { t0: 83, t1: 89, t2: 97 }
    } else {
        Targets { t0: 101, t1: 103, t2: 107 }
    }
}

/// The targets of a valid level.
pub fn targets_for(level: i64) -> (r: Targets)
    requires
        level_valid(level as int),
    ensures
        r == spec_targets(level as int),
{
    if level == 1 {
        Targets { t0: 3, t1: 5, t2: 7 }
    } else if level == 2 {
        Targets { t0: 11, t1: 13, t2: 17 }
    } else if level == 3 {
        Targets { t0: 19, t1: 23, t2: 29 }
    } else if level == 4 {
        Targets { t0: 31, t1: 37, t2: 41 }
    } else if level == 5 {
        Targets { t0: 43, t1: 47, t2: 53 }
    } else if level == 6 {
        Targets { t0: 59, t1: 61, t2: 67 }
    } else if level == 7 {
        Targets { t0: 71, t1: 73, t2: 79 }
    } else if level == 8 {
        Targets { t0: 83, t1: 89, t2: 97 }
    } else {
        Targets { t0: 101, t1: 103, t2: 107 }
    }
}

/// The floor of the expression's exact value equals one of the three
/// targets; an expression with a division by zero inside never hits.
pub open spec fn spec_hit(e: AstNode, t: Targets) -> bool {
    match eval_rat(e) {
        Some(q) => ({
            let f = rat_floor(q.0, q.1);
            f == t.t0 || f == t.t1 || f == t.t2
        }),
        None => false,
    }
}

/// Evaluate the expression and compare its floor with the targets.
pub fn hit(e: &AstNode, t: Targets) -> (b: bool)
    requires
        eval_ready(*e),
    ensures
        b == spec_hit(*e, t),
{
    match e.evaluate() {
        None => false,
        Some(q) => {
            proof {
                lemma_eval_fits(*e);
            }
            let f = q.floor();
            f == t.t0 as i128 || f == t.t1 as i128 || f == t.t2 as i128
        },
    }
}

/// Two to the `n`-th power.
pub open spec fn pow2(n: nat) -> int
    decreases n,
{
    if n == 0 {
        1
    } else {
        2 * pow2((n - 1) as nat)
    }
}

proof fn lemma_pow2_add(a: nat, b: nat)
    ensures
        pow2(a + b) == pow2(a) * pow2(b),
    decreases a,
{
    if a == 0 {
        assert(pow2(b) == 1 * pow2(b));
    } else {
        lemma_pow2_add((a - 1) as nat, b);
        assert(2 * (pow2((a - 1) as nat) * pow2(b)) == (2 * pow2((a - 1) as nat)) * pow2(
            b,
        )) by (nonlinear_arith);
    }
}

/// The product of the dice.
pub open spec fn prod_seq(s: Seq<i64>) -> int
    decreases s.len(),
{
    if s.len() == 0 {
        1
    } else {
        prod_seq(s.drop_last()) * s.last()
    }
}

proof fn lemma_prod_concat(a: Seq<i64>, b: Seq<i64>)
    ensures
        prod_seq(a + b) == prod_seq(a) * prod_seq(b),
    decreases b.len(),
{
    if b.len() == 0 {
        assert(a + b =~= a);
    } else {
        lemma_prod_concat(a, b.drop_last());
        assert((a + b).drop_last() =~= a + b.drop_last());
        assert((a + b).last() == b.last());
        assert((prod_seq(a) * prod_seq(b.drop_last())) * b.last() == prod_seq(a) * (prod_seq(
            b.drop_last(),
        ) * b.last())) by (nonlinear_arith);
    }
}

pub proof fn lemma_prod_remove(s: Seq<i64>, i: int)
    requires
        0 <= i < s.len(),
    ensures
        prod_seq(s) == prod_seq(s.remove(i)) * s[i],
{
    let a = s.take(i);
    let m = seq![s[i]];
    let b = s.skip(i + 1);
    assert(s =~= a + (m + b));
    assert(s.remove(i) =~= a + b);
    lemma_prod_concat(a, m + b);
    lemma_prod_concat(m, b);
    lemma_prod_concat(a, b);
    assert(m.drop_last() =~= Seq::<i64>::empty());
    assert(m.last() == s[i]);
    assert(prod_seq(Seq::<i64>::empty()) == 1);
    assert(prod_seq(m) == 1 * s[i]);
    let x = s[i];
    assert(prod_seq(a) * ((1 * x) * prod_seq(b)) == (prod_seq(a) * prod_seq(b)) * x)
        by (nonlinear_arith);
}

/// The product of the dice depends only on their multiset.
pub proof fn lemma_prod_perm(a: Seq<i64>, b: Seq<i64>)
    requires
        a.to_multiset() == b.to_multiset(),
    ensures
        prod_seq(a) == prod_seq(b),
        a.len() == b.len(),
    decreases a.len(),
{
    broadcast use vstd::seq_lib::group_to_multiset_ensures;
    broadcast use vstd::multiset::group_multiset_axioms;

    assert(a.to_multiset().len() == a.len());
    assert(b.to_multiset().len() == b.len());
    if a.len() > 0 {
        let x = a.last();
        assert(a =~= a.drop_last().push(x));
        assert(a.drop_last().push(x).to_multiset() == a.drop_last().to_multiset().insert(x));
        assert(a.contains(x));
        assert(b.to_multiset().count(x) > 0);
        assert(b.contains(x));
        let k = choose|k: int| 0 <= k < b.len() && b[k] == x;
        assert(b.remove(k).to_multiset() =~= b.to_multiset().remove(x));
        assert(a.drop_last().to_multiset() =~= b.remove(k).to_multiset());
        lemma_prod_perm(a.drop_last(), b.remove(k));
        lemma_prod_remove(b, k);
        assert(prod_seq(a) == prod_seq(a.drop_last()) * x);
    }
}

/// A cap on every expression over the dice: two to the number of its
/// internal nodes times the product of the values.
pub open spec fn dice_cap(dice: Seq<i64>) -> int {
    if dice.len() == 0 {
        0
    } else {
        pow2((dice.len() - 1) as nat) * prod_seq(dice)
    }
}

/// The magnitude bound of any expression over die faces is exactly the
/// cap of its leaves: the expression has one internal node fewer than
/// it has leaves.
pub proof fn lemma_mag_cap(e: AstNode)
    requires
        all_dice(leaves(e)),
    ensures
        mag(e) == dice_cap(leaves(e)),
    decreases e,
{
    crate::ast::lemma_leaves_nonempty(e);
    match e {
        AstNode::Num(n) => {
            assert(leaves(e)[0] == n);
            assert(leaves(e).drop_last() =~= Seq::<i64>::empty());
            assert(leaves(e).last() == n);
            assert(prod_seq(Seq::<i64>::empty()) == 1);
            assert(prod_seq(leaves(e)) == 1 * (n as int));
            assert(pow2(0) == 1);
            assert(dice_cap(leaves(e)) == 1 * (1 * (n as int)));
        },
        AstNode::Add(l, r) => {
            crate::ast::lemma_all_dice_split(leaves(*l), leaves(*r));
            lemma_mag_cap(*l);
            lemma_mag_cap(*r);
            lemma_mag_cap_node(e, *l, *r);
        },
        AstNode::Mul(l, r) => {
            crate::ast::lemma_all_dice_split(leaves(*l), leaves(*r));
            lemma_mag_cap(*l);
            lemma_mag_cap(*r);
            lemma_mag_cap_node(e, *l, *r);
        },
        AstNode::Sub(l, r) => {
            crate::ast::lemma_all_dice_split(leaves(*l), leaves(*r));
            lemma_mag_cap(*l);
            lemma_mag_cap(*r);
            lemma_mag_cap_node(e, *l, *r);
        },
        AstNode::Div(l, r) => {
            crate::ast::lemma_all_dice_split(leaves(*l), leaves(*r));
            lemma_mag_cap(*l);
            lemma_mag_cap(*r);
            lemma_mag_cap_node(e, *l, *r);
        },
    }
}

proof fn lemma_mag_cap_node(e: AstNode, l: AstNode, r: AstNode)
    requires
        leaves(e) == leaves(l) + leaves(r),
        mag(e) == 2 * mag(l) * mag(r),
        mag(l) == dice_cap(leaves(l)),
        mag(r) == dice_cap(leaves(r)),
    ensures
        mag(e) == dice_cap(leaves(e)),
{
    crate::ast::lemma_leaves_nonempty(l);
    crate::ast::lemma_leaves_nonempty(r);
    let nl = (leaves(l).len() - 1) as nat;
    let nr = (leaves(r).len() - 1) as nat;
    lemma_prod_concat(leaves(l), leaves(r));
    lemma_pow2_add(nl, nr);
    lemma_pow2_add((nl + nr) as nat, 1);
    assert(pow2(1) == 2 * pow2(0));
    assert(2 * (pow2(nl) * prod_seq(leaves(l))) * (pow2(nr) * prod_seq(leaves(r))) == ((pow2(
        nl,
    ) * pow2(nr)) * 2) * (prod_seq(leaves(l)) * prod_seq(leaves(r)))) by (nonlinear_arith);
}

/// The pruning bound fails: the cap on every expression over the dice
/// is strictly below all three targets, so no search can hit and it is
/// skipped. Unlike a sum or a product alone, the cap also covers sums
/// that feed products, so a failing cap never hides a solution.
pub open spec fn spec_pruned(dice: Seq<i64>, t: Targets) -> bool {
    dice_cap(dice) < t.t0 && dice_cap(dice) < t.t1 && dice_cap(dice) < t.t2
}

/// Decide the pruning bound check.
pub fn pruned(dice: &Vec<i64>, t: Targets) -> (b: bool)
    requires
        all_dice(dice@),
        dice@.len() <= MAX_DICE,
    ensures
        b == spec_pruned(dice@, t),
{
    if dice.len() == 0 {
        return 0 < t.t0 && 0 < t.t1 && 0 < t.t2;
    }
    let mut cap: i128 = dice[0] as i128;
    let mut i: usize = 1;
    proof {
        assert(dice@.take(1).drop_last() =~= Seq::<i64>::empty());
        assert(dice@.take(1).last() == dice@[0]);
        assert(prod_seq(Seq::<i64>::empty()) == 1);
        assert(prod_seq(dice@.take(1)) == 1 * (dice@[0] as int));
        assert(pow2(0) == 1);
        crate::ast::lemma_pow12_max();
        crate::ast::lemma_pow12_mono(1, MAX_DICE as nat);
        reveal_with_fuel(pow12, 2);
        assert(pow12(1) == 12);
    }
    while i < dice.len()
        invariant
            1 <= i <= dice@.len(),
            dice@.len() <= MAX_DICE,
            all_dice(dice@),
            cap as int == pow2((i - 1) as nat) * prod_seq(dice@.take(i as int)),
            2 * cap as int <= pow12(i as nat),
            pow12(i as nat) <= RAT_BOUND as int,
            cap >= 1,
        decreases dice@.len() - i,
    {
        let d = dice[i];
        proof {
            assert(dice@.take(i as int + 1).drop_last() =~= dice@.take(i as int));
            assert(dice@.take(i as int + 1).last() == dice@[i as int]);
            crate::ast::lemma_pow12_mono((i + 1) as nat, MAX_DICE as nat);
            crate::ast::lemma_pow12_max();
            let c = cap as int;
            let dv = d as int;
            let p = prod_seq(dice@.take(i as int));
            assert(2 * ((c * 2) * dv) <= pow12(i as nat) * 12 && 1 <= (c * 2) * dv && (c * 2)
                * dv <= pow12(i as nat) * 6) by (nonlinear_arith)
                requires
                    2 * c <= pow12(i as nat),
                    1 <= dv <= 6,
                    c >= 1,
                    pow12(i as nat) >= 1;
            assert(pow12(i as nat + 1) == 12 * pow12(i as nat));
            assert((pow2((i - 1) as nat) * p * 2) * dv == (2 * pow2((i - 1) as nat)) * (p
                * dv)) by (nonlinear_arith);
            assert(pow2(i as nat) == 2 * pow2((i - 1) as nat));
        }
        cap = cap * 2 * (d as i128);
        proof {
            assert(prod_seq(dice@.take(i as int + 1)) == prod_seq(dice@.take(i as int)) * (
            dice@[i as int] as int));
            assert(cap as int == pow2(i as nat) * prod_seq(dice@.take(i as int + 1)));
        }
        i += 1;
    }
    proof {
        assert(dice@.take(dice@.len() as int) =~= dice@);
    }
    cap < t.t0 as i128 && cap < t.t1 as i128 && cap < t.t2 as i128
}

} // verus!
