use crate::ast::{all_dice, leaves, AstNode, MAX_DICE};
use crate::targets::{hit, spec_hit, Targets};
use vstd::prelude::*;
use vstd::seq_lib::group_to_multiset_ensures;
use vstd::seq_lib::lemma_multiset_commutative;
use vstd::multiset::Multiset;

verus! {

/// A copy of a dice vector.
pub fn copy_vec(v: &Vec<i64>) -> (r: Vec<i64>)
    ensures
        r@ == v@,
{
    let mut out: Vec<i64> = Vec::new();
    let mut i: usize = 0;
    while i < v.len()
        invariant
            i <= v@.len(),
            out@ == v@.take(i as int),
        decreases v@.len() - i,
    {
        out.push(v[i]);
        proof {
            assert(v@.take(i as int + 1) =~= v@.take(i as int).push(v@[i as int]));
        }
        i += 1;
    }
    proof {
        assert(v@.take(v@.len() as int) =~= v@);
    }
    out
}

/// The six ways one value combines with a subtree, in enumeration order.
pub open spec fn combos6(this: i64, node: AstNode, rest: Seq<i64>) -> Seq<(AstNode, Seq<i64>)> {
    seq![
        (AstNode::Add(Box::new(AstNode::Num(this)), Box::new(node)), rest),
        (AstNode::Mul(Box::new(AstNode::Num(this)), Box::new(node)), rest),
        (AstNode::Sub(Box::new(AstNode::Num(this)), Box::new(node)), rest),
        (AstNode::Sub(Box::new(node), Box::new(AstNode::Num(this))), rest),
        (AstNode::Div(Box::new(AstNode::Num(this)), Box::new(node)), rest),
        (AstNode::Div(Box::new(node), Box::new(AstNode::Num(this))), rest),
    ]
}

/// All six combinations for every candidate of `subs`, in order.
pub open spec fn combos_seq(this: i64, subs: Seq<(AstNode, Seq<i64>)>) -> Seq<(AstNode, Seq<i64>)>
    decreases subs.len(),
{
    if subs.len() == 0 {
        Seq::empty()
    } else {
        combos_seq(this, subs.drop_last()) + combos6(this, subs.last().0, subs.last().1)
    }
}

/// What one pool position contributes to the expansion.
pub open spec fn pos_contrib(this: i64, rest: Seq<i64>, depth: nat, i: int) -> Seq<
    (AstNode, Seq<i64>),
>
    decreases rest.len(), 0nat,
{
    if 0 <= i < rest.len() {
        combos_seq(this, search_spec(rest[i], rest.remove(i), depth + 1))
    } else {
        Seq::empty()
    }
}

/// The contributions of the first `k` pool positions, in order.
pub open spec fn expand_upto(this: i64, rest: Seq<i64>, depth: nat, k: nat) -> Seq<
    (AstNode, Seq<i64>),
>
    decreases rest.len(), k,
{
    if k == 0 {
        Seq::empty()
    } else {
        expand_upto(this, rest, depth, (k - 1) as nat) + pos_contrib(
            this,
            rest,
            depth,
            k as int - 1,
        )
    }
}

/// Phase-1 expansion: every partial tree reachable by combining `this`
/// with up to three pool values, paired with the values left over.
pub open spec fn search_spec(this: i64, rest: Seq<i64>, depth: nat) -> Seq<(AstNode, Seq<i64>)>
    decreases rest.len(), rest.len() + 1,
{
    if rest.len() == 0 {
        seq![(AstNode::Num(this), Seq::<i64>::empty())]
    } else if depth > 2 {
        seq![(AstNode::Num(this), rest)]
    } else {
        expand_upto(this, rest, depth, rest.len())
    }
}

/// Everything Phase 1 hands to Phase 2: the second value of the sorted
/// dice seeds the expansion and the rest form the pool; fewer than two
/// dice give no candidates.
pub open spec fn phase1(dice: Seq<i64>) -> Seq<(AstNode, Seq<i64>)> {
    if dice.len() >= 2 {
        search_spec(dice[1], dice.remove(1), 0)
    } else {
        Seq::empty()
    }
}

/// The view of an executable candidate list.
pub open spec fn cands_view(s: Seq<(AstNode, Vec<i64>)>) -> Seq<(AstNode, Seq<i64>)> {
    s.map_values(|c: (AstNode, Vec<i64>)| (c.0, c.1@))
}

fn expand(this: i64, rest: Vec<i64>, depth: usize) -> (r: Vec<(AstNode, Vec<i64>)>)
    ensures
        cands_view(r@) == search_spec(this, rest@, depth as nat),
    decreases rest@.len(),
{
    let mut out: Vec<(AstNode, Vec<i64>)> = Vec::new();
    if rest.len() == 0 {
        out.push((AstNode::Num(this), Vec::new()));
        proof {
            assert(cands_view(out@) =~= search_spec(this, rest@, depth as nat));
        }
        return out;
    }
    if depth > 2 {
        let ghost rest_seq = rest@;
        out.push((AstNode::Num(this), rest));
        proof {
            assert(cands_view(out@) =~= search_spec(this, rest_seq, depth as nat));
        }
        return out;
    }
    let mut i: usize = 0;
    while i < rest.len()
        invariant
            i <= rest@.len(),
            rest@.len() > 0,
            depth <= 2,
            cands_view(out@) == expand_upto(this, rest@, depth as nat, i as nat),
        decreases rest@.len() - i,
    {
        let next = rest[i];
        let mut rr = copy_vec(&rest);
        rr.remove(i);
        let subs = expand(next, rr, depth + 1);
        let mut j: usize = 0;
        while j < subs.len()
            invariant
                j <= subs@.len(),
                i < rest@.len(),
                depth <= 2,
                cands_view(subs@) == search_spec(
                    rest@[i as int],
                    rest@.remove(i as int),
                    depth as nat + 1,
                ),
                cands_view(out@) == expand_upto(this, rest@, depth as nat, i as nat) + combos_seq(
                    this,
                    cands_view(subs@).take(j as int),
                ),
            decreases subs@.len() - j,
        {
            let node = &subs[j].0;
            let sr = &subs[j].1;
            out.push(
                (
                    AstNode::Add(Box::new(AstNode::Num(this)), Box::new(node.duplicate())),
                    copy_vec(sr),
                ),
            );
            out.push(
                (
                    AstNode::Mul(Box::new(AstNode::Num(this)), Box::new(node.duplicate())),
                    copy_vec(sr),
                ),
            );
            out.push(
                (
                    AstNode::Sub(Box::new(AstNode::Num(this)), Box::new(node.duplicate())),
                    copy_vec(sr),
                ),
            );
            out.push(
                (
                    AstNode::Sub(Box::new(node.duplicate()), Box::new(AstNode::Num(this))),
                    copy_vec(sr),
                ),
            );
            out.push(
                (
                    AstNode::Div(Box::new(AstNode::Num(this)), Box::new(node.duplicate())),
                    copy_vec(sr),
                ),
            );
            out.push(
                (
                    AstNode::Div(Box::new(node.duplicate()), Box::new(AstNode::Num(this))),
                    copy_vec(sr),
                ),
            );
            proof {
                let sv = cands_view(subs@);
                assert(sv.take(j as int + 1).drop_last() =~= sv.take(j as int));
                assert(sv.take(j as int + 1).last() == sv[j as int]);
                assert(sv[j as int].0 == subs@[j as int].0);
                assert(sv[j as int].1 == subs@[j as int].1@);
                assert(combos_seq(this, sv.take(j as int + 1)) == combos_seq(
                    this,
                    sv.take(j as int),
                ) + combos6(this, sv[j as int].0, sv[j as int].1));
                assert(cands_view(out@) =~= expand_upto(this, rest@, depth as nat, i as nat)
                    + combos_seq(this, sv.take(j as int)) + combos6(
                    this,
                    sv[j as int].0,
                    sv[j as int].1,
                ));
                assert(cands_view(out@) =~= expand_upto(this, rest@, depth as nat, i as nat)
                    + combos_seq(this, sv.take(j as int + 1)));
            }
            j += 1;
        }
        proof {
            let sv = cands_view(subs@);
            assert(sv.take(sv.len() as int) =~= sv);
            assert(pos_contrib(this, rest@, depth as nat, i as int) == combos_seq(this, sv));
            assert(expand_upto(this, rest@, depth as nat, i as nat + 1) == expand_upto(
                this,
                rest@,
                depth as nat,
                i as nat,
            ) + pos_contrib(this, rest@, depth as nat, i as int));
            assert(cands_view(out@) =~= expand_upto(this, rest@, depth as nat, i as nat + 1));
        }
        i += 1;
    }
    proof {
        assert(cands_view(out@) == search_spec(this, rest@, depth as nat));
    }
    out
}

/// Phase 1 of the search: materialize every bounded partial combination.
pub fn bfs(input_d6: Vec<i64>) -> (r: Vec<(AstNode, Vec<i64>)>)
    ensures
        cands_view(r@) == phase1(input_d6@),
{
    if input_d6.len() >= 2 {
        let next = input_d6[1];
        let mut rest = copy_vec(&input_d6);
        rest.remove(1);
        expand(next, rest, 0)
    } else {
        let r: Vec<(AstNode, Vec<i64>)> = Vec::new();
        proof {
            assert(cands_view(r@) =~= phase1(input_d6@));
        }
        r
    }
}

/// One pool position can be completed: one of the six combinations of
/// the value at `i` with the running expression completes, in the fixed
/// priority order of the search.
pub open spec fn pos_can(before: AstNode, rest: Seq<i64>, t: Targets, i: int) -> bool
    decreases rest.len(), i + 1, 0nat,
{
    if 0 <= i < rest.len() {
        let v = rest[i];
        let rr = rest.remove(i);
        ||| can_complete(AstNode::Add(Box::new(before), Box::new(AstNode::Num(v))), rr, t)
        ||| can_complete(AstNode::Mul(Box::new(before), Box::new(AstNode::Num(v))), rr, t)
        ||| can_complete(AstNode::Sub(Box::new(AstNode::Num(v)), Box::new(before)), rr, t)
        ||| can_complete(AstNode::Sub(Box::new(before), Box::new(AstNode::Num(v))), rr, t)
        ||| can_complete(AstNode::Div(Box::new(before), Box::new(AstNode::Num(v))), rr, t)
        ||| can_complete(AstNode::Div(Box::new(AstNode::Num(v)), Box::new(before)), rr, t)
    } else {
        false
    }
}

/// Some pool position with index below `k` can be completed.
pub open spec fn any_pos(before: AstNode, rest: Seq<i64>, t: Targets, k: nat) -> bool
    decreases rest.len(), k, 1nat,
{
    if k == 0 {
        false
    } else {
        pos_can(before, rest, t, k as int - 1) || any_pos(before, rest, t, (k - 1) as nat)
    }
}

/// The running expression with the pending values can be finished into a
/// hit: with nothing pending it must hit already, otherwise some pending
/// value, combined some way, completes.
pub open spec fn can_complete(before: AstNode, rest: Seq<i64>, t: Targets) -> bool
    decreases rest.len(), rest.len() + 1, 0nat,
{
    if rest.len() == 0 {
        spec_hit(before, t)
    } else {
        any_pos(before, rest, t, rest.len())
    }
}

/// What Phase 2 needs of a candidate before it may search.
pub open spec fn dfs_ready(before: AstNode, rest: Seq<i64>) -> bool {
    all_dice(leaves(before)) && all_dice(rest) && leaves(before).len() + rest.len() <= MAX_DICE
}

proof fn lemma_remove_keeps_dice(s: Seq<i64>, i: int)
    requires
        all_dice(s),
        0 <= i < s.len(),
    ensures
        all_dice(s.remove(i)),
{
    assert forall|j: int| 0 <= j < s.remove(i).len() implies 1 <= #[trigger] s.remove(i)[j]
        <= 6 by {
        if j < i {
            assert(s.remove(i)[j] == s[j]);
        } else {
            assert(s.remove(i)[j] == s[j + 1]);
        }
    }
}

proof fn lemma_all_dice_join(a: Seq<i64>, b: Seq<i64>)
    requires
        all_dice(a),
        all_dice(b),
    ensures
        all_dice(a + b),
{
    assert forall|i: int| 0 <= i < (a + b).len() implies 1 <= #[trigger] (a + b)[i] <= 6 by {
        if i < a.len() {
            assert((a + b)[i] == a[i]);
        } else {
            assert((a + b)[i] == b[i - a.len()]);
        }
    }
}

proof fn lemma_singleton_ms(v: i64)
    ensures
        seq![v].to_multiset() == Multiset::empty().insert(v),
{
    broadcast use group_to_multiset_ensures;
    broadcast use vstd::multiset::group_multiset_axioms;

    assert(seq![v] =~= Seq::<i64>::empty().push(v));
    assert(Seq::<i64>::empty().to_multiset().len() == 0);
    assert(Seq::<i64>::empty().to_multiset() =~= Multiset::<i64>::empty()) by {
        assert forall|x: i64| Seq::<i64>::empty().to_multiset().count(x) == 0 by {
            assert(Seq::<i64>::empty().to_multiset().count(x)
                <= Seq::<i64>::empty().to_multiset().len());
        }
    }
    assert(seq![v].to_multiset() =~= Seq::<i64>::empty().to_multiset().insert(v));
}

/// Moving one pool value into the expression keeps the overall multiset.
proof fn lemma_step_ms(before: AstNode, rest: Seq<i64>, i: int, c: AstNode)
    requires
        0 <= i < rest.len(),
        leaves(c) == leaves(before) + seq![rest[i]] || leaves(c) == seq![rest[i]] + leaves(
            before,
        ),
    ensures
        leaves(c).to_multiset().add(rest.remove(i).to_multiset()) == leaves(
            before,
        ).to_multiset().add(rest.to_multiset()),
{
    broadcast use group_to_multiset_ensures;
    broadcast use vstd::multiset::group_multiset_axioms;

    let v = rest[i];
    lemma_singleton_ms(v);
    lemma_multiset_commutative(leaves(before), seq![v]);
    lemma_multiset_commutative(seq![v], leaves(before));
    assert(rest.remove(i).to_multiset() =~= rest.to_multiset().remove(v));
    assert(rest.to_multiset().count(v) >= 1) by {
        assert(rest.contains(v));
    }
    assert(leaves(c).to_multiset() =~= leaves(before).to_multiset().insert(v));
    assert(leaves(c).to_multiset().add(rest.remove(i).to_multiset()) =~= leaves(
        before,
    ).to_multiset().add(rest.to_multiset()));
}

proof fn lemma_step_ready(before: AstNode, rest: Seq<i64>, i: int, c: AstNode)
    requires
        dfs_ready(before, rest),
        0 <= i < rest.len(),
        leaves(c) == leaves(before) + seq![rest[i]] || leaves(c) == seq![rest[i]] + leaves(
            before,
        ),
    ensures
        dfs_ready(c, rest.remove(i)),
        leaves(c).to_multiset().add(rest.remove(i).to_multiset()) == leaves(
            before,
        ).to_multiset().add(rest.to_multiset()),
{
    let v = rest[i];
    assert(all_dice(seq![v])) by {
        assert(seq![v][0] == v);
    }
    lemma_all_dice_join(leaves(before), seq![v]);
    lemma_all_dice_join(seq![v], leaves(before));
    lemma_remove_keeps_dice(rest, i);
    lemma_step_ms(before, rest, i, c);
    assert(leaves(c).len() == leaves(before).len() + 1);
    assert(rest.remove(i).len() == rest.len() - 1);
}

/// `a` occurs as a subtree of `e`.
pub open spec fn occurs_in(a: AstNode, e: AstNode) -> bool
    decreases e,
{
    a == e || (match e {
        AstNode::Num(_) => false,
        AstNode::Add(l, r) => occurs_in(a, *l) || occurs_in(a, *r),
        AstNode::Mul(l, r) => occurs_in(a, *l) || occurs_in(a, *r),
        AstNode::Sub(l, r) => occurs_in(a, *l) || occurs_in(a, *r),
        AstNode::Div(l, r) => occurs_in(a, *l) || occurs_in(a, *r),
    })
}

proof fn lemma_occurs_trans(a: AstNode, b: AstNode, c: AstNode)
    requires
        occurs_in(a, b),
        occurs_in(b, c),
    ensures
        occurs_in(a, c),
    decreases c,
{
    if b != c {
        match c {
            AstNode::Num(_) => {},
            AstNode::Add(l, r) => {
                if occurs_in(b, *l) {
                    lemma_occurs_trans(a, b, *l);
                } else {
                    lemma_occurs_trans(a, b, *r);
                }
            },
            AstNode::Mul(l, r) => {
                if occurs_in(b, *l) {
                    lemma_occurs_trans(a, b, *l);
                } else {
                    lemma_occurs_trans(a, b, *r);
                }
            },
            AstNode::Sub(l, r) => {
                if occurs_in(b, *l) {
                    lemma_occurs_trans(a, b, *l);
                } else {
                    lemma_occurs_trans(a, b, *r);
                }
            },
            AstNode::Div(l, r) => {
                if occurs_in(b, *l) {
                    lemma_occurs_trans(a, b, *l);
                } else {
                    lemma_occurs_trans(a, b, *r);
                }
            },
        }
    }
}

/// A completable candidate really has a completion: some expression
/// extends the running tree by exactly the pending values and hits.
pub proof fn lemma_can_complete_witness(before: AstNode, rest: Seq<i64>, t: Targets)
    requires
        can_complete(before, rest, t),
    ensures
        exists|e: AstNode|
            leaves(e).to_multiset() == leaves(before).to_multiset().add(rest.to_multiset())
                && spec_hit(e, t),
    decreases rest.len(), rest.len() + 2, 0nat,
{
    broadcast use group_to_multiset_ensures;
    broadcast use vstd::multiset::group_multiset_axioms;

    if rest.len() == 0 {
        assert(rest.to_multiset().len() == 0);
        assert(leaves(before).to_multiset().add(rest.to_multiset()) =~= leaves(
            before,
        ).to_multiset());
        assert(leaves(before).to_multiset() == leaves(before).to_multiset().add(
            rest.to_multiset(),
        ) && spec_hit(before, t));
    } else {
        lemma_any_pos_witness(before, rest, t, rest.len() as nat);
    }
}

proof fn lemma_any_pos_witness(before: AstNode, rest: Seq<i64>, t: Targets, k: nat)
    requires
        any_pos(before, rest, t, k),
        k <= rest.len(),
    ensures
        exists|e: AstNode|
            leaves(e).to_multiset() == leaves(before).to_multiset().add(rest.to_multiset())
                && spec_hit(e, t),
    decreases rest.len(), k, 1nat,
{
    if pos_can(before, rest, t, k as int - 1) {
        lemma_pos_can_witness(before, rest, t, k as int - 1);
    } else {
        lemma_any_pos_witness(before, rest, t, (k - 1) as nat);
    }
}

proof fn lemma_pos_can_witness(before: AstNode, rest: Seq<i64>, t: Targets, i: int)
    requires
        pos_can(before, rest, t, i),
        0 <= i < rest.len(),
    ensures
        exists|e: AstNode|
            leaves(e).to_multiset() == leaves(before).to_multiset().add(rest.to_multiset())
                && spec_hit(e, t),
    decreases rest.len(), i + 1, 0nat,
{
    let v = rest[i];
    let rr = rest.remove(i);
    assert(leaves(AstNode::Num(v)) == seq![v]);
    let c1 = AstNode::Add(Box::new(before), Box::new(AstNode::Num(v)));
    let c2 = AstNode::Mul(Box::new(before), Box::new(AstNode::Num(v)));
    let c3 = AstNode::Sub(Box::new(AstNode::Num(v)), Box::new(before));
    let c4 = AstNode::Sub(Box::new(before), Box::new(AstNode::Num(v)));
    let c5 = AstNode::Div(Box::new(before), Box::new(AstNode::Num(v)));
    let c6 = AstNode::Div(Box::new(AstNode::Num(v)), Box::new(before));
    if can_complete(c1, rr, t) {
        lemma_can_complete_witness(c1, rr, t);
        lemma_step_ms(before, rest, i, c1);
        let e = choose|e: AstNode|
            leaves(e).to_multiset() == leaves(c1).to_multiset().add(rr.to_multiset())
                && spec_hit(e, t);
        assert(leaves(e).to_multiset() == leaves(before).to_multiset().add(rest.to_multiset())
            && spec_hit(e, t));
    } else if can_complete(c2, rr, t) {
        lemma_can_complete_witness(c2, rr, t);
        lemma_step_ms(before, rest, i, c2);
        let e = choose|e: AstNode|
            leaves(e).to_multiset() == leaves(c2).to_multiset().add(rr.to_multiset())
                && spec_hit(e, t);
        assert(leaves(e).to_multiset() == leaves(before).to_multiset().add(rest.to_multiset())
            && spec_hit(e, t));
    } else if can_complete(c3, rr, t) {
        lemma_can_complete_witness(c3, rr, t);
        lemma_step_ms(before, rest, i, c3);
        let e = choose|e: AstNode|
            leaves(e).to_multiset() == leaves(c3).to_multiset().add(rr.to_multiset())
                && spec_hit(e, t);
        assert(leaves(e).to_multiset() == leaves(before).to_multiset().add(rest.to_multiset())
            && spec_hit(e, t));
    } else if can_complete(c4, rr, t) {
        lemma_can_complete_witness(c4, rr, t);
        lemma_step_ms(before, rest, i, c4);
        let e = choose|e: AstNode|
            leaves(e).to_multiset() == leaves(c4).to_multiset().add(rr.to_multiset())
                && spec_hit(e, t);
        assert(leaves(e).to_multiset() == leaves(before).to_multiset().add(rest.to_multiset())
            && spec_hit(e, t));
    } else if can_complete(c5, rr, t) {
        lemma_can_complete_witness(c5, rr, t);
        lemma_step_ms(before, rest, i, c5);
        let e = choose|e: AstNode|
            leaves(e).to_multiset() == leaves(c5).to_multiset().add(rr.to_multiset())
                && spec_hit(e, t);
        assert(leaves(e).to_multiset() == leaves(before).to_multiset().add(rest.to_multiset())
            && spec_hit(e, t));
    } else {
        lemma_can_complete_witness(c6, rr, t);
        lemma_step_ms(before, rest, i, c6);
        let e = choose|e: AstNode|
            leaves(e).to_multiset() == leaves(c6).to_multiset().add(rr.to_multiset())
                && spec_hit(e, t);
        assert(leaves(e).to_multiset() == leaves(before).to_multiset().add(rest.to_multiset())
            && spec_hit(e, t));
    }
}

proof fn lemma_any_pos_from(before: AstNode, rest: Seq<i64>, t: Targets, i: int, k: nat)
    requires
        0 <= i < k,
        pos_can(before, rest, t, i),
    ensures
        any_pos(before, rest, t, k),
    decreases k,
{
    if k as int - 1 != i {
        lemma_any_pos_from(before, rest, t, i, (k - 1) as nat);
    }
}


/// The first completion of the candidate under the fixed enumeration:
/// pool positions in ascending order and, for each, the six
/// combinations in the priority order of the search; the first branch
/// that completes decides the result.
pub open spec fn first_complete(before: AstNode, rest: Seq<i64>, t: Targets) -> Option<AstNode>
    decreases rest.len(), rest.len() + 1, 0nat,
{
    if rest.len() == 0 {
        if spec_hit(before, t) {
            Some(before)
        } else {
            None
        }
    } else {
        first_from(before, rest, t, 0)
    }
}

/// The first completion at a pool position at or after `k`.
pub open spec fn first_from(before: AstNode, rest: Seq<i64>, t: Targets, k: int) -> Option<
    AstNode,
>
    decreases rest.len(), rest.len() - k, 1nat,
{
    if 0 <= k < rest.len() {
        match pos_first(before, rest, t, k) {
            Some(e) => Some(e),
            None => first_from(before, rest, t, k + 1),
        }
    } else {
        None
    }
}

/// The first completion among the six combinations at position `i`.
pub open spec fn pos_first(before: AstNode, rest: Seq<i64>, t: Targets, i: int) -> Option<AstNode>
    decreases rest.len(), rest.len() - i, 0nat,
{
    if 0 <= i < rest.len() {
        let v = rest[i];
        let rr = rest.remove(i);
        let c1 = AstNode::Add(Box::new(before), Box::new(AstNode::Num(v)));
        let c2 = AstNode::Mul(Box::new(before), Box::new(AstNode::Num(v)));
        let c3 = AstNode::Sub(Box::new(AstNode::Num(v)), Box::new(before));
        let c4 = AstNode::Sub(Box::new(before), Box::new(AstNode::Num(v)));
        let c5 = AstNode::Div(Box::new(before), Box::new(AstNode::Num(v)));
        let c6 = AstNode::Div(Box::new(AstNode::Num(v)), Box::new(before));
        if first_complete(c1, rr, t) is Some {
            first_complete(c1, rr, t)
        } else if first_complete(c2, rr, t) is Some {
            first_complete(c2, rr, t)
        } else if first_complete(c3, rr, t) is Some {
            first_complete(c3, rr, t)
        } else if first_complete(c4, rr, t) is Some {
            first_complete(c4, rr, t)
        } else if first_complete(c5, rr, t) is Some {
            first_complete(c5, rr, t)
        } else {
            first_complete(c6, rr, t)
        }
    } else {
        None
    }
}

/// Phase 2 of the search: exhaustively finish one candidate, trying the
/// six combinations in the fixed priority order at every step; returns a
/// finished expression exactly when one exists for this candidate.
pub fn dfs(pre_search: AstNode, rest: Vec<i64>, prime: Targets) -> (r: Option<AstNode>)
    requires
        dfs_ready(pre_search, rest@),
    ensures
        r == first_complete(pre_search, rest@, prime),
        (r is Some) == can_complete(pre_search, rest@, prime),
        r matches Some(e) ==> leaves(e).to_multiset() == leaves(pre_search).to_multiset().add(
            rest@.to_multiset(),
        ) && spec_hit(e, prime) && occurs_in(pre_search, e),
    decreases rest@.len(),
{
    broadcast use group_to_multiset_ensures;
    broadcast use vstd::multiset::group_multiset_axioms;

    if rest.len() == 0 {
        proof {
            assert(rest@.to_multiset().len() == 0);
            assert(leaves(pre_search).to_multiset().add(rest@.to_multiset()) =~= leaves(
                pre_search,
            ).to_multiset());
        }
        if hit(&pre_search, prime) {
            proof {
                assert(occurs_in(pre_search, pre_search));
            }
            return Some(pre_search);
        } else {
            return None;
        }
    }
    let ghost rest_seq = rest@;
    let mut i: usize = 0;
    while i < rest.len()
        invariant
            i <= rest@.len(),
            rest@.len() > 0,
            rest@ == rest_seq,
            dfs_ready(pre_search, rest@),
            !any_pos(pre_search, rest@, prime, i as nat),
            first_from(pre_search, rest@, prime, 0) == first_from(
                pre_search,
                rest@,
                prime,
                i as int,
            ),
        decreases rest@.len() - i,
    {
        let this = rest[i];
        let mut rr = copy_vec(&rest);
        rr.remove(i);
        proof {
            assert(leaves(AstNode::Num(this)) == seq![this]);
        }
        let c1 = AstNode::Add(Box::new(pre_search.duplicate()), Box::new(AstNode::Num(this)));
        proof {
            assert(leaves(c1) == leaves(pre_search) + seq![rest@[i as int]]);
            lemma_step_ready(pre_search, rest@, i as int, c1);
        }
        let a1 = dfs(c1, copy_vec(&rr), prime);
        if a1.is_some() {
            proof {
                lemma_any_pos_from(pre_search, rest@, prime, i as int, rest@.len() as nat);
                assert(occurs_in(pre_search, pre_search));
                assert(occurs_in(pre_search, c1));
                lemma_occurs_trans(pre_search, c1, a1->Some_0);
                assert(pos_first(pre_search, rest@, prime, i as int) == a1);
                assert(first_from(pre_search, rest@, prime, i as int) == a1);
            }
            return a1;
        }
        let c2 = AstNode::Mul(Box::new(pre_search.duplicate()), Box::new(AstNode::Num(this)));
        proof {
            assert(leaves(c2) == leaves(pre_search) + seq![rest@[i as int]]);
            lemma_step_ready(pre_search, rest@, i as int, c2);
        }
        let a2 = dfs(c2, copy_vec(&rr), prime);
        if a2.is_some() {
            proof {
                lemma_any_pos_from(pre_search, rest@, prime, i as int, rest@.len() as nat);
                assert(occurs_in(pre_search, pre_search));
                assert(occurs_in(pre_search, c2));
                lemma_occurs_trans(pre_search, c2, a2->Some_0);
                assert(pos_first(pre_search, rest@, prime, i as int) == a2);
                assert(first_from(pre_search, rest@, prime, i as int) == a2);
            }
            return a2;
        }
        let c3 = AstNode::Sub(Box::new(AstNode::Num(this)), Box::new(pre_search.duplicate()));
        proof {
            assert(leaves(c3) == seq![rest@[i as int]] + leaves(pre_search));
            lemma_step_ready(pre_search, rest@, i as int, c3);
        }
        let a3 = dfs(c3, copy_vec(&rr), prime);
        if a3.is_some() {
            proof {
                lemma_any_pos_from(pre_search, rest@, prime, i as int, rest@.len() as nat);
                assert(occurs_in(pre_search, pre_search));
                assert(occurs_in(pre_search, c3));
                lemma_occurs_trans(pre_search, c3, a3->Some_0);
                assert(pos_first(pre_search, rest@, prime, i as int) == a3);
                assert(first_from(pre_search, rest@, prime, i as int) == a3);
            }
            return a3;
        }
        let c4 = AstNode::Sub(Box::new(pre_search.duplicate()), Box::new(AstNode::Num(this)));
        proof {
            assert(leaves(c4) == leaves(pre_search) + seq![rest@[i as int]]);
            lemma_step_ready(pre_search, rest@, i as int, c4);
        }
        let a4 = dfs(c4, copy_vec(&rr), prime);
        if a4.is_some() {
            proof {
                lemma_any_pos_from(pre_search, rest@, prime, i as int, rest@.len() as nat);
                assert(occurs_in(pre_search, pre_search));
                assert(occurs_in(pre_search, c4));
                lemma_occurs_trans(pre_search, c4, a4->Some_0);
                assert(pos_first(pre_search, rest@, prime, i as int) == a4);
                assert(first_from(pre_search, rest@, prime, i as int) == a4);
            }
            return a4;
        }
        let c5 = AstNode::Div(Box::new(pre_search.duplicate()), Box::new(AstNode::Num(this)));
        proof {
            assert(leaves(c5) == leaves(pre_search) + seq![rest@[i as int]]);
            lemma_step_ready(pre_search, rest@, i as int, c5);
        }
        let a5 = dfs(c5, copy_vec(&rr), prime);
        if a5.is_some() {
            proof {
                lemma_any_pos_from(pre_search, rest@, prime, i as int, rest@.len() as nat);
                assert(occurs_in(pre_search, pre_search));
                assert(occurs_in(pre_search, c5));
                lemma_occurs_trans(pre_search, c5, a5->Some_0);
                assert(pos_first(pre_search, rest@, prime, i as int) == a5);
                assert(first_from(pre_search, rest@, prime, i as int) == a5);
            }
            return a5;
        }
        let c6 = AstNode::Div(Box::new(AstNode::Num(this)), Box::new(pre_search.duplicate()));
        proof {
            assert(leaves(c6) == seq![rest@[i as int]] + leaves(pre_search));
            lemma_step_ready(pre_search, rest@, i as int, c6);
        }
        let a6 = dfs(c6, rr, prime);
        if a6.is_some() {
            proof {
                lemma_any_pos_from(pre_search, rest@, prime, i as int, rest@.len() as nat);
                assert(occurs_in(pre_search, pre_search));
                assert(occurs_in(pre_search, c6));
                lemma_occurs_trans(pre_search, c6, a6->Some_0);
                assert(pos_first(pre_search, rest@, prime, i as int) == a6);
                assert(first_from(pre_search, rest@, prime, i as int) == a6);
            }
            return a6;
        }
        proof {
            assert(!pos_can(pre_search, rest@, prime, i as int));
            assert(!any_pos(pre_search, rest@, prime, i as nat + 1));
            assert(pos_first(pre_search, rest@, prime, i as int) is None);
            assert(first_from(pre_search, rest@, prime, i as int) == first_from(
                pre_search,
                rest@,
                prime,
                i as int + 1,
            ));
        }
        i += 1;
    }
    proof {
        assert(!can_complete(pre_search, rest@, prime));
        assert(first_from(pre_search, rest@, prime, rest@.len() as int) is None);
    }
    None
}


/// A candidate accounts for exactly the pool it was built from: the
/// leaves of its partial tree and its pending values together are the
/// pool, as a multiset.
pub open spec fn cand_ok(c: (AstNode, Seq<i64>), pool: Multiset<i64>) -> bool {
    leaves(c.0).to_multiset().add(c.1.to_multiset()) == pool
}

proof fn lemma_combo_leaves_ms(this: i64, node: AstNode, c: AstNode)
    requires
        leaves(c) == seq![this] + leaves(node) || leaves(c) == leaves(node) + seq![this],
    ensures
        leaves(c).to_multiset() == leaves(node).to_multiset().insert(this),
{
    broadcast use group_to_multiset_ensures;
    broadcast use vstd::multiset::group_multiset_axioms;

    lemma_singleton_ms(this);
    lemma_multiset_commutative(seq![this], leaves(node));
    lemma_multiset_commutative(leaves(node), seq![this]);
    assert(leaves(c).to_multiset() =~= leaves(node).to_multiset().insert(this));
}

proof fn lemma_combos_sound(this: i64, subs: Seq<(AstNode, Seq<i64>)>, pool: Multiset<i64>)
    requires
        forall|j: int| 0 <= j < subs.len() ==> cand_ok(#[trigger] subs[j], pool),
    ensures
        forall|j: int|
            0 <= j < combos_seq(this, subs).len() ==> cand_ok(
                #[trigger] combos_seq(this, subs)[j],
                pool.insert(this),
            ),
    decreases subs.len(),
{
    broadcast use group_to_multiset_ensures;
    broadcast use vstd::multiset::group_multiset_axioms;

    if subs.len() > 0 {
        lemma_combos_sound(this, subs.drop_last(), pool);
        let sub = subs.last();
        let six = combos6(this, sub.0, sub.1);
        assert(leaves(AstNode::Num(this)) == seq![this]);
        assert forall|j: int| 0 <= j < six.len() implies cand_ok(
            #[trigger] six[j],
            pool.insert(this),
        ) by {
            assert(leaves(six[j].0) == seq![this] + leaves(sub.0) || leaves(six[j].0) == leaves(
                sub.0,
            ) + seq![this]);
            assert(six[j].1 == sub.1);
            lemma_combo_leaves_ms(this, sub.0, six[j].0);
            assert(leaves(six[j].0).to_multiset().add(sub.1.to_multiset()) =~= leaves(
                sub.0,
            ).to_multiset().add(sub.1.to_multiset()).insert(this));
            assert(cand_ok(sub, pool));
        }
        assert forall|j: int| 0 <= j < combos_seq(this, subs).len() implies cand_ok(
            #[trigger] combos_seq(this, subs)[j],
            pool.insert(this),
        ) by {
            let pre = combos_seq(this, subs.drop_last());
            if j < pre.len() {
                assert(combos_seq(this, subs)[j] == pre[j]);
            } else {
                assert(combos_seq(this, subs)[j] == six[j - pre.len()]);
            }
        }
    }
}

proof fn lemma_remove_insert_ms(rest: Seq<i64>, i: int)
    requires
        0 <= i < rest.len(),
    ensures
        rest.remove(i).to_multiset().insert(rest[i]) == rest.to_multiset(),
{
    broadcast use group_to_multiset_ensures;
    broadcast use vstd::multiset::group_multiset_axioms;

    assert(rest.remove(i).to_multiset() =~= rest.to_multiset().remove(rest[i]));
    assert(rest.contains(rest[i]));
    assert(rest.to_multiset().count(rest[i]) >= 1);
    assert(rest.remove(i).to_multiset().insert(rest[i]) =~= rest.to_multiset());
}

proof fn lemma_expand_sound(this: i64, rest: Seq<i64>, depth: nat, k: nat)
    requires
        k <= rest.len(),
    ensures
        forall|j: int|
            0 <= j < expand_upto(this, rest, depth, k).len() ==> cand_ok(
                #[trigger] expand_upto(this, rest, depth, k)[j],
                rest.to_multiset().insert(this),
            ),
    decreases rest.len(), k,
{
    if k > 0 {
        lemma_expand_sound(this, rest, depth, (k - 1) as nat);
        let i = k as int - 1;
        let subs = search_spec(rest[i], rest.remove(i), depth + 1);
        lemma_search_sound(rest[i], rest.remove(i), depth + 1);
        lemma_remove_insert_ms(rest, i);
        lemma_combos_sound(this, subs, rest.to_multiset());
        assert(pos_contrib(this, rest, depth, i) == combos_seq(this, subs));
        assert(expand_upto(this, rest, depth, k) == expand_upto(this, rest, depth, (k - 1) as nat)
            + combos_seq(this, subs));
        assert forall|j: int| 0 <= j < expand_upto(this, rest, depth, k).len() implies cand_ok(
            #[trigger] expand_upto(this, rest, depth, k)[j],
            rest.to_multiset().insert(this),
        ) by {
            let pre = expand_upto(this, rest, depth, (k - 1) as nat);
            if j < pre.len() {
                assert(expand_upto(this, rest, depth, k)[j] == pre[j]);
            } else {
                assert(expand_upto(this, rest, depth, k)[j] == combos_seq(this, subs)[j
                    - pre.len()]);
            }
        }
    }
}

proof fn lemma_search_sound(this: i64, rest: Seq<i64>, depth: nat)
    ensures
        forall|j: int|
            0 <= j < search_spec(this, rest, depth).len() ==> cand_ok(
                #[trigger] search_spec(this, rest, depth)[j],
                rest.to_multiset().insert(this),
            ),
    decreases rest.len(), rest.len() + 1,
{
    broadcast use group_to_multiset_ensures;
    broadcast use vstd::multiset::group_multiset_axioms;

    lemma_singleton_ms(this);
    assert(leaves(AstNode::Num(this)) == seq![this]);
    if rest.len() == 0 {
        assert(rest =~= Seq::<i64>::empty());
        assert(rest.to_multiset().len() == 0);
        assert(search_spec(this, rest, depth) == seq![(AstNode::Num(this), Seq::<i64>::empty())]);
        assert(search_spec(this, rest, depth).len() == 1);
        assert(search_spec(this, rest, depth)[0] == (AstNode::Num(this), Seq::<i64>::empty()));
        assert(seq![this].to_multiset().add(rest.to_multiset()) =~= rest.to_multiset().insert(
            this,
        ));
        assert(cand_ok(search_spec(this, rest, depth)[0], rest.to_multiset().insert(this)));
    } else if depth > 2 {
        assert(search_spec(this, rest, depth) == seq![(AstNode::Num(this), rest)]);
        assert(search_spec(this, rest, depth).len() == 1);
        assert(search_spec(this, rest, depth)[0] == (AstNode::Num(this), rest));
        assert(seq![this].to_multiset().add(rest.to_multiset()) =~= rest.to_multiset().insert(
            this,
        ));
        assert(cand_ok(search_spec(this, rest, depth)[0], rest.to_multiset().insert(this)));
    } else {
        lemma_expand_sound(this, rest, depth, rest.len());
        assert(search_spec(this, rest, depth) == expand_upto(this, rest, depth, rest.len()));
        assert forall|j: int| 0 <= j < search_spec(this, rest, depth).len() implies cand_ok(
            #[trigger] search_spec(this, rest, depth)[j],
            rest.to_multiset().insert(this),
        ) by {
            assert(cand_ok(
                expand_upto(this, rest, depth, rest.len())[j],
                rest.to_multiset().insert(this),
            ));
        }
    }
}

/// Every Phase-1 candidate accounts for exactly the input dice.
pub proof fn lemma_phase1_sound(dice: Seq<i64>)
    ensures
        forall|j: int|
            0 <= j < phase1(dice).len() ==> cand_ok(#[trigger] phase1(dice)[j], dice.to_multiset()),
{
    if dice.len() >= 2 {
        lemma_search_sound(dice[1], dice.remove(1), 0);
        lemma_remove_insert_ms(dice, 1);
    }
}

/// A candidate over a small pool of die faces is ready for Phase 2.
pub proof fn lemma_cand_ready(c: (AstNode, Seq<i64>), dice: Seq<i64>)
    requires
        cand_ok(c, dice.to_multiset()),
        all_dice(dice),
        dice.len() <= MAX_DICE,
    ensures
        dfs_ready(c.0, c.1),
{
    broadcast use group_to_multiset_ensures;
    broadcast use vstd::multiset::group_multiset_axioms;

    assert(leaves(c.0).to_multiset().len() + c.1.to_multiset().len()
        == dice.to_multiset().len());
    assert forall|i: int| 0 <= i < leaves(c.0).len() implies 1 <= #[trigger] leaves(c.0)[i]
        <= 6 by {
        let x = leaves(c.0)[i];
        assert(leaves(c.0).contains(x));
        assert(leaves(c.0).to_multiset().count(x) > 0);
        assert(dice.to_multiset().count(x) > 0);
        assert(dice.contains(x));
        let k = choose|k: int| 0 <= k < dice.len() && dice[k] == x;
        assert(1 <= dice[k] <= 6);
    }
    assert forall|i: int| 0 <= i < c.1.len() implies 1 <= #[trigger] c.1[i] <= 6 by {
        let x = c.1[i];
        assert(c.1.contains(x));
        assert(c.1.to_multiset().count(x) > 0);
        assert(dice.to_multiset().count(x) > 0);
        assert(dice.contains(x));
        let k = choose|k: int| 0 <= k < dice.len() && dice[k] == x;
        assert(1 <= dice[k] <= 6);
    }
}

/// The sequence is ordered.
pub open spec fn sorted_seq(s: Seq<i64>) -> bool {
    forall|a: int, b: int| 0 <= a < b < s.len() ==> s[a] <= s[b]
}

proof fn lemma_ms_insert(s: Seq<i64>, j: int, x: i64)
    requires
        0 <= j <= s.len(),
    ensures
        s.insert(j, x).to_multiset() == s.to_multiset().insert(x),
{
    broadcast use group_to_multiset_ensures;
    broadcast use vstd::multiset::group_multiset_axioms;

    let a = s.take(j);
    let b = s.skip(j);
    assert(s.insert(j, x) =~= a + (seq![x] + b));
    assert(s =~= a + b);
    lemma_singleton_ms(x);
    lemma_multiset_commutative(a, seq![x] + b);
    lemma_multiset_commutative(seq![x], b);
    lemma_multiset_commutative(a, b);
    assert(s.insert(j, x).to_multiset() =~= s.to_multiset().insert(x));
}

/// Insertion sort: the result is the ordered permutation of the input.
pub fn sort_dice(input: Vec<i64>) -> (r: Vec<i64>)
    ensures
        sorted_seq(r@),
        r@.to_multiset() == input@.to_multiset(),
        r@.len() == input@.len(),
{
    broadcast use group_to_multiset_ensures;
    broadcast use vstd::multiset::group_multiset_axioms;

    let mut out: Vec<i64> = Vec::new();
    let mut i: usize = 0;
    while i < input.len()
        invariant
            i <= input@.len(),
            sorted_seq(out@),
            out@.to_multiset() == input@.take(i as int).to_multiset(),
            out@.len() == i,
        decreases input@.len() - i,
    {
        let x = input[i];
        let mut j: usize = 0;
        while j < out.len() && out[j] <= x
            invariant
                j <= out@.len(),
                forall|k: int| 0 <= k < j ==> out@[k] <= x,
                sorted_seq(out@),
            decreases out@.len() - j,
        {
            j += 1;
        }
        let ghost old_out = out@;
        out.insert(j, x);
        proof {
            lemma_ms_insert(old_out, j as int, x);
            assert(input@.take(i as int + 1).drop_last() =~= input@.take(i as int));
            assert(input@.take(i as int + 1) =~= input@.take(i as int).push(x));
            vstd::seq_lib::to_multiset_build(input@.take(i as int), x);
            assert(input@.take(i as int).push(x).to_multiset() == input@.take(
                i as int,
            ).to_multiset().insert(x));
            assert forall|a: int, b: int| 0 <= a < b < out@.len() implies out@[a] <= out@[b] by {
                if b < j {
                    assert(out@[a] == old_out[a] && out@[b] == old_out[b]);
                } else if a > j {
                    assert(out@[a] == old_out[a - 1] && out@[b] == old_out[b - 1]);
                } else if a < j && b == j {
                    assert(out@[a] == old_out[a]);
                } else if a == j && b > j {
                    assert(out@[b] == old_out[b - 1]);
                    assert(j < old_out.len() ==> x < old_out[j as int]);
                } else if a < j && b > j {
                    assert(out@[a] == old_out[a] && out@[b] == old_out[b - 1]);
                }
            }
        }
        i += 1;
    }
    proof {
        assert(input@.take(input@.len() as int) =~= input@);
    }
    out
}

} // verus!
