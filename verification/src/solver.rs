use crate::ast::{
    all_dice, eval_rat, eval_ready, lemma_eval_fits, leaves, rat_floor, AstNode, MAX_DICE, Rat,
};
use crate::par::par_search;
use crate::parse::{parse_dice, parse_level, spec_parse_dice, spec_parse_int};
use crate::render::{
    int_text, lemma_render_nonempty, push_i128_text, render_chars_of, render_text, string_of_chars,
};
use crate::search::{
    bfs, can_complete, cand_ok, cands_view, copy_vec, dfs_ready, lemma_can_complete_witness,
    lemma_cand_ready, lemma_phase1_sound, phase1, sort_dice, sorted_seq,
};
use crate::targets::{
    dice_cap, hit, lemma_mag_cap, lemma_prod_perm, level_valid, pruned, spec_hit, spec_pruned,
    spec_targets, targets_for, Targets,
};
use vstd::prelude::*;
use vstd::seq_lib::group_to_multiset_ensures;

verus! {

/// Why a request is rejected before any search runs.
#[derive(Debug, Clone, Copy, PartialEq, Eq, Structural)]
pub enum SolveError {
    InvalidLevel,
}

/// The failure marker.
pub open spec fn na_text() -> Seq<char> {
    seq!['N', '/', 'A']
}

/// An expression solves the request: its leaves use each input die
/// exactly once, and its floored value hits one of the targets.
pub open spec fn correct_solution(e: AstNode, dice: Seq<i64>, t: Targets) -> bool {
    leaves(e).to_multiset() == dice.to_multiset() && spec_hit(e, t)
}

/// A correct solution hits the level: it evaluates, its floored value
/// is one of the three targets, and its leaves use each input die
/// exactly once — no die dropped, none duplicated.
pub proof fn lemma_solution_hits_target(e: AstNode, dice: Seq<i64>, t: Targets)
    requires
        correct_solution(e, dice, t),
    ensures
        eval_rat(e) is Some,
        floored(e) == t.t0 as int || floored(e) == t.t1 as int || floored(e) == t.t2 as int,
        leaves(e).to_multiset() == dice.to_multiset(),
{
}

/// The floored value of an expression that evaluates.
pub open spec fn floored(e: AstNode) -> int {
    match eval_rat(e) {
        Some(q) => rat_floor(q.0, q.1),
        None => 0,
    }
}

/// The text of a success: the rendered expression, an equals sign, and
/// the floored value.
pub open spec fn solution_text(e: AstNode) -> Seq<char> {
    render_text(e) + seq![' ', '=', ' '] + int_text(floored(e))
}

/// A success text is never the failure marker: it is longer.
proof fn lemma_solution_text_ne_na(e: AstNode)
    ensures
        solution_text(e) != na_text(),
{
    lemma_render_nonempty(e);
    let f = floored(e);
    if f < 0 {
        assert(int_text(f).len() >= 1);
    } else {
        assert(crate::render::dec_digits(f as nat).len() >= 1);
    }
    assert(solution_text(e).len() >= 5);
}

/// The ordered permutation of a dice sequence, unique among sorted
/// sequences with the same multiset.
pub open spec fn sort_of(s: Seq<i64>) -> Seq<i64> {
    choose|r: Seq<i64>| sorted_seq(r) && r.to_multiset() == s.to_multiset()
}

proof fn lemma_sorted_same(x: Seq<i64>, y: Seq<i64>)
    requires
        sorted_seq(x),
        sorted_seq(y),
        x.to_multiset() == y.to_multiset(),
    ensures
        x == y,
{
    let leq = |a: i64, b: i64| a <= b;
    assert(vstd::relations::sorted_by(x, leq)) by {
        assert forall|i: int, j: int| 0 <= i < j < x.len() implies #[trigger] leq(x[i], x[j]) by {
            assert(x[i] <= x[j]);
        }
    }
    assert(vstd::relations::sorted_by(y, leq)) by {
        assert forall|i: int, j: int| 0 <= i < j < y.len() implies #[trigger] leq(y[i], y[j]) by {
            assert(y[i] <= y[j]);
        }
    }
    assert(vstd::relations::total_ordering(leq)) by {
        assert(vstd::relations::reflexive(leq)) by {
            assert(forall|a: i64| #[trigger] leq(a, a));
        }
        assert(vstd::relations::antisymmetric(leq)) by {
            assert(forall|a: i64, b: i64| #[trigger] leq(a, b) && #[trigger] leq(b, a) ==> a == b);
        }
        assert(vstd::relations::transitive(leq)) by {
            assert(forall|a: i64, b: i64, c: i64|
                #[trigger] leq(a, b) && #[trigger] leq(b, c) ==> leq(a, c));
        }
        assert(vstd::relations::strongly_connected(leq)) by {
            assert(forall|a: i64, b: i64| #[trigger] leq(a, b) || #[trigger] leq(b, a));
        }
    }
    vstd::seq_lib::lemma_sorted_unique(x, y, leq);
    assert(x =~= y);
}

proof fn lemma_sort_of_eq(r: Seq<i64>, s: Seq<i64>)
    requires
        sorted_seq(r),
        r.to_multiset() == s.to_multiset(),
    ensures
        sort_of(s) == r,
{
    assert(exists|x: Seq<i64>| sorted_seq(x) && x.to_multiset() == s.to_multiset()) by {
        assert(sorted_seq(r) && r.to_multiset() == s.to_multiset());
    }
    let so = sort_of(s);
    assert(sorted_seq(so) && so.to_multiset() == s.to_multiset());
    lemma_sorted_same(r, so);
}

/// The leaf values of an expression, left to right.
pub fn leaves_vec(e: &AstNode) -> (r: Vec<i64>)
    ensures
        r@ == leaves(*e),
    decreases *e,
{
    match e {
        AstNode::Num(n) => {
            let mut v: Vec<i64> = Vec::new();
            v.push(*n);
            proof {
                assert(v@ =~= leaves(*e));
            }
            v
        },
        AstNode::Add(l, r) => {
            let mut a = leaves_vec(l);
            let mut b = leaves_vec(r);
            a.append(&mut b);
            a
        },
        AstNode::Mul(l, r) => {
            let mut a = leaves_vec(l);
            let mut b = leaves_vec(r);
            a.append(&mut b);
            a
        },
        AstNode::Sub(l, r) => {
            let mut a = leaves_vec(l);
            let mut b = leaves_vec(r);
            a.append(&mut b);
            a
        },
        AstNode::Div(l, r) => {
            let mut a = leaves_vec(l);
            let mut b = leaves_vec(r);
            a.append(&mut b);
            a
        },
    }
}

fn vec_eq(a: &Vec<i64>, b: &Vec<i64>) -> (r: bool)
    ensures
        r == (a@ == b@),
{
    if a.len() != b.len() {
        return false;
    }
    let mut i: usize = 0;
    while i < a.len()
        invariant
            i <= a@.len(),
            a@.len() == b@.len(),
            forall|k: int| 0 <= k < i ==> a@[k] == b@[k],
        decreases a@.len() - i,
    {
        if a[i] != b[i] {
            proof {
                assert(a@[i as int] != b@[i as int]);
            }
            return false;
        }
        i += 1;
    }
    proof {
        assert(a@ =~= b@);
    }
    true
}

proof fn lemma_all_dice_ms(a: Seq<i64>, b: Seq<i64>)
    requires
        a.to_multiset() == b.to_multiset(),
        all_dice(b),
    ensures
        all_dice(a),
        a.len() == b.len(),
{
    broadcast use group_to_multiset_ensures;
    broadcast use vstd::multiset::group_multiset_axioms;

    assert(a.to_multiset().len() == a.len());
    assert(b.to_multiset().len() == b.len());
    assert forall|i: int| 0 <= i < a.len() implies 1 <= #[trigger] a[i] <= 6 by {
        let x = a[i];
        assert(a.contains(x));
        assert(a.to_multiset().count(x) > 0);
        assert(b.contains(x));
        let k = choose|k: int| 0 <= k < b.len() && b[k] == x;
        assert(1 <= b[k] <= 6);
    }
}

/// A failing cap admits no hit: the cap bounds the floored value of
/// every expression over exactly these dice from above, and the targets
/// lie strictly beyond it.
proof fn lemma_pruned_no_hit(dice: Seq<i64>, t: Targets, e: AstNode)
    requires
        spec_pruned(dice, t),
        all_dice(dice),
        leaves(e).to_multiset() == dice.to_multiset(),
    ensures
        !spec_hit(e, t),
{
    lemma_all_dice_ms(leaves(e), dice);
    if eval_rat(e) is Some {
        let q = eval_rat(e)->Some_0;
        crate::ast::lemma_eval_bounds(e);
        crate::ast::lemma_mag_pos(e);
        lemma_mag_cap(e);
        lemma_prod_perm(leaves(e), dice);
        assert(dice_cap(leaves(e)) == dice_cap(dice));
        crate::ast::lemma_floor_le(q.0, q.1);
        assert(rat_floor(q.0, q.1) < t.t0 && rat_floor(q.0, q.1) < t.t1 && rat_floor(q.0, q.1)
            < t.t2);
    }
}

/// The pruning cap is a pure optimization: where it fails, no Phase-1
/// candidate can be completed either, so the search would find nothing.
proof fn lemma_pruned_no_candidate(dice: Seq<i64>, sorted: Seq<i64>, t: Targets)
    requires
        spec_pruned(dice, t),
        all_dice(dice),
        sorted.to_multiset() == dice.to_multiset(),
    ensures
        forall|i: int|
            0 <= i < phase1(sorted).len() ==> !can_complete(
                (#[trigger] phase1(sorted)[i]).0,
                phase1(sorted)[i].1,
                t,
            ),
{
    lemma_phase1_sound(sorted);
    assert forall|i: int| 0 <= i < phase1(sorted).len() implies !can_complete(
        (#[trigger] phase1(sorted)[i]).0,
        phase1(sorted)[i].1,
        t,
    ) by {
        let c = phase1(sorted)[i];
        if can_complete(c.0, c.1, t) {
            lemma_can_complete_witness(c.0, c.1, t);
            let e = choose|e: AstNode|
                leaves(e).to_multiset() == leaves(c.0).to_multiset().add(c.1.to_multiset())
                    && spec_hit(e, t);
            assert(cand_ok(c, sorted.to_multiset()));
            assert(leaves(e).to_multiset() == dice.to_multiset());
            lemma_pruned_no_hit(dice, t, e);
        }
    }
}

/// Check a tree that came back from the parallel search: it is accepted
/// exactly when its leaves are the input dice and its floor hits.
fn validated(e: &AstNode, dice: &Vec<i64>, t: Targets) -> (b: bool)
    requires
        all_dice(dice@),
        dice@.len() <= MAX_DICE,
    ensures
        b == correct_solution(*e, dice@, t),
        b ==> eval_ready(*e),
{
    broadcast use group_to_multiset_ensures;
    broadcast use vstd::multiset::group_multiset_axioms;

    let lv = leaves_vec(e);
    let sl = sort_dice(lv);
    let sd = sort_dice(copy_vec(dice));
    if !vec_eq(&sl, &sd) {
        proof {
            if leaves(*e).to_multiset() == dice@.to_multiset() {
                lemma_sorted_same(sl@, sd@);
            }
        }
        return false;
    }
    proof {
        assert(leaves(*e).to_multiset() == dice@.to_multiset());
        lemma_all_dice_ms(leaves(*e), dice@);
    }
    hit(e, t)
}

/// Render a hitting expression with its floored value.
fn format_solution(e: &AstNode) -> (s: String)
    requires
        eval_ready(*e),
        eval_rat(*e) is Some,
    ensures
        s@ == solution_text(*e),
{
    let mut v = render_chars_of(e);
    v.push(' ');
    v.push('=');
    v.push(' ');
    let q = match e.evaluate() {
        Some(q) => q,
        None => {
            proof {
                assert(false);
            }
            Rat { num: 0, den: 1 }
        },
    };
    proof {
        lemma_eval_fits(*e);
    }
    let f = q.floor();
    push_i128_text(f, &mut v);
    proof {
        assert(v@ =~= solution_text(*e));
    }
    string_of_chars(&v)
}

/// Solve one request. The first text holds the die values joined by a
/// bar separator; tokens that are not integers are dropped. The second
/// holds the level, which selects the three prime targets; a level text
/// that is not an integer, or is out of the table's range, is rejected.
/// The answer is the failure marker exactly when no candidate of the
/// two-phase search can be completed into a hit — in particular
/// whenever the pruning cap fails — and otherwise it renders an
/// expression over exactly the input dice whose floored value is one of
/// the targets, followed by that value.
pub fn compute(input_d6: &str, input_lv: &str) -> (r: Result<String, SolveError>)
    requires
        all_dice(spec_parse_dice(input_d6@)),
        spec_parse_dice(input_d6@).len() <= MAX_DICE,
    ensures
        (r is Ok) == (spec_parse_int(input_lv@) matches Some(l) && level_valid(l as int)),
        (match r {
            Ok(s) => ({
                let dice = spec_parse_dice(input_d6@);
                let t = spec_targets(spec_parse_int(input_lv@)->Some_0 as int);
                let cands = phase1(sort_of(dice));
                &&& (spec_pruned(dice, t) ==> s@ == na_text())
                &&& ((s@ == na_text()) <==> !(exists|i: int|
                    0 <= i < cands.len() && can_complete(
                        (#[trigger] cands[i]).0,
                        cands[i].1,
                        t,
                    )))
                &&& (s@ == na_text() || (exists|e: AstNode|
                    correct_solution(e, dice, t) && s@ == solution_text(e)))
            }),
            Err(err) => err == SolveError::InvalidLevel,
        }),
{
    let lv = match parse_level(input_lv) {
        Some(l) => l,
        None => {
            return Err(SolveError::InvalidLevel);
        },
    };
    if !(1 <= lv && lv <= 9) {
        return Err(SolveError::InvalidLevel);
    }
    let t = targets_for(lv);
    let dice = parse_dice(input_d6);
    let sorted = sort_dice(copy_vec(&dice));
    proof {
        lemma_all_dice_ms(sorted@, dice@);
        lemma_sort_of_eq(sorted@, dice@);
    }
    let ghost sorted_view = sorted@;
    if pruned(&dice, t) {
        proof {
            lemma_pruned_no_candidate(dice@, sorted_view, t);
        }
        return Ok(na_string());
    }
    let cands = bfs(sorted);
    proof {
        lemma_phase1_sound(sorted_view);
        assert forall|i: int| 0 <= i < cands@.len() implies dfs_ready(
            #[trigger] cands@[i].0,
            cands@[i].1@,
        ) by {
            assert(cands_view(cands@)[i] == (cands@[i].0, cands@[i].1@));
            assert(cand_ok(phase1(sorted_view)[i], sorted_view.to_multiset()));
            lemma_cand_ready(phase1(sorted_view)[i], sorted_view);
        }
    }
    let found = par_search(cands, t);
    match found {
        None => {
            proof {
                assert forall|i: int| 0 <= i < phase1(sorted_view).len() implies !can_complete(
                    (#[trigger] phase1(sorted_view)[i]).0,
                    phase1(sorted_view)[i].1,
                    t,
                ) by {
                    assert(cands_view(cands@)[i] == (cands@[i].0, cands@[i].1@));
                    assert(!can_complete(cands@[i].0, cands@[i].1@, t));
                }
            }
            Ok(na_string())
        },
        Some(e) => {
            proof {
                let i = choose|i: int|
                    0 <= i < cands@.len() && leaves(e).to_multiset() == leaves(
                        cands@[i].0,
                    ).to_multiset().add(cands@[i].1@.to_multiset()) && spec_hit(e, t);
                assert(cands_view(cands@)[i] == (cands@[i].0, cands@[i].1@));
                assert(cand_ok(phase1(sorted_view)[i], sorted_view.to_multiset()));
                assert(leaves(e).to_multiset() == spec_parse_dice(input_d6@).to_multiset());
            }
            if validated(&e, &dice, t) {
                proof {
                    assert(eval_rat(e) is Some);
                }
                let s = format_solution(&e);
                proof {
                    lemma_solution_text_ne_na(e);
                    let j = choose|j: int|
                        0 <= j < cands@.len() && can_complete(cands@[j].0, cands@[j].1@, t);
                    assert(cands_view(cands@)[j] == (cands@[j].0, cands@[j].1@));
                    assert(can_complete(
                        (phase1(sorted_view)[j]).0,
                        phase1(sorted_view)[j].1,
                        t,
                    ));
                }
                Ok(s)
            } else {
                proof {
                    assert(false);
                }
                Ok(na_string())
            }
        },
    }
}

fn na_string() -> (s: String)
    ensures
        s@ == na_text(),
{
    let mut v: Vec<char> = Vec::new();
    v.push('N');
    v.push('/');
    v.push('A');
    proof {
        assert(v@ =~= na_text());
    }
    string_of_chars(&v)
}

} // verus!
