//! What the draws of a generator decide, and what the operators of the experiments mean.
use vstd::prelude::*;
use crate::probe_laws::{generated_value_is_true, generated_within_bounds, within};
use crate::recursion_dl::{applied, quotient, Node, Outcome};
use crate::recursion_probe::{
    applied_any, family_tree, family_try, gen_value, leaf_value, meaning, op_node, plain_op, shuffled, single_tree,
    single_try, two_level_tree,
};

verus! {

/// The number that the stream gives as the `k`-th from a seed on.
pub open spec fn nth_draw(seed: u64, k: nat) -> u64
    decreases k,
{
    if k == 0 { seed } else { shuffled(nth_draw(seed, (k - 1) as nat)) }
}

/// The state from which the stream goes on with the given number.
pub open spec fn state_before(y: u64) -> u64 {
    let b = y ^ (y << 17) ^ (y << 34) ^ (y << 51);
    let a = b ^ (b >> 7) ^ (b >> 14) ^ (b >> 21) ^ (b >> 28) ^ (b >> 35) ^ (b >> 42) ^ (b >> 49) ^ (b >> 56) ^ (b >> 63);
    a ^ (a << 13) ^ (a << 26) ^ (a << 39) ^ (a << 52)
}

/// Every number comes next from some state, and a number other than zero from a state other than zero.
pub proof fn every_number_comes_next(y: u64)
    ensures
        shuffled(state_before(y)) == y,
        y != 0 ==> state_before(y) != 0,
{
    let b = y ^ (y << 17) ^ (y << 34) ^ (y << 51);
    let a = b ^ (b >> 7) ^ (b >> 14) ^ (b >> 21) ^ (b >> 28) ^ (b >> 35) ^ (b >> 42) ^ (b >> 49) ^ (b >> 56) ^ (b >> 63);
    let x = a ^ (a << 13) ^ (a << 26) ^ (a << 39) ^ (a << 52);
    assert(x ^ (x << 13) == a) by (bit_vector)
        requires
            x == a ^ (a << 13) ^ (a << 26) ^ (a << 39) ^ (a << 52),
    ;
    assert(a ^ (a >> 7) == b) by (bit_vector)
        requires
            a == b ^ (b >> 7) ^ (b >> 14) ^ (b >> 21) ^ (b >> 28) ^ (b >> 35) ^ (b >> 42) ^ (b >> 49) ^ (b >> 56) ^ (b
                >> 63),
    ;
    assert(b ^ (b << 17) == y) by (bit_vector)
        requires
            b == y ^ (y << 17) ^ (y << 34) ^ (y << 51),
    ;
    if y != 0 && state_before(y) == 0 {
        assert(0u64 ^ (0u64 << 13) == 0u64) by (bit_vector);
        assert(0u64 ^ (0u64 >> 7) == 0u64) by (bit_vector);
        assert(0u64 ^ (0u64 << 17) == 0u64) by (bit_vector);
    }
}

/// Every number from 0 to the bound is drawn as a leaf, from some seed other than zero.
pub proof fn every_leaf_is_drawn(ops: Seq<char>, maxv: i64, v: i64)
    requires
        0 <= v <= maxv,
    ensures
        exists|seed: u64| seed != 0 && #[trigger] family_tree(0, ops, maxv, seed).0 == Node::Leaf(v),
{
    let y = (maxv as int + 1 + v as int) as u64;
    every_number_comes_next(y);
    let seed = state_before(y);
    let n = maxv as int + 1;
    assert((n + v) % n == v) by (nonlinear_arith)
        requires
            0 <= v < n,
    ;
    assert(family_tree(0, ops, maxv, seed).0 == Node::Leaf(v));
}

/// One attempt at an expression: the operator, the operands, and the state of the stream behind them. The operator is the
/// one that the first draw picks; the second draw gives the depth of one operand, and the third says which of them has
/// the full remaining depth.
pub open spec fn attempt(depth: nat, ops: Seq<char>, maxv: i64, seed: u64) -> (char, Node, Node, u64) {
    let other = (nth_draw(seed, 2) as int % depth as int) as nat;
    let full = (depth - 1) as nat;
    let (dl, dr) = if nth_draw(seed, 3) % 2 == 1 { (other, full) } else { (full, other) };
    let left = family_tree(dl, ops, maxv, nth_draw(seed, 3));
    let right = family_tree(dr, ops, maxv, left.1);
    (ops[nth_draw(seed, 1) as int % ops.len() as int], left.0, right.0, right.1)
}

/// The operator of an attempt has a result from 0 to the bound.
pub open spec fn succeeds(a: (char, Node, Node, u64), maxv: i64) -> bool {
    meaning(a.0, gen_value(a.1), gen_value(a.2)) matches Some(v) && 0 <= v <= maxv
}

/// The state of the stream when `k` attempts were made.
pub open spec fn after_attempts(depth: nat, ops: Seq<char>, maxv: i64, seed: u64, k: nat) -> u64
    decreases k,
{
    if k == 0 { seed } else { attempt(depth, ops, maxv, after_attempts(depth, ops, maxv, seed, (k - 1) as nat)).3 }
}

proof fn low_bit(x: u64)
    ensures
        (x & 1 == 1) == (x % 2 == 1),
{
    assert((x & 1 == 1) == (x % 2 == 1)) by (bit_vector);
}

proof fn attempt_unfolds(depth: nat, ops: Seq<char>, maxv: i64, seed: u64, tries: nat)
    requires
        depth > 0,
        ops.len() > 0,
        tries > 0,
    ensures
        family_try(depth, ops, maxv, seed, tries) == ({
            let a = attempt(depth, ops, maxv, seed);
            if succeeds(a, maxv) {
                (op_node(a.0, a.1, a.2), a.3)
            } else {
                family_try(depth, ops, maxv, a.3, (tries - 1) as nat)
            }
        }),
{
    reveal_with_fuel(nth_draw, 4);
    let s1 = shuffled(seed);
    let s2 = shuffled(s1);
    let s3 = shuffled(s2);
    assert(nth_draw(seed, 1) == s1);
    assert(nth_draw(seed, 2) == s2);
    assert(nth_draw(seed, 3) == s3);
    low_bit(s3);
}

proof fn failed_attempts_pass(depth: nat, ops: Seq<char>, maxv: i64, seed: u64, k: nat)
    requires
        depth > 0,
        ops.len() > 0,
        k <= 400,
        forall|j: nat|
            j < k ==> !succeeds(attempt(depth, ops, maxv, #[trigger] after_attempts(depth, ops, maxv, seed, j)), maxv),
    ensures
        family_tree(depth, ops, maxv, seed) == family_try(
            depth,
            ops,
            maxv,
            after_attempts(depth, ops, maxv, seed, k),
            (400 - k) as nat,
        ),
    decreases k,
{
    if k > 0 {
        let j = (k - 1) as nat;
        failed_attempts_pass(depth, ops, maxv, seed, j);
        let at = after_attempts(depth, ops, maxv, seed, j);
        attempt_unfolds(depth, ops, maxv, at, (400 - j) as nat);
        assert(!succeeds(attempt(depth, ops, maxv, at), maxv));
    }
}

/// The first attempt that succeeds is taken: its operator, which its first draw picked from the whole family, stands at
/// the root, over its operands.
pub proof fn first_success_is_taken(depth: nat, ops: Seq<char>, maxv: i64, seed: u64, k: nat)
    requires
        depth > 0,
        ops.len() > 0,
        k < 400,
        forall|j: nat|
            j < k ==> !succeeds(attempt(depth, ops, maxv, #[trigger] after_attempts(depth, ops, maxv, seed, j)), maxv),
        succeeds(attempt(depth, ops, maxv, after_attempts(depth, ops, maxv, seed, k)), maxv),
    ensures
        ({
            let a = attempt(depth, ops, maxv, after_attempts(depth, ops, maxv, seed, k));
            family_tree(depth, ops, maxv, seed) == (op_node(a.0, a.1, a.2), a.3)
        }),
{
    failed_attempts_pass(depth, ops, maxv, seed, k);
    attempt_unfolds(depth, ops, maxv, after_attempts(depth, ops, maxv, seed, k), (400 - k) as nat);
}

/// Where four hundred attempts fail, the expression has the value of the next number drawn.
pub proof fn a_number_is_drawn_at_last(depth: nat, ops: Seq<char>, maxv: i64, seed: u64)
    requires
        0 <= maxv,
        depth > 0,
        ops.len() > 0,
        forall|j: nat|
            j < 400 ==> !succeeds(attempt(depth, ops, maxv, #[trigger] after_attempts(depth, ops, maxv, seed, j)), maxv),
    ensures
        ({
            let last = shuffled(after_attempts(depth, ops, maxv, seed, 400));
            let (tree, after) = family_tree(depth, ops, maxv, seed);
            after == last && gen_value(tree) == last as int % (maxv + 1)
        }),
{
    failed_attempts_pass(depth, ops, maxv, seed, 400);
    let last = shuffled(after_attempts(depth, ops, maxv, seed, 400));
    crate::probe_laws::nesting_keeps_the_value(depth, ops, leaf_value(last, maxv), maxv);
}

/// Every operator of a family is drawn: where an operator keeps within the bounds, some seed other than zero gives an
/// expression with it at the root, whatever its place in the family is.
pub proof fn every_operator_is_drawn(depth: nat, ops: Seq<char>, maxv: i64, i: int)
    requires
        0 <= maxv,
        depth > 0,
        0 <= i < ops.len(),
        2 * ops.len() <= u64::MAX,
        forall|x: i64, y: i64|
            0 <= x <= maxv && 0 <= y <= maxv ==> (#[trigger] meaning(ops[i], x, y) matches Some(v) && 0 <= v <= maxv),
    ensures
        exists|seed: u64|
            seed != 0 && (#[trigger] family_tree(depth, ops, maxv, seed).0 matches Node::Op(op, _, _, _, _) && op == ops[i]),
{
    let n = ops.len() as int;
    let y = (n + i) as u64;
    every_number_comes_next(y);
    let seed = state_before(y);
    assert((n + i) % n == i) by (nonlinear_arith)
        requires
            0 <= i < n,
    ;
    reveal_with_fuel(nth_draw, 2);
    assert(nth_draw(seed, 1) == y);
    let a = attempt(depth, ops, maxv, seed);
    attempt_operands_within(depth, ops, maxv, seed);
    assert(a.0 == ops[i]);
    assert(meaning(ops[i], gen_value(a.1), gen_value(a.2)) matches Some(v) && 0 <= v <= maxv);
    assert(after_attempts(depth, ops, maxv, seed, 0) == seed);
    first_success_is_taken(depth, ops, maxv, seed, 0);
    assert(family_tree(depth, ops, maxv, seed).0 == op_node(a.0, a.1, a.2));
}

proof fn attempt_operands_within(depth: nat, ops: Seq<char>, maxv: i64, seed: u64)
    requires
        0 <= maxv,
        depth > 0,
    ensures
        ({
            let a = attempt(depth, ops, maxv, seed);
            0 <= gen_value(a.1) <= maxv && 0 <= gen_value(a.2) <= maxv
        }),
{
    let other = (nth_draw(seed, 2) as int % depth as int) as nat;
    let full = (depth - 1) as nat;
    let (dl, dr) = if nth_draw(seed, 3) % 2 == 1 { (other, full) } else { (full, other) };
    let left = family_tree(dl, ops, maxv, nth_draw(seed, 3));
    generated_within_bounds(dl, ops, maxv, nth_draw(seed, 3));
    generated_within_bounds(dr, ops, maxv, left.1);
    generated_value_is_true(left.0, maxv);
    generated_value_is_true(family_tree(dr, ops, maxv, left.1).0, maxv);
}

/// One attempt at a two-level expression: the three operators, each picked from the whole family by a draw of its own,
/// and the four operands.
pub open spec fn two_level_attempt(ops: Seq<char>, maxv: i64, seed: u64) -> Node {
    let op = |k: nat| ops[nth_draw(seed, k) as int % ops.len() as int];
    let leaf = |k: nat| Node::Leaf((nth_draw(seed, k) as int % (maxv + 1)) as i64);
    op_node(op(1), op_node(op(2), leaf(4), leaf(5)), op_node(op(3), leaf(6), leaf(7)))
}

/// The operators of a two-level expression are among those that it may have, the operands have values from 0 to the
/// bound, and the root has a value.
pub open spec fn two_level_succeeds(n: Node, maxv: i64) -> bool {
    n matches Node::Op(root, a, b, _, _) && (*a matches Node::Op(left, _, _, _, _) && (*b matches Node::Op(
        right,
        _,
        _,
        _,
        _,
    ) && {
        &&& "+*-<>&|^"@.contains(root) && "+*-<>&|^"@.contains(left) && "+*-<>&|^"@.contains(right)
        &&& within(*a, maxv) && within(*b, maxv)
        &&& meaning(root, gen_value(*a), gen_value(*b)) is Some
    }))
}

/// A two-level expression is the attempt that its draws make, where that succeeds; else the next seven draws are tried.
pub proof fn two_levels_are_drawn(ops: Seq<char>, maxv: i64, seed: u64, tries: nat)
    requires
        0 <= maxv,
        ops.len() > 0,
        tries > 0,
    ensures
        two_level_tree(ops, maxv, seed, tries) == if two_level_succeeds(two_level_attempt(ops, maxv, seed), maxv) {
            (Some(two_level_attempt(ops, maxv, seed)), nth_draw(seed, 7))
        } else {
            two_level_tree(ops, maxv, nth_draw(seed, 7), (tries - 1) as nat)
        },
{
    reveal_with_fuel(nth_draw, 8);
    reveal_with_fuel(within, 3);
    reveal_with_fuel(gen_value, 3);
    reveal_strlit("+*-<>&|^");
    let marks = "+*-<>&|^"@;
    assert(marks[0] == '+' && marks[1] == '*' && marks[2] == '-' && marks[3] == '<' && marks[4] == '>' && marks[5] == '&'
        && marks[6] == '|' && marks[7] == '^');
    assert forall|c: char| #[trigger] plain_op(c) == marks.contains(c) by {
        if marks.contains(c) {
            let i = choose|i: int| 0 <= i < marks.len() && marks[i] == c;
        }
    }
    let s1 = shuffled(seed);
    let s2 = shuffled(s1);
    let s3 = shuffled(s2);
    let (rop, lop, rop2) = (ops[s1 as int % ops.len() as int], ops[s2 as int % ops.len() as int], ops[s3 as int % ops.len() as int]);
    assert(plain_op(rop) == marks.contains(rop));
    assert(plain_op(lop) == marks.contains(lop));
    assert(plain_op(rop2) == marks.contains(rop2));
}

/// An expression over one symbol: the first two draws give the depths of the operands, one of them the full remaining
/// depth; where both operands can be made and what the symbol means keeps within the bounds, the symbol stands over them.
pub proof fn taught_expressions_are_drawn(depth: nat, sym: char, op: char, maxv: i64, seed: u64)
    requires
        0 <= maxv,
        depth > 0,
    ensures
        ({
            let other = (nth_draw(seed, 1) as int % depth as int) as nat;
            let full = (depth - 1) as nat;
            let (dl, dr) = if nth_draw(seed, 2) % 2 == 1 { (other, full) } else { (full, other) };
            let (left, s) = single_tree(dl, sym, op, maxv, nth_draw(seed, 2));
            let (right, t) = single_tree(dr, sym, op, maxv, s);
            left matches Some((a, x)) ==> (right matches Some((b, y)) ==> (meaning(op, x, y) matches Some(v) ==> 0 <= v
                <= maxv ==> single_tree(depth, sym, op, maxv, seed) == (Some((op_node(sym, a, b), v as i64)), t)))
        }),
{
    reveal_with_fuel(nth_draw, 3);
    reveal_with_fuel(single_try, 2);
    assert(nth_draw(seed, 1) == shuffled(seed));
    assert(nth_draw(seed, 2) == shuffled(shuffled(seed)));
    low_bit(shuffled(shuffled(seed)));
}

/// The sums, differences and products of the evaluator: nothing added and one times leave a number as it is, a difference
/// undoes a sum, and one more factor is one more summand.
pub proof fn sums_and_products(x: i64, y: i64, s: i64)
    ensures
        applied('+', x, 0) == Outcome::Value(x),
        applied('+', 0, y) == Outcome::Value(y),
        applied('+', x, y) == applied('+', y, x),
        applied('+', x, y) == Outcome::Value(s) ==> applied('-', s, y) == Outcome::Value(x),
        applied('-', s, y) == Outcome::Value(x) ==> applied('+', x, y) == Outcome::Value(s),
        applied('*', x, 0) == Outcome::Value(0),
        applied('*', x, 1) == Outcome::Value(x),
        applied('*', x, y) == Outcome::Value(s) && y < i64::MAX ==> applied('*', x, (y + 1) as i64) == applied('+', s, x),
{
    assert(x * (y + 1) == x * y + x) by (nonlinear_arith);
    assert(x * 0 == 0) by (nonlinear_arith);
    assert(x * 1 == x) by (nonlinear_arith);
}

/// Quotients round toward zero: there is none by zero; else the divisor goes so often into the dividend, with its sign,
/// and what is left is smaller than the divisor and has the sign of the dividend, if it is not zero.
pub proof fn quotients_round_toward_zero(x: i64, y: i64)
    ensures
        applied('/', x, 0) is Undefined,
        applied('/', x, y) matches Outcome::Value(q) ==> {
            let left = x - q * y;
            &&& y != 0
            &&& if y > 0 { -y < left < y } else { y < left < -y }
            &&& x >= 0 ==> left >= 0
            &&& x <= 0 ==> left <= 0
        },
        y != 0 ==> (applied('/', x, y) is Value || (x == i64::MIN && y == -1)),
        applied_any('%', x, 0) is Undefined,
        y != 0 && applied('/', x, y) is Value ==> (applied_any('%', x, y) matches Outcome::Value(r) && r == x
            - (applied('/', x, y)->Value_0) * y),
{
    if y != 0 {
        let d = if y > 0 { y as int } else { -y };
        let u = if x >= 0 { x as int } else { -x };
        vstd::arithmetic::div_mod::lemma_fundamental_div_mod(u, d);
        let k = u / d;
        assert(0 <= k <= u) by (nonlinear_arith)
            requires
                u >= 0,
                d >= 1,
                k == u / d,
        ;
        if k == u && u > i64::MAX {
            assert(d == 1) by (nonlinear_arith)
                requires
                    u > 0,
                    d >= 1,
                    u == d * u + u % d,
                    u % d >= 0,
            ;
        }
        assert((-d) * (-k) == d * k) by (nonlinear_arith);
        assert(d * (-k) == -(d * k)) by (nonlinear_arith);
        assert((-d) * k == -(d * k)) by (nonlinear_arith);
        let q = quotient(x as int, y as int);
        assert(q == k || q == -k);
        assert(q * y == y * q) by (nonlinear_arith);
    }
}

/// The lesser and the greater of two numbers.
pub proof fn least_and_greatest(x: i64, y: i64)
    ensures
        applied_any('<', x, y) matches Outcome::Value(v) && v <= x && v <= y && (v == x || v == y),
        applied_any('>', x, y) matches Outcome::Value(v) && v >= x && v >= y && (v == x || v == y),
{
}

/// The bitwise operators: a bit is set in the result where it is set in both numbers, in one of them at least, or in
/// exactly one.
pub proof fn bits_are_combined(x: i64, y: i64, i: u64)
    requires
        i < 64,
    ensures
        ({
            let bit = |v: i64| ((v as u64) >> i) & 1 == 1;
            &&& applied_any('&', x, y) matches Outcome::Value(v) && bit(v) == (bit(x) && bit(y))
            &&& applied_any('|', x, y) matches Outcome::Value(v) && bit(v) == (bit(x) || bit(y))
            &&& applied_any('^', x, y) matches Outcome::Value(v) && bit(v) == (bit(x) != bit(y))
        }),
{
    assert((((x & y) as u64) >> i) & 1 == 1 <==> ((x as u64) >> i) & 1 == 1 && ((y as u64) >> i) & 1 == 1) by (bit_vector)
        requires
            i < 64,
    ;
    assert((((x | y) as u64) >> i) & 1 == 1 <==> ((x as u64) >> i) & 1 == 1 || ((y as u64) >> i) & 1 == 1) by (bit_vector)
        requires
            i < 64,
    ;
    assert((((x ^ y) as u64) >> i) & 1 == 1 <==> (((x as u64) >> i) & 1 == 1) != (((y as u64) >> i) & 1 == 1)) by (bit_vector)
        requires
            i < 64,
    ;
}

/// What a generated operator gives is what the evaluator gives; in an experiment a difference must not be negative, and a
/// quotient must leave nothing.
pub proof fn experiments_agree_with_the_evaluator(op: char, x: i64, y: i64)
    requires
        0 <= x,
        0 <= y,
    ensures
        meaning(op, x, y) matches Some(v) ==> 0 <= v && (v <= i64::MAX ==> applied_any(op, x, y) == Outcome::Value(v as i64)),
        meaning(op, x, y) is None ==> (match applied_any(op, x, y) {
            Outcome::Value(v) => (op == '-' && v < 0) || (op == '/' && applied_any('%', x, y) != Outcome::Value(0)),
            _ => true,
        }),
{
    if op == '*' {
        assert(0 <= x * y) by (nonlinear_arith)
            requires
                0 <= x,
                0 <= y,
        ;
    }
    if op == '&' || op == '|' || op == '^' {
        assert(0 <= x && 0 <= y ==> 0 <= x & y && 0 <= x | y && 0 <= x ^ y) by (bit_vector);
    }
    if y != 0 {
        vstd::arithmetic::div_mod::lemma_fundamental_div_mod(x as int, y as int);
        assert(quotient(x as int, y as int) == x as int / y as int);
        assert(0 <= x as int / y as int) by (nonlinear_arith)
            requires
                0 <= x,
                0 < y,
        ;
    }
    if let Some(v) = meaning(op, x, y) {
        if v <= i64::MAX {
            crate::probe_laws::meaning_is_true(op, x, y);
        }
    }
}

} // verus!
