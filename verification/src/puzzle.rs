//! Arithmetic expressions over single digits, evaluated from left to right.

use vstd::prelude::*;
use crate::chars::digit_char;

verus! {

/// The quotient of `a` by `b`, rounded towards zero.
pub open spec fn quotient(a: int, b: int) -> int {
    if a >= 0 {
        a / b
    } else {
        -((-a) / b)
    }
}

/// The result of applying `op` to `left` and `right`, or `None` where `op`
/// is no operator or the division is by zero.
pub open spec fn apply(op: char, left: int, right: int) -> Option<int> {
    if op == '+' {
        Some(left + right)
    } else if op == '-' {
        Some(left - right)
    } else if op == '*' {
        Some(left * right)
    } else if op == '/' && right != 0 {
        Some(quotient(left, right))
    } else {
        None
    }
}

/// The value of the first `n` numbers joined by the first `n - 1` operators,
/// taken from left to right without precedence.
pub open spec fn value_upto(ops: Seq<&char>, numbers: Seq<&u8>, n: int) -> Option<int>
    decreases n,
{
    if n <= 1 {
        Some(*numbers[0] as int)
    } else {
        match value_upto(ops, numbers, n - 1) {
            Some(left) => apply(*ops[n - 2], left, *numbers[n - 1] as int),
            None => None,
        }
    }
}

/// The evaluation can be carried out: there is a first number, an operator
/// wherever one is needed, and every intermediate value fits in 32 bits.
pub open spec fn computable(ops: Seq<&char>, numbers: Seq<&u8>) -> bool {
    &&& numbers.len() > 0
    &&& forall|n: int|
        1 <= n < numbers.len() && (#[trigger] value_upto(ops, numbers, n)) is Some ==> {
            &&& n - 1 < ops.len()
            &&& value_upto(ops, numbers, n + 1) matches Some(v) ==> i32::MIN <= v <= i32::MAX
        }
}

/// Whether the evaluation can be carried out.
pub fn can_compute(op_set: &Vec<&char>, numbers: &Vec<&u8>) -> (r: bool)
    ensures
        r == computable(op_set@, numbers@),
{
    if numbers.len() == 0 {
        return false;
    }
    let mut partial: i32 = *numbers[0] as i32;
    let mut i: usize = 1;
    while i < numbers.len()
        invariant
            1 <= i <= numbers.len(),
            value_upto(op_set@, numbers@, i as int) == Some(partial as int),
            forall|n: int|
                1 <= n < i && (#[trigger] value_upto(op_set@, numbers@, n)) is Some ==> {
                    &&& n - 1 < op_set@.len()
                    &&& value_upto(op_set@, numbers@, n + 1) matches Some(v) ==> i32::MIN <= v
                        <= i32::MAX
                },
        decreases numbers.len() - i,
    {
        if i - 1 >= op_set.len() {
            assert(value_upto(op_set@, numbers@, i as int) is Some);
            return false;
        }
        let op = *op_set[i - 1];
        let right = *numbers[i] as i64;
        let left = partial as i64;
        let ghost next = value_upto(op_set@, numbers@, i as int + 1);
        let wide: i64 = if op == '+' {
            left + right
        } else if op == '-' {
            left - right
        } else if op == '*' {
            assert(-0x8000_0000 * 255 <= left * right <= 0x8000_0000 * 255) by (nonlinear_arith)
                requires
                    -0x8000_0000 <= left < 0x8000_0000,
                    0 <= right <= 255,
            ;
            left * right
        } else if op == '/' && right != 0 {
            (partial / (*numbers[i] as i32)) as i64
        } else {
            proof {
                assert(next is None);
                assert forall|n: int|
                    1 <= n < numbers@.len() && (#[trigger] value_upto(
                        op_set@,
                        numbers@,
                        n,
                    )) is Some implies {
                    &&& n - 1 < op_set@.len()
                    &&& value_upto(op_set@, numbers@, n + 1) matches Some(v) ==> i32::MIN <= v
                        <= i32::MAX
                } by {
                    if n > i {
                        lemma_none_stays(op_set@, numbers@, i as int + 1, n);
                    }
                }
            }
            return true;
        };
        assert(next == Some(wide as int));
        if wide < -0x8000_0000 || wide > 0x7fff_ffff {
            assert(value_upto(op_set@, numbers@, i as int) is Some);
            return false;
        }
        partial = wide as i32;
        i += 1;
    }
    true
}

/// Evaluates the numbers joined by the operators, from left to right.
/// Returns `None` at the first character that is no operator and at the
/// first division by zero.
pub fn compute(op_set: &Vec<&char>, numbers: &Vec<&u8>) -> (r: Option<i32>)
    requires
        computable(op_set@, numbers@),
    ensures
        match r {
            Some(v) => value_upto(op_set@, numbers@, numbers@.len() as int) == Some(v as int),
            None => value_upto(op_set@, numbers@, numbers@.len() as int) is None,
        },
{
    let mut partial: i32 = *numbers[0] as i32;
    let mut i: usize = 1;
    while i < numbers.len()
        invariant
            1 <= i <= numbers.len(),
            computable(op_set@, numbers@),
            value_upto(op_set@, numbers@, i as int) == Some(partial as int),
        decreases numbers.len() - i,
    {
        let ghost next = value_upto(op_set@, numbers@, i as int + 1);
        proof {
            assert(value_upto(op_set@, numbers@, i as int) is Some);
            if next is None {
                lemma_none_stays(op_set@, numbers@, i as int + 1, numbers@.len() as int);
            }
        }
        let op = *op_set[i - 1];
        let right = *numbers[i] as i32;
        if op == '+' {
            partial += right;
        } else if op == '-' {
            partial -= right;
        } else if op == '*' {
            partial *= right;
        } else if op == '/' {
            if right != 0 {
                partial = partial / right;
            } else {
                return None;
            }
        } else {
            return None;
        }
        i += 1;
    }
    Some(partial)
}

/// Once the evaluation has failed, it has failed for every longer prefix.
proof fn lemma_none_stays(ops: Seq<&char>, numbers: Seq<&u8>, n: int, m: int)
    requires
        1 <= n <= m,
        value_upto(ops, numbers, n) is None,
    ensures
        value_upto(ops, numbers, m) is None,
    decreases m - n,
{
    if n < m {
        lemma_none_stays(ops, numbers, n, m - 1);
    }
}

/// The text of the first `n` numbers, each followed by its operator where
/// there is one.
pub open spec fn text_upto(ops: Seq<&char>, numbers: Seq<&u8>, n: int) -> Seq<char>
    decreases n,
{
    if n <= 0 {
        Seq::empty()
    } else {
        let head = text_upto(ops, numbers, n - 1).push(digit_char(*numbers[n - 1] as int));
        if n - 1 < ops.len() {
            head.push(*ops[n - 1])
        } else {
            head
        }
    }
}

/// Writes the expression: each number as one decimal digit, followed by the
/// operator at the same position where there is one.
pub fn op_to_string(op_set: &Vec<&char>, numbers: &Vec<&u8>) -> (s: String)
    requires
        forall|i: int| 0 <= i < numbers@.len() ==> *(#[trigger] numbers@[i]) < 10,
    ensures
        s@ == text_upto(op_set@, numbers@, numbers@.len() as int),
{
    let mut s: String = String::new();
    let mut i: usize = 0;
    while i < numbers.len()
        invariant
            i <= numbers.len(),
            forall|k: int| 0 <= k < numbers@.len() ==> *(#[trigger] numbers@[k]) < 10,
            s@ == text_upto(op_set@, numbers@, i as int),
        decreases numbers.len() - i,
    {
        assert(*numbers@[i as int] < 10);
        s.push(char::from_digit(*numbers[i] as u32, 10).unwrap());
        if i < op_set.len() {
            s.push(*op_set[i]);
        }
        i += 1;
    }
    s
}

/// The texts of the expressions, over every listed order of numbers and
/// every listed choice of operators, whose value is `target`; the first
/// `done` orders of numbers and, of the next one, the first `tried` choices
/// of operators are taken into account.
pub open spec fn solutions_upto(
    perms: Seq<Vec<&u8>>,
    op_sets: Seq<Vec<&char>>,
    target: i32,
    done: int,
    tried: int,
) -> Seq<Seq<char>>
    decreases done, tried,
{
    if tried > 0 {
        let rest = solutions_upto(perms, op_sets, target, done, tried - 1);
        let ops = op_sets[tried - 1]@;
        let numbers = perms[done]@;
        if value_upto(ops, numbers, numbers.len() as int) == Some(target as int) {
            rest.push(text_upto(ops, numbers, numbers.len() as int))
        } else {
            rest
        }
    } else if done > 0 {
        solutions_upto(perms, op_sets, target, done - 1, op_sets.len() as int)
    } else {
        Seq::empty()
    }
}

/// Every choice of operators can be evaluated on every order of the
/// numbers, and every number is a single digit.
pub open spec fn solvable(perms: Seq<Vec<&u8>>, op_sets: Seq<Vec<&char>>) -> bool {
    &&& forall|p: int, o: int|
        0 <= p < perms.len() && 0 <= o < op_sets.len() ==> computable(
            #[trigger] op_sets[o]@,
            #[trigger] perms[p]@,
        )
    &&& forall|p: int, i: int|
        0 <= p < perms.len() && 0 <= i < perms[p]@.len() ==> *(#[trigger] perms[p]@[i]) < 10
}

/// Whether every choice of operators can be evaluated on every order of
/// the numbers, and every number is a single digit.
pub fn can_solve(perms: &Vec<Vec<&u8>>, op_sets: &Vec<Vec<&char>>) -> (r: bool)
    ensures
        r == solvable(perms@, op_sets@),
{
    let mut p: usize = 0;
    while p < perms.len()
        invariant
            p <= perms.len(),
            forall|a: int, o: int|
                0 <= a < p && 0 <= o < op_sets@.len() ==> computable(
                    #[trigger] op_sets@[o]@,
                    #[trigger] perms@[a]@,
                ),
            forall|a: int, i: int|
                0 <= a < p && 0 <= i < perms@[a]@.len() ==> *(#[trigger] perms@[a]@[i]) < 10,
        decreases perms.len() - p,
    {
        let mut i: usize = 0;
        while i < perms[p].len()
            invariant
                i <= perms@[p as int]@.len(),
                p < perms.len(),
                forall|k: int| 0 <= k < i ==> *(#[trigger] perms@[p as int]@[k]) < 10,
            decreases perms@[p as int]@.len() - i,
        {
            if *perms[p][i] >= 10 {
                assert(!(*perms@[p as int]@[i as int] < 10));
                return false;
            }
            i += 1;
        }
        let mut o: usize = 0;
        while o < op_sets.len()
            invariant
                o <= op_sets.len(),
                p < perms.len(),
                forall|k: int|
                    0 <= k < o ==> computable(#[trigger] op_sets@[k]@, perms@[p as int]@),
            decreases op_sets.len() - o,
        {
            if !can_compute(&op_sets[o], &perms[p]) {
                assert(!computable(op_sets@[o as int]@, perms@[p as int]@));
                return false;
            }
            o += 1;
        }
        p += 1;
    }
    true
}

/// Tries every choice of operators on every order of the numbers and
/// returns the text of each expression whose value is `target`.
pub fn solve(perms: &Vec<Vec<&u8>>, op_sets: &Vec<Vec<&char>>, target: i32) -> (found: Vec<String>)
    requires
        solvable(perms@, op_sets@),
    ensures
        Seq::new(found@.len(), |k: int| found@[k]@) == solutions_upto(
            perms@,
            op_sets@,
            target,
            perms@.len() as int,
            0,
        ),
{
    let mut found: Vec<String> = Vec::new();
    let mut p: usize = 0;
    while p < perms.len()
        invariant
            p <= perms.len(),
            solvable(perms@, op_sets@),
            Seq::new(found@.len(), |k: int| found@[k]@) == solutions_upto(
                perms@,
                op_sets@,
                target,
                p as int,
                0,
            ),
        decreases perms.len() - p,
    {
        let mut o: usize = 0;
        while o < op_sets.len()
            invariant
                o <= op_sets.len(),
                p < perms.len(),
                solvable(perms@, op_sets@),
                Seq::new(found@.len(), |k: int| found@[k]@) == solutions_upto(
                    perms@,
                    op_sets@,
                    target,
                    p as int,
                    o as int,
                ),
            decreases op_sets.len() - o,
        {
            assert(computable(op_sets@[o as int]@, perms@[p as int]@));
            assert forall|i: int| 0 <= i < perms@[p as int]@.len() implies *(
            #[trigger] perms@[p as int]@[i]) < 10 by {}
            let ghost before = Seq::new(found@.len(), |k: int| found@[k]@);
            if compute(&op_sets[o], &perms[p]) == Some(target) {
                let text = op_to_string(&op_sets[o], &perms[p]);
                found.push(text);
                assert(Seq::new(found@.len(), |k: int| found@[k]@) =~= before.push(text@));
            }
            o += 1;
        }
        p += 1;
    }
    found
}

} // verus!
