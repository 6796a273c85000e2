use vstd::prelude::*;
use crate::errors::STRUCTURAL_ERROR;

verus! {

broadcast use vstd::string::axiom_spec_iter;

/// One compiled operation. Counts are run lengths; loop bounds carry the index
/// of their partner in the compiled sequence.
#[derive(Debug, Clone, Copy, PartialEq, Eq, Structural)]
pub enum Op {
    Start,
    Left(usize),
    Right(usize),
    Add(usize),
    Substract(usize),
    In,
    Out,
    Forward(usize),
    Back(usize),
    End,
}

/// The operation that one source character stands for, if any.
pub open spec fn unit_op(c: char) -> Option<Op> {
    if c == '>' {
        Some(Op::Right(1))
    } else if c == '<' {
        Some(Op::Left(1))
    } else if c == '+' {
        Some(Op::Add(1))
    } else if c == '-' {
        Some(Op::Substract(1))
    } else if c == '.' {
        Some(Op::Out)
    } else if c == ',' {
        Some(Op::In)
    } else if c == '[' {
        Some(Op::Forward(0))
    } else if c == ']' {
        Some(Op::Back(0))
    } else {
        None
    }
}

/// The single entry that `last` and `op` fold into, when both are moves or
/// arithmetic of the same kind.
pub open spec fn merged(last: Op, op: Op) -> Option<Op> {
    match (last, op) {
        (Op::Right(n), Op::Right(_)) => Some(Op::Right((n + 1) as usize)),
        (Op::Left(n), Op::Left(_)) => Some(Op::Left((n + 1) as usize)),
        (Op::Add(n), Op::Add(_)) => Some(Op::Add((n + 1) as usize)),
        (Op::Substract(n), Op::Substract(_)) => Some(Op::Substract((n + 1) as usize)),
        _ => None,
    }
}

/// Appends `op` to a folded sequence, merging it into the last entry when both
/// are moves or arithmetic of the same kind.
pub open spec fn fold_op(acc: Seq<Op>, op: Op) -> Seq<Op> {
    match merged(acc.last(), op) {
        Some(x) => acc.update(acc.len() - 1, x),
        None => acc.push(op),
    }
}

/// The run-length folded operations of a source text, after the `Start` sentinel.
pub open spec fn folded(s: Seq<char>) -> Seq<Op>
    decreases s.len(),
{
    if s.len() == 0 {
        seq![Op::Start]
    } else {
        let acc = folded(s.drop_last());
        match unit_op(s.last()) {
            Some(op) => fold_op(acc, op),
            None => acc,
        }
    }
}

/// The compiled sequence of a source text before loop bounds are resolved.
pub open spec fn skeleton(s: Seq<char>) -> Seq<Op> {
    folded(s).push(Op::End)
}

/// An operation with its loop target cleared.
pub open spec fn erase(op: Op) -> Op {
    match op {
        Op::Forward(_) => Op::Forward(0),
        Op::Back(_) => Op::Back(0),
        _ => op,
    }
}

/// How `op` changes the loop nesting depth.
pub open spec fn depth_delta(op: Op) -> int {
    match op {
        Op::Forward(_) => 1,
        Op::Back(_) => -1,
        _ => 0,
    }
}

/// Number of open loops before position `i` of `ops`.
pub open spec fn depth(ops: Seq<Op>, i: int) -> int
    decreases i,
{
    if i <= 0 {
        0
    } else {
        depth(ops, i - 1) + depth_delta(ops[i - 1])
    }
}

/// Every loop bound of `ops` has a partner: no prefix closes more loops than it
/// opens, and the whole sequence closes all that it opens.
pub open spec fn balanced(ops: Seq<Op>) -> bool {
    &&& forall|i: int| 0 <= i <= ops.len() ==> #[trigger] depth(ops, i) >= 0
    &&& depth(ops, ops.len() as int) == 0
}

/// The loop start at `i` and the loop end at `j` are partners: `j` is the
/// first position after `i` where the depth falls back to that before `i`.
pub open spec fn partners(ops: Seq<Op>, i: int, j: int) -> bool {
    &&& 0 <= i < j < ops.len()
    &&& ops[i] is Forward
    &&& ops[j] is Back
    &&& depth(ops, j) == depth(ops, i) + 1
    &&& forall|k: int| i < k <= j ==> #[trigger] depth(ops, k) > depth(ops, i)
}

/// `ops` is the skeleton `skel` with every loop bound pointing at its partner.
pub open spec fn resolves(skel: Seq<Op>, ops: Seq<Op>) -> bool {
    &&& ops.len() == skel.len()
    &&& forall|i: int| 0 <= i < ops.len() ==> #[trigger] erase(ops[i]) == skel[i]
    &&& forall|i: int|
        0 <= i < ops.len() && (#[trigger] ops[i]) is Forward ==> {
            let j = ops[i]->Forward_0 as int;
            &&& partners(skel, i, j)
            &&& ops[j] == Op::Back(i as usize)
        }
    &&& forall|j: int|
        0 <= j < ops.len() && (#[trigger] ops[j]) is Back ==> {
            let i = ops[j]->Back_0 as int;
            &&& partners(skel, i, j)
            &&& ops[i] == Op::Forward(j as usize)
        }
}

/// `ops` is what the source text `s` compiles to.
pub open spec fn compiles_to(s: Seq<char>, ops: Seq<Op>) -> bool {
    resolves(skeleton(s), ops)
}

/// The run length that an operation carries, or zero.
pub open spec fn count_of(op: Op) -> int {
    match op {
        Op::Left(n) => n as int,
        Op::Right(n) => n as int,
        Op::Add(n) => n as int,
        Op::Substract(n) => n as int,
        _ => 0,
    }
}

/// No run length in `folded(s)` exceeds the length of `s`, and only its first
/// entry is `Start`.
pub proof fn lemma_folded_shape(s: Seq<char>)
    ensures
        folded(s).len() >= 1,
        folded(s)[0] == Op::Start,
        forall|i: int| 0 <= i < folded(s).len() ==> count_of(#[trigger] folded(s)[i]) <= s.len(),
        forall|i: int| 1 <= i < folded(s).len() ==> !(#[trigger] folded(s)[i] is Start) && !(folded(s)[i] is End),
        forall|i: int| 0 <= i < folded(s).len() ==> erase(#[trigger] folded(s)[i]) == folded(s)[i],
    decreases s.len(),
{
    if s.len() > 0 {
        lemma_folded_shape(s.drop_last());
    }
}

/// How a source character changes the loop nesting depth.
pub open spec fn bracket_delta(c: char) -> int {
    if c == '[' {
        1
    } else if c == ']' {
        -1
    } else {
        0
    }
}

/// Number of `[` minus number of `]` in a source text.
pub open spec fn text_depth(s: Seq<char>) -> int
    decreases s.len(),
{
    if s.len() == 0 {
        0
    } else {
        text_depth(s.drop_last()) + bracket_delta(s.last())
    }
}

/// Every `]` of the source text closes an earlier `[`, and every `[` is closed.
pub open spec fn brackets_balanced(s: Seq<char>) -> bool {
    &&& forall|k: int| 0 <= k <= s.len() ==> #[trigger] text_depth(s.take(k)) >= 0
    &&& text_depth(s) == 0
}

proof fn lemma_depth_agree(a: Seq<Op>, b: Seq<Op>, n: int)
    requires
        0 <= n <= a.len(),
        n <= b.len(),
        forall|k: int| 0 <= k < n ==> depth_delta(#[trigger] a[k]) == depth_delta(b[k]),
    ensures
        forall|i: int| 0 <= i <= n ==> #[trigger] depth(a, i) == depth(b, i),
    decreases n,
{
    if n > 0 {
        lemma_depth_agree(a, b, n - 1);
        assert(depth_delta(a[n - 1]) == depth_delta(b[n - 1]));
        assert(depth(a, n - 1) == depth(b, n - 1));
        assert(depth(a, n) == depth(a, n - 1) + depth_delta(a[n - 1]));
        assert(depth(b, n) == depth(b, n - 1) + depth_delta(b[n - 1]));
    }
}

proof fn lemma_folded_depths(s: Seq<char>)
    ensures
        depth(folded(s), folded(s).len() as int) == text_depth(s),
        (forall|i: int| 0 <= i <= folded(s).len() ==> #[trigger] depth(folded(s), i) >= 0) <==> (
        forall|k: int| 0 <= k <= s.len() ==> #[trigger] text_depth(s.take(k)) >= 0),
    decreases s.len(),
{
    let b = folded(s);
    if s.len() == 0 {
        assert(b == seq![Op::Start]);
        assert(depth(b, 0) == 0);
        assert(depth(b, 1) == 0);
        assert(s.take(0) =~= s);
        assert(text_depth(s) == 0);
    } else {
        let p = s.drop_last();
        let c = s.last();
        lemma_folded_depths(p);
        lemma_folded_shape(p);
        let a = folded(p);
        assert forall|k: int| 0 <= k <= p.len() implies #[trigger] s.take(k) == p.take(k) by {
            assert(s.take(k) =~= p.take(k));
        }
        assert(s.take(s.len() as int) =~= s);
        assert(p.take(p.len() as int) =~= p);
        assert(text_depth(s) == text_depth(p) + bracket_delta(c));
        let grew = unit_op(c) is Some && merged(a.last(), unit_op(c)->Some_0) is None;
        if !grew {
            assert(bracket_delta(c) == 0);
            if unit_op(c) is Some {
                let x = merged(a.last(), unit_op(c)->Some_0)->Some_0;
                assert(b == a.update(a.len() - 1, x));
            } else {
                assert(b == a);
            }
            lemma_depth_agree(a, b, a.len() as int);
            assert(b.len() == a.len());
            assert(depth(b, b.len() as int) == depth(a, a.len() as int));
            assert(depth(b, b.len() as int) == text_depth(s));
        } else {
            let op = unit_op(c)->Some_0;
            assert(b == a.push(op));
            lemma_depth_agree(a, b, a.len() as int);
            assert(depth(b, b.len() as int) == depth(a, a.len() as int) + bracket_delta(c));
        }
        if forall|i: int| 0 <= i <= b.len() ==> #[trigger] depth(b, i) >= 0 {
            assert forall|i: int| 0 <= i <= a.len() implies #[trigger] depth(a, i) >= 0 by {
                assert(depth(b, i) >= 0);
            }
            assert forall|k: int| 0 <= k <= s.len() implies #[trigger] text_depth(s.take(k)) >= 0 by {
                if k <= p.len() {
                    assert(text_depth(p.take(k)) >= 0);
                } else if grew {
                    assert(depth(b, b.len() as int) >= 0);
                } else {
                    assert(text_depth(p.take(p.len() as int)) >= 0);
                }
            }
        }
        if forall|k: int| 0 <= k <= s.len() ==> #[trigger] text_depth(s.take(k)) >= 0 {
            assert forall|k: int| 0 <= k <= p.len() implies #[trigger] text_depth(p.take(k)) >= 0 by {
                assert(text_depth(s.take(k)) >= 0);
            }
            assert forall|i: int| 0 <= i <= b.len() implies #[trigger] depth(b, i) >= 0 by {
                if i <= a.len() {
                    assert(depth(a, i) >= 0);
                } else {
                    assert(text_depth(s.take(s.len() as int)) >= 0);
                }
            }
        }
    }
}

/// The compiled skeleton of a text balances exactly when the text's brackets do.
pub proof fn lemma_skeleton_balanced(s: Seq<char>)
    ensures
        balanced(skeleton(s)) <==> brackets_balanced(s),
{
    lemma_folded_depths(s);
    let a = folded(s);
    let b = skeleton(s);
    lemma_depth_agree(a, b, a.len() as int);
    assert(depth(b, b.len() as int) == depth(a, a.len() as int));
    if balanced(b) {
        assert forall|i: int| 0 <= i <= a.len() implies #[trigger] depth(a, i) >= 0 by {
            assert(depth(b, i) >= 0);
        }
    }
    if brackets_balanced(s) {
        assert forall|i: int| 0 <= i <= b.len() implies #[trigger] depth(b, i) >= 0 by {
            if i <= a.len() {
                assert(depth(a, i) >= 0);
            } else {
                assert(depth(a, a.len() as int) >= 0);
            }
        }
    }
}

fn op_of_char(c: char) -> (r: Option<Op>)
    ensures
        r == unit_op(c),
{
    match c {
        '>' => Some(Op::Right(1)),
        '<' => Some(Op::Left(1)),
        '+' => Some(Op::Add(1)),
        '-' => Some(Op::Substract(1)),
        '.' => Some(Op::Out),
        ',' => Some(Op::In),
        '[' => Some(Op::Forward(0)),
        ']' => Some(Op::Back(0)),
        _ => None,
    }
}

/// Folds `op` into `acc` as `fold_op` says.
fn push_folded(acc: &mut Vec<Op>, op: Op)
    requires
        old(acc).len() >= 1,
        forall|i: int| 0 <= i < old(acc).len() ==> count_of(#[trigger] old(acc)[i]) < usize::MAX,
    ensures
        final(acc)@ == fold_op(old(acc)@, op),
{
    let k = acc.len() - 1;
    let last = acc[k];
    match (last, op) {
        (Op::Right(n), Op::Right(_)) => { acc.set(k, Op::Right(n + 1)); },
        (Op::Left(n), Op::Left(_)) => { acc.set(k, Op::Left(n + 1)); },
        (Op::Add(n), Op::Add(_)) => { acc.set(k, Op::Add(n + 1)); },
        (Op::Substract(n), Op::Substract(_)) => { acc.set(k, Op::Substract(n + 1)); },
        _ => { acc.push(op); },
    }
}

/// Compiles source text: keeps the eight instruction characters, folds runs of
/// moves and arithmetic, adds the `Start` and `End` sentinels and points every
/// loop bound at its partner. Fails with the structural error exactly when the
/// brackets do not pair up.
pub fn parse_bftext(text: &String) -> (r: Result<Vec<Op>, i16>)
    requires
        text@.len() < usize::MAX,
    ensures
        r is Ok <==> brackets_balanced(text@),
        r matches Ok(ops) ==> compiles_to(text@, ops@),
        r matches Err(e) ==> e == STRUCTURAL_ERROR,
{
    let mut ops: Vec<Op> = vec![Op::Start];
    let ghost s = text@;
    proof {
        lemma_skeleton_balanced(s);
        assert(s.take(0) =~= Seq::<char>::empty());
        assert(ops@ =~= folded(s.take(0)));
    }
    for c in it: text.as_str().chars()
        invariant
            it.seq() == s,
            ops@ == folded(s.take(it.index() as int)),
            s.len() < usize::MAX,
    {
        proof {
            lemma_folded_shape(s.take(it.index() as int));
            assert(s.take(it.index() + 1).drop_last() =~= s.take(it.index() as int));
        }
        match op_of_char(c) {
            Some(op) => push_folded(&mut ops, op),
            None => {},
        }
    }
    proof {
        assert(s.take(s.len() as int) =~= s);
        lemma_folded_shape(s);
    }
    ops.push(Op::End);
    let ghost skel = ops@;
    assert(skel == skeleton(s));
    assert forall|k: int| 0 <= k < skel.len() implies #[trigger] erase(skel[k]) == skel[k] by {
        if k < skel.len() - 1 {
            assert(skel[k] == folded(s)[k]);
        }
    }
    let n = ops.len();
    let mut stack: Vec<usize> = Vec::new();
    for i in 0..n
        invariant
            n == skel.len(),
            skel == skeleton(text@),
            balanced(skel) <==> brackets_balanced(text@),
            ops@.len() == n,
            forall|k: int| 0 <= k < n ==> #[trigger] erase(ops@[k]) == skel[k],
            forall|k: int| 0 <= k < n ==> #[trigger] erase(skel[k]) == skel[k],
            forall|k: int| i <= k < n ==> #[trigger] ops@[k] == skel[k],
            forall|k: int| 0 <= k <= i ==> #[trigger] depth(skel, k) >= 0,
            stack@.len() == depth(skel, i as int),
            forall|m: int| 0 <= m < stack@.len() ==> {
                &&& #[trigger] stack@[m] < i
                &&& skel[stack@[m] as int] is Forward
                &&& depth(skel, stack@[m] as int) == m
                &&& forall|k: int| stack@[m] < k <= i ==> #[trigger] depth(skel, k) > m
            },
            forall|m1: int, m2: int| 0 <= m1 < m2 < stack@.len() ==> stack@[m1] < stack@[m2],
            forall|k: int| 0 <= k < i && (#[trigger] skel[k]) is Back ==> {
                let t = ops@[k]->Back_0 as int;
                &&& ops@[k] is Back
                &&& partners(skel, t, k)
                &&& ops@[t] == Op::Forward(k as usize)
            },
            forall|k: int| 0 <= k < i && (#[trigger] skel[k]) is Forward ==> {
                let t = ops@[k]->Forward_0 as int;
                ||| exists|m: int| 0 <= m < stack@.len() && stack@[m] == k
                ||| {
                    &&& ops@[k] is Forward
                    &&& t < i
                    &&& partners(skel, k, t)
                    &&& ops@[t] == Op::Back(k as usize)
                }
            },
    {
        assert(depth(skel, i + 1) == depth(skel, i as int) + depth_delta(skel[i as int]));
        let ghost st0 = stack@;
        let ghost ops0 = ops@;
        match ops[i] {
            Op::Forward(_) => {
                stack.push(i);
                proof {
                    assert forall|k: int| 0 <= k < i + 1 && (#[trigger] skel[k]) is Forward implies {
                        let t = ops@[k]->Forward_0 as int;
                        ||| exists|m: int| 0 <= m < stack@.len() && stack@[m] == k
                        ||| {
                            &&& ops@[k] is Forward
                            &&& t < i + 1
                            &&& partners(skel, k, t)
                            &&& ops@[t] == Op::Back(k as usize)
                        }
                    } by {
                        if k == i {
                            assert(stack@[st0.len() as int] == k);
                        } else if exists|m: int| 0 <= m < st0.len() && st0[m] == k {
                            let m = choose|m: int| 0 <= m < st0.len() && st0[m] == k;
                            assert(stack@[m] == k);
                        }
                    }
                }
            },
            Op::Back(_) => {
                match stack.pop() {
                    Some(index) => {
                        ops.set(i, Op::Back(index));
                        ops.set(index, Op::Forward(i));
                        proof {
                            let last = st0.len() - 1;
                            assert(st0[last] == index);
                            assert(erase(skel[index as int]) == skel[index as int]);
                            assert(erase(skel[i as int]) == skel[i as int]);
                            assert(partners(skel, index as int, i as int));
                            assert forall|k: int| 0 <= k < i + 1 && (#[trigger] skel[k]) is Forward implies {
                                let t = ops@[k]->Forward_0 as int;
                                ||| exists|m: int| 0 <= m < stack@.len() && stack@[m] == k
                                ||| {
                                    &&& ops@[k] is Forward
                                    &&& t < i + 1
                                    &&& partners(skel, k, t)
                                    &&& ops@[t] == Op::Back(k as usize)
                                }
                            } by {
                                if k == index {
                                } else if exists|m: int| 0 <= m < st0.len() && st0[m] == k {
                                    let m = choose|m: int| 0 <= m < st0.len() && st0[m] == k;
                                    assert(m != last);
                                    assert(stack@[m] == k);
                                } else {
                                    let t = ops0[k]->Forward_0 as int;
                                    assert(skel[t] is Back);
                                }
                            }
                            assert forall|k: int| 0 <= k < i + 1 && (#[trigger] skel[k]) is Back implies {
                                let t = ops@[k]->Back_0 as int;
                                &&& ops@[k] is Back
                                &&& partners(skel, t, k)
                                &&& ops@[t] == Op::Forward(k as usize)
                            } by {
                                if k < i {
                                    let t = ops0[k]->Back_0 as int;
                                    assert(skel[t] is Forward);
                                    if t == index {
                                        // the loop start at `index` was still open
                                        assert(st0[last] == index);
                                        assert(ops0[t] == Op::Forward(k as usize));
                                        assert(partners(skel, t, k));
                                        assert(depth(skel, k) == depth(skel, t) + 1);
                                        assert(depth(skel, k + 1) == depth(skel, t));
                                        assert(depth(skel, k + 1) > last);
                                    }
                                }
                            }
                        }
                    },
                    None => {
                        assert(depth(skel, i + 1) < 0);
                        assert(!balanced(skel));
                        return Err(STRUCTURAL_ERROR);
                    },
                }
            },
            _ => {},
        }
    }
    if stack.len() > 0 {
        return Err(STRUCTURAL_ERROR);
    }
    proof {
        assert forall|k: int| 0 <= k < n && (#[trigger] ops@[k]) is Forward implies {
            let j = ops@[k]->Forward_0 as int;
            &&& partners(skel, k, j)
            &&& ops@[j] == Op::Back(k as usize)
        } by {
            assert(erase(ops@[k]) == skel[k]);
        }
        assert forall|k: int| 0 <= k < n && (#[trigger] ops@[k]) is Back implies {
            let j = ops@[k]->Back_0 as int;
            &&& partners(skel, j, k)
            &&& ops@[j] == Op::Forward(k as usize)
        } by {
            assert(erase(ops@[k]) == skel[k]);
        }
    }
    Ok(ops)
}

} // verus!
