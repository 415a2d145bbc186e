//! Bracket balance, and what the parser does in terms of it.

use vstd::prelude::*;
use crate::lexer::OperCharac;
use crate::parser::{atom, find_close, join, parse, parse_range, Node};

verus! {

/// Change of nesting depth across one opcode.
pub open spec fn delta(op: OperCharac) -> int {
    match op {
        OperCharac::CrochetOuvert => 1,
        OperCharac::CrochetFerme => -1,
        _ => 0,
    }
}

/// Nesting depth gained across `ops[from..to]`: the number of `[` less the
/// number of `]`.
pub open spec fn net(ops: Seq<OperCharac>, from: int, to: int) -> int
    decreases to - from,
{
    if to <= from {
        0
    } else {
        net(ops, from, to - 1) + delta(ops[to - 1])
    }
}

/// The balance of a range is the sum of the balances of its two parts.
pub proof fn lemma_net_split(ops: Seq<OperCharac>, from: int, mid: int, to: int)
    requires
        from <= mid <= to,
    ensures
        net(ops, from, to) == net(ops, from, mid) + net(ops, mid, to),
    decreases to - mid,
{
    if mid < to {
        lemma_net_split(ops, from, mid, to - 1);
    }
}

/// The balance of a range is the step of its first opcode and the balance
/// of what follows it.
proof fn lemma_net_first(ops: Seq<OperCharac>, from: int, to: int)
    requires
        from < to,
    ensures
        net(ops, from, from) == 0,
        net(ops, from, from + 1) == delta(ops[from]),
        forall|k: int|
            from < k <= to ==> #[trigger] net(ops, from, k) == delta(ops[from]) + net(
                ops,
                from + 1,
                k,
            ),
{
    assert(net(ops, from, from) == 0);
    assert forall|k: int| from < k <= to implies #[trigger] net(ops, from, k) == delta(ops[from])
        + net(ops, from + 1, k) by {
        lemma_net_split(ops, from, from + 1, k);
    }
}

/// Behind a part with balance 0, the balance counts from the end of that part.
proof fn lemma_net_behind(ops: Seq<OperCharac>, from: int, mid: int, to: int)
    requires
        from <= mid <= to,
        net(ops, from, mid) == 0,
    ensures
        forall|k: int| mid <= k <= to ==> #[trigger] net(ops, from, k) == net(ops, mid, k),
{
    assert forall|k: int| mid <= k <= to implies #[trigger] net(ops, from, k) == net(
        ops,
        mid,
        k,
    ) by {
        lemma_net_split(ops, from, mid, k);
    }
}

/// The bracket that `find_close` reports is the first `]` at which the depth
/// falls to that of the loop's start; it reports none exactly when the depth
/// never falls that far.
pub proof fn lemma_find_close_depth(ops: Seq<OperCharac>, from: int, to: int, depth: nat)
    requires
        0 <= from <= to <= ops.len(),
        depth >= 1,
    ensures
        match find_close(ops, from, to, depth) {
            Some(close) => {
                &&& from <= close < to
                &&& ops[close] == OperCharac::CrochetFerme
                &&& depth + net(ops, from, close) == 1
                &&& forall|k: int| from <= k <= close ==> depth + #[trigger] net(ops, from, k) >= 1
            },
            None => forall|k: int| from <= k <= to ==> depth + #[trigger] net(ops, from, k) >= 1,
        },
    decreases to - from,
{
    if from < to {
        lemma_net_first(ops, from, to);
        if !(ops[from] == OperCharac::CrochetFerme && depth == 1) {
            lemma_find_close_depth(ops, from + 1, to, (depth + delta(ops[from])) as nat);
        }
    }
}

/// A range parses without error exactly when none of its prefixes holds
/// more `]` than `[`. Otherwise the error is at the first `]` that is met
/// at depth 0. The body of a loop, in particular, never fails to parse.
pub proof fn lemma_parse_range_balance(ops: Seq<OperCharac>, lo: int, hi: int)
    requires
        0 <= lo <= hi <= ops.len(),
    ensures
        match parse_range(ops, lo, hi) {
            Ok(_) => forall|k: int| lo <= k <= hi ==> #[trigger] net(ops, lo, k) >= 0,
            Err(position) => {
                &&& lo <= position < hi
                &&& ops[position] == OperCharac::CrochetFerme
                &&& net(ops, lo, position) == 0
                &&& forall|k: int| lo <= k <= position ==> #[trigger] net(ops, lo, k) >= 0
            },
        },
    decreases hi - lo,
{
    if lo < hi {
        lemma_net_first(ops, lo, hi);
        if ops[lo] == OperCharac::CrochetOuvert {
            lemma_find_close_depth(ops, lo + 1, hi, 1);
            if let Some(close) = find_close(ops, lo + 1, hi, 1) {
                // The body does not fail: inside it the depth stays above
                // that of the loop's start.
                lemma_parse_range_balance(ops, lo + 1, close);
                if let Err(position) = parse_range(ops, lo + 1, close) {
                    assert(net(ops, lo + 1, position + 1) == net(ops, lo + 1, position) - 1);
                }
                lemma_parse_range_balance(ops, close + 1, hi);
                lemma_net_behind(ops, lo, close + 1, hi);
            }
        } else if ops[lo] != OperCharac::CrochetFerme {
            lemma_parse_range_balance(ops, lo + 1, hi);
        }
    }
}

/// `position` holds the first `]` that is met while no loop is open.
pub open spec fn first_unmatched_close(ops: Seq<OperCharac>, position: int) -> bool {
    &&& 0 <= position < ops.len()
    &&& ops[position] == OperCharac::CrochetFerme
    &&& net(ops, 0, position) == 0
    &&& forall|k: int| 0 <= k <= position ==> #[trigger] net(ops, 0, k) >= 0
}

/// Parsing fails at `position` if and only if the first `]` met while no
/// loop is open stands there; it succeeds if and only if there is no such `]`.
pub proof fn lemma_parse_error(ops: Seq<OperCharac>, position: int)
    ensures
        parse(ops) == Err::<Seq<Node>, int>(position) <==> first_unmatched_close(ops, position),
        parse(ops) is Ok ==> !first_unmatched_close(ops, position),
{
    lemma_parse_range_balance(ops, 0, ops.len() as int);
    if first_unmatched_close(ops, position) {
        assert(net(ops, 0, position + 1) == -1);
        if let Err(other) = parse(ops) {
            assert(net(ops, 0, other + 1) == -1);
        }
    }
}

/// In `ops[lo..hi]` every `[` has its `]` and no `]` comes without a `[`.
pub open spec fn balanced(ops: Seq<OperCharac>, lo: int, hi: int) -> bool {
    &&& net(ops, lo, hi) == 0
    &&& forall|k: int| lo <= k <= hi ==> #[trigger] net(ops, lo, k) >= 0
}

/// The opcodes that an instruction sequence is written as.
pub open spec fn unparse(nodes: Seq<Node>) -> Seq<OperCharac>
    decreases nodes,
{
    if nodes.len() == 0 {
        Seq::empty()
    } else {
        unparse(nodes.drop_last()) + unparse_node(nodes.last())
    }
}

/// The opcodes that one instruction is written as: a loop is its body
/// between brackets, any other instruction is its own opcode.
pub open spec fn unparse_node(node: Node) -> Seq<OperCharac>
    decreases node,
{
    match node {
        Node::Plus => seq![OperCharac::Plus],
        Node::Moins => seq![OperCharac::Moins],
        Node::Droite => seq![OperCharac::ChevronDroit],
        Node::Gauche => seq![OperCharac::ChevronGauche],
        Node::Afficher => seq![OperCharac::Point],
        Node::Lire => seq![OperCharac::Virgule],
        Node::Boucle(body) => seq![OperCharac::CrochetOuvert] + unparse(body)
            + seq![OperCharac::CrochetFerme],
    }
}

/// Writing out two sequences in a row is writing out their concatenation.
pub proof fn lemma_unparse_append(first: Seq<Node>, second: Seq<Node>)
    ensures
        unparse(first + second) == unparse(first) + unparse(second),
    decreases second.len(),
{
    if second.len() > 0 {
        lemma_unparse_append(first, second.drop_last());
        assert((first + second).drop_last() =~= first + second.drop_last());
    }
}

proof fn lemma_unparse_one(node: Node)
    ensures
        unparse(seq![node]) == unparse_node(node),
{
    assert(seq![node].drop_last() =~= Seq::<Node>::empty());
    assert(unparse(Seq::<Node>::empty()) =~= Seq::<OperCharac>::empty());
}

/// A closing bracket found in a range is found in every longer range too.
pub proof fn lemma_find_close_extend(ops: Seq<OperCharac>, from: int, to: int, end: int, depth: nat)
    requires
        to <= end,
        find_close(ops, from, to, depth) is Some,
    ensures
        find_close(ops, from, end, depth) == find_close(ops, from, to, depth),
    decreases to - from,
{
    if from < to {
        if ops[from] == OperCharac::CrochetOuvert {
            lemma_find_close_extend(ops, from + 1, to, end, depth + 1);
        } else if ops[from] == OperCharac::CrochetFerme {
            if depth > 1 {
                lemma_find_close_extend(ops, from + 1, to, end, (depth - 1) as nat);
            }
        } else {
            lemma_find_close_extend(ops, from + 1, to, end, depth);
        }
    }
}

/// In a balanced range that begins with `[`, that bracket is closed within
/// the range, what stands between the two brackets is balanced, and so is
/// what stands behind them.
proof fn lemma_balanced_loop(ops: Seq<OperCharac>, lo: int, hi: int)
    requires
        0 <= lo < hi <= ops.len(),
        balanced(ops, lo, hi),
        ops[lo] == OperCharac::CrochetOuvert,
    ensures
        find_close(ops, lo + 1, hi, 1) matches Some(close) && lo < close < hi && ops[close]
            == OperCharac::CrochetFerme && balanced(ops, lo + 1, close) && balanced(
            ops,
            close + 1,
            hi,
        ),
{
    lemma_net_first(ops, lo, hi);
    lemma_find_close_depth(ops, lo + 1, hi, 1);
    let close = find_close(ops, lo + 1, hi, 1)->0;
    lemma_net_behind(ops, lo, close + 1, hi);
    assert forall|k: int| close + 1 <= k <= hi implies #[trigger] net(ops, close + 1, k) >= 0 by {
        assert(net(ops, lo, k) >= 0);
    }
}

/// In a balanced range that begins with an atomic opcode, what follows that
/// opcode is balanced.
proof fn lemma_balanced_atom(ops: Seq<OperCharac>, lo: int, hi: int)
    requires
        0 <= lo < hi <= ops.len(),
        balanced(ops, lo, hi),
        ops[lo] != OperCharac::CrochetOuvert,
    ensures
        atom(ops[lo]) is Some,
        balanced(ops, lo + 1, hi),
{
    lemma_net_first(ops, lo, hi);
    assert forall|k: int| lo + 1 <= k <= hi implies #[trigger] net(ops, lo + 1, k) >= 0 by {
        assert(net(ops, lo, k) >= 0);
    }
}

/// What a balanced range parses to, written out again, is that range.
pub proof fn lemma_parse_unparse(ops: Seq<OperCharac>, lo: int, hi: int)
    requires
        0 <= lo <= hi <= ops.len(),
        balanced(ops, lo, hi),
    ensures
        parse_range(ops, lo, hi) matches Ok(nodes) && unparse(nodes) == ops.subrange(lo, hi),
    decreases hi - lo,
{
    if lo < hi {
        if ops[lo] == OperCharac::CrochetOuvert {
            lemma_balanced_loop(ops, lo, hi);
            let close = find_close(ops, lo + 1, hi, 1)->0;
            lemma_parse_unparse(ops, lo + 1, close);
            lemma_parse_unparse(ops, close + 1, hi);
            let body = parse_range(ops, lo + 1, close)->Ok_0;
            let rest = parse_range(ops, close + 1, hi)->Ok_0;
            lemma_unparse_append(seq![Node::Boucle(body)], rest);
            lemma_unparse_one(Node::Boucle(body));
            assert(unparse_node(Node::Boucle(body)) + ops.subrange(close + 1, hi) =~= ops.subrange(
                lo,
                hi,
            ));
        } else {
            lemma_balanced_atom(ops, lo, hi);
            lemma_parse_unparse(ops, lo + 1, hi);
            let leaf = atom(ops[lo])->0;
            let rest = parse_range(ops, lo + 1, hi)->Ok_0;
            lemma_unparse_append(seq![leaf], rest);
            lemma_unparse_one(leaf);
            assert(unparse_node(leaf) + ops.subrange(lo + 1, hi) =~= ops.subrange(lo, hi));
        }
    } else {
        assert(ops.subrange(lo, hi) =~= Seq::<OperCharac>::empty());
    }
}

/// A range that begins with a balanced part parses to what that part
/// parses to, followed by what the rest parses to.
pub proof fn lemma_parse_split(ops: Seq<OperCharac>, lo: int, mid: int, hi: int)
    requires
        0 <= lo <= mid <= hi <= ops.len(),
        balanced(ops, lo, mid),
    ensures
        parse_range(ops, lo, mid) matches Ok(nodes) && parse_range(ops, lo, hi) == join(
            nodes,
            parse_range(ops, mid, hi),
        ),
    decreases mid - lo,
{
    let behind = parse_range(ops, mid, hi);
    if lo < mid {
        if ops[lo] == OperCharac::CrochetOuvert {
            lemma_balanced_loop(ops, lo, mid);
            let close = find_close(ops, lo + 1, mid, 1)->0;
            lemma_find_close_extend(ops, lo + 1, mid, hi, 1);
            lemma_parse_unparse(ops, lo + 1, close);
            lemma_parse_split(ops, close + 1, mid, hi);
            let body = parse_range(ops, lo + 1, close)->Ok_0;
            let inner = parse_range(ops, close + 1, mid)->Ok_0;
            if let Ok(nodes) = behind {
                assert(seq![Node::Boucle(body)] + (inner + nodes) =~= (seq![Node::Boucle(body)]
                    + inner) + nodes);
            }
        } else {
            lemma_balanced_atom(ops, lo, mid);
            lemma_parse_split(ops, lo + 1, mid, hi);
            let leaf = atom(ops[lo])->0;
            let inner = parse_range(ops, lo + 1, mid)->Ok_0;
            if let Ok(nodes) = behind {
                assert(seq![leaf] + (inner + nodes) =~= (seq![leaf] + inner) + nodes);
            }
        }
    }
}

/// `position` holds a `[` at depth 0 that is never closed.
pub open spec fn first_unclosed_open(ops: Seq<OperCharac>, position: int) -> bool {
    &&& 0 <= position < ops.len()
    &&& ops[position] == OperCharac::CrochetOuvert
    &&& balanced(ops, 0, position)
    &&& forall|k: int| position < k <= ops.len() ==> #[trigger] net(ops, position, k) >= 1
}

/// A sequence whose brackets are balanced parses to a tree that, written
/// out again, is the sequence: parsing loses and adds nothing.
pub proof fn lemma_parse_balanced(ops: Seq<OperCharac>)
    requires
        balanced(ops, 0, ops.len() as int),
    ensures
        parse(ops) matches Ok(nodes) && unparse(nodes) == ops,
{
    lemma_parse_unparse(ops, 0, ops.len() as int);
}

/// A `[` at depth 0 that is never closed ends the program: the sequence
/// parses to what stands before that `[`, and that part comes out unchanged
/// when it is written out again.
pub proof fn lemma_parse_unclosed(ops: Seq<OperCharac>, position: int)
    requires
        first_unclosed_open(ops, position),
    ensures
        parse(ops) matches Ok(nodes) && unparse(nodes) == ops.take(position),
        parse(ops) == parse_range(ops, 0, position),
{
    let length = ops.len() as int;
    lemma_parse_split(ops, 0, position, length);
    lemma_parse_unparse(ops, 0, position);
    // The `[` is not closed, so nothing is parsed from it on.
    lemma_find_close_depth(ops, position + 1, length, 1);
    lemma_net_first(ops, position, length);
    if let Some(close) = find_close(ops, position + 1, length, 1) {
        assert(net(ops, position + 1, close + 1) == net(ops, position + 1, close) - 1);
        assert(net(ops, position, close + 1) >= 1);
    }
    let nodes = parse_range(ops, 0, position)->Ok_0;
    assert(nodes + Seq::<Node>::empty() =~= nodes);
    assert(ops.subrange(0, position) =~= ops.take(position));
}

/// The leaves that a bracket-free range `ops[lo..hi]` stands for.
pub open spec fn atoms(ops: Seq<OperCharac>, lo: int, hi: int) -> Seq<Node> {
    Seq::new((hi - lo) as nat, |k: int| atom(ops[lo + k])->0)
}

/// A range without brackets parses to its leaves, one for one.
pub proof fn lemma_parse_atoms(ops: Seq<OperCharac>, lo: int, hi: int)
    requires
        0 <= lo <= hi <= ops.len(),
        forall|k: int| lo <= k < hi ==> atom(#[trigger] ops[k]) is Some,
    ensures
        parse_range(ops, lo, hi) == Ok::<Seq<Node>, int>(atoms(ops, lo, hi)),
    decreases hi - lo,
{
    if lo < hi {
        lemma_parse_atoms(ops, lo + 1, hi);
        assert(seq![atom(ops[lo])->0] + atoms(ops, lo + 1, hi) =~= atoms(ops, lo, hi));
    } else {
        assert(atoms(ops, lo, hi) =~= Seq::<Node>::empty());
    }
}

} // verus!
