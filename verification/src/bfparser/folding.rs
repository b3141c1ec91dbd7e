use crate::bfparser::ir::{
    class_of, close_of, io_nodes, item_end, item_nodes, lemma_close_bounds, lemma_run_bounds,
    lemma_run_step, lower, lower_range, move_chunks, net, run_end, Class, Ir, MAX_MOVE,
};
use crate::bfparser::parser::TOKEN;
use vstd::prelude::*;

verus! {

/// The class of tokens that a node comes from.
pub open spec fn node_class(node: Ir) -> Class {
    match node {
        Ir::Add(_) | Ir::Sub(_) => Class::Cell,
        Ir::MoveLeft(_) | Ir::MoveRight(_) => Class::Move,
        Ir::Input | Ir::Output => Class::Io,
        Ir::Loop(_) => Class::Open,
    }
}

/// Two nodes may follow each other in folded code: not two that change the
/// cell, and two moves only as the pieces of one run that was too long for
/// one node, the first of them full.
pub open spec fn may_follow(a: Ir, b: Ir) -> bool {
    match (a, b) {
        (Ir::MoveRight(k), Ir::MoveRight(_)) => k == MAX_MOVE,
        (Ir::MoveLeft(k), Ir::MoveLeft(_)) => k == MAX_MOVE,
        _ => !(node_class(a) == Class::Cell && node_class(b) == Class::Cell) && !(node_class(a)
            == Class::Move && node_class(b) == Class::Move),
    }
}

/// What a loop's body has to be for the loop to stand in folded code.
pub open spec fn node_folded(node: Ir) -> bool
    decreases node,
{
    match node {
        Ir::Loop(body) => folded(body),
        _ => true,
    }
}

/// Folded code, at every depth: every two neighbours may follow each other.
pub open spec fn folded(nodes: Seq<Ir>) -> bool
    decreases nodes,
{
    nodes.len() > 0 ==> {
        &&& folded(nodes.drop_last())
        &&& node_folded(nodes.last())
        &&& nodes.len() >= 2 ==> may_follow(nodes[nodes.len() - 2], nodes.last())
    }
}

/// Whether a node is within the bounds that lowering keeps: a cell change
/// that eight bits hold, a move of at least one and at most the largest
/// count, and the same of the nodes of a loop's body.
pub open spec fn node_bounded(node: Ir) -> bool
    decreases node,
{
    match node {
        Ir::Add(n) => 1 <= n <= 127,
        Ir::Sub(n) => 1 <= n <= 128,
        Ir::MoveLeft(k) => 1 <= k <= MAX_MOVE,
        Ir::MoveRight(k) => 1 <= k <= MAX_MOVE,
        Ir::Loop(body) => bounded(body),
        _ => true,
    }
}

/// Every node, at every depth, is within bounds.
pub open spec fn bounded(nodes: Seq<Ir>) -> bool
    decreases nodes,
{
    nodes.len() > 0 ==> bounded(nodes.drop_last()) && node_bounded(nodes.last())
}

/// A run starts at `i`: no token of the same class stands before it.
pub open spec fn starts_item(t: Seq<TOKEN>, i: int) -> bool {
    0 <= i <= t.len() && (0 < i < t.len() && (class_of(t[i]) == Class::Cell || class_of(t[i])
        == Class::Move) ==> class_of(t[i - 1]) != class_of(t[i]))
}

/// No run of `+` and `-` and no run of `<` and `>` folds to nothing.
pub open spec fn every_run_counts(t: Seq<TOKEN>) -> bool {
    forall|i: int|
        0 <= i < t.len() && starts_item(t, i) && (class_of(t[i]) == Class::Cell || class_of(t[i])
            == Class::Move) ==> (#[trigger] item_nodes(t, i)).len() > 0
}

/// Folded code put behind folded code is folded where the two nodes that
/// meet may follow each other.
pub proof fn lemma_folded_join(a: Seq<Ir>, b: Seq<Ir>)
    requires
        folded(a),
        folded(b),
        a.len() > 0 && b.len() > 0 ==> may_follow(a.last(), b[0]),
    ensures
        folded(a + b),
    decreases b.len(),
{
    if b.len() == 0 {
        assert(a + b =~= a);
    } else {
        assert((a + b).drop_last() =~= a + b.drop_last());
        lemma_folded_join(a, b.drop_last());
        assert(folded(b.drop_last()) && node_folded(b.last()));
        assert((a + b).last() == b.last());
        if (a + b).len() >= 2 {
            if b.len() >= 2 {
                assert((a + b)[(a + b).len() - 2] == b[b.len() - 2]);
            } else {
                assert((a + b)[(a + b).len() - 2] == a.last());
            }
        }
    }
}

/// One node is folded code where its body is.
pub proof fn lemma_folded_one(node: Ir)
    requires
        node_folded(node),
    ensures
        folded(seq![node]),
{
    assert(seq![node].drop_last() =~= Seq::<Ir>::empty());
    assert(folded(seq![node].drop_last()));
    assert(seq![node].last() == node);
}

/// The pieces of a move are folded, and all go one way.
pub proof fn lemma_chunks_folded(k: int, right: bool)
    ensures
        folded(move_chunks(k, right)),
        forall|m: int|
            0 <= m < move_chunks(k, right).len() ==> #[trigger] node_class(
                move_chunks(k, right)[m],
            ) == Class::Move,
        move_chunks(k, right).len() > 0 ==> (move_chunks(k, right)[0] is MoveRight) == right,
        k > 0 ==> move_chunks(k, right).len() > 0,
    decreases k,
{
    if k > MAX_MOVE {
        lemma_chunks_folded(k - MAX_MOVE, right);
        let head = seq![
            if right {
                Ir::MoveRight(MAX_MOVE as int)
            } else {
                Ir::MoveLeft(MAX_MOVE as int)
            },
        ];
        lemma_folded_one(head[0]);
        assert(head =~= seq![head[0]]);
        lemma_folded_join(head, move_chunks(k - MAX_MOVE, right));
    } else if k > 0 {
        let one = move_chunks(k, right);
        lemma_folded_one(one[0]);
        assert(one =~= seq![one[0]]);
    }
}

/// One node for each `,` and `.` is folded code.
pub proof fn lemma_io_folded(t: Seq<TOKEN>, i: int, j: int)
    ensures
        folded(io_nodes(t, i, j)),
        forall|m: int|
            0 <= m < io_nodes(t, i, j).len() ==> #[trigger] node_class(io_nodes(t, i, j)[m])
                == Class::Io,
        io_nodes(t, i, j).len() == if i < j {
            j - i
        } else {
            0
        },
    decreases j - i,
{
    if i < j {
        lemma_io_folded(t, i, j - 1);
        let last = io_nodes(t, i, j).last();
        lemma_folded_one(last);
        assert(io_nodes(t, i, j) =~= io_nodes(t, i, j - 1) + seq![last]);
        lemma_folded_join(io_nodes(t, i, j - 1), seq![last]);
    }
}

/// Behind a run stands no token of its class.
pub proof fn lemma_run_stops(t: Seq<TOKEN>, i: int, c: Class)
    requires
        0 <= i <= t.len(),
    ensures
        run_end(t, i, c) < t.len() ==> class_of(t[run_end(t, i, c)]) != c,
        forall|k: int| i <= k < run_end(t, i, c) ==> class_of(#[trigger] t[k]) == c,
    decreases t.len() - i,
{
    if i < t.len() && class_of(t[i]) == c {
        lemma_run_stops(t, i + 1, c);
    }
}

/// Two nodes are of different classes, or neither changes the cell nor
/// moves.
pub open spec fn differ(a: Ir, b: Ir) -> bool {
    !(node_class(a) == Class::Cell && node_class(b) == Class::Cell) && !(node_class(a)
        == Class::Move && node_class(b) == Class::Move)
}

/// What a loop's body has to be for the loop to stand in alternating code.
pub open spec fn node_alternating(node: Ir) -> bool
    decreases node,
{
    match node {
        Ir::Loop(body) => alternating(body),
        _ => true,
    }
}

/// Alternating code, at every depth: no two neighbours both change the cell
/// and no two both move.
pub open spec fn alternating(nodes: Seq<Ir>) -> bool
    decreases nodes,
{
    nodes.len() > 0 ==> {
        &&& alternating(nodes.drop_last())
        &&& node_alternating(nodes.last())
        &&& nodes.len() >= 2 ==> differ(nodes[nodes.len() - 2], nodes.last())
    }
}

/// Alternating code put behind alternating code alternates where the two
/// nodes that meet differ.
pub proof fn lemma_alternating_join(a: Seq<Ir>, b: Seq<Ir>)
    requires
        alternating(a),
        alternating(b),
        a.len() > 0 && b.len() > 0 ==> differ(a.last(), b[0]),
    ensures
        alternating(a + b),
    decreases b.len(),
{
    if b.len() == 0 {
        assert(a + b =~= a);
    } else {
        assert((a + b).drop_last() =~= a + b.drop_last());
        lemma_alternating_join(a, b.drop_last());
        assert(alternating(b.drop_last()) && node_alternating(b.last()));
        assert((a + b).last() == b.last());
        if (a + b).len() >= 2 {
            if b.len() >= 2 {
                assert((a + b)[(a + b).len() - 2] == b[b.len() - 2]);
            } else {
                assert((a + b)[(a + b).len() - 2] == a.last());
            }
        }
    }
}

/// One node is alternating code where its body is.
pub proof fn lemma_alternating_one(node: Ir)
    requires
        node_alternating(node),
    ensures
        alternating(seq![node]),
{
    assert(seq![node].drop_last() =~= Seq::<Ir>::empty());
    assert(alternating(seq![node].drop_last()));
    assert(seq![node].last() == node);
}

/// The nodes of `,` and `.` alternate: none of them changes the cell or
/// moves.
pub proof fn lemma_io_alternating(t: Seq<TOKEN>, i: int, j: int)
    ensures
        alternating(io_nodes(t, i, j)),
    decreases j - i,
{
    if i < j {
        lemma_io_alternating(t, i, j - 1);
        lemma_io_folded(t, i, j);
        lemma_io_folded(t, i, j - 1);
        let nodes = io_nodes(t, i, j);
        let last = nodes.last();
        lemma_alternating_one(last);
        assert(nodes =~= io_nodes(t, i, j - 1) + seq![last]);
        assert(node_class(nodes[nodes.len() - 1]) == Class::Io);
        lemma_alternating_join(io_nodes(t, i, j - 1), seq![last]);
    }
}

/// A run of `+` and `-` or of `<` and `>` starts at `i` and folds to nothing.
pub open spec fn vanishes(t: Seq<TOKEN>, i: int) -> bool {
    &&& 0 <= i < t.len()
    &&& starts_item(t, i)
    &&& class_of(t[i]) == Class::Cell || class_of(t[i]) == Class::Move
    &&& item_nodes(t, i).len() == 0
}

/// No run that folds to nothing stands between two runs of `+` and `-`, or
/// between two runs of `<` and `>`.
pub open spec fn no_run_hides(t: Seq<TOKEN>) -> bool {
    forall|i: int|
        #[trigger] vanishes(t, i) && 0 < i && item_end(t, i) < t.len() ==> !(class_of(t[i - 1])
            == class_of(t[item_end(t, i)]) && (class_of(t[i - 1]) == Class::Cell || class_of(
            t[i - 1],
        ) == Class::Move))
}

/// No run of `<` and `>` adds up to more than one node holds.
pub open spec fn no_run_splits(t: Seq<TOKEN>) -> bool {
    forall|i: int|
        0 <= i < t.len() && starts_item(t, i) && class_of(t[i]) == Class::Move ==> -MAX_MOVE
            <= #[trigger] net(t, i, run_end(t, i, Class::Move)) <= MAX_MOVE
}

/// A node that changes the cell or moves may stand first in the nodes from
/// `i` on: the token at `i` is of these classes, and the token before `i` is
/// not of the node's class.
pub open spec fn first_fits(t: Seq<TOKEN>, i: int, first: Ir) -> bool {
    node_class(first) == Class::Cell || node_class(first) == Class::Move ==> {
        &&& class_of(t[i]) == Class::Cell || class_of(t[i]) == Class::Move
        &&& i > 0 ==> node_class(first) != class_of(t[i - 1])
    }
}

/// The nodes of an item are of the class of its first token.
pub proof fn lemma_item_classes(t: Seq<TOKEN>, i: int)
    requires
        0 <= i < t.len(),
    ensures
        forall|m: int|
            0 <= m < item_nodes(t, i).len() ==> #[trigger] node_class(item_nodes(t, i)[m])
                == class_of(t[i]),
        class_of(t[i]) == Class::Io || class_of(t[i]) == Class::Open ==> item_nodes(t, i).len()
            > 0,
{
    match class_of(t[i]) {
        Class::Move => {
            let sum = net(t, i, run_end(t, i, Class::Move));
            lemma_chunks_folded(sum, true);
            lemma_chunks_folded(-sum, false);
        },
        Class::Io => {
            lemma_run_step(t, i, Class::Io);
            lemma_io_folded(t, i, run_end(t, i, Class::Io));
        },
        _ => {},
    }
}

/// What holds of the nodes of one item where no vanishing run hides a
/// clash: they are folded, and they alternate where no run is split.
pub proof fn lemma_item_shape(t: Seq<TOKEN>, i: int)
    requires
        no_run_hides(t),
        0 <= i < t.len(),
        starts_item(t, i),
        class_of(t[i]) != Class::Close,
    ensures
        folded(item_nodes(t, i)),
        no_run_splits(t) ==> alternating(item_nodes(t, i)),
    decreases t.len() - i, 0int,
{
    let nodes = item_nodes(t, i);
    match class_of(t[i]) {
        Class::Cell => {
            if nodes.len() > 0 {
                lemma_folded_one(nodes[0]);
                lemma_alternating_one(nodes[0]);
                assert(nodes =~= seq![nodes[0]]);
            }
        },
        Class::Move => {
            let sum = net(t, i, run_end(t, i, Class::Move));
            lemma_chunks_folded(sum, true);
            lemma_chunks_folded(-sum, false);
            if no_run_splits(t) && nodes.len() > 0 {
                lemma_alternating_one(nodes[0]);
                assert(nodes =~= seq![nodes[0]]);
            }
        },
        Class::Io => {
            lemma_run_step(t, i, Class::Io);
            lemma_io_folded(t, i, run_end(t, i, Class::Io));
            lemma_io_alternating(t, i, run_end(t, i, Class::Io));
        },
        Class::Open => {
            lemma_range_shape(t, i + 1, close_of(t, i));
            lemma_folded_one(nodes[0]);
            if no_run_splits(t) {
                lemma_alternating_one(nodes[0]);
            }
            assert(nodes =~= seq![nodes[0]]);
        },
        Class::Close => {},
    }
}

/// What holds of the nodes of a range of items where no vanishing run hides
/// a clash: they are folded, they alternate where no run is split, and the
/// first of them fits behind the token before the range.
pub proof fn lemma_range_shape(t: Seq<TOKEN>, i: int, j: int)
    requires
        no_run_hides(t),
        starts_item(t, i),
    ensures
        folded(lower_range(t, i, j)),
        no_run_splits(t) ==> alternating(lower_range(t, i, j)),
        lower_range(t, i, j).len() > 0 ==> 0 <= i < t.len() && first_fits(
            t,
            i,
            lower_range(t, i, j)[0],
        ),
    decreases t.len() - i, 1int,
{
    if !(i < 0 || i >= j || j > t.len() || !(i < item_end(t, i) <= j)) {
        let next = item_end(t, i);
        let head = item_nodes(t, i);
        let rest = lower_range(t, next, j);
        let c = class_of(t[i]);
        assert(c != Class::Close);
        lemma_item_shape(t, i);
        lemma_item_classes(t, i);
        if c == Class::Open {
            lemma_close_bounds(t, i + 1, 0);
        } else {
            lemma_run_bounds(t, i, c);
            lemma_run_stops(t, i, c);
            assert(class_of(t[next - 1]) == c);
        }
        lemma_range_shape(t, next, j);
        if rest.len() > 0 {
            if c == Class::Open {
                assert(t[next - 1] == TOKEN::RightLoop);
            }
            if head.len() > 0 {
                assert(node_class(head.last()) == c);
                assert(may_follow(head.last(), rest[0]));
                assert(differ(head.last(), rest[0]));
            } else {
                assert(vanishes(t, i));
                assert(lower_range(t, i, j) =~= rest);
            }
        }
        if head.len() > 0 {
            assert(lower_range(t, i, j)[0] == head[0]);
        }
        lemma_folded_join(head, rest);
        if no_run_splits(t) {
            lemma_alternating_join(head, rest);
        }
    }
}

/// Lowering folds: no two neighbours both change the cell, and two
/// neighbours both move only as the pieces of one run that one node could
/// not hold. This holds of every token sequence in which no run that folds
/// to nothing stands between two runs of one kind.
pub proof fn lemma_lowering_folds(t: Seq<TOKEN>)
    requires
        no_run_hides(t),
    ensures
        folded(lower(t)),
{
    lemma_range_shape(t, 0, t.len() as int);
}

/// Lowering leaves no two neighbours that both change the cell and no two
/// that both move, at any depth. This holds of every token sequence in which
/// no run that folds to nothing stands between two runs of one kind, and no
/// run of moves adds up to more than one node holds.
pub proof fn lemma_lowering_alternates(t: Seq<TOKEN>)
    requires
        no_run_hides(t),
        no_run_splits(t),
    ensures
        alternating(lower(t)),
{
    lemma_range_shape(t, 0, t.len() as int);
}

/// Where every run counts, none that folds to nothing hides anything.
pub proof fn lemma_counting_hides_nothing(t: Seq<TOKEN>)
    requires
        every_run_counts(t),
    ensures
        no_run_hides(t),
{
}

/// Where every run counts and none is split, each run of `+` and `-` and
/// each run of `<` and `>` is lowered to exactly one node.
pub proof fn lemma_run_is_one_node(t: Seq<TOKEN>, i: int)
    requires
        every_run_counts(t),
        no_run_splits(t),
        0 <= i < t.len(),
        starts_item(t, i),
        class_of(t[i]) == Class::Cell || class_of(t[i]) == Class::Move,
    ensures
        item_nodes(t, i).len() == 1,
        node_class(item_nodes(t, i)[0]) == class_of(t[i]),
{
    lemma_item_classes(t, i);
    if class_of(t[i]) == Class::Move {
        let sum = net(t, i, run_end(t, i, Class::Move));
        assert(-MAX_MOVE <= sum <= MAX_MOVE);
    }
}

/// Code within bounds put behind code within bounds is within bounds.
pub proof fn lemma_bounded_join(a: Seq<Ir>, b: Seq<Ir>)
    requires
        bounded(a),
        bounded(b),
    ensures
        bounded(a + b),
    decreases b.len(),
{
    if b.len() == 0 {
        assert(a + b =~= a);
    } else {
        assert((a + b).drop_last() =~= a + b.drop_last());
        lemma_bounded_join(a, b.drop_last());
        assert(bounded(b.drop_last()) && node_bounded(b.last()));
        assert((a + b).last() == b.last());
    }
}

/// One node within bounds is code within bounds.
pub proof fn lemma_bounded_one(node: Ir)
    requires
        node_bounded(node),
    ensures
        bounded(seq![node]),
{
    assert(seq![node].drop_last() =~= Seq::<Ir>::empty());
    assert(bounded(seq![node].drop_last()));
    assert(seq![node].last() == node);
}

/// The pieces of a move are within bounds.
pub proof fn lemma_chunks_bounded(k: int, right: bool)
    ensures
        bounded(move_chunks(k, right)),
    decreases k,
{
    if k > MAX_MOVE {
        lemma_chunks_bounded(k - MAX_MOVE, right);
        let head = seq![
            if right {
                Ir::MoveRight(MAX_MOVE as int)
            } else {
                Ir::MoveLeft(MAX_MOVE as int)
            },
        ];
        lemma_bounded_one(head[0]);
        assert(head =~= seq![head[0]]);
        lemma_bounded_join(head, move_chunks(k - MAX_MOVE, right));
    } else if k > 0 {
        let one = move_chunks(k, right);
        lemma_bounded_one(one[0]);
        assert(one =~= seq![one[0]]);
    }
}

/// The nodes of `,` and `.` are within bounds.
pub proof fn lemma_io_bounded(t: Seq<TOKEN>, i: int, j: int)
    ensures
        bounded(io_nodes(t, i, j)),
    decreases j - i,
{
    if i < j {
        lemma_io_bounded(t, i, j - 1);
        let last = io_nodes(t, i, j).last();
        lemma_bounded_one(last);
        assert(io_nodes(t, i, j) =~= io_nodes(t, i, j - 1) + seq![last]);
        lemma_bounded_join(io_nodes(t, i, j - 1), seq![last]);
    }
}

/// The nodes of one item are within bounds.
pub proof fn lemma_item_bounded(t: Seq<TOKEN>, i: int)
    ensures
        bounded(item_nodes(t, i)),
    decreases t.len() - i, 0int,
{
    let nodes = item_nodes(t, i);
    if 0 <= i < t.len() {
        match class_of(t[i]) {
            Class::Cell => {
                if nodes.len() > 0 {
                    lemma_bounded_one(nodes[0]);
                    assert(nodes =~= seq![nodes[0]]);
                }
            },
            Class::Move => {
                let sum = net(t, i, run_end(t, i, Class::Move));
                lemma_chunks_bounded(sum, true);
                lemma_chunks_bounded(-sum, false);
            },
            Class::Io => {
                lemma_io_bounded(t, i, run_end(t, i, Class::Io));
            },
            Class::Open => {
                lemma_range_bounded(t, i + 1, close_of(t, i));
                lemma_bounded_one(nodes[0]);
                assert(nodes =~= seq![nodes[0]]);
            },
            Class::Close => {},
        }
    }
}

/// The nodes of a range of items are within bounds.
pub proof fn lemma_range_bounded(t: Seq<TOKEN>, i: int, j: int)
    ensures
        bounded(lower_range(t, i, j)),
    decreases t.len() - i, 1int,
{
    if !(i < 0 || i >= j || j > t.len() || !(i < item_end(t, i) <= j)) {
        lemma_item_bounded(t, i);
        lemma_range_bounded(t, item_end(t, i), j);
        lemma_bounded_join(item_nodes(t, i), lower_range(t, item_end(t, i), j));
    }
}

/// Whatever is lowered, every node that comes out is within bounds: no
/// count is zero, a cell change is at most 128, a move at most 2^31 - 1.
pub proof fn lemma_lowering_bounded(t: Seq<TOKEN>)
    ensures
        bounded(lower(t)),
{
    lemma_range_bounded(t, 0, t.len() as int);
}

} // verus!
