use crate::bfparser::folding::{
    bounded, every_run_counts, folded, lemma_counting_hides_nothing, lemma_lowering_bounded,
    lemma_lowering_folds, may_follow, node_bounded, node_class, node_folded,
};
use crate::bfparser::ir::{
    class_of, close_of, delta, enclosed, io_nodes, item_end, item_nodes, lemma_close_skip,
    lemma_depth_step, lemma_enclosed_join, lemma_run_step, lemma_views_take, lower, lower_range,
    move_nodes, nested, net, open_depth, run_end, views, wrap8, Class, Ir, BFIR, MAX_MOVE,
};
use crate::bfparser::parser::TOKEN;
use vstd::prelude::*;

verus! {

/// `n` times the token `x`.
pub open spec fn repeat(x: TOKEN, n: int) -> Seq<TOKEN> {
    Seq::new(
        if n > 0 {
            n as nat
        } else {
            0
        },
        |i: int| x,
    )
}

/// The tokens that a node stands for.
pub open spec fn node_tokens(node: Ir) -> Seq<TOKEN>
    decreases node,
{
    match node {
        Ir::Add(n) => repeat(TOKEN::Increment, n),
        Ir::Sub(n) => repeat(TOKEN::Decrement, n),
        Ir::MoveLeft(k) => repeat(TOKEN::MoveLeft, k),
        Ir::MoveRight(k) => repeat(TOKEN::MoveRight, k),
        Ir::Input => seq![TOKEN::Input],
        Ir::Output => seq![TOKEN::Output],
        Ir::Loop(body) => seq![TOKEN::LeftLoop] + flatten(body) + seq![TOKEN::RightLoop],
    }
}

/// The tokens that a sequence of nodes stands for.
pub open spec fn flatten(nodes: Seq<Ir>) -> Seq<TOKEN>
    decreases nodes,
{
    if nodes.len() == 0 {
        Seq::empty()
    } else {
        node_tokens(nodes[0]) + flatten(nodes.drop_first())
    }
}

/// The tokens of `t` from `p` on start with the tokens `f`, and what
/// follows them, if anything, is a `]`.
pub open spec fn holds_at(t: Seq<TOKEN>, p: int, f: Seq<TOKEN>) -> bool {
    &&& 0 <= p
    &&& p + f.len() <= t.len()
    &&& t.subrange(p, p + f.len()) == f
}

/// A node within bounds stands for at least one token, and its first token is
/// of its class.
pub proof fn lemma_first_token(node: Ir)
    requires
        node_bounded(node),
    ensures
        node_tokens(node).len() > 0,
        class_of(node_tokens(node)[0]) == node_class(node),
{
}

/// Where a stretch of tokens is all of one class, a run of that class that
/// starts in it goes on to its end.
pub proof fn lemma_run_through(t: Seq<TOKEN>, p: int, n: int, c: Class)
    requires
        0 <= p,
        0 <= n,
        p + n <= t.len(),
        forall|k: int| p <= k < p + n ==> class_of(#[trigger] t[k]) == c,
    ensures
        run_end(t, p, c) == run_end(t, p + n, c),
    decreases n,
{
    if n > 0 {
        lemma_run_through(t, p + 1, n - 1, c);
    }
}

/// Sums of neighbouring stretches add up.
pub proof fn lemma_net_split(t: Seq<TOKEN>, p: int, m: int, e: int)
    requires
        p <= m <= e,
    ensures
        net(t, p, e) == net(t, p, m) + net(t, m, e),
    decreases e - m,
{
    if m < e {
        lemma_net_split(t, p, m, e - 1);
    }
}

/// A stretch of one token adds up to its length times what the token adds.
pub proof fn lemma_net_repeat(t: Seq<TOKEN>, p: int, n: int, x: TOKEN)
    requires
        0 <= n,
        forall|k: int| p <= k < p + n ==> #[trigger] t[k] == x,
    ensures
        net(t, p, p + n) == n * delta(x),
    decreases n,
{
    if n > 0 {
        lemma_net_repeat(t, p, n - 1, x);
        assert(net(t, p, p + n) == net(t, p, p + n - 1) + delta(t[p + n - 1]));
        assert(n * delta(x) == (n - 1) * delta(x) + delta(x)) by (nonlinear_arith);
    }
}

/// A stretch without brackets is enclosed.
pub proof fn lemma_flat_enclosed(t: Seq<TOKEN>, p: int, n: int)
    requires
        0 <= p,
        0 <= n,
        p + n <= t.len(),
        forall|k: int|
            p <= k < p + n ==> #[trigger] t[k] != TOKEN::LeftLoop && t[k] != TOKEN::RightLoop,
    ensures
        enclosed(t, p, p + n),
    decreases n,
{
    if n > 0 {
        lemma_flat_enclosed(t, p, n - 1);
        lemma_depth_step(t, p + n - 1);
        assert(t[p + n - 1] != TOKEN::LeftLoop);
        assert forall|k: int| p <= k <= p + n implies open_depth(#[trigger] t.take(k))
            >= open_depth(t.take(p)) by {
            if k < p + n {
                assert(open_depth(t.take(k)) >= open_depth(t.take(p)));
            }
        }
    }
}

/// The first of the `,` and `.` of a stretch gives the first node.
pub proof fn lemma_io_front(t: Seq<TOKEN>, p: int, e: int)
    requires
        p < e,
    ensures
        io_nodes(t, p, e) == seq![
            if t[p] == TOKEN::Input {
                Ir::Input
            } else {
                Ir::Output
            },
        ] + io_nodes(t, p + 1, e),
    decreases e - p,
{
    if p + 1 < e {
        lemma_io_front(t, p, e - 1);
        let first = seq![
            if t[p] == TOKEN::Input {
                Ir::Input
            } else {
                Ir::Output
            },
        ];
        let last = if t[e - 1] == TOKEN::Input {
            Ir::Input
        } else {
            Ir::Output
        };
        assert((first + io_nodes(t, p + 1, e - 1)).push(last) =~= first + io_nodes(
            t,
            p + 1,
            e - 1,
        ).push(last));
    } else {
        assert(io_nodes(t, p, p) =~= Seq::<Ir>::empty());
        assert(io_nodes(t, p + 1, e) =~= Seq::<Ir>::empty());
        assert(io_nodes(t, p, e) =~= seq![
            if t[p] == TOKEN::Input {
                Ir::Input
            } else {
                Ir::Output
            },
        ]);
    }
}


/// The token that a move node repeats.
pub open spec fn move_token(node: Ir) -> TOKEN {
    if node is MoveRight {
        TOKEN::MoveRight
    } else {
        TOKEN::MoveLeft
    }
}

/// The first node of code within bounds is within bounds, and so is what
/// follows it.
pub proof fn lemma_bounded_front(nodes: Seq<Ir>)
    requires
        bounded(nodes),
        nodes.len() > 0,
    ensures
        node_bounded(nodes[0]),
        bounded(nodes.drop_first()),
    decreases nodes.len(),
{
    if nodes.len() > 1 {
        lemma_bounded_front(nodes.drop_last());
        assert(nodes.drop_first().drop_last() =~= nodes.drop_last().drop_first());
        assert(bounded(nodes.drop_last()) && node_bounded(nodes.last()));
        assert(nodes.drop_first().last() == nodes.last());
    } else {
        assert(bounded(nodes.drop_last()) && node_bounded(nodes.last()));
        assert(nodes.drop_first() =~= Seq::<Ir>::empty());
    }
}

/// The first node of folded code may stand before the second, and what
/// follows it is folded.
pub proof fn lemma_folded_front(nodes: Seq<Ir>)
    requires
        folded(nodes),
        nodes.len() > 0,
    ensures
        node_folded(nodes[0]),
        folded(nodes.drop_first()),
        nodes.len() >= 2 ==> may_follow(nodes[0], nodes[1]),
    decreases nodes.len(),
{
    assert(folded(nodes.drop_last()) && node_folded(nodes.last()));
    if nodes.len() > 1 {
        lemma_folded_front(nodes.drop_last());
        assert(nodes.drop_first().drop_last() =~= nodes.drop_last().drop_first());
        assert(nodes.drop_first().last() == nodes.last());
        if nodes.len() >= 3 {
            assert(nodes.drop_first()[nodes.drop_first().len() - 2] == nodes[nodes.len() - 2]);
        }
    } else {
        assert(nodes.drop_first() =~= Seq::<Ir>::empty());
    }
}

/// A run does not go beyond a token of another class.
pub proof fn lemma_run_limit(t: Seq<TOKEN>, i: int, end: int, c: Class)
    requires
        0 <= i <= end <= t.len(),
        end < t.len() ==> class_of(t[end]) != c,
    ensures
        run_end(t, i, c) <= end,
    decreases end - i,
{
    if i < end && class_of(t[i]) == c {
        lemma_run_limit(t, i + 1, end, c);
    }
}

/// A stretch of `+` or of `-` with none behind it is one run, enclosed, and
/// adds up to its length.
pub proof fn lemma_cell_item(t: Seq<TOKEN>, p: int, n: int, x: TOKEN)
    requires
        0 <= p,
        1 <= n,
        p + n <= t.len(),
        x == TOKEN::Increment || x == TOKEN::Decrement,
        forall|k: int| p <= k < p + n ==> #[trigger] t[k] == x,
        p + n < t.len() ==> class_of(t[p + n]) != Class::Cell,
    ensures
        run_end(t, p, Class::Cell) == p + n,
        item_end(t, p) == p + n,
        net(t, p, p + n) == if x == TOKEN::Increment {
            n
        } else {
            -n
        },
        enclosed(t, p, p + n),
{
    lemma_run_through(t, p, n, Class::Cell);
    lemma_net_repeat(t, p, n, x);
    lemma_flat_enclosed(t, p, n);
    assert(t[p] == x);
    assert(n * delta(x) == if x == TOKEN::Increment {
        n
    } else {
        -n
    }) by (nonlinear_arith)
        requires
            delta(x) == 1 || delta(x) == -1,
            (x == TOKEN::Increment) == (delta(x) == 1),
    ;
}

/// What is known of the nodes `rest` behind a first node whose `n` tokens
/// stand at `p`: their tokens follow, up to `end`, with a `]` or nothing
/// behind; lowering that stretch gives them back; and a move among them
/// comes first only with tokens of its own direction.
pub open spec fn rest_known(t: Seq<TOKEN>, p: int, n: int, end: int, rest: Seq<Ir>) -> bool {
    &&& 0 <= p
    &&& 1 <= n
    &&& p + n <= end <= t.len()
    &&& end < t.len() ==> t[end] == TOKEN::RightLoop
    &&& rest.len() == 0 ==> end == p + n
    &&& rest.len() > 0 ==> p + n < end && class_of(t[p + n]) == node_class(rest[0])
    &&& enclosed(t, p + n, end)
    &&& lower_range(t, p + n, end) == rest
    &&& rest.len() > 0 && node_class(rest[0]) == Class::Move ==> forall|k: int|
        p + n <= k < run_end(t, p + n, Class::Move) ==> #[trigger] t[k] == move_token(rest[0])
}

/// The step for a first node that changes the cell.
proof fn lemma_step_cell(t: Seq<TOKEN>, p: int, n: int, end: int, first: Ir, rest: Seq<Ir>)
    requires
        rest_known(t, p, n, end, rest),
        node_bounded(first),
        first == Ir::Add(n) || first == Ir::Sub(n),
        forall|k: int|
            p <= k < p + n ==> #[trigger] t[k] == if first is Add {
                TOKEN::Increment
            } else {
                TOKEN::Decrement
            },
        rest.len() > 0 ==> may_follow(first, rest[0]),
    ensures
        enclosed(t, p, end),
        lower_range(t, p, end) == seq![first] + rest,
{
    let x = if first is Add {
        TOKEN::Increment
    } else {
        TOKEN::Decrement
    };
    lemma_cell_item(t, p, n, x);
    if first is Add {
        assert(wrap8(n) == n);
    } else {
        assert(wrap8(-n) == -n);
    }
    assert(item_nodes(t, p) =~= seq![first]);
    lemma_enclosed_join(t, p, p + n, end);
    assert(lower_range(t, p, end) == item_nodes(t, p) + lower_range(t, p + n, end));
}

/// The step for a first node that is a loop.
proof fn lemma_step_loop(t: Seq<TOKEN>, p: int, n: int, end: int, body: Seq<Ir>, rest: Seq<Ir>)
    requires
        rest_known(t, p, n, end, rest),
        n == flatten(body).len() + 2,
        t[p] == TOKEN::LeftLoop,
        t[p + n - 1] == TOKEN::RightLoop,
        enclosed(t, p + 1, p + n - 1),
        lower_range(t, p + 1, p + n - 1) == body,
    ensures
        enclosed(t, p, end),
        lower_range(t, p, end) == seq![Ir::Loop(body)] + rest,
{
    let m = p + n - 1;
    assert forall|k: int| p + 1 <= k <= m implies 0 + open_depth(#[trigger] t.take(k))
        - open_depth(t.take(p + 1)) >= 0 by {}
    lemma_close_skip(t, p + 1, m, 0);
    assert(close_of(t, p) == m);
    assert(item_end(t, p) == p + n);
    assert(item_nodes(t, p) =~= seq![Ir::Loop(body)]);
    lemma_depth_step(t, p);
    lemma_depth_step(t, m);
    assert forall|k: int| p <= k <= p + n implies open_depth(#[trigger] t.take(k)) >= open_depth(
        t.take(p),
    ) by {
        if p < k <= m {
            assert(open_depth(t.take(k)) >= open_depth(t.take(p + 1)));
        }
    }
    lemma_enclosed_join(t, p, p + n, end);
    assert(lower_range(t, p, end) == item_nodes(t, p) + lower_range(t, p + n, end));
}

/// The step for a first node that reads or writes.
proof fn lemma_step_io(t: Seq<TOKEN>, p: int, end: int, first: Ir, rest: Seq<Ir>)
    requires
        rest_known(t, p, 1, end, rest),
        first == Ir::Input || first == Ir::Output,
        t[p] == if first is Input {
            TOKEN::Input
        } else {
            TOKEN::Output
        },
    ensures
        enclosed(t, p, end),
        lower_range(t, p, end) == seq![first] + rest,
{
    let e = run_end(t, p, Class::Io);
    let tail = lower_range(t, p + 1, end);
    lemma_flat_enclosed(t, p, 1);
    lemma_enclosed_join(t, p, p + 1, end);
    lemma_run_step(t, p, Class::Io);
    lemma_run_limit(t, p, end, Class::Io);
    lemma_io_front(t, p, e);
    if rest.len() > 0 && node_class(rest[0]) == Class::Io {
        lemma_run_step(t, p + 1, Class::Io);
        assert(tail == item_nodes(t, p + 1) + lower_range(t, e, end));
        assert(lower_range(t, p, end) == item_nodes(t, p) + lower_range(t, e, end));
        assert(lower_range(t, p, end) =~= seq![first] + tail);
    } else {
        assert(e == p + 1);
        assert(io_nodes(t, p + 1, e) =~= Seq::<Ir>::empty());
        assert(item_nodes(t, p) =~= seq![first]);
        assert(lower_range(t, p, end) == item_nodes(t, p) + tail);
    }
}

/// The step for a first node that moves.
proof fn lemma_step_move(t: Seq<TOKEN>, p: int, n: int, end: int, first: Ir, rest: Seq<Ir>)
    requires
        rest_known(t, p, n, end, rest),
        node_bounded(first),
        first == Ir::MoveRight(n) || first == Ir::MoveLeft(n),
        forall|k: int| p <= k < p + n ==> #[trigger] t[k] == move_token(first),
        rest.len() > 0 ==> may_follow(first, rest[0]),
    ensures
        enclosed(t, p, end),
        lower_range(t, p, end) == seq![first] + rest,
        forall|k: int| p <= k < run_end(t, p, Class::Move) ==> #[trigger] t[k] == move_token(first),
{
    let x = move_token(first);
    let e = run_end(t, p, Class::Move);
    let tail = lower_range(t, p + n, end);
    let sign: int = if x == TOKEN::MoveRight {
        1
    } else {
        -1
    };
    assert(delta(x) == sign);
    lemma_flat_enclosed(t, p, n);
    lemma_enclosed_join(t, p, p + n, end);
    lemma_run_through(t, p, n, Class::Move);
    lemma_net_repeat(t, p, n, x);
    assert(n * sign == if x == TOKEN::MoveRight {
        n
    } else {
        -n
    }) by (nonlinear_arith)
        requires
            sign == 1 || sign == -1,
            (x == TOKEN::MoveRight) == (sign == 1),
    ;
    assert(t[p] == x);
    if rest.len() > 0 && node_class(rest[0]) == Class::Move {
        assert(n == MAX_MOVE);
        assert(move_token(rest[0]) == x);
        lemma_run_step(t, p + n, Class::Move);
        lemma_run_limit(t, p + n, end, Class::Move);
        lemma_net_split(t, p, p + n, e);
        lemma_net_repeat(t, p + n, e - p - n, x);
        let inner = net(t, p + n, e);
        let more = e - p - n;
        assert(more * sign == if x == TOKEN::MoveRight {
            more
        } else {
            -more
        }) by (nonlinear_arith)
            requires
                sign == 1 || sign == -1,
                (x == TOKEN::MoveRight) == (sign == 1),
        ;
        assert(tail == item_nodes(t, p + n) + lower_range(t, e, end));
        if x == TOKEN::MoveRight {
            assert(move_nodes(n + inner) =~= seq![first] + move_nodes(inner));
        } else {
            assert(move_nodes(-n + inner) =~= seq![first] + move_nodes(inner));
        }
        assert(lower_range(t, p, end) == item_nodes(t, p) + lower_range(t, e, end));
        assert(lower_range(t, p, end) =~= seq![first] + tail);
    } else {
        assert(e == p + n);
        assert(item_nodes(t, p) =~= seq![first]);
        assert(lower_range(t, p, end) == item_nodes(t, p) + tail);
    }
}

/// Where the tokens of nodes stand in a token sequence, the tokens of the
/// first node stand there, and behind them the tokens of the others.
proof fn lemma_split_front(nodes: Seq<Ir>, t: Seq<TOKEN>, p: int)
    requires
        nodes.len() > 0,
        bounded(nodes),
        holds_at(t, p, flatten(nodes)),
    ensures
        node_tokens(nodes[0]).len() >= 1,
        holds_at(t, p, node_tokens(nodes[0])),
        holds_at(t, p + node_tokens(nodes[0]).len(), flatten(nodes.drop_first())),
        flatten(nodes).len() == node_tokens(nodes[0]).len() + flatten(nodes.drop_first()).len(),
        forall|k: int|
            0 <= k < node_tokens(nodes[0]).len() ==> t[p + k] == #[trigger] node_tokens(
                nodes[0],
            )[k],
        nodes.len() > 1 ==> flatten(nodes.drop_first()).len() > 0 && class_of(
            t[p + node_tokens(nodes[0]).len()],
        ) == node_class(nodes[1]),
        nodes.len() == 1 ==> flatten(nodes.drop_first()).len() == 0,
{
    let f = flatten(nodes);
    let first = nodes[0];
    let rest = nodes.drop_first();
    let w = node_tokens(first);
    let n = w.len() as int;
    lemma_bounded_front(nodes);
    lemma_first_token(first);
    assert(f == w + flatten(rest));
    assert forall|k: int| 0 <= k < f.len() implies t[p + k] == #[trigger] f[k] by {
        assert(t.subrange(p, p + f.len())[k] == f[k]);
    }
    assert(t.subrange(p + n, p + n + flatten(rest).len()) =~= flatten(rest)) by {
        assert forall|k: int| 0 <= k < flatten(rest).len() implies t[p + n + k] == flatten(
            rest,
        )[k] by {
            assert(f[n + k] == flatten(rest)[k]);
        }
    }
    assert forall|k: int| 0 <= k < n implies t[p + k] == #[trigger] w[k] by {
        assert(f[k] == w[k]);
    }
    assert(t.subrange(p, p + n) =~= w);
    if rest.len() > 0 {
        lemma_bounded_front(rest);
        lemma_first_token(rest[0]);
        assert(flatten(rest) == node_tokens(rest[0]) + flatten(rest.drop_first()));
        assert(t[p + n] == node_tokens(rest[0])[0]) by {
            assert(f[n] == flatten(rest)[0]);
        }
    } else {
        assert(flatten(rest) =~= Seq::<TOKEN>::empty());
    }
}

/// What the tokens of one node are, where they stand at `p`.
proof fn lemma_node_at(node: Ir, t: Seq<TOKEN>, p: int)
    requires
        node_bounded(node),
        holds_at(t, p, node_tokens(node)),
    ensures
        match node {
            Ir::Loop(body) => {
                &&& node_tokens(node).len() == flatten(body).len() + 2
                &&& t[p] == TOKEN::LeftLoop
                &&& t[p + flatten(body).len() + 1] == TOKEN::RightLoop
                &&& holds_at(t, p + 1, flatten(body))
            },
            Ir::Add(n) => node_tokens(node).len() == n && forall|k: int|
                p <= k < p + n ==> #[trigger] t[k] == TOKEN::Increment,
            Ir::Sub(n) => node_tokens(node).len() == n && forall|k: int|
                p <= k < p + n ==> #[trigger] t[k] == TOKEN::Decrement,
            Ir::MoveRight(n) => node_tokens(node).len() == n && forall|k: int|
                p <= k < p + n ==> #[trigger] t[k] == TOKEN::MoveRight,
            Ir::MoveLeft(n) => node_tokens(node).len() == n && forall|k: int|
                p <= k < p + n ==> #[trigger] t[k] == TOKEN::MoveLeft,
            Ir::Input => node_tokens(node).len() == 1 && t[p] == TOKEN::Input,
            Ir::Output => node_tokens(node).len() == 1 && t[p] == TOKEN::Output,
        },
{
    let w = node_tokens(node);
    assert forall|k: int| 0 <= k < w.len() implies t[p + k] == #[trigger] w[k] by {
        assert(t.subrange(p, p + w.len())[k] == w[k]);
    }
    match node {
        Ir::Loop(body) => {
            let fb = flatten(body);
            assert(t[p + 0] == w[0]);
            assert(t[p + (1 + fb.len())] == w[1 + fb.len() as int]);
            assert(t.subrange(p + 1, p + 1 + fb.len()) =~= fb) by {
                assert forall|k: int| 0 <= k < fb.len() implies t[p + 1 + k] == fb[k] by {
                    assert(t[p + (1 + k)] == w[1 + k]);
                }
            }
        },
        Ir::Input | Ir::Output => {
            assert(t[p + 0] == w[0]);
        },
        _ => {
            assert forall|k: int| p <= k < p + w.len() implies #[trigger] t[k] == w[0] by {
                assert(t[p + (k - p)] == w[k - p]);
            }
        },
    }
}

/// Where the tokens of folded nodes within bounds stand in a token sequence,
/// with a `]` or nothing behind them, they are enclosed, and lowering them
/// gives the nodes back.
pub proof fn lemma_round_trip_at(nodes: Seq<Ir>, t: Seq<TOKEN>, p: int)
    requires
        bounded(nodes),
        folded(nodes),
        holds_at(t, p, flatten(nodes)),
        p + flatten(nodes).len() < t.len() ==> t[p + flatten(nodes).len()] == TOKEN::RightLoop,
    ensures
        enclosed(t, p, p + flatten(nodes).len()),
        lower_range(t, p, p + flatten(nodes).len()) == nodes,
        nodes.len() > 0 && node_class(nodes[0]) == Class::Move ==> forall|k: int|
            p <= k < run_end(t, p, Class::Move) ==> #[trigger] t[k] == move_token(nodes[0]),
    decreases nodes,
{
    let end = p + flatten(nodes).len();
    if nodes.len() == 0 {
        assert(lower_range(t, p, p) =~= nodes);
        assert forall|k: int| p <= k <= p implies open_depth(#[trigger] t.take(k)) >= open_depth(
            t.take(p),
        ) by {}
    } else {
        let first = nodes[0];
        let rest = nodes.drop_first();
        let n = node_tokens(first).len() as int;
        lemma_split_front(nodes, t, p);
        lemma_bounded_front(nodes);
        lemma_folded_front(nodes);
        lemma_node_at(first, t, p);
        lemma_round_trip_at(rest, t, p + n);
        assert(seq![first] + rest =~= nodes);
        match first {
            Ir::Loop(body) => {
                lemma_round_trip_at(body, t, p + 1);
                lemma_step_loop(t, p, n, end, body, rest);
            },
            Ir::Add(_) | Ir::Sub(_) => {
                lemma_step_cell(t, p, n, end, first, rest);
            },
            Ir::Input | Ir::Output => {
                lemma_step_io(t, p, end, first, rest);
            },
            Ir::MoveRight(_) | Ir::MoveLeft(_) => {
                lemma_step_move(t, p, n, end, first, rest);
            },
        }
    }
}

/// The tokens that code stands for lower to that code again, where the code
/// is folded and within bounds; and their brackets pair up.
pub proof fn lemma_round_trip(nodes: Seq<Ir>)
    requires
        bounded(nodes),
        folded(nodes),
    ensures
        nested(flatten(nodes)),
        lower(flatten(nodes)) == nodes,
{
    let t = flatten(nodes);
    assert(t.subrange(0, t.len() as int) =~= t);
    lemma_round_trip_at(nodes, t, 0);
}

/// What was lowered stands for tokens that lower to the same code again,
/// where no run of the lowered tokens folded to nothing.
pub proof fn lemma_lowering_round_trip(t: Seq<TOKEN>)
    requires
        every_run_counts(t),
    ensures
        lower(flatten(lower(t))) == lower(t),
{
    lemma_lowering_bounded(t);
    lemma_counting_hides_nothing(t);
    lemma_lowering_folds(t);
    lemma_round_trip(lower(t));
}


/// The tokens of nodes with one more node behind them are their tokens with
/// that node's tokens behind them.
pub proof fn lemma_flatten_push(nodes: Seq<Ir>, node: Ir)
    ensures
        flatten(nodes.push(node)) == flatten(nodes) + node_tokens(node),
    decreases nodes.len(),
{
    if nodes.len() == 0 {
        assert(nodes.push(node).drop_first() =~= Seq::<Ir>::empty());
        assert(flatten(nodes.push(node)) == node_tokens(node) + flatten(Seq::<Ir>::empty()));
        assert(flatten(nodes) + node_tokens(node) =~= node_tokens(node) + Seq::<TOKEN>::empty());
    } else {
        lemma_flatten_push(nodes.drop_first(), node);
        assert(nodes.push(node).drop_first() =~= nodes.drop_first().push(node));
        assert(node_tokens(nodes[0]) + (flatten(nodes.drop_first()) + node_tokens(node))
            =~= node_tokens(nodes[0]) + flatten(nodes.drop_first()) + node_tokens(node));
    }
}

/// Appends `n` times the token `x`.
fn push_repeated(out: &mut Vec<TOKEN>, x: TOKEN, n: u32)
    ensures
        final(out)@ == old(out)@ + repeat(x, n as int),
{
    let mut i: u32 = 0;
    while i < n
        invariant
            i <= n,
            out@ == old(out)@ + repeat(x, i as int),
        decreases n - i,
    {
        out.push(x);
        proof {
            assert(repeat(x, i + 1) =~= repeat(x, i as int).push(x));
            assert(old(out)@ + repeat(x, i + 1) =~= (old(out)@ + repeat(x, i as int)).push(x));
        }
        i += 1;
    }
}

/// Appends the tokens that the nodes stand for.
fn push_tokens(out: &mut Vec<TOKEN>, irs: &Vec<BFIR>)
    ensures
        final(out)@ == old(out)@ + flatten(views(irs@)),
    decreases irs,
{
    let mut index: usize = 0;
    proof {
        assert(irs@.take(0) =~= Seq::<BFIR>::empty());
        assert(old(out)@ + flatten(views(irs@.take(0))) =~= old(out)@);
    }
    while index < irs.len()
        invariant
            index <= irs.len(),
            out@ == old(out)@ + flatten(views(irs@.take(index as int))),
        decreases irs.len() - index,
    {
        let ghost before = out@;
        let ghost done = views(irs@.take(index as int));
        let ghost node = irs@[index as int]@;
        proof {
            lemma_views_take(irs@, index as int);
            lemma_flatten_push(done, node);
        }
        match &irs[index] {
            BFIR::Add(n) => push_repeated(out, TOKEN::Increment, *n as u32),
            BFIR::Sub(n) => push_repeated(out, TOKEN::Decrement, *n as u32),
            BFIR::MoveLeft(k) => push_repeated(out, TOKEN::MoveLeft, *k),
            BFIR::MoveRight(k) => push_repeated(out, TOKEN::MoveRight, *k),
            BFIR::Input => out.push(TOKEN::Input),
            BFIR::Output => out.push(TOKEN::Output),
            BFIR::Loop(body) => {
                out.push(TOKEN::LeftLoop);
                push_tokens(out, body);
                out.push(TOKEN::RightLoop);
            },
        }
        proof {
            assert(out@ =~= before + node_tokens(node));
            assert(old(out)@ + (flatten(done) + node_tokens(node)) =~= old(out)@ + flatten(done)
                + node_tokens(node));
        }
        index += 1;
    }
    proof {
        assert(irs@.take(irs.len() as int) =~= irs@);
    }
}

/// Writes code down as the tokens it stands for: each count as that many
/// tokens, each loop as its body in brackets.
pub fn flatten_ir(irs: &Vec<BFIR>) -> (r: Vec<TOKEN>)
    ensures
        r@ == flatten(views(irs@)),
{
    let mut out: Vec<TOKEN> = Vec::new();
    push_tokens(&mut out, irs);
    proof {
        assert(Seq::<TOKEN>::empty() + flatten(views(irs@)) =~= flatten(views(irs@)));
    }
    out
}

} // verus!
