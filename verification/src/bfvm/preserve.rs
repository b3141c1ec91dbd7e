use crate::bfparser::folding::lemma_run_stops;
use crate::bfparser::ir::{
    cell_nodes, class_of, close_from, close_of, delta, enclosed, io_nodes, item_end, item_nodes,
    lemma_close_bounds, lemma_depth_step, lemma_run_enclosed, lemma_run_step, lower, lower_range,
    move_chunks, move_nodes, nested, net, open_depth, wrap8, Class, Ir, MAX_MOVE,
};
use crate::bfparser::parser::TOKEN;
use crate::bfparser::roundtrip::{lemma_io_front, lemma_net_split, lemma_run_limit};
use crate::bftype::bferror::RuntimeErrorKind;
use crate::bfvm::machine::{
    exec_ir, exec_runs, exec_tokens, lemma_pointer_stays_on_tape, Machine, Outcome,
};
use vstd::prelude::*;

verus! {

/// Changing a cell twice is changing it once by the sum.
pub proof fn lemma_add_add(m: Machine, a: int, b: int)
    requires
        m.wf(),
    ensures
        m.add(a).add(b) == m.add(a + b),
        m.add(a).wf(),
{
    let x = m.cell() as int;
    assert(((x + a) % 256 + b) % 256 == (x + a + b) % 256);
    assert(m.add(a).add(b).tape =~= m.add(a + b).tape);
}

/// Changing a cell by a multiple of 256 changes nothing.
pub proof fn lemma_add_wrapped(m: Machine, s: int)
    requires
        m.wf(),
    ensures
        m.add(wrap8(s)) == m.add(s),
        wrap8(s) == 0 ==> m.add(s) == m,
{
    let x = m.cell() as int;
    assert((x + wrap8(s)) % 256 == (x + s) % 256);
    if wrap8(s) == 0 {
        assert(m.add(s).tape =~= m.tape);
    }
}

/// Running a stretch of `+` and `-` changes the cell by what they add up to.
pub proof fn lemma_tokens_cell_run(t: Seq<TOKEN>, i: int, e: int, m: Machine, fuel: nat)
    requires
        m.wf(),
        0 <= i <= e <= t.len(),
        forall|k: int| i <= k < e ==> class_of(#[trigger] t[k]) == Class::Cell,
    ensures
        exec_tokens(t, i, m, fuel) == exec_tokens(t, e, m.add(net(t, i, e)), fuel),
    decreases e - i,
{
    if i < e {
        assert(class_of(t[i]) == Class::Cell);
        lemma_add_add(m, delta(t[i]), net(t, i + 1, e));
        lemma_net_split(t, i, i + 1, e);
        assert(net(t, i, i + 1) == net(t, i, i) + delta(t[i]));
        lemma_tokens_cell_run(t, i + 1, e, m.add(delta(t[i])), fuel);
    } else {
        lemma_add_wrapped(m, 0);
    }
}

/// Running a stretch of `<` and `>` either takes the pointer off the tape on
/// the way, or moves it by what they add up to.
pub proof fn lemma_tokens_move_run(t: Seq<TOKEN>, i: int, e: int, m: Machine, fuel: nat)
    requires
        m.wf(),
        0 <= i <= e <= t.len(),
        forall|k: int| i <= k < e ==> class_of(#[trigger] t[k]) == Class::Move,
    ensures
        exec_tokens(t, i, m, fuel).left_tape() || (m.can_move(net(t, i, e)) && exec_tokens(
            t,
            i,
            m,
            fuel,
        ) == exec_tokens(t, e, m.moved(net(t, i, e)), fuel)),
    decreases e - i,
{
    if i < e {
        assert(class_of(t[i]) == Class::Move);
        let d = delta(t[i]);
        lemma_net_split(t, i, i + 1, e);
        assert(net(t, i, i + 1) == net(t, i, i) + delta(t[i]));
        if m.can_move(d) {
            lemma_tokens_move_run(t, i + 1, e, m.moved(d), fuel);
            assert(m.moved(d).moved(net(t, i + 1, e)) == m.moved(net(t, i, e)));
        }
    } else {
        assert(m.moved(0) == m);
    }
}

/// What a stretch of `,` and `.` does to a machine: each reads or writes one
/// byte, and a read with no input left is a fault.
pub open spec fn run_io(t: Seq<TOKEN>, i: int, e: int, m: Machine) -> Outcome
    decreases e - i,
{
    if i >= e {
        Outcome::Done(m)
    } else if t[i] == TOKEN::Input {
        if m.input.len() > 0 {
            run_io(t, i + 1, e, m.read())
        } else {
            Outcome::Fault(RuntimeErrorKind::IO, m)
        }
    } else {
        run_io(t, i + 1, e, m.write())
    }
}

/// The tokens `,` and `.` and their nodes do the same to a machine, however
/// the tokens are run.
pub proof fn lemma_io_run(t: Seq<TOKEN>, i: int, e: int, rest: Seq<Ir>, m: Machine, fuel: nat)
    requires
        m.wf(),
        0 <= i <= e <= t.len(),
        forall|k: int| i <= k < e ==> class_of(#[trigger] t[k]) == Class::Io,
    ensures
        match run_io(t, i, e, m) {
            Outcome::Done(after) => {
                &&& after.wf()
                &&& exec_tokens(t, i, m, fuel) == exec_tokens(t, e, after, fuel)
                &&& exec_runs(t, i, m, fuel) == exec_runs(t, e, after, fuel)
                &&& exec_ir(io_nodes(t, i, e) + rest, m, fuel) == exec_ir(rest, after, fuel)
            },
            other => {
                &&& !other.left_tape()
                &&& exec_tokens(t, i, m, fuel) == other
                &&& exec_runs(t, i, m, fuel) == other
                &&& exec_ir(io_nodes(t, i, e) + rest, m, fuel) == other
            },
        },
    decreases e - i,
{
    if i < e {
        assert(class_of(t[i]) == Class::Io);
        lemma_io_front(t, i, e);
        let nodes = io_nodes(t, i, e) + rest;
        assert(nodes.drop_first() =~= io_nodes(t, i + 1, e) + rest);
        if t[i] == TOKEN::Input {
            assert(nodes[0] == Ir::Input);
            if m.input.len() > 0 {
                lemma_io_run(t, i + 1, e, rest, m.read(), fuel);
            }
        } else {
            assert(nodes[0] == Ir::Output);
            lemma_io_run(t, i + 1, e, rest, m.write(), fuel);
        }
    } else {
        assert(io_nodes(t, i, e) + rest =~= rest);
    }
}

/// The node of a run of `+` and `-` changes the cell by the run's sum.
pub proof fn lemma_cell_nodes_run(s: int, rest: Seq<Ir>, m: Machine, fuel: nat)
    requires
        m.wf(),
    ensures
        exec_ir(cell_nodes(s) + rest, m, fuel) == exec_ir(rest, m.add(s), fuel),
{
    let nodes = cell_nodes(s) + rest;
    lemma_add_wrapped(m, s);
    if wrap8(s) == 0 {
        assert(nodes =~= rest);
    } else {
        assert(nodes.drop_first() =~= rest);
    }
}

/// The nodes of a run of `<` and `>` move the pointer by the run's sum, and
/// take it off the tape where the sum does.
pub proof fn lemma_move_nodes_run(s: int, rest: Seq<Ir>, m: Machine, fuel: nat)
    requires
        m.wf(),
    ensures
        exec_ir(move_nodes(s) + rest, m, fuel) == if m.can_move(s) {
            exec_ir(rest, m.moved(s), fuel)
        } else {
            Outcome::Fault(RuntimeErrorKind::OutOfRange, m)
        },
{
    let nodes = move_nodes(s) + rest;
    reveal_with_fuel(move_chunks, 2);
    if s == 0 {
        assert(nodes =~= rest);
        assert(m.moved(0) == m);
    } else if -MAX_MOVE <= s <= MAX_MOVE {
        assert(nodes.drop_first() =~= rest);
    } else if s > 0 {
        assert(nodes[0] == Ir::MoveRight(MAX_MOVE as int));
    } else {
        assert(nodes[0] == Ir::MoveLeft(MAX_MOVE as int));
    }
}

/// What follows from the brackets of a piece pairing up, for the loop that
/// starts it: its closing bracket stands in the piece, its body is enclosed,
/// and so is what follows the loop.
pub proof fn lemma_loop_in_enclosed(t: Seq<TOKEN>, i: int, j: int)
    requires
        enclosed(t, i, j),
        i < j,
        t[i] == TOKEN::LeftLoop,
    ensures
        i < close_of(t, i) < j,
        t[close_of(t, i)] == TOKEN::RightLoop,
        enclosed(t, i + 1, close_of(t, i)),
        enclosed(t, close_of(t, i) + 1, j),
{
    let m = close_of(t, i);
    lemma_depth_step(t, i);
    lemma_close_bounds(t, i + 1, 0);
    lemma_close_props(t, i + 1, 0);
    if m >= j {
        assert(open_depth(t.take(j)) >= open_depth(t.take(i + 1)));
    }
    lemma_depth_step(t, m);
    assert forall|k: int| m + 1 <= k <= j implies open_depth(#[trigger] t.take(k)) >= open_depth(
        t.take(m + 1),
    ) by {
        assert(open_depth(t.take(k)) >= open_depth(t.take(i)));
    }
}

/// Up to the closing bracket that is looked for with `d` brackets open, no
/// `]` closes more than these; the closing bracket closes the last of them.
pub proof fn lemma_close_props(t: Seq<TOKEN>, i: int, d: nat)
    requires
        0 <= i <= t.len(),
    ensures
        forall|k: int|
            i <= k <= close_from(t, i, d) ==> d + open_depth(#[trigger] t.take(k)) - open_depth(
                t.take(i),
            ) >= 0,
        close_from(t, i, d) < t.len() ==> d + open_depth(t.take(close_from(t, i, d)))
            - open_depth(t.take(i)) == 0,
    decreases t.len() - i,
{
    if i < t.len() {
        lemma_depth_step(t, i);
        lemma_close_bounds(t, i, d);
        if t[i] == TOKEN::RightLoop {
            if d > 0 {
                lemma_close_props(t, i + 1, (d - 1) as nat);
                assert forall|k: int| i <= k <= close_from(t, i, d) implies d + open_depth(
                    #[trigger] t.take(k),
                ) - open_depth(t.take(i)) >= 0 by {
                    if k > i {
                        assert((d - 1) + open_depth(t.take(k)) - open_depth(t.take(i + 1)) >= 0);
                    }
                }
            }
        } else if t[i] == TOKEN::LeftLoop {
            lemma_close_props(t, i + 1, d + 1);
            assert forall|k: int| i <= k <= close_from(t, i, d) implies d + open_depth(
                #[trigger] t.take(k),
            ) - open_depth(t.take(i)) >= 0 by {
                if k > i {
                    assert((d + 1) + open_depth(t.take(k)) - open_depth(t.take(i + 1)) >= 0);
                }
            }
        } else {
            lemma_close_props(t, i + 1, d);
            assert forall|k: int| i <= k <= close_from(t, i, d) implies d + open_depth(
                #[trigger] t.take(k),
            ) - open_depth(t.take(i)) >= 0 by {
                if k > i {
                    assert(d + open_depth(t.take(k)) - open_depth(t.take(i + 1)) >= 0);
                }
            }
        }
    }
}

/// What follows an enclosed piece inside an enclosed piece is enclosed.
pub proof fn lemma_enclosed_rest(t: Seq<TOKEN>, i: int, e: int, j: int)
    requires
        enclosed(t, i, j),
        enclosed(t, i, e),
        e <= j,
    ensures
        enclosed(t, e, j),
{
    assert forall|k: int| e <= k <= j implies open_depth(#[trigger] t.take(k)) >= open_depth(
        t.take(e),
    ) by {
        assert(open_depth(t.take(k)) >= open_depth(t.take(i)));
    }
}


/// Running the code that an enclosed piece lowers to is running its tokens
/// with every run taken in one step; and that is running them one by one,
/// unless the pointer leaves the tape on the way.
pub proof fn lemma_range_preserved(t: Seq<TOKEN>, i: int, j: int, m: Machine, fuel: nat)
    requires
        m.wf(),
        enclosed(t, i, j),
        j < t.len() ==> t[j] == TOKEN::RightLoop,
    ensures
        exec_ir(lower_range(t, i, j), m, fuel) == exec_runs(t, i, m, fuel),
        !exec_tokens(t, i, m, fuel).left_tape() ==> exec_runs(t, i, m, fuel) == exec_tokens(
            t,
            i,
            m,
            fuel,
        ),
    decreases fuel, t.len() - i,
{
    if i < j {
        lemma_depth_step(t, i);
        assert(open_depth(t.take(i + 1)) >= open_depth(t.take(i)));
        let c = class_of(t[i]);
        let e = item_end(t, i);
        if c == Class::Open {
            lemma_loop_preserved(t, i, j, m, fuel);
        } else {
            lemma_run_step(t, i, c);
            lemma_run_limit(t, i, j, c);
            lemma_run_enclosed(t, i, c);
            lemma_enclosed_rest(t, i, e, j);
            lemma_run_stops(t, i, c);
            let rest = lower_range(t, e, j);
            assert(lower_range(t, i, j) == item_nodes(t, i) + rest);
            if c == Class::Cell {
                lemma_tokens_cell_run(t, i, e, m, fuel);
                lemma_cell_nodes_run(net(t, i, e), rest, m, fuel);
                lemma_add_add(m, net(t, i, e), 0);
                lemma_range_preserved(t, e, j, m.add(net(t, i, e)), fuel);
            } else if c == Class::Move {
                lemma_tokens_move_run(t, i, e, m, fuel);
                lemma_move_nodes_run(net(t, i, e), rest, m, fuel);
                if m.can_move(net(t, i, e)) {
                    lemma_range_preserved(t, e, j, m.moved(net(t, i, e)), fuel);
                }
            } else {
                lemma_io_run(t, i, e, rest, m, fuel);
                match run_io(t, i, e, m) {
                    Outcome::Done(after) => lemma_range_preserved(t, e, j, after, fuel),
                    _ => {},
                }
            }
        }
    } else {
        assert(lower_range(t, i, j) =~= Seq::<Ir>::empty());
    }
}

/// The step of [`lemma_range_preserved`] for a piece that starts with a
/// loop.
pub proof fn lemma_loop_preserved(t: Seq<TOKEN>, i: int, j: int, m: Machine, fuel: nat)
    requires
        m.wf(),
        enclosed(t, i, j),
        i < j,
        t[i] == TOKEN::LeftLoop,
        j < t.len() ==> t[j] == TOKEN::RightLoop,
    ensures
        exec_ir(lower_range(t, i, j), m, fuel) == exec_runs(t, i, m, fuel),
        !exec_tokens(t, i, m, fuel).left_tape() ==> exec_runs(t, i, m, fuel) == exec_tokens(
            t,
            i,
            m,
            fuel,
        ),
    decreases fuel, t.len() - i, 0int,
{
    let close = close_of(t, i);
    lemma_loop_in_enclosed(t, i, j);
    let body = lower_range(t, i + 1, close);
    let rest = lower_range(t, close + 1, j);
    let nodes = lower_range(t, i, j);
    assert(item_nodes(t, i) =~= seq![Ir::Loop(body)]);
    assert(nodes == item_nodes(t, i) + rest);
    assert(nodes[0] == Ir::Loop(body));
    assert(nodes.drop_first() =~= rest);
    if m.cell() == 0 {
        lemma_range_preserved(t, close + 1, j, m, fuel);
    } else if fuel > 0 {
        let less = (fuel - 1) as nat;
        lemma_range_preserved(t, i + 1, close, m, less);
        match exec_runs(t, i + 1, m, less) {
            Outcome::Done(after) => {
                lemma_pointer_stays_on_tape(body, m, less);
                lemma_range_preserved(t, i, j, after, less);
            },
            _ => {},
        }
    }
}

/// Lowering folds and changes nothing else: running the code that tokens
/// lower to ends as running the tokens with every run of `+` and `-` and
/// every run of `<` and `>` taken in one step, in the same state, with the
/// same input read and the same output written. This holds of all tokens
/// whose brackets pair up, from every state, with any fuel.
pub proof fn lemma_lowering_runs_folded(t: Seq<TOKEN>, m: Machine, fuel: nat)
    requires
        nested(t),
        m.wf(),
    ensures
        exec_ir(lower(t), m, fuel) == exec_runs(t, 0, m, fuel),
{
    lemma_range_preserved(t, 0, t.len() as int, m, fuel);
}

/// Taking runs in one step keeps the meaning of the tokens, unless running
/// them one by one takes the pointer off the tape; and where taking runs in
/// one step takes the pointer off the tape, so does running them one by one.
pub proof fn lemma_folding_preserves_meaning(t: Seq<TOKEN>, m: Machine, fuel: nat)
    requires
        nested(t),
        m.wf(),
    ensures
        !exec_tokens(t, 0, m, fuel).left_tape() ==> exec_runs(t, 0, m, fuel) == exec_tokens(
            t,
            0,
            m,
            fuel,
        ),
        exec_runs(t, 0, m, fuel).left_tape() ==> exec_tokens(t, 0, m, fuel).left_tape(),
{
    lemma_range_preserved(t, 0, t.len() as int, m, fuel);
}

/// Lowering keeps the meaning: running tokens whose brackets pair up and
/// running the code they lower to end the same way, in the same state, with
/// the same input read and the same output written, unless running the
/// tokens takes the pointer off the tape.
pub proof fn lemma_lowering_preserves_meaning(t: Seq<TOKEN>, m: Machine, fuel: nat)
    requires
        nested(t),
        m.wf(),
    ensures
        !exec_tokens(t, 0, m, fuel).left_tape() ==> exec_ir(lower(t), m, fuel) == exec_tokens(
            t,
            0,
            m,
            fuel,
        ),
{
    lemma_range_preserved(t, 0, t.len() as int, m, fuel);
}

} // verus!
