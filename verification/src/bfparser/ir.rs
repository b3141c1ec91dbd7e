use crate::bfparser::parser::TOKEN;
use crate::bftype::bferror::{RuntimeError, RuntimeErrorKind};
use vstd::prelude::*;

verus! {

/// One node of the intermediate representation.
#[derive(Debug, PartialEq, Eq)]
pub enum BFIR {
    /// Add to the current cell, modulo 256.
    Add(u8),
    /// Subtract from the current cell, modulo 256.
    Sub(u8),
    /// Move the tape pointer down.
    MoveLeft(u32),
    /// Move the tape pointer up.
    MoveRight(u32),
    /// Read one byte into the current cell.
    Input,
    /// Write the current cell.
    Output,
    /// Repeat the body while the current cell is not zero.
    Loop(Vec<BFIR>),
}

/// The mathematical form of a node.
pub enum Ir {
    Add(int),
    Sub(int),
    MoveLeft(int),
    MoveRight(int),
    Input,
    Output,
    Loop(Seq<Ir>),
}

impl View for BFIR {
    type V = Ir;

    open spec fn view(&self) -> Ir
        decreases self,
    {
        match self {
            BFIR::Add(n) => Ir::Add(*n as int),
            BFIR::Sub(n) => Ir::Sub(*n as int),
            BFIR::MoveLeft(k) => Ir::MoveLeft(*k as int),
            BFIR::MoveRight(k) => Ir::MoveRight(*k as int),
            BFIR::Input => Ir::Input,
            BFIR::Output => Ir::Output,
            BFIR::Loop(body) => Ir::Loop(views(body@)),
        }
    }
}

/// The mathematical form of a sequence of nodes.
pub open spec fn views(nodes: Seq<BFIR>) -> Seq<Ir>
    decreases nodes,
{
    if nodes.len() == 0 {
        Seq::empty()
    } else {
        views(nodes.drop_last()).push(nodes.last()@)
    }
}


/// A sequence of nodes is mapped node by node.
pub proof fn lemma_views_index(nodes: Seq<BFIR>, i: int)
    requires
        0 <= i < nodes.len(),
    ensures
        views(nodes).len() == nodes.len(),
        views(nodes)[i] == nodes[i]@,
    decreases nodes.len(),
{
    lemma_views_len(nodes);
    lemma_views_len(nodes.drop_last());
    assert(views(nodes) == views(nodes.drop_last()).push(nodes.last()@));
    if i < nodes.len() - 1 {
        lemma_views_index(nodes.drop_last(), i);
    }
}

/// A sequence of nodes has as many forms as nodes.
pub proof fn lemma_views_len(nodes: Seq<BFIR>)
    ensures
        views(nodes).len() == nodes.len(),
    decreases nodes.len(),
{
    if nodes.len() > 0 {
        lemma_views_len(nodes.drop_last());
        assert(views(nodes) == views(nodes.drop_last()).push(nodes.last()@));
    } else {
        assert(views(nodes) == Seq::<Ir>::empty());
    }
}

/// One more node gives one more form.
pub proof fn lemma_views_push(nodes: Seq<BFIR>, node: BFIR)
    ensures
        views(nodes.push(node)) == views(nodes).push(node@),
{
    assert(nodes.push(node).drop_last() =~= nodes);
    assert(views(nodes.push(node)) == views(nodes.push(node).drop_last()).push(
        nodes.push(node).last()@,
    ));
}

/// The forms of one node more are the forms so far and the form of that node.
pub proof fn lemma_views_take(nodes: Seq<BFIR>, i: int)
    requires
        0 <= i < nodes.len(),
    ensures
        views(nodes.take(i + 1)) == views(nodes.take(i)).push(nodes[i]@),
{
    assert(nodes.take(i + 1) =~= nodes.take(i).push(nodes[i]));
    lemma_views_push(nodes.take(i), nodes[i]);
}


/// The largest count that one move node holds.
pub const MAX_MOVE: u32 = 0x7fff_ffff;

/// What a token is to the lowerer: tokens of one class that follow each other
/// are taken together.
#[derive(Clone, Copy, Debug, PartialEq, Eq, Structural)]
pub enum Class {
    /// `+` and `-`
    Cell,
    /// `<` and `>`
    Move,
    /// `,` and `.`
    Io,
    /// `[`
    Open,
    /// `]`
    Close,
}

/// The class of a token.
pub open spec fn class_of(t: TOKEN) -> Class {
    match t {
        TOKEN::Increment | TOKEN::Decrement => Class::Cell,
        TOKEN::MoveLeft | TOKEN::MoveRight => Class::Move,
        TOKEN::Input | TOKEN::Output => Class::Io,
        TOKEN::LeftLoop => Class::Open,
        TOKEN::RightLoop => Class::Close,
    }
}

/// What one token adds to the cell or to the tape pointer.
pub open spec fn delta(t: TOKEN) -> int {
    match t {
        TOKEN::Increment | TOKEN::MoveRight => 1,
        TOKEN::Decrement | TOKEN::MoveLeft => -1,
        _ => 0,
    }
}

/// Where the longest run of tokens of class `c` that starts at `i` ends; `i`
/// itself where no such token stands at `i`.
pub open spec fn run_end(t: Seq<TOKEN>, i: int, c: Class) -> int
    decreases t.len() - i,
{
    if 0 <= i < t.len() && class_of(t[i]) == c {
        run_end(t, i + 1, c)
    } else {
        i
    }
}

/// What the tokens from `i` up to `j` add up to.
pub open spec fn net(t: Seq<TOKEN>, i: int, j: int) -> int
    decreases j - i,
{
    if i >= j {
        0
    } else {
        net(t, i, j - 1) + delta(t[j - 1])
    }
}

/// The first `]` at or after `i` that closes none of the `[` from `i` on,
/// where `d` more `[` are open at `i`; the length of `t` where there is none.
pub open spec fn close_from(t: Seq<TOKEN>, i: int, d: nat) -> int
    decreases t.len() - i,
{
    if i < 0 || i >= t.len() {
        t.len() as int
    } else if t[i] == TOKEN::RightLoop {
        if d == 0 {
            i
        } else {
            close_from(t, i + 1, (d - 1) as nat)
        }
    } else if t[i] == TOKEN::LeftLoop {
        close_from(t, i + 1, d + 1)
    } else {
        close_from(t, i + 1, d)
    }
}

/// The `]` that closes the `[` at `i`; the length of `t` where none does.
pub open spec fn close_of(t: Seq<TOKEN>, i: int) -> int {
    close_from(t, i + 1, 0)
}

/// A sum as an 8-bit two's-complement accumulator holds it.
pub open spec fn wrap8(x: int) -> int {
    if x % 256 >= 128 {
        x % 256 - 256
    } else {
        x % 256
    }
}

/// The node for a run of `+` and `-` that adds up to `sum`: none where the
/// accumulator ends at zero.
pub open spec fn cell_nodes(sum: int) -> Seq<Ir> {
    if wrap8(sum) > 0 {
        seq![Ir::Add(wrap8(sum))]
    } else if wrap8(sum) < 0 {
        seq![Ir::Sub(-wrap8(sum))]
    } else {
        Seq::empty()
    }
}

/// The nodes for `k` steps in one direction: as many full nodes as fit, then
/// the rest.
pub open spec fn move_chunks(k: int, right: bool) -> Seq<Ir>
    decreases k,
{
    if k <= 0 {
        Seq::empty()
    } else if k <= MAX_MOVE {
        seq![
            if right {
                Ir::MoveRight(k)
            } else {
                Ir::MoveLeft(k)
            },
        ]
    } else {
        seq![
            if right {
                Ir::MoveRight(MAX_MOVE as int)
            } else {
                Ir::MoveLeft(MAX_MOVE as int)
            },
        ] + move_chunks(k - MAX_MOVE, right)
    }
}

/// The nodes for a run of `<` and `>` that adds up to `sum`.
pub open spec fn move_nodes(sum: int) -> Seq<Ir> {
    if sum >= 0 {
        move_chunks(sum, true)
    } else {
        move_chunks(-sum, false)
    }
}

/// The nodes for the tokens `,` and `.` from `i` up to `j`, one each.
pub open spec fn io_nodes(t: Seq<TOKEN>, i: int, j: int) -> Seq<Ir>
    decreases j - i,
{
    if i >= j {
        Seq::empty()
    } else {
        io_nodes(t, i, j - 1).push(
            if t[j - 1] == TOKEN::Input {
                Ir::Input
            } else {
                Ir::Output
            },
        )
    }
}

/// Where the item that starts at `i` ends: a run of one class, or a loop with
/// its brackets. A `]` is no item.
pub open spec fn item_end(t: Seq<TOKEN>, i: int) -> int {
    match class_of(t[i]) {
        Class::Open => close_of(t, i) + 1,
        Class::Close => i,
        c => run_end(t, i, c),
    }
}

/// The nodes for the item that starts at `i`.
pub open spec fn item_nodes(t: Seq<TOKEN>, i: int) -> Seq<Ir>
    decreases t.len() - i, 0int,
{
    if i < 0 || i >= t.len() {
        Seq::empty()
    } else {
        match class_of(t[i]) {
            Class::Cell => cell_nodes(net(t, i, run_end(t, i, Class::Cell))),
            Class::Move => move_nodes(net(t, i, run_end(t, i, Class::Move))),
            Class::Io => io_nodes(t, i, run_end(t, i, Class::Io)),
            Class::Open => seq![Ir::Loop(lower_range(t, i + 1, close_of(t, i)))],
            Class::Close => Seq::empty(),
        }
    }
}

/// The nodes for the items from `i` up to `j`.
pub open spec fn lower_range(t: Seq<TOKEN>, i: int, j: int) -> Seq<Ir>
    decreases t.len() - i, 1int,
{
    if i < 0 || i >= j || j > t.len() || !(i < item_end(t, i) <= j) {
        Seq::empty()
    } else {
        item_nodes(t, i) + lower_range(t, item_end(t, i), j)
    }
}

/// The nodes that a token sequence is lowered to.
pub open spec fn lower(t: Seq<TOKEN>) -> Seq<Ir> {
    lower_range(t, 0, t.len() as int)
}


/// The lowerer's working state: the tokens it reads, one frame of nodes for
/// the program and for each loop that is open, innermost last, and the
/// finished program.
pub struct IRStruct {
    tokens: Vec<TOKEN>,
    tmp_results: Vec<Vec<BFIR>>,
    result: Vec<BFIR>,
}

impl IRStruct {
    /// The tokens being lowered.
    pub closed spec fn tokens(self) -> Seq<TOKEN> {
        self.tokens@
    }

    /// The frames that are open, outermost first.
    pub closed spec fn frames(self) -> Seq<Seq<Ir>> {
        Seq::new(self.tmp_results@.len(), |k: int| views(self.tmp_results@[k]@))
    }

    /// The finished program; empty until the outermost frame is closed.
    pub closed spec fn result(self) -> Seq<Ir> {
        views(self.result@)
    }

    /// Both states hold the same tokens, frames and finished program.
    pub open spec fn unchanged(self, before: IRStruct) -> bool {
        &&& self.tokens() == before.tokens()
        &&& self.frames() == before.frames()
        &&& self.result() == before.result()
    }

    /// A state that reads `tokens`, with no frame open and nothing finished.
    pub fn new(tokens: &Vec<TOKEN>) -> (r: Self)
        ensures
            r.tokens() == tokens@,
            r.frames() == Seq::<Seq<Ir>>::empty(),
            r.result() == Seq::<Ir>::empty(),
    {
        let r = IRStruct { tokens: tokens.clone(), tmp_results: Vec::new(), result: Vec::new() };
        proof {
            assert(r.frames() =~= Seq::<Seq<Ir>>::empty());
            assert(r.tokens@ =~= tokens@);
        }
        r
    }

    /// Starts over on other tokens.
    pub fn init(&mut self, tokens: &Vec<TOKEN>)
        ensures
            final(self).tokens() == tokens@,
            final(self).frames() == Seq::<Seq<Ir>>::empty(),
            final(self).result() == Seq::<Ir>::empty(),
    {
        self.clear(true, true);
        let mut i: usize = 0;
        while i < tokens.len()
            invariant
                i <= tokens.len(),
                self.tokens@ == tokens@.take(i as int),
                self.frames() == Seq::<Seq<Ir>>::empty(),
                self.result() == Seq::<Ir>::empty(),
            decreases tokens.len() - i,
        {
            self.tokens.push(tokens[i]);
            proof {
                assert(tokens@.take(i + 1) =~= tokens@.take(i as int).push(tokens@[i as int]));
                assert(self.frames() =~= Seq::<Seq<Ir>>::empty());
            }
            i += 1;
        }
        proof {
            assert(tokens@.take(tokens.len() as int) =~= tokens@);
        }
    }

    /// Closes every frame, and drops the finished program or the tokens where
    /// asked to.
    pub fn clear(&mut self, clear_result: bool, clear_tokens: bool)
        ensures
            final(self).frames() == Seq::<Seq<Ir>>::empty(),
            final(self).tokens() == if clear_tokens {
                Seq::<TOKEN>::empty()
            } else {
                old(self).tokens()
            },
            final(self).result() == if clear_result {
                Seq::<Ir>::empty()
            } else {
                old(self).result()
            },
    {
        if clear_tokens {
            self.tokens.clear();
        }
        if clear_result {
            self.result.clear();
        }
        self.tmp_results.clear();
        proof {
            assert(self.frames() =~= Seq::<Seq<Ir>>::empty());
        }
    }

    /// The tokens being lowered.
    pub fn get_tokens(&self) -> (r: &Vec<TOKEN>)
        ensures
            r@ == self.tokens(),
    {
        &self.tokens
    }

    /// The finished program.
    pub fn get_result(&self) -> (r: &Vec<BFIR>)
        ensures
            views(r@) == self.result(),
    {
        &self.result
    }

    /// Opens a frame.
    pub fn stack_start(&mut self)
        ensures
            final(self).frames() == old(self).frames().push(Seq::empty()),
            final(self).tokens() == old(self).tokens(),
            final(self).result() == old(self).result(),
    {
        self.tmp_results.push(Vec::new());
        proof {
            assert(final(self).frames() =~= old(self).frames().push(Seq::empty()));
        }
    }

    /// Closes the innermost frame. An inner frame becomes a loop at the end of
    /// the frame around it; the outermost frame becomes the finished program,
    /// and the tokens are dropped. With no frame open nothing changes and the
    /// error is `OutOfRange` at index 0.
    pub fn stack_end(&mut self) -> (r: Result<(), RuntimeError>)
        ensures
            r is Ok <==> old(self).frames().len() > 0,
            r matches Err(e) ==> e == (RuntimeError { index: 0, kind: RuntimeErrorKind::OutOfRange })
                && final(self).unchanged(*old(self)),
            old(self).frames().len() == 1 ==> {
                &&& final(self).frames() == Seq::<Seq<Ir>>::empty()
                &&& final(self).result() == old(self).frames().last()
                &&& final(self).tokens() == Seq::<TOKEN>::empty()
            },
            old(self).frames().len() > 1 ==> {
                &&& final(self).frames() == old(self).frames().drop_last().drop_last().push(
                    old(self).frames()[old(self).frames().len() - 2].push(
                        Ir::Loop(old(self).frames().last()),
                    ),
                )
                &&& final(self).result() == old(self).result()
                &&& final(self).tokens() == old(self).tokens()
            },
    {
        let last = match self.tmp_results.pop() {
            Some(last) => last,
            None => {
                proof {
                    assert(self.frames() =~= old(self).frames());
                }
                return Err(RuntimeError { index: 0, kind: RuntimeErrorKind::OutOfRange });
            },
        };
        match self.tmp_results.pop() {
            None => {
                self.result = last;
                self.clear(false, true);
            },
            Some(mut outer) => {
                proof {
                    lemma_views_push(outer@, BFIR::Loop(last));
                }
                outer.push(BFIR::Loop(last));
                self.tmp_results.push(outer);
                proof {
                    assert(final(self).frames() =~= old(self).frames().drop_last().drop_last().push(
                        old(self).frames()[old(self).frames().len() - 2].push(
                            Ir::Loop(old(self).frames().last()),
                        ),
                    ));
                }
            },
        }
        Ok(())
    }

    /// Appends a node to the innermost frame. With no frame open nothing
    /// changes and the error is `OutOfRange` at index 0.
    pub fn tmp_push(&mut self, ir: BFIR) -> (r: Result<(), RuntimeError>)
        ensures
            r is Ok <==> old(self).frames().len() > 0,
            r matches Err(e) ==> e == (RuntimeError { index: 0, kind: RuntimeErrorKind::OutOfRange })
                && final(self).unchanged(*old(self)),
            r is Ok ==> {
                &&& final(self).frames() == old(self).frames().drop_last().push(
                    old(self).frames().last().push(ir@),
                )
                &&& final(self).result() == old(self).result()
                &&& final(self).tokens() == old(self).tokens()
            },
    {
        match self.tmp_results.pop() {
            None => {
                proof {
                    assert(self.frames() =~= old(self).frames());
                }
                Err(RuntimeError { index: 0, kind: RuntimeErrorKind::OutOfRange })
            },
            Some(mut top) => {
                proof {
                    lemma_views_push(top@, ir);
                }
                top.push(ir);
                self.tmp_results.push(top);
                proof {
                    assert(final(self).frames() =~= old(self).frames().drop_last().push(
                        old(self).frames().last().push(ir@),
                    ));
                }
                Ok(())
            },
        }
    }
}


impl IRStruct {
    /// The state is `before` with `nodes` appended to the innermost frame.
    pub open spec fn extended(self, before: IRStruct, nodes: Seq<Ir>) -> bool {
        &&& self.tokens() == before.tokens()
        &&& self.result() == before.result()
        &&& if nodes.len() == 0 {
            self.frames() == before.frames()
        } else {
            &&& before.frames().len() > 0
            &&& self.frames() == before.frames().drop_last().push(before.frames().last() + nodes)
        }
    }
}

/// Appending in two steps is appending once.
pub proof fn lemma_extended_twice(a: IRStruct, b: IRStruct, c: IRStruct, m: Seq<Ir>, n: Seq<Ir>)
    requires
        b.extended(a, m),
        c.extended(b, n),
    ensures
        c.extended(a, m + n),
{
    if m.len() == 0 {
        assert(m + n =~= n);
    } else if n.len() == 0 {
        assert(m + n =~= m);
    } else {
        assert(b.frames().drop_last() =~= a.frames().drop_last());
        assert(a.frames().last() + m + n =~= a.frames().last() + (m + n));
    }
}

/// Where a run starts, it goes on behind its first token.
pub proof fn lemma_run_step(t: Seq<TOKEN>, i: int, c: Class)
    requires
        0 <= i < t.len(),
        class_of(t[i]) == c,
    ensures
        run_end(t, i, c) == run_end(t, i + 1, c),
        i < run_end(t, i, c) <= t.len(),
    decreases t.len() - i,
{
    lemma_run_bounds(t, i + 1, c);
}

/// A run ends at or behind its start, within the tokens.
pub proof fn lemma_run_bounds(t: Seq<TOKEN>, i: int, c: Class)
    requires
        0 <= i <= t.len(),
    ensures
        i <= run_end(t, i, c) <= t.len(),
    decreases t.len() - i,
{
    if i < t.len() && class_of(t[i]) == c {
        lemma_run_bounds(t, i + 1, c);
    }
}

/// Folds the run of `+` and `-` that starts at `index` into at most one node
/// at the end of the innermost frame, and returns where the run ends. The sum
/// is kept in eight bits and wraps. With no frame open, a node to append is
/// an error, `OutOfRange` at index 0, and nothing changes.
pub fn reduce_duplicate_updown(index: usize, ir_struct: &mut IRStruct) -> (r: Result<
    usize,
    RuntimeError,
>)
    ensures
        match r {
            Ok(next) => next == run_end(old(ir_struct).tokens(), index as int, Class::Cell)
                && final(ir_struct).extended(
                *old(ir_struct),
                cell_nodes(net(old(ir_struct).tokens(), index as int, next as int)),
            ),
            Err(e) => {
                &&& e == (RuntimeError { index: 0, kind: RuntimeErrorKind::OutOfRange })
                &&& final(ir_struct).unchanged(*old(ir_struct))
                &&& old(ir_struct).frames().len() == 0
                &&& cell_nodes(
                    net(
                        old(ir_struct).tokens(),
                        index as int,
                        run_end(old(ir_struct).tokens(), index as int, Class::Cell),
                    ),
                ).len() > 0
            },
        },
{
    let ghost t = ir_struct.tokens();
    let mut count: i16 = 0;
    let mut at: usize = index;
    let len = ir_struct.get_tokens().len();
    while at < len
        invariant
            len == t.len(),
            t == ir_struct.tokens(),
            index <= at,
            -128 <= count <= 127,
            count == wrap8(net(t, index as int, at as int)),
            run_end(t, index as int, Class::Cell) == run_end(t, at as int, Class::Cell),
        ensures
            index <= at,
            at == run_end(t, index as int, Class::Cell),
            -128 <= count <= 127,
            count == wrap8(net(t, index as int, at as int)),
        decreases len - at,
    {
        match ir_struct.get_tokens()[at] {
            TOKEN::Increment => {
                count = if count == 127 {
                    -128
                } else {
                    count + 1
                };
                at += 1;
            },
            TOKEN::Decrement => {
                count = if count == -128 {
                    127
                } else {
                    count - 1
                };
                at += 1;
            },
            _ => break ,
        }
    }
    if count > 0 {
        match ir_struct.tmp_push(BFIR::Add(count as u8)) {
            Ok(()) => {},
            Err(e) => return Err(e),
        }
    } else if count < 0 {
        match ir_struct.tmp_push(BFIR::Sub((-count) as u8)) {
            Ok(()) => {},
            Err(e) => return Err(e),
        }
    }
    proof {
        let nodes = cell_nodes(net(t, index as int, at as int));
        if nodes.len() > 0 {
            assert(old(ir_struct).frames().last().push(nodes[0]) =~= old(ir_struct).frames().last()
                + nodes);
        }
    }
    Ok(at)
}


/// Appends the nodes for `k` steps in one direction to the innermost frame.
fn push_moves(k: usize, right: bool, ir_struct: &mut IRStruct) -> (r: Result<(), RuntimeError>)
    ensures
        match r {
            Ok(()) => final(ir_struct).extended(*old(ir_struct), move_chunks(k as int, right)),
            Err(e) => {
                &&& e == (RuntimeError { index: 0, kind: RuntimeErrorKind::OutOfRange })
                &&& final(ir_struct).unchanged(*old(ir_struct))
                &&& old(ir_struct).frames().len() == 0
                &&& k > 0
            },
        },
{
    let mut left: usize = k;
    let ghost mut pushed: Seq<Ir> = Seq::empty();
    while left > 0
        invariant
            ir_struct.extended(*old(ir_struct), pushed),
            pushed + move_chunks(left as int, right) == move_chunks(k as int, right),
            pushed.len() == 0 ==> left == k,
        decreases left,
    {
        let step: u32 = if left > MAX_MOVE as usize {
            MAX_MOVE
        } else {
            left as u32
        };
        let node = if right {
            BFIR::MoveRight(step)
        } else {
            BFIR::MoveLeft(step)
        };
        let ghost before = *ir_struct;
        match ir_struct.tmp_push(node) {
            Ok(()) => {},
            Err(e) => {
                return Err(e);
            },
        }
        proof {
            assert(before.frames().last().push(node@) =~= before.frames().last() + seq![node@]);
            assert(ir_struct.extended(before, seq![node@]));
            lemma_extended_twice(*old(ir_struct), before, *ir_struct, pushed, seq![node@]);
            assert(move_chunks(left as int, right) =~= seq![node@] + move_chunks(
                left - step,
                right,
            ));
            assert((pushed + seq![node@]) + move_chunks(left - step, right) =~= pushed + (seq![
                node@,
            ] + move_chunks(left - step, right)));
            pushed = pushed + seq![node@];
        }
        left = left - step as usize;
    }
    proof {
        assert(pushed + move_chunks(0, right) =~= pushed);
    }
    Ok(())
}

/// Folds the run of `<` and `>` that starts at `index` into nodes at the end
/// of the innermost frame, and returns where the run ends. A run that adds up
/// to more than one node holds is split. With no frame open, a node to append
/// is an error, `OutOfRange` at index 0, and nothing changes.
pub fn reduce_duplicate_leftright(index: usize, ir_struct: &mut IRStruct) -> (r: Result<
    usize,
    RuntimeError,
>)
    ensures
        match r {
            Ok(next) => next == run_end(old(ir_struct).tokens(), index as int, Class::Move)
                && final(ir_struct).extended(
                *old(ir_struct),
                move_nodes(net(old(ir_struct).tokens(), index as int, next as int)),
            ),
            Err(e) => {
                &&& e == (RuntimeError { index: 0, kind: RuntimeErrorKind::OutOfRange })
                &&& final(ir_struct).unchanged(*old(ir_struct))
                &&& old(ir_struct).frames().len() == 0
                &&& move_nodes(
                    net(
                        old(ir_struct).tokens(),
                        index as int,
                        run_end(old(ir_struct).tokens(), index as int, Class::Move),
                    ),
                ).len() > 0
            },
        },
{
    let ghost t = ir_struct.tokens();
    let mut ups: usize = 0;
    let mut downs: usize = 0;
    let mut at: usize = index;
    let len = ir_struct.get_tokens().len();
    while at < len
        invariant
            len == t.len(),
            t == ir_struct.tokens(),
            index <= at,
            ups + downs == at - index,
            ups - downs == net(t, index as int, at as int),
            run_end(t, index as int, Class::Move) == run_end(t, at as int, Class::Move),
        ensures
            index <= at,
            at == run_end(t, index as int, Class::Move),
            ups - downs == net(t, index as int, at as int),
        decreases len - at,
    {
        match ir_struct.get_tokens()[at] {
            TOKEN::MoveRight => {
                ups += 1;
                at += 1;
            },
            TOKEN::MoveLeft => {
                downs += 1;
                at += 1;
            },
            _ => break ,
        }
    }
    let pushed = if ups >= downs {
        push_moves(ups - downs, true, ir_struct)
    } else {
        push_moves(downs - ups, false, ir_struct)
    };
    match pushed {
        Ok(()) => Ok(at),
        Err(e) => {
            proof {
                reveal_with_fuel(move_chunks, 2);
            }
            Err(e)
        },
    }
}

/// Turns the run of `,` and `.` that starts at `index` into one node each at
/// the end of the innermost frame, and returns where the run ends. With no
/// frame open, a node to append is an error, `OutOfRange` at index 0, and
/// nothing changes.
pub fn reduce_io(index: usize, ir_struct: &mut IRStruct) -> (r: Result<usize, RuntimeError>)
    ensures
        match r {
            Ok(next) => next == run_end(old(ir_struct).tokens(), index as int, Class::Io)
                && final(ir_struct).extended(
                *old(ir_struct),
                io_nodes(old(ir_struct).tokens(), index as int, next as int),
            ),
            Err(e) => {
                &&& e == (RuntimeError { index: 0, kind: RuntimeErrorKind::OutOfRange })
                &&& final(ir_struct).unchanged(*old(ir_struct))
                &&& old(ir_struct).frames().len() == 0
                &&& index < run_end(old(ir_struct).tokens(), index as int, Class::Io)
            },
        },
{
    let ghost t = ir_struct.tokens();
    let mut at: usize = index;
    let len = ir_struct.get_tokens().len();
    while at < len
        invariant
            len == t.len(),
            t == ir_struct.tokens(),
            index <= at,
            ir_struct.extended(*old(ir_struct), io_nodes(t, index as int, at as int)),
            run_end(t, index as int, Class::Io) == run_end(t, at as int, Class::Io),
            at > index ==> old(ir_struct).frames().len() > 0,
        ensures
            index <= at,
            at == run_end(t, index as int, Class::Io),
            ir_struct.extended(*old(ir_struct), io_nodes(t, index as int, at as int)),
        decreases len - at,
    {
        let ghost before = *ir_struct;
        let node = match ir_struct.get_tokens()[at] {
            TOKEN::Input => BFIR::Input,
            TOKEN::Output => BFIR::Output,
            _ => break ,
        };
        proof {
            lemma_run_step(t, at as int, Class::Io);
            lemma_run_bounds(t, index as int, Class::Io);
        }
        match ir_struct.tmp_push(node) {
            Ok(()) => {},
            Err(e) => {
                return Err(e);
            },
        }
        proof {
            assert(before.frames().last().push(node@) =~= before.frames().last() + seq![node@]);
            assert(ir_struct.extended(before, seq![node@]));
            lemma_extended_twice(
                *old(ir_struct),
                before,
                *ir_struct,
                io_nodes(t, index as int, at as int),
                seq![node@],
            );
            assert(io_nodes(t, index as int, at as int) + seq![node@] =~= io_nodes(
                t,
                index as int,
                at + 1,
            ));
        }
        at += 1;
    }
    Ok(at)
}


/// How many more `[` than `]` the tokens hold.
pub open spec fn open_depth(t: Seq<TOKEN>) -> int
    decreases t.len(),
{
    if t.len() == 0 {
        0
    } else {
        open_depth(t.drop_last()) + match t.last() {
            TOKEN::LeftLoop => 1int,
            TOKEN::RightLoop => -1int,
            _ => 0int,
        }
    }
}

/// From `i` up to `j` no `]` closes a `[` that stands before `i`.
pub open spec fn never_below(t: Seq<TOKEN>, i: int, j: int) -> bool {
    forall|k: int| i <= k <= j ==> open_depth(#[trigger] t.take(k)) >= open_depth(t.take(i))
}

/// The tokens from `i` up to `j` are whole items: their brackets pair up
/// among themselves.
pub open spec fn enclosed(t: Seq<TOKEN>, i: int, j: int) -> bool {
    &&& 0 <= i <= j <= t.len()
    &&& open_depth(t.take(j)) == open_depth(t.take(i))
    &&& never_below(t, i, j)
}

/// The brackets of `t` pair up.
pub open spec fn nested(t: Seq<TOKEN>) -> bool {
    enclosed(t, 0, t.len() as int)
}

/// The token at `i` is the first `]` that has no `[` to close.
pub open spec fn first_stray(t: Seq<TOKEN>, i: int) -> bool {
    &&& enclosed(t, 0, i)
    &&& i < t.len()
    &&& t[i] == TOKEN::RightLoop
}

/// The token at `i` is the last `[` that is never closed: it stays open to
/// the end, and behind it as many `[` as `]` follow.
pub open spec fn last_unclosed(t: Seq<TOKEN>, i: int) -> bool {
    &&& 0 <= i < t.len()
    &&& t[i] == TOKEN::LeftLoop
    &&& open_depth(t) == open_depth(t.take(i)) + 1
    &&& forall|k: int|
        i < k <= t.len() ==> open_depth(#[trigger] t.take(k)) > open_depth(t.take(i))
}

/// The depth behind a token is the depth before it, changed by what it is.
pub proof fn lemma_depth_step(t: Seq<TOKEN>, i: int)
    requires
        0 <= i < t.len(),
    ensures
        open_depth(t.take(i + 1)) == open_depth(t.take(i)) + match t[i] {
            TOKEN::LeftLoop => 1int,
            TOKEN::RightLoop => -1int,
            _ => 0int,
        },
        open_depth(t.take(0)) == 0,
{
    assert(t.take(i + 1).drop_last() =~= t.take(i));
}

/// A run of tokens that are no brackets is enclosed.
pub proof fn lemma_run_enclosed(t: Seq<TOKEN>, i: int, c: Class)
    requires
        0 <= i <= t.len(),
        c != Class::Open,
        c != Class::Close,
    ensures
        enclosed(t, i, run_end(t, i, c)),
    decreases t.len() - i,
{
    lemma_run_bounds(t, i, c);
    if i < t.len() && class_of(t[i]) == c {
        lemma_run_enclosed(t, i + 1, c);
        lemma_depth_step(t, i);
        assert forall|k: int| i <= k <= run_end(t, i, c) implies open_depth(
            #[trigger] t.take(k),
        ) >= open_depth(t.take(i)) by {
            if k > i {
                assert(open_depth(t.take(k)) >= open_depth(t.take(i + 1)));
            }
        }
    }
}

/// Enclosed pieces that follow each other are one enclosed piece.
pub proof fn lemma_enclosed_join(t: Seq<TOKEN>, i: int, j: int, k: int)
    requires
        enclosed(t, i, j),
        enclosed(t, j, k),
    ensures
        enclosed(t, i, k),
{
    assert forall|m: int| i <= m <= k implies open_depth(#[trigger] t.take(m)) >= open_depth(
        t.take(i),
    ) by {
        if m > j {
            assert(open_depth(t.take(m)) >= open_depth(t.take(j)));
        }
    }
}

/// A closing bracket is found at or behind the place the search starts at,
/// and what is found within the tokens is a `]`.
pub proof fn lemma_close_bounds(t: Seq<TOKEN>, i: int, d: nat)
    requires
        0 <= i <= t.len(),
    ensures
        i <= close_from(t, i, d) <= t.len(),
        close_from(t, i, d) < t.len() ==> t[close_from(t, i, d)] == TOKEN::RightLoop,
    decreases t.len() - i,
{
    if i < t.len() {
        if t[i] == TOKEN::RightLoop {
            if d > 0 {
                lemma_close_bounds(t, i + 1, (d - 1) as nat);
            }
        } else if t[i] == TOKEN::LeftLoop {
            lemma_close_bounds(t, i + 1, d + 1);
        } else {
            lemma_close_bounds(t, i + 1, d);
        }
    }
}

/// Looking for the closing bracket from `i` with `d` brackets open is looking
/// for it from `j` with as many more open as the tokens between leave open,
/// where these close none of the `d`.
pub proof fn lemma_close_skip(t: Seq<TOKEN>, i: int, j: int, d: nat)
    requires
        0 <= i <= j <= t.len(),
        forall|k: int|
            i <= k <= j ==> d + open_depth(#[trigger] t.take(k)) - open_depth(t.take(i)) >= 0,
    ensures
        close_from(t, i, d) == close_from(
            t,
            j,
            (d + open_depth(t.take(j)) - open_depth(t.take(i))) as nat,
        ),
    decreases j - i,
{
    if i < j {
        lemma_depth_step(t, i);
        let e = d + open_depth(t.take(i + 1)) - open_depth(t.take(i));
        assert(e >= 0);
        assert forall|k: int| i + 1 <= k <= j implies e + open_depth(#[trigger] t.take(k))
            - open_depth(t.take(i + 1)) >= 0 by {
            assert(d + open_depth(t.take(k)) - open_depth(t.take(i)) >= 0);
        }
        lemma_close_skip(t, i + 1, j, e as nat);
    }
}


/// What an item that could not be lowered reports: `OutOfRange`, naming the
/// `]` at `index` itself, or the last `[` from `index` on that is never
/// closed.
pub open spec fn item_fault(t: Seq<TOKEN>, index: int, e: RuntimeError) -> bool {
    &&& e.kind == RuntimeErrorKind::OutOfRange
    &&& index <= e.index < t.len()
    &&& if t[index] == TOKEN::RightLoop {
        e.index == index
    } else {
        last_unclosed(t, e.index as int) && never_below(t, index, t.len() as int)
    }
}

/// The `[` at `i` is never closed.
pub open spec fn unclosed(t: Seq<TOKEN>, i: int) -> bool {
    0 <= i < t.len() && t[i] == TOKEN::LeftLoop && close_of(t, i) >= t.len()
}

/// The frames that lowering from `i` to the end of the tokens leaves open,
/// where `frame` is what the innermost frame holds at `i` and no `]` closes
/// it: the items up to the next `[` that is never closed go into the frame,
/// and behind that `[` a frame of its own begins.
pub open spec fn left_open(t: Seq<TOKEN>, i: int, frame: Seq<Ir>) -> Seq<Seq<Ir>>
    decreases t.len() - i,
{
    if i < 0 || i >= t.len() || (!unclosed(t, i) && !(i < item_end(t, i) <= t.len())) {
        seq![frame]
    } else if unclosed(t, i) {
        seq![frame] + left_open(t, i + 1, Seq::empty())
    } else {
        left_open(t, item_end(t, i), frame + item_nodes(t, i))
    }
}

/// Whether the item at `index` is refused with `depth` frames open: a `]`,
/// which is no item; a `[` that is never closed; or nodes to append with no
/// frame to append them to.
pub open spec fn item_refused(t: Seq<TOKEN>, index: int, depth: nat) -> bool {
    ||| t[index] == TOKEN::RightLoop
    ||| unclosed(t, index)
    ||| depth == 0 && item_nodes(t, index).len() > 0
}

impl IRStruct {
    /// What the refusal of the item at `index` leaves of the state `before`,
    /// and what it reports. Tokens and finished program stay. For a `]` the
    /// error names it and the frames stay. For a `[` that is never closed the
    /// error names the last such `[`, and the frames that were begun stay
    /// open behind those of `before`. For nodes with no frame to append them
    /// to, the error is at index 0 and the frames stay.
    pub open spec fn refused(self, before: IRStruct, index: int, e: RuntimeError) -> bool {
        let t = before.tokens();
        &&& self.tokens() == t
        &&& self.result() == before.result()
        &&& match class_of(t[index]) {
            Class::Close => item_fault(t, index, e) && self.frames() == before.frames(),
            Class::Open => item_fault(t, index, e) && self.frames() == before.frames()
                + left_open(t, index + 1, Seq::empty()),
            _ => e == (RuntimeError { index: 0, kind: RuntimeErrorKind::OutOfRange })
                && self.frames() == before.frames(),
        }
    }
}

/// With one more bracket open, the closing bracket is found no earlier.
pub proof fn lemma_close_later(t: Seq<TOKEN>, i: int, d: nat)
    requires
        0 <= i <= t.len(),
    ensures
        close_from(t, i, d) <= close_from(t, i, d + 1),
    decreases t.len() - i,
{
    if i < t.len() {
        if t[i] == TOKEN::RightLoop {
            if d > 0 {
                lemma_close_later(t, i + 1, (d - 1) as nat);
            } else {
                lemma_close_bounds(t, i + 1, 0);
            }
        } else if t[i] == TOKEN::LeftLoop {
            lemma_close_later(t, i + 1, d + 1);
        } else {
            lemma_close_later(t, i + 1, d);
        }
    }
}

/// Lowers the loop whose `[` stands at `index`: its body becomes a frame of
/// its own, which is closed into one loop node at the end of the frame that
/// was innermost. Returns the index behind the closing `]`. This succeeds
/// exactly where a `]` closes the loop. Where none does, the error names the
/// last `[` that is left open, and the frames that were begun stay open.
pub fn reduce_loop(index: usize, ir_struct: &mut IRStruct) -> (r: Result<usize, RuntimeError>)
    requires
        index < old(ir_struct).tokens().len(),
        old(ir_struct).tokens()[index as int] == TOKEN::LeftLoop,
        old(ir_struct).frames().len() > 0,
    ensures
        r is Ok <==> close_of(old(ir_struct).tokens(), index as int) < old(
            ir_struct,
        ).tokens().len(),
        match r {
            Ok(next) => {
                &&& next == close_of(old(ir_struct).tokens(), index as int) + 1
                &&& next == item_end(old(ir_struct).tokens(), index as int)
                &&& enclosed(old(ir_struct).tokens(), index as int, next as int)
                &&& final(ir_struct).extended(
                    *old(ir_struct),
                    item_nodes(old(ir_struct).tokens(), index as int),
                )
            },
            Err(e) => final(ir_struct).refused(*old(ir_struct), index as int, e),
        },
    decreases old(ir_struct).tokens().len() - index, 0int,
{
    let ghost t = ir_struct.tokens();
    let ghost close = close_of(t, index as int);
    let len = ir_struct.get_tokens().len();
    let mut at: usize = index + 1;
    ir_struct.stack_start();
    proof {
        lemma_depth_step(t, index as int);
        lemma_close_bounds(t, index + 1, 0);
        assert(Seq::<Ir>::empty() + lower_range(t, index + 1, close) =~= lower_range(
            t,
            index + 1,
            close,
        ));
    }
    loop
        invariant
            len == t.len(),
            t == old(ir_struct).tokens(),
            t == ir_struct.tokens(),
            ir_struct.result() == old(ir_struct).result(),
            index < at <= len,
            t[index as int] == TOKEN::LeftLoop,
            close == close_of(t, index as int),
            enclosed(t, index + 1, at as int),
            close_from(t, at as int, 0) == close,
            ir_struct.frames().len() == old(ir_struct).frames().len() + 1,
            ir_struct.frames().drop_last() == old(ir_struct).frames(),
            ir_struct.frames().last() + lower_range(t, at as int, close) == lower_range(
                t,
                index + 1,
                close,
            ),
            left_open(t, at as int, ir_struct.frames().last()) == left_open(
                t,
                index + 1,
                Seq::empty(),
            ),
        ensures
            at < len,
            t[at as int] == TOKEN::RightLoop,
        decreases len - at,
    {
        if at >= len {
            proof {
                lemma_depth_step(t, index as int);
                assert(t.take(at as int) =~= t);
                assert(ir_struct.frames() =~= old(ir_struct).frames() + seq![
                    ir_struct.frames().last(),
                ]);
                assert forall|k: int| index < k <= t.len() implies open_depth(
                    #[trigger] t.take(k),
                ) > open_depth(t.take(index as int)) by {
                    assert(open_depth(t.take(k)) >= open_depth(t.take(index + 1)));
                }
                assert forall|k: int| index <= k <= t.len() implies open_depth(
                    #[trigger] t.take(k),
                ) >= open_depth(t.take(index as int)) by {
                    if k > index {
                        assert(open_depth(t.take(k)) >= open_depth(t.take(index + 1)));
                    }
                }
            }
            return Err(RuntimeError { index, kind: RuntimeErrorKind::OutOfRange });
        }
        match ir_struct.get_tokens()[at] {
            TOKEN::RightLoop => {
                break ;
            },
            _ => {},
        }
        let ghost before = *ir_struct;
        proof {
            lemma_close_bounds(t, at as int, 0);
        }
        match normal(at, ir_struct) {
            Ok(next) => {
                proof {
                    lemma_enclosed_join(t, index + 1, at as int, next as int);
                    assert forall|k: int| at <= k <= next implies 0 + open_depth(
                        #[trigger] t.take(k),
                    ) - open_depth(t.take(at as int)) >= 0 by {}
                    lemma_close_skip(t, at as int, next as int, 0);
                    lemma_close_bounds(t, next as int, 0);
                    let nodes = item_nodes(t, at as int);
                    assert(before.frames().last() + nodes + lower_range(t, next as int, close)
                        =~= before.frames().last() + (nodes + lower_range(
                        t,
                        next as int,
                        close,
                    )));
                    if nodes.len() == 0 {
                        assert(before.frames().last() + nodes =~= before.frames().last());
                    } else {
                        assert(ir_struct.frames().drop_last() =~= before.frames().drop_last());
                    }
                    assert(!unclosed(t, at as int));
                }
                at = next;
            },
            Err(e) => {
                proof {
                    lemma_depth_step(t, index as int);
                    assert(unclosed(t, at as int));
                    lemma_close_later(t, at + 1, 0);
                    lemma_close_bounds(t, at + 1, 0);
                    assert(ir_struct.frames() =~= old(ir_struct).frames() + (seq![
                        before.frames().last(),
                    ] + left_open(t, at + 1, Seq::empty())));
                    assert forall|k: int| index <= k <= t.len() implies open_depth(
                        #[trigger] t.take(k),
                    ) >= open_depth(t.take(index as int)) by {
                        if index < k <= at {
                            assert(open_depth(t.take(k)) >= open_depth(t.take(index + 1)));
                        } else if k > at {
                            assert(open_depth(t.take(k)) >= open_depth(t.take(at as int)));
                        }
                    }
                }
                return Err(e);
            },
        }
    }
    proof {
        lemma_depth_step(t, at as int);
        assert(close == at);
        assert(lower_range(t, at as int, close) =~= Seq::<Ir>::empty());
        assert(ir_struct.frames().last() + Seq::<Ir>::empty() =~= ir_struct.frames().last());
        assert forall|k: int| index <= k <= at + 1 implies open_depth(#[trigger] t.take(k))
            >= open_depth(t.take(index as int)) by {
            if index < k <= at {
                assert(open_depth(t.take(k)) >= open_depth(t.take(index + 1)));
            }
        }
    }
    let ghost body = ir_struct.frames().last();
    let ghost inner = *ir_struct;
    match ir_struct.stack_end() {
        Ok(()) => {},
        Err(e) => {
            return Err(e);
        },
    }
    proof {
        let outer = old(ir_struct).frames();
        assert(inner.frames().drop_last().drop_last() =~= outer.drop_last());
        assert(inner.frames()[inner.frames().len() - 2] == outer.last());
        assert(outer.last().push(Ir::Loop(body)) =~= outer.last() + seq![Ir::Loop(body)]);
    }
    Ok(at + 1)
}

/// Lowers the item that starts at `index` into nodes at the end of the
/// innermost frame and returns the index behind it: a run of `+` and `-`, a
/// run of `<` and `>`, a run of `,` and `.`, or a whole loop. A `]` is no
/// item: it is refused and named, and nothing changes. A `[` that is never
/// closed is refused too. Every other item is lowered where a frame is open.
pub fn normal(index: usize, ir_struct: &mut IRStruct) -> (r: Result<usize, RuntimeError>)
    requires
        index < old(ir_struct).tokens().len(),
        old(ir_struct).tokens()[index as int] == TOKEN::LeftLoop ==> old(ir_struct).frames().len()
            > 0,
    ensures
        r is Err <==> item_refused(
            old(ir_struct).tokens(),
            index as int,
            old(ir_struct).frames().len(),
        ),
        match r {
            Ok(next) => {
                &&& next == item_end(old(ir_struct).tokens(), index as int)
                &&& index < next <= old(ir_struct).tokens().len()
                &&& enclosed(old(ir_struct).tokens(), index as int, next as int)
                &&& final(ir_struct).extended(
                    *old(ir_struct),
                    item_nodes(old(ir_struct).tokens(), index as int),
                )
            },
            Err(e) => final(ir_struct).refused(*old(ir_struct), index as int, e),
        },
    decreases old(ir_struct).tokens().len() - index, 1int,
{
    let ghost t = ir_struct.tokens();
    let token = ir_struct.get_tokens()[index];
    proof {
        lemma_run_step(t, index as int, class_of(token));
        if class_of(token) != Class::Open && class_of(token) != Class::Close {
            lemma_run_enclosed(t, index as int, class_of(token));
        }
        lemma_close_bounds(t, index + 1, 0);
        lemma_run_bounds(t, index as int, class_of(token));
    }
    let reduced = match token {
        TOKEN::Increment | TOKEN::Decrement => reduce_duplicate_updown(index, ir_struct),
        TOKEN::MoveRight | TOKEN::MoveLeft => reduce_duplicate_leftright(index, ir_struct),
        TOKEN::Input | TOKEN::Output => reduce_io(index, ir_struct),
        TOKEN::LeftLoop => reduce_loop(index, ir_struct),
        TOKEN::RightLoop => {
            return Err(RuntimeError { index, kind: RuntimeErrorKind::OutOfRange });
        },
    };
    proof {
        let e = run_end(t, index as int, class_of(token));
        assert(item_nodes(t, index as int) == match class_of(token) {
            Class::Cell => cell_nodes(net(t, index as int, e)),
            Class::Move => move_nodes(net(t, index as int, e)),
            Class::Io => io_nodes(t, index as int, e),
            Class::Open => seq![Ir::Loop(lower_range(t, index + 1, close_of(t, index as int)))],
            Class::Close => Seq::empty(),
        });
    }
    match reduced {
        Ok(next) => Ok(next),
        Err(e) => Err(e),
    }
}


/// What a token sequence that could not be lowered reports: `OutOfRange`,
/// naming the first `]` that closes nothing, or, where there is none, the
/// last `[` that is never closed.
pub open spec fn lowering_fault(t: Seq<TOKEN>, e: RuntimeError) -> bool {
    &&& e.kind == RuntimeErrorKind::OutOfRange
    &&& first_stray(t, e.index as int) || (never_below(t, 0, t.len() as int) && last_unclosed(
        t,
        e.index as int,
    ))
}

/// Lowers a token sequence to its intermediate representation.
///
/// Runs of `+` and `-` and runs of `<` and `>` are folded, `,` and `.` become
/// one node each, and every bracket pair becomes a loop node around the nodes
/// of its body. This succeeds exactly on the sequences whose brackets pair
/// up; any other is refused with `OutOfRange` and the index of the offending
/// bracket.
pub fn transfer_to_ir(tokens: &Vec<TOKEN>) -> (r: Result<Vec<BFIR>, RuntimeError>)
    ensures
        r is Ok <==> nested(tokens@),
        match r {
            Ok(irs) => views(irs@) == lower(tokens@),
            Err(e) => lowering_fault(tokens@, e),
        },
{
    let ghost t = tokens@;
    let mut ir_struct = IRStruct::new(tokens);
    let mut index: usize = 0;
    let len = tokens.len();
    ir_struct.stack_start();
    proof {
        assert(Seq::<Ir>::empty() + lower(t) =~= lower(t));
        assert(t.take(0).len() == 0);
    }
    while index < len
        invariant
            len == t.len(),
            t == tokens@,
            t == ir_struct.tokens(),
            index <= len,
            enclosed(t, 0, index as int),
            ir_struct.frames().len() == 1,
            ir_struct.frames().last() + lower_range(t, index as int, len as int) == lower(t),
        decreases len - index,
    {
        let ghost before = ir_struct;
        match normal(index, &mut ir_struct) {
            Ok(next) => {
                proof {
                    lemma_enclosed_join(t, 0, index as int, next as int);
                    let nodes = item_nodes(t, index as int);
                    assert(before.frames().last() + nodes + lower_range(t, next as int, len as int)
                        =~= before.frames().last() + (nodes + lower_range(
                        t,
                        next as int,
                        len as int,
                    )));
                    if nodes.len() == 0 {
                        assert(before.frames().last() + nodes =~= before.frames().last());
                    }
                }
                index = next;
            },
            Err(e) => {
                proof {
                    lemma_fault_not_nested(t, index as int, e);
                }
                return Err(e);
            },
        }
    }
    proof {
        assert(lower_range(t, len as int, len as int) =~= Seq::<Ir>::empty());
        assert(ir_struct.frames().last() + Seq::<Ir>::empty() =~= ir_struct.frames().last());
    }
    match ir_struct.stack_end() {
        Ok(()) => {},
        Err(e) => {
            return Err(e);
        },
    }
    Ok(ir_struct.result)
}

/// A fault of the item at `index`, behind enclosed tokens, is a fault of the
/// whole sequence, whose brackets then do not pair up.
proof fn lemma_fault_not_nested(t: Seq<TOKEN>, index: int, e: RuntimeError)
    requires
        0 <= index < t.len(),
        enclosed(t, 0, index),
        item_fault(t, index, e),
    ensures
        lowering_fault(t, e),
        !nested(t),
{
    lemma_depth_step(t, index);
    if t[index] == TOKEN::RightLoop {
        assert(open_depth(t.take(index + 1)) < open_depth(t.take(0)));
    } else {
        assert forall|k: int| 0 <= k <= t.len() implies open_depth(#[trigger] t.take(k))
            >= open_depth(t.take(0)) by {
            if k > index {
                assert(open_depth(t.take(k)) >= open_depth(t.take(index)));
            }
        }
        lemma_depth_step(t, e.index as int);
        assert(open_depth(t.take(t.len() as int)) > open_depth(t.take(e.index as int)));
        assert(open_depth(t.take(e.index as int)) >= open_depth(t.take(0)));
    }
}


/// A copy of nodes, loop bodies included.
pub fn clone_nodes(nodes: &Vec<BFIR>) -> (r: Vec<BFIR>)
    ensures
        views(r@) == views(nodes@),
    decreases nodes,
{
    let mut out: Vec<BFIR> = Vec::new();
    let mut i: usize = 0;
    proof {
        assert(nodes@.take(0) =~= Seq::<BFIR>::empty());
        assert(views(out@) =~= views(nodes@.take(0)));
    }
    while i < nodes.len()
        invariant
            i <= nodes.len(),
            views(out@) == views(nodes@.take(i as int)),
        decreases nodes.len() - i,
    {
        let node = match &nodes[i] {
            BFIR::Add(n) => BFIR::Add(*n),
            BFIR::Sub(n) => BFIR::Sub(*n),
            BFIR::MoveLeft(k) => BFIR::MoveLeft(*k),
            BFIR::MoveRight(k) => BFIR::MoveRight(*k),
            BFIR::Input => BFIR::Input,
            BFIR::Output => BFIR::Output,
            BFIR::Loop(body) => BFIR::Loop(clone_nodes(body)),
        };
        proof {
            lemma_views_take(nodes@, i as int);
            lemma_views_push(out@, node);
            assert(node@ == nodes@[i as int]@);
        }
        out.push(node);
        i += 1;
    }
    proof {
        assert(nodes@.take(nodes.len() as int) =~= nodes@);
    }
    out
}

impl Clone for BFIR {
    fn clone(&self) -> (r: Self)
        ensures
            r@ == self@,
    {
        match self {
            BFIR::Add(n) => BFIR::Add(*n),
            BFIR::Sub(n) => BFIR::Sub(*n),
            BFIR::MoveLeft(k) => BFIR::MoveLeft(*k),
            BFIR::MoveRight(k) => BFIR::MoveRight(*k),
            BFIR::Input => BFIR::Input,
            BFIR::Output => BFIR::Output,
            BFIR::Loop(body) => BFIR::Loop(clone_nodes(body)),
        }
    }
}

} // verus!
