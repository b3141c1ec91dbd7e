use crate::bfparser::assembler::{
    assembler_new, dynamic_label, dynamic_reloc, global_label, global_reloc, label_id,
    new_dynamic_label, push, AsmState, X64Assembler,
};
use crate::bfparser::folding::{bounded, node_bounded};
use crate::bfparser::ir::{lemma_views_index, lemma_views_take, views, Ir, BFIR, MAX_MOVE};
use crate::bfparser::labels::{lemma_program_resolves, resolvable};
use crate::bftype::bfcate::VMArchType;
use crate::bftype::bferror::{RuntimeError, RuntimeErrorKind};
use vstd::prelude::*;

verus! {

/// The addresses of the host routines that generated code calls. All three
/// follow the System V AMD64 calling convention and return a pointer to a
/// boxed error, or null.
#[derive(Clone, Copy, Debug, PartialEq, Eq, Structural)]
pub struct HostCalls {
    /// `(engine, cell)`: reads one byte of input into the cell.
    pub read_byte: u64,
    /// `(engine, cell)`: writes the cell as one byte of output.
    pub write_byte: u64,
    /// `()`: boxes the error for a tape pointer that left the tape.
    pub overflow_error: u64,
}

/// What a label or a jump names.
pub enum Target {
    /// The dynamic label with this id.
    Dynamic(int),
    /// The global label with this name.
    Global(Seq<char>),
}

/// One line of an assembly listing.
pub enum Item {
    /// Machine code, byte for byte.
    Code(Seq<u8>),
    /// Hands out the next dynamic label.
    NewLabel,
    /// Places a label at this point.
    Label(Target),
    /// A jump: the opcode, then a 32-bit displacement to the target, counted
    /// from the end of the instruction and filled in when the code is
    /// committed.
    Jump(Seq<u8>, Target),
}

/// The name of the global label that ends a run whose tape pointer left the
/// tape.
pub open spec fn overflow_label() -> Seq<char> {
    "overflow"@
}

/// The name of the global label that returns what is in `rax`: null after the
/// last instruction, or the error that a host routine handed back.
pub open spec fn io_error_label() -> Seq<char> {
    "io_error"@
}

/// The `n` low bytes of `v`, lowest first.
pub open spec fn le_bytes(v: int, n: nat) -> Seq<u8>
    decreases n,
{
    if n == 0 {
        Seq::empty()
    } else {
        seq![(v % 256) as u8] + le_bytes(v / 256, (n - 1) as nat)
    }
}

/// `add byte [rbx], n`
pub open spec fn code_add(n: int) -> Seq<u8> {
    seq![0x80u8, 0x03u8, n as u8]
}

/// `sub byte [rbx], n`
pub open spec fn code_sub(n: int) -> Seq<u8> {
    seq![0x80u8, 0x2bu8, n as u8]
}

/// `add rbx, k`
pub open spec fn code_move_right(k: int) -> Seq<u8> {
    seq![0x48u8, 0x81u8, 0xc3u8] + le_bytes(k, 4)
}

/// `sub rbx, k`
pub open spec fn code_move_left(k: int) -> Seq<u8> {
    seq![0x48u8, 0x81u8, 0xebu8] + le_bytes(k, 4)
}

/// `cmp rbx, r14`: the tape pointer against the end of the tape.
pub open spec fn code_at_end() -> Seq<u8> {
    seq![0x4cu8, 0x39u8, 0xf3u8]
}

/// `cmp rbx, r13`: the tape pointer against the start of the tape.
pub open spec fn code_at_start() -> Seq<u8> {
    seq![0x4cu8, 0x39u8, 0xebu8]
}

/// `mov r15, rbx; mov rdi, r12; mov rsi, rbx; mov rax, routine; call rax;
/// test rax, rax`: saves the tape pointer and calls a host routine with the
/// engine and the current cell.
pub open spec fn code_host_call(routine: u64) -> Seq<u8> {
    seq![0x49u8, 0x89u8, 0xdfu8, 0x4cu8, 0x89u8, 0xe7u8, 0x48u8, 0x89u8, 0xdeu8, 0x48u8, 0xb8u8]
        + le_bytes(routine as int, 8) + seq![0xffu8, 0xd0u8, 0x48u8, 0x85u8, 0xc0u8]
}

/// `mov rbx, r15`: takes the saved tape pointer back.
pub open spec fn code_restore() -> Seq<u8> {
    seq![0x4cu8, 0x89u8, 0xfbu8]
}

/// `cmp byte [rbx], 0`
pub open spec fn code_test_cell() -> Seq<u8> {
    seq![0x80u8, 0x3bu8, 0x00u8]
}

/// `jb`, which is also `jc`: taken on a borrow or a carry.
pub open spec fn op_jb() -> Seq<u8> {
    seq![0x0fu8, 0x82u8]
}

/// `jae`: taken where an unsigned comparison found no borrow.
pub open spec fn op_jae() -> Seq<u8> {
    seq![0x0fu8, 0x83u8]
}

/// `jz`
pub open spec fn op_jz() -> Seq<u8> {
    seq![0x0fu8, 0x84u8]
}

/// `jnz`
pub open spec fn op_jnz() -> Seq<u8> {
    seq![0x0fu8, 0x85u8]
}

/// `jmp`
pub open spec fn op_jmp() -> Seq<u8> {
    seq![0xe9u8]
}

/// `push rbx; push r12; push r13; push r14; push r15; mov r12, rdi;
/// mov r13, rsi; mov r14, rdx; mov rbx, rsi`: saves the five registers the
/// code uses, which also leaves the stack aligned for calls, keeps the engine
/// in `r12`, the start of the tape in `r13`, its end in `r14`, and starts the
/// tape pointer `rbx` at the start of the tape.
pub open spec fn code_prologue() -> Seq<u8> {
    seq![
        0x53u8,
        0x41u8,
        0x54u8,
        0x41u8,
        0x55u8,
        0x41u8,
        0x56u8,
        0x41u8,
        0x57u8,
        0x49u8,
        0x89u8,
        0xfcu8,
        0x49u8,
        0x89u8,
        0xf5u8,
        0x49u8,
        0x89u8,
        0xd6u8,
        0x48u8,
        0x89u8,
        0xf3u8,
    ]
}

/// `xor eax, eax`: the null pointer that reports success.
pub open spec fn code_success() -> Seq<u8> {
    seq![0x31u8, 0xc0u8]
}

/// `pop r15; pop r14; pop r13; pop r12; pop rbx; ret`
pub open spec fn code_epilogue() -> Seq<u8> {
    seq![0x41u8, 0x5fu8, 0x41u8, 0x5eu8, 0x41u8, 0x5du8, 0x41u8, 0x5cu8, 0x5bu8, 0xc3u8]
}

/// `mov rax, routine; call rax`
pub open spec fn code_call(routine: u64) -> Seq<u8> {
    seq![0x48u8, 0xb8u8] + le_bytes(routine as int, 8) + seq![0xffu8, 0xd0u8]
}

/// How many dynamic labels the listing of `nodes` hands out: two for each
/// loop, at any depth.
pub open spec fn labels_in(nodes: Seq<Ir>) -> nat
    decreases nodes,
{
    if nodes.len() == 0 {
        0
    } else {
        labels_in(nodes.drop_last()) + labels_of(nodes.last())
    }
}

/// How many dynamic labels the listing of one node hands out.
pub open spec fn labels_of(node: Ir) -> nat
    decreases node,
{
    match node {
        Ir::Loop(body) => 2 + labels_in(body),
        _ => 0,
    }
}

/// The listing of one node, where `next` dynamic labels were handed out
/// before it.
pub open spec fn node_listing(node: Ir, host: HostCalls, next: int) -> Seq<Item>
    decreases node,
{
    match node {
        Ir::Add(n) => seq![Item::Code(code_add(n))],
        Ir::Sub(n) => seq![Item::Code(code_sub(n))],
        Ir::MoveRight(k) => seq![
            Item::Code(code_move_right(k)),
            Item::Jump(op_jb(), Target::Global(overflow_label())),
            Item::Code(code_at_end()),
            Item::Jump(op_jae(), Target::Global(overflow_label())),
        ],
        Ir::MoveLeft(k) => seq![
            Item::Code(code_move_left(k)),
            Item::Jump(op_jb(), Target::Global(overflow_label())),
            Item::Code(code_at_start()),
            Item::Jump(op_jb(), Target::Global(overflow_label())),
        ],
        Ir::Input => seq![
            Item::Code(code_host_call(host.read_byte)),
            Item::Jump(op_jnz(), Target::Global(io_error_label())),
            Item::Code(code_restore()),
        ],
        Ir::Output => seq![
            Item::Code(code_host_call(host.write_byte)),
            Item::Jump(op_jnz(), Target::Global(io_error_label())),
            Item::Code(code_restore()),
        ],
        Ir::Loop(body) => seq![
            Item::NewLabel,
            Item::NewLabel,
            Item::Code(code_test_cell()),
            Item::Jump(op_jz(), Target::Dynamic(next + 1)),
            Item::Label(Target::Dynamic(next)),
        ] + listing(body, host, next + 2) + seq![
            Item::Code(code_test_cell()),
            Item::Jump(op_jnz(), Target::Dynamic(next)),
            Item::Label(Target::Dynamic(next + 1)),
        ],
    }
}

/// The listing of a sequence of nodes, where `next` dynamic labels were
/// handed out before it.
pub open spec fn listing(nodes: Seq<Ir>, host: HostCalls, next: int) -> Seq<Item>
    decreases nodes,
{
    if nodes.len() == 0 {
        Seq::empty()
    } else {
        listing(nodes.drop_last(), host, next) + node_listing(
            nodes.last(),
            host,
            next + labels_in(nodes.drop_last()),
        )
    }
}

/// The listing of a whole program: the prologue, the nodes, the return of
/// null, and the two handlers, each placed once. `io_error` returns whatever
/// `rax` holds; `overflow` has the host box its error and returns that.
pub open spec fn program(nodes: Seq<Ir>, host: HostCalls) -> Seq<Item> {
    seq![Item::Code(code_prologue())] + listing(nodes, host, 0) + seq![
        Item::Code(code_success()),
        Item::Label(Target::Global(io_error_label())),
        Item::Code(code_epilogue()),
        Item::Label(Target::Global(overflow_label())),
        Item::Code(code_call(host.overflow_error)),
        Item::Jump(op_jmp(), Target::Global(io_error_label())),
    ]
}

/// The assembler after `bytes` were emitted into it.
pub open spec fn emit_all(st: AsmState, bytes: Seq<u8>) -> AsmState
    decreases bytes.len(),
{
    if bytes.len() == 0 {
        st
    } else {
        emit_all(st, bytes.drop_last()).emit(bytes.last())
    }
}

/// The assembler after one line of a listing.
pub open spec fn assemble_item(st: AsmState, item: Item) -> AsmState {
    match item {
        Item::Code(bytes) => emit_all(st, bytes),
        Item::NewLabel => st.alloc_label(),
        Item::Label(Target::Dynamic(id)) => st.place_dynamic(id),
        Item::Label(Target::Global(name)) => st.place_global(name),
        Item::Jump(opcode, target) => {
            let at = emit_all(st, opcode + seq![0u8, 0u8, 0u8, 0u8]);
            match target {
                Target::Dynamic(id) => at.refer_dynamic(id, at.patch_here(0, 4, 0, 4)),
                Target::Global(name) => at.refer_global(name, at.patch_here(0, 4, 0, 4)),
            }
        },
    }
}

/// The assembler after a listing.
pub open spec fn assemble(st: AsmState, items: Seq<Item>) -> AsmState
    decreases items.len(),
{
    if items.len() == 0 {
        st
    } else {
        assemble_item(assemble(st, items.drop_last()), items.last())
    }
}

/// Every count of `nodes`, at any depth, fits the operand of its
/// instruction: a cell change one byte, a move four bytes that are not taken
/// for a negative number.
pub open spec fn encodable(nodes: Seq<Ir>) -> bool
    decreases nodes,
{
    nodes.len() > 0 ==> encodable(nodes.drop_last()) && node_encodable(nodes.last())
}

/// The count of the node, and every count in its body, fits the operand of
/// its instruction.
pub open spec fn node_encodable(node: Ir) -> bool
    decreases node,
{
    match node {
        Ir::Add(n) => 0 <= n <= 255,
        Ir::Sub(n) => 0 <= n <= 255,
        Ir::MoveLeft(k) => 0 <= k <= MAX_MOVE,
        Ir::MoveRight(k) => 0 <= k <= MAX_MOVE,
        Ir::Loop(body) => encodable(body),
        _ => true,
    }
}

/// Nodes within the bounds that lowering keeps can be encoded.
pub proof fn lemma_bounded_encodable(nodes: Seq<Ir>)
    requires
        bounded(nodes),
    ensures
        encodable(nodes),
    decreases nodes,
{
    if nodes.len() > 0 {
        lemma_bounded_encodable(nodes.drop_last());
        assert(bounded(nodes.drop_last()) && node_bounded(nodes.last()));
        match nodes.last() {
            Ir::Loop(body) => {
                lemma_bounded_encodable(body);
            },
            _ => {},
        }
        assert(node_encodable(nodes.last()));
    }
}

/// Whether code can be encoded: whether no move in it, at any depth, is
/// longer than the largest count.
pub fn can_encode(irs: &Vec<BFIR>) -> (r: bool)
    ensures
        r == encodable(views(irs@)),
    decreases irs,
{
    let mut i: usize = 0;
    proof {
        assert(views(irs@.take(0)) =~= Seq::<Ir>::empty());
    }
    while i < irs.len()
        invariant
            i <= irs.len(),
            encodable(views(irs@.take(i as int))),
        decreases irs.len() - i,
    {
        let fits = match &irs[i] {
            BFIR::MoveLeft(k) => *k <= MAX_MOVE,
            BFIR::MoveRight(k) => *k <= MAX_MOVE,
            BFIR::Loop(body) => can_encode(body),
            _ => true,
        };
        proof {
            let done = views(irs@.take(i as int));
            lemma_views_take(irs@, i as int);
            lemma_views_index(irs@, i as int);
            assert(done.push(irs@[i as int]@).drop_last() =~= done);
            assert(fits == node_encodable(irs@[i as int]@));
            if !fits && encodable(views(irs@)) {
                lemma_encodable_index(views(irs@), i as int);
            }
        }
        if !fits {
            return false;
        }
        i += 1;
    }
    proof {
        assert(irs@.take(irs.len() as int) =~= irs@);
    }
    true
}

/// Every node of code that can be encoded can be encoded.
pub proof fn lemma_encodable_index(nodes: Seq<Ir>, i: int)
    requires
        encodable(nodes),
        0 <= i < nodes.len(),
    ensures
        node_encodable(nodes[i]),
    decreases nodes.len(),
{
    if i < nodes.len() - 1 {
        lemma_encodable_index(nodes.drop_last(), i);
    }
}

/// Emitting bytes in two parts is emitting them at once.
pub proof fn lemma_emit_all_concat(st: AsmState, a: Seq<u8>, b: Seq<u8>)
    ensures
        emit_all(st, a + b) == emit_all(emit_all(st, a), b),
    decreases b.len(),
{
    if b.len() == 0 {
        assert(a + b =~= a);
    } else {
        assert((a + b).drop_last() =~= a + b.drop_last());
        lemma_emit_all_concat(st, a, b.drop_last());
    }
}

/// Emitting one byte is pushing it.
pub proof fn lemma_emit_all_one(st: AsmState, b: u8)
    ensures
        emit_all(st, seq![b]) == st.emit(b),
{
    assert(seq![b].drop_last() =~= Seq::<u8>::empty());
    assert(emit_all(st, seq![b].drop_last()) == st);
}

/// Assembling a listing in two parts is assembling it at once.
pub proof fn lemma_assemble_concat(st: AsmState, a: Seq<Item>, b: Seq<Item>)
    ensures
        assemble(st, a + b) == assemble(assemble(st, a), b),
    decreases b.len(),
{
    if b.len() == 0 {
        assert(a + b =~= a);
    } else {
        assert((a + b).drop_last() =~= a + b.drop_last());
        lemma_assemble_concat(st, a, b.drop_last());
    }
}

/// Assembling a listing with one more line is assembling the line behind it.
pub proof fn lemma_assemble_push(st: AsmState, a: Seq<Item>, item: Item)
    ensures
        assemble(st, a.push(item)) == assemble_item(assemble(st, a), item),
{
    assert(a.push(item).drop_last() =~= a);
}

/// Emitting code changes neither the labels nor the references, and notes
/// no error.
pub proof fn lemma_emit_all_frame(st: AsmState, bytes: Seq<u8>)
    ensures
        emit_all(st, bytes).faulted == st.faulted,
        emit_all(st, bytes).bytes == st.bytes + bytes,
        emit_all(st, bytes).dynamic_labels == st.dynamic_labels,
        emit_all(st, bytes).global_labels == st.global_labels,
        emit_all(st, bytes).dynamic_relocs == st.dynamic_relocs,
        emit_all(st, bytes).global_relocs == st.global_relocs,
    decreases bytes.len(),
{
    if bytes.len() == 0 {
        assert(st.bytes + bytes =~= st.bytes);
    } else {
        lemma_emit_all_frame(st, bytes.drop_last());
        assert(st.bytes + bytes =~= (st.bytes + bytes.drop_last()).push(bytes.last()));
    }
}

/// A listing hands out as many dynamic labels as [`labels_in`] counts.
pub proof fn lemma_listing_labels(st: AsmState, nodes: Seq<Ir>, host: HostCalls, next: int)
    ensures
        assemble(st, listing(nodes, host, next)).dynamic_labels.len() == st.dynamic_labels.len()
            + labels_in(nodes),
    decreases nodes, 1int,
{
    if nodes.len() > 0 {
        let before = listing(nodes.drop_last(), host, next);
        let at = next + labels_in(nodes.drop_last());
        lemma_listing_labels(st, nodes.drop_last(), host, next);
        lemma_assemble_concat(st, before, node_listing(nodes.last(), host, at));
        lemma_node_labels(assemble(st, before), nodes.last(), host, at);
    }
}

proof fn lemma_item_labels(st: AsmState, item: Item)
    ensures
        assemble_item(st, item).dynamic_labels.len() == st.dynamic_labels.len() + if item
            is NewLabel {
            1int
        } else {
            0int
        },
{
    match item {
        Item::Code(bytes) => lemma_emit_all_frame(st, bytes),
        Item::Jump(opcode, _) => lemma_emit_all_frame(st, opcode + seq![0u8, 0u8, 0u8, 0u8]),
        _ => {},
    }
}

proof fn lemma_node_labels(st: AsmState, node: Ir, host: HostCalls, next: int)
    ensures
        assemble(st, node_listing(node, host, next)).dynamic_labels.len()
            == st.dynamic_labels.len() + labels_of(node),
    decreases node, 0int,
{
    match node {
        Ir::Loop(body) => {
            let head = seq![
                Item::NewLabel,
                Item::NewLabel,
                Item::Code(code_test_cell()),
                Item::Jump(op_jz(), Target::Dynamic(next + 1)),
                Item::Label(Target::Dynamic(next)),
            ];
            let tail = seq![
                Item::Code(code_test_cell()),
                Item::Jump(op_jnz(), Target::Dynamic(next)),
                Item::Label(Target::Dynamic(next + 1)),
            ];
            let mid = listing(body, host, next + 2);
            lemma_assemble_concat(st, head + mid, tail);
            lemma_assemble_concat(st, head, mid);
            lemma_unfold5(st, head);
            lemma_listing_labels(assemble(st, head), body, host, next + 2);
            lemma_unfold3(assemble(st, head + mid), tail);
            lemma_item_labels(st, head[0]);
            lemma_item_labels(assemble_item(st, head[0]), head[1]);
            let s2 = assemble_item(assemble_item(st, head[0]), head[1]);
            lemma_item_labels(s2, head[2]);
            lemma_item_labels(assemble_item(s2, head[2]), head[3]);
            lemma_item_labels(assemble_item(assemble_item(s2, head[2]), head[3]), head[4]);
            let t0 = assemble(st, head + mid);
            lemma_item_labels(t0, tail[0]);
            lemma_item_labels(assemble_item(t0, tail[0]), tail[1]);
            lemma_item_labels(assemble_item(assemble_item(t0, tail[0]), tail[1]), tail[2]);
        },
        Ir::MoveLeft(_) | Ir::MoveRight(_) => {
            let l = node_listing(node, host, next);
            lemma_unfold4(st, l);
            lemma_item_labels(st, l[0]);
            lemma_item_labels(assemble_item(st, l[0]), l[1]);
            let s2 = assemble_item(assemble_item(st, l[0]), l[1]);
            lemma_item_labels(s2, l[2]);
            lemma_item_labels(assemble_item(s2, l[2]), l[3]);
        },
        Ir::Input | Ir::Output => {
            let l = node_listing(node, host, next);
            lemma_unfold3(st, l);
            lemma_item_labels(st, l[0]);
            lemma_item_labels(assemble_item(st, l[0]), l[1]);
            lemma_item_labels(assemble_item(assemble_item(st, l[0]), l[1]), l[2]);
        },
        Ir::Add(_) | Ir::Sub(_) => {
            let l = node_listing(node, host, next);
            lemma_unfold1(st, l);
            lemma_item_labels(st, l[0]);
        },
    }
}

/// A listing of one line, line by line.
pub proof fn lemma_unfold1(st: AsmState, l: Seq<Item>)
    requires
        l.len() == 1,
    ensures
        assemble(st, l) == assemble_item(st, l[0]),
{
    assert(l.drop_last() =~= Seq::<Item>::empty());
    assert(assemble(st, l.drop_last()) == st);
}

/// A listing of two lines, line by line.
pub proof fn lemma_unfold2(st: AsmState, l: Seq<Item>)
    requires
        l.len() == 2,
    ensures
        assemble(st, l) == assemble_item(assemble_item(st, l[0]), l[1]),
{
    lemma_unfold1(st, l.drop_last());
}

/// A listing of three lines, line by line.
pub proof fn lemma_unfold3(st: AsmState, l: Seq<Item>)
    requires
        l.len() == 3,
    ensures
        assemble(st, l) == assemble_item(assemble_item(assemble_item(st, l[0]), l[1]), l[2]),
{
    lemma_unfold2(st, l.drop_last());
}

/// A listing of four lines, line by line.
pub proof fn lemma_unfold4(st: AsmState, l: Seq<Item>)
    requires
        l.len() == 4,
    ensures
        assemble(st, l) == assemble_item(
            assemble_item(assemble_item(assemble_item(st, l[0]), l[1]), l[2]),
            l[3],
        ),
{
    lemma_unfold3(st, l.drop_last());
}

/// A listing of five lines, line by line.
pub proof fn lemma_unfold5(st: AsmState, l: Seq<Item>)
    requires
        l.len() == 5,
    ensures
        assemble(st, l) == assemble_item(
            assemble_item(
                assemble_item(assemble_item(assemble_item(st, l[0]), l[1]), l[2]),
                l[3],
            ),
            l[4],
        ),
{
    lemma_unfold4(st, l.drop_last());
}


/// Emits `bytes` as they are.
fn emit_code(ops: &mut X64Assembler, bytes: &Vec<u8>)
    ensures
        final(ops)@ == emit_all(old(ops)@, bytes@),
{
    let mut i: usize = 0;
    while i < bytes.len()
        invariant
            i <= bytes.len(),
            ops@ == emit_all(old(ops)@, bytes@.take(i as int)),
        decreases bytes.len() - i,
    {
        push(ops, bytes[i]);
        proof {
            assert(bytes@.take(i + 1).drop_last() =~= bytes@.take(i as int));
        }
        i += 1;
    }
    proof {
        assert(bytes@.take(bytes.len() as int) =~= bytes@);
    }
}

/// Emits the `n` low bytes of `v`, lowest first.
fn emit_le(ops: &mut X64Assembler, v: u64, n: usize)
    ensures
        final(ops)@ == emit_all(old(ops)@, le_bytes(v as int, n as nat)),
    decreases n,
{
    if n > 0 {
        let low: u8 = (v % 256) as u8;
        push(ops, low);
        let ghost mid = ops@;
        emit_le(ops, v / 256, n - 1);
        proof {
            lemma_emit_all_one(old(ops)@, low);
            lemma_emit_all_concat(old(ops)@, seq![low], le_bytes((v / 256) as int, (n - 1) as nat));
        }
    }
}

/// Emits a jump to a global label: the opcode, four bytes for the
/// displacement, and the reference that has them filled in.
fn jump_global(ops: &mut X64Assembler, opcode: &Vec<u8>, name: &'static str)
    ensures
        final(ops)@ == assemble_item(old(ops)@, Item::Jump(opcode@, Target::Global(name@))),
{
    emit_code(ops, opcode);
    emit_le(ops, 0, 4);
    proof {
        reveal_with_fuel(le_bytes, 5);
        assert(le_bytes(0, 4) =~= seq![0u8, 0u8, 0u8, 0u8]);
        lemma_emit_all_concat(old(ops)@, opcode@, seq![0u8, 0u8, 0u8, 0u8]);
    }
    global_reloc(ops, name, 0, 4, 0, 4);
}

/// Emits a jump to a dynamic label: the opcode, four bytes for the
/// displacement, and the reference that has them filled in.
fn jump_dynamic(ops: &mut X64Assembler, opcode: &Vec<u8>, label: dynasmrt::DynamicLabel)
    ensures
        final(ops)@ == assemble_item(
            old(ops)@,
            Item::Jump(opcode@, Target::Dynamic(label_id(label))),
        ),
{
    emit_code(ops, opcode);
    emit_le(ops, 0, 4);
    proof {
        reveal_with_fuel(le_bytes, 5);
        assert(le_bytes(0, 4) =~= seq![0u8, 0u8, 0u8, 0u8]);
        lemma_emit_all_concat(old(ops)@, opcode@, seq![0u8, 0u8, 0u8, 0u8]);
    }
    dynamic_reloc(ops, label, 0, 4, 0, 4);
}

/// Emits an instruction whose last operand is an immediate of `n` bytes.
fn emit_with_imm(ops: &mut X64Assembler, head: &Vec<u8>, v: u64, n: usize)
    ensures
        final(ops)@ == emit_all(old(ops)@, head@ + le_bytes(v as int, n as nat)),
{
    emit_code(ops, head);
    emit_le(ops, v, n);
    proof {
        lemma_emit_all_concat(old(ops)@, head@, le_bytes(v as int, n as nat));
    }
}

/// Emits the call of a host routine on the current cell.
fn emit_host_call(ops: &mut X64Assembler, routine: u64)
    ensures
        final(ops)@ == emit_all(old(ops)@, code_host_call(routine)),
{
    let head: Vec<u8> = vec![0x49, 0x89, 0xdf, 0x4c, 0x89, 0xe7, 0x48, 0x89, 0xde, 0x48, 0xb8];
    let tail: Vec<u8> = vec![0xff, 0xd0, 0x48, 0x85, 0xc0];
    emit_with_imm(ops, &head, routine, 8);
    emit_code(ops, &tail);
    proof {
        lemma_emit_all_concat(old(ops)@, head@ + le_bytes(routine as int, 8), tail@);
        assert(head@ + le_bytes(routine as int, 8) + tail@ =~= code_host_call(routine));
    }
}


/// Emits the code of a sequence of nodes, in order. Each loop gets two new
/// dynamic labels, one at the top of its body and one behind its end.
pub fn gen_x64_code_normal(irs: &Vec<BFIR>, ops: &mut X64Assembler, host: HostCalls)
    requires
        encodable(views(irs@)),
    ensures
        final(ops)@ == assemble(
            old(ops)@,
            listing(views(irs@), host, old(ops)@.dynamic_labels.len() as int),
        ),
    decreases irs,
{
    let ghost first = ops@;
    let ghost base = first.dynamic_labels.len() as int;
    let mut index: usize = 0;
    while index < irs.len()
        invariant
            index <= irs.len(),
            first == old(ops)@,
            base == first.dynamic_labels.len(),
            encodable(views(irs@)),
            ops@ == assemble(first, listing(views(irs@.take(index as int)), host, base)),
        decreases irs.len() - index,
    {
        let ghost before = ops@;
        let ghost done = views(irs@.take(index as int));
        let ghost next = base + labels_in(done);
        let ghost node = irs@[index as int]@;
        proof {
            lemma_views_index(irs@, index as int);
            lemma_encodable_index(views(irs@), index as int);
            lemma_views_take(irs@, index as int);
            lemma_listing_labels(first, done, host, base);
            assert(done.push(node).drop_last() =~= done);
            lemma_assemble_concat(first, listing(done, host, base), node_listing(node, host, next));
        }
        match &irs[index] {
            BFIR::Add(x) => {
                emit_code(ops, &vec![0x80, 0x03, *x]);
                proof {
                    lemma_unfold1(before, node_listing(node, host, next));
                }
            },
            BFIR::Sub(x) => {
                emit_code(ops, &vec![0x80, 0x2b, *x]);
                proof {
                    lemma_unfold1(before, node_listing(node, host, next));
                }
            },
            BFIR::MoveLeft(x) => {
                emit_with_imm(ops, &vec![0x48, 0x81, 0xeb], *x as u64, 4);
                jump_global(ops, &vec![0x0f, 0x82], "overflow");
                emit_code(ops, &vec![0x4c, 0x39, 0xeb]);
                jump_global(ops, &vec![0x0f, 0x82], "overflow");
                proof {
                    lemma_unfold4(before, node_listing(node, host, next));
                }
            },
            BFIR::MoveRight(x) => {
                emit_with_imm(ops, &vec![0x48, 0x81, 0xc3], *x as u64, 4);
                jump_global(ops, &vec![0x0f, 0x82], "overflow");
                emit_code(ops, &vec![0x4c, 0x39, 0xf3]);
                jump_global(ops, &vec![0x0f, 0x83], "overflow");
                proof {
                    lemma_unfold4(before, node_listing(node, host, next));
                }
            },
            BFIR::Input => {
                emit_host_call(ops, host.read_byte);
                jump_global(ops, &vec![0x0f, 0x85], "io_error");
                emit_code(ops, &vec![0x4c, 0x89, 0xfb]);
                proof {
                    lemma_unfold3(before, node_listing(node, host, next));
                }
            },
            BFIR::Output => {
                emit_host_call(ops, host.write_byte);
                jump_global(ops, &vec![0x0f, 0x85], "io_error");
                emit_code(ops, &vec![0x4c, 0x89, 0xfb]);
                proof {
                    lemma_unfold3(before, node_listing(node, host, next));
                }
            },
            BFIR::Loop(x) => {
                let ghost body = views(x@);
                let ghost head = seq![
                    Item::NewLabel,
                    Item::NewLabel,
                    Item::Code(code_test_cell()),
                    Item::Jump(op_jz(), Target::Dynamic(next + 1)),
                    Item::Label(Target::Dynamic(next)),
                ];
                let ghost tail = seq![
                    Item::Code(code_test_cell()),
                    Item::Jump(op_jnz(), Target::Dynamic(next)),
                    Item::Label(Target::Dynamic(next + 1)),
                ];
                let left = new_dynamic_label(ops);
                let right = new_dynamic_label(ops);
                emit_code(ops, &vec![0x80, 0x3b, 0x00]);
                jump_dynamic(ops, &vec![0x0f, 0x84], right);
                dynamic_label(ops, left);
                proof {
                    lemma_unfold5(before, head);
                    lemma_emit_all_frame(before.alloc_label().alloc_label(), code_test_cell());
                    lemma_emit_all_frame(
                        emit_all(before.alloc_label().alloc_label(), code_test_cell()),
                        op_jz() + seq![0u8, 0u8, 0u8, 0u8],
                    );
                }
                gen_x64_code_normal(x, ops, host);
                let ghost inner = ops@;
                emit_code(ops, &vec![0x80, 0x3b, 0x00]);
                jump_dynamic(ops, &vec![0x0f, 0x85], left);
                dynamic_label(ops, right);
                proof {
                    lemma_unfold3(inner, tail);
                    lemma_assemble_concat(before, head, listing(body, host, next + 2));
                    lemma_assemble_concat(before, head + listing(body, host, next + 2), tail);
                }
            },
        }
        index += 1;
    }
    proof {
        assert(irs@.take(irs.len() as int) =~= irs@);
    }
}

/// Makes an assembler and emits a whole program into it: the prologue, the
/// nodes, the return of null, and the handlers `io_error` and `overflow`.
fn gen_x64_code(irs: &Vec<BFIR>, host: HostCalls) -> (r: Result<X64Assembler, RuntimeError>)
    requires
        encodable(views(irs@)),
    ensures
        match r {
            Ok(ops) => ops@ == assemble(AsmState::empty(), program(views(irs@), host)),
            Err(e) => e == (RuntimeError { index: 1, kind: RuntimeErrorKind::Memory }),
        },
{
    match assembler_new() {
        None => Err(RuntimeError { index: 1, kind: RuntimeErrorKind::Memory }),
        Some(mut ops) => {
            let ghost nodes = views(irs@);
            let ghost tail = seq![
                Item::Code(code_success()),
                Item::Label(Target::Global(io_error_label())),
                Item::Code(code_epilogue()),
                Item::Label(Target::Global(overflow_label())),
                Item::Code(code_call(host.overflow_error)),
                Item::Jump(op_jmp(), Target::Global(io_error_label())),
            ];
            emit_code(
                &mut ops,
                &vec![
                    0x53, 0x41, 0x54, 0x41, 0x55, 0x41, 0x56, 0x41, 0x57, 0x49, 0x89, 0xfc, 0x49,
                    0x89, 0xf5, 0x49, 0x89, 0xd6, 0x48, 0x89, 0xf3,
                ],
            );
            let ghost start = ops@;
            proof {
                lemma_unfold1(AsmState::empty(), seq![Item::Code(code_prologue())]);
                lemma_emit_all_frame(AsmState::empty(), code_prologue());
            }
            gen_x64_code_normal(irs, &mut ops, host);
            let ghost body = ops@;
            let success: Vec<u8> = vec![0x31, 0xc0];
            let epilogue: Vec<u8> = vec![0x41, 0x5f, 0x41, 0x5e, 0x41, 0x5d, 0x41, 0x5c, 0x5b, 0xc3];
            let call_head: Vec<u8> = vec![0x48, 0xb8];
            let call_tail: Vec<u8> = vec![0xff, 0xd0];
            let jmp: Vec<u8> = vec![0xe9];
            emit_code(&mut ops, &success);
            let ghost s1 = ops@;
            global_label(&mut ops, "io_error");
            let ghost s2 = ops@;
            emit_code(&mut ops, &epilogue);
            let ghost s3 = ops@;
            global_label(&mut ops, "overflow");
            let ghost s4 = ops@;
            emit_with_imm(&mut ops, &call_head, host.overflow_error, 8);
            emit_code(&mut ops, &call_tail);
            let ghost s5 = ops@;
            jump_global(&mut ops, &jmp, "io_error");
            proof {
                assert(success@ =~= code_success());
                assert(epilogue@ =~= code_epilogue());
                assert(jmp@ =~= op_jmp());
                lemma_emit_all_concat(
                    s4,
                    call_head@ + le_bytes(host.overflow_error as int, 8),
                    call_tail@,
                );
                assert(call_head@ + le_bytes(host.overflow_error as int, 8) + call_tail@
                    =~= code_call(host.overflow_error));
                assert(s1 == assemble_item(body, tail[0]));
                assert(s2 == assemble_item(s1, tail[1]));
                assert(s3 == assemble_item(s2, tail[2]));
                assert(s4 == assemble_item(s3, tail[3]));
                assert(s5 == assemble_item(s4, tail[4]));
                assert(ops@ == assemble_item(s5, tail[5]));
                lemma_unfold5(body, tail.drop_last());
                lemma_assemble_push(body, tail.drop_last(), tail.last());
                assert(tail.drop_last().push(tail.last()) =~= tail);
                lemma_assemble_concat(
                    AsmState::empty(),
                    seq![Item::Code(code_prologue())],
                    listing(nodes, host, 0),
                );
                lemma_assemble_concat(
                    AsmState::empty(),
                    seq![Item::Code(code_prologue())] + listing(nodes, host, 0),
                    tail,
                );
            }
            Ok(ops)
        },
    }
}

/// Generates the machine code of a program for an architecture.
///
/// Only x86-64 is implemented; every other tag is refused as unknown. For
/// x86-64 the result is an assembler that holds the program's listing, not
/// yet committed, unless the system had no executable memory to give. Every
/// label that the listing jumps to is placed in it.
pub fn gen_code(irs: &Vec<BFIR>, vm_arch_type: VMArchType, host: HostCalls) -> (r: Result<
    X64Assembler,
    RuntimeError,
>)
    requires
        encodable(views(irs@)),
    ensures
        match r {
            Ok(ops) => {
                &&& vm_arch_type.supported()
                &&& ops@ == assemble(AsmState::empty(), program(views(irs@), host))
                &&& resolvable(ops@)
            },
            Err(e) => e.index == 1 && e.kind == if vm_arch_type.supported() {
                RuntimeErrorKind::Memory
            } else {
                RuntimeErrorKind::Unknown
            },
        },
{
    proof {
        lemma_program_resolves(views(irs@), host);
    }
    match vm_arch_type {
        VMArchType::X64 => gen_x64_code(irs, host),
        _ => Err(RuntimeError { index: 1, kind: RuntimeErrorKind::Unknown }),
    }
}

} // verus!
