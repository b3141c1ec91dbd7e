use crate::bfparser::assembler::{AsmState, Patch};
use crate::bfparser::codegen::{
    assemble, assemble_item, code_at_end, code_at_start, code_call, code_epilogue,
    code_host_call, code_move_left, code_move_right, code_prologue, code_restore, code_success,
    code_test_cell, emit_all, io_error_label, labels_in, labels_of, lemma_assemble_concat,
    lemma_emit_all_frame, lemma_unfold1, lemma_unfold3, lemma_unfold4, lemma_unfold5, listing,
    node_listing, op_jae, op_jb, op_jmp, op_jnz, op_jz, overflow_label, program, HostCalls, Item,
    Target,
};
use crate::bfparser::ir::Ir;
use vstd::prelude::*;

verus! {

/// A line of a listing does to the assembler what it is meant to: a label it
/// places was handed out and is not placed yet, a name it places is new.
/// These are the cases in which the assembler notes no error.
pub open spec fn item_clean(st: AsmState, item: Item) -> bool {
    match item {
        Item::Label(Target::Dynamic(id)) => 0 <= id < st.dynamic_labels.len()
            && st.dynamic_labels[id] is None,
        Item::Label(Target::Global(name)) => !st.global_labels.dom().contains(name),
        _ => true,
    }
}

/// Every line of a listing is clean where it is assembled.
pub open spec fn clean(st: AsmState, items: Seq<Item>) -> bool
    decreases items.len(),
{
    items.len() > 0 ==> clean(st, items.drop_last()) && item_clean(
        assemble(st, items.drop_last()),
        items.last(),
    )
}

/// A reference as a jump records it: four bytes for the displacement, right
/// before the place where it was recorded.
pub open spec fn jump_patch(p: Patch, st: AsmState) -> bool {
    &&& p.size == 4
    &&& p.field_offset == 4
    &&& p.ref_offset == 0
    &&& p.target_offset == 0
    &&& 4 <= p.location <= st.bytes.len()
}

/// Everything that committing the code has to resolve can be resolved: no
/// error is noted, every dynamic label that was handed out is placed, and
/// every reference names a label that is placed and has its four bytes in
/// the code.
pub open spec fn resolvable(st: AsmState) -> bool {
    &&& !st.faulted
    &&& forall|id: int|
        0 <= id < st.dynamic_labels.len() ==> (#[trigger] st.dynamic_labels[id]) is Some
    &&& forall|k: int|
        0 <= k < st.dynamic_relocs.len() ==> {
            &&& 0 <= (#[trigger] st.dynamic_relocs[k]).1 < st.dynamic_labels.len()
            &&& jump_patch(st.dynamic_relocs[k].0, st)
        }
    &&& forall|k: int|
        0 <= k < st.global_relocs.len() ==> {
            &&& st.global_labels.dom().contains((#[trigger] st.global_relocs[k]).1)
            &&& jump_patch(st.global_relocs[k].0, st)
        }
}

/// What assembling the listing of code, with `next` labels handed out
/// before, makes of an assembler: the labels before stay as they are, the
/// new ones are all placed, the names stay, and the new references are jumps
/// to new labels or to one of the two handlers.
pub open spec fn extends(st: AsmState, after: AsmState, news: int) -> bool {
    &&& after.dynamic_labels.len() == st.dynamic_labels.len() + news
    &&& forall|id: int|
        0 <= id < st.dynamic_labels.len() ==> #[trigger] after.dynamic_labels[id]
            == st.dynamic_labels[id]
    &&& forall|id: int|
        st.dynamic_labels.len() <= id < after.dynamic_labels.len() ==> (
        #[trigger] after.dynamic_labels[id]) is Some
    &&& after.global_labels == st.global_labels
    &&& st.bytes.len() <= after.bytes.len()
    &&& st.dynamic_relocs.len() <= after.dynamic_relocs.len()
    &&& st.global_relocs.len() <= after.global_relocs.len()
    &&& forall|k: int|
        0 <= k < st.dynamic_relocs.len() ==> #[trigger] after.dynamic_relocs[k]
            == st.dynamic_relocs[k]
    &&& forall|k: int|
        0 <= k < st.global_relocs.len() ==> #[trigger] after.global_relocs[k]
            == st.global_relocs[k]
    &&& forall|k: int|
        st.dynamic_relocs.len() <= k < after.dynamic_relocs.len() ==> {
            &&& st.dynamic_labels.len() <= (#[trigger] after.dynamic_relocs[k]).1
                < after.dynamic_labels.len()
            &&& jump_patch(after.dynamic_relocs[k].0, after)
        }
    &&& forall|k: int|
        st.global_relocs.len() <= k < after.global_relocs.len() ==> {
            &&& ((#[trigger] after.global_relocs[k]).1 == overflow_label()
                || after.global_relocs[k].1 == io_error_label())
            &&& jump_patch(after.global_relocs[k].0, after)
        }
}

/// Assembling a clean listing notes no error.
pub proof fn lemma_clean_notes_nothing(st: AsmState, items: Seq<Item>)
    requires
        clean(st, items),
    ensures
        assemble(st, items).faulted == st.faulted,
    decreases items.len(),
{
    if items.len() > 0 {
        lemma_clean_notes_nothing(st, items.drop_last());
        let before = assemble(st, items.drop_last());
        match items.last() {
            Item::Code(bytes) => lemma_emit_all_frame(before, bytes),
            Item::Jump(opcode, _) => lemma_emit_all_frame(
                before,
                opcode + seq![0u8, 0u8, 0u8, 0u8],
            ),
            _ => {},
        }
    }
}

/// Two listings in a row are clean where each is clean in its place.
pub proof fn lemma_clean_concat(st: AsmState, a: Seq<Item>, b: Seq<Item>)
    requires
        clean(st, a),
        clean(assemble(st, a), b),
    ensures
        clean(st, a + b),
    decreases b.len(),
{
    if b.len() == 0 {
        assert(a + b =~= a);
    } else {
        assert((a + b).drop_last() =~= a + b.drop_last());
        lemma_clean_concat(st, a, b.drop_last());
        lemma_assemble_concat(st, a, b.drop_last());
    }
}

/// Extending twice is extending once.
pub proof fn lemma_extends_twice(a: AsmState, b: AsmState, c: AsmState, m: int, n: int)
    requires
        extends(a, b, m),
        extends(b, c, n),
        0 <= m,
        0 <= n,
    ensures
        extends(a, c, m + n),
{
    assert forall|k: int| a.dynamic_relocs.len() <= k < c.dynamic_relocs.len() implies {
        &&& a.dynamic_labels.len() <= (#[trigger] c.dynamic_relocs[k]).1 < c.dynamic_labels.len()
        &&& jump_patch(c.dynamic_relocs[k].0, c)
    } by {
        if k < b.dynamic_relocs.len() {
            assert(c.dynamic_relocs[k] == b.dynamic_relocs[k]);
            assert(jump_patch(b.dynamic_relocs[k].0, b));
        }
    }
    assert forall|k: int| a.global_relocs.len() <= k < c.global_relocs.len() implies {
        &&& ((#[trigger] c.global_relocs[k]).1 == overflow_label() || c.global_relocs[k].1
            == io_error_label())
        &&& jump_patch(c.global_relocs[k].0, c)
    } by {
        if k < b.global_relocs.len() {
            assert(c.global_relocs[k] == b.global_relocs[k]);
            assert(jump_patch(b.global_relocs[k].0, b));
        }
    }
    assert forall|id: int| a.dynamic_labels.len() <= id < c.dynamic_labels.len() implies (
    #[trigger] c.dynamic_labels[id]) is Some by {
        if id < b.dynamic_labels.len() {
            assert(c.dynamic_labels[id] == b.dynamic_labels[id]);
        }
    }
}

/// Code extends an assembler by nothing but bytes.
pub proof fn lemma_code_extends(st: AsmState, bytes: Seq<u8>)
    ensures
        extends(st, assemble_item(st, Item::Code(bytes)), 0),
        item_clean(st, Item::Code(bytes)),
{
    lemma_emit_all_frame(st, bytes);
}

/// A jump to one of the two handlers extends an assembler by one reference.
pub proof fn lemma_handler_jump_extends(st: AsmState, opcode: Seq<u8>, name: Seq<char>)
    requires
        name == overflow_label() || name == io_error_label(),
    ensures
        extends(st, assemble_item(st, Item::Jump(opcode, Target::Global(name))), 0),
{
    lemma_emit_all_frame(st, opcode + seq![0u8, 0u8, 0u8, 0u8]);
}


/// The lines that open a loop whose labels are `next` and `next + 1`.
pub open spec fn loop_head(next: int) -> Seq<Item> {
    seq![
        Item::NewLabel,
        Item::NewLabel,
        Item::Code(code_test_cell()),
        Item::Jump(op_jz(), Target::Dynamic(next + 1)),
        Item::Label(Target::Dynamic(next)),
    ]
}

/// The lines that close a loop whose labels are `next` and `next + 1`.
pub open spec fn loop_tail(next: int) -> Seq<Item> {
    seq![
        Item::Code(code_test_cell()),
        Item::Jump(op_jnz(), Target::Dynamic(next)),
        Item::Label(Target::Dynamic(next + 1)),
    ]
}

/// A listing of up to five lines is clean where each line is.
proof fn lemma_clean_short(st: AsmState, l: Seq<Item>)
    requires
        l.len() <= 5,
        l.len() >= 1 ==> item_clean(st, l[0]),
        l.len() >= 2 ==> item_clean(assemble(st, l.take(1)), l[1]),
        l.len() >= 3 ==> item_clean(assemble(st, l.take(2)), l[2]),
        l.len() >= 4 ==> item_clean(assemble(st, l.take(3)), l[3]),
        l.len() >= 5 ==> item_clean(assemble(st, l.take(4)), l[4]),
    ensures
        clean(st, l),
    decreases l.len(),
{
    if l.len() > 0 {
        let d = l.drop_last();
        assert(d =~= l.take(l.len() - 1));
        assert forall|k: int| 0 <= k <= d.len() implies #[trigger] d.take(k) == l.take(k) by {
            assert(d.take(k) =~= l.take(k));
        }
        if d.len() >= 1 {
            assert(d.take(0) == l.take(0));
        }
        assert(l.take(0) =~= Seq::<Item>::empty());
        lemma_clean_short(st, d);
    }
}

/// What the lines that open a loop make of an assembler.
proof fn lemma_loop_head(st: AsmState, next: int)
    requires
        next == st.dynamic_labels.len(),
    ensures
        clean(st, loop_head(next)),
        ({
            let after = assemble(st, loop_head(next));
            &&& after.dynamic_labels.len() == next + 2
            &&& after.dynamic_labels[next] is Some
            &&& after.dynamic_labels[next + 1] is None
            &&& forall|id: int|
                0 <= id < next ==> #[trigger] after.dynamic_labels[id] == st.dynamic_labels[id]
            &&& after.global_labels == st.global_labels
            &&& after.global_relocs == st.global_relocs
            &&& after.dynamic_relocs.len() == st.dynamic_relocs.len() + 1
            &&& forall|k: int|
                0 <= k < st.dynamic_relocs.len() ==> #[trigger] after.dynamic_relocs[k]
                    == st.dynamic_relocs[k]
            &&& after.dynamic_relocs.last().1 == next + 1
            &&& jump_patch(after.dynamic_relocs.last().0, after)
            &&& st.bytes.len() <= after.bytes.len()
        }),
{
    let l = loop_head(next);
    let s1 = st.alloc_label();
    let s2 = s1.alloc_label();
    let s3 = emit_all(s2, code_test_cell());
    let s4 = assemble_item(s3, l[3]);
    let s5 = assemble_item(s4, l[4]);
    lemma_emit_all_frame(s2, code_test_cell());
    lemma_emit_all_frame(s3, op_jz() + seq![0u8, 0u8, 0u8, 0u8]);
    lemma_unfold1(st, l.take(1));
    crate::bfparser::codegen::lemma_unfold2(st, l.take(2));
    lemma_unfold3(st, l.take(3));
    lemma_unfold4(st, l.take(4));
    lemma_unfold5(st, l);
    assert(assemble(st, l.take(4)) == s4);
    assert(assemble(st, l) == s5);
    assert(s4.dynamic_labels == st.dynamic_labels.push(None).push(None));
    lemma_clean_short(st, l);
}

/// A loop extends an assembler by its two labels and by what its body
/// extends it by, where the body does so behind the lines that open the
/// loop.
proof fn lemma_loop_extends(st: AsmState, body: Seq<Item>, news: int, next: int)
    requires
        next == st.dynamic_labels.len(),
        0 <= news,
        clean(assemble(st, loop_head(next)), body),
        extends(
            assemble(st, loop_head(next)),
            assemble(assemble(st, loop_head(next)), body),
            news,
        ),
    ensures
        clean(st, loop_head(next) + body + loop_tail(next)),
        extends(st, assemble(st, loop_head(next) + body + loop_tail(next)), news + 2),
{
    let head = loop_head(next);
    let tail = loop_tail(next);
    let sh = assemble(st, head);
    let sb = assemble(sh, body);
    lemma_loop_head(st, next);
    let t1 = emit_all(sb, code_test_cell());
    let t2 = assemble_item(t1, tail[1]);
    let t3 = assemble_item(t2, tail[2]);
    lemma_emit_all_frame(sb, code_test_cell());
    lemma_emit_all_frame(t1, op_jnz() + seq![0u8, 0u8, 0u8, 0u8]);
    lemma_unfold1(sb, tail.take(1));
    crate::bfparser::codegen::lemma_unfold2(sb, tail.take(2));
    lemma_unfold3(sb, tail);
    assert(tail.take(3) =~= tail);
    assert(assemble(sb, tail.take(2)) == t2);
    assert(t2.dynamic_labels == sb.dynamic_labels);
    assert(sb.dynamic_labels[next + 1] == sh.dynamic_labels[next + 1]);
    assert(sb.dynamic_labels[next] == sh.dynamic_labels[next]);
    lemma_clean_short(sb, tail);
    lemma_clean_concat(st, head, body);
    lemma_assemble_concat(st, head, body);
    lemma_clean_concat(st, head + body, tail);
    lemma_assemble_concat(st, head + body, tail);
    let after = t3;
    assert(after == assemble(st, head + body + tail));
    assert forall|id: int| 0 <= id < st.dynamic_labels.len() implies #[trigger]
        after.dynamic_labels[id] == st.dynamic_labels[id] by {
        assert(sb.dynamic_labels[id] == sh.dynamic_labels[id]);
    }
    assert forall|id: int| st.dynamic_labels.len() <= id < after.dynamic_labels.len() implies (
    #[trigger] after.dynamic_labels[id]) is Some by {
        if id >= next + 2 {
            assert(sb.dynamic_labels[id] is Some);
        }
    }
    assert forall|k: int| 0 <= k < st.dynamic_relocs.len() implies #[trigger]
        after.dynamic_relocs[k] == st.dynamic_relocs[k] by {
        assert(sb.dynamic_relocs[k] == sh.dynamic_relocs[k]);
    }
    assert forall|k: int| 0 <= k < st.global_relocs.len() implies #[trigger]
        after.global_relocs[k] == st.global_relocs[k] by {
        assert(sb.global_relocs[k] == sh.global_relocs[k]);
    }
    assert forall|k: int| st.dynamic_relocs.len() <= k < after.dynamic_relocs.len() implies {
        &&& st.dynamic_labels.len() <= (#[trigger] after.dynamic_relocs[k]).1
            < after.dynamic_labels.len()
        &&& jump_patch(after.dynamic_relocs[k].0, after)
    } by {
        if k < sh.dynamic_relocs.len() {
            assert(sb.dynamic_relocs[k] == sh.dynamic_relocs[k]);
            assert(sh.dynamic_relocs[k] == sh.dynamic_relocs.last());
        } else if k < sb.dynamic_relocs.len() {
            assert(jump_patch(sb.dynamic_relocs[k].0, sb));
        }
    }
    assert forall|k: int| st.global_relocs.len() <= k < after.global_relocs.len() implies {
        &&& ((#[trigger] after.global_relocs[k]).1 == overflow_label() || after.global_relocs[k].1
            == io_error_label())
        &&& jump_patch(after.global_relocs[k].0, after)
    } by {
        assert(jump_patch(sb.global_relocs[k].0, sb));
    }
}


/// A listing of up to four lines, none of which is a label or hands one out
/// or jumps to a dynamic label, extends an assembler by no label.
proof fn lemma_plain_lines(st: AsmState, l: Seq<Item>)
    requires
        l.len() <= 4,
        forall|k: int|
            0 <= k < l.len() ==> match #[trigger] l[k] {
                Item::Code(_) => true,
                Item::Jump(_, Target::Global(name)) => name == overflow_label() || name
                    == io_error_label(),
                _ => false,
            },
    ensures
        clean(st, l),
        extends(st, assemble(st, l), 0),
    decreases l.len(),
{
    if l.len() > 0 {
        let d = l.drop_last();
        assert forall|k: int| 0 <= k < d.len() implies match #[trigger] d[k] {
            Item::Code(_) => true,
            Item::Jump(_, Target::Global(name)) => name == overflow_label() || name
                == io_error_label(),
            _ => false,
        } by {
            assert(d[k] == l[k]);
        }
        lemma_plain_lines(st, d);
        let mid = assemble(st, d);
        assert(l.last() == l[l.len() - 1]);
        match l.last() {
            Item::Code(bytes) => lemma_code_extends(mid, bytes),
            Item::Jump(opcode, Target::Global(name)) => lemma_handler_jump_extends(
                mid,
                opcode,
                name,
            ),
            _ => {},
        }
        lemma_extends_twice(st, mid, assemble(st, l), 0, 0);
    }
}

/// The listing of one node is clean, and extends the assembler by the
/// node's labels.
pub proof fn lemma_node_extends(st: AsmState, node: Ir, host: HostCalls)
    ensures
        clean(st, node_listing(node, host, st.dynamic_labels.len() as int)),
        extends(
            st,
            assemble(st, node_listing(node, host, st.dynamic_labels.len() as int)),
            labels_of(node) as int,
        ),
    decreases node, 0int,
{
    let next = st.dynamic_labels.len() as int;
    match node {
        Ir::Loop(body) => {
            lemma_loop_head(st, next);
            let sh = assemble(st, loop_head(next));
            lemma_listing_extends(sh, body, host);
            lemma_loop_extends(st, listing(body, host, next + 2), labels_in(body) as int, next);
            assert(node_listing(node, host, next) == loop_head(next) + listing(
                body,
                host,
                next + 2,
            ) + loop_tail(next));
        },
        _ => {
            lemma_plain_lines(st, node_listing(node, host, next));
        },
    }
}

/// The listing of nodes is clean, and extends the assembler by the nodes'
/// labels.
pub proof fn lemma_listing_extends(st: AsmState, nodes: Seq<Ir>, host: HostCalls)
    ensures
        clean(st, listing(nodes, host, st.dynamic_labels.len() as int)),
        extends(
            st,
            assemble(st, listing(nodes, host, st.dynamic_labels.len() as int)),
            labels_in(nodes) as int,
        ),
    decreases nodes, 1int,
{
    let next = st.dynamic_labels.len() as int;
    if nodes.len() > 0 {
        let before = listing(nodes.drop_last(), host, next);
        let mid = assemble(st, before);
        lemma_listing_extends(st, nodes.drop_last(), host);
        lemma_node_extends(mid, nodes.last(), host);
        let last = node_listing(nodes.last(), host, next + labels_in(nodes.drop_last()));
        lemma_clean_concat(st, before, last);
        lemma_assemble_concat(st, before, last);
        lemma_extends_twice(
            st,
            mid,
            assemble(mid, last),
            labels_in(nodes.drop_last()) as int,
            labels_of(nodes.last()) as int,
        );
    }
}

/// The listing of a program keeps the label discipline: every loop label is
/// handed out and placed once, each of the two handlers is placed once, and
/// every jump names a label that is placed. So the assembler notes no
/// error, and committing the code finds nothing that it cannot resolve.
pub proof fn lemma_program_resolves(nodes: Seq<Ir>, host: HostCalls)
    ensures
        clean(AsmState::empty(), program(nodes, host)),
        resolvable(assemble(AsmState::empty(), program(nodes, host))),
{
    reveal_strlit("overflow");
    reveal_strlit("io_error");
    assert("overflow"@[0] != "io_error"@[0]);
    let start = seq![Item::Code(code_prologue())];
    let tail = seq![
        Item::Code(code_success()),
        Item::Label(Target::Global(io_error_label())),
        Item::Code(code_epilogue()),
        Item::Label(Target::Global(overflow_label())),
        Item::Code(code_call(host.overflow_error)),
        Item::Jump(op_jmp(), Target::Global(io_error_label())),
    ];
    let s0 = AsmState::empty();
    let s1 = assemble(s0, start);
    lemma_plain_lines(s0, start);
    lemma_listing_extends(s1, nodes, host);
    let body = listing(nodes, host, 0);
    let s2 = assemble(s1, body);
    lemma_extends_twice(s0, s1, s2, 0, labels_in(nodes) as int);
    lemma_clean_concat(s0, start, body);
    lemma_assemble_concat(s0, start, body);
    let t1 = emit_all(s2, code_success());
    let t2 = t1.place_global(io_error_label());
    let t3 = emit_all(t2, code_epilogue());
    let t4 = t3.place_global(overflow_label());
    let t5 = emit_all(t4, code_call(host.overflow_error));
    let t6 = assemble_item(t5, tail[5]);
    lemma_emit_all_frame(s2, code_success());
    lemma_emit_all_frame(t2, code_epilogue());
    lemma_emit_all_frame(t4, code_call(host.overflow_error));
    lemma_emit_all_frame(t5, op_jmp() + seq![0u8, 0u8, 0u8, 0u8]);
    lemma_unfold1(s2, tail.take(1));
    crate::bfparser::codegen::lemma_unfold2(s2, tail.take(2));
    lemma_unfold3(s2, tail.take(3));
    lemma_unfold4(s2, tail.take(4));
    lemma_unfold5(s2, tail.take(5));
    assert(tail.drop_last() =~= tail.take(5));
    assert(assemble(s2, tail) == t6);
    let five = tail.take(5);
    assert(five.take(1) =~= tail.take(1));
    assert(five.take(2) =~= tail.take(2));
    assert(five.take(3) =~= tail.take(3));
    assert(five.take(4) =~= tail.take(4));
    assert(t1.global_labels =~= Map::<Seq<char>, int>::empty());
    assert(!t3.global_labels.dom().contains(overflow_label()));
    lemma_clean_short(s2, five);
    assert(clean(s2, tail));
    lemma_clean_concat(s0, start + body, tail);
    lemma_assemble_concat(s0, start + body, tail);
    assert(program(nodes, host) == start + body + tail);
    lemma_clean_notes_nothing(s0, program(nodes, host));
    assert forall|k: int| 0 <= k < t6.dynamic_relocs.len() implies {
        &&& 0 <= (#[trigger] t6.dynamic_relocs[k]).1 < t6.dynamic_labels.len()
        &&& jump_patch(t6.dynamic_relocs[k].0, t6)
    } by {
        assert(jump_patch(s2.dynamic_relocs[k].0, s2));
    }
    assert forall|k: int| 0 <= k < t6.global_relocs.len() implies {
        &&& t6.global_labels.dom().contains((#[trigger] t6.global_relocs[k]).1)
        &&& jump_patch(t6.global_relocs[k].0, t6)
    } by {
        if k < s2.global_relocs.len() {
            assert(jump_patch(s2.global_relocs[k].0, s2));
        }
    }
    assert forall|id: int| 0 <= id < t6.dynamic_labels.len() implies (
    #[trigger] t6.dynamic_labels[id]) is Some by {
        assert(s2.dynamic_labels[id] is Some);
    }
}

} // verus!
