use vstd::prelude::*;

verus! {

/// Where a recorded jump displacement is to be written once its label is
/// known, as the assembler keeps it. All offsets count bytes; `location` is
/// the length of the code when the relocation was recorded, the field starts
/// `field_offset` bytes before it and is `size` bytes wide, and the
/// displacement is taken from `ref_offset` bytes before `location`, plus
/// `target_offset`.
pub struct Patch {
    pub location: int,
    pub target_offset: int,
    pub field_offset: int,
    pub ref_offset: int,
    pub size: int,
}

/// What an assembler holds before its code is committed.
pub struct AsmState {
    /// The bytes emitted so far.
    pub bytes: Seq<u8>,
    /// One entry per dynamic label handed out, by id: the offset it was
    /// placed at, once it was placed.
    pub dynamic_labels: Seq<Option<int>>,
    /// The offsets of the global labels placed so far, by name.
    pub global_labels: Map<Seq<char>, int>,
    /// The references to dynamic labels recorded so far, with the label's id.
    pub dynamic_relocs: Seq<(Patch, int)>,
    /// The references to global labels recorded so far, with the label's name.
    pub global_relocs: Seq<(Patch, Seq<char>)>,
    /// Whether an error is noted for the next commit: a label was placed that
    /// was never handed out, or a label or a name was placed a second time.
    pub faulted: bool,
}

impl AsmState {
    /// A new assembler: no code, no labels, no references, no error.
    pub open spec fn empty() -> AsmState {
        AsmState {
            bytes: Seq::empty(),
            dynamic_labels: Seq::empty(),
            global_labels: Map::empty(),
            dynamic_relocs: Seq::empty(),
            global_relocs: Seq::empty(),
            faulted: false,
        }
    }

    /// One more byte of code.
    pub open spec fn emit(self, byte: u8) -> AsmState {
        AsmState { bytes: self.bytes.push(byte), ..self }
    }

    /// One more dynamic label, not yet placed; its id is the number of labels
    /// handed out before.
    pub open spec fn alloc_label(self) -> AsmState {
        AsmState { dynamic_labels: self.dynamic_labels.push(None), ..self }
    }

    /// The dynamic label `id` placed at the end of the code. Placing an
    /// unknown label, or one a second time, leaves the labels as they are and
    /// notes an error.
    pub open spec fn place_dynamic(self, id: int) -> AsmState {
        if 0 <= id < self.dynamic_labels.len() && self.dynamic_labels[id] is None {
            AsmState {
                dynamic_labels: self.dynamic_labels.update(id, Some(self.bytes.len() as int)),
                ..self
            }
        } else {
            AsmState { faulted: true, ..self }
        }
    }

    /// The global label `name` placed at the end of the code. Placing a name a
    /// second time leaves the labels as they are and notes an error.
    pub open spec fn place_global(self, name: Seq<char>) -> AsmState {
        if self.global_labels.dom().contains(name) {
            AsmState { faulted: true, ..self }
        } else {
            AsmState {
                global_labels: self.global_labels.insert(name, self.bytes.len() as int),
                ..self
            }
        }
    }

    /// The relocation that a reference recorded now gets.
    pub open spec fn patch_here(
        self,
        target_offset: int,
        field_offset: int,
        ref_offset: int,
        size: int,
    ) -> Patch {
        Patch { location: self.bytes.len() as int, target_offset, field_offset, ref_offset, size }
    }

    /// One more reference to the dynamic label `id`.
    pub open spec fn refer_dynamic(self, id: int, patch: Patch) -> AsmState {
        AsmState { dynamic_relocs: self.dynamic_relocs.push((patch, id)), ..self }
    }

    /// One more reference to the global label `name`.
    pub open spec fn refer_global(self, name: Seq<char>, patch: Patch) -> AsmState {
        AsmState { global_relocs: self.global_relocs.push((patch, name)), ..self }
    }
}

/// A dynamic label of `dynasmrt`, opaque here; [`label_id`] is its number.
#[verifier::external_type_specification]
#[verifier::external_body]
pub struct ExDynamicLabel(dynasmrt::DynamicLabel);

/// An x86-64 assembler of `dynasmrt` with the code, labels and references
/// emitted into it. Its [view](X64Assembler::view) is what it holds.
///
/// The verifier does not look inside. The assembler itself is handed out in
/// `ops`, for whoever commits the code to executable memory and runs it.
#[verifier::external_body]
pub struct X64Assembler {
    pub ops: dynasmrt::x64::Assembler,
}

/// The bytes pushed into the assembler so far, committed or not.
pub uninterp spec fn asm_bytes(a: X64Assembler) -> Seq<u8>;

/// The assembler's registry of dynamic labels, by id.
pub uninterp spec fn asm_dynamic_labels(a: X64Assembler) -> Seq<Option<int>>;

/// The assembler's registry of global labels, by name.
pub uninterp spec fn asm_global_labels(a: X64Assembler) -> Map<Seq<char>, int>;

/// The references to dynamic labels that the assembler has not resolved yet.
pub uninterp spec fn asm_dynamic_relocs(a: X64Assembler) -> Seq<(Patch, int)>;

/// The references to global labels that the assembler has not resolved yet.
pub uninterp spec fn asm_global_relocs(a: X64Assembler) -> Seq<(Patch, Seq<char>)>;

/// Whether the assembler holds an error for its next commit.
pub uninterp spec fn asm_faulted(a: X64Assembler) -> bool;

/// The id of a dynamic label, as `DynamicLabel::get_id` gives it: the index
/// of its entry in the registry of the assembler that handed it out.
pub uninterp spec fn label_id(l: dynasmrt::DynamicLabel) -> int;

impl View for X64Assembler {
    type V = AsmState;

    open spec fn view(&self) -> AsmState {
        AsmState {
            bytes: asm_bytes(*self),
            dynamic_labels: asm_dynamic_labels(*self),
            global_labels: asm_global_labels(*self),
            dynamic_relocs: asm_dynamic_relocs(*self),
            global_relocs: asm_global_relocs(*self),
            faulted: asm_faulted(*self),
        }
    }
}

/// `dynasmrt::Assembler::new`: maps one page of executable memory, which the
/// system may refuse. An assembler that was made holds nothing yet, and no
/// error.
#[verifier::external_body]
pub(crate) fn assembler_new() -> (r: Option<X64Assembler>)
    ensures
        r matches Some(a) ==> {
            &&& asm_bytes(a) == Seq::<u8>::empty()
            &&& asm_dynamic_labels(a) == Seq::<Option<int>>::empty()
            &&& asm_global_labels(a) == Map::<Seq<char>, int>::empty()
            &&& asm_dynamic_relocs(a) == Seq::<(Patch, int)>::empty()
            &&& asm_global_relocs(a) == Seq::<(Patch, Seq<char>)>::empty()
            &&& !asm_faulted(a)
        },
{
    match dynasmrt::x64::Assembler::new() {
        Ok(ops) => Some(X64Assembler { ops }),
        Err(_) => None,
    }
}

/// `DynasmApi::push`: appends one byte to the code and touches nothing else.
#[verifier::external_body]
pub(crate) fn push(a: &mut X64Assembler, byte: u8)
    ensures
        final(a)@ == old(a)@.emit(byte),
{
    dynasmrt::DynasmApi::push(&mut a.ops, byte)
}

/// `Assembler::new_dynamic_label`: appends an unplaced entry to the registry
/// of dynamic labels and returns the label whose id is that entry's index.
#[verifier::external_body]
pub(crate) fn new_dynamic_label(a: &mut X64Assembler) -> (l: dynasmrt::DynamicLabel)
    ensures
        label_id(l) == old(a)@.dynamic_labels.len(),
        final(a)@ == old(a)@.alloc_label(),
{
    a.ops.new_dynamic_label()
}

/// `DynasmLabelApi::dynamic_label`: records the current offset for a label
/// that was handed out and is not placed yet. In the other cases the registry
/// stays as it is and the assembler notes an error for its next commit.
#[verifier::external_body]
pub(crate) fn dynamic_label(a: &mut X64Assembler, l: dynasmrt::DynamicLabel)
    ensures
        final(a)@ == old(a)@.place_dynamic(label_id(l)),
{
    dynasmrt::DynasmLabelApi::dynamic_label(&mut a.ops, l)
}

/// `DynasmLabelApi::global_label`: records the current offset for a name that
/// is not placed yet. For a placed name the registry stays as it is and the
/// assembler notes an error for its next commit.
#[verifier::external_body]
pub(crate) fn global_label(a: &mut X64Assembler, name: &'static str)
    ensures
        final(a)@ == old(a)@.place_global(name@),
{
    dynasmrt::DynasmLabelApi::global_label(&mut a.ops, name)
}

/// `DynasmLabelApi::dynamic_reloc`: appends a reference to a dynamic label,
/// located at the current offset, to the unresolved ones. The x86-64
/// relocation is made from its size in bytes, which has to be 1, 2, 4 or 8.
#[verifier::external_body]
pub(crate) fn dynamic_reloc(
    a: &mut X64Assembler,
    l: dynasmrt::DynamicLabel,
    target_offset: isize,
    field_offset: u8,
    ref_offset: u8,
    size: u8,
)
    requires
        size == 1 || size == 2 || size == 4 || size == 8,
    ensures
        final(a)@ == old(a)@.refer_dynamic(
            label_id(l),
            old(a)@.patch_here(
                target_offset as int,
                field_offset as int,
                ref_offset as int,
                size as int,
            ),
        ),
{
    dynasmrt::DynasmLabelApi::dynamic_reloc(
        &mut a.ops,
        l,
        target_offset,
        field_offset,
        ref_offset,
        (size,),
    )
}

/// `DynasmLabelApi::global_reloc`: appends a reference to a global label,
/// located at the current offset, to the unresolved ones. The x86-64
/// relocation is made from its size in bytes, which has to be 1, 2, 4 or 8.
#[verifier::external_body]
pub(crate) fn global_reloc(
    a: &mut X64Assembler,
    name: &'static str,
    target_offset: isize,
    field_offset: u8,
    ref_offset: u8,
    size: u8,
)
    requires
        size == 1 || size == 2 || size == 4 || size == 8,
    ensures
        final(a)@ == old(a)@.refer_global(
            name@,
            old(a)@.patch_here(
                target_offset as int,
                field_offset as int,
                ref_offset as int,
                size as int,
            ),
        ),
{
    dynasmrt::DynasmLabelApi::global_reloc(
        &mut a.ops,
        name,
        target_offset,
        field_offset,
        ref_offset,
        (size,),
    )
}

} // verus!
