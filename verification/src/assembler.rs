use vstd::prelude::*;

use crate::cpu::{boot_cpu, spec_run_n, Cpu, CpuView, RunRes};
use crate::error::CpuError;
use crate::instruction::spec_encode;
use crate::memory::{load_image, Memory, MEMORY_SIZE};
use crate::parse::{
    bytes_eq, is_blank, is_blank_b, parse_line, spec_parse_line, strip_comment, strip_comment_b,
    trim, trim_b, LineParse, LineParseV,
};

verus! {

// ---------------------------------------------------------------------------
// Errors
// ---------------------------------------------------------------------------

/// The conditions that abort assembly; none of them is recoverable, and an
/// assembler instance that reported one leaves its buffer unusable.
#[derive(Debug, PartialEq, Eq)]
pub enum AssemblerError {
    /// Reading the source from its external carrier failed; raised only by
    /// the surrounding input layer, never by `parse` itself.
    IOError,
    /// A line without leading whitespace that is not a label declaration,
    /// carrying the trimmed line and its line number.
    UnexpectedInstruction(Vec<u8>, usize),
    /// A malformed instruction line, or a label whose resolved address does
    /// not fit the single-byte address space, carrying the offending text.
    InstructionError(Vec<u8>),
    /// A label that was referenced but never declared, carrying its name.
    UndefinedLabel(Vec<u8>),
}

/// The mathematical image of an `AssemblerError`.
pub enum AsmErrV {
    IOError,
    UnexpectedInstruction(Seq<u8>, usize),
    InstructionError(Seq<u8>),
    UndefinedLabel(Seq<u8>),
}

impl View for AssemblerError {
    type V = AsmErrV;

    open spec fn view(&self) -> AsmErrV {
        match self {
            AssemblerError::IOError => AsmErrV::IOError,
            AssemblerError::UnexpectedInstruction(t, n) => AsmErrV::UnexpectedInstruction(
                t@,
                *n,
            ),
            AssemblerError::InstructionError(t) => AsmErrV::InstructionError(t@),
            AssemblerError::UndefinedLabel(t) => AsmErrV::UndefinedLabel(t@),
        }
    }
}

// ---------------------------------------------------------------------------
// The assembler's mathematical state
// ---------------------------------------------------------------------------

/// The assembler's state: the label table, the output buffer built so far,
/// and the unresolved references — each a label name with the buffer offset
/// of the placeholder byte waiting for that label's address.
#[verifier::ext_equal]
pub struct AsmSt {
    pub labels: Seq<(Seq<u8>, usize)>,
    pub output: Seq<u8>,
    pub pending: Seq<(Seq<u8>, usize)>,
}

/// A freshly constructed assembler: everything empty.
pub open spec fn empty_asm() -> AsmSt {
    AsmSt { labels: Seq::empty(), output: Seq::empty(), pending: Seq::empty() }
}

/// The mathematical image of an executable association list: each byte
/// string replaced by its sequence view.
pub open spec fn table_view(list: Seq<(Vec<u8>, usize)>) -> Seq<(Seq<u8>, usize)> {
    Seq::new(list.len(), |i: int| (list[i].0@, list[i].1))
}

/// First-match lookup in an association list of labels.
pub open spec fn assoc_find(s: Seq<(Seq<u8>, usize)>, k: Seq<u8>) -> Option<usize>
    decreases s.len(),
{
    if s.len() == 0 {
        None
    } else if s[0].0 == k {
        Some(s[0].1)
    } else {
        assoc_find(s.drop_first(), k)
    }
}

/// Bind `k` to `v`: replace the first entry for `k`, or append one.
pub open spec fn assoc_set(s: Seq<(Seq<u8>, usize)>, k: Seq<u8>, v: usize) -> Seq<
    (Seq<u8>, usize),
>
    decreases s.len(),
{
    if s.len() == 0 {
        seq![(k, v)]
    } else if s[0].0 == k {
        seq![(k, v)] + s.drop_first()
    } else {
        seq![s[0]] + assoc_set(s.drop_first(), k, v)
    }
}

/// Whether every pending reference to label `k` lies inside a buffer of the
/// given length.
pub open spec fn pending_positions_ok(pending: Seq<(Seq<u8>, usize)>, k: Seq<u8>, len: nat) -> bool {
    forall|i: int| 0 <= i < pending.len() ==> ((#[trigger] pending[i]).0 == k ==> pending[i].1 < len)
}

/// The buffer after overwriting every placeholder recorded for label `k`
/// with the resolved address byte `v`.
pub open spec fn patch_positions(out: Seq<u8>, pending: Seq<(Seq<u8>, usize)>, k: Seq<u8>, v: u8) -> Seq<u8>
    decreases pending.len(),
{
    if pending.len() == 0 {
        out
    } else {
        let out1 = if pending[0].0 == k {
            out.update(pending[0].1 as int, v)
        } else {
            out
        };
        patch_positions(out1, pending.drop_first(), k, v)
    }
}

/// The pending list with every reference to label `k` removed.
pub open spec fn pending_remove(pending: Seq<(Seq<u8>, usize)>, k: Seq<u8>) -> Seq<
    (Seq<u8>, usize),
>
    decreases pending.len(),
{
    if pending.len() == 0 {
        pending
    } else {
        let rest = pending_remove(pending.drop_first(), k);
        if pending[0].0 == k {
            rest
        } else {
            seq![pending[0]] + rest
        }
    }
}

// ---------------------------------------------------------------------------
// The assembly algorithm, one line at a time
// ---------------------------------------------------------------------------

/// The effect of one source line on the assembler's state.
///
/// The line is truncated at its comment marker; a blank remainder is
/// skipped.  A line without leading whitespace declares a label, which must
/// end in `:`; its name is bound to one byte before the current output
/// length (or offset 0 while the buffer is empty).  Any other line is an
/// instruction: a resolved one appends its encoding; one naming a label
/// either resolves eagerly — patching every earlier placeholder for that
/// label as well — or appends a placeholder and records it as pending.  A
/// resolved address above 255 breaks the single-byte address space and is
/// reported rather than truncated.
pub open spec fn sa_step(st: AsmSt, line: Seq<u8>, line_no: usize) -> Result<AsmSt, AsmErrV> {
    let l = strip_comment(line);
    if is_blank(l) {
        Ok(st)
    } else if l[0] != 32 && l[0] != 9 {
        let t = trim(l);
        if t.len() == 0 || t.last() != 58 {
            Err(AsmErrV::UnexpectedInstruction(t, line_no))
        } else {
            let name = t.drop_last();
            let addr: usize = if st.output.len() >= 1 {
                (st.output.len() - 1) as usize
            } else {
                0
            };
            Ok(AsmSt { labels: assoc_set(st.labels, name, addr), ..st })
        }
    } else {
        match spec_parse_line(l) {
            LineParseV::Resolved(i) => Ok(AsmSt { output: st.output + spec_encode(i), ..st }),
            LineParseV::ParseError(m) => Err(AsmErrV::InstructionError(m)),
            LineParseV::PendingLabel(op, name) => match assoc_find(st.labels, name) {
                Some(addr) => if addr > 255 {
                    Err(AsmErrV::InstructionError(name))
                } else if !pending_positions_ok(st.pending, name, st.output.len()) {
                    Err(AsmErrV::InstructionError(name))
                } else {
                    Ok(
                        AsmSt {
                            output: patch_positions(st.output, st.pending, name, addr as u8)
                                + seq![op, addr as u8],
                            pending: pending_remove(st.pending, name),
                            ..st
                        },
                    )
                },
                None => Ok(
                    AsmSt {
                        output: st.output + seq![op, 0u8],
                        pending: st.pending.push((name, (st.output.len() + 1) as usize)),
                        ..st
                    },
                ),
            },
        }
    }
}

/// The assembler's state after the first `n` lines, starting from `st0`;
/// the first failing line aborts the whole run.
pub open spec fn sa_fold(st0: AsmSt, lines: Seq<Seq<u8>>, n: nat) -> Result<AsmSt, AsmErrV>
    decreases n,
{
    if n == 0 {
        Ok(st0)
    } else {
        match sa_fold(st0, lines, (n - 1) as nat) {
            Ok(st) => sa_step(st, lines[n - 1], (n - 1) as usize),
            Err(e) => Err(e),
        }
    }
}

/// Resolution of the references still pending after the last line, in the
/// order they were first recorded: a reference to an undeclared label fails
/// with `UndefinedLabel`; a resolved address above 255, or a placeholder
/// offset outside the buffer, is a fatal report; otherwise each placeholder
/// is overwritten with its label's address.
pub open spec fn sa_finish(st: AsmSt) -> Result<AsmSt, AsmErrV>
    decreases st.pending.len(),
{
    if st.pending.len() == 0 {
        Ok(st)
    } else {
        let name = st.pending[0].0;
        let pos = st.pending[0].1;
        match assoc_find(st.labels, name) {
            None => Err(AsmErrV::UndefinedLabel(name)),
            Some(addr) => if addr > 255 {
                Err(AsmErrV::InstructionError(name))
            } else if pos >= st.output.len() {
                Err(AsmErrV::InstructionError(name))
            } else {
                sa_finish(
                    AsmSt {
                        output: st.output.update(pos as int, addr as u8),
                        pending: st.pending.drop_first(),
                        ..st
                    },
                )
            },
        }
    }
}

/// The complete assembly of a sequence of source lines from a given
/// starting state: the per-line pass, then resolution of what stayed
/// pending.
pub open spec fn spec_assemble_from(st0: AsmSt, lines: Seq<Seq<u8>>) -> Result<AsmSt, AsmErrV> {
    match sa_fold(st0, lines, lines.len()) {
        Ok(st) => sa_finish(st),
        Err(e) => Err(e),
    }
}

/// The complete assembly of a sequence of source lines by a fresh
/// assembler.
pub open spec fn spec_assemble(lines: Seq<Seq<u8>>) -> Result<AsmSt, AsmErrV> {
    spec_assemble_from(empty_asm(), lines)
}

// ---------------------------------------------------------------------------
// Association-list helpers
// ---------------------------------------------------------------------------

proof fn lemma_assoc_set_at(s: Seq<(Seq<u8>, usize)>, k: Seq<u8>, v: usize, i: int)
    requires
        0 <= i < s.len(),
        s[i].0 == k,
        forall|j: int| 0 <= j < i ==> s[j].0 != k,
    ensures
        assoc_set(s, k, v) == s.update(i, (k, v)),
    decreases s.len(),
{
    if i == 0 {
        assert(assoc_set(s, k, v) =~= s.update(0, (k, v)));
    } else {
        lemma_assoc_set_at(s.drop_first(), k, v, i - 1);
        assert(assoc_set(s, k, v) =~= s.update(i, (k, v)));
    }
}

proof fn lemma_assoc_set_absent(s: Seq<(Seq<u8>, usize)>, k: Seq<u8>, v: usize)
    requires
        forall|j: int| 0 <= j < s.len() ==> (#[trigger] s[j]).0 != k,
    ensures
        assoc_set(s, k, v) == s.push((k, v)),
    decreases s.len(),
{
    if s.len() == 0 {
        assert(assoc_set(s, k, v) =~= s.push((k, v)));
    } else {
        assert(s.drop_first() =~= s.subrange(1, s.len() as int));
        lemma_assoc_set_absent(s.drop_first(), k, v);
        assert(assoc_set(s, k, v) =~= s.push((k, v)));
    }
}

fn find_in(list: &Vec<(Vec<u8>, usize)>, k: &Vec<u8>) -> (r: Option<usize>)
    ensures
        r == assoc_find(table_view(list@), k@),
{
    let mut i: usize = 0;
    proof {
        assert(table_view(list@).skip(0) =~= table_view(list@));
    }
    while i < list.len()
        invariant
            i <= list@.len(),
            assoc_find(table_view(list@), k@) == assoc_find(
                table_view(list@).skip(i as int),
                k@,
            ),
        decreases list@.len() - i,
    {
        if bytes_eq(&list[i].0, k) {
            return Some(list[i].1);
        }
        i += 1;
        proof {
            assert(table_view(list@).skip(i - 1).drop_first() =~= table_view(list@).skip(
                i as int,
            ));
        }
    }
    None
}

fn set_label(list: &mut Vec<(Vec<u8>, usize)>, k: Vec<u8>, v: usize)
    ensures
        table_view(final(list)@) == assoc_set(table_view(old(list)@), k@, v),
{
    let mut i: usize = 0;
    while i < list.len()
        invariant
            i <= list@.len(),
            list@ == old(list)@,
            forall|j: int| 0 <= j < i ==> (#[trigger] table_view(list@)[j]).0 != k@,
        decreases list@.len() - i,
    {
        if bytes_eq(&list[i].0, &k) {
            proof {
                lemma_assoc_set_at(table_view(list@), k@, v, i as int);
            }
            list[i] = (k, v);
            proof {
                assert(table_view(list@) =~= table_view(old(list)@).update(
                    i as int,
                    (k@, v),
                ));
            }
            return ;
        }
        i += 1;
    }
    proof {
        lemma_assoc_set_absent(table_view(list@), k@, v);
    }
    list.push((k, v));
    proof {
        assert(table_view(list@) =~= table_view(old(list)@).push((k@, v)));
    }
}


/// The mathematical image of a sequence of source lines.
pub open spec fn lines_view(lines: Seq<Vec<u8>>) -> Seq<Seq<u8>> {
    Seq::new(lines.len(), |i: int| lines[i]@)
}

proof fn lemma_fold_err_persists(st0: AsmSt, lines: Seq<Seq<u8>>, m: nat, n: nat)
    requires
        m <= n,
        sa_fold(st0, lines, m) matches Err(_),
    ensures
        sa_fold(st0, lines, n) == sa_fold(st0, lines, m),
    decreases n - m,
{
    if n > m {
        lemma_fold_err_persists(st0, lines, m, (n - 1) as nat);
    }
}

/// Overwrite every placeholder recorded for `name` with the address byte
/// `v`, reporting whether all recorded offsets lay inside the buffer; on a
/// stray offset the buffer is left in an unspecified, unusable state.
fn patch_pending(output: &mut Vec<u8>, pending: &Vec<(Vec<u8>, usize)>, name: &Vec<u8>, v: u8) -> (r: bool)
    ensures
        r == pending_positions_ok(table_view(pending@), name@, old(output)@.len()),
        r ==> final(output)@ == patch_positions(
            old(output)@,
            table_view(pending@),
            name@,
            v,
        ),
{
    let ghost out0 = output@;
    let mut j: usize = 0;
    proof {
        assert(table_view(pending@).skip(0) =~= table_view(pending@));
    }
    while j < pending.len()
        invariant
            j <= pending@.len(),
            out0 == old(output)@,
            output@.len() == out0.len(),
            patch_positions(out0, table_view(pending@), name@, v) == patch_positions(
                output@,
                table_view(pending@).skip(j as int),
                name@,
                v,
            ),
            forall|jj: int| 0 <= jj < j ==> ((#[trigger] table_view(pending@)[jj]).0 == name@
                ==> table_view(pending@)[jj].1 < out0.len()),
        decreases pending@.len() - j,
    {
        let is_match = bytes_eq(&pending[j].0, name);
        if is_match {
            let pos = pending[j].1;
            if pos >= output.len() {
                proof {
                    assert(table_view(pending@)[j as int].0 == name@);
                    assert(!pending_positions_ok(table_view(pending@), name@, out0.len()));
                    assert(old(output)@.len() == out0.len());
                }
                return false;
            }
            output[pos] = v;
        }
        j += 1;
        proof {
            assert(table_view(pending@).skip(j - 1).drop_first() =~= table_view(
                pending@,
            ).skip(j as int));
        }
    }
    true
}

/// Drop every pending reference to `name`.
fn remove_pending(pending: &mut Vec<(Vec<u8>, usize)>, name: &Vec<u8>)
    ensures
        table_view(final(pending)@) == pending_remove(table_view(old(pending)@), name@),
{
    let ghost p0 = table_view(old(pending)@);
    let mut j: usize = 0;
    proof {
        assert(table_view(pending@).skip(0) =~= table_view(pending@));
        assert(table_view(pending@).take(0) =~= Seq::<(Seq<u8>, usize)>::empty());
    }
    while j < pending.len()
        invariant
            j <= pending@.len(),
            pending_remove(p0, name@) == table_view(pending@).take(j as int) + pending_remove(
                table_view(pending@).skip(j as int),
                name@,
            ),
        decreases pending@.len() - j + pending@.len(),
    {
        let ghost before = table_view(pending@);
        if bytes_eq(&pending[j].0, name) {
            pending.remove(j);
            proof {
                let after = table_view(pending@);
                assert(after =~= before.remove(j as int));
                assert(after.take(j as int) =~= before.take(j as int));
                assert(after.skip(j as int) =~= before.skip(j as int).drop_first());
            }
        } else {
            j += 1;
            proof {
                assert(before.skip(j - 1).drop_first() =~= before.skip(j as int));
                assert(before.take(j - 1) + seq![before[j - 1]] =~= before.take(j as int));
                assert((before.take(j - 1) + seq![before[j - 1]]) + pending_remove(
                    before.skip(j as int),
                    name@,
                ) =~= before.take(j - 1) + (seq![before[j - 1]] + pending_remove(
                    before.skip(j as int),
                    name@,
                )));
            }
        }
    }
    proof {
        assert(table_view(pending@).take(j as int) =~= table_view(pending@));
        assert(pending_remove(p0, name@) =~= table_view(pending@));
    }
}

// ---------------------------------------------------------------------------
// The assembler
// ---------------------------------------------------------------------------

/// The single-pass assembler with optimistic backpatch: a label table, the
/// byte buffer being built, and the unresolved references waiting for their
/// labels' addresses.
pub struct Assembler {
    labels: Vec<(Vec<u8>, usize)>,
    output: Vec<u8>,
    unknown_labels: Vec<(Vec<u8>, usize)>,
}

impl View for Assembler {
    type V = AsmSt;

    closed spec fn view(&self) -> AsmSt {
        AsmSt {
            labels: table_view(self.labels@),
            output: self.output@,
            pending: table_view(self.unknown_labels@),
        }
    }
}

impl Assembler {
    /// A fresh assembler with an empty label table and an empty buffer.
    pub fn new() -> (r: Self)
        ensures
            r@ == empty_asm(),
    {
        let r = Assembler { labels: Vec::new(), output: Vec::new(), unknown_labels: Vec::new() };
        proof {
            assert(r@ =~= empty_asm());
        }
        r
    }

    /// Assemble the given source lines into the output buffer, resolving
    /// labels — forward references included — exactly as `spec_assemble_from`
    /// states; on success the result is the buffer's length.  A failure
    /// reports the specified error and leaves the buffer unusable.
    pub fn parse(&mut self, lines: &Vec<Vec<u8>>) -> (r: Result<usize, AssemblerError>)
        ensures
            spec_assemble_from(old(self)@, lines_view(lines@)) matches Ok(st) ==> r matches Ok(n)
                && final(self)@ == st && n as nat == st.output.len(),
            spec_assemble_from(old(self)@, lines_view(lines@)) matches Err(e) ==> r matches Err(
                e2,
            ) && e2@ == e,
    {
        let ghost st0 = self@;
        let ghost l = lines_view(lines@);
        let mut i: usize = 0;
        while i < lines.len()
            invariant
                i <= lines@.len(),
                l == lines_view(lines@),
                st0 == old(self)@,
                sa_fold(st0, l, i as nat) == Ok::<AsmSt, AsmErrV>(self@),
            decreases lines@.len() - i,
        {
            let ghost prev = self@;
            let line = &lines[i];
            let stripped = strip_comment_b(line);
            proof {
                assert(l[i as int] == line@);
            }
            if is_blank_b(&stripped) {
                // a blank or comment-only line emits nothing
            } else if stripped[0] != 32 && stripped[0] != 9 {
                let t = trim_b(&stripped);
                let well_formed = t.len() > 0 && t[t.len() - 1] == 58;
                if !well_formed {
                    proof {
                        assert(sa_fold(st0, l, (i + 1) as nat) == Err::<AsmSt, AsmErrV>(
                            AsmErrV::UnexpectedInstruction(t@, i as usize),
                        ));
                        lemma_fold_err_persists(st0, l, (i + 1) as nat, l.len());
                    }
                    return Err(AssemblerError::UnexpectedInstruction(t, i));
                }
                let name = copy_tail(&t);
                let addr: usize = if self.output.len() >= 1 {
                    self.output.len() - 1
                } else {
                    0
                };
                set_label(&mut self.labels, name, addr);
                proof {
                    assert(self@ =~= (AsmSt {
                        labels: assoc_set(prev.labels, t@.drop_last(), addr),
                        ..prev
                    }));
                    assert(sa_step(prev, l[i as int], i as usize) == Ok::<AsmSt, AsmErrV>(self@));
                }
            } else {
                match parse_line(&stripped) {
                    LineParse::Resolved(ins) => {
                        let mut bs = ins.as_bytes();
                        self.output.append(&mut bs);
                        proof {
                            assert(self@ =~= (AsmSt {
                                output: prev.output + spec_encode(ins),
                                ..prev
                            }));
                            assert(sa_step(prev, l[i as int], i as usize) == Ok::<
                                AsmSt,
                                AsmErrV,
                            >(self@));
                        }
                    },
                    LineParse::ParseError(m) => {
                        proof {
                            assert(sa_fold(st0, l, (i + 1) as nat) == Err::<AsmSt, AsmErrV>(
                                AsmErrV::InstructionError(m@),
                            ));
                            lemma_fold_err_persists(st0, l, (i + 1) as nat, l.len());
                        }
                        return Err(AssemblerError::InstructionError(m));
                    },
                    LineParse::PendingLabel(op, name) => {
                        match find_in(&self.labels, &name) {
                            Some(addr) => {
                                if addr > 255 {
                                    proof {
                                        assert(sa_fold(st0, l, (i + 1) as nat) == Err::<AsmSt, AsmErrV>(
                                            AsmErrV::InstructionError(name@),
                                        ));
                                        lemma_fold_err_persists(st0, l, (i + 1) as nat, l.len());
                                    }
                                    return Err(AssemblerError::InstructionError(name));
                                }
                                let patched = patch_pending(
                                    &mut self.output,
                                    &self.unknown_labels,
                                    &name,
                                    addr as u8,
                                );
                                if !patched {
                                    proof {
                                        assert(sa_fold(st0, l, (i + 1) as nat) == Err::<AsmSt, AsmErrV>(
                                            AsmErrV::InstructionError(name@),
                                        ));
                                        lemma_fold_err_persists(st0, l, (i + 1) as nat, l.len());
                                    }
                                    return Err(AssemblerError::InstructionError(name));
                                }
                                remove_pending(&mut self.unknown_labels, &name);
                                self.output.push(op);
                                self.output.push(addr as u8);
                                proof {
                                    assert(self@.output =~= patch_positions(
                                        prev.output,
                                        prev.pending,
                                        name@,
                                        addr as u8,
                                    ) + seq![op, addr as u8]);
                                    assert(self@ =~= (AsmSt {
                                        output: patch_positions(
                                            prev.output,
                                            prev.pending,
                                            name@,
                                            addr as u8,
                                        ) + seq![op, addr as u8],
                                        pending: pending_remove(prev.pending, name@),
                                        ..prev
                                    }));
                                    assert(sa_step(prev, l[i as int], i as usize) == Ok::<
                                        AsmSt,
                                        AsmErrV,
                                    >(self@));
                                }
                            },
                            None => {
                                self.output.push(op);
                                let pos = self.output.len();
                                self.unknown_labels.push((name, pos));
                                self.output.push(0);
                                proof {
                                    assert(self@.output =~= prev.output + seq![op, 0u8]);
                                    assert(self@.pending =~= prev.pending.push(
                                        (table_view(self.unknown_labels@).last().0, pos),
                                    ));
                                    assert(self@ =~= (AsmSt {
                                        output: prev.output + seq![op, 0u8],
                                        pending: prev.pending.push(
                                            (
                                                table_view(self.unknown_labels@).last().0,
                                                (prev.output.len() + 1) as usize,
                                            ),
                                        ),
                                        ..prev
                                    }));
                                    assert(sa_step(prev, l[i as int], i as usize) == Ok::<
                                        AsmSt,
                                        AsmErrV,
                                    >(self@));
                                }
                            },
                        }
                    },
                }
            }
            i += 1;
            proof {
                assert(sa_fold(st0, l, i as nat) == Ok::<AsmSt, AsmErrV>(self@));
            }
        }
        // every line is processed; resolve what stayed pending
        let ghost fold_st = self@;
        let mut j: usize = 0;
        proof {
            assert(table_view(self.unknown_labels@).skip(0) =~= table_view(
                self.unknown_labels@,
            ));
        }
        while j < self.unknown_labels.len()
            invariant
                j <= self.unknown_labels@.len(),
                st0 == old(self)@,
                l == lines_view(lines@),
                sa_fold(st0, l, l.len()) == Ok::<AsmSt, AsmErrV>(fold_st),
                table_view(self.labels@) == fold_st.labels,
                sa_finish(fold_st) == sa_finish(
                    AsmSt {
                        labels: table_view(self.labels@),
                        output: self.output@,
                        pending: table_view(self.unknown_labels@).skip(j as int),
                    },
                ),
            decreases self.unknown_labels@.len() - j,
        {
            let ghost cur = AsmSt {
                labels: table_view(self.labels@),
                output: self.output@,
                pending: table_view(self.unknown_labels@).skip(j as int),
            };
            let pos = self.unknown_labels[j].1;
            let found = find_in(&self.labels, &self.unknown_labels[j].0);
            match found {
                None => {
                    proof {
                        assert(sa_finish(fold_st) == Err::<AsmSt, AsmErrV>(
                            AsmErrV::UndefinedLabel(cur.pending[0].0),
                        ));
                    }
                    let entry = self.unknown_labels.remove(j);
                    proof {
                        assert(entry.0@ == cur.pending[0].0);
                    }
                    return Err(AssemblerError::UndefinedLabel(entry.0));
                },
                Some(addr) => {
                    if addr > 255 {
                        proof {
                            assert(sa_finish(fold_st) == Err::<AsmSt, AsmErrV>(
                                AsmErrV::InstructionError(cur.pending[0].0),
                            ));
                        }
                        let entry = self.unknown_labels.remove(j);
                        proof {
                            assert(entry.0@ == cur.pending[0].0);
                        }
                        return Err(AssemblerError::InstructionError(entry.0));
                    }
                    if pos >= self.output.len() {
                        proof {
                            assert(sa_finish(fold_st) == Err::<AsmSt, AsmErrV>(
                                AsmErrV::InstructionError(cur.pending[0].0),
                            ));
                        }
                        let entry = self.unknown_labels.remove(j);
                        proof {
                            assert(entry.0@ == cur.pending[0].0);
                        }
                        return Err(AssemblerError::InstructionError(entry.0));
                    }
                    self.output[pos] = addr as u8;
                    j += 1;
                    proof {
                        assert(table_view(self.unknown_labels@).skip(j - 1).drop_first()
                            =~= table_view(self.unknown_labels@).skip(j as int));
                        assert(sa_finish(fold_st) == sa_finish(
                            AsmSt {
                                labels: table_view(self.labels@),
                                output: self.output@,
                                pending: table_view(self.unknown_labels@).skip(j as int),
                            },
                        ));
                    }
                },
            }
        }
        let ghost done = AsmSt {
            labels: table_view(self.labels@),
            output: self.output@,
            pending: table_view(self.unknown_labels@).skip(j as int),
        };
        proof {
            assert(done.pending.len() == 0);
            assert(sa_finish(fold_st) == Ok::<AsmSt, AsmErrV>(done));
        }
        self.unknown_labels.clear();
        proof {
            assert(self@ =~= done);
        }
        Ok(self.output.len())
    }

    /// Surrender the assembled buffer.
    pub fn get_output(self) -> (r: Vec<u8>)
        ensures
            r@ == self@.output,
    {
        self.output
    }
}

/// A copy of `t` without its last byte: the name of a label declaration
/// stripped of its trailing colon.
fn copy_tail(t: &Vec<u8>) -> (r: Vec<u8>)
    requires
        t@.len() > 0,
    ensures
        r@ == t@.drop_last(),
{
    let mut r: Vec<u8> = Vec::new();
    let mut i: usize = 0;
    while i < t.len() - 1
        invariant
            t@.len() > 0,
            i <= t@.len() - 1,
            r@ == t@.take(i as int),
        decreases t@.len() - i,
    {
        r.push(t[i]);
        i += 1;
        proof {
            assert(t@.take(i as int) =~= t@.take(i - 1).push(t@[i - 1]));
        }
    }
    proof {
        assert(t@.take(t@.len() - 1) =~= t@.drop_last());
    }
    r
}


impl Assembler {
    /// Load the assembled buffer into a fresh machine and run it to its
    /// halting condition.  The buffer must fit in memory.
    pub fn run(&self) -> (r: Result<(), CpuError>)
        requires
            self@.output.len() < MEMORY_SIZE,
        ensures
            r matches Err(e) && ((exists|n: nat, v: CpuView|
                spec_run_n(boot_cpu(self@.output), n) == RunRes::Halted(v, e)) || (e
                == CpuError::VOverflow && (exists|v: CpuView|
                spec_run_n(boot_cpu(self@.output), u64::MAX as nat) == RunRes::Running(v)))),
    {
        let mut cpu = Cpu::new();
        cpu.memory = Memory::new_with_instructions(&self.output);
        proof {
            assert(cpu@ =~= boot_cpu(self@.output));
        }
        cpu.run()
    }

    /// Load the assembled buffer into the given machine's memory — leaving
    /// its registers and flags as they are — and run it to its halting
    /// condition.  The buffer must fit in memory.
    pub fn load_and_run(&self, cpu_handle: &mut Cpu) -> (r: Result<(), CpuError>)
        requires
            self@.output.len() < MEMORY_SIZE,
        ensures
            r matches Err(e) && ({
                let start = CpuView { mem: load_image(self@.output), ..old(cpu_handle)@ };
                (exists|n: nat| spec_run_n(start, n) == RunRes::Halted(final(cpu_handle)@, e))
                    || (e == CpuError::VOverflow && spec_run_n(start, u64::MAX as nat)
                        == RunRes::Running(final(cpu_handle)@))
            }),
    {
        cpu_handle.memory = Memory::new_with_instructions(&self.output);
        proof {
            assert(cpu_handle@ =~= (CpuView {
                mem: load_image(self@.output),
                ..old(cpu_handle)@
            }));
        }
        cpu_handle.run()
    }
}

/// Round trip: executing an assembled program is executing its bytes.
///
/// A program assembled from mnemonic source and loaded into a machine runs
/// exactly like the same byte buffer written out by hand: execution depends
/// on nothing but the bytes, so when the assembler's output equals a
/// hand-encoded buffer, every step of the two runs — output sequence and
/// halting condition included — coincides.
pub proof fn lemma_round_trip(lines: Seq<Seq<u8>>, manual: Seq<u8>, st: AsmSt, n: nat)
    requires
        spec_assemble(lines) == Ok::<AsmSt, AsmErrV>(st),
        st.output == manual,
    ensures
        spec_run_n(boot_cpu(st.output), n) == spec_run_n(boot_cpu(manual), n),
{
}

proof fn lemma_seq_drop_first_contains(p: Seq<(Seq<u8>, usize)>, x: (Seq<u8>, usize))
    requires
        p.len() > 0,
        p.drop_first().contains(x),
    ensures
        p.contains(x),
{
    let i = choose|i: int| 0 <= i < p.drop_first().len() && p.drop_first()[i] == x;
    assert(p[i + 1] == x);
}

proof fn lemma_pending_remove_contains(p: Seq<(Seq<u8>, usize)>, k: Seq<u8>, x: (Seq<u8>, usize))
    requires
        pending_remove(p, k).contains(x),
    ensures
        p.contains(x),
        x.0 != k,
    decreases p.len(),
{
    if p.len() == 0 {
        assert(false);
    } else {
        let rest = pending_remove(p.drop_first(), k);
        if p[0].0 == k {
            lemma_pending_remove_contains(p.drop_first(), k, x);
            lemma_seq_drop_first_contains(p, x);
        } else {
            let r = seq![p[0]] + rest;
            let i = choose|i: int| 0 <= i < r.len() && r[i] == x;
            if i == 0 {
                assert(p[0] == x);
            } else {
                assert(rest[i - 1] == x);
                lemma_pending_remove_contains(p.drop_first(), k, x);
                lemma_seq_drop_first_contains(p, x);
            }
        }
    }
}

proof fn lemma_patch_len(out: Seq<u8>, pending: Seq<(Seq<u8>, usize)>, k: Seq<u8>, v: u8)
    requires
        pending_positions_ok(pending, k, out.len()),
    ensures
        patch_positions(out, pending, k, v).len() == out.len(),
    decreases pending.len(),
{
    if pending.len() > 0 {
        let out1 = if pending[0].0 == k {
            out.update(pending[0].1 as int, v)
        } else {
            out
        };
        assert forall|i: int| 0 <= i < pending.drop_first().len() implies ((#[trigger] pending
            .drop_first()[i]).0 == k ==> pending.drop_first()[i].1 < out1.len()) by {
            assert(pending[i + 1] == pending.drop_first()[i]);
        }
        lemma_patch_len(out1, pending.drop_first(), k, v);
    }
}

/// In every state the per-line pass can reach, each pending placeholder
/// offset lies inside the buffer built so far.
proof fn lemma_fold_pending_bounds(st0: AsmSt, lines: Seq<Seq<u8>>, n: nat)
    requires
        forall|i: int| 0 <= i < st0.pending.len() ==> (#[trigger] st0.pending[i]).1
            < st0.output.len(),
        sa_fold(st0, lines, n) matches Ok(_),
    ensures
        sa_fold(st0, lines, n) matches Ok(st) && forall|i: int|
            0 <= i < st.pending.len() ==> (#[trigger] st.pending[i]).1 < st.output.len(),
    decreases n,
{
    if n > 0 {
        lemma_fold_pending_bounds(st0, lines, (n - 1) as nat);
        let st1 = match sa_fold(st0, lines, (n - 1) as nat) {
            Ok(s) => s,
            Err(_) => st0,
        };
        let st2 = match sa_fold(st0, lines, n) {
            Ok(s) => s,
            Err(_) => st0,
        };
        let line = lines[n - 1];
        let l = strip_comment(line);
        if is_blank(l) {
        } else if l[0] != 32 && l[0] != 9 {
        } else {
            match spec_parse_line(l) {
                LineParseV::Resolved(_) => {},
                LineParseV::ParseError(_) => {},
                LineParseV::PendingLabel(op, nm) => match assoc_find(st1.labels, nm) {
                    Some(addr) => {
                        assert(pending_positions_ok(st1.pending, nm, st1.output.len()));
                        lemma_patch_len(st1.output, st1.pending, nm, addr as u8);
                        assert forall|i: int| 0 <= i < st2.pending.len() implies (#[trigger] st2
                            .pending[i]).1 < st2.output.len() by {
                            let x = st2.pending[i];
                            assert(st2.pending.contains(x));
                            lemma_pending_remove_contains(st1.pending, nm, x);
                            let j = choose|j: int|
                                0 <= j < st1.pending.len() && st1.pending[j] == x;
                            assert(st1.pending[j].1 < st1.output.len());
                        }
                    },
                    None => {},
                },
            }
        }
    }
}

/// Pending references resolve in order; one whose label was never declared
/// stops the final pass with `UndefinedLabel` once it is reached.
proof fn lemma_finish_undeclared(st: AsmSt, name: Seq<u8>, pos: usize)
    requires
        st.pending.contains((name, pos)),
        assoc_find(st.labels, name) is None,
        forall|i: int| 0 <= i < st.pending.len() ==> (#[trigger] st.pending[i]).1
            < st.output.len(),
        forall|i: int| 0 <= i < st.pending.len() ==> match assoc_find(
            st.labels,
            (#[trigger] st.pending[i]).0,
        ) {
            Some(a) => a <= 255,
            None => true,
        },
    ensures
        sa_finish(st) matches Err(e) && e matches AsmErrV::UndefinedLabel(_),
    decreases st.pending.len(),
{
    let k0 = st.pending[0].0;
    let p0 = st.pending[0].1;
    match assoc_find(st.labels, k0) {
        None => {},
        Some(a) => {
            assert(st.pending[0].1 < st.output.len());
            assert(match assoc_find(st.labels, st.pending[0].0) {
                Some(a2) => a2 <= 255,
                None => true,
            });
            let st2 = AsmSt {
                output: st.output.update(p0 as int, a as u8),
                pending: st.pending.drop_first(),
                ..st
            };
            let i = choose|i: int| 0 <= i < st.pending.len() && st.pending[i] == (name, pos);
            assert(i != 0);
            assert(st2.pending[i - 1] == (name, pos));
            assert(st2.pending.contains((name, pos)));
            assert forall|j: int| 0 <= j < st2.pending.len() implies (#[trigger] st2.pending[j]).1
                < st2.output.len() by {
                assert(st.pending[j + 1].1 < st.output.len());
            }
            assert forall|j: int| 0 <= j < st2.pending.len() implies match assoc_find(
                st2.labels,
                (#[trigger] st2.pending[j]).0,
            ) {
                Some(a2) => a2 <= 255,
                None => true,
            } by {
                assert(st2.pending[j] == st.pending[j + 1]);
                assert(match assoc_find(st.labels, st.pending[j + 1].0) {
                    Some(a2) => a2 <= 255,
                    None => true,
                });
            }
            lemma_finish_undeclared(st2, name, pos);
        },
    }
}

/// Undefined label.
///
/// When every source line passed the per-line phase, some reference to
/// `name` is still pending afterwards, and no declaration ever bound `name`,
/// the assembly as a whole fails with `UndefinedLabel`: no buffer is
/// produced.  The last hypothesis only rules out the degenerate programs
/// whose earlier labels already broke the single-byte address space, which
/// fail too, but with that report instead.
pub proof fn lemma_undefined_label(lines: Seq<Seq<u8>>, st: AsmSt, name: Seq<u8>, pos: usize)
    requires
        sa_fold(empty_asm(), lines, lines.len()) == Ok::<AsmSt, AsmErrV>(st),
        st.pending.contains((name, pos)),
        assoc_find(st.labels, name) is None,
        forall|i: int| 0 <= i < st.pending.len() ==> match assoc_find(
            st.labels,
            (#[trigger] st.pending[i]).0,
        ) {
            Some(a) => a <= 255,
            None => true,
        },
    ensures
        spec_assemble(lines) matches Err(e) && e matches AsmErrV::UndefinedLabel(_),
{
    lemma_fold_pending_bounds(empty_asm(), lines, lines.len());
    lemma_finish_undeclared(st, name, pos);
}

// ---------------------------------------------------------------------------
// Forward-reference equivalence
// ---------------------------------------------------------------------------

/// The address byte a complete label table assigns to `name` (0 when the
/// name is absent; under a successful assembly every referenced name is
/// present).
pub open spec fn t_addr(t: Seq<(Seq<u8>, usize)>, name: Seq<u8>) -> u8 {
    match assoc_find(t, name) {
        Some(a) => a as u8,
        None => 0,
    }
}

/// What one source line contributes to the buffer when every label's
/// address is already in hand: label references — forward or backward alike
/// — resolve straight against the table.
pub open spec fn line_emit(line: Seq<u8>, t: Seq<(Seq<u8>, usize)>) -> Seq<u8> {
    let l = strip_comment(line);
    if is_blank(l) {
        Seq::empty()
    } else if l[0] != 32 && l[0] != 9 {
        Seq::empty()
    } else {
        match spec_parse_line(l) {
            LineParseV::Resolved(i) => spec_encode(i),
            LineParseV::ParseError(_) => Seq::empty(),
            LineParseV::PendingLabel(op, name) => seq![op, t_addr(t, name)],
        }
    }
}

/// The buffer a two-phase assembler would emit for the first `n` lines,
/// with the complete label table `t` in hand.
pub open spec fn emit_all(lines: Seq<Seq<u8>>, t: Seq<(Seq<u8>, usize)>, n: nat) -> Seq<u8>
    decreases n,
{
    if n == 0 {
        Seq::empty()
    } else {
        emit_all(lines, t, (n - 1) as nat) + line_emit(lines[n - 1], t)
    }
}

/// The label a source line declares, if it is a well-formed declaration.
pub open spec fn decl_name(line: Seq<u8>) -> Option<Seq<u8>> {
    let l = strip_comment(line);
    if is_blank(l) {
        None
    } else if l[0] != 32 && l[0] != 9 {
        let t = trim(l);
        if t.len() == 0 || t.last() != 58 {
            None
        } else {
            Some(t.drop_last())
        }
    } else {
        None
    }
}

/// No label is declared twice.
pub open spec fn distinct_decls(lines: Seq<Seq<u8>>) -> bool {
    forall|i: int, j: int|
        #![trigger decl_name(lines[i]), decl_name(lines[j])]
        0 <= i < j < lines.len() && decl_name(lines[i]) is Some ==> decl_name(lines[i])
            != decl_name(lines[j])
}

/// Whether some pending reference records buffer offset `p`.
pub open spec fn pending_has_pos(pending: Seq<(Seq<u8>, usize)>, p: int) -> bool {
    exists|j: int| 0 <= j < pending.len() && (#[trigger] pending[j]).1 == p
}

/// The bridge the induction carries from line to line: the buffer built so
/// far agrees with the two-phase emission everywhere outside the pending
/// placeholders; each pending placeholder sits where the two-phase buffer
/// holds exactly its label's final address; and the labels bound so far
/// agree with the final table `t`.
pub open spec fn tp_inv(sti: AsmSt, lines: Seq<Seq<u8>>, i: nat, t: Seq<(Seq<u8>, usize)>) -> bool {
    &&& sti.output.len() <= 2 * i
    &&& sti.output.len() == emit_all(lines, t, i).len()
    &&& (forall|p: int|
        #![trigger sti.output[p]]
        0 <= p < sti.output.len() && !pending_has_pos(sti.pending, p) ==> sti.output[p]
            == emit_all(lines, t, i)[p])
    &&& (forall|j: int|
        0 <= j < sti.pending.len() ==> (#[trigger] sti.pending[j]).1 < sti.output.len()
            && emit_all(lines, t, i)[sti.pending[j].1 as int] == t_addr(t, sti.pending[j].0))
    &&& (forall|k: Seq<u8>|
        (#[trigger] assoc_find(sti.labels, k)) is Some ==> assoc_find(t, k) == assoc_find(
            sti.labels,
            k,
        ))
}

proof fn lemma_assoc_find_set(s: Seq<(Seq<u8>, usize)>, k0: Seq<u8>, v: usize, k: Seq<u8>)
    ensures
        assoc_find(assoc_set(s, k0, v), k) == if k == k0 {
            Some(v)
        } else {
            assoc_find(s, k)
        },
    decreases s.len(),
{
    if s.len() == 0 {
        assert(assoc_set(s, k0, v)[0] == (k0, v));
        assert(assoc_set(s, k0, v).drop_first() =~= Seq::<(Seq<u8>, usize)>::empty());
        assert(assoc_find(assoc_set(s, k0, v).drop_first(), k) is None);
    } else if s[0].0 == k0 {
        assert(assoc_set(s, k0, v)[0] == (k0, v));
        assert((seq![(k0, v)] + s.drop_first()).drop_first() =~= s.drop_first());
    } else {
        lemma_assoc_find_set(s.drop_first(), k0, v, k);
        assert(assoc_set(s, k0, v)[0] == s[0]);
        assert((seq![s[0]] + assoc_set(s.drop_first(), k0, v)).drop_first() =~= assoc_set(
            s.drop_first(),
            k0,
            v,
        ));
    }
}

proof fn lemma_fold_prefix_ok(st0: AsmSt, lines: Seq<Seq<u8>>, m: nat, n: nat)
    requires
        m <= n,
        sa_fold(st0, lines, n) matches Ok(_),
    ensures
        sa_fold(st0, lines, m) matches Ok(_),
{
    if sa_fold(st0, lines, m) matches Err(_) {
        lemma_fold_err_persists(st0, lines, m, n);
    }
}

proof fn lemma_label_persist(
    st0: AsmSt,
    lines: Seq<Seq<u8>>,
    m: nat,
    n: nat,
    k: Seq<u8>,
    a: usize,
)
    requires
        m <= n,
        match sa_fold(st0, lines, m) {
            Ok(sm) => assoc_find(sm.labels, k) == Some(a),
            Err(_) => false,
        },
        sa_fold(st0, lines, n) matches Ok(_),
        forall|j: int| m <= j < n ==> decl_name(#[trigger] lines[j]) != Some(k),
    ensures
        match sa_fold(st0, lines, n) {
            Ok(sn) => assoc_find(sn.labels, k) == Some(a),
            Err(_) => false,
        },
    decreases n - m,
{
    if n > m {
        lemma_fold_prefix_ok(st0, lines, (n - 1) as nat, n);
        lemma_label_persist(st0, lines, m, (n - 1) as nat, k, a);
        let sp = match sa_fold(st0, lines, (n - 1) as nat) {
            Ok(s) => s,
            Err(_) => st0,
        };
        let line = lines[n - 1];
        let l = strip_comment(line);
        if is_blank(l) {
        } else if l[0] != 32 && l[0] != 9 {
            let t = trim(l);
            if t.len() == 0 || t.last() != 58 {
            } else {
                assert(decl_name(line) == Some(t.drop_last()));
                assert(t.drop_last() != k);
                let addr: usize = if sp.output.len() >= 1 {
                    (sp.output.len() - 1) as usize
                } else {
                    0
                };
                lemma_assoc_find_set(sp.labels, t.drop_last(), addr, k);
            }
        } else {
        }
    }
}

proof fn lemma_pending_remove_keeps(p: Seq<(Seq<u8>, usize)>, k: Seq<u8>, x: (Seq<u8>, usize))
    requires
        p.contains(x),
        x.0 != k,
    ensures
        pending_remove(p, k).contains(x),
    decreases p.len(),
{
    let i = choose|i: int| 0 <= i < p.len() && p[i] == x;
    let rest = pending_remove(p.drop_first(), k);
    if i == 0 {
        assert(p[0].0 != k);
        assert((seq![p[0]] + rest)[0] == x);
    } else {
        assert(p.drop_first()[i - 1] == x);
        lemma_pending_remove_keeps(p.drop_first(), k, x);
        if p[0].0 == k {
        } else {
            let j = choose|j: int| 0 <= j < rest.len() && rest[j] == x;
            assert((seq![p[0]] + rest)[j + 1] == x);
        }
    }
}

/// Whether some pending reference to `k` records offset `q`.
spec fn has_kpos(pending: Seq<(Seq<u8>, usize)>, k: Seq<u8>, q: int) -> bool {
    exists|j: int|
        0 <= j < pending.len() && (#[trigger] pending[j]).0 == k && pending[j].1 == q
}

proof fn lemma_patch_char(out: Seq<u8>, pending: Seq<(Seq<u8>, usize)>, k: Seq<u8>, v: u8)
    requires
        pending_positions_ok(pending, k, out.len()),
    ensures
        patch_positions(out, pending, k, v).len() == out.len(),
        forall|q: int| 0 <= q < out.len() ==> #[trigger] patch_positions(out, pending, k, v)[q]
            == if has_kpos(pending, k, q) {
            v
        } else {
            out[q]
        },
    decreases pending.len(),
{
    lemma_patch_len(out, pending, k, v);
    if pending.len() == 0 {
    } else {
        let out1 = if pending[0].0 == k {
            out.update(pending[0].1 as int, v)
        } else {
            out
        };
        assert forall|i: int| 0 <= i < pending.drop_first().len() implies ((#[trigger] pending
            .drop_first()[i]).0 == k ==> pending.drop_first()[i].1 < out1.len()) by {
            assert(pending[i + 1] == pending.drop_first()[i]);
        }
        lemma_patch_char(out1, pending.drop_first(), k, v);
        assert forall|q: int| 0 <= q < out.len() implies #[trigger] patch_positions(
            out,
            pending,
            k,
            v,
        )[q] == if has_kpos(pending, k, q) {
            v
        } else {
            out[q]
        } by {
            if has_kpos(pending, k, q) {
                let j = choose|j: int|
                    0 <= j < pending.len() && (#[trigger] pending[j]).0 == k && pending[j].1 == q;
                if j == 0 {
                    if has_kpos(pending.drop_first(), k, q) {
                    } else {
                        assert(out1[q] == v);
                    }
                } else {
                    assert(pending.drop_first()[j - 1] == pending[j]);
                    assert(has_kpos(pending.drop_first(), k, q));
                }
            } else {
                assert forall|j: int|
                    0 <= j < pending.drop_first().len() implies !((#[trigger] pending.drop_first()[
                    j]).0 == k && pending.drop_first()[j].1 == q) by {
                    assert(pending[j + 1] == pending.drop_first()[j]);
                }
                assert(!has_kpos(pending.drop_first(), k, q));
                assert(!(pending[0].0 == k && pending[0].1 == q));
                assert(out1[q] == out[q]);
            }
        }
    }
}

proof fn lemma_finish_labels(st: AsmSt)
    requires
        sa_finish(st) matches Ok(_),
    ensures
        sa_finish(st) matches Ok(res) && res.labels == st.labels && res.pending.len() == 0,
    decreases st.pending.len(),
{
    if st.pending.len() == 0 {
    } else {
        let name = st.pending[0].0;
        let pos = st.pending[0].1;
        match assoc_find(st.labels, name) {
            None => {},
            Some(addr) => {
                if addr > 255 {
                } else if pos >= st.output.len() {
                } else {
                    lemma_finish_labels(
                        AsmSt {
                            output: st.output.update(pos as int, addr as u8),
                            pending: st.pending.drop_first(),
                            ..st
                        },
                    );
                }
            },
        }
    }
}

proof fn tp_ind(lines: Seq<Seq<u8>>, i: nat)
    requires
        distinct_decls(lines),
        sa_fold(empty_asm(), lines, lines.len()) matches Ok(_),
        i <= lines.len(),
        2 * lines.len() <= usize::MAX,
    ensures
        sa_fold(empty_asm(), lines, i) matches Ok(sti) && (match sa_fold(
            empty_asm(),
            lines,
            lines.len(),
        ) {
            Ok(stf) => tp_inv(sti, lines, i, stf.labels),
            Err(_) => false,
        }),
    decreases i,
{
    let t = match sa_fold(empty_asm(), lines, lines.len()) {
        Ok(stf) => stf.labels,
        Err(_) => Seq::empty(),
    };
    lemma_fold_prefix_ok(empty_asm(), lines, i, lines.len());
    if i == 0 {
        assert forall|k: Seq<u8>| (#[trigger] assoc_find(empty_asm().labels, k)) is Some
            implies assoc_find(t, k) == assoc_find(empty_asm().labels, k) by {
            assert(assoc_find(empty_asm().labels, k) is None);
        }
        assert(tp_inv(empty_asm(), lines, 0, t));
    } else {
        tp_ind(lines, (i - 1) as nat);
        lemma_fold_prefix_ok(empty_asm(), lines, (i - 1) as nat, lines.len());
        let sp = match sa_fold(empty_asm(), lines, (i - 1) as nat) {
            Ok(s) => s,
            Err(_) => empty_asm(),
        };
        let sc = match sa_fold(empty_asm(), lines, i) {
            Ok(s) => s,
            Err(_) => empty_asm(),
        };
        let line = lines[i - 1];
        let l = strip_comment(line);
        let le = line_emit(line, t);
        let ep = emit_all(lines, t, (i - 1) as nat);
        let ec = emit_all(lines, t, i);
        assert(ec == ep + le);
        if is_blank(l) {
            assert(sc == sp);
            assert(ec =~= ep);
            assert(tp_inv(sc, lines, i, t));
        } else if l[0] != 32 && l[0] != 9 {
            let tr = trim(l);
            assert(!(tr.len() == 0 || tr.last() != 58));
            let nm = tr.drop_last();
            let addr: usize = if sp.output.len() >= 1 {
                (sp.output.len() - 1) as usize
            } else {
                0
            };
            assert(sc == AsmSt { labels: assoc_set(sp.labels, nm, addr), ..sp });
            assert(ec =~= ep);
            assert(decl_name(line) == Some(nm));
            assert forall|j: int| i <= j < lines.len() implies decl_name(#[trigger] lines[j])
                != Some(nm) by {
                assert(decl_name(lines[i - 1]) != decl_name(lines[j]));
            }
            lemma_assoc_find_set(sp.labels, nm, addr, nm);
            lemma_label_persist(empty_asm(), lines, i, lines.len(), nm, addr);
            assert forall|k: Seq<u8>| (#[trigger] assoc_find(sc.labels, k)) is Some
                implies assoc_find(t, k) == assoc_find(sc.labels, k) by {
                lemma_assoc_find_set(sp.labels, nm, addr, k);
                if k != nm {
                    assert(assoc_find(sp.labels, k) is Some);
                }
            }
            assert(tp_inv(sc, lines, i, t));
        } else {
            match spec_parse_line(l) {
                LineParseV::Resolved(ins) => {
                    assert(sc == AsmSt { output: sp.output + spec_encode(ins), ..sp });
                    assert(le == spec_encode(ins));
                    let la = sp.output.len() as int;
                    assert forall|p: int|
                        #![trigger sc.output[p]]
                        0 <= p < sc.output.len() && !pending_has_pos(sc.pending, p)
                        implies sc.output[p] == ec[p] by {
                        if p < la {
                            assert(sp.output[p] == ep[p]);
                            assert(ec[p] == ep[p]);
                        } else {
                            assert(sc.output[p] == spec_encode(ins)[p - la]);
                            assert(ec[p] == le[p - la]);
                        }
                    }
                    assert forall|j: int| 0 <= j < sc.pending.len() implies (#[trigger] sc
                        .pending[j]).1 < sc.output.len() && ec[sc.pending[j].1 as int] == t_addr(
                        t,
                        sc.pending[j].0,
                    ) by {
                        assert(sp.pending[j].1 < sp.output.len());
                        assert(ec[sp.pending[j].1 as int] == ep[sp.pending[j].1 as int]);
                    }
                    assert(tp_inv(sc, lines, i, t));
                },
                LineParseV::ParseError(_) => {
                    assert(false);
                },
                LineParseV::PendingLabel(op, nm) => {
                    match assoc_find(sp.labels, nm) {
                        Some(addr) => {
                            assert(addr <= 255);
                            assert(pending_positions_ok(sp.pending, nm, sp.output.len()));
                            let au8 = addr as u8;
                            assert(assoc_find(t, nm) == Some(addr));
                            assert(t_addr(t, nm) == au8);
                            assert(le == seq![op, au8]);
                            lemma_patch_char(sp.output, sp.pending, nm, au8);
                            let patched = patch_positions(sp.output, sp.pending, nm, au8);
                            let la = sp.output.len() as int;
                            assert(sc == AsmSt {
                                output: patched + seq![op, au8],
                                pending: pending_remove(sp.pending, nm),
                                ..sp
                            });
                            assert forall|p: int|
                                #![trigger sc.output[p]]
                                0 <= p < sc.output.len() && !pending_has_pos(sc.pending, p)
                                implies sc.output[p] == ec[p] by {
                                if p < la {
                                    assert(sc.output[p] == patched[p]);
                                    if has_kpos(sp.pending, nm, p) {
                                        let j = choose|j: int|
                                            0 <= j < sp.pending.len() && (#[trigger] sp.pending[
                                            j]).0 == nm && sp.pending[j].1 == p;
                                        assert(sp.pending[j].1 < sp.output.len());
                                        assert(ep[p] == t_addr(t, nm));
                                        assert(ec[p] == ep[p]);
                                        assert(patched[p] == au8);
                                    } else {
                                        if pending_has_pos(sp.pending, p) {
                                            let j = choose|j: int|
                                                0 <= j < sp.pending.len() && (#[trigger] sp
                                                .pending[j]).1 == p;
                                            let x = sp.pending[j];
                                            assert(x.0 != nm);
                                            assert(sp.pending.contains(x));
                                            lemma_pending_remove_keeps(sp.pending, nm, x);
                                            let j2 = choose|j2: int|
                                                0 <= j2 < sc.pending.len() && sc.pending[j2] == x;
                                            assert((#[trigger] sc.pending[j2]).1 == p);
                                            assert(false);
                                        }
                                        assert(sp.output[p] == ep[p]);
                                        assert(patched[p] == sp.output[p]);
                                        assert(ec[p] == ep[p]);
                                    }
                                } else {
                                    assert(sc.output[p] == seq![op, au8][p - la]);
                                    assert(ec[p] == le[p - la]);
                                }
                            }
                            assert forall|j: int| 0 <= j < sc.pending.len() implies (#[trigger] sc
                                .pending[j]).1 < sc.output.len() && ec[sc.pending[j].1 as int]
                                == t_addr(t, sc.pending[j].0) by {
                                let x = sc.pending[j];
                                assert(sc.pending.contains(x));
                                lemma_pending_remove_contains(sp.pending, nm, x);
                                let j2 = choose|j2: int|
                                    0 <= j2 < sp.pending.len() && sp.pending[j2] == x;
                                assert((#[trigger] sp.pending[j2]).1 < sp.output.len());
                                assert(ep[x.1 as int] == t_addr(t, x.0));
                                assert(ec[x.1 as int] == ep[x.1 as int]);
                            }
                            assert(tp_inv(sc, lines, i, t));
                        },
                        None => {
                            let la = sp.output.len() as int;
                            assert(sp.output.len() + 1 <= usize::MAX);
                            assert((sp.output.len() + 1) as usize == sp.output.len() + 1);
                            assert(sc == AsmSt {
                                output: sp.output + seq![op, 0u8],
                                pending: sp.pending.push((nm, (sp.output.len() + 1) as usize)),
                                ..sp
                            });
                            assert(le == seq![op, t_addr(t, nm)]);
                            assert forall|p: int|
                                #![trigger sc.output[p]]
                                0 <= p < sc.output.len() && !pending_has_pos(sc.pending, p)
                                implies sc.output[p] == ec[p] by {
                                if p < la {
                                    if pending_has_pos(sp.pending, p) {
                                        let j = choose|j: int|
                                            0 <= j < sp.pending.len() && (#[trigger] sp.pending[
                                            j]).1 == p;
                                        assert((#[trigger] sc.pending[j]).1 == p);
                                        assert(false);
                                    }
                                    assert(sp.output[p] == ep[p]);
                                    assert(ec[p] == ep[p]);
                                    assert(sc.output[p] == sp.output[p]);
                                } else if p == la {
                                    assert(sc.output[p] == op);
                                    assert(ec[p] == le[0]);
                                } else {
                                    assert(p == la + 1);
                                    assert((#[trigger] sc.pending[sp.pending.len() as int]).1
                                        == p);
                                    assert(false);
                                }
                            }
                            assert forall|j: int| 0 <= j < sc.pending.len() implies (#[trigger] sc
                                .pending[j]).1 < sc.output.len() && ec[sc.pending[j].1 as int]
                                == t_addr(t, sc.pending[j].0) by {
                                if j < sp.pending.len() {
                                    assert(sc.pending[j] == sp.pending[j]);
                                    assert(sp.pending[j].1 < sp.output.len());
                                    assert(ep[sp.pending[j].1 as int] == t_addr(
                                        t,
                                        sp.pending[j].0,
                                    ));
                                    assert(ec[sp.pending[j].1 as int] == ep[sp.pending[
                                    j].1 as int]);
                                } else {
                                    assert(sc.pending[j] == (nm, (sp.output.len() + 1) as usize));
                                    assert(ec[la + 1] == le[1]);
                                }
                            }
                            assert(tp_inv(sc, lines, i, t));
                        },
                    }
                },
            }
        }
    }
}

proof fn lemma_finish_two_phase(st: AsmSt, lines: Seq<Seq<u8>>, n: nat, t: Seq<(Seq<u8>, usize)>)
    requires
        tp_inv(st, lines, n, t),
        st.labels == t,
        sa_finish(st) matches Ok(_),
    ensures
        sa_finish(st) matches Ok(res) && res.output == emit_all(lines, t, n),
    decreases st.pending.len(),
{
    if st.pending.len() == 0 {
        assert forall|p: int| 0 <= p < st.output.len() implies st.output[p] == emit_all(
            lines,
            t,
            n,
        )[p] by {
            assert(!pending_has_pos(st.pending, p));
        }
        assert(st.output =~= emit_all(lines, t, n));
    } else {
        let k0 = st.pending[0].0;
        let p0 = st.pending[0].1;
        assert((#[trigger] st.pending[0]).1 < st.output.len());
        match assoc_find(st.labels, k0) {
            None => {
                assert(false);
            },
            Some(a0) => {
                assert(a0 <= 255);
                let st2 = AsmSt {
                    output: st.output.update(p0 as int, a0 as u8),
                    pending: st.pending.drop_first(),
                    ..st
                };
                assert(emit_all(lines, t, n)[p0 as int] == t_addr(t, k0));
                assert(t_addr(t, k0) == a0 as u8);
                assert forall|p: int|
                    #![trigger st2.output[p]]
                    0 <= p < st2.output.len() && !pending_has_pos(st2.pending, p)
                    implies st2.output[p] == emit_all(lines, t, n)[p] by {
                    if p == p0 {
                        assert(st2.output[p] == a0 as u8);
                    } else {
                        if pending_has_pos(st.pending, p) {
                            let j = choose|j: int|
                                0 <= j < st.pending.len() && (#[trigger] st.pending[j]).1 == p;
                            assert(j != 0);
                            assert((#[trigger] st2.pending[j - 1]).1 == p);
                            assert(false);
                        }
                        assert(st.output[p] == emit_all(lines, t, n)[p]);
                        assert(st2.output[p] == st.output[p]);
                    }
                }
                assert forall|j: int| 0 <= j < st2.pending.len() implies (#[trigger] st2.pending[
                j]).1 < st2.output.len() && emit_all(lines, t, n)[st2.pending[j].1 as int]
                    == t_addr(t, st2.pending[j].0) by {
                    assert(st2.pending[j] == st.pending[j + 1]);
                    assert((#[trigger] st.pending[j + 1]).1 < st.output.len());
                }
                assert(tp_inv(st2, lines, n, t));
                lemma_finish_two_phase(st2, lines, n, t);
            },
        }
    }
}

/// Forward-reference equivalence.
///
/// When no label is declared twice and assembly succeeds, the buffer the
/// single pass with backpatching built is byte for byte the one a two-phase
/// assembler would emit with the finished label table in hand: every label
/// reference — made before or after its declaration — resolves to the same
/// address, the one the table binds the label to.
pub proof fn lemma_forward_reference_equivalence(lines: Seq<Seq<u8>>, st: AsmSt)
    requires
        distinct_decls(lines),
        spec_assemble(lines) == Ok::<AsmSt, AsmErrV>(st),
        2 * lines.len() <= usize::MAX,
    ensures
        st.pending.len() == 0,
        st.output == emit_all(lines, st.labels, lines.len()),
{
    let stf = match sa_fold(empty_asm(), lines, lines.len()) {
        Ok(s) => s,
        Err(_) => empty_asm(),
    };
    assert(sa_fold(empty_asm(), lines, lines.len()) matches Ok(s) && s == stf);
    tp_ind(lines, lines.len());
    lemma_finish_labels(stf);
    lemma_finish_two_phase(stf, lines, lines.len(), stf.labels);
}
} // verus!
