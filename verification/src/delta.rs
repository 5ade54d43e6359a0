use vstd::prelude::*;
use vstd::arithmetic::power2::{pow2, lemma_pow2_adds, lemma_pow2_pos, lemma_pow2_strictly_increases, lemma2_to64};
use vstd::arithmetic::div_mod::lemma_small_mod;
use vstd::slice::slice_to_vec;
use crate::varint::{delta_size_at, read_delta_size, lemma_or_shifted, two64};
use crate::packfile::PackError;

verus! {

/// One instruction of a delta: copy a range of the base object, or add
/// bytes that the delta carries.
#[derive(Debug, PartialEq, Eq)]
pub enum DeltaInstruction {
    Copy { size: u64, offset: u64 },
    Add { data: Vec<u8> },
}

/// A delta instruction as a value.
pub enum DeltaOp {
    Copy { size: u64, offset: u64 },
    Add { data: Seq<u8> },
}

impl View for DeltaInstruction {
    type V = DeltaOp;

    open spec fn view(&self) -> DeltaOp {
        match self {
            DeltaInstruction::Copy { size, offset } => DeltaOp::Copy { size: *size, offset: *offset },
            DeltaInstruction::Add { data } => DeltaOp::Add { data: data@ },
        }
    }
}

/// The values of a sequence of instructions.
pub open spec fn ops_of(v: Seq<DeltaInstruction>) -> Seq<DeltaOp> {
    v.map_values(|x: DeltaInstruction| x@)
}

/// Whether bit `i` of `lead` is set.
pub open spec fn bit_set(lead: u8, i: nat) -> bool {
    (lead >> (i as u8)) & 1 == 1
}

/// One numeric field of a copy instruction, read from `q` on: for each bit
/// `i` in `i..hi` of the lead byte that is set, the next byte, counting
/// 256^(i - lo). The field's value and the position after its bytes;
/// `None` where the bytes run off the end of the delta.
pub open spec fn copy_field(d: Seq<u8>, q: int, lead: u8, i: nat, lo: nat, hi: nat) -> Option<(nat, int)>
    decreases hi - i,
{
    if i >= hi {
        Some((0, q))
    } else if bit_set(lead, i) {
        if 0 <= q < d.len() {
            match copy_field(d, q + 1, lead, i + 1, lo, hi) {
                Some((v, n)) => Some((v + d[q] as nat * pow2((8 * (i - lo)) as nat), n)),
                None => None,
            }
        } else {
            None
        }
    } else {
        copy_field(d, q, lead, i + 1, lo, hi)
    }
}

/// The instruction at `q` of a delta and the position after it. A lead
/// byte with a clear high bit adds the that many bytes that follow it; one
/// with the high bit set copies, its bits 0..3 choosing which offset bytes
/// and its bits 4..6 which size bytes follow. `None` where the instruction
/// runs off the end of the delta.
pub open spec fn instruction_at(d: Seq<u8>, q: int) -> Option<(DeltaOp, int)> {
    if q < 0 || q >= d.len() {
        None
    } else {
        let lead = d[q];
        if lead < 128 {
            if q + 1 + lead <= d.len() {
                Some((DeltaOp::Add { data: d.subrange(q + 1, q + 1 + lead) }, q + 1 + lead))
            } else {
                None
            }
        } else {
            match copy_field(d, q + 1, lead, 0, 0, 4) {
                Some((offset, q2)) => match copy_field(d, q2, lead, 4, 4, 7) {
                    Some((size, q3)) => Some((DeltaOp::Copy { size: size as u64, offset: offset as u64 }, q3)),
                    None => None,
                },
                None => None,
            }
        }
    }
}

/// A copy field never ends before it starts.
pub proof fn lemma_copy_field_advances(d: Seq<u8>, q: int, lead: u8, i: nat, lo: nat, hi: nat)
    ensures
        copy_field(d, q, lead, i, lo, hi) matches Some((_, n)) ==> n >= q,
    decreases hi - i,
{
    if i < hi {
        if bit_set(lead, i) {
            lemma_copy_field_advances(d, q + 1, lead, i + 1, lo, hi);
        } else {
            lemma_copy_field_advances(d, q, lead, i + 1, lo, hi);
        }
    }
}

/// Every instruction takes at least its lead byte.
pub proof fn lemma_instruction_advances(d: Seq<u8>, q: int)
    ensures
        instruction_at(d, q) matches Some((_, n)) ==> q < n <= d.len(),
{
    if 0 <= q < d.len() && d[q] >= 128 {
        lemma_copy_field_advances(d, q + 1, d[q], 0, 0, 4);
        lemma_copy_field_bounded(d, q + 1, d[q], 0, 0, 4);
        if let Some((_, q2)) = copy_field(d, q + 1, d[q], 0, 0, 4) {
            lemma_copy_field_advances(d, q2, d[q], 4, 4, 7);
            lemma_copy_field_bounded(d, q2, d[q], 4, 4, 7);
        }
    }
}

/// A copy field that is read ends inside the delta.
pub proof fn lemma_copy_field_bounded(d: Seq<u8>, q: int, lead: u8, i: nat, lo: nat, hi: nat)
    requires
        q <= d.len(),
    ensures
        copy_field(d, q, lead, i, lo, hi) matches Some((_, n)) ==> n <= d.len(),
    decreases hi - i,
{
    if i < hi {
        if bit_set(lead, i) {
            if 0 <= q < d.len() {
                lemma_copy_field_bounded(d, q + 1, lead, i + 1, lo, hi);
            }
        } else {
            lemma_copy_field_bounded(d, q, lead, i + 1, lo, hi);
        }
    }
}

/// The instructions of a delta from `q` to its end, in order; `None` where
/// one of them runs off the end.
pub open spec fn instructions_from(d: Seq<u8>, q: int) -> Option<Seq<DeltaOp>>
    decreases d.len() - q,
{
    if q < 0 || q >= d.len() {
        Some(Seq::empty())
    } else {
        match instruction_at(d, q) {
            Some((op, n)) => {
                proof {
                    lemma_instruction_advances(d, q);
                }
                match instructions_from(d, n) {
                    Some(rest) => Some(seq![op] + rest),
                    None => None,
                }
            },
            None => None,
        }
    }
}

/// What a sequence of instructions builds from a base: the copied ranges
/// and the added bytes, one after another; `None` where a copy reaches
/// past the end of the base.
pub open spec fn apply_ops(base: Seq<u8>, ops: Seq<DeltaOp>) -> Option<Seq<u8>>
    decreases ops.len(),
{
    if ops.len() == 0 {
        Some(Seq::empty())
    } else {
        match apply_ops(base, ops.drop_last()) {
            Some(prefix) => match ops.last() {
                DeltaOp::Copy { size, offset } => if offset + size <= base.len() {
                    Some(prefix + base.subrange(offset as int, offset + size))
                } else {
                    None
                },
                DeltaOp::Add { data } => Some(prefix + data),
            },
            None => None,
        }
    }
}


/// A field value with `a` added in front of what is read after it.
pub open spec fn field_after(a: nat, r: Option<(nat, int)>) -> Option<(nat, int)> {
    match r {
        Some((v, n)) => Some((a + v, n)),
        None => None,
    }
}

/// Reads one numeric field of a copy instruction, from `pos` on, for bits
/// `lo..hi` of `lead`.
fn read_copy_field(delta: &[u8], pos: usize, lead: u8, lo: u8, hi: u8) -> (r: Option<(u64, usize)>)
    requires
        lo <= hi <= 7,
        hi - lo <= 4,
        pos <= delta@.len(),
    ensures
        copy_field(delta@, pos as int, lead, lo as nat, lo as nat, hi as nat) == match r {
            Some((v, n)) => Some((v as nat, n as int)),
            None => None::<(nat, int)>,
        },
        r matches Some((v, _)) ==> v < pow2((8 * (hi - lo)) as nat),
{
    let ghost d = delta@;
    let mut value: u64 = 0;
    let mut q: usize = pos;
    let mut i: u8 = lo;
    proof {
        lemma2_to64();
    }
    while i < hi
        invariant
            d == delta@,
            d.len() == delta.len(),
            lo <= i <= hi <= 7,
            hi - lo <= 4,
            pos <= q <= d.len(),
            value < pow2((8 * (i - lo)) as nat),
            copy_field(d, pos as int, lead, lo as nat, lo as nat, hi as nat)
                == field_after(value as nat, copy_field(d, q as int, lead, i as nat, lo as nat, hi as nat)),
        decreases hi - i,
    {
        let ghost w = pow2((8 * (i - lo)) as nat);
        proof {
            lemma_pow2_adds((8 * (i - lo)) as nat, 8);
            lemma_pow2_pos((8 * (i - lo)) as nat);
            lemma2_to64();
            assert(pow2((8 * (i - lo)) as nat + 8) == pow2((8 * (i + 1 - lo)) as nat));
            assert(((i as nat) as u8) == i);
        }
        if (lead >> i) & 1 == 1 {
            if q >= delta.len() {
                return None;
            }
            let byte = delta[q];
            let shift: u64 = (8 * (i - lo)) as u64;
            proof {
                lemma_or_shifted(value, byte as u64, shift);
                assert(value + byte * w < 256 * w) by (nonlinear_arith)
                    requires
                        value < w,
                        byte < 256,
                ;
                lemma_pow2_strictly_increases((8 * (i + 1 - lo)) as nat, 64);
                lemma_small_mod((value + byte * w) as nat, two64());
            }
            value = value | ((byte as u64) << shift);
            q = q + 1;
        } else {
            proof {
                assert(w <= w * 256) by (nonlinear_arith)
                    requires
                        w > 0,
                ;
            }
        }
        i = i + 1;
    }
    Some((value, q))
}

/// Reads the instruction at `q` of a delta, and the position after it;
/// `None` where it runs off the end.
pub fn read_instruction(delta: &[u8], q: usize) -> (r: Option<(DeltaInstruction, usize)>)
    requires
        q < delta@.len(),
    ensures
        instruction_at(delta@, q as int) == match r {
            Some((ins, n)) => Some((ins@, n as int)),
            None => None::<(DeltaOp, int)>,
        },
{
    let ghost d = delta@;
    let lead = delta[q];
    proof {
        assert((lead >> 7) & 1 == 0 <==> lead < 128) by (bit_vector);
    }
    if (lead >> 7) & 1 == 0 {
        let n = lead as usize;
        if n > delta.len() - (q + 1) {
            return None;
        }
        let data = slice_to_vec(&delta[q + 1..q + 1 + n]);
        assert(data@ =~= d.subrange(q + 1, q + 1 + n));
        Some((DeltaInstruction::Add { data }, q + 1 + n))
    } else {
        let (offset, q2) = match read_copy_field(delta, q + 1, lead, 0, 4) {
            Some(f) => f,
            None => {
                return None;
            },
        };
        proof {
            lemma_copy_field_bounded(d, q + 1, lead, 0, 0, 4);
        }
        let (size, q3) = match read_copy_field(delta, q2, lead, 4, 7) {
            Some(f) => f,
            None => {
                return None;
            },
        };
        Some((DeltaInstruction::Copy { size, offset }, q3))
    }
}

/// Reads the instructions of a delta from `pos` to its end; `None` where
/// one of them runs off the end.
pub fn read_delta_instructions(delta: &[u8], pos: usize) -> (r: Option<Vec<DeltaInstruction>>)
    ensures
        instructions_from(delta@, pos as int) == match r {
            Some(v) => Some(ops_of(v@)),
            None => None::<Seq<DeltaOp>>,
        },
{
    let ghost d = delta@;
    let mut out: Vec<DeltaInstruction> = Vec::new();
    let mut q: usize = pos;
    while q < delta.len()
        invariant
            d == delta@,
            d.len() == delta.len(),
            pos <= q,
            instructions_from(d, pos as int) == match instructions_from(d, q as int) {
                Some(rest) => Some(ops_of(out@) + rest),
                None => None::<Seq<DeltaOp>>,
            },
        decreases d.len() - q,
    {
        let ghost old_out = out@;
        match read_instruction(delta, q) {
            Some((ins, n)) => {
                proof {
                    lemma_instruction_advances(d, q as int);
                }
                out.push(ins);
                proof {
                    assert(ops_of(out@) =~= ops_of(old_out).push(ins@));
                    match instructions_from(d, n as int) {
                        Some(rest) => {
                            assert(ops_of(old_out) + (seq![ins@] + rest) =~= ops_of(out@) + rest);
                        },
                        None => {},
                    }
                }
                q = n;
            },
            None => {
                return None;
            },
        }
    }
    assert(ops_of(out@) + Seq::<DeltaOp>::empty() =~= ops_of(out@));
    Some(out)
}

/// Reads the instructions of a delta from `pos` to its end.
pub fn get_delta_instructions(delta: &[u8], pos: usize) -> (r: Vec<DeltaInstruction>)
    requires
        instructions_from(delta@, pos as int) is Some,
    ensures
        instructions_from(delta@, pos as int) == Some(ops_of(r@)),
{
    match read_delta_instructions(delta, pos) {
        Some(v) => v,
        None => {
            proof {
                assert(false);
            }
            Vec::new()
        },
    }
}

/// Builds what a sequence of instructions makes of a base; `None` where a
/// copy reaches past the end of the base.
pub fn apply_delta(base: &[u8], instructions: &[DeltaInstruction]) -> (r: Option<Vec<u8>>)
    ensures
        apply_ops(base@, ops_of(instructions@)) == match r {
            Some(v) => Some(v@),
            None => None::<Seq<u8>>,
        },
{
    let ghost ops = ops_of(instructions@);
    let mut content: Vec<u8> = Vec::new();
    let mut k: usize = 0;
    assert(ops.take(0) =~= Seq::<DeltaOp>::empty());
    while k < instructions.len()
        invariant
            ops == ops_of(instructions@),
            ops.len() == instructions.len(),
            k <= instructions.len(),
            apply_ops(base@, ops.take(k as int)) == Some(content@),
        decreases instructions.len() - k,
    {
        assert(ops.take(k + 1).drop_last() =~= ops.take(k as int));
        assert(ops.take(k + 1).last() == instructions@[k as int]@);
        match &instructions[k] {
            DeltaInstruction::Copy { size, offset } => {
                let len = base.len() as u64;
                if *offset > len || *size > len - *offset {
                    proof {
                        if apply_ops(base@, ops) is Some {
                            lemma_apply_ops_prefix(base@, ops, k as int + 1);
                        }
                    }
                    return None;
                }
                let start = *offset as usize;
                let end = (*offset + *size) as usize;
                let ghost before = content@;
                content.extend_from_slice(&base[start..end]);
                assert(content@ =~= before + base@.subrange(start as int, end as int));
            },
            DeltaInstruction::Add { data } => {
                let ghost before = content@;
                content.extend_from_slice(data.as_slice());
                assert(content@ =~= before + data@);
            },
        }
        k = k + 1;
    }
    assert(ops.take(k as int) =~= ops);
    Some(content)
}

/// Where a sequence of instructions can be applied, so can each prefix.
pub proof fn lemma_apply_ops_prefix(base: Seq<u8>, ops: Seq<DeltaOp>, k: int)
    requires
        0 <= k <= ops.len(),
        apply_ops(base, ops) is Some,
    ensures
        apply_ops(base, ops.take(k)) is Some,
    decreases ops.len(),
{
    if k < ops.len() {
        assert(ops.drop_last().take(k) =~= ops.take(k));
        lemma_apply_ops_prefix(base, ops.drop_last(), k);
    } else {
        assert(ops.take(k) =~= ops);
    }
}


/// What a delta makes of a base object: the delta starts with the size
/// of the base and the size of the result, each a least-significant-first
/// base-128 group, followed by its instructions. A base of another size
/// and a result of another size are errors; `None` where reading the delta
/// or applying it runs off an end.
pub open spec fn resolve_delta(base: Seq<u8>, delta: Seq<u8>) -> Option<Result<Seq<u8>, PackError>> {
    match delta_size_at(delta, 0) {
        None => None,
        Some((source_size, q1)) => if source_size != base.len() {
            Some(Err(PackError::BaseSizeMismatch))
        } else {
            match delta_size_at(delta, q1) {
                None => None,
                Some((target_size, q2)) => match instructions_from(delta, q2) {
                    None => None,
                    Some(ops) => match apply_ops(base, ops) {
                        None => None,
                        Some(out) => if target_size == out.len() {
                            Some(Ok(out))
                        } else {
                            Some(Err(PackError::TargetSizeMismatch))
                        },
                    },
                },
            }
        },
    }
}

/// Rebuilds an object from its base and a delta against it; `None` where
/// reading the delta or applying it runs off an end.
pub fn try_resolve_delta(base: &[u8], delta: &[u8]) -> (r: Option<Result<Vec<u8>, PackError>>)
    ensures
        resolve_delta(base@, delta@) == match r {
            Some(Ok(v)) => Some(Ok::<Seq<u8>, PackError>(v@)),
            Some(Err(e)) => Some(Err::<Seq<u8>, PackError>(e)),
            None => None,
        },
{
    let (source_size, q1) = match read_delta_size(delta, 0) {
        Some(f) => f,
        None => {
            return None;
        },
    };
    if source_size != base.len() as u64 {
        return Some(Err(PackError::BaseSizeMismatch));
    }
    let (target_size, q2) = match read_delta_size(delta, q1) {
        Some(f) => f,
        None => {
            return None;
        },
    };
    let instructions = match read_delta_instructions(delta, q2) {
        Some(v) => v,
        None => {
            return None;
        },
    };
    let content = match apply_delta(base, instructions.as_slice()) {
        Some(c) => c,
        None => {
            return None;
        },
    };
    if target_size != content.len() as u64 {
        return Some(Err(PackError::TargetSizeMismatch));
    }
    Some(Ok(content))
}

/// Rebuilds an object from its base and a delta against it.
pub fn resolve_ref_delta(base: &[u8], delta: &[u8]) -> (r: Result<Vec<u8>, PackError>)
    requires
        resolve_delta(base@, delta@) is Some,
    ensures
        resolve_delta(base@, delta@) == Some(match r {
            Ok(v) => Ok::<Seq<u8>, PackError>(v@),
            Err(e) => Err::<Seq<u8>, PackError>(e),
        }),
{
    match try_resolve_delta(base, delta) {
        Some(r) => r,
        None => {
            proof {
                assert(false);
            }
            Err(PackError::TargetSizeMismatch)
        },
    }
}


/// How many bytes a sequence of instructions writes: the size of each copy
/// and the length of each addition.
pub open spec fn ops_len(ops: Seq<DeltaOp>) -> nat
    decreases ops.len(),
{
    if ops.len() == 0 {
        0
    } else {
        ops_len(ops.drop_last()) + match ops.last() {
            DeltaOp::Copy { size, .. } => size as nat,
            DeltaOp::Add { data } => data.len(),
        }
    }
}

/// Law: what a delta's instructions build is exactly as long as the copies
/// and additions they make, taken together.
pub proof fn lemma_apply_ops_len(base: Seq<u8>, ops: Seq<DeltaOp>)
    ensures
        apply_ops(base, ops) matches Some(out) ==> out.len() == ops_len(ops),
    decreases ops.len(),
{
    if ops.len() > 0 {
        lemma_apply_ops_len(base, ops.drop_last());
    }
}

/// Law: a single copy of the whole base rebuilds the base.
pub proof fn lemma_copy_whole_base(base: Seq<u8>)
    requires
        base.len() <= u64::MAX,
    ensures
        apply_ops(base, seq![DeltaOp::Copy { size: base.len() as u64, offset: 0 }]) == Some(base),
{
    let ops = seq![DeltaOp::Copy { size: base.len() as u64, offset: 0 }];
    assert(ops.drop_last() =~= Seq::<DeltaOp>::empty());
    assert(apply_ops(base, ops.drop_last()) == Some(Seq::<u8>::empty()));
    assert(Seq::<u8>::empty() + base.subrange(0, base.len() as int) =~= base);
}

/// Law: additions alone write their bytes one after another, whatever the
/// base.
pub proof fn lemma_additions_concatenate(base: Seq<u8>, a: Seq<u8>, b: Seq<u8>)
    ensures
        apply_ops(base, seq![DeltaOp::Add { data: a }, DeltaOp::Add { data: b }]) == Some(a + b),
{
    let ops = seq![DeltaOp::Add { data: a }, DeltaOp::Add { data: b }];
    let first = seq![DeltaOp::Add { data: a }];
    assert(ops.drop_last() =~= first);
    assert(first.drop_last() =~= Seq::<DeltaOp>::empty());
    assert(apply_ops(base, first.drop_last()) == Some(Seq::<u8>::empty()));
    assert(Seq::<u8>::empty() + a =~= a);
    assert(apply_ops(base, first) == Some(a));
}

/// A copy field that is read within `d` reads the same with more bytes
/// after `d`.
proof fn lemma_copy_field_extend(d: Seq<u8>, suf: Seq<u8>, q: int, lead: u8, i: nat, lo: nat, hi: nat)
    requires
        copy_field(d, q, lead, i, lo, hi) is Some,
    ensures
        copy_field(d + suf, q, lead, i, lo, hi) == copy_field(d, q, lead, i, lo, hi),
    decreases hi - i,
{
    if i < hi {
        if bit_set(lead, i) {
            assert((d + suf)[q] == d[q]);
            lemma_copy_field_extend(d, suf, q + 1, lead, i + 1, lo, hi);
        } else {
            lemma_copy_field_extend(d, suf, q, lead, i + 1, lo, hi);
        }
    }
}

/// A copy field read behind `pre` reads as in the bytes after `pre`, at a
/// position moved by the length of `pre`.
proof fn lemma_copy_field_shift(pre: Seq<u8>, d: Seq<u8>, q: int, lead: u8, i: nat, lo: nat, hi: nat)
    requires
        0 <= q,
    ensures
        copy_field(pre + d, pre.len() + q, lead, i, lo, hi) == match copy_field(d, q, lead, i, lo, hi) {
            Some((v, n)) => Some((v, pre.len() + n)),
            None => None::<(nat, int)>,
        },
    decreases hi - i,
{
    if i < hi {
        if bit_set(lead, i) {
            if q < d.len() {
                assert((pre + d)[pre.len() + q] == d[q]);
            }
            lemma_copy_field_shift(pre, d, q + 1, lead, i + 1, lo, hi);
        } else {
            lemma_copy_field_shift(pre, d, q, lead, i + 1, lo, hi);
        }
    }
}

/// An instruction that is read within `d` reads the same with more bytes
/// after `d`.
proof fn lemma_instruction_extend(d: Seq<u8>, suf: Seq<u8>, q: int)
    requires
        instruction_at(d, q) is Some,
    ensures
        instruction_at(d + suf, q) == instruction_at(d, q),
{
    let lead = d[q];
    assert((d + suf)[q] == lead);
    if lead < 128 {
        assert((d + suf).subrange(q + 1, q + 1 + lead) =~= d.subrange(q + 1, q + 1 + lead));
    } else {
        lemma_copy_field_extend(d, suf, q + 1, lead, 0, 0, 4);
        let (_, q2) = copy_field(d, q + 1, lead, 0, 0, 4).unwrap();
        lemma_copy_field_extend(d, suf, q2, lead, 4, 4, 7);
    }
}

/// An instruction read behind `pre` reads as in the bytes after `pre`.
proof fn lemma_instruction_shift(pre: Seq<u8>, d: Seq<u8>, q: int)
    requires
        0 <= q < d.len(),
    ensures
        instruction_at(pre + d, pre.len() + q) == match instruction_at(d, q) {
            Some((op, n)) => Some((op, pre.len() + n)),
            None => None::<(DeltaOp, int)>,
        },
{
    let p = pre.len() as int;
    let lead = d[q];
    assert((pre + d)[p + q] == lead);
    if lead < 128 {
        if q + 1 + lead <= d.len() {
            assert((pre + d).subrange(p + q + 1, p + q + 1 + lead) =~= d.subrange(q + 1, q + 1 + lead));
        }
    } else {
        lemma_copy_field_shift(pre, d, q + 1, lead, 0, 0, 4);
        lemma_copy_field_advances(d, q + 1, lead, 0, 0, 4);
        if let Some((_, q2)) = copy_field(d, q + 1, lead, 0, 0, 4) {
            lemma_copy_field_shift(pre, d, q2, lead, 4, 4, 7);
        }
    }
}

/// The instructions read behind `pre` are those of the bytes after `pre`.
proof fn lemma_instructions_shift(pre: Seq<u8>, d: Seq<u8>, k: int)
    requires
        0 <= k,
    ensures
        instructions_from(pre + d, pre.len() + k) == instructions_from(d, k),
    decreases d.len() - k,
{
    if k < d.len() {
        lemma_instruction_shift(pre, d, k);
        lemma_instruction_advances(d, k);
        if let Some((_, n)) = instruction_at(d, k) {
            lemma_instructions_shift(pre, d, n);
        }
    }
}

/// The instructions of two deltas one after the other, read from `q` in
/// the first.
proof fn lemma_instructions_concatenate_from(a: Seq<u8>, b: Seq<u8>, q: int)
    requires
        0 <= q <= a.len(),
        instructions_from(a, q) is Some,
        instructions_from(b, 0) is Some,
    ensures
        instructions_from(a + b, q) == Some(instructions_from(a, q).unwrap() + instructions_from(b, 0).unwrap()),
    decreases a.len() - q,
{
    if q == a.len() {
        lemma_instructions_shift(a, b, 0);
        assert(instructions_from(a, q).unwrap() + instructions_from(b, 0).unwrap()
            =~= instructions_from(b, 0).unwrap());
    } else {
        lemma_instruction_extend(a, b, q);
        lemma_instruction_advances(a, q);
        let (op, n) = instruction_at(a, q).unwrap();
        lemma_instructions_concatenate_from(a, b, n);
        let x = instructions_from(a, n).unwrap();
        let y = instructions_from(b, 0).unwrap();
        assert(seq![op] + (x + y) =~= (seq![op] + x) + y);
    }
}

/// Law: two deltas whose instructions can all be read, written one after
/// the other, read as the instructions of the first followed by those of
/// the second.
pub proof fn lemma_instructions_concatenate(a: Seq<u8>, b: Seq<u8>)
    requires
        instructions_from(a, 0) is Some,
        instructions_from(b, 0) is Some,
    ensures
        instructions_from(a + b, 0) == Some(instructions_from(a, 0).unwrap() + instructions_from(b, 0).unwrap()),
{
    lemma_instructions_concatenate_from(a, b, 0);
}

} // verus!
