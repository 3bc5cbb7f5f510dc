use vstd::prelude::*;

verus! {

/// Size of the fault-routing record written at the head of a mapping on
/// targets that route faults through registered unwind tables: a function
/// table entry, its unwind descriptor and the handler thunk, padded to a
/// four-byte boundary.
pub const HANDLER_RECORD_LEN: usize = 36;

/// Offset of the unwind descriptor inside the record.
pub const UNWIND_INFO_OFFSET: u32 = 12;

/// Offset of the handler thunk inside the record.
pub const THUNK_OFFSET: u32 = 20;

/// Unwind descriptor version 1 with the exception-handler flag in bits 3..8.
pub const VERSION_AND_FLAGS: u8 = 9;

/// `v` as four little-endian bytes.
pub open spec fn le32(v: nat) -> Seq<u8> {
    seq![
        (v % 256) as u8,
        ((v / 256) % 256) as u8,
        ((v / 65536) % 256) as u8,
        ((v / 16777216) % 256) as u8,
    ]
}

/// `v` as eight little-endian bytes.
pub open spec fn le64(v: nat) -> Seq<u8> {
    le32(v % 4294967296) + le32(v / 4294967296)
}

/// The record for a mapping of `mapping_len` bytes whose code starts at
/// `code_start`, routing faults to the native handler at `handler`:
/// function table entry (begin, end, descriptor offset), unwind descriptor
/// (version and flags, no prologue, no unwind codes, no frame register,
/// handler offset), then `mov rax, handler; nop; jmp rax` and padding.
pub open spec fn record_bytes(code_start: nat, mapping_len: nat, handler: nat) -> Seq<u8> {
    le32(code_start) + le32(mapping_len) + le32(UNWIND_INFO_OFFSET as nat) + seq![
        VERSION_AND_FLAGS,
        0u8,
        0u8,
        0u8,
    ] + le32(THUNK_OFFSET as nat) + seq![0x48u8, 0xb8u8] + le64(handler) + seq![
        0x90u8,
        0xffu8,
        0xe0u8,
        0u8,
        0u8,
        0u8,
    ]
}

fn push_le32(out: &mut Vec<u8>, v: u32)
    ensures
        final(out)@ == old(out)@ + le32(v as nat),
{
    out.push((v % 256) as u8);
    out.push(((v / 256) % 256) as u8);
    out.push(((v / 65536) % 256) as u8);
    out.push(((v / 16777216) % 256) as u8);
    assert(final(out)@ =~= old(out)@ + le32(v as nat));
}

fn push_bytes(out: &mut Vec<u8>, bytes: &[u8])
    ensures
        final(out)@ == old(out)@ + bytes@,
{
    let mut i: usize = 0;
    while i < bytes.len()
        invariant
            i <= bytes@.len(),
            out@ == old(out)@ + bytes@.subrange(0, i as int),
        decreases bytes@.len() - i,
    {
        out.push(bytes[i]);
        i = i + 1;
        assert(out@ =~= old(out)@ + bytes@.subrange(0, i as int));
    }
    assert(bytes@.subrange(0, i as int) =~= bytes@);
}

/// Builds the fault-routing record for one mapping.
pub fn handler_record(code_start: u32, mapping_len: u32, handler: u64) -> (r: Vec<u8>)
    ensures
        r@ == record_bytes(code_start as nat, mapping_len as nat, handler as nat),
        r@.len() == HANDLER_RECORD_LEN,
{
    let mut out: Vec<u8> = Vec::new();
    push_le32(&mut out, code_start);
    push_le32(&mut out, mapping_len);
    push_le32(&mut out, UNWIND_INFO_OFFSET);
    push_bytes(&mut out, &[VERSION_AND_FLAGS, 0, 0, 0]);
    push_le32(&mut out, THUNK_OFFSET);
    push_bytes(&mut out, &[0x48, 0xb8]);
    push_le32(&mut out, (handler % 4294967296) as u32);
    push_le32(&mut out, (handler / 4294967296) as u32);
    push_bytes(&mut out, &[0x90, 0xff, 0xe0, 0, 0, 0]);
    proof {
        let s = record_bytes(code_start as nat, mapping_len as nat, handler as nat);
        assert(out@ =~= s);
    }
    out
}

} // verus!
