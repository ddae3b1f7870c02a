use vstd::prelude::*;

use crate::bhd::uint_value;

verus! {

/// Where a reserved value still has to be written, or that it was written.
#[derive(Debug, PartialEq, Eq, Structural)]
pub enum Reservation {
    Pending(u64),
    Complete,
}

/// Why a reserved value could not be written.
#[derive(Debug, PartialEq, Eq, Structural)]
pub enum WriteError {
    /// The value was already written.
    AlreadyResolved,
    /// The reserved bytes no longer lie inside the output.
    OutOfRange,
    /// The value to write does not fit its four bytes.
    ValueTooLarge,
    /// The reservation was given up before its value was written.
    Unresolved,
}

/// Four bytes set aside in an output, to be filled with a 32-bit value once it
/// is known.
pub struct Reserved {
    inner: Reservation,
    big_endian: bool,
}

/// What writing `value` into a reservation in state `state` does: `r` is
/// the result, `out0` and `out1` the output before and after, `state1` the
/// state after.
pub open spec fn resolve_outcome(
    state: Reservation,
    big_endian: bool,
    value: u32,
    out0: Seq<u8>,
    out1: Seq<u8>,
    state1: Reservation,
    r: Result<u32, WriteError>,
) -> bool {
    match state {
        Reservation::Complete => r == Err::<u32, WriteError>(WriteError::AlreadyResolved) && out1
            == out0 && state1 == state,
        Reservation::Pending(pos) => if pos + 4 <= out0.len() {
            &&& r == Ok::<u32, WriteError>(value)
            &&& state1 == Reservation::Complete
            &&& out1.len() == out0.len()
            &&& out1.subrange(0, pos as int) == out0.subrange(0, pos as int)
            &&& out1.subrange(pos + 4, out0.len() as int) == out0.subrange(pos + 4, out0.len() as int)
            &&& uint_value(out1.subrange(pos as int, pos + 4), big_endian) == value
        } else {
            r == Err::<u32, WriteError>(WriteError::OutOfRange) && out1 == out0 && state1 == state
        },
    }
}

/// The four bytes of `value` in the byte order that `big_endian` selects.
fn u32_bytes(value: u32, big_endian: bool) -> (r: [u8; 4])
    ensures
        uint_value(r@, big_endian) == value,
{
    assert((value & 0xff) < 256 && ((value >> 8) & 0xff) < 256 && ((value >> 16) & 0xff) < 256
        && ((value >> 24) & 0xff) < 256) by (bit_vector);
    let b0 = (value & 0xff) as u8;
    let b1 = ((value >> 8) & 0xff) as u8;
    let b2 = ((value >> 16) & 0xff) as u8;
    let b3 = ((value >> 24) & 0xff) as u8;
    assert(value == (value & 0xff) + 256 * ((value >> 8) & 0xff) + 65536 * ((value >> 16) & 0xff)
        + 16777216 * ((value >> 24) & 0xff)) by (bit_vector);
    let r = if big_endian { [b3, b2, b1, b0] } else { [b0, b1, b2, b3] };
    proof {
        reveal_with_fuel(crate::bhd::le_value, 5);
        reveal_with_fuel(crate::bhd::be_value, 5);
        let s = r@;
        assert(s.len() == 4);
        if big_endian {
            assert(s.drop_last() =~= seq![b3, b2, b1]);
            assert(s.drop_last().drop_last() =~= seq![b3, b2]);
            assert(s.drop_last().drop_last().drop_last() =~= seq![b3]);
            assert(s.drop_last().drop_last().drop_last().drop_last() =~= Seq::<u8>::empty());
        } else {
            assert(s.drop_first() =~= seq![b1, b2, b3]);
            assert(s.drop_first().drop_first() =~= seq![b2, b3]);
            assert(s.drop_first().drop_first().drop_first() =~= seq![b3]);
            assert(s.drop_first().drop_first().drop_first().drop_first() =~= Seq::<u8>::empty());
        }
    }
    r
}

/// Sets aside four bytes at the end of `out` for a 32-bit value in the byte
/// order that `big_endian` selects.
pub fn reserve_u32(out: &mut Vec<u8>, big_endian: bool) -> (r: Reserved)
    ensures
        final(out)@ == old(out)@ + seq![0u8, 0u8, 0u8, 0u8],
        r.state() == Reservation::Pending(old(out)@.len() as u64),
        r.big_endian() == big_endian,
{
    let offset = out.len() as u64;
    let ghost before = out@;
    let mut i: usize = 0;
    while i < 4
        invariant
            i <= 4,
            out@ == before + Seq::new(i as nat, |j: int| 0u8),
        decreases 4 - i,
    {
        out.push(0u8);
        i += 1;
        assert(out@ =~= before + Seq::new(i as nat, |j: int| 0u8));
    }
    assert(Seq::new(4, |j: int| 0u8) =~= seq![0u8, 0u8, 0u8, 0u8]);
    Reserved { inner: Reservation::Pending(offset), big_endian }
}

impl Reserved {
    /// Whether the value is still to be written, and where.
    pub closed spec fn state(&self) -> Reservation {
        self.inner
    }

    /// The byte order of the value.
    pub closed spec fn big_endian(&self) -> bool {
        self.big_endian
    }

    /// Writes `value` into the reserved bytes of `out` and marks the
    /// reservation complete. A reservation is resolved once only.
    pub fn resolve(&mut self, out: &mut Vec<u8>, value: u32) -> (r: Result<u32, WriteError>)
        ensures
            final(self).big_endian() == old(self).big_endian(),
            resolve_outcome(
                old(self).state(),
                old(self).big_endian(),
                value,
                old(out)@,
                final(out)@,
                final(self).state(),
                r,
            ),
    {
        let pos = match self.inner {
            Reservation::Pending(pos) => pos,
            Reservation::Complete => return Err(WriteError::AlreadyResolved),
        };
        if pos > out.len() as u64 || 4 > out.len() - pos as usize {
            return Err(WriteError::OutOfRange);
        }
        let p = pos as usize;
        let bytes = u32_bytes(value, self.big_endian);
        let ghost before = out@;
        let mut i: usize = 0;
        while i < 4
            invariant
                i <= 4,
                p + 4 <= before.len(),
                p + 4 <= out.len(),
                out@.len() == before.len(),
                forall|j: int| 0 <= j < p ==> out@[j] == before[j],
                forall|j: int| p + 4 <= j < before.len() ==> out@[j] == before[j],
                forall|j: int| 0 <= j < i ==> out@[p + j] == bytes@[j],
            decreases 4 - i,
        {
            out.set(p + i, bytes[i]);
            i += 1;
        }
        proof {
            assert(out@.subrange(0, p as int) =~= before.subrange(0, p as int));
            assert(out@.subrange(p + 4, before.len() as int) =~= before.subrange(p + 4, before.len() as int));
            assert(out@.subrange(p as int, p + 4) =~= bytes@);
        }
        self.inner = Reservation::Complete;
        Ok(value)
    }

    /// Writes the current length of `out`, the position that follows its last
    /// byte, into the reserved bytes.
    pub fn resolve_with_position(&mut self, out: &mut Vec<u8>) -> (r: Result<u32, WriteError>)
        ensures
            final(self).big_endian() == old(self).big_endian(),
            old(out)@.len() > u32::MAX ==> r == Err::<u32, WriteError>(WriteError::ValueTooLarge)
                && final(out)@ == old(out)@ && final(self).state() == old(self).state(),
            old(out)@.len() <= u32::MAX ==> resolve_outcome(
                old(self).state(),
                old(self).big_endian(),
                old(out)@.len() as u32,
                old(out)@,
                final(out)@,
                final(self).state(),
                r,
            ),
    {
        if out.len() > u32::MAX as usize {
            return Err(WriteError::ValueTooLarge);
        }
        let value = out.len() as u32;
        self.resolve(out, value)
    }

    /// Writes the distance from `pos` to the current end of `out` into the
    /// reserved bytes.
    pub fn resolve_with_relative_offset(&mut self, out: &mut Vec<u8>, pos: u64) -> (r: Result<u32, WriteError>)
        ensures
            final(self).big_endian() == old(self).big_endian(),
            (pos > old(out)@.len() || old(out)@.len() - pos > u32::MAX) ==> r == Err::<
                u32,
                WriteError,
            >(WriteError::ValueTooLarge) && final(out)@ == old(out)@ && final(self).state()
                == old(self).state(),
            pos <= old(out)@.len() && old(out)@.len() - pos <= u32::MAX ==> resolve_outcome(
                old(self).state(),
                old(self).big_endian(),
                (old(out)@.len() - pos) as u32,
                old(out)@,
                final(out)@,
                final(self).state(),
                r,
            ),
    {
        if pos > out.len() as u64 || out.len() as u64 - pos > u32::MAX as u64 {
            return Err(WriteError::ValueTooLarge);
        }
        let value = (out.len() as u64 - pos) as u32;
        self.resolve(out, value)
    }

    /// Ends the reservation: fails when its value was never written.
    pub fn finish(self) -> (r: Result<(), WriteError>)
        ensures
            r is Ok <==> self.state() == Reservation::Complete,
            r matches Err(e) ==> e == WriteError::Unresolved,
    {
        match self.inner {
            Reservation::Complete => Ok(()),
            Reservation::Pending(_) => Err(WriteError::Unresolved),
        }
    }
}

} // verus!
