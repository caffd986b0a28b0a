//! A byte region with a cursor: the primitive under every wire operation.
//!
//! Reads and writes at the cursor advance it; `get` and `set` address a byte
//! absolutely and leave the cursor alone. Nothing reads or writes past the end
//! of the region: such an operation fails with `OutOfBounds` and changes nothing.

use vstd::prelude::*;
use crate::error::DnsError;

verus! {

/// The size of a freshly made buffer.
pub const BUF_LEN: usize = 2048;

/// The bytes of a freshly made buffer: `BUF_LEN` zeros.
pub open spec fn blank_bytes() -> Seq<u8> {
    Seq::new(BUF_LEN as nat, |i: int| 0u8)
}

/// The two bytes of a 16-bit number, most significant first.
pub open spec fn u16_wire(val: u16) -> Seq<u8> {
    seq![(val >> 8) as u8, (val & 0xFF) as u8]
}

/// The four bytes of a 32-bit number: its high half, then its low half.
pub open spec fn u32_wire(val: u32) -> Seq<u8> {
    u16_wire((val >> 16) as u16) + u16_wire((val & 0xFFFF) as u16)
}

/// The 16-bit number that the two bytes at `pos` spell.
pub open spec fn u16_at(bytes: Seq<u8>, pos: int) -> u16 {
    ((bytes[pos] as u16) << 8) | (bytes[pos + 1] as u16)
}

/// The 32-bit number that the four bytes at `pos` spell.
pub open spec fn u32_at(bytes: Seq<u8>, pos: int) -> u32 {
    ((u16_at(bytes, pos) as u32) << 16) | (u16_at(bytes, pos + 2) as u32)
}

/// `bytes` with `data` laid over it from `pos` on.
pub open spec fn splice(bytes: Seq<u8>, pos: int, data: Seq<u8>) -> Seq<u8> {
    Seq::new(
        bytes.len(),
        |i: int|
            if pos <= i < pos + data.len() {
                data[i - pos]
            } else {
                bytes[i]
            },
    )
}

/// `data` stands in `bytes` from `pos` on.
pub open spec fn holds_at(bytes: Seq<u8>, pos: int, data: Seq<u8>) -> bool {
    &&& 0 <= pos
    &&& pos + data.len() <= bytes.len()
    &&& bytes.subrange(pos, pos + data.len()) == data
}

/// Reading back the two bytes of a number gives the number.
pub proof fn lemma_u16_round_trip(val: u16)
    ensures
        u16_at(u16_wire(val), 0) == val,
{
    assert((((val >> 8) as u8 as u16) << 8) | ((val & 0xFF) as u8 as u16) == val) by (bit_vector);
}

/// Reading back the four bytes of a number gives the number.
pub proof fn lemma_u32_round_trip(val: u32)
    ensures
        u32_at(u32_wire(val), 0) == val,
{
    let hi = (val >> 16) as u16;
    let lo = (val & 0xFFFF) as u16;
    let w = u32_wire(val);
    assert(w[0] == u16_wire(hi)[0] && w[1] == u16_wire(hi)[1]);
    assert(w[2] == u16_wire(lo)[0] && w[3] == u16_wire(lo)[1]);
    lemma_u16_round_trip(hi);
    lemma_u16_round_trip(lo);
    assert(u16_at(w, 0) == hi);
    assert(u16_at(w, 2) == lo);
    assert((((val >> 16) as u16 as u32) << 16) | ((val & 0xFFFF) as u16 as u32) == val)
        by (bit_vector);
}

/// Data laid over a region stands there afterwards, and the rest of the region is as it was.
pub proof fn lemma_splice_holds(bytes: Seq<u8>, pos: int, data: Seq<u8>)
    requires
        0 <= pos,
        pos + data.len() <= bytes.len(),
    ensures
        holds_at(splice(bytes, pos, data), pos, data),
        splice(bytes, pos, data).len() == bytes.len(),
        splice(bytes, pos, data).subrange(0, pos) == bytes.subrange(0, pos),
{
    assert(splice(bytes, pos, data).subrange(pos, pos + data.len()) =~= data);
    assert(splice(bytes, pos, data).subrange(0, pos) =~= bytes.subrange(0, pos));
}

/// Laying two pieces down one after the other is laying down their concatenation.
pub proof fn lemma_splice_append(bytes: Seq<u8>, pos: int, first: Seq<u8>, second: Seq<u8>)
    requires
        0 <= pos,
        pos + first.len() + second.len() <= bytes.len(),
    ensures
        splice(splice(bytes, pos, first), pos + first.len(), second) == splice(
            bytes,
            pos,
            first + second,
        ),
{
    assert(splice(splice(bytes, pos, first), pos + first.len(), second) =~= splice(
        bytes,
        pos,
        first + second,
    ));
}

/// Overwriting a hole in what was laid down is laying down the whole with the hole filled.
pub proof fn lemma_splice_patch(
    bytes: Seq<u8>,
    pos: int,
    first: Seq<u8>,
    hole: Seq<u8>,
    patch: Seq<u8>,
    last: Seq<u8>,
)
    requires
        0 <= pos,
        hole.len() == patch.len(),
        pos + first.len() + hole.len() + last.len() <= bytes.len(),
    ensures
        splice(splice(bytes, pos, first + hole + last), pos + first.len(), patch) == splice(
            bytes,
            pos,
            first + patch + last,
        ),
{
    assert(splice(splice(bytes, pos, first + hole + last), pos + first.len(), patch) =~= splice(
        bytes,
        pos,
        first + patch + last,
    ));
}

/// Where two pieces stand one behind the other, each stands in its place.
pub proof fn lemma_holds_split(bytes: Seq<u8>, pos: int, first: Seq<u8>, second: Seq<u8>)
    requires
        holds_at(bytes, pos, first + second),
    ensures
        holds_at(bytes, pos, first),
        holds_at(bytes, pos + first.len(), second),
{
    let whole = first + second;
    assert(bytes.subrange(pos, pos + first.len()) =~= first) by {
        assert forall|i: int| 0 <= i < first.len() implies bytes.subrange(
            pos,
            pos + first.len(),
        )[i] == first[i] by {
            assert(bytes.subrange(pos, pos + whole.len())[i] == whole[i]);
        }
    }
    assert(bytes.subrange(pos + first.len(), pos + first.len() + second.len()) =~= second) by {
        assert forall|i: int| 0 <= i < second.len() implies bytes.subrange(
            pos + first.len(),
            pos + first.len() + second.len(),
        )[i] == second[i] by {
            assert(bytes.subrange(pos, pos + whole.len())[first.len() + i] == whole[first.len()
                + i]);
        }
    }
}

/// Where the two bytes of a number stand, the number is read.
pub proof fn lemma_u16_holds(bytes: Seq<u8>, pos: int, val: u16)
    requires
        holds_at(bytes, pos, u16_wire(val)),
    ensures
        u16_at(bytes, pos) == val,
{
    let w = u16_wire(val);
    assert(bytes[pos] == bytes.subrange(pos, pos + 2)[0]);
    assert(bytes[pos + 1] == bytes.subrange(pos, pos + 2)[1]);
    assert(u16_at(bytes, pos) == u16_at(w, 0));
    lemma_u16_round_trip(val);
}

/// Where the four bytes of a number stand, the number is read.
pub proof fn lemma_u32_holds(bytes: Seq<u8>, pos: int, val: u32)
    requires
        holds_at(bytes, pos, u32_wire(val)),
    ensures
        u32_at(bytes, pos) == val,
{
    let w = u32_wire(val);
    assert forall|i: int| 0 <= i < 4 implies bytes[pos + i] == #[trigger] w[i] by {
        assert(bytes[pos + i] == bytes.subrange(pos, pos + 4)[i]);
    }
    assert(w[0] == bytes[pos + 0]);
    assert(u16_at(bytes, pos) == u16_at(w, 0));
    assert(u16_at(bytes, pos + 2) == u16_at(w, 2));
    lemma_u32_round_trip(val);
}

pub struct BytePacketBuffer {
    pub buf: Vec<u8>,
    pub pos: usize,
}

impl BytePacketBuffer {
    /// The cursor lies within the region or just behind its last byte.
    pub open spec fn inv(&self) -> bool {
        self.pos <= self.buf@.len()
    }

    /// The number of bytes between the cursor and the end of the region.
    pub open spec fn room(&self) -> int {
        self.buf@.len() - self.pos
    }

    /// `data` can be written at the cursor without crossing the end.
    pub open spec fn fits(&self, data: Seq<u8>) -> bool {
        self.pos + data.len() <= self.buf@.len()
    }

    /// `after` is `self` with `data` written at the cursor, and the cursor behind it.
    pub open spec fn wrote(&self, after: &BytePacketBuffer, data: Seq<u8>) -> bool {
        &&& self.fits(data)
        &&& after.buf@ == splice(self.buf@, self.pos as int, data)
        &&& after.pos == self.pos + data.len()
    }

    /// A region of `BUF_LEN` zero bytes with the cursor at its start.
    pub fn new() -> (buffer: Self)
        ensures
            buffer.pos == 0,
            buffer.buf@ == blank_bytes(),
            buffer.inv(),
    {
        let buffer = BytePacketBuffer { buf: vec![0u8; BUF_LEN], pos: 0 };
        assert(buffer.buf@ =~= blank_bytes());
        buffer
    }

    /// Moves the cursor forward by `steps` bytes.
    pub fn step(&mut self, steps: usize) -> (res: Result<(), DnsError>)
        ensures
            old(self).inv() ==> final(self).inv(),
            res is Ok <==> old(self).pos + steps <= old(self).buf@.len(),
            res is Ok ==> final(self).pos == old(self).pos + steps,
            res is Err ==> res == Err::<(), DnsError>(DnsError::OutOfBounds) && final(self).pos
                == old(self).pos,
            final(self).buf == old(self).buf,
    {
        if self.pos <= self.buf.len() && steps <= self.buf.len() - self.pos {
            self.pos = self.pos + steps;
            Ok(())
        } else {
            Err(DnsError::OutOfBounds)
        }
    }

    /// Puts the cursor at `pos`.
    pub fn seek(&mut self, pos: usize) -> (res: Result<(), DnsError>)
        ensures
            old(self).inv() ==> final(self).inv(),
            res is Ok <==> pos <= old(self).buf@.len(),
            res is Ok ==> final(self).pos == pos,
            res is Err ==> res == Err::<(), DnsError>(DnsError::OutOfBounds) && final(self).pos
                == old(self).pos,
            final(self).buf == old(self).buf,
    {
        if pos <= self.buf.len() {
            self.pos = pos;
            Ok(())
        } else {
            Err(DnsError::OutOfBounds)
        }
    }

    /// Reads the byte at the cursor and steps over it.
    pub fn read(&mut self) -> (res: Result<u8, DnsError>)
        ensures
            old(self).inv() ==> final(self).inv(),
            final(self).buf == old(self).buf,
            match res {
                Ok(byte) => {
                    &&& old(self).pos < old(self).buf@.len()
                    &&& byte == old(self).buf@[old(self).pos as int]
                    &&& final(self).pos == old(self).pos + 1
                },
                Err(e) => {
                    &&& e == DnsError::OutOfBounds
                    &&& old(self).pos >= old(self).buf@.len()
                    &&& final(self).pos == old(self).pos
                },
            },
    {
        if self.pos < self.buf.len() {
            let res = self.buf[self.pos];
            self.pos = self.pos + 1;
            Ok(res)
        } else {
            Err(DnsError::OutOfBounds)
        }
    }

    /// The byte at `pos`.
    pub fn get(&self, pos: usize) -> (res: Result<u8, DnsError>)
        ensures
            match res {
                Ok(byte) => pos < self.buf@.len() && byte == self.buf@[pos as int],
                Err(e) => e == DnsError::OutOfBounds && pos >= self.buf@.len(),
            },
    {
        if pos < self.buf.len() {
            Ok(self.buf[pos])
        } else {
            Err(DnsError::OutOfBounds)
        }
    }

    /// The `len` bytes from `start` on.
    pub fn get_range(&self, start: usize, len: usize) -> (res: Result<&[u8], DnsError>)
        ensures
            match res {
                Ok(bytes) => {
                    &&& start + len <= self.buf@.len()
                    &&& bytes@ == self.buf@.subrange(start as int, start + len)
                },
                Err(e) => e == DnsError::OutOfBounds && start + len > self.buf@.len(),
            },
    {
        if start <= self.buf.len() && len <= self.buf.len() - start {
            let whole = self.buf.as_slice();
            Ok(vstd::slice::slice_subrange(whole, start, start + len))
        } else {
            Err(DnsError::OutOfBounds)
        }
    }

    /// Reads a 16-bit number, most significant byte first.
    pub fn read_u16(&mut self) -> (res: Result<u16, DnsError>)
        ensures
            old(self).inv() ==> final(self).inv(),
            final(self).buf == old(self).buf,
            match res {
                Ok(val) => {
                    &&& old(self).pos + 2 <= old(self).buf@.len()
                    &&& val == u16_at(old(self).buf@, old(self).pos as int)
                    &&& final(self).pos == old(self).pos + 2
                },
                Err(e) => {
                    &&& e == DnsError::OutOfBounds
                    &&& old(self).pos + 2 > old(self).buf@.len()
                    &&& final(self).pos == old(self).pos
                },
            },
    {
        if self.pos <= self.buf.len() && 2 <= self.buf.len() - self.pos {
            let hi = self.buf[self.pos];
            let lo = self.buf[self.pos + 1];
            self.pos = self.pos + 2;
            Ok(((hi as u16) << 8) | (lo as u16))
        } else {
            Err(DnsError::OutOfBounds)
        }
    }

    /// Reads a 32-bit number as two 16-bit numbers, the high half first.
    pub fn read_u32(&mut self) -> (res: Result<u32, DnsError>)
        ensures
            old(self).inv() ==> final(self).inv(),
            final(self).buf == old(self).buf,
            match res {
                Ok(val) => {
                    &&& old(self).pos + 4 <= old(self).buf@.len()
                    &&& val == u32_at(old(self).buf@, old(self).pos as int)
                    &&& final(self).pos == old(self).pos + 4
                },
                Err(e) => {
                    &&& e == DnsError::OutOfBounds
                    &&& old(self).pos + 4 > old(self).buf@.len()
                    &&& final(self).pos == old(self).pos
                },
            },
    {
        if self.pos <= self.buf.len() && 4 <= self.buf.len() - self.pos {
            let hi = self.read_u16();
            let lo = self.read_u16();
            match (hi, lo) {
                (Ok(hi), Ok(lo)) => Ok(((hi as u32) << 16) | (lo as u32)),
                _ => Err(DnsError::OutOfBounds),
            }
        } else {
            Err(DnsError::OutOfBounds)
        }
    }

    /// Writes a byte at the cursor and steps over it.
    pub fn write(&mut self, val: u8) -> (res: Result<(), DnsError>)
        ensures
            old(self).inv() ==> final(self).inv(),
            match res {
                Ok(()) => {
                    &&& old(self).pos < old(self).buf@.len()
                    &&& final(self).buf@ == old(self).buf@.update(old(self).pos as int, val)
                    &&& final(self).buf@ == splice(old(self).buf@, old(self).pos as int, seq![val])
                    &&& final(self).pos == old(self).pos + 1
                },
                Err(e) => {
                    &&& e == DnsError::OutOfBounds
                    &&& old(self).pos >= old(self).buf@.len()
                    &&& *final(self) == *old(self)
                },
            },
    {
        if self.pos < self.buf.len() {
            self.buf[self.pos] = val;
            self.pos = self.pos + 1;
            assert(self.buf@ =~= splice(old(self).buf@, old(self).pos as int, seq![val]));
            Ok(())
        } else {
            Err(DnsError::OutOfBounds)
        }
    }

    /// Writes a byte at the cursor and steps over it.
    pub fn write_u8(&mut self, val: u8) -> (res: Result<(), DnsError>)
        ensures
            old(self).inv() ==> final(self).inv(),
            match res {
                Ok(()) => {
                    &&& old(self).pos < old(self).buf@.len()
                    &&& final(self).buf@ == splice(old(self).buf@, old(self).pos as int, seq![val])
                    &&& final(self).pos == old(self).pos + 1
                },
                Err(e) => {
                    &&& e == DnsError::OutOfBounds
                    &&& old(self).pos >= old(self).buf@.len()
                    &&& *final(self) == *old(self)
                },
            },
    {
        self.write(val)
    }

    /// Writes a 16-bit number, most significant byte first.
    pub fn write_u16(&mut self, val: u16) -> (res: Result<(), DnsError>)
        ensures
            old(self).inv() ==> final(self).inv(),
            match res {
                Ok(()) => {
                    &&& old(self).pos + 2 <= old(self).buf@.len()
                    &&& final(self).buf@ == splice(
                        old(self).buf@,
                        old(self).pos as int,
                        u16_wire(val),
                    )
                    &&& final(self).pos == old(self).pos + 2
                },
                Err(e) => {
                    &&& e == DnsError::OutOfBounds
                    &&& old(self).pos + 2 > old(self).buf@.len()
                    &&& *final(self) == *old(self)
                },
            },
    {
        if self.pos <= self.buf.len() && 2 <= self.buf.len() - self.pos {
            self.buf[self.pos] = (val >> 8) as u8;
            self.buf[self.pos + 1] = (val & 0xFF) as u8;
            self.pos = self.pos + 2;
            assert(self.buf@ =~= splice(old(self).buf@, old(self).pos as int, u16_wire(val)));
            Ok(())
        } else {
            Err(DnsError::OutOfBounds)
        }
    }

    /// Writes a 32-bit number as two 16-bit numbers, the high half first.
    pub fn write_u32(&mut self, val: u32) -> (res: Result<(), DnsError>)
        ensures
            old(self).inv() ==> final(self).inv(),
            match res {
                Ok(()) => {
                    &&& old(self).pos + 4 <= old(self).buf@.len()
                    &&& final(self).buf@ == splice(
                        old(self).buf@,
                        old(self).pos as int,
                        u32_wire(val),
                    )
                    &&& final(self).pos == old(self).pos + 4
                },
                Err(e) => {
                    &&& e == DnsError::OutOfBounds
                    &&& old(self).pos + 4 > old(self).buf@.len()
                    &&& *final(self) == *old(self)
                },
            },
    {
        if self.pos <= self.buf.len() && 4 <= self.buf.len() - self.pos {
            let hi = (val >> 16) as u16;
            let lo = (val & 0xFFFF) as u16;
            let first = self.write_u16(hi);
            let second = self.write_u16(lo);
            proof {
                lemma_splice_append(
                    old(self).buf@,
                    old(self).pos as int,
                    u16_wire(hi),
                    u16_wire(lo),
                );
            }
            Ok(())
        } else {
            Err(DnsError::OutOfBounds)
        }
    }

    /// Overwrites the byte at `pos`; the cursor stays.
    pub fn set(&mut self, pos: usize, val: u8) -> (res: Result<(), DnsError>)
        ensures
            old(self).inv() ==> final(self).inv(),
            final(self).pos == old(self).pos,
            match res {
                Ok(()) => {
                    &&& pos < old(self).buf@.len()
                    &&& final(self).buf@ == old(self).buf@.update(pos as int, val)
                },
                Err(e) => {
                    &&& e == DnsError::OutOfBounds
                    &&& pos >= old(self).buf@.len()
                    &&& final(self).buf == old(self).buf
                },
            },
    {
        if pos < self.buf.len() {
            self.buf[pos] = val;
            Ok(())
        } else {
            Err(DnsError::OutOfBounds)
        }
    }

    /// Overwrites the two bytes at `pos` with a 16-bit number; the cursor stays.
    pub fn set_u16(&mut self, pos: usize, val: u16) -> (res: Result<(), DnsError>)
        ensures
            old(self).inv() ==> final(self).inv(),
            final(self).pos == old(self).pos,
            match res {
                Ok(()) => {
                    &&& pos + 2 <= old(self).buf@.len()
                    &&& final(self).buf@ == splice(old(self).buf@, pos as int, u16_wire(val))
                },
                Err(e) => {
                    &&& e == DnsError::OutOfBounds
                    &&& pos + 2 > old(self).buf@.len()
                    &&& final(self).buf == old(self).buf
                },
            },
    {
        if pos <= self.buf.len() && 2 <= self.buf.len() - pos {
            self.buf[pos] = (val >> 8) as u8;
            self.buf[pos + 1] = (val & 0xFF) as u8;
            assert(self.buf@ =~= splice(old(self).buf@, pos as int, u16_wire(val)));
            Ok(())
        } else {
            Err(DnsError::OutOfBounds)
        }
    }
}

} // verus!
