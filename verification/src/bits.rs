use crate::error::{Error, ErrorKind};
use vstd::prelude::*;
use vstd::slice::slice_subrange;

verus! {

/// The bit of `b` at place `i`, counted from the highest bit, which is place 0.
pub open spec fn bit_at(b: u8, i: int) -> bool {
    (b >> ((7 - i) as u8)) & 1 == 1
}

/// The eight bits of a byte, highest first.
pub open spec fn bits_of_byte(b: u8) -> Seq<bool> {
    Seq::new(8, |i: int| bit_at(b, i))
}

/// The bits of a byte string: those of each byte in turn, highest first.
pub open spec fn unpack(bytes: Seq<u8>) -> Seq<bool> {
    Seq::new(8 * bytes.len(), |j: int| bit_at(bytes[j / 8], j % 8))
}

/// The byte whose bits, highest first, are the first eight of `bits`.
pub open spec fn byte_of(bits: Seq<bool>) -> u8 {
    (if bits[0] { 0x80u8 } else { 0u8 }) | (if bits[1] { 0x40u8 } else { 0u8 })
        | (if bits[2] { 0x20u8 } else { 0u8 }) | (if bits[3] { 0x10u8 } else { 0u8 })
        | (if bits[4] { 0x08u8 } else { 0u8 }) | (if bits[5] { 0x04u8 } else { 0u8 })
        | (if bits[6] { 0x02u8 } else { 0u8 }) | (if bits[7] { 0x01u8 } else { 0u8 })
}

/// The bytes that hold `bits`, eight to a byte, each byte filled from its highest bit down.
/// Bits beyond the last full byte are left out.
pub open spec fn pack(bits: Seq<bool>) -> Seq<u8> {
    Seq::new(bits.len() / 8, |k: int| byte_of(bits.subrange(8 * k, 8 * k + 8)))
}

pub proof fn lemma_bits_of_byte_of(bits: Seq<bool>)
    requires
        bits.len() == 8,
    ensures
        bits_of_byte(byte_of(bits)) == bits,
{
    let c0: u8 = if bits[0] { 0x80u8 } else { 0u8 };
    let c1: u8 = if bits[1] { 0x40u8 } else { 0u8 };
    let c2: u8 = if bits[2] { 0x20u8 } else { 0u8 };
    let c3: u8 = if bits[3] { 0x10u8 } else { 0u8 };
    let c4: u8 = if bits[4] { 0x08u8 } else { 0u8 };
    let c5: u8 = if bits[5] { 0x04u8 } else { 0u8 };
    let c6: u8 = if bits[6] { 0x02u8 } else { 0u8 };
    let c7: u8 = if bits[7] { 0x01u8 } else { 0u8 };
    let v: u8 = c0 | c1 | c2 | c3 | c4 | c5 | c6 | c7;
    assert(((v >> 7u8) & 1 == 1) == (c0 == 0x80u8) && ((v >> 6u8) & 1 == 1) == (c1 == 0x40u8) && ((v
        >> 5u8) & 1 == 1) == (c2 == 0x20u8) && ((v >> 4u8) & 1 == 1) == (c3 == 0x10u8) && ((v
        >> 3u8) & 1 == 1) == (c4 == 0x08u8) && ((v >> 2u8) & 1 == 1) == (c5 == 0x04u8) && ((v
        >> 1u8) & 1 == 1) == (c6 == 0x02u8) && ((v >> 0u8) & 1 == 1) == (c7 == 0x01u8))
        by (bit_vector)
        requires
            v == c0 | c1 | c2 | c3 | c4 | c5 | c6 | c7,
            c0 == 0x80u8 || c0 == 0u8,
            c1 == 0x40u8 || c1 == 0u8,
            c2 == 0x20u8 || c2 == 0u8,
            c3 == 0x10u8 || c3 == 0u8,
            c4 == 0x08u8 || c4 == 0u8,
            c5 == 0x04u8 || c5 == 0u8,
            c6 == 0x02u8 || c6 == 0u8,
            c7 == 0x01u8 || c7 == 0u8,
    ;
    assert(bit_at(v, 0) == bits[0]);
    assert(bit_at(v, 1) == bits[1]);
    assert(bit_at(v, 2) == bits[2]);
    assert(bit_at(v, 3) == bits[3]);
    assert(bit_at(v, 4) == bits[4]);
    assert(bit_at(v, 5) == bits[5]);
    assert(bit_at(v, 6) == bits[6]);
    assert(bit_at(v, 7) == bits[7]);
    assert(bits_of_byte(v) =~= bits);
}

pub proof fn lemma_byte_of_bits(b: u8)
    ensures
        byte_of(bits_of_byte(b)) == b,
{
    let bits = bits_of_byte(b);
    let c0: u8 = if bits[0] { 0x80u8 } else { 0u8 };
    let c1: u8 = if bits[1] { 0x40u8 } else { 0u8 };
    let c2: u8 = if bits[2] { 0x20u8 } else { 0u8 };
    let c3: u8 = if bits[3] { 0x10u8 } else { 0u8 };
    let c4: u8 = if bits[4] { 0x08u8 } else { 0u8 };
    let c5: u8 = if bits[5] { 0x04u8 } else { 0u8 };
    let c6: u8 = if bits[6] { 0x02u8 } else { 0u8 };
    let c7: u8 = if bits[7] { 0x01u8 } else { 0u8 };
    assert(c0 | c1 | c2 | c3 | c4 | c5 | c6 | c7 == b) by (bit_vector)
        requires
            c0 == (if (b >> 7u8) & 1 == 1 { 0x80u8 } else { 0u8 }),
            c1 == (if (b >> 6u8) & 1 == 1 { 0x40u8 } else { 0u8 }),
            c2 == (if (b >> 5u8) & 1 == 1 { 0x20u8 } else { 0u8 }),
            c3 == (if (b >> 4u8) & 1 == 1 { 0x10u8 } else { 0u8 }),
            c4 == (if (b >> 3u8) & 1 == 1 { 0x08u8 } else { 0u8 }),
            c5 == (if (b >> 2u8) & 1 == 1 { 0x04u8 } else { 0u8 }),
            c6 == (if (b >> 1u8) & 1 == 1 { 0x02u8 } else { 0u8 }),
            c7 == (if (b >> 0u8) & 1 == 1 { 0x01u8 } else { 0u8 }),
    ;
}

/// Unpacking what was packed gives the bits back, where they fill whole bytes: what a
/// writer packs, a reader unpacks.
pub proof fn lemma_unpack_pack(bits: Seq<bool>)
    requires
        bits.len() % 8 == 0,
    ensures
        unpack(pack(bits)) == bits,
{
    let bytes = pack(bits);
    assert(8 * bytes.len() == bits.len());
    assert forall|j: int| 0 <= j < bits.len() implies unpack(bytes)[j] == bits[j] by {
        let k = j / 8;
        let chunk = bits.subrange(8 * k, 8 * k + 8);
        lemma_bits_of_byte_of(chunk);
        assert(bits_of_byte(byte_of(chunk))[j % 8] == chunk[j % 8]);
    }
    assert(unpack(bytes) =~= bits);
}

/// Packing what was unpacked gives the bytes back.
pub proof fn lemma_pack_unpack(bytes: Seq<u8>)
    ensures
        pack(unpack(bytes)) == bytes,
{
    let bits = unpack(bytes);
    assert forall|k: int| 0 <= k < bytes.len() implies pack(bits)[k] == bytes[k] by {
        let chunk = bits.subrange(8 * k, 8 * k + 8);
        assert forall|i: int| 0 <= i < 8 implies chunk[i] == bits_of_byte(bytes[k])[i] by {
            assert(chunk[i] == bits[8 * k + i]);
            assert((8 * k + i) / 8 == k);
            assert((8 * k + i) % 8 == i);
        }
        assert(chunk =~= bits_of_byte(bytes[k]));
        lemma_byte_of_bits(bytes[k]);
    }
    assert(pack(bits) =~= bytes);
}

/// The bits of a byte string with one more byte are its bits and then that byte's.
pub proof fn lemma_unpack_push(bytes: Seq<u8>, b: u8)
    ensures
        unpack(bytes.push(b)) == unpack(bytes) + bits_of_byte(b),
{
    let l = unpack(bytes.push(b));
    let r = unpack(bytes) + bits_of_byte(b);
    assert forall|j: int| 0 <= j < l.len() implies l[j] == r[j] by {
        if j >= 8 * bytes.len() {
            assert(j / 8 == bytes.len());
            assert(j % 8 == j - 8 * bytes.len());
        }
    }
    assert(l =~= r);
}

/// The bits of a byte string are the first byte's and then those of the rest.
pub proof fn lemma_unpack_first(bytes: Seq<u8>)
    requires
        bytes.len() > 0,
    ensures
        unpack(bytes) == bits_of_byte(bytes[0]) + unpack(bytes.skip(1)),
{
    let l = unpack(bytes);
    let r = bits_of_byte(bytes[0]) + unpack(bytes.skip(1));
    assert forall|j: int| 0 <= j < l.len() implies l[j] == r[j] by {
        if j >= 8 {
            assert((j - 8) / 8 == j / 8 - 1);
            assert((j - 8) % 8 == j % 8);
        } else {
            assert(j / 8 == 0);
            assert(j % 8 == j);
        }
    }
    assert(l =~= r);
}

/// Packs bits into bytes, highest bit first, and appends each full byte to a byte string.
pub struct BitWriter {
    backing: Vec<u8>,
    nbits: usize,
    buf: u8,
}

impl BitWriter {
    /// The bytes handed on so far.
    pub closed spec fn bytes(&self) -> Seq<u8> {
        self.backing@
    }

    /// The bits that wait for their byte to fill.
    pub closed spec fn pending(&self) -> Seq<bool> {
        bits_of_byte(self.buf).skip(8 - self.nbits)
    }

    /// Fewer than eight bits are waiting.
    pub closed spec fn wf(&self) -> bool {
        self.nbits < 8
    }

    /// Every bit that the bytes handed on hold, then the waiting ones.
    pub open spec fn bits(&self) -> Seq<bool> {
        unpack(self.bytes()) + self.pending()
    }

    pub proof fn lemma_pending_len(&self)
        requires
            self.wf(),
        ensures
            self.pending().len() < 8,
            self.bits().len() == 8 * self.bytes().len() + self.pending().len(),
    {
    }

    /// The bytes handed on are the bits so far, packed.
    pub proof fn lemma_packed(&self)
        requires
            self.wf(),
        ensures
            self.bytes() == pack(self.bits()),
    {
        lemma_pack_unpack(self.backing@);
        Self::lemma_pack_drops_tail(unpack(self.backing@), self.pending());
    }

    /// A writer that appends to `backing`.
    pub fn new(backing: Vec<u8>) -> (r: Self)
        ensures
            r.wf(),
            r.bytes() == backing@,
            r.pending() == Seq::<bool>::empty(),
    {
        let r = Self { backing, nbits: 0, buf: 0 };
        assert(r.pending() =~= Seq::<bool>::empty());
        r
    }

    /// The bytes handed on so far. Bits that still wait are lost.
    pub fn into_inner(self) -> (r: Vec<u8>)
        ensures
            r@ == self.bytes(),
    {
        self.backing
    }

    /// Hands on what the sink holds. The caller has filled the last byte before.
    pub fn flush(&mut self) -> (r: Result<(), Error>)
        requires
            old(self).wf(),
            old(self).pending().len() == 0,
        ensures
            r is Ok,
            *final(self) == *old(self),
    {
        Ok(())
    }

    /// Takes one bit. The eighth bit of a byte completes it, and the byte is handed on.
    pub fn write_bit(&mut self, set: bool) -> (r: Result<(), Error>)
        requires
            old(self).wf(),
        ensures
            r is Ok,
            final(self).wf(),
            final(self).bits() == old(self).bits().push(set),
            final(self).bytes() == pack(final(self).bits()),
            old(self).bytes() == pack(old(self).bits()),
            final(self).pending().len() == (old(self).pending().len() + 1) % 8,
    {
        let ghost before = self.pending();
        let ghost old_buf = self.buf;
        let ghost n = self.nbits;
        self.buf = self.buf << 1;
        if set {
            self.buf = self.buf | 1;
        }
        self.nbits = self.nbits + 1;
        proof {
            let new_buf = self.buf;
            assert forall|i: u8| 0 <= i < 7 implies #[trigger] bit_at(new_buf, i as int) == bit_at(
                old_buf,
                i + 1,
            ) by {
                let c: u8 = if set { 1 } else { 0 };
                let s: u8 = (6 - i) as u8;
                assert(((((old_buf << 1) | c) >> ((7 - i) as u8)) & 1 == 1) == ((old_buf >> s) & 1 == 1))
                    by (bit_vector)
                    requires
                        i < 7,
                        s == 6 - i,
                        c == 0 || c == 1,
                ;
                assert((old_buf << 1) | 0 == old_buf << 1) by (bit_vector);
            }
            assert(bit_at(new_buf, 7) == set) by {
                let c: u8 = if set { 1 } else { 0 };
                assert(((((old_buf << 1) | c) >> 0u8) & 1 == 1) == (c == 1)) by (bit_vector)
                    requires
                        c == 0 || c == 1,
                ;
                assert((old_buf << 1) | 0 == old_buf << 1) by (bit_vector);
            }
            let now = bits_of_byte(new_buf).skip(8 - (n + 1));
            assert forall|j: int| 0 <= j < n implies now[j] == before[j] by {
                assert(bit_at(new_buf, (7 - n + j) as u8 as int) == bit_at(old_buf, (7 - n + j) as u8 + 1));
            }
            assert(now =~= before.push(set));
        }
        if self.nbits == 8 {
            self.nbits = 0;
            let towrite = self.buf;
            self.buf = 0;
            proof {
                lemma_unpack_push(self.backing@, towrite);
                lemma_pack_unpack(self.backing@.push(towrite));
                lemma_pack_unpack(old(self).backing@);
                Self::lemma_pack_drops_tail(unpack(old(self).backing@), old(self).pending());
            }
            self.backing.push(towrite);
            assert(self.pending() =~= Seq::<bool>::empty());
            assert(self.bits() =~= old(self).bits().push(set));
            assert(self.bits() =~= unpack(self.backing@));
            Ok(())
        } else {
            proof {
                assert(self.bits() =~= old(self).bits().push(set));
                lemma_pack_unpack(self.backing@);
                Self::lemma_pack_drops_tail(unpack(self.backing@), self.pending());
                Self::lemma_pack_drops_tail(unpack(self.backing@), old(self).pending());
            }
            Ok(())
        }
    }

    /// Bits that do not fill a byte leave no trace in the packed bytes.
    pub proof fn lemma_pack_drops_tail(whole: Seq<bool>, tail: Seq<bool>)
        requires
            whole.len() % 8 == 0,
            tail.len() < 8,
        ensures
            pack(whole + tail) == pack(whole),
    {
        let a = pack(whole + tail);
        let b = pack(whole);
        assert(a.len() == b.len());
        assert forall|k: int| 0 <= k < a.len() implies a[k] == b[k] by {
            assert((whole + tail).subrange(8 * k, 8 * k + 8) =~= whole.subrange(8 * k, 8 * k + 8));
        }
        assert(a =~= b);
    }

    /// How many bits are missing until the last byte is full: none where no bit waits.
    pub fn padding_needed(&self) -> (r: usize)
        requires
            self.wf(),
        ensures
            r == (if self.pending().len() > 0 {
                8 - self.pending().len()
            } else {
                0
            }),
            r < 8,
    {
        if self.nbits > 0 {
            8 - self.nbits
        } else {
            0
        }
    }
}

/// Hands out the bits of a byte string, each byte from its highest bit down.
pub struct BitReader<'a> {
    backing: &'a [u8],
    nbits: usize,
    buf: u8,
}

impl<'a> BitReader<'a> {
    /// The bits not yet handed out.
    pub closed spec fn remaining(&self) -> Seq<bool> {
        bits_of_byte(self.buf).take(self.nbits as int) + unpack(self.backing@)
    }

    /// At most seven bits of a byte taken in are left.
    pub closed spec fn wf(&self) -> bool {
        self.nbits < 8
    }

    /// A reader of the bits of `backing`.
    pub fn new(backing: &'a [u8]) -> (r: Self)
        ensures
            r.wf(),
            r.remaining() == unpack(backing@),
    {
        let r = Self { backing, nbits: 0, buf: 0 };
        assert(r.remaining() =~= unpack(backing@));
        r
    }

    /// The next bit, or the error `UnexpectedEof` where none is left.
    pub fn read_bit(&mut self) -> (r: Result<bool, Error>)
        requires
            old(self).wf(),
        ensures
            final(self).wf(),
            match r {
                Ok(bit) => old(self).remaining().len() > 0 && bit == old(self).remaining()[0]
                    && final(self).remaining() == old(self).remaining().skip(1),
                Err(e) => old(self).remaining().len() == 0 && final(self).remaining().len() == 0
                    && e.kind() == ErrorKind::UnexpectedEof,
            },
    {
        if self.nbits == 0 {
            if self.backing.len() == 0 {
                return Err(Error::new(ErrorKind::UnexpectedEof));
            }
            proof {
                lemma_unpack_first(self.backing@);
            }
            self.buf = self.backing[0];
            self.backing = slice_subrange(self.backing, 1, self.backing.len());
            self.nbits = 8;
            assert(self.backing@ =~= old(self).backing@.skip(1));
            assert(self.remaining() =~= old(self).remaining());
        }
        let ghost full = self.remaining();
        let ghost old_buf = self.buf;
        let bit = self.buf & 0x80 != 0;
        self.buf = self.buf << 1;
        self.nbits = self.nbits - 1;
        proof {
            let new_buf = self.buf;
            assert(bit == bit_at(old_buf, 0)) by {
                assert((old_buf & 0x80 != 0) == ((old_buf >> 7u8) & 1 == 1)) by (bit_vector);
            }
            assert forall|i: u8| 0 <= i < 7 implies #[trigger] bit_at(new_buf, i as int) == bit_at(
                old_buf,
                i + 1,
            ) by {
                let s: u8 = (6 - i) as u8;
                assert((((old_buf << 1) >> ((7 - i) as u8)) & 1 == 1) == ((old_buf >> s) & 1 == 1))
                    by (bit_vector)
                    requires
                        i < 7,
                        s == 6 - i,
                ;
            }
            let head = bits_of_byte(new_buf).take(self.nbits as int);
            let was = bits_of_byte(old_buf).take(self.nbits + 1);
            assert forall|j: int| 0 <= j < self.nbits implies head[j] == was[j + 1] by {
                assert(bit_at(new_buf, j as u8 as int) == bit_at(old_buf, j as u8 + 1));
            }
            assert(self.remaining() =~= full.skip(1));
        }
        Ok(bit)
    }
}

} // verus!
