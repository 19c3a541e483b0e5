use vstd::prelude::*;
use vstd::string::StringSliceAdditionalSpecFns;

verus! {

/// Errors raised while decoding.
#[derive(PartialEq, Eq, Structural, Debug, Clone, Copy)]
pub enum Error {
    /// The buffer ended before the value being read was complete.
    ErrNoMoreData,
    /// A frame began with a type byte that names no known frame.
    ErrUnknownFrameType,
}

/// Result of an operation that may fail with an [`Error`].
pub type Res<T> = Result<T, Error>;

/// Big-endian value of a sequence of bytes, truncated to 64 bits.
pub open spec fn be_value(s: Seq<u8>) -> u64
    decreases s.len(),
{
    if s.len() == 0 {
        0
    } else {
        (be_value(s.drop_last()) << 8u64) | (s.last() as u64)
    }
}

/// The `l` low-order bytes of `x`, most significant first.
pub open spec fn be_bytes(x: u64, l: nat) -> Seq<u8> {
    Seq::new(l, |i: int| ((x >> (8 * (l - 1 - i)) as u64) & 0xff) as u8)
}


/// `x` fits in `l` bytes (always so from eight bytes on).
pub open spec fn fits_bytes(x: u64, l: nat) -> bool {
    l >= 8 || (x >> (8 * l) as u64) == 0
}

proof fn lemma_shr_shr(x: u64, k: u64)
    requires
        k <= 56,
    ensures
        (x >> 8u64) >> k == x >> ((k + 8) as u64),
{
    assert((x >> 8u64) >> k == x >> ((k + 8) as u64)) by (bit_vector)
        requires
            k <= 56,
    ;
}

proof fn lemma_byte_split(x: u64)
    ensures
        ((x >> 8u64) << 8u64) | (((x & 0xff) as u8) as u64) == x,
        (x >> 0u64) == x,
{
    assert(((x >> 8u64) << 8u64) | (((x & 0xff) as u8) as u64) == x) by (bit_vector);
    assert((x >> 0u64) == x) by (bit_vector);
}

/// Removing the last byte of a big-endian encoding leaves the encoding of the
/// value shifted right by eight bits.
pub proof fn lemma_be_bytes_drop_last(x: u64, l: nat)
    requires
        0 < l <= 8,
    ensures
        be_bytes(x, l).drop_last() == be_bytes(x >> 8u64, (l - 1) as nat),
        be_bytes(x, l).last() == (x & 0xff) as u8,
{
    let a = be_bytes(x, l).drop_last();
    let b = be_bytes(x >> 8u64, (l - 1) as nat);
    assert forall|i: int| 0 <= i < a.len() implies a[i] == b[i] by {
        lemma_shr_shr(x, (8 * (l - 2 - i)) as u64);
        assert((8 * (l - 2 - i)) + 8 == 8 * (l - 1 - i));
    }
    assert(a =~= b);
    lemma_byte_split(x);
}

/// Reading back `l` big-endian bytes of `x` gives `x` when it fits.
pub proof fn lemma_be_roundtrip(x: u64, l: nat)
    requires
        l <= 8,
        fits_bytes(x, l),
    ensures
        be_value(be_bytes(x, l)) == x,
    decreases l,
{
    lemma_byte_split(x);
    if l == 0 {
        assert(be_bytes(x, l) =~= Seq::<u8>::empty());
    } else {
        lemma_be_bytes_drop_last(x, l);
        if l < 8 {
            lemma_shr_shr(x, (8 * (l - 1)) as u64);
        } else {
            lemma_shr_shr(x, 56);
            assert((x >> 64u64) == 0) by (bit_vector);
        }
        lemma_be_roundtrip(x >> 8u64, (l - 1) as nat);
    }
}


/// The largest value a variable-length integer can carry (62 bits).
pub const VARINT_MAX: u64 = 0x3fff_ffff_ffff_ffff;

/// Number of bytes of the shortest variable-length encoding of `v`.
pub open spec fn varint_len(v: u64) -> nat {
    if v < 0x40 {
        1
    } else if v < 0x4000 {
        2
    } else if v < 0x4000_0000 {
        4
    } else {
        8
    }
}

/// Number of bytes of the variable-length integer whose first byte is `b`,
/// as told by its two high bits.
pub open spec fn varint_len_of_first(b: u8) -> nat {
    if b < 0x40 {
        1
    } else if b < 0x80 {
        2
    } else if b < 0xc0 {
        4
    } else {
        8
    }
}

/// The two-bit length tag, in place, of an encoding of `l` bytes.
pub open spec fn varint_tag(l: nat) -> u64 {
    if l == 1 {
        0
    } else if l == 2 {
        0x4000
    } else if l == 4 {
        0x8000_0000
    } else {
        0xc000_0000_0000_0000
    }
}

/// The bits that carry the value in an encoding of `l` bytes.
pub open spec fn varint_mask(l: nat) -> u64 {
    if l == 1 {
        0x3f
    } else if l == 2 {
        0x3fff
    } else if l == 4 {
        0x3fff_ffff
    } else {
        0x3fff_ffff_ffff_ffff
    }
}

/// The variable-length encoding of `v`: its shortest length, tagged in the
/// two high bits of the first byte.
pub open spec fn varint_bytes(v: u64) -> Seq<u8> {
    be_bytes(v | varint_tag(varint_len(v)), varint_len(v))
}

/// Reading one byte at position `p` of `s`: the byte and the next position.
pub open spec fn spec_read_byte(s: Seq<u8>, p: nat) -> Res<(u8, nat)> {
    if p < s.len() {
        Ok((s[p as int], p + 1))
    } else {
        Err(Error::ErrNoMoreData)
    }
}

/// Reading an `l`-byte big-endian integer at position `p` of `s`.
pub open spec fn spec_read_uint(s: Seq<u8>, p: nat, l: nat) -> Res<(u64, nat)> {
    if p + l <= s.len() {
        Ok((be_value(s.subrange(p as int, (p + l) as int)), p + l))
    } else {
        Err(Error::ErrNoMoreData)
    }
}

/// Reading a variable-length integer at position `p` of `s`.
pub open spec fn spec_read_varint(s: Seq<u8>, p: nat) -> Res<(u64, nat)> {
    if p < s.len() {
        let l = varint_len_of_first(s[p as int]);
        match spec_read_uint(s, p, l) {
            Ok((raw, q)) => Ok((raw & varint_mask(l), q)),
            Err(e) => Err(e),
        }
    } else {
        Err(Error::ErrNoMoreData)
    }
}

/// Reading `l` raw bytes at position `p` of `s`.
pub open spec fn spec_read_data(s: Seq<u8>, p: nat, l: nat) -> Res<(Seq<u8>, nat)> {
    if p + l <= s.len() {
        Ok((s.subrange(p as int, (p + l) as int), p + l))
    } else {
        Err(Error::ErrNoMoreData)
    }
}

/// Reading a variable-length length and then that many bytes at position
/// `p` of `s`: the bytes, or the error met, with the position reached.
pub open spec fn spec_read_data_and_len(s: Seq<u8>, p: nat) -> (Res<Seq<u8>>, nat) {
    match spec_read_varint(s, p) {
        Err(e) => (Err(e), p),
        Ok((l, p1)) => match spec_read_data(s, p1, l as nat) {
            Err(e) => (Err(e), p1),
            Ok((data, p2)) => (Ok(data), p2),
        },
    }
}

/// The value of a one-byte big-endian integer is that byte.
pub proof fn lemma_be_value_single(s: Seq<u8>)
    requires
        s.len() == 1,
    ensures
        be_value(s) == s[0] as u64,
{
    let b = s[0];
    assert(s.drop_last() =~= Seq::<u8>::empty());
    assert(be_value(s.drop_last()) == 0);
    assert(s.last() == b);
    assert((0u64 << 8u64) | (b as u64) == b as u64) by (bit_vector);
}

proof fn lemma_varint_bits(v: u64)
    requires
        v <= VARINT_MAX,
    ensures
        ({
            let l = varint_len(v);
            let raw = v | varint_tag(l);
            &&& fits_bytes(raw, l)
            &&& varint_len_of_first((((raw >> (8 * (l - 1)) as u64) & 0xff) as u8)) == l
            &&& raw & varint_mask(l) == v
        }),
{
    let l = varint_len(v);
    let raw = v | varint_tag(l);
    let first = (((raw >> (8 * (l - 1)) as u64) & 0xff) as u8);
    if v < 0x40 {
        assert(v | 0u64 == v && ((v | 0u64) >> 8u64) == 0 && (((v | 0u64) >> 0u64) & 0xff) < 0x40
            && (v | 0u64) & 0x3f == v) by (bit_vector)
            requires
                v < 0x40,
        ;
        assert(first < 0x40);
    } else if v < 0x4000 {
        assert(((v | 0x4000u64) >> 16u64) == 0 && 0x40 <= (((v | 0x4000u64) >> 8u64) & 0xff) < 0x80
            && (v | 0x4000u64) & 0x3fff == v) by (bit_vector)
            requires
                v < 0x4000,
        ;
        assert(0x40 <= first < 0x80);
    } else if v < 0x4000_0000 {
        assert(((v | 0x8000_0000u64) >> 32u64) == 0 && 0x80 <= (((v | 0x8000_0000u64) >> 24u64)
            & 0xff) < 0xc0 && (v | 0x8000_0000u64) & 0x3fff_ffff == v) by (bit_vector)
            requires
                v < 0x4000_0000,
        ;
        assert(0x80 <= first < 0xc0);
    } else {
        assert(0xc0 <= (((v | 0xc000_0000_0000_0000u64) >> 56u64) & 0xff) <= 0xff && (v
            | 0xc000_0000_0000_0000u64) & 0x3fff_ffff_ffff_ffff == v) by (bit_vector)
            requires
                v <= 0x3fff_ffff_ffff_ffff,
        ;
        assert(0xc0 <= first);
    }
}

/// A variable-length integer reads back as written, wherever it stands.
pub proof fn lemma_varint_roundtrip(s: Seq<u8>, p: nat, v: u64)
    requires
        v <= VARINT_MAX,
        p + varint_bytes(v).len() <= s.len(),
        s.subrange(p as int, (p + varint_bytes(v).len()) as int) == varint_bytes(v),
    ensures
        spec_read_varint(s, p) == Ok::<(u64, nat), Error>((v, p + varint_bytes(v).len())),
{
    let l = varint_len(v);
    let raw = v | varint_tag(l);
    lemma_varint_bits(v);
    lemma_be_roundtrip(raw, l);
    assert(s[p as int] == varint_bytes(v)[0]);
}

/// An `l`-byte integer reads back as written, wherever it stands.
pub proof fn lemma_uint_roundtrip(s: Seq<u8>, p: nat, v: u64, l: nat)
    requires
        l <= 8,
        fits_bytes(v, l),
        p + l <= s.len(),
        s.subrange(p as int, (p + l) as int) == be_bytes(v, l),
    ensures
        spec_read_uint(s, p, l) == Ok::<(u64, nat), Error>((v, p + l)),
{
    lemma_be_roundtrip(v, l);
}


/// The value of an ASCII hexadecimal digit, either case.
pub open spec fn hex_digit_value(c: u8) -> Option<u8> {
    if 0x30 <= c <= 0x39 {
        Some((c - 0x30) as u8)
    } else if 0x61 <= c <= 0x66 {
        Some((c - 0x61 + 10) as u8)
    } else if 0x41 <= c <= 0x46 {
        Some((c - 0x41 + 10) as u8)
    } else {
        None
    }
}

/// `s` is an even number of hexadecimal digits.
pub open spec fn is_hex(s: Seq<u8>) -> bool {
    &&& s.len() % 2 == 0
    &&& forall|i: int| 0 <= i < s.len() ==> (#[trigger] hex_digit_value(s[i])) is Some
}

/// The bytes that a string of hexadecimal digits spells, two digits a byte.
pub open spec fn hex_decode(s: Seq<u8>) -> Seq<u8> {
    Seq::new(
        s.len() / 2,
        |i: int|
            (hex_digit_value(s[2 * i])->0 * 16 + hex_digit_value(s[2 * i + 1])->0) as u8,
    )
}

fn hex_digit(c: u8) -> (v: u8)
    requires
        hex_digit_value(c) is Some,
    ensures
        v == hex_digit_value(c)->0,
        v < 16,
{
    if c <= 0x39 {
        c - 0x30
    } else if c >= 0x61 {
        c - 0x61 + 10
    } else {
        c - 0x41 + 10
    }
}

/// A byte buffer with a read cursor: encoding appends at the end, decoding
/// reads from the cursor onwards.
#[derive(PartialEq, Debug)]
pub struct Data {
    buf: Vec<u8>,
    offset: usize,
}

impl Data {
    /// Every byte of the buffer, read or not.
    pub closed spec fn bytes(&self) -> Seq<u8> {
        self.buf@
    }

    /// Position of the read cursor.
    pub closed spec fn pos(&self) -> nat {
        self.offset as nat
    }

    /// The cursor stands within the buffer.
    pub open spec fn wf(&self) -> bool {
        self.pos() <= self.bytes().len()
    }

    /// A buffer holding `s`, with the cursor at its start.
    pub fn from_slice(s: &[u8]) -> (d: Data)
        ensures
            d.wf(),
            d.bytes() == s@,
            d.pos() == 0,
    {
        let mut buf: Vec<u8> = Vec::new();
        let mut i: usize = 0;
        while i < s.len()
            invariant
                i <= s.len(),
                buf@ == s@.subrange(0, i as int),
            decreases s.len() - i,
        {
            buf.push(s[i]);
            i = i + 1;
            assert(buf@ =~= s@.subrange(0, i as int));
        }
        assert(buf@ =~= s@);
        Data { buf, offset: 0 }
    }

    /// A buffer holding the bytes that the hexadecimal string `s` spells,
    /// with the cursor at its start.
    pub fn from_hex(s: &str) -> (d: Data)
        requires
            is_hex(s.spec_bytes()),
        ensures
            d.wf(),
            d.bytes() == hex_decode(s.spec_bytes()),
            d.pos() == 0,
    {
        let b = s.as_bytes();
        let n = b.len() / 2;
        let mut buf: Vec<u8> = Vec::new();
        let mut i: usize = 0;
        while i < n
            invariant
                b@ == s.spec_bytes(),
                is_hex(b@),
                n == b@.len() / 2,
                b@.len() <= usize::MAX,
                i <= n,
                buf@ == hex_decode(b@).subrange(0, i as int),
            decreases n - i,
        {
            let hi = hex_digit(b[2 * i]);
            let lo = hex_digit(b[2 * i + 1]);
            buf.push(hi * 16 + lo);
            i = i + 1;
            assert(buf@ =~= hex_decode(b@).subrange(0, i as int));
        }
        assert(buf@ =~= hex_decode(b@));
        Data { buf, offset: 0 }
    }

    /// Number of bytes not read yet.
    pub fn remaining(&self) -> (n: usize)
        requires
            self.wf(),
        ensures
            n == self.bytes().len() - self.pos(),
    {
        self.buf.len() - self.offset
    }

    /// Reads one byte.
    pub fn decode_byte(&mut self) -> (r: Res<u8>)
        requires
            old(self).wf(),
        ensures
            final(self).wf(),
            final(self).bytes() == old(self).bytes(),
            spec_read_byte(old(self).bytes(), old(self).pos()) == match r {
                Ok(b) => Ok::<(u8, nat), Error>((b, final(self).pos())),
                Err(e) => Err(e),
            },
            r is Err ==> final(self).pos() == old(self).pos(),
    {
        if self.offset < self.buf.len() {
            let b = self.buf[self.offset];
            self.offset = self.offset + 1;
            Ok(b)
        } else {
            Err(Error::ErrNoMoreData)
        }
    }

    /// Reads an `l`-byte big-endian integer (of which only the low-order
    /// eight bytes are kept).
    pub fn decode_uint(&mut self, l: usize) -> (r: Res<u64>)
        requires
            old(self).wf(),
        ensures
            final(self).wf(),
            final(self).bytes() == old(self).bytes(),
            spec_read_uint(old(self).bytes(), old(self).pos(), l as nat) == match r {
                Ok(v) => Ok::<(u64, nat), Error>((v, final(self).pos())),
                Err(e) => Err(e),
            },
            r is Err ==> final(self).pos() == old(self).pos(),
    {
        if self.buf.len() - self.offset < l {
            return Err(Error::ErrNoMoreData);
        }
        let p = self.offset;
        let ghost s = self.buf@;
        let mut acc: u64 = 0;
        let mut i: usize = 0;
        while i < l
            invariant
                i <= l,
                p + l <= s.len(),
                s.len() <= usize::MAX,
                self.buf@ == s,
                acc == be_value(s.subrange(p as int, p + i)),
            decreases l - i,
        {
            let b = self.buf[p + i];
            assert(s.subrange(p as int, p + i + 1).drop_last() =~= s.subrange(p as int, p + i));
            acc = (acc << 8u64) | (b as u64);
            i = i + 1;
        }
        self.offset = p + l;
        Ok(acc)
    }

    /// Reads a variable-length integer: the two high bits of its first byte
    /// give its length, the remaining bits its value.
    pub fn decode_varint(&mut self) -> (r: Res<u64>)
        requires
            old(self).wf(),
        ensures
            final(self).wf(),
            final(self).bytes() == old(self).bytes(),
            spec_read_varint(old(self).bytes(), old(self).pos()) == match r {
                Ok(v) => Ok::<(u64, nat), Error>((v, final(self).pos())),
                Err(e) => Err(e),
            },
            r is Err ==> final(self).pos() == old(self).pos(),
    {
        if self.offset >= self.buf.len() {
            return Err(Error::ErrNoMoreData);
        }
        let first = self.buf[self.offset];
        let (l, mask): (usize, u64) = if first < 0x40 {
            (1, 0x3f)
        } else if first < 0x80 {
            (2, 0x3fff)
        } else if first < 0xc0 {
            (4, 0x3fff_ffff)
        } else {
            (8, 0x3fff_ffff_ffff_ffff)
        };
        let raw = self.decode_uint(l)?;
        Ok(raw & mask)
    }

    /// Reads `l` raw bytes.
    pub fn decode_data(&mut self, l: usize) -> (r: Res<Vec<u8>>)
        requires
            old(self).wf(),
        ensures
            final(self).wf(),
            final(self).bytes() == old(self).bytes(),
            spec_read_data(old(self).bytes(), old(self).pos(), l as nat) == match r {
                Ok(v) => Ok::<(Seq<u8>, nat), Error>((v@, final(self).pos())),
                Err(e) => Err(e),
            },
            r is Err ==> final(self).pos() == old(self).pos(),
    {
        if self.buf.len() - self.offset < l {
            return Err(Error::ErrNoMoreData);
        }
        let p = self.offset;
        let mut out: Vec<u8> = Vec::new();
        let mut i: usize = 0;
        while i < l
            invariant
                i <= l,
                p + l <= self.buf@.len(),
                self.buf@.len() <= usize::MAX,
                out@ == self.buf@.subrange(p as int, p + i),
            decreases l - i,
        {
            out.push(self.buf[p + i]);
            i = i + 1;
            assert(out@ =~= self.buf@.subrange(p as int, p + i));
        }
        self.offset = p + l;
        Ok(out)
    }

    /// Reads a variable-length length, then that many raw bytes.
    pub fn decode_data_and_len(&mut self) -> (r: Res<Vec<u8>>)
        requires
            old(self).wf(),
        ensures
            final(self).wf(),
            final(self).bytes() == old(self).bytes(),
            spec_read_data_and_len(old(self).bytes(), old(self).pos()) == (
                match r {
                    Ok(v) => Ok::<Seq<u8>, Error>(v@),
                    Err(e) => Err(e),
                },
                final(self).pos(),
            ),
    {
        let l = self.decode_varint()?;
        if l > self.buf.len() as u64 {
            return Err(Error::ErrNoMoreData);
        }
        self.decode_data(l as usize)
    }

    /// Reads every byte that is left.
    pub fn decode_remainder(&mut self) -> (r: Res<Vec<u8>>)
        requires
            old(self).wf(),
        ensures
            final(self).wf(),
            final(self).bytes() == old(self).bytes(),
            r is Ok,
            r matches Ok(v) && v@ == old(self).bytes().subrange(
                old(self).pos() as int,
                old(self).bytes().len() as int,
            ),
            final(self).pos() == old(self).bytes().len(),
    {
        let l = self.buf.len() - self.offset;
        self.decode_data(l)
    }

    /// Appends one byte.
    pub fn encode_byte(&mut self, b: u8)
        requires
            old(self).wf(),
        ensures
            final(self).wf(),
            final(self).pos() == old(self).pos(),
            final(self).bytes() == old(self).bytes().push(b),
    {
        self.buf.push(b);
    }

    /// Appends the `l` low-order bytes of `v`, most significant first.
    pub fn encode_uint(&mut self, v: u64, l: usize)
        requires
            old(self).wf(),
            l <= 8,
        ensures
            final(self).wf(),
            final(self).pos() == old(self).pos(),
            final(self).bytes() == old(self).bytes() + be_bytes(v, l as nat),
    {
        let ghost s = self.buf@;
        let mut i: usize = 0;
        while i < l
            invariant
                i <= l,
                l <= 8,
                self.offset == old(self).offset,
                self.offset <= s.len(),
                self.buf@ == s + be_bytes(v, l as nat).subrange(0, i as int),
            decreases l - i,
        {
            let shift: u64 = (8 * (l - 1 - i)) as u64;
            self.buf.push(((v >> shift) & 0xff) as u8);
            i = i + 1;
            assert(self.buf@ =~= s + be_bytes(v, l as nat).subrange(0, i as int));
        }
        assert(be_bytes(v, l as nat).subrange(0, l as int) =~= be_bytes(v, l as nat));
    }

    /// Appends `v` as a variable-length integer of the shortest length.
    pub fn encode_varint(&mut self, v: u64)
        requires
            old(self).wf(),
            v <= VARINT_MAX,
        ensures
            final(self).wf(),
            final(self).pos() == old(self).pos(),
            final(self).bytes() == old(self).bytes() + varint_bytes(v),
    {
        if v < 0x40 {
            self.encode_uint(v | 0, 1);
        } else if v < 0x4000 {
            self.encode_uint(v | 0x4000, 2);
        } else if v < 0x4000_0000 {
            self.encode_uint(v | 0x8000_0000, 4);
        } else {
            self.encode_uint(v | 0xc000_0000_0000_0000, 8);
        }
    }

    /// Appends the bytes of `v`.
    pub fn encode_vec(&mut self, v: &[u8])
        requires
            old(self).wf(),
        ensures
            final(self).wf(),
            final(self).pos() == old(self).pos(),
            final(self).bytes() == old(self).bytes() + v@,
    {
        let ghost s = self.buf@;
        let mut i: usize = 0;
        while i < v.len()
            invariant
                i <= v.len(),
                self.offset == old(self).offset,
                self.offset <= s.len(),
                self.buf@ == s + v@.subrange(0, i as int),
            decreases v.len() - i,
        {
            self.buf.push(v[i]);
            i = i + 1;
            assert(self.buf@ =~= s + v@.subrange(0, i as int));
        }
        assert(v@.subrange(0, v.len() as int) =~= v@);
    }

    /// Appends the length of `v` as a variable-length integer, then its bytes.
    pub fn encode_vec_and_len(&mut self, v: &[u8])
        requires
            old(self).wf(),
            v@.len() <= VARINT_MAX,
        ensures
            final(self).wf(),
            final(self).pos() == old(self).pos(),
            final(self).bytes() == old(self).bytes() + varint_bytes(v@.len() as u64) + v@,
    {
        self.encode_varint(v.len() as u64);
        self.encode_vec(v);
    }
}

impl Default for Data {
    /// An empty buffer.
    fn default() -> (d: Data)
        ensures
            d.wf(),
            d.bytes() == Seq::<u8>::empty(),
            d.pos() == 0,
    {
        Data { buf: Vec::new(), offset: 0 }
    }
}

} // verus!
