//! Byte-buffer helpers for the OpenRGB wire format.
//!
//! Every multi-byte integer on the wire is little-endian. Strings are sent as
//! a 16-bit length that counts the terminating nul, the bytes, then the nul.
//! Colours are sent as red, green, blue and a zero pad byte.

use vstd::prelude::*;
use vstd::string::StrSliceExecFns;
use vstd::string::StringSliceAdditionalSpecFns;

verus! {

/// The two little-endian bytes of a 16-bit integer.
pub open spec fn u16_le(x: u16) -> Seq<u8> {
    seq![(x & 0xff) as u8, ((x >> 8) & 0xff) as u8]
}

/// The four little-endian bytes of a 32-bit integer.
pub open spec fn u32_le(x: u32) -> Seq<u8> {
    seq![
        (x & 0xff) as u8,
        ((x >> 8) & 0xff) as u8,
        ((x >> 16) & 0xff) as u8,
        ((x >> 24) & 0xff) as u8,
    ]
}

/// The four little-endian bytes of a signed 32-bit integer.
pub open spec fn i32_le(x: i32) -> Seq<u8> {
    u32_le(x as u32)
}

/// A length-prefixed, nul-terminated string field: the 16-bit prefix holds
/// the byte count including the nul, wrapped as the cast on the wire wraps.
pub open spec fn str_field(b: Seq<u8>) -> Seq<u8> {
    u16_le((((b.len() + 1) % 0x10000) as u16)) + b + seq![0u8]
}

/// Appends a length-prefixed, nul-terminated string field.
pub fn push_str_field(buf: &mut Vec<u8>, b: &[u8])
    ensures
        final(buf)@ =~= old(buf)@ + str_field(b@),
{
    let l = b.len();
    let lw: usize = if l == usize::MAX {
        0
    } else {
        l + 1
    };
    let prefix: u16 = (lw % 0x10000) as u16;
    proof {
        assert(lw % 0x10000 < 0x10000);
        if l == usize::MAX {
            assert((l + 1) % 0x10000 == 0);
        }
    }
    push_u16_le(buf, prefix);
    push_bytes(buf, b);
    buf.push(0);
}

/// A colour on the wire: red, green, blue, pad.
pub open spec fn color_field(c: (u8, u8, u8)) -> Seq<u8> {
    seq![c.0, c.1, c.2, 0u8]
}

/// A sequence of 32-bit integers flattened to little-endian bytes.
pub open spec fn u32s_le(vs: Seq<u32>) -> Seq<u8>
    decreases vs.len(),
{
    if vs.len() == 0 {
        Seq::empty()
    } else {
        u32_le(vs[0]) + u32s_le(vs.skip(1))
    }
}

pub proof fn lemma_u32s_le_push(vs: Seq<u32>, x: u32)
    ensures
        u32s_le(vs.push(x)) =~= u32s_le(vs) + u32_le(x),
    decreases vs.len(),
{
    if vs.len() == 0 {
        assert(vs.push(x)[0] == x);
        assert(vs.push(x).skip(1) =~= Seq::<u32>::empty());
        assert(u32s_le(Seq::<u32>::empty()) == Seq::<u8>::empty());
        assert(u32s_le(vs.push(x)) =~= u32_le(x));
        assert(u32s_le(vs) + u32_le(x) =~= u32_le(x));
    } else {
        assert(vs.push(x)[0] == vs[0]);
        assert(vs.push(x).skip(1) =~= vs.skip(1).push(x));
        lemma_u32s_le_push(vs.skip(1), x);
        assert(u32s_le(vs.push(x)) =~= u32_le(vs[0]) + (u32s_le(vs.skip(1)) + u32_le(x)));
        assert(u32s_le(vs) + u32_le(x) =~= u32_le(vs[0]) + (u32s_le(vs.skip(1)) + u32_le(x)));
    }
}

/// Appends the two little-endian bytes of `x`.
pub fn push_u16_le(buf: &mut Vec<u8>, x: u16)
    ensures
        final(buf)@ =~= old(buf)@ + u16_le(x),
{
    let b0: u16 = x & 0xff;
    let b1: u16 = (x >> 8) & 0xff;
    assert(b0 <= 0xff && b1 <= 0xff) by (bit_vector)
        requires
            b0 == x & 0xff && b1 == (x >> 8) & 0xff,
    ;
    buf.push(b0 as u8);
    buf.push(b1 as u8);
}

/// Appends the four little-endian bytes of `x`.
pub fn push_u32_le(buf: &mut Vec<u8>, x: u32)
    ensures
        final(buf)@ =~= old(buf)@ + u32_le(x),
{
    let b0: u32 = x & 0xff;
    let b1: u32 = (x >> 8) & 0xff;
    let b2: u32 = (x >> 16) & 0xff;
    let b3: u32 = (x >> 24) & 0xff;
    assert(b0 <= 0xff && b1 <= 0xff && b2 <= 0xff && b3 <= 0xff) by (bit_vector)
        requires
            b0 == x & 0xff && b1 == (x >> 8) & 0xff && b2 == (x >> 16) & 0xff && b3 == (x >> 24)
                & 0xff,
    ;
    buf.push(b0 as u8);
    buf.push(b1 as u8);
    buf.push(b2 as u8);
    buf.push(b3 as u8);
}

/// Appends the four little-endian bytes of the signed `x`.
pub fn push_i32_le(buf: &mut Vec<u8>, x: i32)
    ensures
        final(buf)@ =~= old(buf)@ + i32_le(x),
{
    push_u32_le(buf, x as u32);
}

/// Reads the 32-bit little-endian integer stored at `offset`.
pub fn read_u32_le_at(buf: &[u8], offset: usize) -> (r: Option<u32>)
    ensures
        r is Some <==> offset + 4 <= buf@.len(),
        r matches Some(x) ==> u32_le(x) =~= buf@.subrange(offset as int, offset + 4),
{
    if offset > buf.len() || buf.len() - offset < 4 {
        return None;
    }
    let b0 = buf[offset];
    let b1 = buf[offset + 1];
    let b2 = buf[offset + 2];
    let b3 = buf[offset + 3];
    let x: u32 = (b0 as u32) | ((b1 as u32) << 8) | ((b2 as u32) << 16) | ((b3 as u32) << 24);
    assert(x & 0xff == b0 && (x >> 8) & 0xff == b1 && (x >> 16) & 0xff == b2 && (x >> 24) & 0xff
        == b3) by (bit_vector)
        requires
            x == (b0 as u32) | ((b1 as u32) << 8) | ((b2 as u32) << 16) | ((b3 as u32) << 24),
    ;
    Some(x)
}

/// Reads the 16-bit little-endian integer stored at `offset`.
pub fn read_u16_le_at(buf: &[u8], offset: usize) -> (r: Option<u16>)
    ensures
        r is Some <==> offset + 2 <= buf@.len(),
        r matches Some(x) ==> u16_le(x) =~= buf@.subrange(offset as int, offset + 2),
{
    if offset > buf.len() || buf.len() - offset < 2 {
        return None;
    }
    let b0 = buf[offset];
    let b1 = buf[offset + 1];
    let x: u16 = (b0 as u16) | ((b1 as u16) << 8);
    assert(x & 0xff == b0 && (x >> 8) & 0xff == b1) by (bit_vector)
        requires
            x == (b0 as u16) | ((b1 as u16) << 8),
    ;
    Some(x)
}

/// Reads the red, green and blue bytes stored at `offset`.
pub fn read_rgb_at(buf: &[u8], offset: usize) -> (r: Option<(u8, u8, u8)>)
    ensures
        r is Some <==> offset + 3 <= buf@.len(),
        r matches Some(c) ==> c == (
            buf@[offset as int],
            buf@[offset + 1],
            buf@[offset + 2],
        ),
{
    if offset > buf.len() || buf.len() - offset < 3 {
        return None;
    }
    Some((buf[offset], buf[offset + 1], buf[offset + 2]))
}

/// Appends `src` to `dst`.
pub fn push_bytes(dst: &mut Vec<u8>, src: &[u8])
    ensures
        final(dst)@ =~= old(dst)@ + src@,
{
    let mut i: usize = 0;
    while i < src.len()
        invariant
            i <= src@.len(),
            dst@ =~= old(dst)@ + src@.subrange(0, i as int),
        decreases src@.len() - i,
    {
        dst.push(src[i]);
        proof {
            assert(old(dst)@ + src@.subrange(0, i as int) + seq![src@[i as int]] =~= old(dst)@
                + src@.subrange(0, i + 1));
        }
        i = i + 1;
    }
    proof {
        assert(src@.subrange(0, src@.len() as int) =~= src@);
    }
}

/// The elements of `v` from position `offset` on, copied out.
pub fn vec_suffix<T: Copy>(v: &Vec<T>, offset: usize) -> (r: Vec<T>)
    requires
        offset <= v@.len(),
    ensures
        r@ =~= v@.skip(offset as int),
{
    let mut out: Vec<T> = Vec::new();
    let mut i: usize = offset;
    while i < v.len()
        invariant
            offset <= i <= v@.len(),
            out@ =~= v@.subrange(offset as int, i as int),
        decreases v@.len() - i,
    {
        out.push(v[i]);
        i = i + 1;
    }
    out
}

/// Overwrites `v` at `offset` with the elements of `src`.
pub fn vec_splice<T: Copy>(v: &mut Vec<T>, offset: usize, src: &Vec<T>)
    requires
        offset + src@.len() <= old(v)@.len(),
    ensures
        final(v)@ =~= old(v)@.subrange(0, offset as int) + src@ + old(v)@.skip(
            offset + src@.len(),
        ),
{
    let mut i: usize = 0;
    while i < src.len()
        invariant
            i <= src@.len(),
            offset + src@.len() <= v@.len(),
            v@.len() == old(v)@.len(),
            forall|j: int| 0 <= j < offset ==> v@[j] == old(v)@[j],
            forall|j: int| 0 <= j < i ==> v@[offset + j] == src@[j],
            forall|j: int| offset + src@.len() <= j < v@.len() ==> v@[j] == old(v)@[j],
        decreases src@.len() - i,
    {
        let n = v.len();
        proof {
            assert(offset + i < n);
        }
        v.set(offset + i, src[i]);
        i = i + 1;
    }
}

/// A copy of a vector of copyable elements.
pub fn vec_copy<T: Copy>(v: &Vec<T>) -> (r: Vec<T>)
    ensures
        r@ =~= v@,
{
    let mut out: Vec<T> = Vec::new();
    let mut i: usize = 0;
    while i < v.len()
        invariant
            i <= v@.len(),
            out@ =~= v@.subrange(0, i as int),
        decreases v@.len() - i,
    {
        out.push(v[i]);
        i = i + 1;
    }
    out
}

/// The characters of `s`, copied out one by one.
pub fn chars_of(s: &str) -> (r: Vec<char>)
    ensures
        r@ == s@,
{
    let n = s.unicode_len();
    let mut out: Vec<char> = Vec::new();
    let mut i: usize = 0;
    while i < n
        invariant
            i <= n,
            n == s@.len(),
            out@ =~= s@.subrange(0, i as int),
        decreases n - i,
    {
        out.push(s.get_char(i));
        i = i + 1;
    }
    proof {
        assert(out@ =~= s@);
    }
    out
}

/// Whether two string slices hold the same characters.
pub fn str_eq(a: &str, b: &str) -> (r: bool)
    ensures
        r <==> a@ == b@,
{
    let sa = a.to_owned();
    let sb = b.to_owned();
    sa == sb
}

/// Whether `prefix` opens `buffer`.
pub open spec fn spec_is_prefix(prefix: Seq<u8>, buffer: Seq<u8>) -> bool {
    prefix.len() <= buffer.len() && buffer.subrange(0, prefix.len() as int) == prefix
}

/// The position of the first registered prefix a received buffer opens
/// with: that registration alone is answered, later ones wait.
pub open spec fn spec_first_prefix_match(buffer: Seq<u8>, prefixes: Seq<Seq<u8>>) -> Option<int>
    decreases prefixes.len(),
{
    if prefixes.len() == 0 {
        None
    } else if spec_is_prefix(prefixes[0], buffer) {
        Some(0)
    } else {
        match spec_first_prefix_match(buffer, prefixes.skip(1)) {
            Some(i) => Some(i + 1),
            None => None,
        }
    }
}

proof fn lemma_first_prefix_shift(buffer: Seq<u8>, prefixes: Seq<Seq<u8>>, i: int)
    requires
        0 <= i <= prefixes.len(),
        forall|j: int| 0 <= j < i ==> !spec_is_prefix(#[trigger] prefixes[j], buffer),
    ensures
        spec_first_prefix_match(buffer, prefixes) == (match spec_first_prefix_match(
            buffer,
            prefixes.skip(i),
        ) {
            Some(k) => Some(i + k),
            None => None::<int>,
        }),
    decreases i,
{
    if i > 0 {
        assert(!spec_is_prefix(prefixes[0], buffer));
        assert(prefixes.skip(1).skip(i - 1) =~= prefixes.skip(i));
        assert(forall|j: int|
            0 <= j < i - 1 ==> !spec_is_prefix(#[trigger] prefixes.skip(1)[j], buffer));
        lemma_first_prefix_shift(buffer, prefixes.skip(1), i - 1);
    } else {
        assert(prefixes.skip(0) =~= prefixes);
    }
}

/// Whether `prefix` opens `buffer`.
pub fn is_prefix(prefix: &[u8], buffer: &[u8]) -> (r: bool)
    ensures
        r == spec_is_prefix(prefix@, buffer@),
{
    if prefix.len() > buffer.len() {
        return false;
    }
    let mut i: usize = 0;
    while i < prefix.len()
        invariant
            i <= prefix@.len(),
            prefix@.len() <= buffer@.len(),
            forall|j: int| 0 <= j < i ==> prefix@[j] == buffer@[j],
        decreases prefix@.len() - i,
    {
        if prefix[i] != buffer[i] {
            proof {
                assert(buffer@.subrange(0, prefix@.len() as int)[i as int] == buffer@[i as int]);
            }
            return false;
        }
        i = i + 1;
    }
    proof {
        assert(buffer@.subrange(0, prefix@.len() as int) =~= prefix@);
    }
    true
}

/// The first registered prefix the received buffer opens with, if any.
pub fn first_prefix_match(buffer: &[u8], prefixes: &Vec<Vec<u8>>) -> (r: Option<usize>)
    ensures
        ({
            let ps = prefixes@.map_values(|p: Vec<u8>| p@);
            match r {
                Some(i) => spec_first_prefix_match(buffer@, ps) == Some(i as int) && i
                    < prefixes@.len(),
                None => spec_first_prefix_match(buffer@, ps) is None,
            }
        }),
{
    let ghost ps = prefixes@.map_values(|p: Vec<u8>| p@);
    let mut i: usize = 0;
    while i < prefixes.len()
        invariant
            i <= prefixes@.len(),
            ps == prefixes@.map_values(|p: Vec<u8>| p@),
            forall|j: int| 0 <= j < i ==> !spec_is_prefix(#[trigger] ps[j], buffer@),
        decreases prefixes@.len() - i,
    {
        if is_prefix(prefixes[i].as_slice(), buffer) {
            proof {
                lemma_first_prefix_shift(buffer@, ps, i as int);
                assert(ps.skip(i as int)[0] == ps[i as int]);
                assert(spec_is_prefix(ps.skip(i as int)[0], buffer@));
            }
            return Some(i);
        }
        i = i + 1;
    }
    proof {
        lemma_first_prefix_shift(buffer@, ps, ps.len() as int);
        assert(ps.skip(ps.len() as int).len() == 0);
    }
    None
}

/// Extension methods appending OpenRGB wire fields to a byte buffer.
pub trait BufferExt {
    /// The buffer's bytes.
    spec fn bytes(&self) -> Seq<u8>;

    /// Appends a length-prefixed, nul-terminated string field.
    fn extend_from_str(&mut self, s: &str)
        ensures
            final(self).bytes() =~= old(self).bytes() + str_field(s.spec_bytes()),
    ;

    /// Appends a colour as red, green, blue and a zero pad byte.
    fn extend_from_color(&mut self, color: (u8, u8, u8))
        ensures
            final(self).bytes() =~= old(self).bytes() + color_field(color),
    ;

    /// Appends each value as four little-endian bytes.
    fn extend_from_u32s(&mut self, values: &[u32])
        ensures
            final(self).bytes() =~= old(self).bytes() + u32s_le(values@),
    ;
}

impl BufferExt for Vec<u8> {
    open spec fn bytes(&self) -> Seq<u8> {
        self@
    }

    fn extend_from_str(&mut self, s: &str) {
        let b = s.as_bytes();
        push_str_field(self, b);
    }

    fn extend_from_color(&mut self, color: (u8, u8, u8)) {
        self.push(color.0);
        self.push(color.1);
        self.push(color.2);
        self.push(0);
        proof {
            assert(final(self)@ =~= old(self)@ + color_field(color));
        }
    }

    fn extend_from_u32s(&mut self, values: &[u32]) {
        let mut i: usize = 0;
        while i < values.len()
            invariant
                i <= values@.len(),
                self@ =~= old(self)@ + u32s_le(values@.subrange(0, i as int)),
            decreases values@.len() - i,
        {
            push_u32_le(self, values[i]);
            proof {
                assert(values@.subrange(0, i + 1) =~= values@.subrange(0, i as int).push(
                    values@[i as int],
                ));
                lemma_u32s_le_push(values@.subrange(0, i as int), values@[i as int]);
            }
            i = i + 1;
        }
        proof {
            assert(values@.subrange(0, values@.len() as int) =~= values@);
        }
    }
}

} // verus!
