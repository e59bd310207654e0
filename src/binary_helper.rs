use vstd::prelude::*;
use byteorder::ByteOrder;

verus! {

/// The integer that the first `n` bytes of `b` hold, least significant byte first.
pub open spec fn le_value(b: Seq<u8>, n: nat) -> int
    decreases n,
{
    if n == 0 || b.len() == 0 {
        0
    } else {
        b[0] as int + 256 * le_value(b.drop_first(), (n - 1) as nat)
    }
}

/// Relies on byteorder's `LittleEndian::read_u16`: the first two bytes, least significant first.
#[verifier::external_body]
fn le_u16(b: &Vec<u8>) -> (r: u16)
    requires
        b@.len() >= 2,
    ensures
        r as int == le_value(b@, 2),
{
    byteorder::LittleEndian::read_u16(b.as_slice())
}

/// Relies on byteorder's `LittleEndian::read_u32`: the first four bytes, least significant first.
#[verifier::external_body]
fn le_u32(b: &Vec<u8>) -> (r: u32)
    requires
        b@.len() >= 4,
    ensures
        r as int == le_value(b@, 4),
{
    byteorder::LittleEndian::read_u32(b.as_slice())
}

/// Relies on byteorder's `LittleEndian::read_u64`: the first eight bytes, least significant first.
#[verifier::external_body]
fn le_u64(b: &Vec<u8>) -> (r: u64)
    requires
        b@.len() >= 8,
    ensures
        r as int == le_value(b@, 8),
{
    byteorder::LittleEndian::read_u64(b.as_slice())
}

/// What the UTF-8 bytes `b` decode to.
pub uninterp spec fn utf8_text(b: Seq<u8>) -> Seq<char>;

/// Relies on `String::from_utf8`: the text that valid UTF-8 bytes encode, and nothing
/// for invalid ones; ASCII bytes are valid UTF-8 and encode their own characters.
#[verifier::external_body]
fn decode_utf8(b: Vec<u8>) -> (r: Option<String>)
    ensures
        r.is_some() ==> r.unwrap()@ == utf8_text(b@),
        (forall|i: int| 0 <= i < b@.len() ==> #[trigger] b@[i] < 128) ==> r.is_some() && r.unwrap()@
            == b@.map_values(|x: u8| x as char),
{
    String::from_utf8(b).ok()
}

/// Asked for more bytes than are left.
#[derive(Clone, Copy, Debug, PartialEq, Eq, Structural)]
pub struct UnexpectedEof {
    pub bytes: usize,
    pub pos: usize,
}

/// A cursor over a byte buffer.
#[derive(Clone, Debug)]
pub struct BinaryHelper {
    pub data: Vec<u8>,
    pub pos: usize,
    pub length: usize,
}

impl BinaryHelper {
    fn initialize() -> (r: BinaryHelper)
        ensures
            r.data@.len() == 0,
            r.pos == 0,
            r.length == 0,
    {
        BinaryHelper { data: Vec::new(), pos: 0, length: 0 }
    }

    pub fn from_u8(get: &[u8]) -> (r: BinaryHelper)
        ensures
            r.data@ == get@,
            r.pos == 0,
            r.length == get@.len(),
    {
        let mut a = Self::initialize();
        let mut i: usize = 0;
        while i < get.len()
            invariant
                i <= get@.len(),
                a.data@ == get@.take(i as int),
                a.pos == 0,
            decreases get@.len() - i,
        {
            a.data.push(get[i]);
            i = i + 1;
            assert(a.data@ =~= get@.take(i as int));
        }
        assert(get@.take(i as int) =~= get@);
        a.length = get.len();
        a
    }

    pub fn remaining_length(&self) -> (r: usize)
        requires
            self.pos <= self.length,
        ensures
            r == self.length - self.pos,
    {
        self.length - self.pos
    }

    pub fn adv(&mut self, size: usize)
        requires
            old(self).pos + size <= usize::MAX,
        ensures
            final(self).pos == old(self).pos + size,
            final(self).data == old(self).data,
            final(self).length == old(self).length,
    {
        self.pos = self.pos + size;
    }

    /// The next `size` bytes, if there are as many; the cursor moves on either way.
    pub fn read(&mut self, size: usize) -> (r: Option<Vec<u8>>)
        requires
            old(self).pos + size <= usize::MAX,
        ensures
            final(self).pos == old(self).pos + size,
            final(self).data == old(self).data,
            final(self).length == old(self).length,
            r.is_some() <==> old(self).pos + size <= old(self).data@.len(),
            r.is_some() ==> r.unwrap()@ == old(self).data@.subrange(
                old(self).pos as int,
                old(self).pos + size,
            ),
    {
        let r = if size <= self.data.len() && self.pos <= self.data.len() - size {
            Some(self.copy_range(self.pos, size))
        } else {
            None
        };
        self.pos = self.pos + size;
        r
    }

    fn copy_range(&self, start: usize, size: usize) -> (r: Vec<u8>)
        requires
            start + size <= self.data@.len(),
        ensures
            r@ == self.data@.subrange(start as int, start + size),
    {
        let mut out: Vec<u8> = Vec::new();
        let total = self.data.len();
        let mut k: usize = 0;
        while k < size
            invariant
                k <= size,
                total == self.data@.len(),
                start + size <= self.data@.len(),
                out@ == self.data@.subrange(start as int, start + k),
            decreases size - k,
        {
            out.push(self.data[start + k]);
            k = k + 1;
            assert(out@ =~= self.data@.subrange(start as int, start + k));
        }
        out
    }

    /// The next `bytes` bytes, moving the cursor past them; an error, with the cursor
    /// left where it was, if fewer are left.
    pub fn read_bytes(&mut self, bytes: usize) -> (r: Result<Vec<u8>, UnexpectedEof>)
        ensures
            final(self).data == old(self).data,
            final(self).length == old(self).length,
            r.is_ok() <==> old(self).pos + bytes <= old(self).data@.len(),
            r.is_ok() ==> r.unwrap()@ == old(self).data@.subrange(
                old(self).pos as int,
                old(self).pos + bytes,
            ) && final(self).pos == old(self).pos + bytes,
            r.is_err() ==> final(self).pos == old(self).pos && r.unwrap_err() == (UnexpectedEof {
                bytes,
                pos: old(self).pos,
            }),
    {
        if bytes <= self.data.len() && self.pos <= self.data.len() - bytes {
            let out = self.copy_range(self.pos, bytes);
            self.pos = self.pos + bytes;
            Ok(out)
        } else {
            Err(UnexpectedEof { bytes, pos: self.pos })
        }
    }

    /// A length written in one byte below 128; a longer encoding, or no byte left, gives
    /// nothing. The cursor moves past the byte read.
    pub fn read_7bit_encoded_int(&mut self) -> (r: Option<u8>)
        ensures
            final(self).data == old(self).data,
            final(self).length == old(self).length,
            old(self).pos < old(self).data@.len() ==> final(self).pos == old(self).pos + 1 && r == if old(
                self,
            ).data@[old(self).pos as int] < 128 {
                Some(old(self).data@[old(self).pos as int])
            } else {
                None::<u8>
            },
            old(self).pos >= old(self).data@.len() ==> r.is_none() && final(self).pos == old(self).pos,
    {
        if self.pos >= self.data.len() {
            return None;
        }
        let b = self.data[self.pos];
        self.pos = self.pos + 1;
        if b < 128 {
            Some(b)
        } else {
            None
        }
    }

    /// A string written as its byte length and its UTF-8 bytes.
    pub fn read_string(&mut self) -> (r: Option<String>)
        ensures
            final(self).data == old(self).data,
            final(self).length == old(self).length,
            r.is_some() ==> old(self).pos < old(self).data@.len() && {
                let n = old(self).data@[old(self).pos as int];
                &&& n < 128
                &&& old(self).pos + 1 + n <= old(self).data@.len()
                &&& r.unwrap()@ == utf8_text(
                    old(self).data@.subrange(old(self).pos + 1, old(self).pos + 1 + n),
                )
                &&& final(self).pos == old(self).pos + 1 + n
            },
            ({
                let p = old(self).pos as int;
                &&& p < old(self).data@.len()
                &&& old(self).data@[p] < 128
                &&& p + 1 + old(self).data@[p] <= old(self).data@.len()
                &&& forall|i: int|
                    p + 1 <= i < p + 1 + old(self).data@[p] ==> #[trigger] old(self).data@[i] < 128
            }) ==> r.is_some() && r.unwrap()@ == old(self).data@.subrange(
                old(self).pos + 1,
                old(self).pos + 1 + old(self).data@[old(self).pos as int],
            ).map_values(|x: u8| x as char),
    {
        let length = match self.read_7bit_encoded_int() {
            Some(n) => n,
            None => {
                return None;
            },
        };
        match self.read_bytes(length as usize) {
            Ok(bytes) => {
                let ghost b = bytes@;
                assert forall|i: int| 0 <= i < b.len() && (forall|k: int| old(self).pos + 1 <= k < old(self).pos + 1 + length ==> old(self).data@[k] < 128) implies #[trigger] b[i] < 128 by {
                    assert(b[i] == old(self).data@[old(self).pos + 1 + i]);
                }
                decode_utf8(bytes)
            },
            Err(_) => None,
        }
    }

    pub fn read_u8(&mut self) -> (r: Result<u8, UnexpectedEof>)
        ensures
            final(self).data == old(self).data,
            final(self).length == old(self).length,
            r.is_ok() <==> old(self).pos + 1 <= old(self).data@.len(),
            r.is_ok() ==> r.unwrap() == old(self).data@[old(self).pos as int] && final(self).pos
                == old(self).pos + 1,
            r.is_err() ==> final(self).pos == old(self).pos,
    {
        let b = self.read_bytes(1)?;
        Ok(b[0])
    }

    pub fn read_u16(&mut self) -> (r: Result<u16, UnexpectedEof>)
        ensures
            final(self).data == old(self).data,
            final(self).length == old(self).length,
            r.is_ok() <==> old(self).pos + 2 <= old(self).data@.len(),
            r.is_ok() ==> r.unwrap() as int == le_value(old(self).data@.subrange(old(self).pos as int, old(self).pos + 2), 2)
                && final(self).pos == old(self).pos + 2,
            r.is_err() ==> final(self).pos == old(self).pos,
    {
        let b = self.read_bytes(2)?;
        Ok(le_u16(&b))
    }

    pub fn read_u32(&mut self) -> (r: Result<u32, UnexpectedEof>)
        ensures
            final(self).data == old(self).data,
            final(self).length == old(self).length,
            r.is_ok() <==> old(self).pos + 4 <= old(self).data@.len(),
            r.is_ok() ==> r.unwrap() as int == le_value(old(self).data@.subrange(old(self).pos as int, old(self).pos + 4), 4)
                && final(self).pos == old(self).pos + 4,
            r.is_err() ==> final(self).pos == old(self).pos,
    {
        let b = self.read_bytes(4)?;
        Ok(le_u32(&b))
    }

    pub fn read_u64(&mut self) -> (r: Result<u64, UnexpectedEof>)
        ensures
            final(self).data == old(self).data,
            final(self).length == old(self).length,
            r.is_ok() <==> old(self).pos + 8 <= old(self).data@.len(),
            r.is_ok() ==> r.unwrap() as int == le_value(old(self).data@.subrange(old(self).pos as int, old(self).pos + 8), 8)
                && final(self).pos == old(self).pos + 8,
            r.is_err() ==> final(self).pos == old(self).pos,
    {
        let b = self.read_bytes(8)?;
        Ok(le_u64(&b))
    }
}

} // verus!
