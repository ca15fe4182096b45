//! A small framing for values on a byte stream: numbers are eight bytes in
//! network order, and a list is its length and then its items.

use vstd::prelude::*;
use vstd::slice::slice_subrange;
use byteorder::{NetworkEndian, ReadBytesExt, WriteBytesExt};
use vstd::utf8::encode_utf8;
use crate::wire::{Cause, Error, ErrorKind};

verus! {

/// The eight bytes of `v`, the most significant first.
pub open spec fn be_bytes(v: u64) -> Seq<u8> {
    seq![
        (v >> 56) as u8,
        ((v >> 48) & 0xff) as u8,
        ((v >> 40) & 0xff) as u8,
        ((v >> 32) & 0xff) as u8,
        ((v >> 24) & 0xff) as u8,
        ((v >> 16) & 0xff) as u8,
        ((v >> 8) & 0xff) as u8,
        (v & 0xff) as u8,
    ]
}

/// The number that eight bytes stand for, the most significant first.
pub open spec fn be_value(s: Seq<u8>) -> u64 {
    (s[0] as u64) << 56 | (s[1] as u64) << 48 | (s[2] as u64) << 40 | (s[3] as u64) << 32 | (
    s[4] as u64) << 24 | (s[5] as u64) << 16 | (s[6] as u64) << 8 | (s[7] as u64)
}

/// Reading back the bytes of a number gives the number.
pub proof fn lemma_be_round_trip(v: u64)
    ensures
        be_bytes(v).len() == 8,
        be_value(be_bytes(v)) == v,
{
    assert(((v >> 56) as u8 as u64) << 56 | (((v >> 48) & 0xff) as u8 as u64) << 48 | (((v >> 40)
        & 0xff) as u8 as u64) << 40 | (((v >> 32) & 0xff) as u8 as u64) << 32 | (((v >> 24) & 0xff) as u8 as u64)
        << 24 | (((v >> 16) & 0xff) as u8 as u64) << 16 | (((v >> 8) & 0xff) as u8 as u64) << 8 | ((v
        & 0xff) as u8 as u64) == v) by (bit_vector);
}

/// The error of a stream that ends inside a value.
pub open spec fn spec_end_of_input() -> Error {
    Error { kind: ErrorKind::UnexpectedEof, cause: Cause::UnexpectedEnd }
}

/// The error of a stream that ends inside a value.
#[verifier::when_used_as_spec(spec_end_of_input)]
pub fn end_of_input() -> (e: Error)
    ensures
        e == spec_end_of_input(),
{
    Error { kind: ErrorKind::UnexpectedEof, cause: Cause::UnexpectedEnd }
}

/// `byteorder::WriteBytesExt::write_u64::<NetworkEndian>` on a vector of
/// bytes: it appends the eight bytes of `v`, the most significant first.
/// Writing to a vector does not fail.
#[verifier::external_body]
fn write_u64_be(w: &mut Vec<u8>, v: u64)
    ensures
        final(w)@ == old(w)@ + be_bytes(v),
{
    let _ = w.write_u64::<NetworkEndian>(v);
}

/// `byteorder::ReadBytesExt::read_u64::<NetworkEndian>` on a slice of bytes:
/// the number that the first eight bytes stand for, the most significant
/// first; nothing where the slice has fewer than eight bytes.
#[verifier::external_body]
fn read_u64_be(bytes: &[u8]) -> (v: Option<u64>)
    ensures
        v == (if bytes@.len() >= 8 {
            Some(be_value(bytes@.subrange(0, 8)))
        } else {
            None
        }),
{
    let mut rest = bytes;
    rest.read_u64::<NetworkEndian>().ok()
}

/// The text that `String::from_utf8_lossy` makes of `bytes`: the text that
/// the bytes encode, with a replacement character for each part that is no
/// valid UTF-8.
pub uninterp spec fn lossy_utf8(bytes: Seq<u8>) -> Seq<char>;

/// `String::from_utf8_lossy`, made an owned string: the text of `bytes`.
#[verifier::external_body]
fn string_from_utf8_lossy(bytes: &[u8]) -> (s: String)
    ensures
        s@ == lossy_utf8(bytes@),
{
    String::from_utf8_lossy(bytes).into_owned()
}

/// Bytes that are read from front to back.
pub struct Reader {
    pub bytes: Vec<u8>,
    /// How many bytes have been read.
    pub pos: usize,
}

impl Reader {
    /// No more bytes are read than there are.
    pub open spec fn wf(&self) -> bool {
        self.pos <= self.bytes@.len()
    }

    /// The bytes that have not been read.
    pub open spec fn rest(&self) -> Seq<u8> {
        self.bytes@.subrange(self.pos as int, self.bytes@.len() as int)
    }

    /// A reader at the start of `bytes`.
    pub fn new(bytes: Vec<u8>) -> (r: Reader)
        ensures
            r.wf(),
            r.pos == 0,
            r.bytes == bytes,
    {
        Reader { bytes, pos: 0 }
    }
}

/// A value that can be written to a byte stream and read back.
pub trait Serv: Sized + DeepView {
    /// The bytes that stand for `v`.
    spec fn wire(v: Self::V) -> Seq<u8>;

    /// The value at the start of `input` and the number of bytes it takes;
    /// nothing where `input` ends before the value does.
    spec fn parse(input: Seq<u8>) -> Option<(Self::V, nat)>;

    /// Appends the bytes of `self` to `w`.
    fn send(&self, w: &mut Vec<u8>) -> (r: Result<(), Error>)
        ensures
            r.is_ok(),
            final(w)@ == old(w)@ + Self::wire(self.deep_view()),
    ;

    /// Reads one value from `r`. Where the bytes end before the value does,
    /// it fails, and how far `r` has read is then left open.
    fn receive(r: &mut Reader) -> (got: Result<Self, Error>)
        requires
            old(r).wf(),
        ensures
            final(r).wf(),
            final(r).bytes@ == old(r).bytes@,
            final(r).pos >= old(r).pos,
            match Self::parse(old(r).rest()) {
                Some((v, n)) => got.is_ok() && got.unwrap().deep_view() == v && final(r).pos == old(
                    r,
                ).pos + n,
                None => got == Err::<Self, Error>(spec_end_of_input()),
            },
    ;
}

impl Serv for u64 {
    open spec fn wire(v: u64) -> Seq<u8> {
        be_bytes(v)
    }

    open spec fn parse(input: Seq<u8>) -> Option<(u64, nat)> {
        if input.len() >= 8 {
            Some((be_value(input.subrange(0, 8)), 8nat))
        } else {
            None
        }
    }

    fn send(&self, w: &mut Vec<u8>) -> (r: Result<(), Error>) {
        write_u64_be(w, *self);
        Ok(())
    }

    fn receive(r: &mut Reader) -> (got: Result<u64, Error>) {
        let rest = slice_subrange(r.bytes.as_slice(), r.pos, r.bytes.len());
        match read_u64_be(rest) {
            Some(v) => {
                r.pos = r.pos + 8;
                Ok(v)
            },
            None => Err(end_of_input()),
        }
    }
}

impl Serv for usize {
    open spec fn wire(v: usize) -> Seq<u8> {
        be_bytes(v as u64)
    }

    /// A number that is too large for the machine's word loses its high
    /// bits.
    open spec fn parse(input: Seq<u8>) -> Option<(usize, nat)> {
        if input.len() >= 8 {
            Some((be_value(input.subrange(0, 8)) as usize, 8nat))
        } else {
            None
        }
    }

    fn send(&self, w: &mut Vec<u8>) -> (r: Result<(), Error>) {
        write_u64_be(w, *self as u64);
        Ok(())
    }

    fn receive(r: &mut Reader) -> (got: Result<usize, Error>) {
        match u64::receive(r) {
            Ok(v) => Ok(#[verifier::truncate] (v as usize)),
            Err(e) => Err(e),
        }
    }
}

impl Serv for String {
    open spec fn wire(v: Seq<char>) -> Seq<u8> {
        be_bytes(encode_utf8(v).len() as usize as u64) + encode_utf8(v)
    }

    /// The text is read leniently: see `lossy_utf8`.
    open spec fn parse(input: Seq<u8>) -> Option<(Seq<char>, nat)> {
        match usize::parse(input) {
            Some((n, _)) => if input.len() - 8 >= n {
                Some((lossy_utf8(input.subrange(8, 8 + n)), (8 + n) as nat))
            } else {
                None
            },
            None => None,
        }
    }

    fn send(&self, w: &mut Vec<u8>) -> (r: Result<(), Error>) {
        let bytes = self.as_str().as_bytes();
        write_u64_be(w, bytes.len() as u64);
        let mut copy = vstd::slice::slice_to_vec(bytes);
        w.append(&mut copy);
        Ok(())
    }

    fn receive(r: &mut Reader) -> (got: Result<String, Error>) {
        let len = match usize::receive(r) {
            Ok(n) => n,
            Err(e) => {
                return Err(e);
            },
        };
        if r.bytes.len() - r.pos < len {
            return Err(end_of_input());
        }
        let text = string_from_utf8_lossy(slice_subrange(r.bytes.as_slice(), r.pos, r.pos + len));
        proof {
            assert(old(r).rest().subrange(8, 8 + len) =~= r.bytes@.subrange(
                r.pos as int,
                r.pos + len,
            ));
        }
        r.pos = r.pos + len;
        Ok(text)
    }
}

/// The bytes of the items of a list, one after the other.
pub open spec fn items_wire<T: Serv>(items: Seq<T::V>) -> Seq<u8>
    decreases items.len(),
{
    if items.len() == 0 {
        Seq::empty()
    } else {
        items_wire::<T>(items.drop_last()) + T::wire(items.last())
    }
}

/// The first `n` items at the start of `input` and the number of bytes they
/// take; nothing where `input` ends before the last of them does.
pub open spec fn parse_items<T: Serv>(input: Seq<u8>, n: nat) -> Option<(Seq<T::V>, nat)>
    decreases n,
{
    if n == 0 {
        Some((Seq::empty(), 0nat))
    } else {
        match parse_items::<T>(input, (n - 1) as nat) {
            Some((items, taken)) => {
                if taken <= input.len() {
                    match T::parse(input.subrange(taken as int, input.len() as int)) {
                        Some((v, k)) => Some((items.push(v), taken + k)),
                        None => None,
                    }
                } else {
                    None
                }
            },
            None => None,
        }
    }
}

/// Where the first `n` items cannot be read, no more can.
pub proof fn lemma_parse_items_stops<T: Serv>(input: Seq<u8>, n: nat, m: nat)
    requires
        parse_items::<T>(input, n).is_none(),
        n <= m,
    ensures
        parse_items::<T>(input, m).is_none(),
    decreases m,
{
    if n < m {
        lemma_parse_items_stops::<T>(input, n, (m - 1) as nat);
    }
}

impl<T: Serv> Serv for Vec<T> {
    open spec fn wire(v: Seq<T::V>) -> Seq<u8> {
        be_bytes(v.len() as usize as u64) + items_wire::<T>(v)
    }

    open spec fn parse(input: Seq<u8>) -> Option<(Seq<T::V>, nat)> {
        match usize::parse(input) {
            Some((n, _)) => match parse_items::<T>(input.subrange(8, input.len() as int), n as nat) {
                Some((items, taken)) => Some((items, 8 + taken)),
                None => None,
            },
            None => None,
        }
    }

    fn send(&self, w: &mut Vec<u8>) -> (r: Result<(), Error>) {
        write_u64_be(w, self.len() as u64);
        let ghost base = w@;
        let ghost items = self.deep_view();
        let mut i: usize = 0;
        assert(base + items_wire::<T>(items.subrange(0, 0)) =~= base);
        while i < self.len()
            invariant
                i <= self@.len(),
                items == self.deep_view(),
                w@ == base + items_wire::<T>(items.subrange(0, i as int)),
            decreases self@.len() - i,
        {
            proof {
                assert(items.subrange(0, i + 1).drop_last() =~= items.subrange(0, i as int));
                assert(items.subrange(0, i + 1).last() == self@[i as int].deep_view());
            }
            let _ = self[i].send(w);
            assert(w@ =~= base + items_wire::<T>(items.subrange(0, i + 1)));
            i += 1;
        }
        assert(items.subrange(0, i as int) =~= items);
        Ok(())
    }

    fn receive(r: &mut Reader) -> (got: Result<Vec<T>, Error>) {
        let ghost start = r.rest();
        let len = match usize::receive(r) {
            Ok(n) => n,
            Err(e) => {
                return Err(e);
            },
        };
        let ghost body = start.subrange(8, start.len() as int);
        let ghost first = r.pos;
        let mut v: Vec<T> = Vec::new();
        let mut i: usize = 0;
        proof {
            assert(v.deep_view() =~= Seq::<T::V>::empty());
            assert(r.rest() =~= body);
        }
        while i < len
            invariant
                i <= len,
                r.wf(),
                r.bytes@ == old(r).bytes@,
                first == old(r).pos + 8,
                first <= r.pos,
                usize::parse(old(r).rest()) == Some((len, 8nat)),
                body == old(r).rest().subrange(8, old(r).rest().len() as int),
                parse_items::<T>(body, i as nat) == Some((v.deep_view(), (r.pos - first) as nat)),
            decreases len - i,
        {
            proof {
                assert(r.rest() =~= body.subrange(r.pos - first, body.len() as int));
            }
            let ghost done = v.deep_view();
            let ghost taken = (r.pos - first) as nat;
            let ghost ahead = r.rest();
            match T::receive(r) {
                Ok(item) => {
                    let ghost one = item.deep_view();
                    v.push(item);
                    assert(v.deep_view() =~= done.push(one));
                },
                Err(e) => {
                    proof {
                        assert(T::parse(ahead).is_none());
                        assert(ahead == body.subrange(taken as int, body.len() as int));
                        assert(parse_items::<T>(body, ((i + 1) - 1) as nat) == Some((done, taken)));
                        assert(parse_items::<T>(body, (i + 1) as nat).is_none());
                        lemma_parse_items_stops::<T>(body, (i + 1) as nat, len as nat);
                    }
                    return Err(e);
                },
            }
            i += 1;
        }
        Ok(v)
    }
}

} // verus!
