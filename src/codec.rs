//! On-disk format: little-endian integers, the record checksum, records and
//! the file header.
use vstd::prelude::*;
use vstd::utf8::*;
use vstd::string::*;

use crate::text::{bytes_eq, push_range, string_from_utf8};

verus! {

/// Modulus of the record checksum (the largest prime below 2^16).
pub const CHECKSUM_MOD: u32 = 65521;

/// Bytes of a record before its key: tombstone flag, key length, value length.
pub const RECORD_PREFIX: usize = 9;

/// Bytes of a record besides its key and value: the prefix and the checksum.
pub const RECORD_OVERHEAD: usize = 13;

/// Four bytes of `n`, least significant first.
pub open spec fn le32(n: u32) -> Seq<u8> {
    seq![
        (n & 0xff) as u8,
        ((n >> 8u32) & 0xff) as u8,
        ((n >> 16u32) & 0xff) as u8,
        ((n >> 24u32) & 0xff) as u8,
    ]
}

/// The little-endian `u32` stored at `b[p..p + 4]`.
pub open spec fn le32_at(b: Seq<u8>, p: int) -> u32 {
    (b[p] as u32) | ((b[p + 1] as u32) << 8u32) | ((b[p + 2] as u32) << 16u32) | ((b[p + 3]
        as u32) << 24u32)
}

pub proof fn lemma_le32_round_trip(n: u32)
    ensures
        le32(n).len() == 4,
        le32_at(le32(n), 0) == n,
{
    let b = le32(n);
    let b0 = (n & 0xff) as u8;
    let b1 = ((n >> 8u32) & 0xff) as u8;
    let b2 = ((n >> 16u32) & 0xff) as u8;
    let b3 = ((n >> 24u32) & 0xff) as u8;
    assert(b[0] == b0 && b[1] == b1 && b[2] == b2 && b[3] == b3);
    assert((b0 as u32) | ((b1 as u32) << 8u32) | ((b2 as u32) << 16u32) | ((b3 as u32) << 24u32)
        == n) by (bit_vector)
        requires
            b0 == (n & 0xff) as u8,
            b1 == ((n >> 8u32) & 0xff) as u8,
            b2 == ((n >> 16u32) & 0xff) as u8,
            b3 == ((n >> 24u32) & 0xff) as u8,
    ;
}

/// First running sum of the checksum.
pub open spec fn sum_a(s: Seq<u8>) -> int
    decreases s.len(),
{
    if s.len() == 0 {
        1
    } else {
        (sum_a(s.drop_last()) + s.last()) % (CHECKSUM_MOD as int)
    }
}

/// Second running sum of the checksum: the sums of the first, taken again.
pub open spec fn sum_b(s: Seq<u8>) -> int
    decreases s.len(),
{
    if s.len() == 0 {
        0
    } else {
        (sum_b(s.drop_last()) + sum_a(s)) % (CHECKSUM_MOD as int)
    }
}

/// The checksum of a byte sequence (Adler-32): the second sum in the high
/// half, the first in the low half.
pub open spec fn checksum(s: Seq<u8>) -> u32 {
    (sum_b(s) * 65536 + sum_a(s)) as u32
}

pub proof fn lemma_sums_bounded(s: Seq<u8>)
    ensures
        0 <= sum_a(s) < CHECKSUM_MOD,
        0 <= sum_b(s) < CHECKSUM_MOD,
    decreases s.len(),
{
    if s.len() > 0 {
        lemma_sums_bounded(s.drop_last());
    }
}

pub fn push_le32(out: &mut Vec<u8>, n: u32)
    ensures
        final(out)@ == old(out)@ + le32(n),
{
    out.push((n & 0xff) as u8);
    out.push(((n >> 8u32) & 0xff) as u8);
    out.push(((n >> 16u32) & 0xff) as u8);
    out.push(((n >> 24u32) & 0xff) as u8);
    assert(out@ =~= old(out)@ + le32(n));
}

pub fn read_le32(b: &[u8], p: usize) -> (r: u32)
    requires
        p + 4 <= b@.len(),
    ensures
        r == le32_at(b@, p as int),
{
    (b[p] as u32) | ((b[p + 1] as u32) << 8u32) | ((b[p + 2] as u32) << 16u32) | ((b[p + 3]
        as u32) << 24u32)
}

/// The checksum of `b[from..to]`.
pub fn checksum_of(b: &[u8], from: usize, to: usize) -> (r: u32)
    requires
        from <= to <= b@.len(),
    ensures
        r == checksum(b@.subrange(from as int, to as int)),
{
    let mut a: u32 = 1;
    let mut c: u32 = 0;
    let mut i: usize = from;
    while i < to
        invariant
            from <= i <= to <= b@.len(),
            a == sum_a(b@.subrange(from as int, i as int)),
            c == sum_b(b@.subrange(from as int, i as int)),
            a < CHECKSUM_MOD,
            c < CHECKSUM_MOD,
        decreases to - i,
    {
        let ghost s = b@.subrange(from as int, i + 1);
        assert(s.drop_last() =~= b@.subrange(from as int, i as int));
        assert(s.last() == b@[i as int]);
        a = (a + b[i] as u32) % CHECKSUM_MOD;
        c = (c + a) % CHECKSUM_MOD;
        i = i + 1;
    }
    c * 65536 + a
}


/// A record's fields in the order they are stored, without the checksum.
pub open spec fn record_body(tombstone: bool, key: Seq<u8>, value: Seq<u8>) -> Seq<u8> {
    seq![if tombstone { 1u8 } else { 0u8 }] + le32(key.len() as u32) + le32(value.len() as u32)
        + key + value
}

/// A whole record: its body followed by the checksum of that body.
pub open spec fn encode_record(tombstone: bool, key: Seq<u8>, value: Seq<u8>) -> Seq<u8> {
    record_body(tombstone, key, value) + le32(checksum(record_body(tombstone, key, value)))
}

/// The fields of a record the format can hold: a non-empty key, lengths
/// that fit the 4-byte fields, and no value on a tombstone.
pub open spec fn record_fits(tombstone: bool, key: Seq<u8>, value: Seq<u8>) -> bool {
    &&& 0 < key.len() <= u32::MAX
    &&& value.len() <= u32::MAX
    &&& tombstone ==> value.len() == 0
}

/// What the bytes at the start of a sequence hold.
pub enum Decoded {
    /// No bytes at all.
    End,
    /// Fewer bytes than the record they begin announces: an interrupted append.
    Fragment,
    /// A complete record whose flag, key length or checksum is wrong.
    Corrupt,
    /// A valid record of `size` bytes.
    Record { tombstone: bool, key: Seq<u8>, value: Seq<u8>, size: nat },
}

/// Decodes the record at the start of `s`.
#[verifier::opaque]
pub open spec fn decode_record(s: Seq<u8>) -> Decoded {
    if s.len() == 0 {
        Decoded::End
    } else if s.len() < RECORD_PREFIX {
        Decoded::Fragment
    } else {
        let kl = le32_at(s, 1) as int;
        let vl = le32_at(s, 5) as int;
        let body = RECORD_PREFIX + kl + vl;
        if s.len() < body + 4 {
            Decoded::Fragment
        } else if (s[0] == 0 || s[0] == 1) && kl > 0 && (s[0] == 1 ==> vl == 0) && le32_at(s, body)
            == checksum(s.subrange(0, body)) {
            Decoded::Record {
                tombstone: s[0] == 1,
                key: s.subrange(RECORD_PREFIX as int, RECORD_PREFIX + kl),
                value: s.subrange(RECORD_PREFIX + kl, body),
                size: (body + 4) as nat,
            }
        } else {
            Decoded::Corrupt
        }
    }
}

/// No bytes are the end of the log.
pub proof fn lemma_decode_empty(s: Seq<u8>)
    requires
        s.len() == 0,
    ensures
        decode_record(s) == Decoded::End,
{
    reveal(decode_record);
}

/// A decoded record has fields the format can hold and lies within the bytes.
pub proof fn lemma_record_fields(s: Seq<u8>)
    requires
        decode_record(s) is Record,
    ensures
        record_fits(decode_record(s)->tombstone, decode_record(s)->key, decode_record(s)->value),
        decode_record(s)->size == RECORD_OVERHEAD + decode_record(s)->key.len()
            + decode_record(s)->value.len(),
        decode_record(s)->size <= s.len(),
{
    reveal(decode_record);
}

/// Four stored bytes are the encoding of the integer they hold.
pub proof fn lemma_le32_of_bytes(b: Seq<u8>, p: int)
    requires
        0 <= p,
        p + 4 <= b.len(),
    ensures
        le32(le32_at(b, p)) == b.subrange(p, p + 4),
{
    let b0 = b[p];
    let b1 = b[p + 1];
    let b2 = b[p + 2];
    let b3 = b[p + 3];
    let n = le32_at(b, p);
    assert(n == (b0 as u32) | ((b1 as u32) << 8u32) | ((b2 as u32) << 16u32) | ((b3 as u32) << 24u32));
    assert((n & 0xff) as u8 == b0 && ((n >> 8u32) & 0xff) as u8 == b1 && ((n >> 16u32) & 0xff) as u8
        == b2 && ((n >> 24u32) & 0xff) as u8 == b3) by (bit_vector)
        requires
            n == (b0 as u32) | ((b1 as u32) << 8u32) | ((b2 as u32) << 16u32) | ((b3 as u32) << 24u32),
    ;
    assert(le32(n) =~= b.subrange(p, p + 4));
}

/// The bytes of a decoded record are the encoding of its fields.
pub proof fn lemma_record_bytes(s: Seq<u8>)
    requires
        decode_record(s) is Record,
    ensures
        s.subrange(0, decode_record(s)->size as int) == encode_record(
            decode_record(s)->tombstone,
            decode_record(s)->key,
            decode_record(s)->value,
        ),
{
    reveal(decode_record);
    let t = decode_record(s)->tombstone;
    let k = decode_record(s)->key;
    let v = decode_record(s)->value;
    let kl = le32_at(s, 1);
    let vl = le32_at(s, 5);
    let body = RECORD_PREFIX + kl + vl;
    lemma_le32_of_bytes(s, 1);
    lemma_le32_of_bytes(s, 5);
    lemma_le32_of_bytes(s, body);
    assert(k.len() as u32 == kl);
    assert(v.len() as u32 == vl);
    assert(record_body(t, k, v) =~= s.subrange(0, body));
    assert(s.subrange(0, body + 4) =~= s.subrange(0, body) + s.subrange(body, body + 4));
}

/// Decoding reads only the bytes of the record itself.
pub proof fn lemma_decode_local(s: Seq<u8>, t: Seq<u8>)
    requires
        decode_record(s) is Record,
        t.len() >= decode_record(s)->size,
        t.subrange(0, decode_record(s)->size as int) == s.subrange(
            0,
            decode_record(s)->size as int,
        ),
    ensures
        decode_record(t) == decode_record(s),
{
    reveal(decode_record);
    let n = decode_record(s)->size as int;
    let kl = le32_at(s, 1) as int;
    let vl = le32_at(s, 5) as int;
    let body = RECORD_PREFIX + kl + vl;
    assert forall|i: int| 0 <= i < n implies t[i] == s[i] by {
        assert(t.subrange(0, n)[i] == s.subrange(0, n)[i]);
    }
    assert(le32_at(t, 1) == le32_at(s, 1));
    assert(le32_at(t, 5) == le32_at(s, 5));
    assert(le32_at(t, body) == le32_at(s, body));
    assert(t.subrange(0, body) =~= s.subrange(0, body));
    assert(t.subrange(RECORD_PREFIX as int, RECORD_PREFIX + kl) =~= s.subrange(
        RECORD_PREFIX as int,
        RECORD_PREFIX + kl,
    ));
    assert(t.subrange(RECORD_PREFIX + kl, body) =~= s.subrange(RECORD_PREFIX + kl, body));
}

/// An encoded record decodes to its fields.
pub proof fn lemma_decode_encode(tombstone: bool, key: Seq<u8>, value: Seq<u8>)
    requires
        record_fits(tombstone, key, value),
    ensures
        encode_record(tombstone, key, value).len() == RECORD_OVERHEAD + key.len() + value.len(),
        decode_record(encode_record(tombstone, key, value)) == (Decoded::Record {
            tombstone,
            key,
            value,
            size: (RECORD_OVERHEAD + key.len() + value.len()) as nat,
        }),
{
    reveal(decode_record);
    let body = record_body(tombstone, key, value);
    let r = encode_record(tombstone, key, value);
    let kl = key.len() as u32;
    let vl = value.len() as u32;
    lemma_le32_round_trip(kl);
    lemma_le32_round_trip(vl);
    lemma_le32_round_trip(checksum(body));
    let b = body.len() as int;
    assert(b == RECORD_PREFIX + key.len() + value.len());
    assert(r.subrange(0, b) =~= body);
    assert(r.subrange(1, 5) =~= le32(kl));
    assert(r.subrange(5, 9) =~= le32(vl));
    assert(r.subrange(b, b + 4) =~= le32(checksum(body)));
    assert(le32_at(r, 1) == le32_at(le32(kl), 0));
    assert(le32_at(r, 5) == le32_at(le32(vl), 0));
    assert(le32_at(r, b) == le32_at(le32(checksum(body)), 0));
    assert(r.subrange(RECORD_PREFIX as int, RECORD_PREFIX + key.len()) =~= key);
    assert(r.subrange(RECORD_PREFIX + key.len(), b) =~= value);
}

/// A strict prefix of an encoded record is an interrupted append.
pub proof fn lemma_cut_record_is_fragment(
    tombstone: bool,
    key: Seq<u8>,
    value: Seq<u8>,
    cut: int,
)
    requires
        record_fits(tombstone, key, value),
        0 < cut < encode_record(tombstone, key, value).len(),
    ensures
        decode_record(encode_record(tombstone, key, value).subrange(0, cut)) == Decoded::Fragment,
{
    reveal(decode_record);
    let r = encode_record(tombstone, key, value);
    let s = r.subrange(0, cut);
    lemma_decode_encode(tombstone, key, value);
    if cut >= RECORD_PREFIX {
        assert(le32_at(s, 1) == le32_at(r, 1));
        assert(le32_at(s, 5) == le32_at(r, 5));
    }
}


/// Appends a whole record to `out`.
pub fn push_record(out: &mut Vec<u8>, tombstone: bool, key: &[u8], value: &[u8])
    requires
        record_fits(tombstone, key@, value@),
    ensures
        final(out)@ == old(out)@ + encode_record(tombstone, key@, value@),
{
    let start = out.len();
    out.push(if tombstone { 1u8 } else { 0u8 });
    push_le32(out, key.len() as u32);
    push_le32(out, value.len() as u32);
    push_range(out, key, 0, key.len());
    push_range(out, value, 0, value.len());
    let ghost body = record_body(tombstone, key@, value@);
    assert(key@.subrange(0, key@.len() as int) =~= key@);
    assert(value@.subrange(0, value@.len() as int) =~= value@);
    assert(out@ =~= old(out)@ + body);
    let end = out.len();
    let sum = checksum_of(out.as_slice(), start, end);
    assert(out@.subrange(start as int, end as int) =~= body);
    push_le32(out, sum);
    assert(out@ =~= old(out)@ + encode_record(tombstone, key@, value@));
}

/// What `scan_record` found, as positions relative to where it looked.
pub enum Scan {
    End,
    Fragment,
    Corrupt,
    Record { tombstone: bool, key_len: usize, value_len: usize },
}

/// `r` describes the decoding `d` of the bytes `s`.
pub open spec fn scan_agrees(r: Scan, d: Decoded, s: Seq<u8>) -> bool {
    match r {
        Scan::End => d is End,
        Scan::Fragment => d is Fragment,
        Scan::Corrupt => d is Corrupt,
        Scan::Record { tombstone, key_len, value_len } => d == Decoded::Record {
            tombstone,
            key: s.subrange(RECORD_PREFIX as int, RECORD_PREFIX + key_len),
            value: s.subrange(RECORD_PREFIX + key_len, RECORD_PREFIX + key_len + value_len),
            size: (RECORD_OVERHEAD + key_len + value_len) as nat,
        },
    }
}

/// Decodes the record that starts at `b[p]`.
pub fn scan_record(b: &[u8], p: usize) -> (r: Scan)
    requires
        p <= b@.len(),
    ensures
        scan_agrees(r, decode_record(b@.subrange(p as int, b@.len() as int)), b@.subrange(p as int, b@.len() as int)),
{
    reveal(decode_record);
    let ghost s = b@.subrange(p as int, b@.len() as int);
    let rest = b.len() - p;
    if rest == 0 {
        return Scan::End;
    }
    if rest < RECORD_PREFIX {
        return Scan::Fragment;
    }
    let kl = read_le32(b, p + 1);
    let vl = read_le32(b, p + 5);
    assert(le32_at(s, 1) == kl);
    assert(le32_at(s, 5) == vl);
    let body: u64 = RECORD_PREFIX as u64 + kl as u64 + vl as u64;
    if (rest as u64) < body + 4 {
        return Scan::Fragment;
    }
    let body = body as usize;
    let flag = b[p];
    if (flag == 0 || flag == 1) && kl > 0 && (flag == 0 || vl == 0) {
        let stored = read_le32(b, p + body);
        let sum = checksum_of(b, p, p + body);
        assert(le32_at(s, body as int) == stored);
        assert(s.subrange(0, body as int) =~= b@.subrange(p as int, p + body));
        if stored == sum {
            return Scan::Record { tombstone: flag == 1, key_len: kl as usize, value_len: vl as usize };
        }
    }
    Scan::Corrupt
}

/// Length of the file header.
pub const HEADER_LEN: usize = 70;

/// Longest identifier, in bytes.
pub const IDENTIFIER_MAX: usize = 64;

/// Version of the format this engine writes and reads.
pub const FORMAT_VERSION: u8 = 1;

/// Characters an identifier may hold: printable ASCII.
pub open spec fn identifier_char(c: char) -> bool {
    ' ' <= c <= '~'
}

/// An identifier: 1 to 64 printable ASCII characters.
pub open spec fn valid_identifier(id: Seq<char>) -> bool {
    &&& 0 < id.len() <= IDENTIFIER_MAX
    &&& forall|i: int| 0 <= i < id.len() ==> identifier_char(#[trigger] id[i])
}

/// The header: magic "WKVS", version, identifier length, identifier bytes,
/// zero padding up to `HEADER_LEN`.
pub open spec fn encode_header(id: Seq<char>) -> Seq<u8> {
    seq![0x57u8, 0x4bu8, 0x56u8, 0x53u8, FORMAT_VERSION, encode_utf8(id).len() as u8]
        + encode_utf8(id) + Seq::new(
        (IDENTIFIER_MAX - encode_utf8(id).len()) as nat,
        |i: int| 0u8,
    )
}

/// The identifier held by the header at the start of `b`, if it is one.
pub open spec fn decode_header(b: Seq<u8>) -> Option<Seq<char>> {
    if b.len() < HEADER_LEN || b[5] > IDENTIFIER_MAX {
        None
    } else {
        let idb = b.subrange(6, 6 + b[5]);
        if valid_utf8(idb) && valid_identifier(decode_utf8(idb)) && b.subrange(0, HEADER_LEN as int)
            == encode_header(decode_utf8(idb)) {
            Some(decode_utf8(idb))
        } else {
            None
        }
    }
}

pub proof fn lemma_identifier_bytes(id: Seq<char>)
    requires
        valid_identifier(id),
    ensures
        encode_utf8(id).len() == id.len(),
        encode_header(id).len() == HEADER_LEN,
{
    assert(is_ascii_chars(id));
    is_ascii_chars_encode_utf8(id);
}

/// A header followed by anything decodes to its identifier.
pub proof fn lemma_decode_encode_header(id: Seq<char>, rest: Seq<u8>)
    requires
        valid_identifier(id),
    ensures
        decode_header(encode_header(id) + rest) == Some(id),
{
    lemma_identifier_bytes(id);
    let b = encode_header(id) + rest;
    let idb = b.subrange(6, 6 + b[5]);
    assert(b[5] == id.len());
    assert(idb =~= encode_utf8(id));
    encode_utf8_valid_utf8(id);
    encode_utf8_decode_utf8(id);
    assert(b.subrange(0, HEADER_LEN as int) =~= encode_header(id));
}

/// Whether `id` is an acceptable identifier.
pub fn check_identifier(id: &str) -> (r: bool)
    ensures
        r == valid_identifier(id@),
{
    let n = id.unicode_len();
    if n == 0 || n > IDENTIFIER_MAX {
        return false;
    }
    let mut i: usize = 0;
    while i < n
        invariant
            n == id@.len(),
            i <= n,
            forall|j: int| 0 <= j < i ==> identifier_char(#[trigger] id@[j]),
        decreases n - i,
    {
        let c = id.get_char(i);
        if !(' ' <= c && c <= '~') {
            return false;
        }
        i = i + 1;
    }
    true
}

/// Appends the header that holds `id`.
pub fn push_header(out: &mut Vec<u8>, id: &str)
    requires
        valid_identifier(id@),
    ensures
        final(out)@ == old(out)@ + encode_header(id@),
{
    proof {
        lemma_identifier_bytes(id@);
    }
    let bytes = id.as_bytes();
    out.push(0x57u8);
    out.push(0x4bu8);
    out.push(0x56u8);
    out.push(0x53u8);
    out.push(FORMAT_VERSION);
    out.push(bytes.len() as u8);
    push_range(out, bytes, 0, bytes.len());
    assert(bytes@.subrange(0, bytes@.len() as int) =~= bytes@);
    let ghost mid = out@;
    let mut i: usize = bytes.len();
    while i < IDENTIFIER_MAX
        invariant
            bytes@.len() <= i <= IDENTIFIER_MAX,
            out@ == mid + Seq::new((i - bytes@.len()) as nat, |j: int| 0u8),
        decreases IDENTIFIER_MAX - i,
    {
        out.push(0u8);
        i = i + 1;
        assert(out@ =~= mid + Seq::new((i - bytes@.len()) as nat, |j: int| 0u8));
    }
    assert(out@ =~= old(out)@ + encode_header(id@));
}

/// Reads the header at the start of `b`: its identifier, or `None` where the
/// bytes are no header of this format.
pub fn read_header(b: &[u8]) -> (r: Option<String>)
    ensures
        r is Some <==> decode_header(b@) is Some,
        r is Some ==> r->0@ == decode_header(b@)->0,
{
    if b.len() < HEADER_LEN || b[5] as usize > IDENTIFIER_MAX {
        return None;
    }
    let n = b[5] as usize;
    let mut idb: Vec<u8> = Vec::new();
    push_range(&mut idb, b, 6, 6 + n);
    assert(idb@ =~= b@.subrange(6, 6 + n));
    let id = match string_from_utf8(idb) {
        Some(s) => s,
        None => return None,
    };
    if !check_identifier(id.as_str()) {
        return None;
    }
    let mut expected: Vec<u8> = Vec::new();
    push_header(&mut expected, id.as_str());
    proof {
        lemma_identifier_bytes(id@);
    }
    let mut head: Vec<u8> = Vec::new();
    push_range(&mut head, b, 0, HEADER_LEN);
    assert(expected@ =~= encode_header(id@));
    assert(head@ =~= b@.subrange(0, HEADER_LEN as int));
    if bytes_eq(head.as_slice(), expected.as_slice()) {
        Some(id)
    } else {
        None
    }
}

} // verus!
