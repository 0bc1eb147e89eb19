//! What a log image holds: the replay of its records onto a map, and the
//! facts about replay that appends, truncations and rewrites rely on.
use vstd::prelude::*;

use crate::codec::{
    decode_header, decode_record, lemma_decode_empty, lemma_decode_local, lemma_record_fields,
    Decoded, HEADER_LEN,
};

verus! {

/// The contents of a store: each live key with its value.
pub type Contents = Map<Seq<u8>, Seq<u8>>;

/// The effect of one record on the contents.
pub open spec fn apply_record(m: Contents, tombstone: bool, key: Seq<u8>, value: Seq<u8>) -> Contents {
    if tombstone {
        m.remove(key)
    } else {
        m.insert(key, value)
    }
}

/// Replays the records of `b` from position `p` onto `m`, in file order.
/// The result is the contents and the boundary after the last whole record:
/// the end of `b`, or the start of an interrupted append at its tail.
/// `None` where a complete record is corrupt.
pub open spec fn replay(b: Seq<u8>, p: int, m: Contents) -> Option<(Contents, int)>
    decreases b.len() - p,
{
    if p < 0 || p > b.len() {
        None
    } else {
        match decode_record(b.subrange(p, b.len() as int)) {
            Decoded::End => Some((m, p)),
            Decoded::Fragment => Some((m, p)),
            Decoded::Corrupt => None,
            Decoded::Record { tombstone, key, value, size } => {
                if size > 0 && p + size <= b.len() {
                    replay(b, p + size, apply_record(m, tombstone, key, value))
                } else {
                    None
                }
            },
        }
    }
}

/// What opening a file image finds.
pub struct Recovered {
    pub identifier: Seq<char>,
    pub contents: Contents,
    /// Where the image is cut: after its last whole record.
    pub end: int,
}

/// Opening an image: its header, then the replay of its records from an
/// empty map. `None` where the header is malformed or a record is corrupt.
pub open spec fn recover(image: Seq<u8>) -> Option<Recovered> {
    match decode_header(image) {
        None => None,
        Some(identifier) => match replay(image, HEADER_LEN as int, Map::empty()) {
            None => None,
            Some((contents, end)) => Some(Recovered { identifier, contents, end }),
        },
    }
}

/// Replay reads nothing before its starting position.
pub proof fn lemma_replay_suffix(a: Seq<u8>, b: Seq<u8>, p: int, m: Contents)
    requires
        0 <= p <= a.len(),
        a.len() == b.len(),
        a.subrange(p, a.len() as int) == b.subrange(p, b.len() as int),
    ensures
        replay(a, p, m) == replay(b, p, m),
    decreases a.len() - p,
{
    match decode_record(a.subrange(p, a.len() as int)) {
        Decoded::Record { tombstone, key, value, size } => {
            if size > 0 && p + size <= b.len() {
                let q = p + size;
                assert(a.subrange(q, a.len() as int) =~= a.subrange(p, a.len() as int).subrange(
                    size as int,
                    a.len() - p,
                ));
                assert(b.subrange(q, b.len() as int) =~= b.subrange(p, b.len() as int).subrange(
                    size as int,
                    b.len() - p,
                ));
                lemma_replay_suffix(a, b, q, apply_record(m, tombstone, key, value));
            }
        },
        _ => {},
    }
}

/// Appending bytes after a replay that consumed everything continues the
/// replay where it ended.
pub proof fn lemma_replay_extend(b: Seq<u8>, t: Seq<u8>, p: int, m: Contents, done: Contents)
    requires
        0 <= p <= b.len(),
        replay(b, p, m) == Some((done, b.len() as int)),
    ensures
        replay(b + t, p, m) == replay(b + t, b.len() as int, done),
    decreases b.len() - p,
{
    let s = b.subrange(p, b.len() as int);
    let s2 = (b + t).subrange(p, (b + t).len() as int);
    assert(s2 =~= s + t);
    match decode_record(s) {
        Decoded::Record { tombstone, key, value, size } => {
            lemma_record_fields(s);
            assert(s2.subrange(0, size as int) =~= s.subrange(0, size as int));
            lemma_decode_local(s, s2);
            lemma_replay_extend(b, t, p + size, apply_record(m, tombstone, key, value), done);
        },
        _ => {},
    }
}

/// One whole record appended at the end of a log is replayed last.
pub proof fn lemma_replay_one(b: Seq<u8>, r: Seq<u8>, m: Contents)
    requires
        decode_record(r) is Record,
        decode_record(r)->size == r.len(),
    ensures
        replay(b + r, b.len() as int, m) == Some(
            (
                apply_record(
                    m,
                    decode_record(r)->tombstone,
                    decode_record(r)->key,
                    decode_record(r)->value,
                ),
                (b.len() + r.len()) as int,
            ),
        ),
{
    let br = b + r;
    assert(br.subrange(b.len() as int, br.len() as int) =~= r);
    assert(br.subrange(br.len() as int, br.len() as int) =~= Seq::<u8>::empty());
    lemma_decode_empty(br.subrange(br.len() as int, br.len() as int));
    let m2 = apply_record(m, decode_record(r)->tombstone, decode_record(r)->key, decode_record(r)->value);
    assert(replay(br, br.len() as int, m2) == Some((m2, br.len() as int)));
}

/// Appending one whole record to a cleanly replayed log applies it.
pub proof fn lemma_replay_append(b: Seq<u8>, r: Seq<u8>, p: int, m: Contents, done: Contents)
    requires
        0 <= p <= b.len(),
        replay(b, p, m) == Some((done, b.len() as int)),
        decode_record(r) is Record,
        decode_record(r)->size == r.len(),
    ensures
        replay(b + r, p, m) == Some(
            (
                apply_record(
                    done,
                    decode_record(r)->tombstone,
                    decode_record(r)->key,
                    decode_record(r)->value,
                ),
                (b.len() + r.len()) as int,
            ),
        ),
{
    lemma_replay_extend(b, r, p, m, done);
    lemma_replay_one(b, r, done);
}

/// An interrupted append after a cleanly replayed log is cut off.
pub proof fn lemma_replay_fragment(b: Seq<u8>, f: Seq<u8>, p: int, m: Contents, done: Contents)
    requires
        0 <= p <= b.len(),
        replay(b, p, m) == Some((done, b.len() as int)),
        decode_record(f) is Fragment,
    ensures
        replay(b + f, p, m) == replay(b, p, m),
{
    lemma_replay_extend(b, f, p, m, done);
    let bf = b + f;
    assert(bf.subrange(b.len() as int, bf.len() as int) =~= f);
}

} // verus!
