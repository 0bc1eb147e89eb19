//! Properties that relate several calls of the engine, stated over the
//! models its contracts use.
use vstd::prelude::*;

use crate::codec::{
    decode_header, encode_header, encode_record, lemma_cut_record_is_fragment,
    lemma_decode_encode_header, lemma_identifier_bytes, record_fits, valid_identifier, HEADER_LEN,
};
use crate::recovery::{lemma_replay_fragment, lemma_replay_suffix, recover, Contents, Recovered};
use crate::store::{lookup, Store};

verus! {

/// After `put(k, v)`, `get(k)` answers `v`.
pub proof fn law_put_then_get(m: Contents, k: Seq<u8>, v: Seq<u8>)
    ensures
        lookup(m.insert(k, v), k) == Some(v),
{
}

/// After `put(k, v)` and `delete(k)`, `get(k)` answers nothing.
pub proof fn law_put_delete_then_get(m: Contents, k: Seq<u8>, v: Seq<u8>)
    ensures
        lookup(m.insert(k, v).remove(k), k) is None,
{
}

/// Of two `put`s of one key, `get` answers the later value.
pub proof fn law_last_write_wins(m: Contents, k: Seq<u8>, v1: Seq<u8>, v2: Seq<u8>)
    ensures
        lookup(m.insert(k, v1).insert(k, v2), k) == Some(v2),
{
}

/// Only the first bytes of a file hold its header.
proof fn lemma_header_prefix(a: Seq<u8>, b: Seq<u8>)
    requires
        a.len() >= HEADER_LEN,
        b.len() >= HEADER_LEN,
        a.subrange(0, HEADER_LEN as int) == b.subrange(0, HEADER_LEN as int),
    ensures
        decode_header(a) == decode_header(b),
{
    let sa = a.subrange(0, HEADER_LEN as int);
    let sb = b.subrange(0, HEADER_LEN as int);
    assert forall|i: int| 0 <= i < HEADER_LEN implies #[trigger] a[i] == b[i] by {
        assert(sa[i] == a[i]);
        assert(sb[i] == b[i]);
        assert(sa[i] == sb[i]);
    }
    if a[5] <= 64 {
        assert(a.subrange(6, 6 + a[5]) =~= b.subrange(6, 6 + b[5]));
    }
}

/// A crash in the middle of appending a record loses that record and
/// nothing else: cutting a cleanly recovered file anywhere strictly inside
/// an appended record, and reopening it, recovers the same identifier and
/// contents as before the append, and cuts the file back to where the
/// record began.
pub proof fn law_torn_append_recovers(
    image: Seq<u8>,
    before: Recovered,
    tombstone: bool,
    key: Seq<u8>,
    value: Seq<u8>,
    cut: int,
)
    requires
        recover(image) == Some(before),
        before.end == image.len(),
        record_fits(tombstone, key, value),
        0 < cut < encode_record(tombstone, key, value).len(),
    ensures
        recover(image + encode_record(tombstone, key, value).subrange(0, cut)) == Some(before),
{
    let frag = encode_record(tombstone, key, value).subrange(0, cut);
    let torn = image + frag;
    lemma_cut_record_is_fragment(tombstone, key, value, cut);
    assert(image.len() >= HEADER_LEN);
    assert(torn.subrange(0, HEADER_LEN as int) =~= image.subrange(0, HEADER_LEN as int));
    lemma_header_prefix(torn, image);
    lemma_replay_fragment(image, frag, HEADER_LEN as int, Map::empty(), before.contents);
}

/// A new identifier survives closing and reopening: the file that
/// `set_identifier(id)` leaves recovers with `id` and with the contents
/// the store held.
pub proof fn law_identifier_survives_reopen(s: Store, id: Seq<char>)
    requires
        s.wf(),
        valid_identifier(id),
    ensures
        recover(
            encode_header(id) + s.image().subrange(HEADER_LEN as int, s.image().len() as int),
        ) == Some(
            Recovered { identifier: id, contents: s@, end: s.image().len() as int },
        ),
{
    s.lemma_reopen();
    let rest = s.image().subrange(HEADER_LEN as int, s.image().len() as int);
    let t = encode_header(id) + rest;
    lemma_identifier_bytes(id);
    lemma_decode_encode_header(id, rest);
    assert(t.subrange(HEADER_LEN as int, t.len() as int) =~= rest);
    lemma_replay_suffix(s.image(), t, HEADER_LEN as int, Map::empty());
}

} // verus!
