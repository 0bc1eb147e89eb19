//! The store handle: the log image, the index over it and the identifier.
use vstd::prelude::*;
use vstd::string::*;

use crate::codec::{
    checksum_of, decode_header, decode_record, encode_header, encode_record, lemma_decode_encode,
    lemma_decode_encode_header, lemma_decode_local, push_header, push_record, read_le32,
    record_fits, scan_record, valid_identifier, check_identifier, read_header, Decoded, Scan,
    HEADER_LEN, RECORD_OVERHEAD, RECORD_PREFIX,
};
use crate::error::KvError;
use crate::recovery::{
    apply_record, lemma_replay_append, lemma_replay_suffix, recover, replay, Contents, Recovered,
};
use crate::text::{bytes_eq, copy_range, push_range};

verus! {

/// Where the latest live record of a key lies in the log.
pub struct IndexEntry {
    key: Vec<u8>,
    offset: usize,
    size: usize,
}

/// The entry points at a live record of its key, holding `contents`' value.
spec fn entry_ok(log: Seq<u8>, e: IndexEntry, contents: Contents) -> bool {
    &&& HEADER_LEN <= e.offset
    &&& e.offset + e.size <= log.len()
    &&& decode_record(log.subrange(e.offset as int, log.len() as int)) == (Decoded::Record {
        tombstone: false,
        key: e.key@,
        value: contents[e.key@],
        size: e.size as nat,
    })
}

/// The index holds one entry per live key, in file order, each pointing at
/// that key's latest record.
#[verifier::opaque]
spec fn index_ok(log: Seq<u8>, es: Seq<IndexEntry>, contents: Contents) -> bool {
    &&& forall|i: int| 0 <= i < es.len() ==> entry_ok(log, #[trigger] es[i], contents)
    &&& forall|i: int, j: int|
        0 <= i < j < es.len() ==> #[trigger] es[i].offset + es[i].size <= #[trigger] es[j].offset
    &&& forall|i: int, j: int|
        0 <= i < es.len() && 0 <= j < es.len() && i != j ==> #[trigger] es[i].key@
            != #[trigger] es[j].key@
    &&& forall|k: Seq<u8>|
        #[trigger] contents.contains_key(k) <==> exists|i: int|
            0 <= i < es.len() && (#[trigger] es[i].key@) == k
}

/// An entry stays valid when the log grows behind it.
proof fn lemma_entry_grow(pre: Seq<u8>, log: Seq<u8>, e: IndexEntry, c1: Contents, c2: Contents)
    requires
        pre.len() <= log.len(),
        log.subrange(0, pre.len() as int) == pre,
        entry_ok(pre, e, c1),
        c2[e.key@] == c1[e.key@],
    ensures
        entry_ok(log, e, c2),
{
    let s1 = pre.subrange(e.offset as int, pre.len() as int);
    let s2 = log.subrange(e.offset as int, log.len() as int);
    assert(s2.subrange(0, e.size as int) =~= s1.subrange(0, e.size as int)) by {
        assert forall|j: int| 0 <= j < e.size implies s2[j] == s1[j] by {
            assert(log.subrange(0, pre.len() as int)[e.offset + j] == log[e.offset + j]);
        }
    }
    lemma_decode_local(s1, s2);
}

/// The position in `index` of `key`'s entry.
fn find_in(index: &Vec<IndexEntry>, key: &[u8]) -> (r: Option<usize>)
    ensures
        match r {
            Some(i) => i < index@.len() && index@[i as int].key@ == key@,
            None => forall|i: int| 0 <= i < index@.len() ==> (#[trigger] index@[i]).key@ != key@,
        },
{
    let mut i: usize = 0;
    while i < index.len()
        invariant
            i <= index@.len(),
            forall|j: int| 0 <= j < i ==> (#[trigger] index@[j]).key@ != key@,
        decreases index@.len() - i,
    {
        if bytes_eq(index[i].key.as_slice(), key) {
            return Some(i);
        }
        i = i + 1;
    }
    None
}

/// Where the `j`-th entry of an index stood before the entry at `skip` was
/// taken out of it.
spec fn before_removal(j: int, skip: int) -> int {
    if j < skip {
        j
    } else {
        j + 1
    }
}

/// Takes `key`'s entry, if any, out of the index.
fn index_remove(
    index: &mut Vec<IndexEntry>,
    key: &[u8],
    Ghost(log): Ghost<Seq<u8>>,
    Ghost(contents): Ghost<Contents>,
)
    requires
        index_ok(log, old(index)@, contents),
    ensures
        index_ok(log, final(index)@, contents.remove(key@)),
        forall|j: int| 0 <= j < final(index)@.len() ==> (#[trigger] final(index)@[j]).key@ != key@,
{
    reveal(index_ok);
    let ghost c2 = contents.remove(key@);
    let ghost es0 = index@;
    let found = find_in(index, key);
    let ghost skip: int = match found {
        Some(i) => i as int,
        None => es0.len() as int,
    };
    if let Some(i) = found {
        index.remove(i);
    }
    let ghost es1 = index@;
    assert(0 <= skip <= es0.len());
    assert(es1.len() == if skip < es0.len() { es0.len() - 1 } else { es0.len() as int });
    assert forall|j: int| 0 <= j < es1.len() implies #[trigger] es1[j] == es0[before_removal(
        j,
        skip,
    )] && 0 <= before_removal(j, skip) < es0.len() && before_removal(j, skip) != skip by {}
    assert forall|j: int| 0 <= j < es1.len() implies (#[trigger] es1[j]).key@ != key@ by {
        let o = before_removal(j, skip);
        assert(es1[j] == es0[o]);
        if skip < es0.len() {
            assert(es0[skip].key@ == key@);
            assert(es0[o].key@ != es0[skip].key@);
        }
    }
    assert forall|j: int| 0 <= j < es1.len() implies entry_ok(log, #[trigger] es1[j], c2) by {
        let o = before_removal(j, skip);
        assert(es1[j] == es0[o]);
        assert(entry_ok(log, es0[o], contents));
        assert(es1[j].key@ != key@);
    }
    assert forall|j1: int, j2: int| 0 <= j1 < j2 < es1.len() implies #[trigger] es1[j1].offset
        + es1[j1].size <= #[trigger] es1[j2].offset by {
        assert(es1[j1] == es0[before_removal(j1, skip)]);
        assert(es1[j2] == es0[before_removal(j2, skip)]);
    }
    assert forall|j1: int, j2: int|
        0 <= j1 < es1.len() && 0 <= j2 < es1.len() && j1 != j2 implies #[trigger] es1[j1].key@
        != #[trigger] es1[j2].key@ by {
        assert(es1[j1] == es0[before_removal(j1, skip)]);
        assert(es1[j2] == es0[before_removal(j2, skip)]);
    }
    assert forall|k: Seq<u8>| #[trigger] c2.contains_key(k) <==> exists|j: int|
        0 <= j < es1.len() && (#[trigger] es1[j].key@) == k by {
        if c2.contains_key(k) {
            let o = choose|o: int| 0 <= o < es0.len() && (#[trigger] es0[o].key@) == k;
            if skip < es0.len() {
                assert(o != skip);
            }
            let j = if o < skip { o } else { o - 1 };
            assert(es1[j] == es0[before_removal(j, skip)]);
        }
        if exists|j: int| 0 <= j < es1.len() && (#[trigger] es1[j].key@) == k {
            let j = choose|j: int| 0 <= j < es1.len() && (#[trigger] es1[j].key@) == k;
            assert(es1[j] == es0[before_removal(j, skip)]);
        }
    }
}

/// Brings the index up to date with the record that fills `log` from `off`
/// to its end, for a key the index does not hold.
fn index_append(
    index: &mut Vec<IndexEntry>,
    Ghost(log): Ghost<Seq<u8>>,
    off: usize,
    size: usize,
    tombstone: bool,
    key: &[u8],
    Ghost(value): Ghost<Seq<u8>>,
    Ghost(contents): Ghost<Contents>,
)
    requires
        HEADER_LEN <= off,
        off + size == log.len(),
        index_ok(log.subrange(0, off as int), old(index)@, contents),
        forall|j: int| 0 <= j < old(index)@.len() ==> (#[trigger] old(index)@[j]).key@ != key@,
        decode_record(log.subrange(off as int, log.len() as int)) == (Decoded::Record {
            tombstone,
            key: key@,
            value,
            size: size as nat,
        }),
    ensures
        index_ok(log, final(index)@, apply_record(contents, tombstone, key@, value)),
        tombstone ==> final(index)@ == old(index)@,
        !tombstone ==> final(index)@.len() == old(index)@.len() + 1 && final(index)@.drop_last()
            == old(index)@ && final(index)@.last().key@ == key@,
{
    reveal(index_ok);
    let ghost pre = log.subrange(0, off as int);
    let ghost c2 = apply_record(contents, tombstone, key@, value);
    let ghost es1 = index@;
    assert forall|j: int| 0 <= j < es1.len() implies entry_ok(log, #[trigger] es1[j], c2)
        && es1[j].offset + es1[j].size <= off by {
        assert(entry_ok(pre, es1[j], contents));
        assert(log.subrange(0, pre.len() as int) =~= pre);
        lemma_entry_grow(pre, log, es1[j], contents, c2);
    }
    if !tombstone {
        let k = copy_range(key, 0, key.len());
        index.push(IndexEntry { key: k, offset: off, size });
        assert(key@.subrange(0, key@.len() as int) =~= key@);
    }
    let ghost es2 = index@;
    assert(!tombstone ==> es2.drop_last() =~= es1);
    assert forall|j: int| 0 <= j < es2.len() implies entry_ok(log, #[trigger] es2[j], c2) by {
        if j == es1.len() {
            assert(c2[key@] == value);
        } else {
            assert(es2[j] == es1[j]);
        }
    }
    assert forall|j1: int, j2: int| 0 <= j1 < j2 < es2.len() implies #[trigger] es2[j1].offset
        + es2[j1].size <= #[trigger] es2[j2].offset by {
        assert(es2[j1] == es1[j1]);
        if j2 < es1.len() {
            assert(es2[j2] == es1[j2]);
        }
    }
    assert forall|j1: int, j2: int|
        0 <= j1 < es2.len() && 0 <= j2 < es2.len() && j1 != j2 implies #[trigger] es2[j1].key@
        != #[trigger] es2[j2].key@ by {
        if j1 < es1.len() {
            assert(es2[j1] == es1[j1]);
        }
        if j2 < es1.len() {
            assert(es2[j2] == es1[j2]);
        }
    }
    assert forall|k: Seq<u8>| #[trigger] c2.contains_key(k) <==> exists|i: int|
        0 <= i < es2.len() && (#[trigger] es2[i].key@) == k by {
        if c2.contains_key(k) {
            if k == key@ {
                assert(es2[es1.len() as int].key@ == k);
            } else {
                assert(contents.contains_key(k));
                let j = choose|j: int| 0 <= j < es1.len() && (#[trigger] es1[j].key@) == k;
                assert(es2[j] == es1[j]);
            }
        }
        if exists|i: int| 0 <= i < es2.len() && (#[trigger] es2[i].key@) == k {
            let i = choose|i: int| 0 <= i < es2.len() && (#[trigger] es2[i].key@) == k;
            if i < es1.len() {
                assert(es2[i] == es1[i]);
                assert(contents.contains_key(k));
            }
        }
    }
}

/// Brings the index up to date with the record that fills `log` from `off`
/// to its end.
fn index_apply(
    index: &mut Vec<IndexEntry>,
    Ghost(log): Ghost<Seq<u8>>,
    off: usize,
    size: usize,
    tombstone: bool,
    key: &[u8],
    Ghost(value): Ghost<Seq<u8>>,
    Ghost(contents): Ghost<Contents>,
)
    requires
        HEADER_LEN <= off,
        off + size == log.len(),
        index_ok(log.subrange(0, off as int), old(index)@, contents),
        decode_record(log.subrange(off as int, log.len() as int)) == (Decoded::Record {
            tombstone,
            key: key@,
            value,
            size: size as nat,
        }),
    ensures
        index_ok(log, final(index)@, apply_record(contents, tombstone, key@, value)),
{
    index_remove(index, key, Ghost(log.subrange(0, off as int)), Ghost(contents));
    index_append(index, Ghost(log), off, size, tombstone, key, Ghost(value), Ghost(contents.remove(key@)));
    assert(apply_record(contents.remove(key@), tombstone, key@, value) =~= apply_record(
        contents,
        tombstone,
        key@,
        value,
    ));
}

/// What reading `k` from contents `m` answers.
pub open spec fn lookup(m: Contents, k: Seq<u8>) -> Option<Seq<u8>> {
    if m.contains_key(k) {
        Some(m[k])
    } else {
        None
    }
}

/// The bytes an optional buffer holds.
pub open spec fn option_view(o: Option<Vec<u8>>) -> Option<Seq<u8>> {
    match o {
        Some(v) => Some(v@),
        None => None,
    }
}

/// One live record per key of `keys`, in that order, each holding its value in `m`.
pub open spec fn records_of(keys: Seq<Seq<u8>>, m: Contents) -> Seq<u8>
    decreases keys.len(),
{
    if keys.len() == 0 {
        Seq::empty()
    } else {
        records_of(keys.drop_last(), m) + encode_record(false, keys.last(), m[keys.last()])
    }
}

/// The generation after a rewrite.
pub open spec fn next_generation(g: u64) -> u64 {
    if g == u64::MAX {
        0
    } else {
        (g + 1) as u64
    }
}

/// Total size of the records the entries point at.
spec fn sizes_sum(es: Seq<IndexEntry>) -> int
    decreases es.len(),
{
    if es.len() == 0 {
        0
    } else {
        sizes_sum(es.drop_last()) + es.last().size
    }
}

/// Records that lie in `lo..hi` without overlapping take at most its length.
proof fn lemma_sizes_bound(es: Seq<IndexEntry>, lo: int, hi: int)
    requires
        lo <= hi,
        forall|i: int| 0 <= i < es.len() ==> lo <= #[trigger] es[i].offset && es[i].offset + es[i].size <= hi,
        forall|i: int, j: int|
            0 <= i < j < es.len() ==> #[trigger] es[i].offset + es[i].size <= #[trigger] es[j].offset,
    ensures
        sizes_sum(es) <= hi - lo,
    decreases es.len(),
{
    if es.len() > 0 {
        let l = es.last();
        let d = es.drop_last();
        assert forall|i: int| 0 <= i < d.len() implies lo <= #[trigger] d[i].offset && d[i].offset
            + d[i].size <= l.offset by {
            assert(d[i] == es[i]);
        }
        assert forall|i: int, j: int| 0 <= i < j < d.len() implies #[trigger] d[i].offset
            + d[i].size <= #[trigger] d[j].offset by {
            assert(d[i] == es[i] && d[j] == es[j]);
        }
        lemma_sizes_bound(d, lo, l.offset as int);
    }
}

/// An open store.
///
/// `log` is the exact image of the backing file. Its view is the contents:
/// each live key with its latest value.
pub struct Store {
    log: Vec<u8>,
    index: Vec<IndexEntry>,
    identifier: String,
    generation: u64,
    contents: Ghost<Contents>,
}

impl View for Store {
    type V = Contents;

    closed spec fn view(&self) -> Contents {
        self.contents@
    }
}

impl Store {
    /// The bytes of the backing file.
    pub closed spec fn image(&self) -> Seq<u8> {
        self.log@
    }

    /// The cached identifier.
    pub closed spec fn identifier_view(&self) -> Seq<char> {
        self.identifier@
    }

    /// Counts the calls that rewrote the file rather than appending to it.
    pub closed spec fn generation_view(&self) -> u64 {
        self.generation
    }

    /// The file image holds the identifier and then exactly the records that
    /// replay to the contents, and the index locates every live record.
    pub closed spec fn wf(&self) -> bool {
        &&& HEADER_LEN <= self.log@.len()
        &&& valid_identifier(self.identifier@)
        &&& self.log@.subrange(0, HEADER_LEN as int) == encode_header(self.identifier@)
        &&& replay(self.log@, HEADER_LEN as int, Map::empty()) == Some(
            (self.contents@, self.log@.len() as int),
        )
        &&& index_ok(self.log@, self.index@, self.contents@)
    }

    /// A well-formed store is what reopening its image recovers.
    pub proof fn lemma_reopen(&self)
        requires
            self.wf(),
        ensures
            recover(self.image()) == Some(
                Recovered {
                    identifier: self.identifier_view(),
                    contents: self@,
                    end: self.image().len() as int,
                },
            ),
            self.image().len() >= HEADER_LEN,
            valid_identifier(self.identifier_view()),
    {
        let log = self.log@;
        let rest = log.subrange(HEADER_LEN as int, log.len() as int);
        assert(log =~= encode_header(self.identifier@) + rest);
        lemma_decode_encode_header(self.identifier@, rest);
    }

    /// A new, empty store, identified as "default".
    pub fn create() -> (s: Store)
        ensures
            s.wf(),
            s@ == Map::<Seq<u8>, Seq<u8>>::empty(),
            s.identifier_view() == "default"@,
            s.image() == encode_header("default"@),
    {
        proof {
            reveal_strlit("default");
        }
        let mut log: Vec<u8> = Vec::new();
        push_header(&mut log, "default");
        proof {
            crate::codec::lemma_identifier_bytes("default"@);
            assert(log@ =~= encode_header("default"@));
            assert(log@.subrange(0, HEADER_LEN as int) =~= log@);
            assert(log@.subrange(HEADER_LEN as int, log@.len() as int) =~= Seq::<u8>::empty());
            crate::codec::lemma_decode_empty(log@.subrange(HEADER_LEN as int, log@.len() as int));
        }
        let s = Store {
            log,
            index: Vec::new(),
            identifier: String::from_str("default"),
            generation: 0,
            contents: Ghost(Map::empty()),
        };
        assert(s.index@ =~= Seq::<IndexEntry>::empty());
        assert(index_ok(s.log@, s.index@, s.contents@)) by {
            reveal(index_ok);
        }
        s
    }

    /// The value of `key`, read from its record after checking the record's
    /// checksum; `None` where the key is not live.
    pub fn get(&self, key: &[u8]) -> (r: Result<Option<Vec<u8>>, KvError>)
        requires
            self.wf(),
        ensures
            match r {
                Ok(found) => option_view(found) == lookup(self@, key@),
                Err(_) => false,
            },
    {
        reveal(index_ok);
        match find_in(&self.index, key) {
            None => {
                Ok(None)
            },
            Some(i) => {
                let e = &self.index[i];
                let off = e.offset;
                let size = e.size;
                let kl = e.key.len();
                let n = self.log.len();
                let ghost log = self.log@;
                let ghost s = log.subrange(off as int, log.len() as int);
                reveal(decode_record);
                assert(entry_ok(log, self.index@[i as int], self@));
                assert(off + size <= log.len());
                assert(size >= RECORD_OVERHEAD + kl);
                let ghost body = (size - 4) as int;
                assert(s.subrange(0, body) =~= log.subrange(off as int, off + body));
                assert(s.subrange(RECORD_PREFIX + kl, body) =~= log.subrange(
                    off + RECORD_PREFIX + kl,
                    off + body,
                ));
                let stored = read_le32(self.log.as_slice(), off + size - 4);
                let sum = checksum_of(self.log.as_slice(), off, off + size - 4);
                if stored != sum {
                    return Err(KvError::Corruption);
                }
                let v = copy_range(self.log.as_slice(), off + RECORD_PREFIX + kl, off + size - 4);
                Ok(Some(v))
            },
        }
    }

    /// Appends one record to the log and brings the index
    /// and the contents up to date with it.
    fn append_record(
        &mut self,
        tombstone: bool,
        key: &[u8],
        value: &[u8],
    )
        requires
            old(self).wf(),
            record_fits(tombstone, key@, value@),
            old(self).image().len() + RECORD_OVERHEAD + key@.len() + value@.len() <= usize::MAX,
        ensures
            final(self).wf(),
            final(self)@ == apply_record(old(self)@, tombstone, key@, value@),
            final(self).image() == old(self).image() + encode_record(tombstone, key@, value@),
            final(self).identifier_view() == old(self).identifier_view(),
            final(self).generation_view() == old(self).generation_view(),
    {
        let off = self.log.len();
        let ghost pre = self.log@;
        let ghost rec = encode_record(tombstone, key@, value@);
        push_record(&mut self.log, tombstone, key, value);
        proof {
            lemma_decode_encode(tombstone, key@, value@);
            lemma_replay_append(pre, rec, HEADER_LEN as int, Map::empty(), self.contents@);
            assert(self.log@.subrange(0, off as int) =~= pre);
            assert(self.log@.subrange(off as int, self.log@.len() as int) =~= rec);
            assert(self.log@.subrange(0, HEADER_LEN as int) =~= pre.subrange(0, HEADER_LEN as int));
        }
        let size = self.log.len() - off;
        index_apply(&mut self.index, Ghost(self.log@), off, size, tombstone, key, Ghost(value@), Ghost(self.contents@));
        self.contents = Ghost(apply_record(self.contents@, tombstone, key@, value@));
    }

    /// Stores `value` under `key`: appends a record and points the index at it.
    /// The key's earlier record, if any, becomes dead space.
    ///
    /// Fails with `InvalidArgument` on an empty key or on a key or value longer
    /// than the 4-byte length fields hold, and with `StorageFull` where the log
    /// cannot grow by the record; the store is then unchanged.
    pub fn put(&mut self, key: &[u8], value: &[u8]) -> (r: Result<(), KvError>)
        requires
            old(self).wf(),
        ensures
            final(self).wf(),
            final(self).identifier_view() == old(self).identifier_view(),
            final(self).generation_view() == old(self).generation_view(),
            match r {
                Ok(()) => {
                    &&& final(self)@ == old(self)@.insert(key@, value@)
                    &&& final(self).image() == old(self).image() + encode_record(false, key@, value@)
                },
                Err(e) => {
                    &&& *final(self) == *old(self)
                    &&& e == KvError::InvalidArgument <==> !record_fits(false, key@, value@)
                    &&& e == KvError::StorageFull <==> record_fits(false, key@, value@)
                        && old(self).image().len() + RECORD_OVERHEAD + key@.len() + value@.len() > usize::MAX
                },
            },
            r is Ok <==> record_fits(false, key@, value@) && old(self).image().len() + RECORD_OVERHEAD
                + key@.len() + value@.len() <= usize::MAX,
    {
        if key.len() == 0 || key.len() > u32::MAX as usize || value.len() > u32::MAX as usize {
            return Err(KvError::InvalidArgument);
        }
        let size: u64 = RECORD_OVERHEAD as u64 + key.len() as u64 + value.len() as u64;
        if size > (usize::MAX - self.log.len()) as u64 {
            return Err(KvError::StorageFull);
        }
        self.append_record(false, key, value);
        Ok(())
    }

    /// Removes `key`: appends a tombstone and drops its index entry. A key
    /// that is not live is left alone and nothing is appended.
    ///
    /// Fails with `StorageFull`, the store unchanged, where the log cannot
    /// grow by the tombstone.
    pub fn delete(&mut self, key: &[u8]) -> (r: Result<(), KvError>)
        requires
            old(self).wf(),
        ensures
            final(self).wf(),
            final(self).identifier_view() == old(self).identifier_view(),
            final(self).generation_view() == old(self).generation_view(),
            match r {
                Ok(()) => {
                    &&& final(self)@ == old(self)@.remove(key@)
                    &&& final(self).image() == if old(self)@.contains_key(key@) {
                        old(self).image() + encode_record(true, key@, Seq::empty())
                    } else {
                        old(self).image()
                    }
                },
                Err(e) => {
                    &&& *final(self) == *old(self)
                    &&& e == KvError::StorageFull
                },
            },
            r is Err <==> old(self)@.contains_key(key@) && old(self).image().len() + RECORD_OVERHEAD
                + key@.len() > usize::MAX,
    {
        match find_in(&self.index, key) {
            None => {
                reveal(index_ok);
                assert(!self@.contains_key(key@));
                assert(self@.remove(key@) =~= self@);
                Ok(())
            },
            Some(i) => {
                reveal(index_ok);
                assert(self@.contains_key(key@));
                assert(entry_ok(self.log@, self.index@[i as int], self@));
                proof {
                    crate::codec::lemma_record_fields(
                        self.log@.subrange(self.index@[i as int].offset as int, self.log@.len() as int),
                    );
                }
                let size: u64 = RECORD_OVERHEAD as u64 + key.len() as u64;
                if size > (usize::MAX - self.log.len()) as u64 {
                    return Err(KvError::StorageFull);
                }
                let empty: Vec<u8> = Vec::new();
                assert(empty@ =~= Seq::<u8>::empty());
                self.append_record(true, key, empty.as_slice());
                Ok(())
            },
        }
    }

    /// Opens a store from the bytes of its file: checks the header, then
    /// replays the records in file order into the index. An interrupted
    /// append at the tail is cut off; a corrupt record or a malformed header
    /// fails with `Corruption`.
    pub fn open(image: Vec<u8>) -> (r: Result<Store, KvError>)
        ensures
            r is Ok <==> recover(image@) is Some,
            match r {
                Ok(s) => {
                    &&& s.wf()
                    &&& recover(image@) == Some(
                        Recovered {
                            identifier: s.identifier_view(),
                            contents: s@,
                            end: s.image().len() as int,
                        },
                    )
                    &&& s.image() == image@.subrange(0, s.image().len() as int)
                },
                Err(e) => e == KvError::Corruption,
            },
    {
        let identifier = match read_header(image.as_slice()) {
            None => return Err(KvError::Corruption),
            Some(id) => id,
        };
        let ghost empty = Map::<Seq<u8>, Seq<u8>>::empty();
        let mut index: Vec<IndexEntry> = Vec::new();
        let ghost mut cur: Contents = empty;
        let mut p: usize = HEADER_LEN;
        proof {
            reveal(index_ok);
            let h = image@.subrange(0, HEADER_LEN as int);
            assert(h.subrange(HEADER_LEN as int, HEADER_LEN as int) =~= Seq::<u8>::empty());
            crate::codec::lemma_decode_empty(h.subrange(HEADER_LEN as int, HEADER_LEN as int));
            assert(replay(h, HEADER_LEN as int, empty) == Some((empty, HEADER_LEN as int)));
            assert(index@ =~= Seq::<IndexEntry>::empty());
        }
        loop
            invariant
                HEADER_LEN <= p <= image@.len(),
                decode_header(image@) == Some(identifier@),
                empty == Map::<Seq<u8>, Seq<u8>>::empty(),
                replay(image@, HEADER_LEN as int, empty) == replay(image@, p as int, cur),
                replay(image@.subrange(0, p as int), HEADER_LEN as int, empty) == Some(
                    (cur, p as int),
                ),
                index_ok(image@.subrange(0, p as int), index@, cur),
            ensures
                HEADER_LEN <= p <= image@.len(),
                decode_header(image@) == Some(identifier@),
                replay(image@, HEADER_LEN as int, empty) == Some((cur, p as int)),
                replay(image@.subrange(0, p as int), HEADER_LEN as int, empty) == Some(
                    (cur, p as int),
                ),
                index_ok(image@.subrange(0, p as int), index@, cur),
            decreases image@.len() - p,
        {
            let ghost s = image@.subrange(p as int, image@.len() as int);
            let n = image.len();
            match scan_record(image.as_slice(), p) {
                Scan::End => break,
                Scan::Fragment => break,
                Scan::Corrupt => {
                    assert(replay(image@, p as int, cur) is None);
                    assert(recover(image@) is None);
                    return Err(KvError::Corruption);
                },
                Scan::Record { tombstone, key_len, value_len } => {
                    proof {
                        crate::codec::lemma_record_fields(s);
                        assert(decode_record(s)->size == RECORD_OVERHEAD + key_len + value_len);
                        assert(RECORD_OVERHEAD + key_len + value_len <= image@.len() - p);
                    }
                    let size = RECORD_OVERHEAD + key_len + value_len;
                    let key = copy_range(image.as_slice(), p + RECORD_PREFIX, p + RECORD_PREFIX + key_len);
                    let ghost value = s.subrange(
                        RECORD_PREFIX + key_len,
                        RECORD_PREFIX + key_len + value_len,
                    );
                    let ghost pre = image@.subrange(0, p as int);
                    let ghost rec = image@.subrange(p as int, p + size);
                    let ghost next = image@.subrange(0, p + size);
                    proof {
                        assert(key@ =~= s.subrange(RECORD_PREFIX as int, RECORD_PREFIX + key_len));
                        assert(rec.subrange(0, size as int) =~= s.subrange(0, size as int));
                        lemma_decode_local(s, rec);
                        assert(next =~= pre + rec);
                        lemma_replay_append(pre, rec, HEADER_LEN as int, empty, cur);
                        assert(next.subrange(0, p as int) =~= pre);
                        assert(next.subrange(p as int, next.len() as int) =~= rec);
                    }
                    index_apply(
                        &mut index,
                        Ghost(next),
                        p,
                        size,
                        tombstone,
                        key.as_slice(),
                        Ghost(value),
                        Ghost(cur),
                    );
                    proof {
                        cur = apply_record(cur, tombstone, key@, value);
                    }
                    p = p + size;
                },
            }
        }
        let mut log = image;
        log.truncate(p);
        proof {
            assert(log@ =~= image@.subrange(0, p as int));
            assert(log@.subrange(0, HEADER_LEN as int) =~= image@.subrange(0, HEADER_LEN as int));
        }
        Ok(Store { log, index, identifier, generation: 0, contents: Ghost(cur) })
    }

    /// The cached identifier.
    pub fn get_identifier(&self) -> (r: &str)
        ensures
            r@ == self.identifier_view(),
    {
        self.identifier.as_str()
    }

    /// The bytes of the backing file, as this store holds them.
    pub fn log(&self) -> (r: &[u8])
        ensures
            r@ == self.image(),
    {
        self.log.as_slice()
    }

    /// Counts the calls that rewrote the file rather than appending to it:
    /// while it stays the same, the earlier image is a prefix of the current one.
    pub fn generation(&self) -> (r: u64)
        ensures
            r == self.generation_view(),
    {
        self.generation
    }

    /// Ends the handle and hands back the final bytes of the file.
    pub fn close(self) -> (r: Vec<u8>)
        ensures
            r@ == self.image(),
    {
        self.log
    }

    /// Rewrites the log with only the live records: the header, then one
    /// record per live key holding its current value. Tombstones and
    /// superseded records are dropped; the contents and the identifier stay.
    pub fn compact(&mut self)
        requires
            old(self).wf(),
        ensures
            final(self).wf(),
            final(self)@ == old(self)@,
            final(self).identifier_view() == old(self).identifier_view(),
            final(self).generation_view() == next_generation(old(self).generation_view()),
            exists|keys: Seq<Seq<u8>>|
                {
                    &&& keys.no_duplicates()
                    &&& forall|k: Seq<u8>| #[trigger] old(self)@.contains_key(k) <==> keys.contains(k)
                    &&& final(self).image() == encode_header(old(self).identifier_view())
                        + records_of(keys, old(self)@)
                },
            final(self).image().len() <= old(self).image().len(),
    {
        reveal(index_ok);
        let ghost empty = Map::<Seq<u8>, Seq<u8>>::empty();
        let mut new_log: Vec<u8> = Vec::new();
        push_range(&mut new_log, self.log.as_slice(), 0, HEADER_LEN);
        let mut new_index: Vec<IndexEntry> = Vec::new();
        let ghost mut part: Contents = empty;
        let ghost mut keys: Seq<Seq<u8>> = Seq::empty();
        proof {
            assert(new_log@ =~= encode_header(self.identifier@) + records_of(keys, self@));
            assert(new_log@.subrange(HEADER_LEN as int, HEADER_LEN as int) =~= Seq::<u8>::empty());
            crate::codec::lemma_decode_empty(new_log@.subrange(HEADER_LEN as int, HEADER_LEN as int));
            assert(self.index@.subrange(0, 0) =~= Seq::<IndexEntry>::empty());
            assert(new_index@ =~= Seq::<IndexEntry>::empty());
        }
        let mut j: usize = 0;
        while j < self.index.len()
            invariant
                self.wf(),
                empty == Map::<Seq<u8>, Seq<u8>>::empty(),
                j <= self.index@.len(),
                keys.len() == j,
                new_index@.len() == j,
                forall|i: int| 0 <= i < j ==> #[trigger] keys[i] == self.index@[i].key@,
                forall|i: int| 0 <= i < j ==> #[trigger] new_index@[i].key@ == keys[i],
                new_log@ == encode_header(self.identifier@) + records_of(keys, self@),
                new_log@.len() == HEADER_LEN + sizes_sum(self.index@.subrange(0, j as int)),
                replay(new_log@, HEADER_LEN as int, empty) == Some((part, new_log@.len() as int)),
                index_ok(new_log@, new_index@, part),
                forall|k: Seq<u8>| #[trigger] part.contains_key(k) <==> keys.contains(k),
                forall|k: Seq<u8>| #[trigger] part.contains_key(k) ==> part[k] == self@[k],
            decreases self.index@.len() - j,
        {
            reveal(index_ok);
            let ghost log = self.log@;
            let ghost es = self.index@;
            let off = self.index[j].offset;
            let size = self.index[j].size;
            let n = self.log.len();
            let ghost key = es[j as int].key@;
            let ghost value = self@[key];
            let ghost s = log.subrange(off as int, log.len() as int);
            proof {
                assert(entry_ok(log, es[j as int], self@));
                crate::codec::lemma_record_bytes(s);
                crate::codec::lemma_record_fields(s);
                assert(s.subrange(0, size as int) =~= log.subrange(off as int, off + size));
                assert(es.subrange(0, j + 1).drop_last() =~= es.subrange(0, j as int));
                let sub = es.subrange(0, j + 1);
                assert forall|i: int| 0 <= i < sub.len() implies HEADER_LEN <= #[trigger] sub[i].offset
                    && sub[i].offset + sub[i].size <= log.len() by {
                    assert(sub[i] == es[i]);
                    assert(entry_ok(log, es[i], self@));
                }
                assert forall|a: int, b: int| 0 <= a < b < sub.len() implies #[trigger] sub[a].offset
                    + sub[a].size <= #[trigger] sub[b].offset by {
                    assert(sub[a] == es[a] && sub[b] == es[b]);
                }
                lemma_sizes_bound(sub, HEADER_LEN as int, log.len() as int);
            }
            let new_off = new_log.len();
            let ghost pre = new_log@;
            let ghost rec = encode_record(false, key, value);
            push_range(&mut new_log, self.log.as_slice(), off, off + size);
            proof {
                crate::codec::lemma_decode_encode(false, key, value);
                lemma_replay_append(pre, rec, HEADER_LEN as int, empty, part);
                assert(new_log@.subrange(0, new_off as int) =~= pre);
                assert(new_log@.subrange(new_off as int, new_log@.len() as int) =~= rec);
                assert forall|i: int| 0 <= i < new_index@.len() implies (#[trigger] new_index@[i]).key@
                    != key by {
                    assert(new_index@[i].key@ == es[i].key@);
                }
            }
            let ghost before = new_index@;
            index_append(
                &mut new_index,
                Ghost(new_log@),
                new_off,
                size,
                false,
                self.index[j].key.as_slice(),
                Ghost(value),
                Ghost(part),
            );
            proof {
                let keys2 = keys.push(key);
                assert(keys2.drop_last() =~= keys);
                assert forall|i: int| 0 <= i < j + 1 implies #[trigger] new_index@[i].key@ == keys2[i] by {
                    if i < j {
                        assert(new_index@[i] == before[i]);
                    }
                }
                assert(new_log@ =~= encode_header(self.identifier@) + records_of(keys2, self@));
                assert forall|k: Seq<u8>| #[trigger] part.insert(key, value).contains_key(k)
                    <==> keys2.contains(k) by {
                    if keys.contains(k) {
                        let i = choose|i: int| 0 <= i < keys.len() && keys[i] == k;
                        assert(keys2[i] == k);
                    }
                    if keys2.contains(k) && k != key {
                        let i = choose|i: int| 0 <= i < keys2.len() && keys2[i] == k;
                        assert(keys[i] == k);
                    }
                }
                part = part.insert(key, value);
                keys = keys2;
            }
            j = j + 1;
        }
        proof {
            let es = self.index@;
            assert(es.subrange(0, es.len() as int) =~= es);
            assert forall|i: int| 0 <= i < es.len() implies HEADER_LEN <= #[trigger] es[i].offset
                && es[i].offset + es[i].size <= self.log@.len() by {
                assert(entry_ok(self.log@, es[i], self@));
            }
            lemma_sizes_bound(es, HEADER_LEN as int, self.log@.len() as int);
            assert forall|k: Seq<u8>| #[trigger] self@.contains_key(k) <==> keys.contains(k) by {
                if self@.contains_key(k) {
                    let i = choose|i: int| 0 <= i < es.len() && (#[trigger] es[i].key@) == k;
                    assert(keys[i] == k);
                }
                if keys.contains(k) {
                    let i = choose|i: int| 0 <= i < keys.len() && keys[i] == k;
                    assert(es[i].key@ == k);
                }
            }
            assert(part =~= self@);
            assert forall|a: int, b: int| 0 <= a < keys.len() && 0 <= b < keys.len() && a != b
                implies keys[a] != keys[b] by {
                assert(keys[a] == es[a].key@ && keys[b] == es[b].key@);
            }
            assert(new_log@.subrange(0, HEADER_LEN as int) =~= encode_header(self.identifier@)) by {
                crate::codec::lemma_identifier_bytes(self.identifier@);
            }
        }
        self.log = new_log;
        self.index = new_index;
        self.generation = if self.generation == u64::MAX { 0 } else { self.generation + 1 };
        proof {
            assert(keys.no_duplicates());
            assert(self.image() == encode_header(old(self).identifier_view()) + records_of(keys, old(self)@));
        }
    }

    /// Replaces the identifier: the header is rewritten, the records stay
    /// byte for byte. Fails with `InvalidArgument`, the store unchanged,
    /// on an identifier outside 1 to 64 printable ASCII characters.
    pub fn set_identifier(&mut self, new_id: &str) -> (r: Result<(), KvError>)
        requires
            old(self).wf(),
        ensures
            final(self).wf(),
            final(self)@ == old(self)@,
            r is Ok <==> valid_identifier(new_id@),
            match r {
                Ok(()) => {
                    &&& final(self).identifier_view() == new_id@
                    &&& final(self).image() == encode_header(new_id@) + old(self).image().subrange(
                        HEADER_LEN as int,
                        old(self).image().len() as int,
                    )
                    &&& final(self).generation_view() == next_generation(old(self).generation_view())
                },
                Err(e) => e == KvError::InvalidArgument && *final(self) == *old(self),
            },
    {
        if !check_identifier(new_id) {
            return Err(KvError::InvalidArgument);
        }
        let ghost old_log = self.log@;
        let mut new_log: Vec<u8> = Vec::new();
        push_header(&mut new_log, new_id);
        push_range(&mut new_log, self.log.as_slice(), HEADER_LEN, self.log.len());
        proof {
            reveal(index_ok);
            crate::codec::lemma_identifier_bytes(new_id@);
            crate::codec::lemma_identifier_bytes(self.identifier@);
            let nl = new_log@;
            assert(nl.len() == old_log.len());
            assert(nl.subrange(HEADER_LEN as int, nl.len() as int) =~= old_log.subrange(
                HEADER_LEN as int,
                old_log.len() as int,
            ));
            assert(nl.subrange(0, HEADER_LEN as int) =~= encode_header(new_id@));
            lemma_replay_suffix(old_log, nl, HEADER_LEN as int, Map::empty());
            assert forall|i: int| 0 <= i < self.index@.len() implies entry_ok(
                nl,
                #[trigger] self.index@[i],
                self@,
            ) by {
                let e = self.index@[i];
                assert(entry_ok(old_log, e, self@));
                assert(nl.subrange(e.offset as int, nl.len() as int) =~= old_log.subrange(
                    e.offset as int,
                    old_log.len() as int,
                )) by {
                    assert forall|k: int| e.offset <= k < nl.len() implies #[trigger] nl[k]
                        == old_log[k] by {
                        assert(nl.subrange(HEADER_LEN as int, nl.len() as int)[k - HEADER_LEN]
                            == nl[k]);
                        assert(old_log.subrange(HEADER_LEN as int, old_log.len() as int)[k
                            - HEADER_LEN] == old_log[k]);
                    }
                }
            }
            assert(index_ok(nl, self.index@, self@));
        }
        self.log = new_log;
        self.identifier = new_id.to_owned();
        self.generation = if self.generation == u64::MAX { 0 } else { self.generation + 1 };
        Ok(())
    }
}

} // verus!
