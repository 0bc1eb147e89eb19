//! The command layer shared by the interactive shell and the HTTP service:
//! it turns parsed commands into engine calls and their replies.
use vstd::prelude::*;
use vstd::string::*;
use vstd::utf8::*;

use crate::codec::{
    encode_header, encode_record, record_fits, valid_identifier, HEADER_LEN, RECORD_OVERHEAD,
};
use crate::command::{
    compact_spec, get_spec, identifier_get_spec, identifier_set_spec, pairs_view,
    parse_compact, parse_delete_command, parse_get_command, parse_identifier_get,
    parse_identifier_set, parse_put_command, put_spec, delete_spec, trim, trim_command,
};
use crate::error::{kv_error_text, KvError};
use crate::recovery::Contents;
use crate::store::{lookup, records_of, Store};
use crate::text::{copy_range, decimal, hex_bytes, push_decimal, push_hex_bytes, string_from_utf8};

verus! {

/// Why a command failed.
#[derive(Debug)]
pub enum ShellError {
    /// No store is open.
    NoDatabase,
    /// A command beginning with `.`: the host handles those.
    MetaCommand,
    /// Text that is no command, as the shell reports it.
    UnknownCommand(String),
    /// Text that is no command, as the HTTP service reports it.
    Unrecognized,
    /// The engine refused the call.
    Store(KvError),
}

/// The description of each failure.
pub open spec fn shell_error_text(e: ShellError) -> Seq<char> {
    match e {
        ShellError::NoDatabase => "No database open. Use .open first"@,
        ShellError::MetaCommand => "Meta commands are handled by the shell"@,
        ShellError::UnknownCommand(c) => "Unknown command: "@ + c@,
        ShellError::Unrecognized => "Unknown command"@,
        ShellError::Store(k) => kv_error_text(k),
    }
}

impl ShellError {
    /// A human-readable description.
    pub fn message(&self) -> (r: String)
        ensures
            r@ == shell_error_text(*self),
    {
        match self {
            ShellError::NoDatabase => String::from_str("No database open. Use .open first"),
            ShellError::MetaCommand => String::from_str("Meta commands are handled by the shell"),
            ShellError::UnknownCommand(c) => {
                let mut s = String::from_str("Unknown command: ");
                s.append(c.as_str());
                s
            },
            ShellError::Unrecognized => String::from_str("Unknown command"),
            ShellError::Store(e) => e.message(),
        }
    }
}

/// The contents after storing each pair, in order, keys and values as UTF-8.
pub open spec fn apply_puts(m: Contents, ps: Seq<(Seq<char>, Seq<char>)>) -> Contents
    decreases ps.len(),
{
    if ps.len() == 0 {
        m
    } else {
        apply_puts(m, ps.drop_last()).insert(encode_utf8(ps.last().0), encode_utf8(ps.last().1))
    }
}

/// The bytes the records of the pairs take.
pub open spec fn puts_size(ps: Seq<(Seq<char>, Seq<char>)>) -> int
    decreases ps.len(),
{
    if ps.len() == 0 {
        0
    } else {
        puts_size(ps.drop_last()) + RECORD_OVERHEAD + encode_utf8(ps.last().0).len() + encode_utf8(
            ps.last().1,
        ).len()
    }
}

/// Every pair fits a record, and all of them fit the log of length `len`.
pub open spec fn puts_fit(len: int, ps: Seq<(Seq<char>, Seq<char>)>) -> bool {
    &&& forall|i: int|
        0 <= i < ps.len() ==> record_fits(false, encode_utf8((#[trigger] ps[i]).0), encode_utf8(ps[i].1))
    &&& len + puts_size(ps) <= usize::MAX
}

/// The reply to a `PUT` of `n` pairs.
pub open spec fn inserted_message(n: nat) -> Seq<char> {
    "Inserted "@ + decimal(n) + " key-value pairs"@
}

/// How the shell shows a value: as text where it is UTF-8, else in hexadecimal.
pub open spec fn value_text(v: Seq<u8>) -> Seq<char> {
    if valid_utf8(v) {
        decode_utf8(v)
    } else {
        "<BINARY DATA: "@ + hex_bytes(v) + ">"@
    }
}

/// The shell's reply to a `GET`.
pub open spec fn get_reply(found: Option<Seq<u8>>) -> Seq<char> {
    match found {
        Some(v) => value_text(v),
        None => "Key not found"@,
    }
}

/// The reply to an `IDENTIFIER SET`.
pub open spec fn identifier_set_message(id: Seq<char>) -> Seq<char> {
    "Identifier set to '"@ + id + "'"@
}

/// The records that storing the pairs appends, in order.
pub open spec fn puts_records(ps: Seq<(Seq<char>, Seq<char>)>) -> Seq<u8>
    decreases ps.len(),
{
    if ps.len() == 0 {
        Seq::empty()
    } else {
        puts_records(ps.drop_last()) + encode_record(
            false,
            encode_utf8(ps.last().0),
            encode_utf8(ps.last().1),
        )
    }
}

/// Storing the pairs stopped at pair `j`: the pairs before it are applied
/// and their records appended, pair `j` was refused with `e` (an invalid
/// pair, else a full log), and no later pair was tried.
pub open spec fn puts_stopped_at(
    before: Store,
    after: Store,
    ps: Seq<(Seq<char>, Seq<char>)>,
    j: int,
    e: ShellError,
) -> bool {
    &&& 0 <= j < ps.len()
    &&& after@ == apply_puts(before@, ps.subrange(0, j))
    &&& after.image() == before.image() + puts_records(ps.subrange(0, j))
    &&& puts_fit(before.image().len() as int, ps.subrange(0, j))
    &&& if record_fits(false, encode_utf8(ps[j].0), encode_utf8(ps[j].1)) {
        e == ShellError::Store(KvError::StorageFull) && before.image().len() + puts_size(
            ps.subrange(0, j + 1),
        ) > usize::MAX
    } else {
        e == ShellError::Store(KvError::InvalidArgument)
    }
}

/// What storing the pairs did: all of them, one record each appended in
/// order, and the count as reply; or, at the first pair the store refuses,
/// the pairs before it and that pair's error. It succeeds exactly when all
/// of them fit.
pub open spec fn puts_done(
    before: Store,
    after: Store,
    ps: Seq<(Seq<char>, Seq<char>)>,
    r: Result<String, ShellError>,
) -> bool {
    &&& after.wf()
    &&& after.identifier_view() == before.identifier_view()
    &&& match r {
        Ok(msg) => {
            &&& after@ == apply_puts(before@, ps)
            &&& after.image() == before.image() + puts_records(ps)
            &&& msg@ == inserted_message(ps.len())
        },
        Err(e) => exists|j: int| #[trigger] puts_stopped_at(before, after, ps, j, e),
    }
    &&& r is Ok <==> puts_fit(before.image().len() as int, ps)
}

/// What deleting through the shell did: a key that is live is removed by
/// appending a tombstone, and reported; another is reported missing. It
/// fails only where the log cannot grow by the tombstone.
pub open spec fn delete_done(
    before: Store,
    after: Store,
    key: Seq<u8>,
    r: Result<String, ShellError>,
) -> bool {
    &&& after.wf()
    &&& after.identifier_view() == before.identifier_view()
    &&& if before@.contains_key(key) {
        &&& r is Err <==> before.image().len() + RECORD_OVERHEAD + key.len() > usize::MAX
        &&& match r {
            Ok(msg) => {
                &&& msg@ == "Key deleted"@
                &&& after@ == before@.remove(key)
                &&& after.image() == before.image() + encode_record(true, key, Seq::empty())
            },
            Err(e) => e == ShellError::Store(KvError::StorageFull) && after == before,
        }
    } else {
        r matches Ok(msg) && msg@ == "Key not found"@ && after == before
    }
}

/// What setting the identifier through the shell did: the header is
/// rewritten, the records stay.
pub open spec fn identifier_set_done(
    before: Store,
    after: Store,
    id: Seq<char>,
    r: Result<String, ShellError>,
) -> bool {
    &&& after.wf()
    &&& after@ == before@
    &&& if valid_identifier(id) {
        &&& r matches Ok(msg) && msg@ == identifier_set_message(id)
        &&& after.identifier_view() == id
        &&& after.image() == encode_header(id) + before.image().subrange(
            HEADER_LEN as int,
            before.image().len() as int,
        )
    } else {
        r matches Err(e) && e == ShellError::Store(KvError::InvalidArgument) && after == before
    }
}

/// What a command did to the open store, and its reply. `c` is the
/// trimmed command; the first grammar it matches, in the order `PUT`, `GET`,
/// `DEL`, `IDENTIFIER GET`, `IDENTIFIER SET`, `COMPACT`, decides.
pub open spec fn command_done(
    before: Option<Store>,
    after: Option<Store>,
    c: Seq<char>,
    r: Result<String, ShellError>,
) -> bool {
    if c.len() > 0 && c[0] == '.' {
        (r matches Err(e) && e is MetaCommand) && after == before
    } else {
        match before {
            None => (r matches Err(e) && e is NoDatabase) && after is None,
            Some(b) => after matches Some(a) && if put_spec(c) is Some {
                puts_done(b, a, put_spec(c)->0, r)
            } else if get_spec(c) is Some {
                a == b && (r matches Ok(msg) && msg@ == get_reply(
                    lookup(b@, encode_utf8(get_spec(c)->0)),
                ))
            } else if delete_spec(c) is Some {
                delete_done(b, a, encode_utf8(delete_spec(c)->0), r)
            } else if identifier_get_spec(c) {
                a == b && (r matches Ok(msg) && msg@ == b.identifier_view())
            } else if identifier_set_spec(c) is Some {
                identifier_set_done(b, a, identifier_set_spec(c)->0, r)
            } else if compact_spec(c) {
                compacted(b, a, r)
            } else {
                a == b && (r matches Err(ShellError::UnknownCommand(t)) && t@ == c)
            },
        }
    }
}

/// What compacting through the shell did: the file holds the header and
/// then one record per live key with its value, and no more than before.
pub open spec fn compacted(before: Store, after: Store, r: Result<String, ShellError>) -> bool {
    &&& after.wf()
    &&& after@ == before@
    &&& after.identifier_view() == before.identifier_view()
    &&& exists|keys: Seq<Seq<u8>>|
        {
            &&& keys.no_duplicates()
            &&& forall|k: Seq<u8>| #[trigger] before@.contains_key(k) <==> keys.contains(k)
            &&& after.image() == encode_header(before.identifier_view()) + records_of(keys, before@)
        }
    &&& after.image().len() <= before.image().len()
    &&& r matches Ok(msg) && msg@ == "Database compacted"@
}

/// The last component of a path, as `Path::file_name` finds it.
pub uninterp spec fn file_name_of(path: Seq<char>) -> Option<Seq<char>>;

/// Relies on `std::path::Path::file_name`: the last component of the path,
/// `None` for a path that ends in `..` or is a root; the result depends on
/// the path alone.
#[verifier::external_body]
fn file_name(path: &str) -> (r: Option<String>)
    ensures
        match r {
            Some(n) => file_name_of(path@) == Some(n@),
            None => file_name_of(path@) is None,
        },
{
    match std::path::Path::new(path).file_name() {
        Some(n) => n.to_str().map(String::from),
        None => None,
    }
}

/// The prompt shown before a command.
pub open spec fn prompt_text(path: Option<Seq<char>>) -> Seq<char> {
    match path {
        Some(p) => "\n"@ + match file_name_of(p) {
            Some(n) => n,
            None => p,
        } + " > "@,
        None => "\nKVStore > "@,
    }
}

/// How the shell shows a value.
fn value_string(v: Vec<u8>) -> (r: String)
    ensures
        r@ == value_text(v@),
{
    let copy = copy_range(v.as_slice(), 0, v.len());
    assert(copy@ =~= v@);
    match string_from_utf8(copy) {
        Some(s) => s,
        None => {
            let mut s = String::from_str("<BINARY DATA: ");
            push_hex_bytes(&mut s, v.as_slice());
            s.append(">");
            s
        },
    }
}

/// A shell session: at most one open store, and the path it was opened from.
pub struct Shell {
    store: Option<Store>,
    current_path: Option<String>,
}

impl Shell {
    /// The open store.
    pub closed spec fn store(&self) -> Option<Store> {
        self.store
    }

    /// The path of the open store.
    pub closed spec fn path(&self) -> Option<Seq<char>> {
        match self.current_path {
            Some(p) => Some(p@),
            None => None,
        }
    }

    /// The open store, if any, is well formed.
    pub open spec fn wf(&self) -> bool {
        self.store() matches Some(s) ==> s.wf()
    }

    /// A session with no store open.
    pub fn new() -> (s: Shell)
        ensures
            s.store() is None,
            s.path() is None,
    {
        Shell { store: None, current_path: None }
    }

    /// Makes `store`, opened from `path`, the session's store.
    pub fn attach(&mut self, path: String, store: Store)
        ensures
            final(self).store() == Some(store),
            final(self).path() == Some(path@),
    {
        self.store = Some(store);
        self.current_path = Some(path);
    }

    /// The open store, for the host to persist what a command changed.
    pub fn open_store(&self) -> (r: Option<&Store>)
        ensures
            match r {
                Some(s) => self.store() == Some(*s),
                None => self.store() is None,
            },
    {
        self.store.as_ref()
    }

    /// Takes the open store out of the session, leaving none open.
    pub fn detach(&mut self) -> (r: Option<Store>)
        ensures
            r == old(self).store(),
            final(self).store() is None,
            final(self).path() is None,
    {
        self.current_path = None;
        self.store.take()
    }

    /// Stores each pair, in order; replies with the count.
    pub fn handle_put_command(&mut self, kvs: Vec<(String, String)>) -> (r: Result<String, ShellError>)
        requires
            old(self).wf(),
        ensures
            final(self).wf(),
            final(self).path() == old(self).path(),
            match old(self).store() {
                None => r matches Err(e) && e == ShellError::NoDatabase && final(self).store() is None,
                Some(before) => final(self).store() matches Some(after) && puts_done(
                    before,
                    after,
                    pairs_view(kvs@),
                    r,
                ),
            },
    {
        let mut store = match self.store.take() {
            Some(s) => s,
            None => return Err(ShellError::NoDatabase),
        };
        let r = put_all(&mut store, kvs);
        self.store = Some(store);
        r
    }
}

/// Stores each pair, in order, keys and values as UTF-8; replies with the
/// count. Stops at the first pair the store refuses.
pub fn put_all(store: &mut Store, kvs: Vec<(String, String)>) -> (r: Result<String, ShellError>)
    requires
        old(store).wf(),
    ensures
        puts_done(*old(store), *final(store), pairs_view(kvs@), r),
{
    let ghost before = *store;
    let ghost ps = pairs_view(kvs@);
    let n = kvs.len();
    let mut i: usize = 0;
    let start_len = store.log().len();
    proof {
        assert(start_len == before.image().len());
        assert(ps.subrange(0, 0) =~= Seq::<(Seq<char>, Seq<char>)>::empty());
        assert(before.image() + Seq::<u8>::empty() =~= before.image());
    }
    while i < n
        invariant
            n == kvs@.len(),
            ps == pairs_view(kvs@),
            i <= n,
            *old(store) == before,
            store.wf(),
            store.identifier_view() == before.identifier_view(),
            store@ == apply_puts(before@, ps.subrange(0, i as int)),
            store.image() == before.image() + puts_records(ps.subrange(0, i as int)),
            store.image().len() == before.image().len() + puts_size(ps.subrange(0, i as int)),
            before.image().len() + puts_size(ps.subrange(0, i as int)) <= usize::MAX,
            forall|k: int|
                0 <= k < i ==> record_fits(
                    false,
                    encode_utf8((#[trigger] ps[k]).0),
                    encode_utf8(ps[k].1),
                ),
        decreases n - i,
    {
        let ghost sub = ps.subrange(0, i + 1);
        proof {
            assert(sub.drop_last() =~= ps.subrange(0, i as int));
            assert(sub.last() == ps[i as int]);
            assert(ps[i as int].0 == kvs@[i as int].0@);
            assert(ps[i as int].1 == kvs@[i as int].1@);
        }
        let key = kvs[i].0.as_str().as_bytes();
        let value = kvs[i].1.as_str().as_bytes();
        let ghost mid = *store;
        match store.put(key, value) {
            Ok(()) => {
                proof {
                    assert(store.image() =~= before.image() + puts_records(sub));
                }
            },
            Err(e) => {
                proof {
                    let j = i as int;
                    let pre = ps.subrange(0, j);
                    assert forall|k: int| 0 <= k < pre.len() implies record_fits(
                        false,
                        encode_utf8((#[trigger] pre[k]).0),
                        encode_utf8(pre[k].1),
                    ) by {
                        assert(pre[k] == ps[k]);
                    }
                    assert(puts_fit(before.image().len() as int, pre));
                    assert(puts_stopped_at(before, *store, ps, j, ShellError::Store(e)));
                    if puts_fit(before.image().len() as int, ps) {
                        lemma_puts_size_prefix(ps, j + 1);
                        assert(record_fits(false, encode_utf8(ps[j].0), encode_utf8(ps[j].1)));
                        assert(false);
                    }
                }
                return Err(ShellError::Store(e));
            },
        }
        i = i + 1;
    }
    proof {
        assert(ps.subrange(0, n as int) =~= ps);
        assert forall|k: int| 0 <= k < ps.len() implies record_fits(
            false,
            encode_utf8((#[trigger] ps[k]).0),
            encode_utf8(ps[k].1),
        ) by {}
    }
    let mut msg = String::from_str("Inserted ");
    push_decimal(&mut msg, n as u64);
    msg.append(" key-value pairs");
    Ok(msg)
}

impl Shell {
    /// Reads `key` and replies with its value, or that it is missing.
    pub fn handle_get_command(&mut self, key: String) -> (r: Result<String, ShellError>)
        requires
            old(self).wf(),
        ensures
            *final(self) == *old(self),
            match old(self).store() {
                None => r matches Err(e) && e is NoDatabase,
                Some(s) => r matches Ok(msg) && msg@ == get_reply(lookup(s@, encode_utf8(key@))),
            },
    {
        let store = match self.store.as_ref() {
            Some(s) => s,
            None => return Err(ShellError::NoDatabase),
        };
        match store.get(key.as_str().as_bytes()) {
            Ok(Some(v)) => Ok(value_string(v)),
            Ok(None) => Ok(String::from_str("Key not found")),
            Err(e) => Err(ShellError::Store(e)),
        }
    }

    /// Deletes `key` where it is live; replies whether it was.
    pub fn handle_delete_command(&mut self, key: String) -> (r: Result<String, ShellError>)
        requires
            old(self).wf(),
        ensures
            final(self).wf(),
            final(self).path() == old(self).path(),
            match old(self).store() {
                None => r matches Err(e) && e is NoDatabase && final(self).store() is None,
                Some(before) => final(self).store() matches Some(after) && delete_done(
                    before,
                    after,
                    encode_utf8(key@),
                    r,
                ),
            },
    {
        let mut store = match self.store.take() {
            Some(s) => s,
            None => return Err(ShellError::NoDatabase),
        };
        let k = key.as_str().as_bytes();
        let r = match store.get(k) {
            Ok(Some(_)) => match store.delete(k) {
                Ok(()) => Ok(String::from_str("Key deleted")),
                Err(e) => Err(ShellError::Store(e)),
            },
            Ok(None) => Ok(String::from_str("Key not found")),
            Err(e) => Err(ShellError::Store(e)),
        };
        self.store = Some(store);
        r
    }

    /// Replies with the identifier.
    pub fn handle_identifier_get(&self) -> (r: Result<String, ShellError>)
        ensures
            match self.store() {
                None => r matches Err(e) && e is NoDatabase,
                Some(s) => r matches Ok(msg) && msg@ == s.identifier_view(),
            },
    {
        match self.store.as_ref() {
            Some(s) => Ok(s.get_identifier().to_owned()),
            None => Err(ShellError::NoDatabase),
        }
    }

    /// Sets the identifier; replies with it.
    pub fn handle_identifier_set(&mut self, new_id: String) -> (r: Result<String, ShellError>)
        requires
            old(self).wf(),
        ensures
            final(self).wf(),
            final(self).path() == old(self).path(),
            match old(self).store() {
                None => r matches Err(e) && e is NoDatabase && final(self).store() is None,
                Some(before) => final(self).store() matches Some(after) && identifier_set_done(
                    before,
                    after,
                    new_id@,
                    r,
                ),
            },
    {
        let mut store = match self.store.take() {
            Some(s) => s,
            None => return Err(ShellError::NoDatabase),
        };
        let r = match store.set_identifier(new_id.as_str()) {
            Ok(()) => {
                let mut msg = String::from_str("Identifier set to '");
                msg.append(new_id.as_str());
                msg.append("'");
                Ok(msg)
            },
            Err(e) => Err(ShellError::Store(e)),
        };
        self.store = Some(store);
        r
    }

    /// Compacts the store.
    pub fn handle_compact(&mut self) -> (r: Result<String, ShellError>)
        requires
            old(self).wf(),
        ensures
            final(self).wf(),
            final(self).path() == old(self).path(),
            match old(self).store() {
                None => r matches Err(e) && e is NoDatabase && final(self).store() is None,
                Some(before) => final(self).store() matches Some(after) && compacted(before, after, r),
            },
    {
        let mut store = match self.store.take() {
            Some(s) => s,
            None => return Err(ShellError::NoDatabase),
        };
        store.compact();
        self.store = Some(store);
        Ok(String::from_str("Database compacted"))
    }

    /// Runs one command on the open store. Commands that begin with `.` are
    /// left to the host, which fails them here with `MetaCommand`.
    pub fn execute_command(&mut self, command: &str) -> (r: Result<String, ShellError>)
        requires
            old(self).wf(),
        ensures
            final(self).wf(),
            final(self).path() == old(self).path(),
            command_done(old(self).store(), final(self).store(), trim(command@), r),
    {
        let c = trim_command(command);
        let cmd = c.as_str();
        if c.unicode_len() > 0 && cmd.get_char(0) == '.' {
            return Err(ShellError::MetaCommand);
        }
        if self.store.is_none() {
            return Err(ShellError::NoDatabase);
        }
        if let Ok(kvs) = parse_put_command(cmd) {
            return self.handle_put_command(kvs);
        }
        if let Ok(key) = parse_get_command(cmd) {
            return self.handle_get_command(key);
        }
        if let Ok(key) = parse_delete_command(cmd) {
            return self.handle_delete_command(key);
        }
        if let Ok(()) = parse_identifier_get(cmd) {
            return self.handle_identifier_get();
        }
        if let Ok(id) = parse_identifier_set(cmd) {
            return self.handle_identifier_set(id);
        }
        if let Ok(()) = parse_compact(cmd) {
            return self.handle_compact();
        }
        Err(ShellError::UnknownCommand(c))
    }

    /// The prompt: the file name of the open store, or `KVStore`.
    pub fn get_prompt(&self) -> (r: String)
        ensures
            r@ == prompt_text(self.path()),
    {
        proof {
            reveal_strlit("\n");
            reveal_strlit(" > ");
            reveal_strlit("\nKVStore > ");
        }
        match &self.current_path {
            Some(path) => {
                let mut s = String::from_str("\n");
                match file_name(path.as_str()) {
                    Some(n) => s.append(n.as_str()),
                    None => s.append(path.as_str()),
                }
                s.append(" > ");
                s
            },
            None => String::from_str("\nKVStore > "),
        }
    }
}

/// The records of a prefix of the pairs take no more than all of them.
proof fn lemma_puts_size_prefix(ps: Seq<(Seq<char>, Seq<char>)>, i: int)
    requires
        0 <= i <= ps.len(),
    ensures
        puts_size(ps.subrange(0, i)) <= puts_size(ps),
    decreases ps.len() - i,
{
    if i < ps.len() {
        lemma_puts_size_prefix(ps, i + 1);
        assert(ps.subrange(0, i + 1).drop_last() =~= ps.subrange(0, i));
    } else {
        assert(ps.subrange(0, i) =~= ps);
    }
}

} // verus!
