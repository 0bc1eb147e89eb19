//! The command path of the HTTP service: one command run on a store, and
//! the split of a request body into commands.
use vstd::prelude::*;
use vstd::string::*;
use vstd::utf8::*;

use crate::command::{
    chars_of, compact_spec, delete_spec, get_spec, identifier_get_spec, identifier_set_spec,
    parse_compact, parse_delete_command, parse_get_command, parse_identifier_get,
    parse_identifier_set, parse_put_command, put_spec, text_between, trim, trim_command,
};
use crate::codec::{encode_record, RECORD_OVERHEAD};
use crate::error::KvError;
use crate::shell::{
    compacted, identifier_set_done, identifier_set_message, put_all, puts_done, ShellError,
};
use crate::store::{lookup, Store};
use crate::text::string_from_utf8;

verus! {

/// How the service shows a value: as text where it is UTF-8, else `<BINARY>`.
pub open spec fn api_value_text(v: Seq<u8>) -> Seq<char> {
    if valid_utf8(v) {
        decode_utf8(v)
    } else {
        "<BINARY>"@
    }
}

/// The service's reply to a `GET`.
pub open spec fn api_get_reply(found: Option<Seq<u8>>) -> Seq<char> {
    match found {
        Some(v) => api_value_text(v),
        None => "Key not found"@,
    }
}

/// What one command did to the store, and its reply. `c` is the trimmed
/// command; the first grammar it matches, in the order `PUT`, `GET`, `DEL`,
/// `COMPACT`, `IDENTIFIER GET`, `IDENTIFIER SET`, decides.
pub open spec fn api_done(b: Store, a: Store, c: Seq<char>, r: Result<String, ShellError>) -> bool {
    &&& a.wf()
    &&& if put_spec(c) is Some {
        puts_done(b, a, put_spec(c)->0, r)
    } else if get_spec(c) is Some {
        a == b && (r matches Ok(msg) && msg@ == api_get_reply(lookup(b@, encode_utf8(get_spec(c)->0))))
    } else if delete_spec(c) is Some {
        let k = encode_utf8(delete_spec(c)->0);
        &&& a.identifier_view() == b.identifier_view()
        &&& r is Err <==> b@.contains_key(k) && b.image().len() + RECORD_OVERHEAD + k.len() > usize::MAX
        &&& match r {
            Ok(msg) => {
                &&& msg@ == "Key deleted"@
                &&& a@ == b@.remove(k)
                &&& a.image() == if b@.contains_key(k) {
                    b.image() + encode_record(true, k, Seq::empty())
                } else {
                    b.image()
                }
            },
            Err(e) => e == ShellError::Store(KvError::StorageFull) && a == b,
        }
    } else if compact_spec(c) {
        compacted(b, a, r)
    } else if identifier_get_spec(c) {
        a == b && (r matches Ok(msg) && msg@ == b.identifier_view())
    } else if identifier_set_spec(c) is Some {
        identifier_set_done(b, a, identifier_set_spec(c)->0, r)
    } else {
        a == b && (r matches Err(e) && e is Unrecognized)
    }
}

/// How the service shows a value.
pub fn api_value_string(v: Vec<u8>) -> (r: String)
    ensures
        r@ == api_value_text(v@),
{
    match string_from_utf8(v) {
        Some(s) => s,
        None => String::from_str("<BINARY>"),
    }
}

/// Runs one command of a request body on `store`.
pub fn parse_and_execute(command: &str, store: &mut Store) -> (r: Result<String, ShellError>)
    requires
        old(store).wf(),
    ensures
        api_done(*old(store), *final(store), trim(command@), r),
{
    let c = trim_command(command);
    let cmd = c.as_str();
    if let Ok(kvs) = parse_put_command(cmd) {
        return put_all(store, kvs);
    }
    if let Ok(key) = parse_get_command(cmd) {
        return match store.get(key.as_str().as_bytes()) {
            Ok(Some(v)) => Ok(api_value_string(v)),
            Ok(None) => Ok(String::from_str("Key not found")),
            Err(e) => Err(ShellError::Store(e)),
        };
    }
    if let Ok(key) = parse_delete_command(cmd) {
        return match store.delete(key.as_str().as_bytes()) {
            Ok(()) => Ok(String::from_str("Key deleted")),
            Err(e) => Err(ShellError::Store(e)),
        };
    }
    if let Ok(()) = parse_compact(cmd) {
        store.compact();
        return Ok(String::from_str("Database compacted"));
    }
    if let Ok(()) = parse_identifier_get(cmd) {
        return Ok(store.get_identifier().to_owned());
    }
    if let Ok(id) = parse_identifier_set(cmd) {
        return match store.set_identifier(id.as_str()) {
            Ok(()) => {
                let mut msg = String::from_str("Identifier set to '");
                msg.append(id.as_str());
                msg.append("'");
                Ok(msg)
            },
            Err(e) => Err(ShellError::Store(e)),
        };
    }
    Err(ShellError::Unrecognized)
}

/// The first position from `i` on that holds `;` (or the end).
pub open spec fn semicolon_at(s: Seq<char>, i: int) -> int
    decreases s.len() - i,
{
    if 0 <= i < s.len() && s[i] != ';' {
        semicolon_at(s, i + 1)
    } else {
        i
    }
}

/// A piece between semicolons that carries no command: empty or one space.
pub open spec fn is_blank_piece(p: Seq<char>) -> bool {
    p.len() == 0 || p == seq![' ']
}

/// The pieces of `s` from `i` on, split at each `;`, blank ones left out.
pub open spec fn commands_from(s: Seq<char>, i: int) -> Seq<Seq<char>>
    decreases s.len() - i,
{
    if i < 0 || i > s.len() {
        Seq::empty()
    } else {
        let e = semicolon_at(s, i);
        let piece = s.subrange(i, if e <= s.len() { e } else { s.len() as int });
        let rest = if i <= e < s.len() {
            commands_from(s, e + 1)
        } else {
            Seq::empty()
        };
        if is_blank_piece(piece) {
            rest
        } else {
            seq![piece] + rest
        }
    }
}

/// The views of a list of strings.
pub open spec fn strings_view(v: Seq<String>) -> Seq<Seq<char>> {
    v.map_values(|t: String| t@)
}

/// Splits a request body at each `;`, leaving out pieces that are empty or
/// a single space.
pub fn split_commands(body: &str) -> (r: Vec<String>)
    ensures
        strings_view(r@) == commands_from(body@, 0),
{
    let cs = chars_of(body);
    let n = cs.len();
    let ghost s = cs@;
    let mut out: Vec<String> = Vec::new();
    let mut i: usize = 0;
    loop
        invariant
            cs@ == body@,
            s == cs@,
            n == s.len(),
            i <= n,
            commands_from(s, 0) == strings_view(out@) + commands_from(s, i as int),
        decreases n - i,
    {
        let mut e = i;
        while e < n && cs[e] != ';'
            invariant
                i <= e <= n,
                n == s.len(),
                s == cs@,
                semicolon_at(s, i as int) == semicolon_at(s, e as int),
            decreases n - e,
        {
            e = e + 1;
        }
        let ghost before = out@;
        let piece = text_between(body, &cs, i, e);
        let blank = e == i || (e == i + 1 && cs[i] == ' ');
        proof {
            assert(blank == is_blank_piece(piece@)) by {
                assert(piece@.len() == e - i);
                if e == i + 1 {
                    assert(piece@[0] == cs@[i as int]);
                    if cs@[i as int] == ' ' {
                        assert(piece@ =~= seq![' ']);
                    } else {
                        assert(piece@[0] != seq![' '][0]);
                    }
                } else if e > i + 1 {
                    assert(piece@.len() != seq![' '].len());
                }
            }
        }
        if !blank {
            out.push(piece);
            assert(strings_view(out@) =~= strings_view(before) + seq![piece@]);
        }
        if e == n {
            proof {
                assert(commands_from(s, e as int + 1) == Seq::<Seq<char>>::empty());
                assert(strings_view(out@) + Seq::<Seq<char>>::empty() =~= strings_view(out@));
                if !blank {
                    assert(strings_view(before) + (seq![piece@] + Seq::<Seq<char>>::empty())
                        =~= strings_view(out@));
                } else {
                    assert(strings_view(before) + Seq::<Seq<char>>::empty() =~= strings_view(before));
                }
            }
            return out;
        }
        proof {
            if !blank {
                assert(strings_view(before) + (seq![piece@] + commands_from(s, e + 1))
                    =~= strings_view(out@) + commands_from(s, e + 1));
            }
        }
        i = e + 1;
    }
}


/// Seconds a session may stay idle before it is dropped.
pub const SESSION_IDLE_LIMIT_SECS: u64 = 1800;

/// Whether a session idle for `idle_secs` seconds is kept.
pub fn session_is_live(idle_secs: u64) -> (r: bool)
    ensures
        r == (idle_secs < SESSION_IDLE_LIMIT_SECS),
{
    idle_secs < SESSION_IDLE_LIMIT_SECS
}

} // verus!
