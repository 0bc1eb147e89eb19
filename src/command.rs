//! The text command language of the shell and of the HTTP `execute`
//! endpoint: `PUT "k":"v"[,"k":"v"...]`, `GET WHERE KEY="k"`,
//! `DEL WHERE KEY="k"`, `IDENTIFIER GET`, `IDENTIFIER SET "id"`, `COMPACT`.
//!
//! A command matches when some suffix of it has the form of its grammar;
//! the leftmost such suffix gives the result. Whitespace is Unicode
//! `White_Space`; quoted text is one or more characters other than `"`.
use vstd::prelude::*;
use vstd::string::*;

verus! {

/// Unicode `White_Space`.
pub open spec fn is_ws(c: char) -> bool {
    ('\u{9}' <= c && c <= '\u{d}') || c == ' ' || c == '\u{85}' || c == '\u{a0}' || c
        == '\u{1680}' || ('\u{2000}' <= c && c <= '\u{200a}') || c == '\u{2028}' || c == '\u{2029}'
        || c == '\u{202f}' || c == '\u{205f}' || c == '\u{3000}'
}

/// The first position from `i` on that holds no whitespace (or the end).
pub open spec fn skip_ws(s: Seq<char>, i: int) -> int
    decreases s.len() - i,
{
    if 0 <= i < s.len() && is_ws(s[i]) {
        skip_ws(s, i + 1)
    } else {
        i
    }
}

/// The first position from `i` on that holds a quote (or the end).
pub open spec fn quote_end(s: Seq<char>, i: int) -> int
    decreases s.len() - i,
{
    if 0 <= i < s.len() && s[i] != '"' {
        quote_end(s, i + 1)
    } else {
        i
    }
}

/// `s` holds the word `w` at position `i`.
pub open spec fn has_word(s: Seq<char>, i: int, w: Seq<char>) -> bool {
    0 <= i && i + w.len() <= s.len() && s.subrange(i, i + w.len()) == w
}

/// Quoted text at `i`: the text and the position after the closing quote.
pub open spec fn quoted_at(s: Seq<char>, i: int) -> Option<(Seq<char>, int)> {
    if 0 <= i < s.len() && s[i] == '"' {
        let e = quote_end(s, i + 1);
        if e > i + 1 && e < s.len() {
            Some((s.subrange(i + 1, e), e + 1))
        } else {
            None
        }
    } else {
        None
    }
}

/// `"key":"value"` at `i`: the pair and the position after it.
pub open spec fn pair_at(s: Seq<char>, i: int) -> Option<((Seq<char>, Seq<char>), int)> {
    match quoted_at(s, i) {
        Some((k, j)) => if j < s.len() && s[j] == ':' {
            match quoted_at(s, j + 1) {
                Some((v, e)) => Some(((k, v), e)),
                None => None,
            }
        } else {
            None
        },
        None => None,
    }
}

/// From position `j` after a pair: further `, "k":"v"` pairs, then
/// whitespace to the end.
pub open spec fn more_pairs(s: Seq<char>, j: int) -> Option<Seq<(Seq<char>, Seq<char>)>>
    decreases s.len() - j,
{
    let k = skip_ws(s, j);
    if j <= k < s.len() && s[k] == ',' {
        match pair_at(s, skip_ws(s, k + 1)) {
            Some((kv, e)) => if j < e <= s.len() {
                match more_pairs(s, e) {
                    Some(rest) => Some(seq![kv] + rest),
                    None => None,
                }
            } else {
                None
            },
            None => None,
        }
    } else if k == s.len() {
        Some(Seq::empty())
    } else {
        None
    }
}

/// `PUT`, whitespace, then one or more pairs, starting exactly at `i`.
pub open spec fn put_at(s: Seq<char>, i: int) -> Option<Seq<(Seq<char>, Seq<char>)>> {
    if has_word(s, i, seq!['P', 'U', 'T']) && skip_ws(s, i + 3) > i + 3 {
        match pair_at(s, skip_ws(s, i + 3)) {
            Some((kv, e)) => match more_pairs(s, e) {
                Some(rest) => Some(seq![kv] + rest),
                None => None,
            },
            None => None,
        }
    } else {
        None
    }
}

/// `verb`, whitespace, `WHERE`, whitespace, `KEY`, `=` with optional
/// whitespace around it, quoted key, whitespace to the end; exactly at `i`.
pub open spec fn keyed_at(s: Seq<char>, i: int, verb: Seq<char>) -> Option<Seq<char>> {
    let a = i + verb.len();
    let b = skip_ws(s, a);
    let c = skip_ws(s, b + 5);
    let d = skip_ws(s, c + 3);
    let e = skip_ws(s, d + 1);
    if has_word(s, i, verb) && b > a && has_word(s, b, seq!['W', 'H', 'E', 'R', 'E']) && c > b + 5
        && has_word(s, c, seq!['K', 'E', 'Y']) && d < s.len() && s[d] == '=' {
        match quoted_at(s, e) {
            Some((key, f)) => if skip_ws(s, f) == s.len() {
                Some(key)
            } else {
                None
            },
            None => None,
        }
    } else {
        None
    }
}

/// `IDENTIFIER`, whitespace, `SET`, whitespace, quoted identifier,
/// whitespace to the end; exactly at `i`.
pub open spec fn identifier_set_at(s: Seq<char>, i: int) -> Option<Seq<char>> {
    let a = i + 10;
    let b = skip_ws(s, a);
    let c = skip_ws(s, b + 3);
    if has_word(s, i, seq!['I', 'D', 'E', 'N', 'T', 'I', 'F', 'I', 'E', 'R']) && b > a && has_word(
        s,
        b,
        seq!['S', 'E', 'T'],
    ) && c > b + 3 {
        match quoted_at(s, c) {
            Some((id, f)) => if skip_ws(s, f) == s.len() {
                Some(id)
            } else {
                None
            },
            None => None,
        }
    } else {
        None
    }
}

/// The result at the leftmost start position from `i` on where `f` matches.
pub open spec fn leftmost<T>(n: int, i: int, f: spec_fn(int) -> Option<T>) -> Option<T>
    decreases n + 1 - i,
{
    if i > n {
        None
    } else {
        match f(i) {
            Some(r) => Some(r),
            None => leftmost(n, i + 1, f),
        }
    }
}

/// What `parse_put_command` finds.
pub open spec fn put_spec(s: Seq<char>) -> Option<Seq<(Seq<char>, Seq<char>)>> {
    leftmost(s.len() as int, 0, |i: int| put_at(s, i))
}

/// What `parse_get_command` finds.
pub open spec fn get_spec(s: Seq<char>) -> Option<Seq<char>> {
    leftmost(s.len() as int, 0, |i: int| keyed_at(s, i, seq!['G', 'E', 'T']))
}

/// What `parse_delete_command` finds.
pub open spec fn delete_spec(s: Seq<char>) -> Option<Seq<char>> {
    leftmost(s.len() as int, 0, |i: int| keyed_at(s, i, seq!['D', 'E', 'L']))
}

/// What `parse_identifier_set` finds.
pub open spec fn identifier_set_spec(s: Seq<char>) -> Option<Seq<char>> {
    leftmost(s.len() as int, 0, |i: int| identifier_set_at(s, i))
}

/// Later start positions: nothing matched before `i`.
pub proof fn lemma_leftmost_skip<T>(n: int, i: int, f: spec_fn(int) -> Option<T>)
    requires
        0 <= i,
        forall|j: int| 0 <= j < i ==> #[trigger] f(j) is None,
    ensures
        leftmost(n, 0, f) == leftmost(n, i, f),
    decreases i,
{
    if i > 0 {
        lemma_leftmost_skip(n, i - 1, f);
        if i - 1 <= n {
            assert(f(i - 1) is None);
        }
    }
}

/// `s` with the whitespace at both ends removed.
pub open spec fn trim(s: Seq<char>) -> Seq<char> {
    let a = skip_ws(s, 0);
    s.subrange(a, trim_end(s, s.len() as int, a))
}

/// The end of `s[a..e]` once trailing whitespace is dropped.
pub open spec fn trim_end(s: Seq<char>, e: int, a: int) -> int
    decreases e - a,
{
    if a < e && e <= s.len() && is_ws(s[e - 1]) {
        trim_end(s, e - 1, a)
    } else {
        e
    }
}

/// `s` spells the word whose upper-case form is `upper` and lower-case
/// form is `lower`, each letter in either case.
pub open spec fn word_ignoring_case(s: Seq<char>, upper: Seq<char>, lower: Seq<char>) -> bool {
    &&& s.len() == upper.len()
    &&& forall|i: int| 0 <= i < s.len() ==> #[trigger] s[i] == upper[i] || s[i] == lower[i]
}

/// `IDENTIFIER GET` in upper case.
pub open spec fn identifier_get_upper() -> Seq<char> {
    seq!['I', 'D', 'E', 'N', 'T', 'I', 'F', 'I', 'E', 'R', ' ', 'G', 'E', 'T']
}

/// `identifier get` in lower case.
pub open spec fn identifier_get_lower() -> Seq<char> {
    seq!['i', 'd', 'e', 'n', 't', 'i', 'f', 'i', 'e', 'r', ' ', 'g', 'e', 't']
}

/// What `parse_identifier_get` accepts: the trimmed command is
/// `IDENTIFIER GET`, in any case.
pub open spec fn identifier_get_spec(s: Seq<char>) -> bool {
    word_ignoring_case(trim(s), identifier_get_upper(), identifier_get_lower())
}

/// What `parse_compact` accepts: the trimmed command is `COMPACT`, in any case.
pub open spec fn compact_spec(s: Seq<char>) -> bool {
    word_ignoring_case(
        trim(s),
        seq!['C', 'O', 'M', 'P', 'A', 'C', 'T'],
        seq!['c', 'o', 'm', 'p', 'a', 'c', 't'],
    )
}

/// The views of a list of key-value pairs.
pub open spec fn pairs_view(v: Seq<(String, String)>) -> Seq<(Seq<char>, Seq<char>)> {
    v.map_values(|p: (String, String)| (p.0@, p.1@))
}

/// Why a command did not parse.
#[derive(Clone, Copy, Debug, PartialEq, Eq, Structural)]
pub enum CommandError {
    InvalidPut,
    InvalidGet,
    InvalidDelete,
    InvalidIdentifierGet,
    InvalidIdentifierSet,
    InvalidCompact,
}

/// The description of each parse failure.
pub open spec fn command_error_text(e: CommandError) -> Seq<char> {
    match e {
        CommandError::InvalidPut => "Invalid PUT command format"@,
        CommandError::InvalidGet => "Invalid GET command format"@,
        CommandError::InvalidDelete => "Invalid DELETE command format"@,
        CommandError::InvalidIdentifierGet => "Invalid IDENTIFIER GET command"@,
        CommandError::InvalidIdentifierSet => "Invalid IDENTIFIER SET command"@,
        CommandError::InvalidCompact => "Invalid COMPACT command"@,
    }
}

impl CommandError {
    /// A human-readable description.
    pub fn message(&self) -> (r: String)
        ensures
            r@ == command_error_text(*self),
    {
        let s = match self {
            CommandError::InvalidPut => "Invalid PUT command format",
            CommandError::InvalidGet => "Invalid GET command format",
            CommandError::InvalidDelete => "Invalid DELETE command format",
            CommandError::InvalidIdentifierGet => "Invalid IDENTIFIER GET command",
            CommandError::InvalidIdentifierSet => "Invalid IDENTIFIER SET command",
            CommandError::InvalidCompact => "Invalid COMPACT command",
        };
        String::from_str(s)
    }
}

/// Whether `c` is Unicode whitespace.
pub fn is_whitespace(c: char) -> (r: bool)
    ensures
        r == is_ws(c),
{
    ('\u{9}' <= c && c <= '\u{d}') || c == ' ' || c == '\u{85}' || c == '\u{a0}' || c
        == '\u{1680}' || ('\u{2000}' <= c && c <= '\u{200a}') || c == '\u{2028}' || c == '\u{2029}'
        || c == '\u{202f}' || c == '\u{205f}' || c == '\u{3000}'
}

/// The characters of `s`.
pub fn chars_of(s: &str) -> (r: Vec<char>)
    ensures
        r@ == s@,
{
    let mut v: Vec<char> = Vec::new();
    for c in it: s.chars()
        invariant
            v@ == it.seq().subrange(0, it.index() as int),
    {
        v.push(c);
    }
    v
}


pub(crate) fn skip_ws_at(cs: &Vec<char>, i: usize) -> (r: usize)
    requires
        i <= cs@.len(),
    ensures
        r == skip_ws(cs@, i as int),
        i <= r <= cs@.len(),
{
    let mut j = i;
    while j < cs.len() && is_whitespace(cs[j])
        invariant
            i <= j <= cs@.len(),
            skip_ws(cs@, i as int) == skip_ws(cs@, j as int),
        decreases cs@.len() - j,
    {
        j = j + 1;
    }
    j
}

fn quote_end_at(cs: &Vec<char>, i: usize) -> (r: usize)
    requires
        i <= cs@.len(),
    ensures
        r == quote_end(cs@, i as int),
        i <= r <= cs@.len(),
{
    let mut j = i;
    while j < cs.len() && cs[j] != '"'
        invariant
            i <= j <= cs@.len(),
            quote_end(cs@, i as int) == quote_end(cs@, j as int),
        decreases cs@.len() - j,
    {
        j = j + 1;
    }
    j
}

fn word_at(cs: &Vec<char>, i: usize, w: &Vec<char>) -> (r: bool)
    ensures
        r == has_word(cs@, i as int, w@),
{
    if i > cs.len() || w.len() > cs.len() - i {
        return false;
    }
    let mut k: usize = 0;
    while k < w.len()
        invariant
            i + w@.len() <= cs@.len(),
            cs@.len() <= usize::MAX,
            k <= w@.len(),
            forall|m: int| 0 <= m < k ==> cs@[i + m] == #[trigger] w@[m],
        decreases w@.len() - k,
    {
        if cs[i + k] != w[k] {
            assert(cs@.subrange(i as int, i + w@.len())[k as int] != w@[k as int]);
            return false;
        }
        k = k + 1;
    }
    assert(cs@.subrange(i as int, i + w@.len()) =~= w@);
    true
}

/// Quoted text at `i`: where the text ends (it starts at `i + 1`).
fn quoted_at_exec(cs: &Vec<char>, i: usize) -> (r: Option<usize>)
    requires
        i <= cs@.len(),
    ensures
        match r {
            Some(e) => e < cs@.len() && quoted_at(cs@, i as int) == Some(
                (cs@.subrange(i + 1, e as int), e + 1),
            ),
            None => quoted_at(cs@, i as int) is None,
        },
{
    if i < cs.len() && cs[i] == '"' {
        let e = quote_end_at(cs, i + 1);
        if e > i + 1 && e < cs.len() {
            return Some(e);
        }
    }
    None
}

/// `"key":"value"` at `i`: where the key and the value end.
fn pair_at_exec(cs: &Vec<char>, i: usize) -> (r: Option<(usize, usize)>)
    requires
        i <= cs@.len(),
    ensures
        match r {
            Some((ke, ve)) => i + 1 < ke && ke + 3 < ve < cs@.len() && pair_at(cs@, i as int) == Some(
                (
                    (cs@.subrange(i + 1, ke as int), cs@.subrange(ke + 3, ve as int)),
                    ve + 1,
                ),
            ),
            None => pair_at(cs@, i as int) is None,
        },
{
    let n = cs.len();
    let ke = match quoted_at_exec(cs, i) {
        Some(e) => e,
        None => return None,
    };
    let j = ke + 1;
    if j < n && cs[j] == ':' {
        match quoted_at_exec(cs, j + 1) {
            Some(ve) => Some((ke, ve)),
            None => None,
        }
    } else {
        None
    }
}

/// The text of `command` between two character positions.
pub(crate) fn text_between(command: &str, cs: &Vec<char>, from: usize, to: usize) -> (r: String)
    requires
        cs@ == command@,
        from <= to <= cs@.len(),
    ensures
        r@ == cs@.subrange(from as int, to as int),
{
    command.substring_char(from, to).to_owned()
}

fn put_at_exec(command: &str, cs: &Vec<char>, i: usize) -> (r: Option<Vec<(String, String)>>)
    requires
        cs@ == command@,
        i <= cs@.len(),
    ensures
        match r {
            Some(v) => put_at(cs@, i as int) == Some(pairs_view(v@)),
            None => put_at(cs@, i as int) is None,
        },
{
    let n = cs.len();
    let w = vec!['P', 'U', 'T'];
    if !word_at(cs, i, &w) {
        return None;
    }
    let a = i + 3;
    let b = skip_ws_at(cs, a);
    if b <= a {
        return None;
    }
    let (ke, ve) = match pair_at_exec(cs, b) {
        Some(p) => p,
        None => return None,
    };
    let mut out: Vec<(String, String)> = Vec::new();
    out.push((text_between(command, cs, b + 1, ke), text_between(command, cs, ke + 3, ve)));
    let mut j = ve + 1;
    let ghost s = cs@;
    proof {
        assert(pairs_view(out@) =~= seq![(s.subrange(b + 1, ke as int), s.subrange(ke + 3, ve as int))]);
    }
    loop
        invariant
            cs@ == command@,
            s == cs@,
            n == cs@.len(),
            i < j <= cs@.len(),
            put_at(s, i as int) == match more_pairs(s, j as int) {
                Some(rest) => Some(pairs_view(out@) + rest),
                None => None,
            },
        decreases cs@.len() - j,
    {
        let k = skip_ws_at(cs, j);
        if k < cs.len() && cs[k] == ',' {
            let m = skip_ws_at(cs, k + 1);
            match pair_at_exec(cs, m) {
                Some((ke2, ve2)) => {
                    let ghost before = out@;
                    out.push((text_between(command, cs, m + 1, ke2), text_between(command, cs, ke2 + 3, ve2)));
                    proof {
                        let kv = (s.subrange(m + 1, ke2 as int), s.subrange(ke2 + 3, ve2 as int));
                        assert(pairs_view(out@) =~= pairs_view(before) + seq![kv]);
                        let e = ve2 + 1;
                        match more_pairs(s, e as int) {
                            Some(rest) => {
                                assert(pairs_view(out@) + rest =~= pairs_view(before) + (seq![kv]
                                    + rest));
                            },
                            None => {},
                        }
                    }
                    j = ve2 + 1;
                },
                None => return None,
            }
        } else if k == cs.len() {
            assert(pairs_view(out@) + Seq::<(Seq<char>, Seq<char>)>::empty() =~= pairs_view(out@));
            return Some(out);
        } else {
            return None;
        }
    }
}

/// Parses `PUT "k":"v"[, "k":"v" ...]` into its pairs, in order.
pub fn parse_put_command(command: &str) -> (r: Result<Vec<(String, String)>, CommandError>)
    ensures
        match r {
            Ok(v) => put_spec(command@) == Some(pairs_view(v@)),
            Err(e) => e == CommandError::InvalidPut && put_spec(command@) is None,
        },
{
    let cs = chars_of(command);
    let n = cs.len();
    let ghost f = |i: int| put_at(cs@, i);
    let mut i: usize = 0;
    loop
        invariant
            cs@ == command@,
            n == cs@.len(),
            i <= n,
            f == (|i: int| put_at(cs@, i)),
            forall|j: int| 0 <= j < i ==> #[trigger] f(j) is None,
        decreases n - i,
    {
        match put_at_exec(command, &cs, i) {
            Some(v) => {
                proof {
                    lemma_leftmost_skip(n as int, i as int, f);
                }
                return Ok(v);
            },
            None => {},
        }
        if i == n {
            proof {
                lemma_leftmost_skip(n as int, n + 1, f);
            }
            return Err(CommandError::InvalidPut);
        }
        i = i + 1;
    }
}


fn keyed_at_exec(command: &str, cs: &Vec<char>, i: usize, verb: &Vec<char>) -> (r: Option<String>)
    requires
        cs@ == command@,
        i <= cs@.len(),
    ensures
        match r {
            Some(k) => keyed_at(cs@, i as int, verb@) == Some(k@),
            None => keyed_at(cs@, i as int, verb@) is None,
        },
{
    let n = cs.len();
    if !word_at(cs, i, verb) {
        return None;
    }
    let a = i + verb.len();
    let b = skip_ws_at(cs, a);
    let wh = vec!['W', 'H', 'E', 'R', 'E'];
    if b <= a || !word_at(cs, b, &wh) {
        return None;
    }
    let c = skip_ws_at(cs, b + 5);
    let ky = vec!['K', 'E', 'Y'];
    if c <= b + 5 || !word_at(cs, c, &ky) {
        return None;
    }
    let d = skip_ws_at(cs, c + 3);
    if !(d < n && cs[d] == '=') {
        return None;
    }
    let e = skip_ws_at(cs, d + 1);
    match quoted_at_exec(cs, e) {
        Some(qe) => {
            if skip_ws_at(cs, qe + 1) == n {
                Some(text_between(command, cs, e + 1, qe))
            } else {
                None
            }
        },
        None => None,
    }
}

fn identifier_set_at_exec(command: &str, cs: &Vec<char>, i: usize) -> (r: Option<String>)
    requires
        cs@ == command@,
        i <= cs@.len(),
    ensures
        match r {
            Some(k) => identifier_set_at(cs@, i as int) == Some(k@),
            None => identifier_set_at(cs@, i as int) is None,
        },
{
    let n = cs.len();
    let w = vec!['I', 'D', 'E', 'N', 'T', 'I', 'F', 'I', 'E', 'R'];
    if !word_at(cs, i, &w) {
        return None;
    }
    let a = i + 10;
    let b = skip_ws_at(cs, a);
    let st = vec!['S', 'E', 'T'];
    if b <= a || !word_at(cs, b, &st) {
        return None;
    }
    let c = skip_ws_at(cs, b + 3);
    if c <= b + 3 {
        return None;
    }
    match quoted_at_exec(cs, c) {
        Some(qe) => {
            if skip_ws_at(cs, qe + 1) == n {
                Some(text_between(command, cs, c + 1, qe))
            } else {
                None
            }
        },
        None => None,
    }
}

/// The key of the leftmost `verb WHERE KEY="k"` suffix of `command`.
fn search_keyed(command: &str, verb: &Vec<char>) -> (r: Option<String>)
    ensures
        match r {
            Some(k) => leftmost(command@.len() as int, 0, |i: int| keyed_at(command@, i, verb@)) == Some(k@),
            None => leftmost(command@.len() as int, 0, |i: int| keyed_at(command@, i, verb@)) is None,
        },
{
    let cs = chars_of(command);
    let n = cs.len();
    let ghost f = |i: int| keyed_at(cs@, i, verb@);
    let mut i: usize = 0;
    loop
        invariant
            cs@ == command@,
            n == cs@.len(),
            i <= n,
            f == (|i: int| keyed_at(cs@, i, verb@)),
            forall|j: int| 0 <= j < i ==> #[trigger] f(j) is None,
        decreases n - i,
    {
        match keyed_at_exec(command, &cs, i, verb) {
            Some(k) => {
                proof {
                    lemma_leftmost_skip(n as int, i as int, f);
                }
                return Some(k);
            },
            None => {},
        }
        if i == n {
            proof {
                lemma_leftmost_skip(n as int, n + 1, f);
            }
            return None;
        }
        i = i + 1;
    }
}

/// Parses `GET WHERE KEY="k"` into its key.
pub fn parse_get_command(command: &str) -> (r: Result<String, CommandError>)
    ensures
        match r {
            Ok(k) => get_spec(command@) == Some(k@),
            Err(e) => e == CommandError::InvalidGet && get_spec(command@) is None,
        },
{
    let verb = vec!['G', 'E', 'T'];
    match search_keyed(command, &verb) {
        Some(k) => Ok(k),
        None => Err(CommandError::InvalidGet),
    }
}

/// Parses `DEL WHERE KEY="k"` into its key.
pub fn parse_delete_command(command: &str) -> (r: Result<String, CommandError>)
    ensures
        match r {
            Ok(k) => delete_spec(command@) == Some(k@),
            Err(e) => e == CommandError::InvalidDelete && delete_spec(command@) is None,
        },
{
    let verb = vec!['D', 'E', 'L'];
    match search_keyed(command, &verb) {
        Some(k) => Ok(k),
        None => Err(CommandError::InvalidDelete),
    }
}

/// Parses `IDENTIFIER SET "id"` into the new identifier.
pub fn parse_identifier_set(command: &str) -> (r: Result<String, CommandError>)
    ensures
        match r {
            Ok(k) => identifier_set_spec(command@) == Some(k@),
            Err(e) => e == CommandError::InvalidIdentifierSet && identifier_set_spec(command@) is None,
        },
{
    let cs = chars_of(command);
    let n = cs.len();
    let ghost f = |i: int| identifier_set_at(cs@, i);
    let mut i: usize = 0;
    loop
        invariant
            cs@ == command@,
            n == cs@.len(),
            i <= n,
            f == (|i: int| identifier_set_at(cs@, i)),
            forall|j: int| 0 <= j < i ==> #[trigger] f(j) is None,
        decreases n - i,
    {
        match identifier_set_at_exec(command, &cs, i) {
            Some(k) => {
                proof {
                    lemma_leftmost_skip(n as int, i as int, f);
                }
                return Ok(k);
            },
            None => {},
        }
        if i == n {
            proof {
                lemma_leftmost_skip(n as int, n + 1, f);
            }
            return Err(CommandError::InvalidIdentifierSet);
        }
        i = i + 1;
    }
}

/// Whether `command`, trimmed, spells `upper`/`lower` in any case.
fn trimmed_word(command: &str, upper: &Vec<char>, lower: &Vec<char>) -> (r: bool)
    requires
        upper@.len() == lower@.len(),
    ensures
        r == word_ignoring_case(trim(command@), upper@, lower@),
{
    let cs = chars_of(command);
    let a = skip_ws_at(&cs, 0);
    let mut e = cs.len();
    while e > a && is_whitespace(cs[e - 1])
        invariant
            a <= e <= cs@.len(),
            a == skip_ws(cs@, 0),
            trim_end(cs@, cs@.len() as int, a as int) == trim_end(cs@, e as int, a as int),
        decreases e,
    {
        e = e - 1;
    }
    let ghost t = cs@.subrange(a as int, e as int);
    assert(t == trim(command@));
    if e - a != upper.len() {
        return false;
    }
    let mut k: usize = 0;
    while k < upper.len()
        invariant
            e - a == upper@.len(),
            upper@.len() == lower@.len(),
            a <= e <= cs@.len(),
            t == cs@.subrange(a as int, e as int),
            t == trim(command@),
            k <= upper@.len(),
            forall|m: int| 0 <= m < k ==> #[trigger] t[m] == upper@[m] || t[m] == lower@[m],
        decreases upper@.len() - k,
    {
        let c = cs[a + k];
        if !(c == upper[k] || c == lower[k]) {
            assert(t[k as int] == c);
            return false;
        }
        k = k + 1;
    }
    true
}

/// Accepts `IDENTIFIER GET`, in any case, with whitespace around it.
pub fn parse_identifier_get(command: &str) -> (r: Result<(), CommandError>)
    ensures
        r is Ok <==> identifier_get_spec(command@),
        r is Err ==> r == Err::<(), CommandError>(CommandError::InvalidIdentifierGet),
{
    let upper = vec!['I', 'D', 'E', 'N', 'T', 'I', 'F', 'I', 'E', 'R', ' ', 'G', 'E', 'T'];
    let lower = vec!['i', 'd', 'e', 'n', 't', 'i', 'f', 'i', 'e', 'r', ' ', 'g', 'e', 't'];
    if trimmed_word(command, &upper, &lower) {
        Ok(())
    } else {
        Err(CommandError::InvalidIdentifierGet)
    }
}

/// Accepts `COMPACT`, in any case, with whitespace around it.
pub fn parse_compact(command: &str) -> (r: Result<(), CommandError>)
    ensures
        r is Ok <==> compact_spec(command@),
        r is Err ==> r == Err::<(), CommandError>(CommandError::InvalidCompact),
{
    let upper = vec!['C', 'O', 'M', 'P', 'A', 'C', 'T'];
    let lower = vec!['c', 'o', 'm', 'p', 'a', 'c', 't'];
    if trimmed_word(command, &upper, &lower) {
        Ok(())
    } else {
        Err(CommandError::InvalidCompact)
    }
}


/// `command` without the whitespace at both ends.
pub fn trim_command(command: &str) -> (r: String)
    ensures
        r@ == trim(command@),
{
    let cs = chars_of(command);
    let a = skip_ws_at(&cs, 0);
    let mut e = cs.len();
    while e > a && is_whitespace(cs[e - 1])
        invariant
            a <= e <= cs@.len(),
            a == skip_ws(cs@, 0),
            trim_end(cs@, cs@.len() as int, a as int) == trim_end(cs@, e as int, a as int),
        decreases e,
    {
        e = e - 1;
    }
    text_between(command, &cs, a, e)
}

} // verus!
