//! Append-log records, and recovery of the store from a log image.
//!
//! Every successful write is first appended to the data file as one record line and only
//! then applied in memory, so a client that receives `OK` knows its data is saved.
//!
//! Record lines (fields separated by `\t`, one record per line):
//! - `SET\t<key>\t<expiry in ms, or ->\t<value>`
//! - `DEL\t<key>`
//!
//! In keys and values the characters `\`, tab, `\n` and `\r` are escaped, so a record
//! never spans two lines.
use vstd::prelude::*;
use vstd::utf8::{decode_utf8, encode_utf8, valid_utf8};
use crate::error::{error_text, Error, ErrorView, Result};
use crate::store::{
    assoc, entry_pairs, has_key, lemma_assoc_insert, lemma_sorted_distinct, position_of, sorted_pairs,
    Entry, EntryView, KvMap, Pairs, Store,
};
use crate::text::{
    chars_of, dec, find_char, find_from, lemma_dec, lemma_find_concat, lemma_find_from,
    parse_u64, parse_uint, push_char, push_decimal, slice_chars, eq_lit, utf8_text,
};

verus! {

/// One record of the log.
#[derive(Debug, Clone, PartialEq, Eq)]
pub enum Record {
    /// A write: the key, its value and its absolute expiry time (UNIX ms), if any.
    Put { key: String, value: String, expire_at_ms: Option<u64> },
    /// A deletion of the key.
    Del { key: String },
}

/// A [`Record`] with its strings taken as character sequences.
pub enum RecordView {
    Put { key: Seq<char>, value: Seq<char>, expire_at_ms: Option<u64> },
    Del { key: Seq<char> },
}

impl View for Record {
    type V = RecordView;

    open spec fn view(&self) -> RecordView {
        match self {
            Record::Put { key, value, expire_at_ms } => RecordView::Put {
                key: key@,
                value: value@,
                expire_at_ms: *expire_at_ms,
            },
            Record::Del { key } => RecordView::Del { key: key@ },
        }
    }
}

/// The escaped form of one character.
pub open spec fn escape_char(c: char) -> Seq<char> {
    if c == '\\' {
        seq!['\\', '\\']
    } else if c == '\t' {
        seq!['\\', 't']
    } else if c == '\n' {
        seq!['\\', 'n']
    } else if c == '\r' {
        seq!['\\', 'r']
    } else {
        seq![c]
    }
}

/// `s` with `\`, tab, `\n` and `\r` escaped by a backslash.
pub open spec fn escape(s: Seq<char>) -> Seq<char>
    decreases s.len(),
{
    if s.len() == 0 {
        Seq::empty()
    } else {
        escape_char(s[0]) + escape(s.drop_first())
    }
}

/// The character an escape `\c` stands for.
pub open spec fn unescaped(c: char) -> char {
    if c == 't' {
        '\t'
    } else if c == 'n' {
        '\n'
    } else if c == 'r' {
        '\r'
    } else {
        c
    }
}

/// Whether `\c` is a valid escape.
pub open spec fn is_escape(c: char) -> bool {
    c == '\\' || c == 't' || c == 'n' || c == 'r'
}

/// Undoes the escapes of `s[i..]`; on an invalid escape, the character after the
/// backslash (none when the backslash ends the text).
pub open spec fn unescape_from(s: Seq<char>, i: int) -> core::result::Result<Seq<char>, Option<char>>
    decreases s.len() - i,
{
    if i < 0 || i >= s.len() {
        Ok(Seq::empty())
    } else if s[i] != '\\' {
        match unescape_from(s, i + 1) {
            Ok(r) => Ok(seq![s[i]] + r),
            Err(e) => Err(e),
        }
    } else if i + 1 >= s.len() {
        Err(None)
    } else if is_escape(s[i + 1]) {
        match unescape_from(s, i + 2) {
            Ok(r) => Ok(seq![unescaped(s[i + 1])] + r),
            Err(e) => Err(e),
        }
    } else {
        Err(Some(s[i + 1]))
    }
}

/// Escapes `\`, tab, `\n` and `\r` in `s`.
pub fn escape_text(s: &str) -> (r: String)
    ensures
        r@ == escape(s@),
{
    let cs = chars_of(s);
    let mut out = String::new();
    let mut i: usize = 0;
    assert(s@.subrange(0, s@.len() as int) =~= s@);
    assert(out@ + escape(s@) =~= escape(s@));
    while i < cs.len()
        invariant
            i <= cs.len(),
            cs@ == s@,
            escape(s@) == out@ + escape(s@.subrange(i as int, s@.len() as int)),
        decreases cs.len() - i,
    {
        let c = cs[i];
        let ghost pre = out@;
        let ghost rest = s@.subrange(i as int, s@.len() as int);
        assert(rest.drop_first() =~= s@.subrange(i + 1, s@.len() as int));
        if c == '\\' {
            push_char(&mut out, '\\');
            push_char(&mut out, '\\');
        } else if c == '\t' {
            push_char(&mut out, '\\');
            push_char(&mut out, 't');
        } else if c == '\n' {
            push_char(&mut out, '\\');
            push_char(&mut out, 'n');
        } else if c == '\r' {
            push_char(&mut out, '\\');
            push_char(&mut out, 'r');
        } else {
            push_char(&mut out, c);
        }
        assert(out@ =~= pre + escape_char(c));
        i = i + 1;
        assert(escape(s@) =~= out@ + escape(s@.subrange(i as int, s@.len() as int)));
    }
    assert(s@.subrange(cs.len() as int, s@.len() as int) =~= Seq::<char>::empty());
    assert(out@ + Seq::<char>::empty() =~= out@);
    out
}

/// The display text of a character (`<char as Debug>::fmt`): quoted, with escapes.
pub uninterp spec fn char_debug(c: char) -> Seq<char>;

/// `format!("{:?}", c)` for a character: its quoted, escaped display text.
#[verifier::external_body]
fn debug_char(c: char) -> (r: String)
    ensures
        r@ == char_debug(c),
{
    format!("{:?}", c)
}

/// The message for an invalid escape, from the debug text of what followed the backslash
/// (none when nothing followed it).
pub open spec fn bad_escape_text(d: Option<Seq<char>>) -> Seq<char> {
    "非法转义字符: \\"@ + match d {
        None => "None"@,
        Some(t) => "Some("@ + t + ")"@,
    }
}

/// The message for an invalid escape: the debug text of what followed the backslash.
pub open spec fn bad_escape_msg(o: Option<char>) -> Seq<char> {
    bad_escape_text(
        match o {
            None => None,
            Some(c) => Some(char_debug(c)),
        },
    )
}

/// The message for an invalid escape; see [`bad_escape_text`].
pub fn bad_escape_message(debug_text: Option<&str>) -> (r: String)
    ensures
        r@ == bad_escape_text(
            match debug_text {
                None => None,
                Some(t) => Some(t@),
            },
        ),
{
    let mut m = String::from_str("非法转义字符: \\");
    match debug_text {
        None => m.append("None"),
        Some(t) => {
            m.append("Some(");
            m.append(t);
            m.append(")");
        },
    }
    m
}

/// Undoes the escapes of `s`; see [`unescape_from`].
pub fn unescape_text(s: &[char]) -> (r: Result<String>)
    ensures
        match r {
            Ok(t) => unescape_from(s@, 0) == Ok::<Seq<char>, Option<char>>(t@),
            Err(e) => unescape_from(s@, 0) matches Err(o) && e@ == ErrorView::Corrupt(
                bad_escape_msg(o),
            ),
        },
{
    let mut out = String::new();
    let mut i: usize = 0;
    while i < s.len()
        invariant
            i <= s.len(),
            match unescape_from(s@, i as int) {
                Ok(r) => unescape_from(s@, 0) == Ok::<Seq<char>, Option<char>>(out@ + r),
                Err(e) => unescape_from(s@, 0) == Err::<Seq<char>, Option<char>>(e),
            },
        decreases s.len() - i,
    {
        let ghost pre = out@;
        let c = s[i];
        if c != '\\' {
            push_char(&mut out, c);
            proof {
                match unescape_from(s@, i + 1) {
                    Ok(r) => {
                        assert(pre + (seq![c] + r) =~= out@ + r);
                    },
                    Err(e) => {},
                }
            }
            i = i + 1;
        } else if i + 1 >= s.len() {
            return Err(Error::Corrupt(bad_escape_message(None)));
        } else {
            let n = s[i + 1];
            if n == '\\' || n == 't' || n == 'n' || n == 'r' {
                let d = if n == 't' {
                    '\t'
                } else if n == 'n' {
                    '\n'
                } else if n == 'r' {
                    '\r'
                } else {
                    n
                };
                push_char(&mut out, d);
                proof {
                    match unescape_from(s@, i + 2) {
                        Ok(r) => {
                            assert(pre + (seq![d] + r) =~= out@ + r);
                        },
                        Err(e) => {},
                    }
                }
                i = i + 2;
            } else {
                let t = debug_char(n);
                let m = bad_escape_message(Some(t.as_str()));
                assert(unescape_from(s@, i as int) == Err::<Seq<char>, Option<char>>(Some(n)));
                return Err(Error::Corrupt(m));
            }
        }
    }
    assert(out@ + Seq::<char>::empty() =~= out@);
    Ok(out)
}

} // verus!

verus! {

/// The `c`-separated fields of `s[i..]` (`str::split` by one character).
pub open spec fn fields_from(s: Seq<char>, c: char, i: int) -> Seq<Seq<char>>
    decreases s.len() - i,
{
    if i < 0 || i > s.len() {
        Seq::empty()
    } else {
        let j = find_from(s, c, i);
        proof {
            lemma_find_from(s, c, i);
        }
        if j >= s.len() {
            seq![s.subrange(i, s.len() as int)]
        } else {
            seq![s.subrange(i, j)] + fields_from(s, c, j + 1)
        }
    }
}

/// The `c`-separated fields of `s` (`str::split` by one character).
pub open spec fn split_on(s: Seq<char>, c: char) -> Seq<Seq<char>> {
    fields_from(s, c, 0)
}

/// The fields of `s` separated by `c`.
pub fn split_fields(s: &[char], c: char) -> (r: Vec<Vec<char>>)
    ensures
        r@.map_values(|f: Vec<char>| f@) == split_on(s@, c),
{
    let mut r: Vec<Vec<char>> = Vec::new();
    let mut i: usize = 0;
    loop
        invariant
            i <= s.len(),
            r@.map_values(|f: Vec<char>| f@) + fields_from(s@, c, i as int) == split_on(s@, c),
        decreases s.len() - i,
    {
        let j = find_char(s, c, i);
        proof {
            lemma_find_from(s@, c, i as int);
        }
        let ghost pre = r@.map_values(|f: Vec<char>| f@);
        let f = slice_chars(s, i, j);
        r.push(f);
        assert(r@.map_values(|f: Vec<char>| f@) =~= pre.push(f@));
        if j >= s.len() {
            assert(fields_from(s@, c, i as int) == seq![f@]);
            assert(r@.map_values(|f: Vec<char>| f@) =~= pre + seq![f@]);
            return r;
        }
        assert(fields_from(s@, c, i as int) == seq![f@] + fields_from(s@, c, j + 1));
        assert(r@.map_values(|f: Vec<char>| f@) + fields_from(s@, c, j + 1) =~= pre
            + fields_from(s@, c, i as int));
        i = j + 1;
    }
}

/// The expiry field of a record line.
pub open spec fn expiry_text(e: Option<u64>) -> Seq<char> {
    match e {
        None => "-"@,
        Some(t) => dec(t as nat),
    }
}

/// The line of a record (without the line break).
pub open spec fn encode_record(r: RecordView) -> Seq<char> {
    match r {
        RecordView::Put { key, value, expire_at_ms } => "SET\t"@ + escape(key) + "\t"@
            + expiry_text(expire_at_ms) + "\t"@ + escape(value),
        RecordView::Del { key } => "DEL\t"@ + escape(key),
    }
}

/// The expiry of a record line: `-` for none, else a `u64` number of milliseconds.
pub open spec fn decode_expiry(t: Seq<char>) -> core::result::Result<Option<u64>, Seq<char>> {
    if t == "-"@ {
        Ok(None)
    } else {
        match parse_uint(t, u64::MAX as nat) {
            Some(v) => Ok(Some(v as u64)),
            None => Err("非法的过期时间: "@ + t),
        }
    }
}

/// An unescaped field, or the message of its invalid escape.
pub open spec fn unescape_field(f: Seq<char>) -> core::result::Result<Seq<char>, Seq<char>> {
    match unescape_from(f, 0) {
        Ok(t) => Ok(t),
        Err(o) => Err(bad_escape_msg(o)),
    }
}

/// The record a line stands for, or why it stands for none. For a write, the expiry is
/// checked first, then the key, then the value.
pub open spec fn decode_record(line: Seq<char>) -> core::result::Result<RecordView, Seq<char>> {
    let parts = split_on(line, '\t');
    if parts.len() == 4 && parts[0] == "SET"@ {
        match decode_expiry(parts[2]) {
            Err(m) => Err(m),
            Ok(e) => match unescape_field(parts[1]) {
                Err(m) => Err(m),
                Ok(key) => match unescape_field(parts[3]) {
                    Err(m) => Err(m),
                    Ok(value) => Ok(RecordView::Put { key, value, expire_at_ms: e }),
                },
            },
        }
    } else if parts.len() == 2 && parts[0] == "DEL"@ {
        match unescape_field(parts[1]) {
            Err(m) => Err(m),
            Ok(key) => Ok(RecordView::Del { key }),
        }
    } else {
        Err("字段个数或类型非法: "@ + line)
    }
}

/// A result with a record taken by its view and a `Corrupt` error by its message.
pub open spec fn corrupt_result(r: Result<Record>, expected: core::result::Result<RecordView, Seq<char>>) -> bool {
    match r {
        Ok(rec) => expected == Ok::<RecordView, Seq<char>>(rec@),
        Err(e) => expected matches Err(m) && e@ == ErrorView::Corrupt(m),
    }
}

impl Record {
    /// The line of this record, without the line break; see [`encode_record`].
    pub fn encode(&self) -> (r: String)
        ensures
            r@ == encode_record(self@),
    {
        match self {
            Record::Put { key, value, expire_at_ms } => {
                let mut r = String::from_str("SET\t");
                let k = escape_text(key.as_str());
                r.append(k.as_str());
                r.append("\t");
                match expire_at_ms {
                    None => r.append("-"),
                    Some(t) => push_decimal(&mut r, *t),
                }
                r.append("\t");
                let v = escape_text(value.as_str());
                r.append(v.as_str());
                r
            },
            Record::Del { key } => {
                let mut r = String::from_str("DEL\t");
                let k = escape_text(key.as_str());
                r.append(k.as_str());
                r
            },
        }
    }

    /// Reads a record line; see [`decode_record`].
    pub fn decode(line: &str) -> (r: Result<Record>)
        ensures
            corrupt_result(r, decode_record(line@)),
    {
        let cs = chars_of(line);
        let parts = split_fields(&cs, '\t');
        let ghost ps = parts@.map_values(|f: Vec<char>| f@);
        assert(ps == split_on(line@, '\t'));
        assert(parts@.len() == ps.len());
        if parts.len() == 4 && eq_lit(&parts[0], "SET") {
            assert(ps[0] == parts@[0]@);
            assert(ps[2] == parts@[2]@);
            assert(ps[1] == parts@[1]@);
            assert(ps[3] == parts@[3]@);
            let expire_at_ms = if eq_lit(&parts[2], "-") {
                None
            } else {
                match parse_u64(&parts[2]) {
                    Some(v) => Some(v),
                    None => {
                        let mut m = String::from_str("非法的过期时间: ");
                        let t = crate::text::string_of(&parts[2]);
                        m.append(t.as_str());
                        return Err(Error::Corrupt(m));
                    },
                }
            };
            let key = match unescape_text(&parts[1]) {
                Ok(k) => k,
                Err(e) => return Err(e),
            };
            let value = match unescape_text(&parts[3]) {
                Ok(v) => v,
                Err(e) => return Err(e),
            };
            Ok(Record::Put { key, value, expire_at_ms })
        } else if parts.len() == 2 && eq_lit(&parts[0], "DEL") {
            assert(ps[0] == parts@[0]@);
            assert(ps[1] == parts@[1]@);
            match unescape_text(&parts[1]) {
                Ok(key) => Ok(Record::Del { key }),
                Err(e) => Err(e),
            }
        } else {
            if parts.len() == 4 {
                assert(ps[0] == parts@[0]@);
            }
            if parts.len() == 2 {
                assert(ps[0] == parts@[0]@);
            }
            let mut m = String::from_str("字段个数或类型非法: ");
            m.append(line);
            Err(Error::Corrupt(m))
        }
    }
}

} // verus!

verus! {

/// Escaped text holds no tab, line feed or carriage return.
pub proof fn lemma_escape_plain(s: Seq<char>)
    ensures
        !escape(s).contains('\t'),
        !escape(s).contains('\n'),
        !escape(s).contains('\r'),
    decreases s.len(),
{
    if s.len() > 0 {
        lemma_escape_plain(s.drop_first());
        let e = escape_char(s[0]);
        let r = escape(s.drop_first());
        assert forall|c: char| c == '\t' || c == '\n' || c == '\r' implies !(e + r).contains(c) by {
            if (e + r).contains(c) {
                let i = choose|i: int| 0 <= i < (e + r).len() && (e + r)[i] == c;
                if i >= e.len() {
                    assert(r[i - e.len()] == c);
                }
            }
        }
    }
}

proof fn lemma_unescape_shift(x: Seq<char>, y: Seq<char>, j: int)
    requires
        0 <= j <= y.len(),
    ensures
        unescape_from(x + y, x.len() + j) == unescape_from(y, j),
    decreases y.len() - j,
{
    let s = x + y;
    if j < y.len() {
        assert(s[x.len() + j] == y[j]);
        if j + 1 < y.len() {
            assert(s[x.len() + j + 1] == y[j + 1]);
        }
        lemma_unescape_shift(x, y, j + 1);
        if j + 2 <= y.len() {
            lemma_unescape_shift(x, y, j + 2);
        }
    }
}

/// Undoing the escapes of escaped text gives the text back.
pub proof fn lemma_unescape_escape(s: Seq<char>)
    ensures
        unescape_from(escape(s), 0) == Ok::<Seq<char>, Option<char>>(s),
    decreases s.len(),
{
    if s.len() == 0 {
        assert(escape(s) =~= Seq::<char>::empty());
        assert(s =~= Seq::<char>::empty());
    } else {
        let c = s[0];
        let e = escape_char(c);
        let rest = escape(s.drop_first());
        lemma_unescape_escape(s.drop_first());
        lemma_unescape_shift(e, rest, 0);
        let t = e + rest;
        assert(escape(s) == t);
        assert(seq![c] + s.drop_first() =~= s);
        if e.len() == 1 {
            assert(t[0] == c);
            assert(unescape_from(t, 1) == unescape_from(rest, 0));
            assert(unescape_from(t, 0) == Ok::<Seq<char>, Option<char>>(seq![c] + s.drop_first()));
        } else {
            assert(t[0] == '\\');
            assert(t[1] == e[1]);
            assert(is_escape(e[1]));
            assert(unescaped(e[1]) == c);
            assert(unescape_from(t, 2) == unescape_from(rest, 0));
            assert(unescape_from(t, 0) == Ok::<Seq<char>, Option<char>>(seq![c] + s.drop_first()));
        }
        assert(seq![c] + s.drop_first() =~= s);
    }
}

proof fn lemma_fields_shift(x: Seq<char>, y: Seq<char>, c: char, j: int)
    requires
        0 <= j <= y.len(),
    ensures
        fields_from(x + y, c, x.len() + j) == fields_from(y, c, j),
    decreases y.len() - j,
{
    let s = x + y;
    lemma_find_shift_pub(x, y, c, j);
    lemma_find_from(y, c, j);
    let k = find_from(y, c, j);
    if k >= y.len() {
        assert(s.subrange(x.len() + j, s.len() as int) =~= y.subrange(j, y.len() as int));
    } else {
        assert(s.subrange(x.len() + j, x.len() + k) =~= y.subrange(j, k));
        lemma_fields_shift(x, y, c, k + 1);
    }
}

proof fn lemma_find_shift_pub(a: Seq<char>, b: Seq<char>, c: char, j: int)
    requires
        0 <= j <= b.len(),
    ensures
        find_from(a + b, c, a.len() + j) == a.len() + find_from(b, c, j),
    decreases b.len() - j,
{
    if j < b.len() {
        assert((a + b)[a.len() + j] == b[j]);
        lemma_find_shift_pub(a, b, c, j + 1);
    }
}

/// Splitting `x`, a field without `c`, then `c`, then `y`.
pub proof fn lemma_split_cons(x: Seq<char>, c: char, y: Seq<char>)
    requires
        !x.contains(c),
    ensures
        split_on(x + seq![c] + y, c) == seq![x] + split_on(y, c),
{
    let s = x + seq![c] + y;
    assert(s =~= x + (seq![c] + y));
    lemma_find_concat(x, seq![c] + y, c);
    assert((seq![c] + y)[0] == c);
    assert(s.subrange(0, x.len() as int) =~= x);
    lemma_fields_shift(x + seq![c], y, c, 0);
}

/// Splitting a field without `c`.
pub proof fn lemma_split_single(x: Seq<char>, c: char)
    requires
        !x.contains(c),
    ensures
        split_on(x, c) == seq![x],
{
    lemma_find_concat(x, Seq::<char>::empty(), c);
    assert(x + Seq::<char>::empty() =~= x);
    assert(x.subrange(0, x.len() as int) =~= x);
}

/// Reading the line of a record gives the record back.
pub proof fn lemma_record_roundtrip(r: RecordView)
    ensures
        decode_record(encode_record(r)) == Ok::<RecordView, Seq<char>>(r),
{
    reveal_strlit("SET\t");
    reveal_strlit("DEL\t");
    reveal_strlit("SET");
    reveal_strlit("DEL");
    reveal_strlit("\t");
    reveal_strlit("-");
    match r {
        RecordView::Put { key, value, expire_at_ms } => {
            let ek = escape(key);
            let ev = escape(value);
            let x = expiry_text(expire_at_ms);
            lemma_escape_plain(key);
            lemma_escape_plain(value);
            match expire_at_ms {
                Some(t) => {
                    lemma_dec(t as nat);
                    lemma_parse_dec_u64(t);
                },
                None => {},
            }
            assert(!"SET"@.contains('\t'));
            assert(!x.contains('\t'));
            let line = encode_record(r);
            assert(line =~= "SET"@ + seq!['\t'] + (ek + seq!['\t'] + (x + seq!['\t'] + ev)));
            lemma_split_cons("SET"@, '\t', ek + seq!['\t'] + (x + seq!['\t'] + ev));
            lemma_split_cons(ek, '\t', x + seq!['\t'] + ev);
            lemma_split_cons(x, '\t', ev);
            lemma_split_single(ev, '\t');
            let parts = split_on(line, '\t');
            assert(parts =~= seq!["SET"@, ek, x, ev]);
            lemma_unescape_escape(key);
            lemma_unescape_escape(value);
            if expire_at_ms is Some {
                assert(x != "-"@) by {
                    if x == "-"@ {
                        assert(x[0] == '-');
                        assert(x.contains('-'));
                    }
                }
            }
        },
        RecordView::Del { key } => {
            let ek = escape(key);
            lemma_escape_plain(key);
            assert(!"DEL"@.contains('\t'));
            let line = encode_record(r);
            assert(line =~= "DEL"@ + seq!['\t'] + ek);
            lemma_split_cons("DEL"@, '\t', ek);
            lemma_split_single(ek, '\t');
            assert(split_on(line, '\t') =~= seq!["DEL"@, ek]);
            lemma_unescape_escape(key);
            assert("DEL"@ != "SET"@);
        },
    }
}

proof fn lemma_parse_dec_u64(t: u64)
    ensures
        parse_uint(dec(t as nat), u64::MAX as nat) == Some(t as nat),
{
    crate::text::lemma_parse_dec(t as nat, u64::MAX as nat);
}

/// The lines of `data` from the line that starts at `start`, scanning at `i`, as
/// `BufRead::lines` yields them: each line ends at a line feed, which it loses together with a
/// carriage return just before it; a last line without a line feed is kept whole.
pub open spec fn lines_from(data: Seq<u8>, start: int, i: int) -> Seq<Seq<u8>>
    decreases data.len() - i,
{
    if i >= data.len() {
        if start < data.len() {
            seq![data.subrange(start, data.len() as int)]
        } else {
            Seq::empty()
        }
    } else if data[i] == 10u8 {
        seq![strip_cr(data.subrange(start, i))] + lines_from(data, i + 1, i + 1)
    } else {
        lines_from(data, start, i + 1)
    }
}

/// A line without its final carriage return, if it has one.
pub open spec fn strip_cr(l: Seq<u8>) -> Seq<u8> {
    if l.len() > 0 && l.last() == 13u8 {
        l.drop_last()
    } else {
        l
    }
}

/// The lines of a log image.
pub open spec fn log_lines(data: Seq<u8>) -> Seq<Seq<u8>> {
    lines_from(data, 0, 0)
}

/// The number of bytes the lines account for: each with one line feed.
pub open spec fn consumed(lines: Seq<Seq<u8>>) -> int
    decreases lines.len(),
{
    if lines.len() == 0 {
        0
    } else {
        lines[0].len() + 1 + consumed(lines.drop_first())
    }
}

/// The content after applying record `r` to `m`.
pub open spec fn apply_record(m: KvMap, r: RecordView) -> KvMap {
    match r {
        RecordView::Put { key, value, expire_at_ms } => m.insert(
            key,
            EntryView { value, expire_at_ms },
        ),
        RecordView::Del { key } => m.remove(key),
    }
}

/// The start of the message about line `n`.
pub open spec fn line_label(n: nat) -> Seq<char> {
    "第 "@ + dec(n)
}

/// Applies `lines`, numbered from `n`, to `m`: empty lines are skipped; the first line that is
/// not UTF-8 or not a record ends the replay with the message of a `Corrupt` error.
pub open spec fn replay_lines(lines: Seq<Seq<u8>>, n: nat, m: KvMap) -> core::result::Result<KvMap, Seq<char>>
    decreases lines.len(),
{
    if lines.len() == 0 {
        Ok(m)
    } else {
        let l = lines[0];
        if !valid_utf8(l) {
            Err(line_label(n) + " 行读取失败: stream did not contain valid UTF-8"@)
        } else if l.len() == 0 {
            replay_lines(lines.drop_first(), n + 1, m)
        } else {
            match decode_record(decode_utf8(l)) {
                Err(msg) => Err(line_label(n) + " 行 "@ + error_text(ErrorView::Corrupt(msg))),
                Ok(r) => replay_lines(lines.drop_first(), n + 1, apply_record(m, r)),
            }
        }
    }
}

/// The message about a log whose last line lacks its line feed.
pub open spec fn truncated_msg(path: Seq<char>) -> Seq<char> {
    "文件 "@ + path + " 末尾记录不完整（可能被截断）"@
}

/// The content recovered from the log image `data` of the file `path`, or the message of the
/// `Corrupt` error that stops the recovery. Records apply in order from an empty store; a log
/// whose lines do not account for every byte was cut short.
pub open spec fn replay_log(data: Seq<u8>, path: Seq<char>) -> core::result::Result<KvMap, Seq<char>> {
    let lines = log_lines(data);
    match replay_lines(lines, 1, Map::empty()) {
        Err(msg) => Err(msg),
        Ok(m) => if consumed(lines) == data.len() {
            Ok(m)
        } else {
            Err(truncated_msg(path))
        },
    }
}

/// The position of the first line feed at or after `i`, or the end of `data`.
fn find_newline(data: &[u8], i: usize) -> (p: usize)
    requires
        i <= data.len(),
    ensures
        i <= p <= data.len(),
        forall|j: int| i <= j < p ==> data@[j] != 10u8,
        p < data.len() ==> data@[p as int] == 10u8,
{
    let mut p = i;
    while p < data.len()
        invariant
            i <= p <= data.len(),
            forall|j: int| i <= j < p ==> data@[j] != 10u8,
        decreases data.len() - p,
    {
        if data[p] == 10u8 {
            return p;
        }
        p = p + 1;
    }
    p
}

/// The bytes `data[a..b]`.
fn byte_range(data: &[u8], a: usize, b: usize) -> (r: Vec<u8>)
    requires
        a <= b <= data.len(),
    ensures
        r@ == data@.subrange(a as int, b as int),
{
    let mut r: Vec<u8> = Vec::new();
    let mut i = a;
    while i < b
        invariant
            a <= i <= b <= data.len(),
            r@ == data@.subrange(a as int, i as int),
        decreases b - i,
    {
        r.push(data[i]);
        i = i + 1;
        assert(r@ =~= data@.subrange(a as int, i as int));
    }
    r
}

/// Scanning bytes that hold no line feed leaves the lines unchanged.
proof fn lemma_lines_scan(data: Seq<u8>, start: int, i: int, p: int)
    requires
        0 <= start <= i <= p <= data.len(),
        forall|j: int| i <= j < p ==> data[j] != 10u8,
    ensures
        lines_from(data, start, i) == lines_from(data, start, p),
    decreases p - i,
{
    if i < p {
        lemma_lines_scan(data, start, i + 1, p);
    }
}

/// Applies record `rec` to `store`.
fn apply(store: &mut Store, rec: Record)
    ensures
        final(store)@ == apply_record(old(store)@, rec@),
{
    match rec {
        Record::Put { key, value, expire_at_ms } => store.set(key, value, expire_at_ms),
        Record::Del { key } => {
            store.take(key.as_str());
        },
    }
}

/// The message prefix about line `n`.
fn line_label_text(n: usize) -> (r: String)
    ensures
        r@ == line_label(n as nat),
{
    let mut r = String::from_str("第 ");
    push_decimal(&mut r, n as u64);
    r
}

/// Recovers the store from the log image `data` of the file named `path`; see
/// [`replay_log`]. A damaged or cut-short log is an error, never an empty store.
pub fn replay(data: &[u8], path: &str) -> (r: Result<Store>)
    ensures
        match r {
            Ok(s) => replay_log(data@, path@) == Ok::<KvMap, Seq<char>>(s@),
            Err(e) => replay_log(data@, path@) matches Err(msg) && e@ == ErrorView::Corrupt(msg),
        },
{
    let mut store = Store::new();
    let mut start: usize = 0;
    let mut n: usize = 0;
    let mut used: u128 = 0;
    let ghost all = log_lines(data@);
    while start < data.len()
        invariant
            all == log_lines(data@),
            start <= data.len(),
            used <= start + 1,
            start < data.len() ==> used <= start,
            n <= start,
            replay_lines(all, 1, Map::empty()) == replay_lines(
                lines_from(data@, start as int, start as int),
                (n + 1) as nat,
                store@,
            ),
            consumed(all) == used + consumed(lines_from(data@, start as int, start as int)),
        decreases data.len() - start,
    {
        let p = find_newline(data, start);
        proof {
            lemma_lines_scan(data@, start as int, start as int, p as int);
        }
        let ghost rest = lines_from(data@, start as int, start as int);
        let mut end = p;
        if p < data.len() && p > start && data[p - 1] == 13u8 {
            end = p - 1;
        }
        let next = if p < data.len() { p + 1 } else { p };
        proof {
            let l = data@.subrange(start as int, end as int);
            if p < data.len() {
                assert(rest == seq![strip_cr(data@.subrange(start as int, p as int))] + lines_from(data@, next as int, next as int));
                assert(strip_cr(data@.subrange(start as int, p as int)) =~= l);
            } else {
                assert(rest == seq![l]);
                assert(lines_from(data@, next as int, next as int) == Seq::<Seq<u8>>::empty());
            }
            assert(rest[0] == l);
            assert(rest.drop_first() =~= lines_from(data@, next as int, next as int));
        }
        let line = byte_range(data, start, end);
        let text = match utf8_text(line.as_slice()) {
            Some(t) => t,
            None => {
                let mut m = line_label_text(n + 1);
                m.append(" 行读取失败: stream did not contain valid UTF-8");
                return Err(Error::Corrupt(m));
            },
        };
        used = used + (end - start) as u128 + 1;
        if end > start {
            match Record::decode(text.as_str()) {
                Ok(rec) => apply(&mut store, rec),
                Err(e) => {
                    let mut m = line_label_text(n + 1);
                    m.append(" 行 ");
                    let t = e.message();
                    m.append(t.as_str());
                    return Err(Error::Corrupt(m));
                },
            }
        }
        n = n + 1;
        start = next;
    }
    if used != data.len() as u128 {
        let mut m = String::from_str("文件 ");
        m.append(path);
        m.append(" 末尾记录不完整（可能被截断）");
        return Err(Error::Corrupt(m));
    }
    Ok(store)
}

/// The text a log holds for `rs`: each record's line followed by a line feed, in order.
pub open spec fn log_text_of(rs: Seq<RecordView>) -> Seq<char>
    decreases rs.len(),
{
    if rs.len() == 0 {
        Seq::empty()
    } else {
        encode_record(rs[0]) + seq!['\n'] + log_text_of(rs.drop_first())
    }
}

/// The bytes a log holds for `rs`.
pub open spec fn log_image(rs: Seq<RecordView>) -> Seq<u8> {
    encode_utf8(log_text_of(rs))
}

/// The views of `v`'s records.
pub open spec fn record_views(v: Seq<Record>) -> Seq<RecordView> {
    v.map_values(|r: Record| r@)
}

/// The text a log holds for `records`, ready to be written as it is.
pub fn log_text(records: &[Record]) -> (r: String)
    ensures
        r@ == log_text_of(record_views(records@)),
        encode_utf8(r@) == log_image(record_views(records@)),
{
    let mut out = String::new();
    let mut i: usize = records.len();
    let ghost all = record_views(records@);
    // Build from the back so that each step prepends one line to the tail already built.
    while i > 0
        invariant
            i <= records@.len(),
            all == record_views(records@),
            out@ == log_text_of(all.subrange(i as int, all.len() as int)),
        decreases i,
    {
        i = i - 1;
        let mut line = records[i].encode();
        line.append("\n");
        line.append(out.as_str());
        proof {
            let tail = all.subrange(i as int, all.len() as int);
            assert(tail[0] == records@[i as int]@);
            assert(tail.drop_first() =~= all.subrange(i as int + 1, all.len() as int));
            reveal_strlit("\n");
            assert("\n"@ =~= seq!['\n']);
        }
        out = line;
    }
    assert(all.subrange(0, all.len() as int) =~= all);
    out
}

/// The content after applying `rs` in order to `m`.
pub open spec fn apply_all(m: KvMap, rs: Seq<RecordView>) -> KvMap
    decreases rs.len(),
{
    if rs.len() == 0 {
        m
    } else {
        apply_all(apply_record(m, rs[0]), rs.drop_first())
    }
}

/// The lines of bytes that follow `x` start where they would without `x`.
proof fn lemma_lines_shift(x: Seq<u8>, y: Seq<u8>, start: int, i: int)
    requires
        0 <= start <= i <= y.len(),
    ensures
        lines_from(x + y, x.len() + start, x.len() + i) == lines_from(y, start, i),
    decreases y.len() - i,
{
    let d = x + y;
    if i < y.len() {
        assert(d[x.len() + i] == y[i]);
        if y[i] == 10u8 {
            assert(d.subrange(x.len() + start, x.len() + i) =~= y.subrange(start, i));
            lemma_lines_shift(x, y, i + 1, i + 1);
        } else {
            lemma_lines_shift(x, y, start, i + 1);
        }
    } else if start < y.len() {
        assert(d.subrange(x.len() + start, d.len() as int) =~= y.subrange(start, y.len() as int));
    }
}

/// The encoded line of a record holds neither a line feed nor a carriage return.
proof fn lemma_record_plain(r: RecordView)
    ensures
        !encode_record(r).contains('\n'),
        !encode_record(r).contains('\r'),
        encode_record(r).len() > 0,
{
    reveal_strlit("SET\t");
    reveal_strlit("DEL\t");
    reveal_strlit("\t");
    reveal_strlit("-");
    let l = encode_record(r);
    match r {
        RecordView::Put { key, value, expire_at_ms } => {
            lemma_escape_plain(key);
            lemma_escape_plain(value);
            let x = expiry_text(expire_at_ms);
            assert(!x.contains('\n') && !x.contains('\r')) by {
                match expire_at_ms {
                    Some(t) => {
                        lemma_dec(t as nat);
                    },
                    None => {},
                }
            }
            let parts = seq!["SET\t"@, escape(key), "\t"@, x, "\t"@, escape(value)];
            assert(l =~= "SET\t"@ + escape(key) + "\t"@ + x + "\t"@ + escape(value));
            assert forall|c: char| c == '\n' || c == '\r' implies !l.contains(c) by {
                if l.contains(c) {
                    let i = choose|i: int| 0 <= i < l.len() && l[i] == c;
                    let a = 4int;
                    let b = a + escape(key).len();
                    let e = b + 1 + x.len();
                    if i < a {
                    } else if i < b {
                        assert(escape(key)[i - a] == c);
                    } else if i < b + 1 {
                    } else if i < e {
                        assert(x[i - b - 1] == c);
                    } else if i < e + 1 {
                    } else {
                        assert(escape(value)[i - e - 1] == c);
                    }
                }
            }
            assert(l[0] == 'S');
        },
        RecordView::Del { key } => {
            lemma_escape_plain(key);
            assert(l =~= "DEL\t"@ + escape(key));
            assert forall|c: char| c == '\n' || c == '\r' implies !l.contains(c) by {
                if l.contains(c) {
                    let i = choose|i: int| 0 <= i < l.len() && l[i] == c;
                    if i >= 4 {
                        assert(escape(key)[i - 4] == c);
                    }
                }
            }
            assert(l[0] == 'D');
        },
    }
}

/// The lines of a log image are the encoded records.
proof fn lemma_image_lines(rs: Seq<RecordView>)
    ensures
        log_lines(log_image(rs)) == rs.map_values(|r: RecordView| encode_utf8(encode_record(r))),
        consumed(log_lines(log_image(rs))) == log_image(rs).len(),
    decreases rs.len(),
{
    let lines = rs.map_values(|r: RecordView| encode_utf8(encode_record(r)));
    if rs.len() == 0 {
        assert(log_image(rs) =~= Seq::<u8>::empty());
        assert(lines =~= Seq::<Seq<u8>>::empty());
    } else {
        let r = rs[0];
        let rest = rs.drop_first();
        lemma_image_lines(rest);
        lemma_record_plain(r);
        let a = encode_utf8(encode_record(r));
        let tail = log_image(rest);
        crate::text::lemma_encode_utf8_concat(encode_record(r) + seq!['\n'], log_text_of(rest));
        crate::text::lemma_encode_utf8_concat(encode_record(r), seq!['\n']);
        crate::text::lemma_encode_utf8_ascii(encode_record(r), 10u8);
        crate::text::lemma_encode_utf8_ascii(encode_record(r), 13u8);
        assert(encode_utf8(seq!['\n']) =~= seq![10u8]) by {
            assert(seq!['\n'].drop_first() =~= Seq::<char>::empty());
            assert(('\n' as u32) == 10u32);
            assert((10u32 & 0x7F) as u8 == 10u8) by (bit_vector);
            assert(vstd::utf8::encode_scalar(10u32) =~= seq![10u8]);
            assert(encode_utf8(Seq::<char>::empty()) =~= Seq::<u8>::empty());
            assert(seq!['\n'][0] as u32 == 10u32);
        }
        let d = log_image(rs);
        assert(d =~= a + seq![10u8] + tail);
        assert(a.len() > 0) by {
            assert(encode_record(r).len() > 0);
            vstd::utf8::encode_utf8_first_scalar(encode_record(r));
        }
        assert forall|j: int| 0 <= j < a.len() implies d[j] != 10u8 by {
            assert(d[j] == a[j]);
            if a[j] == 10u8 {
                assert(a.contains(10u8));
            }
        }
        lemma_lines_scan(d, 0, 0, a.len() as int);
        assert(d[a.len() as int] == 10u8);
        assert(d.subrange(0, a.len() as int) =~= a);
        assert(strip_cr(a) == a) by {
            if a.last() == 13u8 {
                assert(a.contains(13u8));
            }
        }
        lemma_lines_shift(a + seq![10u8], tail, 0, 0);
        assert(d =~= (a + seq![10u8]) + tail);
        assert(log_lines(d) =~= seq![a] + log_lines(tail));
        assert(lines =~= seq![a] + rest.map_values(|r: RecordView| encode_utf8(encode_record(r))));
        assert(log_lines(d).drop_first() =~= log_lines(tail));
    }
}

/// Replaying the encoded lines of `rs` applies `rs` in order.
proof fn lemma_replay_encoded(rs: Seq<RecordView>, n: nat, m: KvMap)
    ensures
        replay_lines(rs.map_values(|r: RecordView| encode_utf8(encode_record(r))), n, m)
            == Ok::<KvMap, Seq<char>>(apply_all(m, rs)),
    decreases rs.len(),
{
    let lines = rs.map_values(|r: RecordView| encode_utf8(encode_record(r)));
    if rs.len() > 0 {
        let r = rs[0];
        let l = encode_utf8(encode_record(r));
        assert(lines[0] == l);
        vstd::utf8::encode_utf8_valid_utf8(encode_record(r));
        vstd::utf8::encode_utf8_decode_utf8(encode_record(r));
        lemma_record_plain(r);
        vstd::utf8::encode_utf8_first_scalar(encode_record(r));
        lemma_record_roundtrip(r);
        assert(lines.drop_first() =~= rs.drop_first().map_values(
            |r: RecordView| encode_utf8(encode_record(r)),
        ));
        lemma_replay_encoded(rs.drop_first(), n + 1, apply_record(m, r));
    }
}

/// Recovery gives back what was written: replaying a log that holds `rs` yields the content
/// of applying `rs` in order to an empty store.
pub proof fn lemma_recovery(rs: Seq<RecordView>, path: Seq<char>)
    ensures
        replay_log(log_image(rs), path) == Ok::<KvMap, Seq<char>>(apply_all(Map::empty(), rs)),
{
    lemma_image_lines(rs);
    lemma_replay_encoded(rs, 1, Map::empty());
}

/// The write that records key and entry `p`.
pub open spec fn put_of(p: (Seq<char>, EntryView)) -> RecordView {
    RecordView::Put { key: p.0, value: p.1.value, expire_at_ms: p.1.expire_at_ms }
}

/// The records that rewrite the entries `s` into a fresh log: one write each, in order.
pub open spec fn snapshot_records(s: Pairs) -> Seq<RecordView> {
    s.map_values(|p: (Seq<char>, EntryView)| put_of(p))
}

/// One write record for each of `entries`, in order.
pub fn snapshot(entries: Vec<(String, Entry)>) -> (r: Vec<Record>)
    ensures
        record_views(r@) == snapshot_records(entry_pairs(entries@)),
{
    let ghost pairs = entry_pairs(entries@);
    let mut out: Vec<Record> = Vec::new();
    let mut rest = entries;
    let ghost n = pairs.len();
    // Taken from the back; the records are then put in order.
    let mut back: Vec<Record> = Vec::new();
    while rest.len() > 0
        invariant
            pairs.len() == n,
            rest@.len() <= n,
            entry_pairs(rest@) == pairs.subrange(0, rest@.len() as int),
            back@.len() == n - rest@.len(),
            forall|j: int|
                0 <= j < back@.len() ==> (#[trigger] back@[j])@ == put_of(pairs[n - 1 - j]),
        decreases rest@.len(),
    {
        let ghost k = rest@.len() - 1;
        let ghost before = rest@;
        let (key, entry) = rest.pop().unwrap();
        assert(pairs[k] == (key@, entry@)) by {
            assert(entry_pairs(before)[k] == pairs[k]);
        }
        back.push(Record::Put { key, value: entry.value, expire_at_ms: entry.expire_at_ms });
        assert(entry_pairs(rest@) =~= pairs.subrange(0, rest@.len() as int)) by {
            assert forall|j: int| 0 <= j < rest@.len() implies entry_pairs(rest@)[j] == pairs[j] by {
                assert(entry_pairs(before)[j] == pairs[j]);
            }
        }
    }
    while back.len() > 0
        invariant
            back@.len() + out@.len() == n,
            forall|j: int| 0 <= j < back@.len() ==> (#[trigger] back@[j])@ == put_of(pairs[n - 1 - j]),
            forall|j: int| 0 <= j < out@.len() ==> (#[trigger] out@[j])@ == put_of(pairs[j]),
        decreases back@.len(),
    {
        let r = back.pop().unwrap();
        out.push(r);
    }
    assert(record_views(out@) =~= snapshot_records(pairs));
    out
}

/// Applying the writes of distinct entries `s` to `m` lays their map over `m`.
proof fn lemma_apply_snapshot(m: KvMap, s: Pairs)
    requires
        sorted_pairs(s),
    ensures
        apply_all(m, snapshot_records(s)) == m.union_prefer_right(assoc(s)),
    decreases s.len(),
{
    let rs = snapshot_records(s);
    if s.len() == 0 {
        assert(assoc(s) =~= Map::<Seq<char>, EntryView>::empty());
        assert(m.union_prefer_right(assoc(s)) =~= m);
    } else {
        let rest = s.drop_first();
        let p = s[0];
        assert(sorted_pairs(rest));
        lemma_apply_snapshot(m.insert(p.0, p.1), rest);
        assert(rs[0] == put_of(p));
        assert(rs.drop_first() =~= snapshot_records(rest));
        assert(apply_record(m, put_of(p)) =~= m.insert(p.0, p.1));
        assert(!has_key(rest, p.0)) by {
            if has_key(rest, p.0) {
                let j = position_of(rest, p.0);
                lemma_sorted_distinct(s, 0, j + 1);
            }
        }
        assert(s =~= rest.insert(0, p));
        lemma_assoc_insert(rest, 0, p.0, p.1);
        assert(m.insert(p.0, p.1).union_prefer_right(assoc(rest)) =~= m.union_prefer_right(assoc(s)));
    }
}

/// A compacted log gives back exactly the entries it was written from.
pub proof fn lemma_compaction(s: Pairs, path: Seq<char>)
    requires
        sorted_pairs(s),
    ensures
        apply_all(Map::empty(), snapshot_records(s)) == assoc(s),
        replay_log(log_image(snapshot_records(s)), path) == Ok::<KvMap, Seq<char>>(assoc(s)),
{
    lemma_apply_snapshot(Map::empty(), s);
    assert(Map::<Seq<char>, EntryView>::empty().union_prefer_right(assoc(s)) =~= assoc(s));
    lemma_recovery(snapshot_records(s), path);
}

/// Appending one record to a log adds exactly that record's line after what was there.
pub proof fn lemma_log_image_push(rs: Seq<RecordView>, r: RecordView)
    ensures
        log_text_of(rs.push(r)) == log_text_of(rs) + log_text_of(seq![r]),
        log_image(rs.push(r)) == log_image(rs) + log_image(seq![r]),
    decreases rs.len(),
{
    if rs.len() == 0 {
        assert(rs.push(r) =~= seq![r]);
        assert(log_text_of(rs) =~= Seq::<char>::empty());
        assert(log_text_of(rs) + log_text_of(seq![r]) =~= log_text_of(seq![r]));
    } else {
        lemma_log_image_push(rs.drop_first(), r);
        assert(rs.push(r).drop_first() =~= rs.drop_first().push(r));
        assert(rs.push(r)[0] == rs[0]);
        assert(log_text_of(rs.push(r)) =~= log_text_of(rs) + log_text_of(seq![r]));
    }
    crate::text::lemma_encode_utf8_concat(log_text_of(rs), log_text_of(seq![r]));
}

} // verus!
