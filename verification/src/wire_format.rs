//! Wire format of the configuration provider: the constants that frame a table
//! within the provider's buffer, and the codec of the table itself.
//!
//! `MAGIC_BYTES` is found by a byte scan of the built component and must occur
//! in it once. So refer to it in constant initializers alone: taking its
//! address at run time would store the bytes a second time.

use crate::config_values;
use crate::config_values::ConfigValues;
use crate::le;
use crate::le::{get_word, push_word};
use vstd::hash_map::StringHashMap;
use vstd::prelude::*;
use vstd::slice::slice_subrange;

verus! {

/// Sentinel that starts the provider's buffer: an ASCII tag,
/// `SPLICER_BUILTIN_CONFIG_V1`, wrapped in bytes that make it unlikely to occur
/// anywhere else.
pub const MAGIC_BYTES: [u8; 29] = [
    0x00, 0xef, 0x53, 0x50, 0x4c, 0x49, 0x43, 0x45, 0x52, 0x5f, 0x42, 0x55, 0x49, 0x4c, 0x54,
    0x49, 0x4e, 0x5f, 0x43, 0x4f, 0x4e, 0x46, 0x49, 0x47, 0x5f, 0x56, 0x31, 0xef, 0x00,
];

/// Byte length of the sentinel.
pub const MAGIC_LEN: usize = 29;

/// Total bytes reserved for sentinel, length header, table and padding.
pub const CAPACITY: usize = 16 * 1024;

/// Width of every length field.
pub const LEN_PREFIX_BYTES: usize = 4;

// ─── Encoding ────────────────────────────────────────────────────

/// A string on the wire: its length in bytes, then its utf-8 bytes.
pub open spec fn encoded_string(s: Seq<char>) -> Seq<u8> {
    le::le_bytes(vstd::utf8::encode_utf8(s).len() as u32) + vstd::utf8::encode_utf8(s)
}

/// Entries on the wire: each key, followed by its value.
pub open spec fn encoded_entries(entries: Seq<(Seq<char>, Seq<char>)>) -> Seq<u8>
    decreases entries.len(),
{
    if entries.len() == 0 {
        Seq::empty()
    } else {
        encoded_entries(entries.drop_last()) + encoded_string(entries.last().0) + encoded_string(
            entries.last().1,
        )
    }
}

/// A table on the wire: the number of entries, then the entries.
pub open spec fn encoded(entries: Seq<(Seq<char>, Seq<char>)>) -> Seq<u8> {
    le::le_bytes(entries.len() as u32) + encoded_entries(entries)
}

/// Serializes a table. The sentinel and the length header are not part of it.
pub fn serialize_table(values: &ConfigValues) -> (payload: Vec<u8>)
    ensures
        payload@ == encoded(values@),
{
    let mut buf: Vec<u8> = Vec::new();
    push_word(&mut buf, values.len() as u32);
    let mut i: usize = 0;
    assert(values@.take(0) =~= Seq::empty());
    assert(buf@ =~= le::le_bytes(values@.len() as u32) + encoded_entries(values@.take(0)));
    while i < values.len()
        invariant
            i <= values@.len(),
            buf@ == le::le_bytes(values@.len() as u32) + encoded_entries(values@.take(i as int)),
        decreases values@.len() - i,
    {
        let (key, value) = values.entry(i);
        push_string(&mut buf, key);
        push_string(&mut buf, value);
        assert(values@.take(i + 1).drop_last() =~= values@.take(i as int));
        i += 1;
        assert(buf@ =~= le::le_bytes(values@.len() as u32) + encoded_entries(
            values@.take(i as int),
        ));
    }
    assert(values@.take(i as int) =~= values@);
    buf
}

fn push_string(buf: &mut Vec<u8>, s: &str)
    ensures
        final(buf)@ == old(buf)@ + encoded_string(s@),
{
    let bytes = s.as_bytes();
    push_word(buf, bytes.len() as u32);
    buf.extend_from_slice(bytes);
    assert(buf@ =~= old(buf)@ + encoded_string(s@));
}

// ─── Decoding ────────────────────────────────────────────────────

/// The string at `cursor` and the position after it, unless it is cut off or
/// not utf-8.
pub open spec fn string_at(payload: Seq<u8>, cursor: int) -> Option<(Seq<char>, int)> {
    let len = le::word_at(payload, cursor);
    let bytes = payload.subrange(cursor + 4, cursor + 4 + len);
    if cursor + 4 <= payload.len() && cursor + 4 + len <= payload.len() && vstd::utf8::valid_utf8(
        bytes,
    ) {
        Some((vstd::utf8::decode_utf8(bytes), cursor + 4 + len))
    } else {
        None
    }
}

/// The first `n` entries of a payload and the position after them, unless one
/// of them is malformed.
pub open spec fn entries_upto(payload: Seq<u8>, n: nat) -> Option<
    (Seq<(Seq<char>, Seq<char>)>, int),
>
    decreases n,
{
    if n == 0 {
        Some((Seq::empty(), 4))
    } else {
        match entries_upto(payload, (n - 1) as nat) {
            None => None,
            Some((entries, cursor)) => match string_at(payload, cursor) {
                None => None,
                Some((key, value_at)) => match string_at(payload, value_at) {
                    None => None,
                    Some((value, end)) => Some((entries.push((key, value)), end)),
                },
            },
        }
    }
}

/// The entries of a payload, unless its framing is malformed. Bytes after the
/// last entry do not matter.
pub open spec fn framed_entries(payload: Seq<u8>) -> Option<Seq<(Seq<char>, Seq<char>)>> {
    if payload.len() < 4 {
        None
    } else {
        match entries_upto(payload, le::word_at(payload, 0) as nat) {
            None => None,
            Some((entries, _)) => Some(entries),
        }
    }
}

/// The table of a payload: none at all where its framing is malformed, and the
/// later value where a key comes up twice.
pub open spec fn decoded(payload: Seq<u8>) -> Map<Seq<char>, Seq<char>> {
    match framed_entries(payload) {
        Some(entries) => config_values::as_map(entries),
        None => Map::empty(),
    }
}

/// A table to look values up in.
pub struct ConfigTable {
    values: StringHashMap<String>,
}

impl View for ConfigTable {
    type V = Map<Seq<char>, Seq<char>>;

    closed spec fn view(&self) -> Map<Seq<char>, Seq<char>> {
        self.values@.map_values(|value: String| value@)
    }
}

impl ConfigTable {
    /// A table without entries.
    pub fn new() -> (table: Self)
        ensures
            table@ == Map::<Seq<char>, Seq<char>>::empty(),
    {
        let table = ConfigTable { values: StringHashMap::new() };
        assert(table@ =~= Map::<Seq<char>, Seq<char>>::empty());
        table
    }

    /// Number of keys.
    pub fn len(&self) -> (n: usize)
        ensures
            n == self@.dom().len(),
    {
        assert(self@.dom() =~= self.values@.dom());
        self.values.len()
    }

    /// The value under `key`, if there is one.
    pub fn get(&self, key: &str) -> (value: Option<&String>)
        ensures
            (match value {
                Some(v) => self@.contains_key(key@) && v@ == self@[key@],
                None => !self@.contains_key(key@),
            }),
    {
        self.values.get(key)
    }

    fn insert(&mut self, key: String, value: String)
        ensures
            final(self)@ == old(self)@.insert(key@, value@),
    {
        let ghost before = self@;
        self.values.insert(key, value);
        assert(self@ =~= before.insert(key@, value@));
    }
}

/// Deserializes a table. Returns an empty one on any malformed framing: the
/// format is internal, so that signals a faulty build, and callers fall back to
/// their defaults.
pub fn deserialize_table(payload: &[u8]) -> (table: ConfigTable)
    ensures
        table@ == decoded(payload@),
{
    let mut out = ConfigTable::new();
    let count = match read_u32_le(payload, 0) {
        Some(count) => count,
        None => {
            return out;
        },
    };
    let mut cursor: usize = LEN_PREFIX_BYTES;
    let mut i: u32 = 0;
    while i < count
        invariant
            payload@.len() >= 4,
            count == le::word_at(payload@, 0),
            i <= count,
            entries_upto(payload@, i as nat) matches Some((entries, end)) && end == cursor
                && config_values::as_map(entries) == out@,
        decreases count - i,
    {
        let ghost (entries, _) = entries_upto(payload@, i as nat)->0;
        proof {
            lemma_malformed(payload@, (i + 1) as nat, count as nat);
        }
        let (key, value_at) = match read_string(payload, cursor) {
            Some(read) => read,
            None => {
                return ConfigTable::new();
            },
        };
        let (value, end) = match read_string(payload, value_at) {
            Some(read) => read,
            None => {
                return ConfigTable::new();
            },
        };
        cursor = end;
        assert(entries.push((key@, value@)).drop_last() =~= entries);
        out.insert(key.to_owned(), value.to_owned());
        i += 1;
    }
    out
}

proof fn lemma_malformed(payload: Seq<u8>, n: nat, m: nat)
    requires
        n <= m,
    ensures
        entries_upto(payload, n) is None ==> entries_upto(payload, m) is None,
    decreases m,
{
    if n < m {
        lemma_malformed(payload, n, (m - 1) as nat);
    }
}

fn read_string(payload: &[u8], cursor: usize) -> (read: Option<(&str, usize)>)
    ensures
        (match read {
            Some((s, end)) => string_at(payload@, cursor as int) == Some((s@, end as int)),
            None => string_at(payload@, cursor as int) is None,
        }),
{
    assert(payload@.len() == payload.len());
    let len = match read_u32_le(payload, cursor) {
        Some(len) => len as usize,
        None => {
            return None;
        },
    };
    let start = cursor + LEN_PREFIX_BYTES;
    if len > payload.len() - start {
        return None;
    }
    let end = start + len;
    match utf8_text(slice_subrange(payload, start, end)) {
        Some(s) => Some((s, end)),
        None => None,
    }
}

/// [`std::str::from_utf8`]: bytes are accepted exactly where they are
/// well-formed utf-8, and the text is what they encode.
#[verifier::external_body]
fn utf8_text(bytes: &[u8]) -> (text: Option<&str>)
    ensures
        (match text {
            Some(s) => vstd::utf8::valid_utf8(bytes@) && s@ == vstd::utf8::decode_utf8(bytes@),
            None => !vstd::utf8::valid_utf8(bytes@),
        }),
{
    std::str::from_utf8(bytes).ok()
}

/// The little-endian word at `off`, unless the slice is too short.
pub fn read_u32_le(buf: &[u8], off: usize) -> (word: Option<u32>)
    ensures
        word == if off + 4 <= buf@.len() {
            Some(le::word_at(buf@, off as int))
        } else {
            None
        },
{
    assert(buf@.len() == buf.len());
    let end = match off.checked_add(LEN_PREFIX_BYTES) {
        Some(end) => end,
        None => {
            return None;
        },
    };
    if end > buf.len() {
        return None;
    }
    Some(get_word(buf, off))
}

// ─── Laws ────────────────────────────────────────────────────────

/// Whether every length of the table can be written in its field.
pub open spec fn lengths_fit(entries: Seq<(Seq<char>, Seq<char>)>) -> bool {
    &&& entries.len() <= u32::MAX
    &&& forall|i: int| #![trigger entries[i]]
        0 <= i < entries.len() ==> vstd::utf8::encode_utf8(entries[i].0).len() <= u32::MAX
            && vstd::utf8::encode_utf8(entries[i].1).len() <= u32::MAX
}

/// A table that was serialized deserializes to itself, whatever bytes follow
/// it.
pub proof fn lemma_round_trip(entries: Seq<(Seq<char>, Seq<char>)>, rest: Seq<u8>)
    requires
        lengths_fit(entries),
    ensures
        framed_entries(encoded(entries) + rest) == Some(entries),
        decoded(encoded(entries) + rest) == config_values::as_map(entries),
        decoded(encoded(entries)) == config_values::as_map(entries),
{
    lemma_framed(entries, rest);
    lemma_framed(entries, Seq::empty());
    assert(encoded(entries) + Seq::<u8>::empty() =~= encoded(entries));
}

proof fn lemma_framed(entries: Seq<(Seq<char>, Seq<char>)>, rest: Seq<u8>)
    requires
        lengths_fit(entries),
    ensures
        framed_entries(encoded(entries) + rest) == Some(entries),
{
    let payload = encoded(entries) + rest;
    let count = le::le_bytes(entries.len() as u32);
    le::lemma_le_value_of_bytes(entries.len() as u32);
    assert(payload.subrange(0, 4) =~= count);
    lemma_entries_at(payload, count, entries, rest, entries.len());
    assert(entries.take(entries.len() as int) =~= entries);
}

#[verifier::rlimit(40)]
proof fn lemma_entries_at(
    payload: Seq<u8>,
    count: Seq<u8>,
    entries: Seq<(Seq<char>, Seq<char>)>,
    rest: Seq<u8>,
    n: nat,
)
    requires
        payload == count + encoded_entries(entries) + rest,
        count.len() == 4,
        lengths_fit(entries),
        n <= entries.len(),
    ensures
        entries_upto(payload, n) == Some(
            (entries.take(n as int), 4 + encoded_entries(entries.take(n as int)).len() as int),
        ),
    decreases n,
{
    if n == 0 {
        assert(entries.take(0) =~= Seq::empty());
    } else {
        let m = n - 1;
        lemma_entries_at(payload, count, entries, rest, m as nat);
        let (key, value) = entries[m];
        let head = encoded_entries(entries.take(m));
        let cursor = (count.len() + head.len()) as int;
        let value_at = cursor + encoded_string(key).len();
        let end = value_at + encoded_string(value).len();
        let tail = lemma_encoded_split(entries, m);
        lemma_two_strings(payload, count, head, key, value, tail, rest);
        lemma_entries_step(payload, m as nat, entries.take(m), cursor, key, value_at, value, end);
        assert(entries.take(n as int).drop_last() =~= entries.take(m));
        assert(entries.take(n as int) =~= entries.take(m).push((key, value)));
    }
}

proof fn lemma_two_strings(
    payload: Seq<u8>,
    count: Seq<u8>,
    head: Seq<u8>,
    key: Seq<char>,
    value: Seq<char>,
    tail: Seq<u8>,
    rest: Seq<u8>,
)
    requires
        payload == count + (head + encoded_string(key) + encoded_string(value) + tail) + rest,
        vstd::utf8::encode_utf8(key).len() <= u32::MAX,
        vstd::utf8::encode_utf8(value).len() <= u32::MAX,
    ensures
        ({
            let cursor = (count.len() + head.len()) as int;
            let value_at = cursor + encoded_string(key).len();
            let end = value_at + encoded_string(value).len();
            &&& string_at(payload, cursor) == Some((key, value_at))
            &&& string_at(payload, value_at) == Some((value, end))
        }),
{
    let k = encoded_string(key);
    let v = encoded_string(value);
    lemma_regroup(count, head, k, v, tail, rest);
    lemma_string_at(payload, count + head, key, v + tail + rest);
    lemma_string_at(payload, count + head + k, value, tail + rest);
}

proof fn lemma_entries_step(
    payload: Seq<u8>,
    n: nat,
    entries: Seq<(Seq<char>, Seq<char>)>,
    cursor: int,
    key: Seq<char>,
    value_at: int,
    value: Seq<char>,
    end: int,
)
    requires
        entries_upto(payload, n) == Some((entries, cursor)),
        string_at(payload, cursor) == Some((key, value_at)),
        string_at(payload, value_at) == Some((value, end)),
    ensures
        entries_upto(payload, n + 1) == Some((entries.push((key, value)), end)),
{
}

proof fn lemma_regroup(
    count: Seq<u8>,
    head: Seq<u8>,
    key: Seq<u8>,
    value: Seq<u8>,
    tail: Seq<u8>,
    rest: Seq<u8>,
)
    ensures
        count + (head + key + value + tail) + rest == (count + head) + key + (value + tail + rest),
        count + (head + key + value + tail) + rest == (count + head + key) + value + (tail + rest),
{
    assert(count + (head + key + value + tail) + rest =~= (count + head) + key + (value + tail
        + rest));
    assert(count + (head + key + value + tail) + rest =~= (count + head + key) + value + (tail
        + rest));
}

proof fn lemma_encoded_split(entries: Seq<(Seq<char>, Seq<char>)>, n: int) -> (tail: Seq<u8>)
    requires
        0 <= n < entries.len(),
    ensures
        encoded_entries(entries) == encoded_entries(entries.take(n)) + encoded_string(entries[n].0)
            + encoded_string(entries[n].1) + tail,
    decreases entries.len(),
{
    let init = entries.drop_last();
    let own = encoded_string(entries[n].0) + encoded_string(entries[n].1);
    if n == entries.len() - 1 {
        assert(entries.take(n) =~= init);
        let tail = Seq::<u8>::empty();
        assert(encoded_entries(entries) =~= encoded_entries(init) + own + tail);
        tail
    } else {
        let tail = lemma_encoded_split(init, n);
        assert(init.take(n) =~= entries.take(n));
        let longer = tail + encoded_string(entries.last().0) + encoded_string(entries.last().1);
        assert(encoded_entries(entries) =~= encoded_entries(entries.take(n)) + own + longer);
        longer
    }
}

proof fn lemma_string_at(payload: Seq<u8>, before: Seq<u8>, s: Seq<char>, after: Seq<u8>)
    requires
        payload == before + encoded_string(s) + after,
        vstd::utf8::encode_utf8(s).len() <= u32::MAX,
    ensures
        string_at(payload, before.len() as int) == Some(
            (s, before.len() as int + encoded_string(s).len()),
        ),
{
    let bytes = vstd::utf8::encode_utf8(s);
    let at = before.len() as int;
    le::lemma_le_value_of_bytes(bytes.len() as u32);
    assert(payload.subrange(at, at + 4) =~= le::le_bytes(bytes.len() as u32));
    assert(payload.subrange(at + 4, at + 4 + bytes.len()) =~= bytes);
    vstd::utf8::encode_utf8_valid_utf8(s);
    vstd::utf8::encode_utf8_decode_utf8(s);
}

/// Serialized tables are deterministic: the same values give the same bytes,
/// however they were put together.
pub proof fn lemma_deterministic(
    a: Seq<(Seq<char>, Seq<char>)>,
    b: Seq<(Seq<char>, Seq<char>)>,
)
    requires
        config_values::key_ordered(a),
        config_values::key_ordered(b),
        config_values::as_map(a) == config_values::as_map(b),
    ensures
        encoded(a) == encoded(b),
{
    config_values::lemma_order_canonical(a, b);
}

/// A table that is cut off anywhere deserializes to an empty one, not to the
/// entries before the cut.
pub proof fn lemma_truncated(entries: Seq<(Seq<char>, Seq<char>)>, end: int)
    requires
        lengths_fit(entries),
        0 <= end < encoded(entries).len(),
    ensures
        decoded(encoded(entries).take(end)) == Map::<Seq<char>, Seq<char>>::empty(),
{
    let payload = encoded(entries);
    let cut = payload.take(end);
    let rest = payload.skip(end);
    if end >= 4 && framed_entries(cut) is Some {
        assert(cut + rest =~= payload);
        assert(cut.subrange(0, 4) =~= payload.subrange(0, 4));
        let count = le::word_at(cut, 0) as nat;
        lemma_entries_extend(cut, rest, count);
        le::lemma_le_value_of_bytes(entries.len() as u32);
        assert(payload.subrange(0, 4) =~= le::le_bytes(entries.len() as u32));
        let header = le::le_bytes(entries.len() as u32);
        assert(header + encoded_entries(entries) + Seq::<u8>::empty() =~= payload);
        lemma_entries_at(payload, header, entries, Seq::empty(), entries.len());
        assert(entries.take(entries.len() as int) =~= entries);
    }
}

proof fn lemma_entries_extend(payload: Seq<u8>, rest: Seq<u8>, n: nat)
    requires
        payload.len() >= 4,
        entries_upto(payload, n) is Some,
    ensures
        entries_upto(payload + rest, n) == entries_upto(payload, n),
        ({
            let (_, end) = entries_upto(payload, n)->0;
            4 <= end <= payload.len()
        }),
    decreases n,
{
    if n > 0 {
        lemma_entries_extend(payload, rest, (n - 1) as nat);
        let (_, cursor) = entries_upto(payload, (n - 1) as nat)->0;
        let (_, value_at) = string_at(payload, cursor)->0;
        lemma_string_extend(payload, rest, cursor);
        lemma_string_extend(payload, rest, value_at);
    }
}

proof fn lemma_string_extend(payload: Seq<u8>, rest: Seq<u8>, cursor: int)
    requires
        0 <= cursor,
        string_at(payload, cursor) is Some,
    ensures
        string_at(payload + rest, cursor) == string_at(payload, cursor),
        ({
            let (_, end) = string_at(payload, cursor)->0;
            cursor + 4 <= end <= payload.len()
        }),
{
    let whole = payload + rest;
    assert(whole.subrange(cursor, cursor + 4) =~= payload.subrange(cursor, cursor + 4));
    let len = le::word_at(payload, cursor);
    assert(whole.subrange(cursor + 4, cursor + 4 + len) =~= payload.subrange(
        cursor + 4,
        cursor + 4 + len,
    ));
}

/// How a table lies on the wire: its count; then for each entry, one after the
/// other, the length and the utf-8 bytes of the key, and those of the value.
pub proof fn lemma_payload_layout(entries: Seq<(Seq<char>, Seq<char>)>, n: int)
    requires
        lengths_fit(entries),
        0 <= n < entries.len(),
    ensures
        ({
            let payload = encoded(entries);
            let key = vstd::utf8::encode_utf8(entries[n].0);
            let value = vstd::utf8::encode_utf8(entries[n].1);
            let at = encoded(entries.take(n)).len() as int;
            let value_at = at + 4 + key.len();
            let end = value_at + 4 + value.len();
            &&& le::word_at(payload, 0) == entries.len()
            &&& n == 0 ==> at == 4
            &&& encoded(entries.take(n + 1)).len() == end
            &&& end <= payload.len()
            &&& n + 1 == entries.len() ==> end == payload.len()
            &&& le::word_at(payload, at) == key.len()
            &&& payload.subrange(at + 4, value_at) == key
            &&& le::word_at(payload, value_at) == value.len()
            &&& payload.subrange(value_at + 4, end) == value
        }),
{
    let count = le::le_bytes(entries.len() as u32);
    lemma_payload_count(entries);
    lemma_encoded_len(entries);
    lemma_encoded_len(entries.take(n));
    lemma_encoded_len(entries.take(n + 1));
    lemma_entry_layout(encoded(entries), count, entries, n);
    if n == 0 {
        assert(entries.take(0) =~= Seq::empty());
    }
    if n + 1 == entries.len() {
        assert(entries.take(n + 1) =~= entries);
    }
}

proof fn lemma_encoded_len(entries: Seq<(Seq<char>, Seq<char>)>)
    ensures
        encoded(entries).len() == 4 + encoded_entries(entries).len(),
{
}

proof fn lemma_entry_layout(
    payload: Seq<u8>,
    count: Seq<u8>,
    entries: Seq<(Seq<char>, Seq<char>)>,
    n: int,
)
    requires
        payload == count + encoded_entries(entries),
        count.len() == 4,
        lengths_fit(entries),
        0 <= n < entries.len(),
    ensures
        ({
            let key = vstd::utf8::encode_utf8(entries[n].0);
            let value = vstd::utf8::encode_utf8(entries[n].1);
            let at = 4 + encoded_entries(entries.take(n)).len() as int;
            let value_at = at + 4 + key.len();
            let end = value_at + 4 + value.len();
            &&& 4 + encoded_entries(entries.take(n + 1)).len() == end
            &&& end <= payload.len()
            &&& le::word_at(payload, at) == key.len()
            &&& payload.subrange(at + 4, value_at) == key
            &&& le::word_at(payload, value_at) == value.len()
            &&& payload.subrange(value_at + 4, end) == value
        }),
{
    let head = encoded_entries(entries.take(n));
    let (key, value) = entries[n];
    let tail = lemma_encoded_split(entries, n);
    assert(entries.take(n + 1).drop_last() =~= entries.take(n));
    lemma_encoded_string_len(key);
    lemma_encoded_string_len(value);
    lemma_two_layouts(payload, count, head, key, value, tail);
}

proof fn lemma_encoded_string_len(s: Seq<char>)
    ensures
        encoded_string(s).len() == 4 + vstd::utf8::encode_utf8(s).len(),
{
}

proof fn lemma_two_layouts(
    payload: Seq<u8>,
    count: Seq<u8>,
    head: Seq<u8>,
    key: Seq<char>,
    value: Seq<char>,
    tail: Seq<u8>,
)
    requires
        payload == count + (head + encoded_string(key) + encoded_string(value) + tail),
        vstd::utf8::encode_utf8(key).len() <= u32::MAX,
        vstd::utf8::encode_utf8(value).len() <= u32::MAX,
    ensures
        ({
            let k = vstd::utf8::encode_utf8(key);
            let v = vstd::utf8::encode_utf8(value);
            let at = (count.len() + head.len()) as int;
            let value_at = at + 4 + k.len();
            let end = value_at + 4 + v.len();
            &&& end <= payload.len()
            &&& le::word_at(payload, at) == k.len()
            &&& payload.subrange(at + 4, value_at) == k
            &&& le::word_at(payload, value_at) == v.len()
            &&& payload.subrange(value_at + 4, end) == v
        }),
{
    let none = Seq::<u8>::empty();
    let (k, v) = (encoded_string(key), encoded_string(value));
    lemma_encoded_string_len(key);
    lemma_encoded_string_len(value);
    lemma_regroup(count, head, k, v, tail, none);
    lemma_drop_empty(count + (head + k + v + tail));
    lemma_string_layout(payload, count + head, key, v + tail + none);
    lemma_string_layout(payload, count + head + k, value, tail + none);
}

proof fn lemma_drop_empty(s: Seq<u8>)
    ensures
        s + Seq::<u8>::empty() == s,
{
    assert(s + Seq::<u8>::empty() =~= s);
}

/// A table starts with the number of its entries, and an empty one holds
/// nothing else.
pub proof fn lemma_payload_count(entries: Seq<(Seq<char>, Seq<char>)>)
    requires
        entries.len() <= u32::MAX,
    ensures
        encoded(entries).len() >= 4,
        le::word_at(encoded(entries), 0) == entries.len(),
        entries.len() == 0 ==> encoded(entries).len() == 4,
{
    le::lemma_le_value_of_bytes(entries.len() as u32);
    assert(encoded(entries).subrange(0, 4) =~= le::le_bytes(entries.len() as u32));
}

proof fn lemma_string_layout(payload: Seq<u8>, before: Seq<u8>, s: Seq<char>, after: Seq<u8>)
    requires
        payload == before + encoded_string(s) + after,
        vstd::utf8::encode_utf8(s).len() <= u32::MAX,
    ensures
        le::word_at(payload, before.len() as int) == vstd::utf8::encode_utf8(s).len(),
        payload.subrange(
            before.len() + 4int,
            before.len() + 4int + vstd::utf8::encode_utf8(s).len(),
        ) == vstd::utf8::encode_utf8(s),
{
    let bytes = vstd::utf8::encode_utf8(s);
    let at = before.len() as int;
    le::lemma_le_value_of_bytes(bytes.len() as u32);
    assert(payload.subrange(at, at + 4) =~= le::le_bytes(bytes.len() as u32));
    assert(payload.subrange(at + 4, at + 4 + bytes.len()) =~= bytes);
}

/// What is read was written: a payload yields entries only where it starts with
/// the bytes of just these entries.
pub proof fn lemma_framed_sound(payload: Seq<u8>)
    requires
        framed_entries(payload) is Some,
    ensures
        ({
            let entries = framed_entries(payload)->0;
            &&& lengths_fit(entries)
            &&& encoded(entries).len() <= payload.len()
            &&& encoded(entries) == payload.take(encoded(entries).len() as int)
        }),
{
    let n = le::word_at(payload, 0);
    lemma_entries_sound(payload, n as nat);
    let (entries, end) = entries_upto(payload, n as nat)->0;
    le::lemma_le_bytes_of_value(payload.subrange(0, 4));
    assert(payload.take(end) =~= payload.subrange(0, 4) + payload.subrange(4, end));
}

/// A payload that does not start with the bytes of some table gives an empty
/// one: nothing is salvaged.
pub proof fn lemma_malformed_empty(payload: Seq<u8>)
    requires
        forall|entries: Seq<(Seq<char>, Seq<char>)>| #![trigger encoded(entries)]
            lengths_fit(entries) ==> !(encoded(entries).len() <= payload.len() && encoded(entries)
                == payload.take(encoded(entries).len() as int)),
    ensures
        decoded(payload) == Map::<Seq<char>, Seq<char>>::empty(),
{
    if framed_entries(payload) is Some {
        lemma_framed_sound(payload);
        assert(lengths_fit(framed_entries(payload)->0));
    }
}

proof fn lemma_entries_sound(payload: Seq<u8>, n: nat)
    requires
        payload.len() >= 4,
        entries_upto(payload, n) is Some,
        n <= u32::MAX,
    ensures
        ({
            let (entries, end) = entries_upto(payload, n)->0;
            &&& entries.len() == n
            &&& lengths_fit(entries)
            &&& 4 <= end <= payload.len()
            &&& payload.subrange(4, end) == encoded_entries(entries)
        }),
    decreases n,
{
    let (entries, end) = entries_upto(payload, n)->0;
    if n == 0 {
        assert(payload.subrange(4, 4) =~= Seq::empty());
    } else {
        lemma_entries_sound(payload, (n - 1) as nat);
        let (init, cursor) = entries_upto(payload, (n - 1) as nat)->0;
        let (key, value_at) = string_at(payload, cursor)->0;
        let (value, _) = string_at(payload, value_at)->0;
        lemma_string_sound(payload, cursor);
        lemma_string_sound(payload, value_at);
        assert(entries == init.push((key, value)));
        assert(entries.drop_last() =~= init);
        assert forall|i: int| #![trigger entries[i]]
            0 <= i < entries.len() implies vstd::utf8::encode_utf8(entries[i].0).len() <= u32::MAX
            && vstd::utf8::encode_utf8(entries[i].1).len() <= u32::MAX by {
            if i < init.len() {
                assert(entries[i] == init[i]);
            }
        }
        lemma_three_parts(payload, cursor, value_at, end);
    }
}

proof fn lemma_three_parts(payload: Seq<u8>, a: int, b: int, c: int)
    requires
        4 <= a <= b <= c <= payload.len(),
    ensures
        payload.subrange(4, c) == payload.subrange(4, a) + payload.subrange(a, b)
            + payload.subrange(b, c),
{
    assert(payload.subrange(4, c) =~= payload.subrange(4, a) + payload.subrange(a, b)
        + payload.subrange(b, c));
}

proof fn lemma_string_sound(payload: Seq<u8>, cursor: int)
    requires
        0 <= cursor,
        string_at(payload, cursor) is Some,
    ensures
        ({
            let (s, end) = string_at(payload, cursor)->0;
            &&& cursor + 4 <= end <= payload.len()
            &&& vstd::utf8::encode_utf8(s).len() <= u32::MAX
            &&& payload.subrange(cursor, end) == encoded_string(s)
        }),
{
    let len = le::word_at(payload, cursor);
    let bytes = payload.subrange(cursor + 4, cursor + 4 + len);
    vstd::utf8::decode_utf8_encode_utf8(bytes);
    le::lemma_le_bytes_of_value(payload.subrange(cursor, cursor + 4));
    assert(payload.subrange(cursor, cursor + 4 + len) =~= payload.subrange(cursor, cursor + 4)
        + bytes);
}

} // verus!
