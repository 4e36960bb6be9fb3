//! The configuration provider. Its table lies in a buffer of fixed capacity:
//! the sentinel, the length of the payload, the payload, and padding. An
//! unpatched buffer has a payload of length zero, so that every lookup comes
//! back empty and callers use their defaults.

use crate::config_values;
use crate::le;
use crate::wire_format;
use crate::wire_format::{
    deserialize_table, read_u32_le, ConfigTable, LEN_PREFIX_BYTES, MAGIC_LEN,
};
use vstd::prelude::*;
use vstd::slice::slice_subrange;

verus! {

/// The table in the provider's buffer. A length header that is missing or
/// reaches past the end stands for an empty one.
pub open spec fn table_in(blob: Seq<u8>) -> Map<Seq<char>, Seq<char>> {
    let body = blob.skip(MAGIC_LEN as int);
    let payload_len = le::word_at(body, 0);
    if body.len() < 4 || 4 + payload_len > body.len() {
        Map::empty()
    } else {
        wire_format::decoded(body.subrange(4, 4 + payload_len))
    }
}

/// Parses the table out of the provider's buffer.
pub fn parse_table(blob: &[u8]) -> (table: ConfigTable)
    requires
        blob@.len() >= MAGIC_LEN,
    ensures
        table@ == table_in(blob@),
{
    assert(blob@.len() == blob.len());
    let body = slice_subrange(blob, MAGIC_LEN, blob.len());
    assert(body@ =~= blob@.skip(MAGIC_LEN as int));
    assert(body@.len() == body.len());
    let payload_len = match read_u32_le(body, 0) {
        Some(payload_len) => payload_len as usize,
        None => {
            return ConfigTable::new();
        },
    };
    if payload_len > body.len() - LEN_PREFIX_BYTES {
        return ConfigTable::new();
    }
    deserialize_table(slice_subrange(body, LEN_PREFIX_BYTES, LEN_PREFIX_BYTES + payload_len))
}

/// What lookups go by: the cached table once there is one, and the buffer's
/// until then.
pub open spec fn served(cached: Option<ConfigTable>, blob: Seq<u8>) -> Map<Seq<char>, Seq<char>> {
    match cached {
        Some(table) => table@,
        None => table_in(blob),
    }
}

/// The cached table, parsed on the first call and reused ever after.
pub fn table<'a>(cached: &'a mut Option<ConfigTable>, blob: &[u8]) -> (table: &'a ConfigTable)
    requires
        *old(cached) is None ==> blob@.len() >= MAGIC_LEN,
    ensures
        table@ == served(*old(cached), blob@),
        *final(cached) == Some(*table),
        *old(cached) is Some ==> *final(cached) == *old(cached),
{
    if cached.is_none() {
        *cached = Some(parse_table(blob));
    }
    match cached {
        Some(table) => table,
        None => vstd::pervasive::unreached(),
    }
}

/// The provider that a component's imports of configuration are wired to.
pub struct ConfigProvider;

impl ConfigProvider {
    /// The value under `key`, if there is one.
    pub fn get(cached: &mut Option<ConfigTable>, blob: &[u8], key: String) -> (value: Option<
        String,
    >)
        requires
            *old(cached) is None ==> blob@.len() >= MAGIC_LEN,
        ensures
            (match value {
                Some(v) => served(*old(cached), blob@).contains_key(key@) && v@ == served(
                    *old(cached),
                    blob@,
                )[key@],
                None => !served(*old(cached), blob@).contains_key(key@),
            }),
            *final(cached) is Some,
            served(*final(cached), blob@) == served(*old(cached), blob@),
            *old(cached) is Some ==> *final(cached) == *old(cached),
    {
        match table(cached, blob).get(key.as_str()) {
            Some(value) => Some(value.clone()),
            None => None,
        }
    }
}

/// A buffer that holds `payload`, followed by `padding`.
pub open spec fn framed(payload: Seq<u8>, padding: Seq<u8>) -> Seq<u8> {
    wire_format::MAGIC_BYTES@ + le::le_bytes(payload.len() as u32) + payload + padding
}

/// A buffer serves the table of its payload, whatever the padding.
pub proof fn lemma_framed_table(payload: Seq<u8>, padding: Seq<u8>)
    requires
        payload.len() <= u32::MAX,
    ensures
        table_in(framed(payload, padding)) == wire_format::decoded(payload),
{
    let blob = framed(payload, padding);
    let header = le::le_bytes(payload.len() as u32);
    let body = blob.skip(MAGIC_LEN as int);
    le::lemma_le_value_of_bytes(payload.len() as u32);
    assert(body =~= header + payload + padding);
    assert(body.subrange(0, 4) =~= header);
    assert(body.subrange(4, payload.len() + 4int) =~= payload);
}

/// A buffer that was patched with serialized values serves exactly those
/// values.
pub proof fn lemma_patched(entries: Seq<(Seq<char>, Seq<char>)>, padding: Seq<u8>)
    requires
        wire_format::lengths_fit(entries),
        wire_format::encoded(entries).len() <= u32::MAX,
    ensures
        table_in(framed(wire_format::encoded(entries), padding)) == config_values::as_map(entries),
{
    lemma_framed_table(wire_format::encoded(entries), padding);
    wire_format::lemma_round_trip(entries, Seq::empty());
}

/// An unpatched buffer serves nothing: every lookup comes back empty.
pub proof fn lemma_unpatched(padding: Seq<u8>)
    ensures
        table_in(framed(Seq::empty(), padding)) == Map::<Seq<char>, Seq<char>>::empty(),
{
    lemma_framed_table(Seq::empty(), padding);
}

/// Which part of a buffer is the payload: as many bytes as the word after the
/// sentinel says, behind that word. Where the buffer ends before, there is no
/// table.
pub proof fn lemma_payload_place(blob: Seq<u8>)
    requires
        blob.len() >= 29,
    ensures
        blob.len() < 33 ==> table_in(blob) == Map::<Seq<char>, Seq<char>>::empty(),
        blob.len() >= 33 && 33 + le::word_at(blob, 29) > blob.len() ==> table_in(blob) == Map::<
            Seq<char>,
            Seq<char>,
        >::empty(),
        blob.len() >= 33 && 33 + le::word_at(blob, 29) <= blob.len() ==> table_in(blob)
            == wire_format::decoded(blob.subrange(33, 33 + le::word_at(blob, 29))),
{
    let body = blob.skip(29);
    if blob.len() >= 33 {
        assert(body.subrange(0, 4) =~= blob.subrange(29, 33));
        let n = le::word_at(blob, 29);
        if 33 + n <= blob.len() {
            assert(body.subrange(4, 4 + n) =~= blob.subrange(33, 33 + n));
        }
    }
}

/// Lookups go by the table that was parsed first, whatever the buffer holds
/// later.
pub proof fn lemma_first_table_stays(first: Seq<u8>, later: Seq<u8>, cached: ConfigTable)
    requires
        cached@ == served(None, first),
    ensures
        served(None, first) == table_in(first),
        served(Some(cached), later) == table_in(first),
{
}

} // verus!
