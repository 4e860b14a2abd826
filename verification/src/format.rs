//! Byte layout of the records of a sorted table.
//!
//! A table's data is a run of records, one for each entry. A record is a
//! header of 21 bytes followed by the key suffix and the value:
//!
//! | bytes    | field                                                  |
//! |----------|--------------------------------------------------------|
//! | 0..4     | number of leading key bytes shared with the key before |
//! | 4..8     | length of the key suffix                               |
//! | 8..16    | sequence                                               |
//! | 16       | 0 for a tombstone, 1 for a put                         |
//! | 17..21   | length of the value                                    |
//!
//! All integers are little-endian. At a restart point a record shares
//! nothing with the key before it.

use vstd::prelude::*;
use vstd::bytes::{
    lemma_auto_spec_u32_to_from_le_bytes, lemma_auto_spec_u64_to_from_le_bytes,
    spec_u32_from_le_bytes, spec_u32_to_le_bytes, spec_u64_from_le_bytes, spec_u64_to_le_bytes,
    u32_from_le_bytes, u32_to_le_bytes, u64_from_le_bytes, u64_to_le_bytes,
};
use vstd::slice::slice_subrange;
use crate::entry::{sorted, Entry, EntryView, Value, ValueView};
use crate::order::copy_bytes;

verus! {

/// Length of a record's header.
pub const HEADER_LEN: usize = 21;

/// Key and value are short enough for their lengths to be written in four bytes.
pub open spec fn fits(e: EntryView) -> bool {
    e.user_key.len() <= u32::MAX && e.value.len() <= u32::MAX
}

/// Every entry can be written as a record.
pub open spec fn all_fit(entries: Seq<EntryView>) -> bool {
    forall|i: int| 0 <= i < entries.len() ==> fits(#[trigger] entries[i])
}

/// The tag byte of a value.
pub open spec fn tag_of(v: ValueView) -> u8 {
    match v {
        ValueView::Put(_) => 1,
        ValueView::Tombstone => 0,
    }
}

/// The payload bytes of a value; none for a tombstone.
pub open spec fn payload_of(v: ValueView) -> Seq<u8> {
    match v {
        ValueView::Put(bytes) => bytes,
        ValueView::Tombstone => Seq::empty(),
    }
}

/// The header of the record of `e` when `shared` leading key bytes are left out.
pub open spec fn encode_header(shared: nat, e: EntryView) -> Seq<u8> {
    spec_u32_to_le_bytes(shared as u32) + spec_u32_to_le_bytes(
        (e.user_key.len() - shared) as u32,
    ) + spec_u64_to_le_bytes(e.sequence) + seq![tag_of(e.value)] + spec_u32_to_le_bytes(
        e.value.len() as u32,
    )
}

/// The record of `e` when `shared` leading key bytes are left out.
pub open spec fn encode_record(shared: nat, e: EntryView) -> Seq<u8> {
    encode_header(shared, e) + e.user_key.skip(shared as int) + payload_of(e.value)
}

/// Length of the record of `e` when `shared` leading key bytes are left out.
pub open spec fn record_len(shared: nat, e: EntryView) -> nat {
    (HEADER_LEN + (e.user_key.len() - shared) + e.value.len()) as nat
}

/// Reads the record at the front of `bytes`, whose key may share a prefix
/// with `prev_key`. Gives the entry and the number of bytes it took, or
/// `None` where the bytes are no record.
pub open spec fn parse_record(bytes: Seq<u8>, prev_key: Seq<u8>) -> Option<(EntryView, nat)> {
    if bytes.len() < HEADER_LEN {
        None
    } else {
        let shared = spec_u32_from_le_bytes(bytes.subrange(0, 4)) as nat;
        let unshared = spec_u32_from_le_bytes(bytes.subrange(4, 8)) as nat;
        let sequence = spec_u64_from_le_bytes(bytes.subrange(8, 16));
        let tag = bytes[16];
        let value_len = spec_u32_from_le_bytes(bytes.subrange(17, 21)) as nat;
        let total = (HEADER_LEN + unshared + value_len) as nat;
        if tag > 1 || (tag == 0 && value_len != 0) || shared > prev_key.len() || shared + unshared
            > u32::MAX || bytes.len() < total {
            None
        } else {
            let user_key = prev_key.take(shared as int) + bytes.subrange(
                HEADER_LEN as int,
                HEADER_LEN + unshared,
            );
            let value = if tag == 0 {
                ValueView::Tombstone
            } else {
                ValueView::Put(bytes.subrange(HEADER_LEN + unshared, total as int))
            };
            Some((EntryView { user_key, sequence, value }, total))
        }
    }
}

/// The entry of the record at the front of `bytes`, where there is one.
pub open spec fn parsed_entry(bytes: Seq<u8>, prev_key: Seq<u8>) -> EntryView {
    let (e, n) = parse_record(bytes, prev_key)->0;
    e
}

/// The length of the record at the front of `bytes`, where there is one.
pub open spec fn parsed_len(bytes: Seq<u8>, prev_key: Seq<u8>) -> nat {
    let (e, n) = parse_record(bytes, prev_key)->0;
    n
}

/// Reads records from the front of `bytes` to its end. The first record may
/// share a key prefix with `prev_key`, each later one with the key before it.
pub open spec fn decode_from(bytes: Seq<u8>, prev_key: Seq<u8>) -> Option<Seq<EntryView>>
    decreases bytes.len(),
{
    if bytes.len() == 0 {
        Some(Seq::empty())
    } else {
        match parse_record(bytes, prev_key) {
            None => None,
            Some((e, n)) => if n == 0 || n > bytes.len() {
                None
            } else {
                match decode_from(bytes.skip(n as int), e.user_key) {
                    None => None,
                    Some(rest) => Some(seq![e] + rest),
                }
            },
        }
    }
}

/// The entries that `data` holds, provided it is a run of well-formed
/// records whose entries are in internal-key order.
pub open spec fn decode_table(data: Seq<u8>) -> Option<Seq<EntryView>> {
    match decode_from(data, Seq::empty()) {
        Some(entries) => if sorted(entries) {
            Some(entries)
        } else {
            None
        },
        None => None,
    }
}

/// The key that the next record may share a prefix with: the last key of
/// `entries`, or `prev_key` where there is no entry.
pub open spec fn last_key(prev_key: Seq<u8>, entries: Seq<EntryView>) -> Seq<u8> {
    if entries.len() == 0 {
        prev_key
    } else {
        entries.last().user_key
    }
}

/// A record has the length that `record_len` gives.
pub proof fn lemma_record_len(shared: nat, e: EntryView)
    requires
        shared <= e.user_key.len(),
    ensures
        encode_header(shared, e).len() == HEADER_LEN,
        encode_record(shared, e).len() == record_len(shared, e),
{
    lemma_auto_spec_u32_to_from_le_bytes();
    lemma_auto_spec_u64_to_from_le_bytes();
}

/// Reading a record gives back the entry that was written, whatever follows
/// the record, provided the shared prefix is one that the key before has.
pub proof fn lemma_parse_encoded(shared: nat, e: EntryView, prev_key: Seq<u8>, tail: Seq<u8>)
    requires
        fits(e),
        shared <= e.user_key.len(),
        shared <= prev_key.len(),
        prev_key.take(shared as int) == e.user_key.take(shared as int),
    ensures
        parse_record(encode_record(shared, e) + tail, prev_key) == Some(
            (e, record_len(shared, e)),
        ),
{
    lemma_auto_spec_u32_to_from_le_bytes();
    lemma_auto_spec_u64_to_from_le_bytes();
    lemma_record_len(shared, e);
    let header = encode_header(shared, e);
    let record = encode_record(shared, e);
    let bytes = record + tail;
    let unshared = (e.user_key.len() - shared) as nat;
    assert(bytes.subrange(0, 4) =~= spec_u32_to_le_bytes(shared as u32));
    assert(bytes.subrange(4, 8) =~= spec_u32_to_le_bytes(unshared as u32));
    assert(bytes.subrange(8, 16) =~= spec_u64_to_le_bytes(e.sequence));
    assert(bytes[16] == tag_of(e.value));
    assert(bytes.subrange(17, 21) =~= spec_u32_to_le_bytes(e.value.len() as u32));
    assert(bytes.subrange(HEADER_LEN as int, HEADER_LEN + unshared) =~= e.user_key.skip(
        shared as int,
    ));
    assert(bytes.subrange(HEADER_LEN + unshared, record_len(shared, e) as int) =~= payload_of(
        e.value,
    ));
    assert(prev_key.take(shared as int) + e.user_key.skip(shared as int) =~= e.user_key);
    assert(parse_record(bytes, prev_key) is Some);
    assert(parsed_entry(bytes, prev_key).user_key == e.user_key);
    assert(parsed_entry(bytes, prev_key).value == e.value);
}

/// What a record reads as does not depend on the bytes behind it.
pub proof fn lemma_parse_ignores_tail(bytes: Seq<u8>, prev_key: Seq<u8>, tail: Seq<u8>)
    requires
        parse_record(bytes, prev_key) is Some,
    ensures
        parse_record(bytes + tail, prev_key) == parse_record(bytes, prev_key),
{
    let longer = bytes + tail;
    assert(longer.subrange(0, 4) =~= bytes.subrange(0, 4));
    assert(longer.subrange(4, 8) =~= bytes.subrange(4, 8));
    assert(longer.subrange(8, 16) =~= bytes.subrange(8, 16));
    assert(longer.subrange(17, 21) =~= bytes.subrange(17, 21));
    assert(longer[16] == bytes[16]);
    let unshared = spec_u32_from_le_bytes(bytes.subrange(4, 8)) as nat;
    let value_len = spec_u32_from_le_bytes(bytes.subrange(17, 21)) as nat;
    let total = (HEADER_LEN + unshared + value_len) as nat;
    assert(longer.subrange(HEADER_LEN as int, HEADER_LEN + unshared) =~= bytes.subrange(
        HEADER_LEN as int,
        HEADER_LEN + unshared,
    ));
    assert(longer.subrange(HEADER_LEN + unshared, total as int) =~= bytes.subrange(
        HEADER_LEN + unshared,
        total as int,
    ));
}

/// A record that was read is at least a header long, ends within the bytes,
/// and its entry can be written again.
pub proof fn lemma_parse_bounds(bytes: Seq<u8>, prev_key: Seq<u8>)
    requires
        parse_record(bytes, prev_key) is Some,
    ensures
        HEADER_LEN <= parsed_len(bytes, prev_key) <= bytes.len(),
        fits(parsed_entry(bytes, prev_key)),
{
}

/// Every entry that was decoded can be written again.
pub proof fn lemma_decoded_fit(bytes: Seq<u8>, prev_key: Seq<u8>)
    requires
        decode_from(bytes, prev_key) is Some,
    ensures
        all_fit(decode_from(bytes, prev_key)->0),
    decreases bytes.len(),
{
    if bytes.len() > 0 {
        let (e, n) = parse_record(bytes, prev_key)->0;
        lemma_parse_bounds(bytes, prev_key);
        lemma_decoded_fit(bytes.skip(n as int), e.user_key);
    }
}

/// Data that decodes, followed by one more record, decodes to the same
/// entries followed by that record's entry.
pub proof fn lemma_decode_append(
    data: Seq<u8>,
    prev_key: Seq<u8>,
    record: Seq<u8>,
    e: EntryView,
)
    requires
        decode_from(data, prev_key) is Some,
        parse_record(record, last_key(prev_key, decode_from(data, prev_key)->0)) == Some(
            (e, record.len()),
        ),
    ensures
        decode_from(data + record, prev_key) == Some(decode_from(data, prev_key)->0.push(e)),
    decreases data.len(),
{
    let entries = decode_from(data, prev_key)->0;
    let whole = data + record;
    if data.len() == 0 {
        assert(whole =~= record);
        assert(entries =~= Seq::<EntryView>::empty());
        lemma_parse_bounds(record, prev_key);
        assert(record.skip(record.len() as int) =~= Seq::<u8>::empty());
        assert(decode_from(Seq::<u8>::empty(), e.user_key) == Some(Seq::<EntryView>::empty()));
        assert(seq![e] + Seq::<EntryView>::empty() =~= entries.push(e));
    } else {
        let (first, n) = parse_record(data, prev_key)->0;
        lemma_parse_bounds(data, prev_key);
        lemma_parse_ignores_tail(data, prev_key, record);
        let rest_data = data.skip(n as int);
        let rest = decode_from(rest_data, first.user_key)->0;
        assert(entries == seq![first] + rest);
        assert(whole.skip(n as int) =~= rest_data + record);
        assert(last_key(first.user_key, rest) == last_key(prev_key, entries)) by {
            if rest.len() > 0 {
                assert(entries.last() == rest.last());
            }
        }
        lemma_decode_append(rest_data, first.user_key, record, e);
        assert(parse_record(whole, prev_key) == Some((first, n)));
        assert(decode_from(whole.skip(n as int), first.user_key) == Some(rest.push(e)));
        assert(seq![first] + rest.push(e) =~= entries.push(e));
    }
}

/// Appends `bytes` to `buf`.
pub fn append_bytes(buf: &mut Vec<u8>, bytes: &[u8])
    ensures
        final(buf)@ == old(buf)@ + bytes@,
{
    let mut i: usize = 0;
    while i < bytes.len()
        invariant
            i <= bytes.len(),
            buf@ == old(buf)@ + bytes@.take(i as int),
        decreases bytes.len() - i,
    {
        buf.push(bytes[i]);
        proof {
            assert(bytes@.take(i as int + 1) =~= bytes@.take(i as int).push(bytes@[i as int]));
        }
        i = i + 1;
    }
    proof {
        assert(bytes@.take(i as int) =~= bytes@);
    }
}

/// Appends to `buf` the record of the entry `(user_key, sequence, value)`
/// with `shared` leading key bytes left out.
pub fn append_record(
    buf: &mut Vec<u8>,
    shared: usize,
    user_key: &[u8],
    sequence: u64,
    value: &Value,
)
    requires
        shared <= user_key@.len(),
        fits(EntryView { user_key: user_key@, sequence, value: value@ }),
    ensures
        final(buf)@ == old(buf)@ + encode_record(
            shared as nat,
            EntryView { user_key: user_key@, sequence, value: value@ },
        ),
{
    let ghost e = EntryView { user_key: user_key@, sequence, value: value@ };
    let unshared: usize = user_key.len() - shared;
    let shared_bytes = u32_to_le_bytes(shared as u32);
    let unshared_bytes = u32_to_le_bytes(unshared as u32);
    let sequence_bytes = u64_to_le_bytes(sequence);
    append_bytes(buf, shared_bytes.as_slice());
    append_bytes(buf, unshared_bytes.as_slice());
    append_bytes(buf, sequence_bytes.as_slice());
    match value {
        Value::Put(payload) => {
            let len_bytes = u32_to_le_bytes(payload.len() as u32);
            buf.push(1u8);
            append_bytes(buf, len_bytes.as_slice());
            append_bytes(buf, slice_subrange(user_key, shared, user_key.len()));
            append_bytes(buf, payload.as_slice());
        },
        Value::Tombstone => {
            let len_bytes = u32_to_le_bytes(0u32);
            buf.push(0u8);
            append_bytes(buf, len_bytes.as_slice());
            append_bytes(buf, slice_subrange(user_key, shared, user_key.len()));
        },
    }
    proof {
        assert(user_key@.subrange(shared as int, user_key@.len() as int) =~= user_key@.skip(
            shared as int,
        ));
        assert(buf@ =~= old(buf)@ + encode_record(shared as nat, e));
    }
}

/// Reads the record at the front of `bytes`; `prev_key` is the key before it.
pub fn read_record(bytes: &[u8], prev_key: &[u8]) -> (r: Option<(Entry, usize)>)
    ensures
        match r {
            Some((entry, n)) => parse_record(bytes@, prev_key@) == Some((entry@, n as nat)),
            None => parse_record(bytes@, prev_key@) is None,
        },
{
    if bytes.len() < HEADER_LEN {
        return None;
    }
    let shared = u32_from_le_bytes(slice_subrange(bytes, 0, 4));
    let unshared = u32_from_le_bytes(slice_subrange(bytes, 4, 8));
    let sequence = u64_from_le_bytes(slice_subrange(bytes, 8, 16));
    let tag = bytes[16];
    let value_len = u32_from_le_bytes(slice_subrange(bytes, 17, 21));
    if tag > 1 || (tag == 0 && value_len != 0) {
        return None;
    }
    if shared as u64 > prev_key.len() as u64 {
        return None;
    }
    if shared as u64 + unshared as u64 > u32::MAX as u64 {
        return None;
    }
    let total: u64 = HEADER_LEN as u64 + unshared as u64 + value_len as u64;
    if (bytes.len() as u64) < total {
        return None;
    }
    let key_end: usize = HEADER_LEN + unshared as usize;
    let mut user_key = copy_bytes(slice_subrange(prev_key, 0, shared as usize));
    append_bytes(&mut user_key, slice_subrange(bytes, HEADER_LEN, key_end));
    let value = if tag == 0 {
        Value::Tombstone
    } else {
        Value::Put(copy_bytes(slice_subrange(bytes, key_end, total as usize)))
    };
    proof {
        assert(prev_key@.subrange(0, shared as int) =~= prev_key@.take(shared as int));
    }
    Some((Entry { user_key, sequence, value }, total as usize))
}

} // verus!
