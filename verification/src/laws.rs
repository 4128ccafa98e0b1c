//! What holds of a container across its operations.
//!
//! The operations of `file` are stated over the scan of a file's blocks,
//! whatever the file holds. The statements here say what the scan comes to
//! on a file that is a container with known entries, see `holds`: that is
//! the file that `create` makes and that every successful `write` keeps.

use vstd::prelude::*;
use crate::cipher::{aes192_decrypt, aes192_encrypt, aes192_inverse, derived_key, KEY_COST};
use crate::codec::{
    blocks_of, cancels, chain, chunk_count, encode, fits, flatten, lemma_blocks_of_append,
    lemma_blocks_of_flatten, lemma_chain_of_prefix, lemma_decode_encoded, lemma_flatten_add,
    payload_at, sound_at,
};
use crate::directory::{
    absent, all_fit, find_outcome, holds, layout, lemma_find_changed_name,
    lemma_find_changed_payload, lemma_find_entry, lemma_find_past, lemma_layout_add,
    lemma_layout_one, lemma_list_past, list_outcome, name_start, names, payload_start,
    read_outcome, write_outcome,
};
use crate::file::open_outcome;
use crate::types::{SfsErrorKind, INTEGRITY_BLOCK};

verus! {

/// The blocks of a container are its two header blocks and the layout of its
/// entries.
proof fn lemma_container_blocks(key: Seq<u8>, bytes: Seq<u8>, entries: Seq<(Seq<u8>, Seq<u8>)>)
    requires
        holds(key, bytes, entries),
    ensures
        blocks_of(bytes) == blocks_of(bytes).take(2) + layout(key, entries),
        blocks_of(bytes).take(2).len() == 2,
{
    assert(blocks_of(bytes) =~= blocks_of(bytes).take(2) + blocks_of(bytes).skip(2));
}

/// A file of the two header blocks alone is a container without entries.
pub proof fn law_header_alone_holds(key: Seq<u8>, bytes: Seq<u8>)
    requires
        bytes.len() == 32,
    ensures
        holds(key, bytes, Seq::empty()),
{
    assert(blocks_of(bytes).skip(2) =~= layout(key, Seq::empty()));
}

/// The bytes that a successful `write` appends to a container make it a
/// container with one more entry, the new one last.
pub proof fn law_write_keeps_container(
    key: Seq<u8>,
    bytes: Seq<u8>,
    entries: Seq<(Seq<u8>, Seq<u8>)>,
    id: Seq<u8>,
    payload: Seq<u8>,
)
    requires
        holds(key, bytes, entries),
        fits(id),
        fits(payload),
    ensures
        holds(
            key,
            bytes + flatten(encode(key, id)) + flatten(encode(key, payload)),
            entries.push((id, payload)),
        ),
{
    let grown = bytes + flatten(encode(key, id)) + flatten(encode(key, payload));
    let added = encode(key, id) + encode(key, payload);
    lemma_flatten_add(encode(key, id), encode(key, payload));
    assert(grown =~= bytes + flatten(added));
    lemma_blocks_of_append(bytes, added);
    lemma_container_blocks(key, bytes, entries);
    let more = entries.push((id, payload));
    assert(more.drop_last() =~= entries);
    assert(layout(key, more) =~= layout(key, entries) + added);
    assert(blocks_of(grown).skip(2) =~= layout(key, more));
}

/// Reading finds an entry, whatever entries stand before and behind it, as
/// long as none before it has its name: reading by that name hands out the
/// payload of the entry and succeeds.
pub proof fn law_read_finds_entry(
    key: Seq<u8>,
    bytes: Seq<u8>,
    before: Seq<(Seq<u8>, Seq<u8>)>,
    id: Seq<u8>,
    payload: Seq<u8>,
    after: Seq<(Seq<u8>, Seq<u8>)>,
)
    requires
        aes192_inverse(key),
        holds(key, bytes, before + seq![(id, payload)] + after),
        absent(before, id),
    ensures
        find_outcome(key, bytes, id) is Ok,
        find_outcome(key, bytes, id)->Ok_0 is Some,
        read_outcome(key, bytes, id) == (payload, Ok::<(), SfsErrorKind>(())),
{
    let file = blocks_of(bytes);
    lemma_blocks_around_entry(key, bytes, before, id, payload, after);
    lemma_find_entry(key, file.take(2), before, id, payload, layout(key, after));
}

/// After a container has taken an entry under a name that it did not have,
/// reading by that name hands out exactly the payload that was written.
pub proof fn law_round_trip(
    key: Seq<u8>,
    bytes: Seq<u8>,
    entries: Seq<(Seq<u8>, Seq<u8>)>,
    id: Seq<u8>,
    payload: Seq<u8>,
)
    requires
        aes192_inverse(key),
        holds(key, bytes, entries),
        absent(entries, id),
        fits(id),
        fits(payload),
    ensures
        read_outcome(
            key,
            bytes + flatten(encode(key, id)) + flatten(encode(key, payload)),
            id,
        ) == (payload, Ok::<(), SfsErrorKind>(())),
{
    law_write_keeps_container(key, bytes, entries, id, payload);
    let grown = bytes + flatten(encode(key, id)) + flatten(encode(key, payload));
    assert(entries.push((id, payload)) =~= entries + seq![(id, payload)] + Seq::empty());
    law_read_finds_entry(key, grown, entries, id, payload, Seq::empty());
}

/// In a container that has no entry of a name, a search for the name finds
/// nothing, and reading by it is `NotPresent` and hands out nothing.
pub proof fn law_missing_is_not_present(
    key: Seq<u8>,
    bytes: Seq<u8>,
    entries: Seq<(Seq<u8>, Seq<u8>)>,
    id: Seq<u8>,
)
    requires
        aes192_inverse(key),
        holds(key, bytes, entries),
        absent(entries, id),
    ensures
        find_outcome(key, bytes, id) == Ok::<Option<int>, SfsErrorKind>(None),
        read_outcome(key, bytes, id) == (
            Seq::<u8>::empty(),
            Err::<(), SfsErrorKind>(SfsErrorKind::NotPresent),
        ),
{
    let file = blocks_of(bytes);
    lemma_container_blocks(key, bytes, entries);
    assert(file =~= file.take(2) + layout(key, entries) + Seq::empty());
    lemma_find_past(key, file.take(2), entries, Seq::empty(), id);
}

/// In a container that has an entry of a name, writing under that name is
/// `AlreadyPresent`, whatever the payload.
pub proof fn law_duplicate_is_rejected(
    key: Seq<u8>,
    bytes: Seq<u8>,
    before: Seq<(Seq<u8>, Seq<u8>)>,
    id: Seq<u8>,
    payload: Seq<u8>,
    after: Seq<(Seq<u8>, Seq<u8>)>,
    len: nat,
)
    requires
        aes192_inverse(key),
        holds(key, bytes, before + seq![(id, payload)] + after),
        absent(before, id),
    ensures
        write_outcome(key, bytes, id, len) == Err::<(), SfsErrorKind>(
            SfsErrorKind::AlreadyPresent,
        ),
{
    law_read_finds_entry(key, bytes, before, id, payload, after);
}

/// Listing a container hands out the names of its entries in the order in
/// which they were appended, a line feed after each, and no byte of any
/// payload.
pub proof fn law_list_names_in_order(key: Seq<u8>, bytes: Seq<u8>, entries: Seq<(Seq<u8>, Seq<u8>)>)
    requires
        aes192_inverse(key),
        holds(key, bytes, entries),
    ensures
        list_outcome(key, bytes) == (names(entries), Ok::<(), SfsErrorKind>(())),
{
    let file = blocks_of(bytes);
    lemma_container_blocks(key, bytes, entries);
    assert(file =~= file.take(2) + layout(key, entries) + Seq::empty());
    lemma_list_past(key, file.take(2), entries, Seq::empty());
    assert(names(entries) + Seq::<u8>::empty() =~= names(entries));
}

/// The chained blocks of a payload depend on nothing but the key and the
/// payload up to them: two payloads that begin with the same whole blocks
/// begin with the same chained blocks under one key. No value is drawn for
/// a sequence that would make them differ, so what two entries have in
/// common at their start shows in the file.
pub proof fn law_same_start_same_blocks(
    key: Seq<u8>,
    start: Seq<u8>,
    one: Seq<u8>,
    other: Seq<u8>,
    count: nat,
)
    requires
        16 * count <= start.len(),
    ensures
        chain(key, start + one, count) == chain(key, start + other, count),
{
    lemma_chain_of_prefix(key, start, one, count);
    lemma_chain_of_prefix(key, start, other, count);
}

/// The encoding of no bytes is a header and a checksum, both the encryption
/// of zero, with no block between them, and decoding it hands out no bytes.
pub proof fn law_empty_payload(key: Seq<u8>, front: Seq<u128>, back: Seq<u128>)
    requires
        aes192_inverse(key),
    ensures
        encode(key, Seq::empty()) == seq![aes192_encrypt(key, 0), aes192_encrypt(key, 0)],
        sound_at(key, front + encode(key, Seq::empty()) + back, front.len() as int),
        payload_at(key, front + encode(key, Seq::empty()) + back, front.len() as int) == Seq::<
            u8,
        >::empty(),
{
    assert(encode(key, Seq::empty()) =~= seq![aes192_encrypt(key, 0), aes192_encrypt(key, 0)]);
    lemma_decode_encoded(key, front, Seq::empty(), back);
}

/// A file that is not made of whole blocks is corrupted to every operation
/// on its entries: searching, reading, listing and writing all end with
/// `CorruptedFile`, and nothing is handed out. An operation that succeeds
/// has found a file of whole blocks.
pub proof fn law_ragged_file_is_corrupted(key: Seq<u8>, bytes: Seq<u8>, id: Seq<u8>, len: nat)
    requires
        bytes.len() % 16 != 0,
    ensures
        find_outcome(key, bytes, id) == Err::<Option<int>, SfsErrorKind>(
            SfsErrorKind::CorruptedFile,
        ),
        read_outcome(key, bytes, id) == (
            Seq::<u8>::empty(),
            Err::<(), SfsErrorKind>(SfsErrorKind::CorruptedFile),
        ),
        list_outcome(key, bytes) == (
            Seq::<u8>::empty(),
            Err::<(), SfsErrorKind>(SfsErrorKind::CorruptedFile),
        ),
        write_outcome(key, bytes, id, len) == Err::<(), SfsErrorKind>(SfsErrorKind::CorruptedFile),
{
}

/// A container, as `create` makes it and `write` keeps it, is a file of
/// whole blocks, and so is every file that a search, a read or a listing
/// has gone through without a failure.
pub proof fn law_whole_blocks(key: Seq<u8>, bytes: Seq<u8>, entries: Seq<(Seq<u8>, Seq<u8>)>, id: Seq<u8>)
    ensures
        holds(key, bytes, entries) ==> bytes.len() % 16 == 0,
        find_outcome(key, bytes, id) is Ok ==> bytes.len() % 16 == 0,
        read_outcome(key, bytes, id).1 is Ok ==> bytes.len() % 16 == 0,
        list_outcome(key, bytes).1 is Ok ==> bytes.len() % 16 == 0,
{
}

/// The header that `create` writes for a password opens with that
/// password, under the key of the container that was created.
pub proof fn law_created_container_opens(key: Seq<u8>, bytes: Seq<u8>, password: Seq<char>)
    requires
        aes192_inverse(key),
        bytes.len() >= 32,
        key == derived_key(KEY_COST, blocks_of(bytes)[0], password),
        blocks_of(bytes)[1] == aes192_encrypt(key, INTEGRITY_BLOCK),
    ensures
        open_outcome(bytes, password) == Ok::<Seq<u8>, SfsErrorKind>(key),
{
}

/// Appending to a file that has its header does not change how it opens:
/// the header is never written again.
pub proof fn law_appending_keeps_header(bytes: Seq<u8>, grown: Seq<u8>, password: Seq<char>)
    requires
        bytes.len() >= 32,
        bytes.is_prefix_of(grown),
    ensures
        open_outcome(grown, password) == open_outcome(bytes, password),
{
    assert(grown.subrange(0, 16) =~= bytes.subrange(0, 16));
    assert(grown.subrange(16, 32) =~= bytes.subrange(16, 32));
}

/// A container that has taken an entry under a name that it did not have
/// can be stored and opened again with its password: it opens under the
/// same key, and reading by that name hands out exactly the payload that
/// was written.
pub proof fn law_round_trip_reopened(
    key: Seq<u8>,
    bytes: Seq<u8>,
    entries: Seq<(Seq<u8>, Seq<u8>)>,
    id: Seq<u8>,
    payload: Seq<u8>,
    password: Seq<char>,
)
    requires
        aes192_inverse(key),
        holds(key, bytes, entries),
        open_outcome(bytes, password) == Ok::<Seq<u8>, SfsErrorKind>(key),
        absent(entries, id),
        fits(id),
        fits(payload),
    ensures
        open_outcome(
            bytes + flatten(encode(key, id)) + flatten(encode(key, payload)),
            password,
        ) == Ok::<Seq<u8>, SfsErrorKind>(key),
        read_outcome(
            key,
            bytes + flatten(encode(key, id)) + flatten(encode(key, payload)),
            id,
        ) == (payload, Ok::<(), SfsErrorKind>(())),
{
    let grown = bytes + flatten(encode(key, id)) + flatten(encode(key, payload));
    law_appending_keeps_header(bytes, grown, password);
    law_round_trip(key, bytes, entries, id, payload);
}

/// A password whose key does not decrypt the second block to the integrity
/// constant does not open the file: the outcome is `IncorrectPassword`.
pub proof fn law_wrong_password_fails(bytes: Seq<u8>, password: Seq<char>)
    requires
        bytes.len() >= 32,
        aes192_decrypt(
            derived_key(KEY_COST, blocks_of(bytes)[0], password),
            blocks_of(bytes)[1],
        ) != INTEGRITY_BLOCK,
    ensures
        open_outcome(bytes, password) == Err::<Seq<u8>, SfsErrorKind>(
            SfsErrorKind::IncorrectPassword,
        ),
{
}

/// The blocks of a container around one of its entries.
proof fn lemma_blocks_around_entry(
    key: Seq<u8>,
    bytes: Seq<u8>,
    before: Seq<(Seq<u8>, Seq<u8>)>,
    id: Seq<u8>,
    payload: Seq<u8>,
    after: Seq<(Seq<u8>, Seq<u8>)>,
)
    requires
        holds(key, bytes, before + seq![(id, payload)] + after),
    ensures
        blocks_of(bytes) == blocks_of(bytes).take(2) + layout(key, before) + encode(key, id)
            + encode(key, payload) + layout(key, after),
        blocks_of(bytes).take(2).len() == 2,
        all_fit(before),
        fits(id),
        fits(payload),
{
    let entries = before + seq![(id, payload)] + after;
    lemma_container_blocks(key, bytes, entries);
    lemma_layout_add(key, before + seq![(id, payload)], after);
    lemma_layout_add(key, before, seq![(id, payload)]);
    lemma_layout_one(key, id, payload);
    assert(entries[before.len() as int] == (id, payload));
    assert(forall|i: int| 0 <= i < before.len() ==> before[i] == entries[i]);
    assert(layout(key, before) + (encode(key, id) + encode(key, payload)) + layout(key, after)
        =~= layout(key, before) + encode(key, id) + encode(key, payload) + layout(key, after));
    assert(blocks_of(bytes) =~= blocks_of(bytes).take(2) + layout(key, before) + encode(key, id)
        + encode(key, payload) + layout(key, after));
}

/// Where a block of an entry's payload sequence behind its header, a chained
/// block or the checksum, is replaced by another block, reading the entry
/// is `CorruptedFile`.
///
/// `j` counts the blocks behind the header. A chained block that is not the
/// last can be replaced unnoticed by a block that `cancels`; such a block
/// is left out.
pub proof fn law_changed_payload_is_corrupted(
    key: Seq<u8>,
    bytes: Seq<u8>,
    before: Seq<(Seq<u8>, Seq<u8>)>,
    id: Seq<u8>,
    payload: Seq<u8>,
    after: Seq<(Seq<u8>, Seq<u8>)>,
    j: int,
    forged: u128,
)
    requires
        aes192_inverse(key),
        holds(key, bytes, before + seq![(id, payload)] + after),
        absent(before, id),
        0 <= j <= chunk_count(payload.len()),
        forged != blocks_of(bytes)[payload_start(key, before, id) + 1 + j],
        j + 1 < chunk_count(payload.len()) ==> !cancels(
            key,
            blocks_of(bytes)[payload_start(key, before, id) + 1 + j],
            forged,
        ),
    ensures
        read_outcome(
            key,
            flatten(blocks_of(bytes).update(payload_start(key, before, id) + 1 + j, forged)),
            id,
        ).1 == Err::<(), SfsErrorKind>(SfsErrorKind::CorruptedFile),
{
    let file = blocks_of(bytes);
    let at = payload_start(key, before, id) + 1 + j;
    lemma_blocks_around_entry(key, bytes, before, id, payload, after);
    lemma_blocks_of_flatten(file.update(at, forged));
    assert(file[at] == encode(key, payload)[1 + j]);
    lemma_find_changed_payload(key, file.take(2), before, id, payload, layout(key, after), j, forged);
}

/// Where a block of an entry's name sequence behind its header, a chained
/// block or the checksum, is replaced by another block, reading the entry
/// is `CorruptedFile`, and nothing is handed out.
///
/// `j` counts the blocks behind the header. A chained block that is not the
/// last can be replaced unnoticed by a block that `cancels`; such a block
/// is left out.
pub proof fn law_changed_name_is_corrupted(
    key: Seq<u8>,
    bytes: Seq<u8>,
    before: Seq<(Seq<u8>, Seq<u8>)>,
    id: Seq<u8>,
    payload: Seq<u8>,
    after: Seq<(Seq<u8>, Seq<u8>)>,
    j: int,
    forged: u128,
)
    requires
        aes192_inverse(key),
        holds(key, bytes, before + seq![(id, payload)] + after),
        absent(before, id),
        0 <= j <= chunk_count(id.len()),
        forged != blocks_of(bytes)[name_start(key, before) + 1 + j],
        j + 1 < chunk_count(id.len()) ==> !cancels(
            key,
            blocks_of(bytes)[name_start(key, before) + 1 + j],
            forged,
        ),
    ensures
        read_outcome(
            key,
            flatten(blocks_of(bytes).update(name_start(key, before) + 1 + j, forged)),
            id,
        ) == (Seq::<u8>::empty(), Err::<(), SfsErrorKind>(SfsErrorKind::CorruptedFile)),
{
    let file = blocks_of(bytes);
    let at = name_start(key, before) + 1 + j;
    let back = encode(key, payload) + layout(key, after);
    lemma_blocks_around_entry(key, bytes, before, id, payload, after);
    lemma_blocks_of_flatten(file.update(at, forged));
    assert(file =~= file.take(2) + layout(key, before) + encode(key, id) + back);
    assert(file[at] == encode(key, id)[1 + j]);
    lemma_find_changed_name(key, file.take(2), before, id, back, j, forged);
}

} // verus!
