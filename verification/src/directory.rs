//! The directory of a container: what a scan of its entries finds.
//!
//! After the two blocks of the header an image holds entries, each a pair of
//! encoded sequences: the identifier, then the payload. There is no index.
//! A scan starts at block 2, decodes an identifier, and passes over the
//! payload behind it by the length that the payload's header announces.
//!
//! These are the definitions that the operations of `file` are stated over.

use vstd::prelude::*;
use crate::cipher::aes192_inverse;
use crate::codec::{
    append_outcome, blocks_of, cancels, chunk_count, emitted_at, encode, end_at, fits,
    lemma_change_is_unsound, lemma_decode_encoded, lemma_emitted_when_sound, payload_at,
    sound_at,
};
use crate::types::SfsErrorKind;

verus! {

/// The index of the first block of the first entry.
pub const FIRST_ENTRY: usize = 2;

/// The byte that ends each identifier of a listing: a line feed.
pub const LINE_END: u8 = 10;

/// What a search for `id` finds, scanning `file` from block `loc`, where an
/// entry begins: the index of the block at which the payload of the first
/// entry named `id` begins, nothing at the end of the file, or
/// `CorruptedFile` where an identifier is not sound or no header follows it.
pub open spec fn find_from(key: Seq<u8>, file: Seq<u128>, id: Seq<u8>, loc: int) -> Result<
    Option<int>,
    SfsErrorKind,
>
    decreases
        (if loc < file.len() {
            file.len() - loc
        } else {
            0
        }),
{
    if loc < 0 || loc >= file.len() {
        Ok(None)
    } else if !sound_at(key, file, loc) {
        Err(SfsErrorKind::CorruptedFile)
    } else {
        let value = end_at(key, file, loc);
        if payload_at(key, file, loc) == id {
            Ok(Some(value))
        } else if value >= file.len() {
            Err(SfsErrorKind::CorruptedFile)
        } else {
            find_from(key, file, id, end_at(key, file, value))
        }
    }
}

/// What a search for `id` finds in a container whose file holds `bytes`. A
/// file that is not made of whole blocks is `CorruptedFile`.
pub open spec fn find_outcome(key: Seq<u8>, bytes: Seq<u8>, id: Seq<u8>) -> Result<
    Option<int>,
    SfsErrorKind,
> {
    if bytes.len() % 16 != 0 {
        Err(SfsErrorKind::CorruptedFile)
    } else {
        find_from(key, blocks_of(bytes), id, FIRST_ENTRY as int)
    }
}

/// What reading the entry named `id` hands out, and how it ends. An
/// identifier that no entry has is `NotPresent`; a payload that is not
/// sound is `CorruptedFile`, after what could be recovered of it has been
/// handed out.
pub open spec fn read_outcome(key: Seq<u8>, bytes: Seq<u8>, id: Seq<u8>) -> (
    Seq<u8>,
    Result<(), SfsErrorKind>,
) {
    match find_outcome(key, bytes, id) {
        Err(e) => (Seq::empty(), Err(e)),
        Ok(None) => (Seq::empty(), Err(SfsErrorKind::NotPresent)),
        Ok(Some(value)) => (
            emitted_at(key, blocks_of(bytes), value),
            if sound_at(key, blocks_of(bytes), value) {
                Ok(())
            } else {
                Err(SfsErrorKind::CorruptedFile)
            },
        ),
    }
}

/// How writing an entry named `id` with a payload of `len` bytes ends, where
/// reading the payload does not fail. An identifier that an entry has is
/// `AlreadyPresent`. Otherwise the two sequences are appended, each as far
/// as `append_outcome` allows.
pub open spec fn write_outcome(key: Seq<u8>, bytes: Seq<u8>, id: Seq<u8>, len: nat) -> Result<
    (),
    SfsErrorKind,
> {
    match find_outcome(key, bytes, id) {
        Err(e) => Err(e),
        Ok(Some(_)) => Err(SfsErrorKind::AlreadyPresent),
        Ok(None) => match append_outcome(bytes.len(), id.len()) {
            Err(e) => Err(e),
            Ok(()) => append_outcome(bytes.len() + 16 * (chunk_count(id.len()) + 2), len),
        },
    }
}

/// What listing hands out from block `loc` on, where an entry begins, and
/// how it ends: each identifier in the order of the file, with a line feed
/// after it. A single block left at the end of the file is passed over. An
/// identifier that is not sound ends the listing with `CorruptedFile`
/// after what could be recovered of it; so does an identifier that no
/// header follows, and then no line feed comes after it.
pub open spec fn listed_from(key: Seq<u8>, file: Seq<u128>, loc: int) -> (
    Seq<u8>,
    Result<(), SfsErrorKind>,
)
    decreases
        (if loc < file.len() {
            file.len() - loc
        } else {
            0
        }),
{
    if loc < 0 || loc + 1 >= file.len() {
        (Seq::empty(), Ok(()))
    } else if !sound_at(key, file, loc) || end_at(key, file, loc) >= file.len() {
        (emitted_at(key, file, loc), Err(SfsErrorKind::CorruptedFile))
    } else {
        let rest = listed_from(key, file, end_at(key, file, end_at(key, file, loc)));
        (emitted_at(key, file, loc).push(LINE_END) + rest.0, rest.1)
    }
}

/// What listing a container hands out and how it ends. A file that is not
/// made of whole blocks is `CorruptedFile`.
pub open spec fn list_outcome(key: Seq<u8>, bytes: Seq<u8>) -> (Seq<u8>, Result<(), SfsErrorKind>) {
    if bytes.len() % 16 != 0 {
        (Seq::empty(), Err(SfsErrorKind::CorruptedFile))
    } else {
        listed_from(key, blocks_of(bytes), FIRST_ENTRY as int)
    }
}

/// The blocks of a run of entries, each given as its identifier and its
/// payload: the two encoded sequences of the first entry, then those of the
/// next, and so on.
pub open spec fn layout(key: Seq<u8>, entries: Seq<(Seq<u8>, Seq<u8>)>) -> Seq<u128>
    decreases entries.len(),
{
    if entries.len() == 0 {
        Seq::empty()
    } else {
        layout(key, entries.drop_last()) + encode(key, entries.last().0) + encode(
            key,
            entries.last().1,
        )
    }
}

/// Every identifier and payload of the entries has a length that a header
/// can hold.
pub open spec fn all_fit(entries: Seq<(Seq<u8>, Seq<u8>)>) -> bool {
    forall|i: int|
        0 <= i < entries.len() ==> fits((#[trigger] entries[i]).0) && fits(entries[i].1)
}

/// No entry is named `id`.
pub open spec fn absent(entries: Seq<(Seq<u8>, Seq<u8>)>, id: Seq<u8>) -> bool {
    forall|i: int| 0 <= i < entries.len() ==> (#[trigger] entries[i]).0 != id
}

/// The identifiers of the entries in order, a line feed after each.
pub open spec fn names(entries: Seq<(Seq<u8>, Seq<u8>)>) -> Seq<u8>
    decreases entries.len(),
{
    if entries.len() == 0 {
        Seq::empty()
    } else {
        names(entries.drop_last()) + entries.last().0.push(LINE_END)
    }
}

/// Whether a file that holds `bytes` is a container with exactly the given
/// entries: whole blocks, two of them the header, and behind the header the
/// layout of the entries and nothing else. This is what `create` makes and
/// what every `write` that succeeds keeps.
pub open spec fn holds(key: Seq<u8>, bytes: Seq<u8>, entries: Seq<(Seq<u8>, Seq<u8>)>) -> bool {
    &&& bytes.len() % 16 == 0
    &&& bytes.len() >= 32
    &&& blocks_of(bytes).skip(2) == layout(key, entries)
    &&& all_fit(entries)
}

/// The index of the block at which the name of an entry begins, in a
/// container in which the entries `before` stand before it.
pub open spec fn name_start(key: Seq<u8>, before: Seq<(Seq<u8>, Seq<u8>)>) -> int {
    FIRST_ENTRY + layout(key, before).len()
}

/// The index of the block at which the payload of an entry named `id`
/// begins, in a container in which the entries `before` stand before it.
pub open spec fn payload_start(key: Seq<u8>, before: Seq<(Seq<u8>, Seq<u8>)>, id: Seq<u8>) -> int {
    name_start(key, before) + encode(key, id).len()
}

/// The layout of one entry.
pub proof fn lemma_layout_one(key: Seq<u8>, id: Seq<u8>, payload: Seq<u8>)
    ensures
        layout(key, seq![(id, payload)]) == encode(key, id) + encode(key, payload),
{
    let one = seq![(id, payload)];
    assert(layout(key, one.drop_last()) =~= Seq::<u128>::empty());
    assert(layout(key, one) =~= encode(key, id) + encode(key, payload));
}

/// The layout of entries behind other entries is the one layout behind the
/// other.
pub proof fn lemma_layout_add(
    key: Seq<u8>,
    first: Seq<(Seq<u8>, Seq<u8>)>,
    second: Seq<(Seq<u8>, Seq<u8>)>,
)
    ensures
        layout(key, first + second) == layout(key, first) + layout(key, second),
    decreases second.len(),
{
    if second.len() == 0 {
        assert(first + second =~= first);
        assert(layout(key, first) + layout(key, second) =~= layout(key, first));
    } else {
        lemma_layout_add(key, first, second.drop_last());
        assert((first + second).drop_last() =~= first + second.drop_last());
        assert((first + second).last() == second.last());
        assert(layout(key, first + second) =~= layout(key, first) + layout(key, second));
    }
}

/// A search that comes to the encoding of `id` finds it there.
pub proof fn lemma_find_here(key: Seq<u8>, front: Seq<u128>, id: Seq<u8>, back: Seq<u128>)
    requires
        aes192_inverse(key),
        fits(id),
    ensures
        find_from(key, front + encode(key, id) + back, id, front.len() as int) == Ok::<
            Option<int>,
            SfsErrorKind,
        >(Some((front.len() + encode(key, id).len()) as int)),
{
    lemma_decode_encoded(key, front, id, back);
}

/// What a scan finds at an entry: a sound sequence with the name, and
/// behind it the header of the payload, from which the scan goes on to the
/// block behind the entry.
pub proof fn lemma_scan_entry(
    key: Seq<u8>,
    front: Seq<u128>,
    id: Seq<u8>,
    payload: Seq<u8>,
    back: Seq<u128>,
)
    requires
        aes192_inverse(key),
        fits(id),
        fits(payload),
    ensures
        ({
            let file = front + encode(key, id) + encode(key, payload) + back;
            let at = front.len() as int;
            let value = at + encode(key, id).len();
            &&& sound_at(key, file, at)
            &&& payload_at(key, file, at) == id
            &&& emitted_at(key, file, at) == id
            &&& end_at(key, file, at) == value
            &&& value < file.len()
            &&& end_at(key, file, value) == value + encode(key, payload).len()
        }),
{
    let name = encode(key, id);
    let data = encode(key, payload);
    let file = front + name + data + back;
    assert(file =~= front + name + (data + back));
    lemma_decode_encoded(key, front, id, data + back);
    lemma_emitted_when_sound(key, file, front.len() as int);
    assert(file =~= (front + name) + data + back);
    lemma_decode_encoded(key, front + name, payload, back);
}

/// A search for `id` that comes to entries of other names passes over them:
/// it finds what a search from the block behind them finds.
pub proof fn lemma_find_past(
    key: Seq<u8>,
    front: Seq<u128>,
    entries: Seq<(Seq<u8>, Seq<u8>)>,
    back: Seq<u128>,
    id: Seq<u8>,
)
    requires
        aes192_inverse(key),
        all_fit(entries),
        absent(entries, id),
    ensures
        find_from(key, front + layout(key, entries) + back, id, front.len() as int) == find_from(
            key,
            front + layout(key, entries) + back,
            id,
            (front.len() + layout(key, entries).len()) as int,
        ),
    decreases entries.len(),
{
    if entries.len() > 0 {
        let file = front + layout(key, entries) + back;
        let rest = entries.drop_last();
        let last = entries.last();
        let name = encode(key, last.0);
        let data = encode(key, last.1);
        let mid = front + layout(key, rest);
        let at = mid.len() as int;
        assert(last == entries[entries.len() - 1]);
        assert(find_from(key, file, id, front.len() as int) == find_from(key, file, id, at)) by {
            assert(file =~= front + layout(key, rest) + (name + data + back));
            assert(forall|i: int| 0 <= i < rest.len() ==> rest[i] == entries[i]);
            lemma_find_past(key, front, rest, name + data + back, id);
        }
        assert(find_from(key, file, id, at) == find_from(
            key,
            file,
            id,
            at + name.len() + data.len(),
        )) by {
            assert(file =~= mid + name + data + back);
            lemma_scan_entry(key, mid, last.0, last.1, back);
        }
    }
}

/// Listing passes over entries one by one: from where they begin it hands
/// out their names, and then what listing from the block behind them hands
/// out.
pub proof fn lemma_list_past(
    key: Seq<u8>,
    front: Seq<u128>,
    entries: Seq<(Seq<u8>, Seq<u8>)>,
    back: Seq<u128>,
)
    requires
        aes192_inverse(key),
        all_fit(entries),
    ensures
        listed_from(key, front + layout(key, entries) + back, front.len() as int).0 == names(
            entries,
        ) + listed_from(
            key,
            front + layout(key, entries) + back,
            (front.len() + layout(key, entries).len()) as int,
        ).0,
        listed_from(key, front + layout(key, entries) + back, front.len() as int).1 == listed_from(
            key,
            front + layout(key, entries) + back,
            (front.len() + layout(key, entries).len()) as int,
        ).1,
    decreases entries.len(),
{
    let file = front + layout(key, entries) + back;
    if entries.len() == 0 {
        assert(names(entries) + listed_from(key, file, front.len() as int).0 =~= listed_from(
            key,
            file,
            front.len() as int,
        ).0);
    } else {
        let rest = entries.drop_last();
        let last = entries.last();
        let name = encode(key, last.0);
        let data = encode(key, last.1);
        let mid = front + layout(key, rest);
        let at = mid.len() as int;
        let behind = listed_from(key, file, at + name.len() + data.len());
        assert(last == entries[entries.len() - 1]);
        assert(listed_from(key, file, front.len() as int).0 == names(rest) + listed_from(
            key,
            file,
            at,
        ).0 && listed_from(key, file, front.len() as int).1 == listed_from(key, file, at).1) by {
            assert(file =~= front + layout(key, rest) + (name + data + back));
            assert(forall|i: int| 0 <= i < rest.len() ==> rest[i] == entries[i]);
            lemma_list_past(key, front, rest, name + data + back);
        }
        assert(listed_from(key, file, at).0 == last.0.push(LINE_END) + behind.0 && listed_from(
            key,
            file,
            at,
        ).1 == behind.1) by {
            assert(file =~= mid + name + data + back);
            lemma_scan_entry(key, mid, last.0, last.1, back);
        }
        assert(names(rest) + (last.0.push(LINE_END) + behind.0) =~= names(entries) + behind.0);
    }
}

/// A search for `id` passes over entries of other names and finds the
/// first entry named `id` behind them; the sequence behind the name is sound
/// and holds the payload of that entry.
pub proof fn lemma_find_entry(
    key: Seq<u8>,
    front: Seq<u128>,
    before: Seq<(Seq<u8>, Seq<u8>)>,
    id: Seq<u8>,
    payload: Seq<u8>,
    back: Seq<u128>,
)
    requires
        aes192_inverse(key),
        all_fit(before),
        absent(before, id),
        fits(id),
        fits(payload),
    ensures
        ({
            let file = front + layout(key, before) + encode(key, id) + encode(key, payload) + back;
            let value = (front.len() + layout(key, before).len() + encode(key, id).len()) as int;
            &&& find_from(key, file, id, front.len() as int) == Ok::<Option<int>, SfsErrorKind>(
                Some(value),
            )
            &&& sound_at(key, file, value)
            &&& payload_at(key, file, value) == payload
            &&& emitted_at(key, file, value) == payload
        }),
{
    let name = encode(key, id);
    let data = encode(key, payload);
    let file = front + layout(key, before) + name + data + back;
    let mid = front + layout(key, before);
    assert(find_from(key, file, id, front.len() as int) == find_from(
        key,
        file,
        id,
        mid.len() as int,
    )) by {
        assert(file =~= front + layout(key, before) + (name + data + back));
        lemma_find_past(key, front, before, name + data + back, id);
    }
    assert(find_from(key, file, id, mid.len() as int) == Ok::<Option<int>, SfsErrorKind>(
        Some((mid.len() + name.len()) as int),
    )) by {
        assert(file =~= mid + name + (data + back));
        lemma_find_here(key, mid, id, data + back);
    }
    let value = (mid.len() + name.len()) as int;
    assert(sound_at(key, file, value) && payload_at(key, file, value) == payload) by {
        assert((mid + name).len() == value);
        lemma_decode_encoded(key, mid + name, payload, back);
    }
    lemma_emitted_when_sound(key, file, value);
}

/// Replacing a block in the back part of a file leaves the front part as
/// it is.
pub proof fn lemma_update_behind(front: Seq<u128>, back: Seq<u128>, j: int, block: u128)
    requires
        0 <= j < back.len(),
    ensures
        (front + back).update(front.len() + j, block) == front + back.update(j, block),
{
    assert((front + back).update(front.len() + j, block) =~= front + back.update(j, block));
}

/// A search for `id` comes to the entry named `id` behind entries of other
/// names and stops there with `CorruptedFile`, where a block of the name's
/// sequence behind its header has been replaced and the replacement does
/// not go unnoticed.
pub proof fn lemma_find_changed_name(
    key: Seq<u8>,
    front: Seq<u128>,
    before: Seq<(Seq<u8>, Seq<u8>)>,
    id: Seq<u8>,
    back: Seq<u128>,
    j: int,
    forged: u128,
)
    requires
        aes192_inverse(key),
        all_fit(before),
        absent(before, id),
        fits(id),
        0 <= j <= chunk_count(id.len()),
        forged != encode(key, id)[1 + j],
        j + 1 < chunk_count(id.len()) ==> !cancels(key, encode(key, id)[1 + j], forged),
    ensures
        find_from(
            key,
            (front + layout(key, before) + encode(key, id) + back).update(
                front.len() + layout(key, before).len() + 1 + j,
                forged,
            ),
            id,
            front.len() as int,
        ) == Err::<Option<int>, SfsErrorKind>(SfsErrorKind::CorruptedFile),
{
    let name = encode(key, id);
    let mid = front + layout(key, before);
    let file = mid + name + back;
    let changed = file.update(mid.len() + 1 + j, forged);
    assert(changed == front + layout(key, before) + (name + back).update(1 + j, forged)) by {
        assert(file =~= mid + (name + back));
        lemma_update_behind(mid, name + back, 1 + j, forged);
    }
    assert(find_from(key, changed, id, front.len() as int) == find_from(
        key,
        changed,
        id,
        mid.len() as int,
    )) by {
        lemma_find_past(key, front, before, (name + back).update(1 + j, forged), id);
    }
    assert(!sound_at(key, changed, mid.len() as int)) by {
        assert(file[mid.len() + 1 + j] == name[1 + j]);
        lemma_change_is_unsound(key, mid, id, back, j, forged);
    }
}

/// A search for `id` finds the entry named `id` behind entries of other
/// names, and the sequence behind the name is not sound, where a block of
/// the payload's sequence behind its header has been replaced and the
/// replacement does not go unnoticed.
pub proof fn lemma_find_changed_payload(
    key: Seq<u8>,
    front: Seq<u128>,
    before: Seq<(Seq<u8>, Seq<u8>)>,
    id: Seq<u8>,
    payload: Seq<u8>,
    back: Seq<u128>,
    j: int,
    forged: u128,
)
    requires
        aes192_inverse(key),
        all_fit(before),
        absent(before, id),
        fits(id),
        fits(payload),
        0 <= j <= chunk_count(payload.len()),
        forged != encode(key, payload)[1 + j],
        j + 1 < chunk_count(payload.len()) ==> !cancels(key, encode(key, payload)[1 + j], forged),
    ensures
        ({
            let value = (front.len() + layout(key, before).len() + encode(key, id).len()) as int;
            let changed = (front + layout(key, before) + encode(key, id) + encode(key, payload)
                + back).update(value + 1 + j, forged);
            &&& find_from(key, changed, id, front.len() as int) == Ok::<Option<int>, SfsErrorKind>(
                Some(value),
            )
            &&& !sound_at(key, changed, value)
        }),
{
    let name = encode(key, id);
    let data = encode(key, payload);
    let mid = front + layout(key, before);
    let file = mid + name + data + back;
    let value = (mid.len() + name.len()) as int;
    let changed = file.update(value + 1 + j, forged);
    let rest = (data + back).update(1 + j, forged);
    assert(changed == mid + name + rest) by {
        assert(file =~= (mid + name) + (data + back));
        lemma_update_behind(mid + name, data + back, 1 + j, forged);
    }
    assert(find_from(key, changed, id, front.len() as int) == find_from(
        key,
        changed,
        id,
        mid.len() as int,
    )) by {
        assert(changed =~= front + layout(key, before) + (name + rest));
        lemma_find_past(key, front, before, name + rest, id);
    }
    assert(find_from(key, changed, id, mid.len() as int) == Ok::<Option<int>, SfsErrorKind>(
        Some(value),
    )) by {
        lemma_find_here(key, mid, id, rest);
    }
    assert(!sound_at(key, changed, value)) by {
        assert(file[value + 1 + j] == data[1 + j]);
        lemma_change_is_unsound(key, mid + name, payload, back, j, forged);
    }
}

} // verus!
