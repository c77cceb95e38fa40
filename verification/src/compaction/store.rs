//! CCR — Compress-Cache-Retrieve store.
//!
//! When a compressor drops data, the original is stowed here under a short
//! content hash so that it can be retrieved on demand. The store is a
//! bounded FIFO: once it holds `MAX_ENTRIES` originals, stowing a new one
//! evicts the oldest. Keyed by content hash, so stowing identical content
//! again is idempotent.

use vstd::prelude::*;
use sha2::Digest;
use crate::text::{chars_eq, chars_of, slice, string_from_chars};

verus! {

/// Max originals retained.
pub const MAX_ENTRIES: usize = 256;
/// Bytes of the SHA-256 digest used for the key (12 hex characters).
pub const HASH_BYTES: usize = 6;

/// The SHA-256 digest of `data`.
pub uninterp spec fn sha256_digest(data: Seq<u8>) -> Seq<u8>;

/// `sha2::Sha256::digest`: the SHA-256 digest of `data`, which is always 32
/// bytes long. What the digest is beyond its length is not stated.
#[verifier::external_body]
fn sha256(data: &[u8]) -> (d: Vec<u8>)
    ensures
        d@ == sha256_digest(data@),
        d@.len() == 32,
{
    sha2::Sha256::digest(data).to_vec()
}

/// Lowercase hexadecimal digit for `n < 16`.
pub open spec fn hex_digit(n: nat) -> char {
    if n < 10 {
        ((48 + n) as u8) as char
    } else {
        ((87 + n) as u8) as char
    }
}

/// Lowercase hexadecimal rendering of `bytes`, two digits per byte, most
/// significant digit first.
pub open spec fn hex_of(bytes: Seq<u8>) -> Seq<char>
    decreases bytes.len(),
{
    if bytes.len() == 0 {
        seq![]
    } else {
        hex_of(bytes.drop_last()) + seq![
            hex_digit((bytes.last() / 16) as nat),
            hex_digit((bytes.last() % 16) as nat),
        ]
    }
}

/// `hex::encode`: the lowercase hexadecimal rendering of `bytes`, two digits
/// per byte.
#[verifier::external_body]
fn hex_encode(bytes: &[u8]) -> (s: String)
    ensures
        s@ == hex_of(bytes@),
{
    hex::encode(bytes)
}

/// The key of `content`: the hex rendering of the first `HASH_BYTES` bytes
/// of the SHA-256 digest of its UTF-8 bytes.
pub open spec fn key_of(content: Seq<char>) -> Seq<char> {
    hex_of(sha256_digest(vstd::utf8::encode_utf8(content)).take(HASH_BYTES as int))
}

/// Short hex content hash used as the store key.
pub fn short_hash(content: &str) -> (h: String)
    ensures
        h@ == key_of(content@),
        h@.len() == 2 * HASH_BYTES,
{
    let digest = sha256(content.as_bytes());
    let mut prefix: Vec<u8> = Vec::new();
    let mut i: usize = 0;
    while i < HASH_BYTES
        invariant
            i <= HASH_BYTES,
            digest@.len() == 32,
            prefix@ == digest@.take(i as int),
        decreases HASH_BYTES - i,
    {
        prefix.push(digest[i]);
        i = i + 1;
        proof {
            assert(digest@.take(i as int) =~= digest@.take(i - 1).push(digest@[i - 1]));
        }
    }
    proof {
        lemma_hex_len(prefix@);
    }
    hex_encode(prefix.as_slice())
}

/// A hex rendering has two digits per byte.
pub proof fn lemma_hex_len(bytes: Seq<u8>)
    ensures
        hex_of(bytes).len() == 2 * bytes.len(),
    decreases bytes.len(),
{
    if bytes.len() > 0 {
        lemma_hex_len(bytes.drop_last());
    }
}

/// The keys of the stored entries, oldest first.
pub open spec fn keys(entries: Seq<(Seq<char>, Seq<char>)>) -> Seq<Seq<char>> {
    entries.map_values(|e: (Seq<char>, Seq<char>)| e.0)
}

/// The original stored under `key`, if any.
pub open spec fn stored(entries: Seq<(Seq<char>, Seq<char>)>, key: Seq<char>) -> Option<Seq<char>>
    decreases entries.len(),
{
    if entries.len() == 0 {
        None
    } else if entries.last().0 == key {
        Some(entries.last().1)
    } else {
        stored(entries.drop_last(), key)
    }
}

/// The entries after stowing `content` under `key`: unchanged when the key
/// is already present; otherwise the new entry is appended and, beyond
/// `MAX_ENTRIES`, the oldest entries are evicted.
pub open spec fn after_offload(entries: Seq<(Seq<char>, Seq<char>)>, key: Seq<char>, content: Seq<char>) -> Seq<
    (Seq<char>, Seq<char>),
> {
    if keys(entries).contains(key) {
        entries
    } else {
        let grown = entries.push((key, content));
        if grown.len() > MAX_ENTRIES {
            grown.skip(grown.len() - MAX_ENTRIES)
        } else {
            grown
        }
    }
}

/// A bounded FIFO of originals keyed by content hash.
pub struct CcrStore {
    entries: Vec<(Vec<char>, Vec<char>)>,
}

impl CcrStore {
    /// The stored `(key, original)` pairs, oldest first.
    pub closed spec fn view(&self) -> Seq<(Seq<char>, Seq<char>)> {
        self.entries@.map_values(|e: (Vec<char>, Vec<char>)| (e.0@, e.1@))
    }

    /// At most `MAX_ENTRIES` entries, with distinct keys.
    pub closed spec fn wf(&self) -> bool {
        &&& self.entries@.len() <= MAX_ENTRIES
        &&& forall|i: int, j: int|
            0 <= i < j < self.entries@.len() ==> #[trigger] self.entries@[i].0@
                != #[trigger] self.entries@[j].0@
    }

    /// An empty store.
    pub fn new() -> (s: CcrStore)
        ensures
            s.wf(),
            s.view() == Seq::<(Seq<char>, Seq<char>)>::empty(),
    {
        let s = CcrStore { entries: Vec::new() };
        proof {
            assert(s.view() =~= Seq::<(Seq<char>, Seq<char>)>::empty());
        }
        s
    }

    /// Number of stored originals.
    pub fn len(&self) -> (n: usize)
        ensures
            n == self.view().len(),
    {
        self.entries.len()
    }
}

fn find_key(entries: &Vec<(Vec<char>, Vec<char>)>, key: &Vec<char>) -> (r: Option<usize>)
    ensures
        match r {
            Some(i) => i < entries@.len() && entries@[i as int].0@ == key@,
            None => forall|i: int| 0 <= i < entries@.len() ==> entries@[i].0@ != key@,
        },
{
    let mut i: usize = 0;
    while i < entries.len()
        invariant
            i <= entries@.len(),
            forall|k: int| 0 <= k < i ==> entries@[k].0@ != key@,
        decreases entries@.len() - i,
    {
        if chars_eq(&entries[i].0, key) {
            return Some(i);
        }
        i = i + 1;
    }
    None
}

/// Stash `content` and return its short hash. Idempotent for identical
/// content; evicts the oldest original once the store is full.
pub fn offload(store: &mut CcrStore, content: &str) -> (hash: String)
    requires
        old(store).wf(),
    ensures
        final(store).wf(),
        hash@ == key_of(content@),
        hash@.len() == 2 * HASH_BYTES,
        final(store).view() == after_offload(old(store).view(), hash@, content@),
{
    let hash = short_hash(content);
    let key = chars_of(hash.as_str());
    let ghost old_v = store.view();
    let ghost old_e = store.entries@;
    match find_key(&store.entries, &key) {
        Some(i) => {
            proof {
                assert(keys(old_v)[i as int] == key@);
            }
            hash
        },
        None => {
            proof {
                assert(!keys(old_v).contains(key@)) by {
                    if keys(old_v).contains(key@) {
                        let k = choose|k: int| 0 <= k < keys(old_v).len() && keys(old_v)[k] == key@;
                        assert(old_e[k].0@ == key@);
                    }
                }
            }
            let value = chars_of(content);
            store.entries.push((key, value));
            proof {
                assert(store.view() =~= old_v.push((hash@, content@)));
            }
            if store.entries.len() > MAX_ENTRIES {
                let ghost grown = store.entries@;
                store.entries.remove(0);
                proof {
                    assert(store.entries@ =~= grown.skip(1));
                    assert(store.view() =~= old_v.push((hash@, content@)).skip(1));
                }
            }
            hash
        },
    }
}

/// Retrieve a previously-offloaded original by hash, if still stored.
pub fn retrieve(store: &CcrStore, hash: &str) -> (r: Option<String>)
    requires
        store.wf(),
    ensures
        match r {
            Some(s) => stored(store.view(), hash@) == Some(s@),
            None => stored(store.view(), hash@) is None,
        },
{
    let key = chars_of(hash);
    let ghost v = store.view();
    let n = store.entries.len();
    let mut i: usize = n;
    proof {
        assert(v.take(n as int) =~= v);
    }
    while i > 0
        invariant
            i <= n == store.entries@.len(),
            v == store.view(),
            key@ == hash@,
            stored(v, key@) == stored(v.take(i as int), key@),
        decreases i,
    {
        proof {
            assert(v.take(i as int).drop_last() =~= v.take(i - 1));
            assert(v.take(i as int).last() == v[i - 1]);
            assert(v[i - 1] == (store.entries@[i - 1].0@, store.entries@[i - 1].1@));
        }
        if chars_eq(&store.entries[i - 1].0, &key) {
            let value = &store.entries[i - 1].1;
            return Some(string_from_chars(value));
        }
        i = i - 1;
    }
    None
}

/// Round trip: right after `content` is stowed under `key`, retrieving `key`
/// gives `content` back — unless `key` was already stored, in which case the
/// store is unchanged.
pub proof fn lemma_offload_then_retrieve(entries: Seq<(Seq<char>, Seq<char>)>, key: Seq<char>, content: Seq<char>)
    ensures
        stored(after_offload(entries, key, content), key) == if keys(entries).contains(key) {
            stored(entries, key)
        } else {
            Some(content)
        },
{
    if !keys(entries).contains(key) {
        let grown = entries.push((key, content));
        if grown.len() > MAX_ENTRIES {
            let kept = grown.skip(grown.len() - MAX_ENTRIES);
            assert(kept.last() == grown.last());
        }
    }
}

/// Stowing the same content twice leaves the store as the first time did.
pub proof fn lemma_offload_idempotent(entries: Seq<(Seq<char>, Seq<char>)>, key: Seq<char>, content: Seq<char>)
    ensures
        after_offload(after_offload(entries, key, content), key, content) == after_offload(
            entries,
            key,
            content,
        ),
{
    let once = after_offload(entries, key, content);
    if !keys(entries).contains(key) {
        assert(once.last() == (key, content));
        assert(keys(once)[once.len() - 1] == key);
        assert(keys(once).contains(key));
    }
}

/// The store never holds more than `MAX_ENTRIES` originals.
pub proof fn lemma_offload_bounded(entries: Seq<(Seq<char>, Seq<char>)>, key: Seq<char>, content: Seq<char>)
    requires
        entries.len() <= MAX_ENTRIES,
    ensures
        after_offload(entries, key, content).len() <= MAX_ENTRIES,
{
}

/// Stowing new content into a full store evicts the oldest original and
/// keeps the others in order.
pub proof fn lemma_offload_evicts_oldest(entries: Seq<(Seq<char>, Seq<char>)>, key: Seq<char>, content: Seq<char>)
    requires
        entries.len() == MAX_ENTRIES,
        !keys(entries).contains(key),
    ensures
        after_offload(entries, key, content) == entries.drop_first().push((key, content)),
{
    assert(entries.push((key, content)).skip(1) =~= entries.drop_first().push((key, content)));
}


/// The entries after stowing each `(key, content)` of `later` in turn.
pub open spec fn after_offloads(entries: Seq<(Seq<char>, Seq<char>)>, later: Seq<(Seq<char>, Seq<char>)>) -> Seq<
    (Seq<char>, Seq<char>),
>
    decreases later.len(),
{
    if later.len() == 0 {
        entries
    } else {
        after_offload(after_offloads(entries, later.drop_last()), later.last().0, later.last().1)
    }
}

/// How many of `later` stow content whose key is not stored at that moment.
pub open spec fn new_offloads(entries: Seq<(Seq<char>, Seq<char>)>, later: Seq<(Seq<char>, Seq<char>)>) -> nat
    decreases later.len(),
{
    if later.len() == 0 {
        0
    } else {
        new_offloads(entries, later.drop_last()) + if keys(after_offloads(entries, later.drop_last())).contains(
            later.last().0,
        ) {
            0nat
        } else {
            1nat
        }
    }
}

/// `key` holds `content` at one place only, at most `d` places from the
/// newest entry, in a store of at most `MAX_ENTRIES` entries.
spec fn held_recent(e: Seq<(Seq<char>, Seq<char>)>, key: Seq<char>, content: Seq<char>, d: nat) -> bool {
    &&& e.len() <= MAX_ENTRIES
    &&& exists|p: int|
        0 <= p < e.len() && e[p] == (key, content) && e.len() - 1 - p <= d && forall|q: int|
            0 <= q < e.len() && q != p ==> #[trigger] e[q].0 != key
}

proof fn lemma_stored_unique(e: Seq<(Seq<char>, Seq<char>)>, key: Seq<char>, content: Seq<char>, p: int)
    requires
        0 <= p < e.len(),
        e[p] == (key, content),
        forall|q: int| 0 <= q < e.len() && q != p ==> #[trigger] e[q].0 != key,
    ensures
        stored(e, key) == Some(content),
    decreases e.len(),
{
    if p < e.len() - 1 {
        assert(e[e.len() - 1].0 != key);
        let init = e.drop_last();
        assert forall|q: int| 0 <= q < init.len() && q != p implies #[trigger] init[q].0 != key by {
            assert(init[q] == e[q]);
        }
        lemma_stored_unique(init, key, content, p);
    }
}

proof fn lemma_held_step(
    e: Seq<(Seq<char>, Seq<char>)>,
    key: Seq<char>,
    content: Seq<char>,
    d: nat,
    k2: Seq<char>,
    c2: Seq<char>,
)
    requires
        held_recent(e, key, content, d),
        !keys(e).contains(k2) ==> d + 1 < MAX_ENTRIES,
    ensures
        held_recent(after_offload(e, k2, c2), key, content, if keys(e).contains(k2) { d } else { (d + 1) as nat }),
{
    if !keys(e).contains(k2) {
        let p = choose|p: int|
            0 <= p < e.len() && e[p] == (key, content) && e.len() - 1 - p <= d && forall|q: int|
                0 <= q < e.len() && q != p ==> #[trigger] e[q].0 != key;
        assert(keys(e)[p] == key);
        let grown = e.push((k2, c2));
        assert(k2 != key);
        if grown.len() > MAX_ENTRIES {
            let kept = grown.skip(1);
            assert(kept =~= grown.skip(grown.len() - MAX_ENTRIES));
            assert(kept[p - 1] == grown[p]);
            assert forall|q: int| 0 <= q < kept.len() && q != p - 1 implies #[trigger] kept[q].0 != key by {
                assert(kept[q] == grown[q + 1]);
            }
        } else {
            assert(grown[p] == e[p]);
            assert forall|q: int| 0 <= q < grown.len() && q != p implies #[trigger] grown[q].0 != key by {
                if q < e.len() {
                    assert(grown[q] == e[q]);
                }
            }
        }
    }
}

proof fn lemma_held_over(
    start: Seq<(Seq<char>, Seq<char>)>,
    key: Seq<char>,
    content: Seq<char>,
    later: Seq<(Seq<char>, Seq<char>)>,
)
    requires
        held_recent(start, key, content, 0),
        new_offloads(start, later) < MAX_ENTRIES,
    ensures
        held_recent(after_offloads(start, later), key, content, new_offloads(start, later)),
    decreases later.len(),
{
    if later.len() > 0 {
        let prev = later.drop_last();
        lemma_held_over(start, key, content, prev);
        lemma_held_step(
            after_offloads(start, prev),
            key,
            content,
            new_offloads(start, prev),
            later.last().0,
            later.last().1,
        );
    }
}

/// What was stowed stays retrievable while fewer than `MAX_ENTRIES` new
/// originals are stowed after it: `content`, stowed under a key not yet
/// present, is still what that key retrieves after any further stowing in
/// which fewer than `MAX_ENTRIES` stows add a key not then present.
pub proof fn lemma_retrievable_while_recent(
    entries: Seq<(Seq<char>, Seq<char>)>,
    key: Seq<char>,
    content: Seq<char>,
    later: Seq<(Seq<char>, Seq<char>)>,
)
    requires
        entries.len() <= MAX_ENTRIES,
        !keys(entries).contains(key),
        new_offloads(after_offload(entries, key, content), later) < MAX_ENTRIES,
    ensures
        stored(after_offloads(after_offload(entries, key, content), later), key) == Some(content),
{
    let start = after_offload(entries, key, content);
    let grown = entries.push((key, content));
    assert forall|q: int| 0 <= q < entries.len() implies #[trigger] entries[q].0 != key by {
        assert(keys(entries)[q] == entries[q].0);
    }
    if grown.len() > MAX_ENTRIES {
        assert(start =~= grown.skip(1));
        assert(start[start.len() - 1] == (key, content));
        assert forall|q: int| 0 <= q < start.len() && q != start.len() - 1 implies #[trigger] start[q].0 != key by {
            assert(start[q] == entries[q + 1]);
        }
    } else {
        assert(start[start.len() - 1] == (key, content));
        assert forall|q: int| 0 <= q < start.len() && q != start.len() - 1 implies #[trigger] start[q].0 != key by {
            assert(start[q] == entries[q]);
        }
    }
    assert(held_recent(start, key, content, 0));
    lemma_held_over(start, key, content, later);
    let fin = after_offloads(start, later);
    let p = choose|p: int|
        0 <= p < fin.len() && fin[p] == (key, content) && fin.len() - 1 - p <= new_offloads(start, later)
            && forall|q: int| 0 <= q < fin.len() && q != p ==> #[trigger] fin[q].0 != key;
    lemma_stored_unique(fin, key, content, p);
}

} // verus!
