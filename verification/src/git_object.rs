//! Loose objects: kinds, the `<kind> <size>\0` header, and framing.
//!
//! An object is an immutable byte sequence `<kind> <size>\x00<payload>`
//! whose identity is the SHA-1 of that whole framed form.
use vstd::prelude::*;
use vstd::string::{StrSliceExecFns, StringExecFns};
use vstd::utf8::{decode_utf8, valid_utf8};

use crate::errors::GitError;
use crate::hashing::{hash_data, hex_digit, hex_of, sha1_of, to_hex};
use crate::text::{
    all_digits, bytes_of_ascii, dec_chars, dec_val, is_digit, lemma_ascii_encode,
    lemma_dec_chars_ok, parse_u64_chars, push_dec_bytes, str_eq,
};

verus! {

/// The kinds an object record can carry. Loose objects use the first
/// four; the last two appear only as pack record kinds.
#[derive(Clone, Copy, Debug, PartialEq, Eq, Structural)]
pub enum ObjectType {
    Blob,
    Tree,
    Commit,
    Tag,
    OfsDelta,
    RefDelta,
}

/// Whether `t` can head a loose object.
pub open spec fn is_loose_kind(t: ObjectType) -> bool {
    t == ObjectType::Blob || t == ObjectType::Tree || t == ObjectType::Commit || t
        == ObjectType::Tag
}

/// The name of a loose kind, as written in an object header.
pub open spec fn kind_chars(t: ObjectType) -> Seq<char> {
    match t {
        ObjectType::Blob => seq!['b', 'l', 'o', 'b'],
        ObjectType::Tree => seq!['t', 'r', 'e', 'e'],
        ObjectType::Commit => seq!['c', 'o', 'm', 'm', 'i', 't'],
        ObjectType::Tag => seq!['t', 'a', 'g'],
        ObjectType::OfsDelta => Seq::empty(),
        ObjectType::RefDelta => Seq::empty(),
    }
}

/// `i` is the position of the only space in `s`.
pub open spec fn header_split_at(s: Seq<char>, i: int) -> bool {
    &&& 0 <= i < s.len()
    &&& s[i] == ' '
    &&& forall|j: int| 0 <= j < s.len() && j != i ==> s[j] != ' '
}

/// What stands left and right of the space at `i` names the kind `t` and
/// the size `n`.
pub open spec fn header_fields_at(s: Seq<char>, i: int, t: ObjectType, n: nat) -> bool {
    &&& is_loose_kind(t)
    &&& s.take(i) == kind_chars(t)
    &&& i + 1 < s.len()
    &&& all_digits(s.skip(i + 1))
    &&& dec_val(s.skip(i + 1)) == n
    &&& n <= usize::MAX
}

/// `s` is a well-formed object header naming kind `t` and size `n`.
pub open spec fn header_parsed(s: Seq<char>, t: ObjectType, n: nat) -> bool {
    exists|i: int| header_split_at(s, i) && header_fields_at(s, i, t, n)
}

/// `s` is a well-formed object header.
pub open spec fn header_valid(s: Seq<char>) -> bool {
    exists|t: ObjectType, n: nat| header_parsed(s, t, n)
}

/// Two positions can both split a header only if they coincide.
proof fn lemma_split_unique(s: Seq<char>, i1: int, i2: int)
    requires
        header_split_at(s, i1),
        header_split_at(s, i2),
    ensures
        i1 == i2,
{
}

/// A header names one kind and one size.
pub proof fn lemma_header_parsed_unique(s: Seq<char>, t1: ObjectType, n1: nat, t2: ObjectType, n2: nat)
    requires
        header_parsed(s, t1, n1),
        header_parsed(s, t2, n2),
    ensures
        t1 == t2,
        n1 == n2,
{
    let i1 = choose|i: int| header_split_at(s, i) && header_fields_at(s, i, t1, n1);
    let i2 = choose|i: int| header_split_at(s, i) && header_fields_at(s, i, t2, n2);
    lemma_split_unique(s, i1, i2);
    assert(kind_chars(t1) == kind_chars(t2));
    if t1 != t2 {
        assert(kind_chars(t1).len() == kind_chars(t2).len());
        assert(kind_chars(t1)[0] == kind_chars(t2)[0]);
        assert(kind_chars(t1)[1] == kind_chars(t2)[1]);
        assert(false);
    }
}

/// Parses a `<kind> <size>` header line. Succeeds exactly on a
/// well-formed header and then returns its kind and size.
pub fn identify_header(header: &String) -> (r: Result<(ObjectType, usize), GitError>)
    ensures
        match r {
            Ok(p) => header_parsed(header@, p.0, p.1 as nat),
            Err(e) => e == GitError::Decode && !header_valid(header@),
        },
        r is Ok <==> header_valid(header@),
{
    let s = header.as_str();
    let n = s.unicode_len();
    let mut i: usize = 0;
    while i < n && s.get_char(i) != ' '
        invariant
            0 <= i <= n,
            n == s@.len(),
            s@ == header@,
            forall|j: int| 0 <= j < i ==> s@[j] != ' ',
        decreases n - i,
    {
        i = i + 1;
    }
    if i == n {
        proof {
            if header_valid(header@) {
                let (t, sz) = choose|t: ObjectType, sz: nat| header_parsed(header@, t, sz);
                let k = choose|k: int|
                    header_split_at(header@, k) && header_fields_at(header@, k, t, sz);
                assert(header@[k] == ' ');
                assert(false);
            }
        }
        return Err(GitError::Decode);
    }
    let mut j: usize = i + 1;
    while j < n
        invariant
            i < j <= n,
            n == s@.len(),
            s@ == header@,
            s@[i as int] == ' ',
            forall|k: int| i < k < j ==> s@[k] != ' ',
            forall|k: int| 0 <= k < i ==> s@[k] != ' ',
        decreases n - j,
    {
        if s.get_char(j) == ' ' {
            proof {
                if header_valid(header@) {
                    let (t, sz) = choose|t: ObjectType, sz: nat| header_parsed(header@, t, sz);
                    let k = choose|k: int|
                        header_split_at(header@, k) && header_fields_at(header@, k, t, sz);
                    if k == i {
                        assert(header@[j as int] == ' ');
                    } else {
                        assert(header@[i as int] == ' ');
                    }
                    assert(false);
                }
            }
            return Err(GitError::Decode);
        }
        j = j + 1;
    }
    proof {
        assert(header_split_at(header@, i as int));
    }
    let kind_str = s.substring_char(0, i);
    proof {
        assert(kind_str@ =~= header@.take(i as int));
        reveal_strlit("blob");
        reveal_strlit("tree");
        reveal_strlit("commit");
        reveal_strlit("tag");
        assert("blob"@ =~= kind_chars(ObjectType::Blob));
        assert("tree"@ =~= kind_chars(ObjectType::Tree));
        assert("commit"@ =~= kind_chars(ObjectType::Commit));
        assert("tag"@ =~= kind_chars(ObjectType::Tag));
    }
    let t: ObjectType = if str_eq(kind_str, "blob") {
        ObjectType::Blob
    } else if str_eq(kind_str, "tree") {
        ObjectType::Tree
    } else if str_eq(kind_str, "commit") {
        ObjectType::Commit
    } else if str_eq(kind_str, "tag") {
        ObjectType::Tag
    } else {
        proof {
            if header_valid(header@) {
                let (t2, sz) = choose|t2: ObjectType, sz: nat| header_parsed(header@, t2, sz);
                let k = choose|k: int|
                    header_split_at(header@, k) && header_fields_at(header@, k, t2, sz);
                lemma_split_unique(header@, k, i as int);
                assert(header@.take(i as int) == kind_chars(t2));
                assert(false);
            }
        }
        return Err(GitError::Decode);
    };
    let digits = s.substring_char(i + 1, n);
    proof {
        assert(digits@ =~= header@.skip(i + 1));
    }
    match parse_u64_chars(digits) {
        Ok(v) => {
            if v <= usize::MAX as u64 {
                proof {
                    assert(header_fields_at(header@, i as int, t, v as nat));
                    assert(header_parsed(header@, t, v as nat));
                    assert(header_valid(header@));
                }
                Ok((t, v as usize))
            } else {
                proof {
                    if header_valid(header@) {
                        let (t2, sz) = choose|t2: ObjectType, sz: nat|
                            header_parsed(header@, t2, sz);
                        let k = choose|k: int|
                            header_split_at(header@, k) && header_fields_at(header@, k, t2, sz);
                        lemma_split_unique(header@, k, i as int);
                        assert(sz == dec_val(header@.skip(i + 1)));
                        assert(false);
                    }
                }
                Err(GitError::Decode)
            }
        },
        Err(e) => {
            proof {
                if header_valid(header@) {
                    let (t2, sz) = choose|t2: ObjectType, sz: nat| header_parsed(header@, t2, sz);
                    let k = choose|k: int|
                        header_split_at(header@, k) && header_fields_at(header@, k, t2, sz);
                    lemma_split_unique(header@, k, i as int);
                    assert(sz == dec_val(header@.skip(i + 1)));
                    assert(sz <= usize::MAX);
                    assert(false);
                }
            }
            Err(e)
        },
    }
}

/// The framed form of an object: `<kind> <size>\x00<payload>`.
pub open spec fn frame_spec(t: ObjectType, payload: Seq<u8>) -> Seq<u8> {
    bytes_of_ascii(kind_chars(t)) + seq![32u8] + bytes_of_ascii(dec_chars(payload.len()))
        + seq![0u8] + payload
}

/// Frames a payload under a loose kind.
pub fn frame_object(t: ObjectType, data: &Vec<u8>) -> (r: Vec<u8>)
    requires
        is_loose_kind(t),
    ensures
        r@ == frame_spec(t, data@),
{
    let mut out: Vec<u8> = Vec::new();
    match t {
        ObjectType::Blob => {
            out.push(0x62);
            out.push(0x6c);
            out.push(0x6f);
            out.push(0x62);
        },
        ObjectType::Tree => {
            out.push(0x74);
            out.push(0x72);
            out.push(0x65);
            out.push(0x65);
        },
        ObjectType::Commit => {
            out.push(0x63);
            out.push(0x6f);
            out.push(0x6d);
            out.push(0x6d);
            out.push(0x69);
            out.push(0x74);
        },
        ObjectType::Tag => {
            out.push(0x74);
            out.push(0x61);
            out.push(0x67);
        },
        ObjectType::OfsDelta => {},
        ObjectType::RefDelta => {},
    }
    proof {
        assert(out@ =~= bytes_of_ascii(kind_chars(t)));
    }
    out.push(32);
    push_dec_bytes(data.len() as u64, &mut out);
    out.push(0);
    let mut tail = data.clone();
    out.append(&mut tail);
    proof {
        assert(out@ =~= frame_spec(t, data@));
    }
    out
}

/// The framed form of an object parses back to its kind and payload: the
/// first NUL ends the header, the header is ASCII text naming the kind
/// and the payload length, and the payload follows unchanged.
pub proof fn lemma_frame_parses(t: ObjectType, payload: Seq<u8>)
    requires
        is_loose_kind(t),
        payload.len() <= usize::MAX,
    ensures
        ({
            let f = frame_spec(t, payload);
            let hchars = kind_chars(t) + seq![' '] + dec_chars(payload.len());
            let hlen = hchars.len() as int;
            &&& f.len() == hlen + 1 + payload.len()
            &&& crate::reader_utils::first_nul_at(f, 0, hlen)
            &&& valid_utf8(f.take(hlen))
            &&& decode_utf8(f.take(hlen)) == hchars
            &&& header_parsed(hchars, t, payload.len())
            &&& f.skip(hlen + 1) == payload
        }),
{
    let f = frame_spec(t, payload);
    let kc = kind_chars(t);
    let dc = dec_chars(payload.len());
    let hchars = kc + seq![' '] + dc;
    let hlen = hchars.len() as int;
    lemma_dec_chars_ok(payload.len());
    assert(vstd::utf8::is_ascii_chars(hchars)) by {
        assert forall|i: int| 0 <= i < hchars.len() implies '\0' <= #[trigger] hchars[i]
            <= '\u{7f}' by {
            if i < kc.len() {
                assert(hchars[i] == kc[i]);
            } else if i == kc.len() {
                assert(hchars[i] == ' ');
            } else {
                assert(hchars[i] == dc[i - kc.len() - 1]);
            }
        }
    }
    lemma_ascii_encode(hchars);
    assert(f.take(hlen) =~= bytes_of_ascii(hchars));
    assert(f[hlen] == 0);
    assert forall|j: int| 0 <= j < hlen implies f[j] != 0 by {
        assert(f[j] == bytes_of_ascii(hchars)[j]);
        if j < kc.len() {
            assert(hchars[j] == kc[j]);
        } else if j == kc.len() {
            assert(hchars[j] == ' ');
        } else {
            assert(hchars[j] == dc[j - kc.len() - 1]);
            assert(is_digit(hchars[j]));
        }
    }
    assert(crate::reader_utils::first_nul_at(f, 0, hlen));
    assert(header_split_at(hchars, kc.len() as int)) by {
        assert(hchars[kc.len() as int] == ' ');
        assert forall|j: int| 0 <= j < hchars.len() && j != kc.len() implies hchars[j] != ' ' by {
            if j < kc.len() {
                assert(hchars[j] == kc[j]);
            } else {
                assert(hchars[j] == dc[j - kc.len() - 1]);
                assert(is_digit(hchars[j]));
            }
        }
    }
    assert(header_fields_at(hchars, kc.len() as int, t, payload.len())) by {
        assert(hchars.take(kc.len() as int) =~= kc);
        assert(hchars.skip(kc.len() as int + 1) =~= dc);
    }
    assert(header_parsed(hchars, t, payload.len()));
    assert(f.skip(hlen + 1) =~= payload);
}

/// One stored object: its 20-byte identity and its framed bytes.
struct StoreEntry {
    id: Vec<u8>,
    data: Vec<u8>,
}

/// The in-memory object store: framed objects keyed by their SHA-1
/// identity. The surrounding binary mirrors it to and from
/// `objects/<2-hex>/<38-hex>` files, compressed.
pub struct Store {
    objects: Vec<StoreEntry>,
}

/// First-match lookup over (identity, framed bytes) pairs.
pub open spec fn entries_lookup(entries: Seq<(Seq<u8>, Seq<u8>)>, id: Seq<u8>) -> Option<Seq<u8>>
    decreases entries.len(),
{
    if entries.len() == 0 {
        None
    } else if entries[0].0 == id {
        Some(entries[0].1)
    } else {
        entries_lookup(entries.drop_first(), id)
    }
}

impl Store {
    /// The stored (identity, framed bytes) pairs, in insertion order.
    pub closed spec fn entries(self) -> Seq<(Seq<u8>, Seq<u8>)> {
        self.objects@.map(|i: int, e: StoreEntry| (e.id@, e.data@))
    }

    /// The stored identities, in insertion order.
    pub open spec fn ids(self) -> Seq<Seq<u8>> {
        self.entries().map(|i: int, e: (Seq<u8>, Seq<u8>)| e.0)
    }

    /// The framed bytes stored under `id`, if any.
    pub open spec fn lookup(self, id: Seq<u8>) -> Option<Seq<u8>> {
        entries_lookup(self.entries(), id)
    }

    /// Whether an object with identity `id` is stored.
    pub open spec fn contains(self, id: Seq<u8>) -> bool {
        self.lookup(id) is Some
    }

    /// Every entry is keyed by the SHA-1 of its bytes, and no identity
    /// repeats.
    pub open spec fn wf(self) -> bool {
        &&& forall|i: int|
            0 <= i < self.entries().len() ==> (#[trigger] self.entries()[i]).0 == sha1_of(
                self.entries()[i].1,
            ) && self.entries()[i].0.len() == 20
        &&& forall|i: int, j: int|
            0 <= i < j < self.entries().len() ==> (#[trigger] self.entries()[i]).0 != (
            #[trigger] self.entries()[j]).0
    }

    /// An empty store.
    pub fn new() -> (r: Store)
        ensures
            r.wf(),
            r.entries().len() == 0,
            forall|id: Seq<u8>| r.lookup(id) is None,
    {
        let r = Store { objects: Vec::new() };
        proof {
            assert(r.entries() =~= Seq::<(Seq<u8>, Seq<u8>)>::empty());
        }
        r
    }

    /// How many objects are stored.
    pub fn object_count(&self) -> (r: usize)
        ensures
            r == self.entries().len(),
    {
        self.objects.len()
    }

    /// The identity and framed bytes of the entry at `i`, in insertion
    /// order.
    pub fn entry_at(&self, i: usize) -> (r: (Vec<u8>, Vec<u8>))
        requires
            i < self.entries().len(),
        ensures
            (r.0@, r.1@) == self.entries()[i as int],
    {
        let id = bytes_dup(&self.objects[i].id);
        let data = bytes_dup(&self.objects[i].data);
        proof {
            assert(self.entries()[i as int] == (self.objects@[i as int].id@, self.objects@[i as int].data@));
        }
        (id, data)
    }
}

/// Looking up an identity that no entry carries yields nothing.
proof fn lemma_lookup_none(entries: Seq<(Seq<u8>, Seq<u8>)>, id: Seq<u8>)
    requires
        forall|j: int| 0 <= j < entries.len() ==> (#[trigger] entries[j]).0 != id,
    ensures
        entries_lookup(entries, id) is None,
    decreases entries.len(),
{
    if entries.len() > 0 {
        lemma_lookup_none(entries.drop_first(), id);
    }
}

/// When identities are distinct, looking up the identity of entry `j`
/// yields that entry's bytes.
proof fn lemma_lookup_at(entries: Seq<(Seq<u8>, Seq<u8>)>, j: int)
    requires
        0 <= j < entries.len(),
        forall|a: int, b: int|
            0 <= a < b < entries.len() ==> (#[trigger] entries[a]).0 != (#[trigger] entries[b]).0,
    ensures
        entries_lookup(entries, entries[j].0) == Some(entries[j].1),
    decreases entries.len(),
{
    if j > 0 {
        assert(entries[0].0 != entries[j].0);
        lemma_lookup_at(entries.drop_first(), j - 1);
        assert(entries.drop_first()[j - 1] == entries[j]);
    }
}

/// Updating entry `i` in place changes only what its identity maps to.
proof fn lemma_lookup_update(entries: Seq<(Seq<u8>, Seq<u8>)>, i: int, d2: Seq<u8>, q: Seq<u8>)
    requires
        0 <= i < entries.len(),
        forall|a: int, b: int|
            0 <= a < b < entries.len() ==> (#[trigger] entries[a]).0 != (#[trigger] entries[b]).0,
    ensures
        entries_lookup(entries.update(i, (entries[i].0, d2)), q) == (if q == entries[i].0 {
            Some(d2)
        } else {
            entries_lookup(entries, q)
        }),
    decreases entries.len(),
{
    let upd = entries.update(i, (entries[i].0, d2));
    if i == 0 {
        if q != entries[0].0 {
            assert(upd.drop_first() =~= entries.drop_first());
        }
    } else {
        assert(upd[0] == entries[0]);
        assert(upd.drop_first() =~= entries.drop_first().update(i - 1, (entries[i].0, d2)));
        assert(entries.drop_first()[i - 1] == entries[i]);
        lemma_lookup_update(entries.drop_first(), i - 1, d2, q);
        if q == entries[i].0 {
            assert(entries[0].0 != entries[i].0);
        }
    }
}

/// Appending an entry changes only what its identity maps to, and only
/// if that identity was absent.
proof fn lemma_lookup_push(entries: Seq<(Seq<u8>, Seq<u8>)>, e: (Seq<u8>, Seq<u8>), q: Seq<u8>)
    ensures
        entries_lookup(entries.push(e), q) == (match entries_lookup(entries, q) {
            Some(v) => Some(v),
            None => if q == e.0 {
                Some(e.1)
            } else {
                None
            },
        }),
    decreases entries.len(),
{
    if entries.len() == 0 {
        assert(entries.push(e)[0] == e);
        assert(entries.push(e).drop_first() =~= Seq::<(Seq<u8>, Seq<u8>)>::empty());
        assert(entries_lookup(Seq::<(Seq<u8>, Seq<u8>)>::empty(), q) is None);
        assert(entries =~= Seq::<(Seq<u8>, Seq<u8>)>::empty());
    } else {
        assert(entries.push(e)[0] == entries[0]);
        assert(entries.push(e).drop_first() =~= entries.drop_first().push(e));
        lemma_lookup_push(entries.drop_first(), e, q);
    }
}

/// Byte-vector equality.
pub(crate) fn bytes_eq(a: &Vec<u8>, b: &Vec<u8>) -> (r: bool)
    ensures
        r == (a@ == b@),
{
    if a.len() != b.len() {
        return false;
    }
    let mut j: usize = 0;
    while j < a.len()
        invariant
            0 <= j <= a@.len(),
            a@.len() == b@.len(),
            forall|i: int| 0 <= i < j ==> a@[i] == b@[i],
        decreases a@.len() - j,
    {
        if a[j] != b[j] {
            return false;
        }
        j = j + 1;
    }
    proof {
        assert(a@ =~= b@);
    }
    true
}

/// Duplicates a byte vector.
fn bytes_dup(a: &Vec<u8>) -> (r: Vec<u8>)
    ensures
        r@ == a@,
{
    vstd::slice::slice_to_vec(a.as_slice())
}

/// Stores framed bytes under their SHA-1 identity and returns that
/// identity. Rewriting an already-present identity succeeds and leaves
/// its bytes stored; nothing else changes.
pub fn write_object(store: &mut Store, data: &Vec<u8>) -> (r: Vec<u8>)
    requires
        old(store).wf(),
    ensures
        final(store).wf(),
        r@ == sha1_of(data@),
        r@.len() == 20,
        final(store).lookup(sha1_of(data@)) == Some(data@),
        forall|q: Seq<u8>|
            q != sha1_of(data@) ==> final(store).lookup(q) == old(store).lookup(q),
{
    let hash = hash_data(data);
    let mut idx: usize = 0;
    let mut found: bool = false;
    while idx < store.objects.len() && !found
        invariant
            0 <= idx <= store.entries().len(),
            store.entries().len() == store.objects@.len(),
            hash@ == sha1_of(data@),
            found ==> idx < store.entries().len() && store.entries()[idx as int].0 == hash@,
            !found ==> forall|j: int|
                0 <= j < idx ==> (#[trigger] store.entries()[j]).0 != hash@,
        decreases store.objects@.len() - idx + (if found {
            0int
        } else {
            1int
        }),
    {
        if bytes_eq(&store.objects[idx].id, &hash) {
            proof {
                assert(store.entries()[idx as int].0 == store.objects@[idx as int].id@);
            }
            found = true;
        } else {
            proof {
                assert(store.entries()[idx as int].0 == store.objects@[idx as int].id@);
            }
            idx = idx + 1;
        }
    }
    let ghost old_entries = store.entries();
    if found {
        let entry = StoreEntry { id: bytes_dup(&hash), data: bytes_dup(data) };
        store.objects.remove(idx);
        store.objects.insert(idx, entry);
        proof {
            assert(store.entries() =~= old_entries.update(
                idx as int,
                (old_entries[idx as int].0, data@),
            ));
            assert forall|q: Seq<u8>| true implies entries_lookup(store.entries(), q) == (if q
                == hash@ {
                Some(data@)
            } else {
                entries_lookup(old_entries, q)
            }) by {
                lemma_lookup_update(old_entries, idx as int, data@, q);
            }
        }
    } else {
        let entry = StoreEntry { id: bytes_dup(&hash), data: bytes_dup(data) };
        store.objects.push(entry);
        proof {
            assert(store.entries() =~= old_entries.push((hash@, data@)));
            lemma_lookup_none(old_entries, hash@);
            assert forall|q: Seq<u8>| true implies entries_lookup(store.entries(), q) == (if q
                == hash@ {
                Some(data@)
            } else {
                entries_lookup(old_entries, q)
            }) by {
                lemma_lookup_push(old_entries, (hash@, data@), q);
            }
        }
    }
    hash
}

/// Frames `data` as a blob and stores it.
pub fn write_blob(store: &mut Store, data: &Vec<u8>) -> (r: Vec<u8>)
    requires
        old(store).wf(),
    ensures
        final(store).wf(),
        r@ == sha1_of(frame_spec(ObjectType::Blob, data@)),
        r@.len() == 20,
        final(store).lookup(r@) == Some(frame_spec(ObjectType::Blob, data@)),
        forall|q: Seq<u8>| q != r@ ==> final(store).lookup(q) == old(store).lookup(q),
{
    let framed = frame_object(ObjectType::Blob, data);
    write_object(store, &framed)
}

/// Frames `data` as a tree and stores it.
pub fn write_tree(store: &mut Store, data: &Vec<u8>) -> (r: Vec<u8>)
    requires
        old(store).wf(),
    ensures
        final(store).wf(),
        r@ == sha1_of(frame_spec(ObjectType::Tree, data@)),
        r@.len() == 20,
        final(store).lookup(r@) == Some(frame_spec(ObjectType::Tree, data@)),
        forall|q: Seq<u8>| q != r@ ==> final(store).lookup(q) == old(store).lookup(q),
{
    let framed = frame_object(ObjectType::Tree, data);
    write_object(store, &framed)
}

/// Frames `data` as a commit and stores it.
pub fn write_commit(store: &mut Store, data: &Vec<u8>) -> (r: Vec<u8>)
    requires
        old(store).wf(),
    ensures
        final(store).wf(),
        r@ == sha1_of(frame_spec(ObjectType::Commit, data@)),
        r@.len() == 20,
        final(store).lookup(r@) == Some(frame_spec(ObjectType::Commit, data@)),
        forall|q: Seq<u8>| q != r@ ==> final(store).lookup(q) == old(store).lookup(q),
{
    let framed = frame_object(ObjectType::Commit, data);
    write_object(store, &framed)
}

/// `name` abbreviates the hex identity of `id`.
pub open spec fn name_matches(name: Seq<char>, id: Seq<u8>) -> bool {
    name.len() <= hex_of(id).len() && hex_of(id).take(name.len() as int) == name
}

/// How many of `ids` the abbreviation `name` matches.
pub open spec fn match_count(ids: Seq<Seq<u8>>, name: Seq<char>) -> nat
    decreases ids.len(),
{
    if ids.len() == 0 {
        0
    } else {
        (if name_matches(name, ids[0]) {
            1nat
        } else {
            0nat
        }) + match_count(ids.drop_first(), name)
    }
}

/// A matching identity makes the count positive.
proof fn lemma_match_at(ids: Seq<Seq<u8>>, name: Seq<char>, j: int)
    requires
        0 <= j < ids.len(),
        name_matches(name, ids[j]),
    ensures
        match_count(ids, name) >= 1,
    decreases ids.len(),
{
    if j > 0 {
        lemma_match_at(ids.drop_first(), name, j - 1);
    }
}

/// Two distinct matching positions make the count at least two.
proof fn lemma_two_matches(ids: Seq<Seq<u8>>, name: Seq<char>, i: int, j: int)
    requires
        0 <= i < j < ids.len(),
        name_matches(name, ids[i]),
        name_matches(name, ids[j]),
    ensures
        match_count(ids, name) >= 2,
    decreases ids.len(),
{
    if i == 0 {
        lemma_match_at(ids.drop_first(), name, j - 1);
    } else {
        lemma_two_matches(ids.drop_first(), name, i - 1, j - 1);
    }
}

/// Extending the identity list by one extends the count by whether the
/// new identity matches.
proof fn lemma_match_count_push(ids: Seq<Seq<u8>>, x: Seq<u8>, name: Seq<char>)
    ensures
        match_count(ids.push(x), name) == match_count(ids, name) + (if name_matches(name, x) {
            1nat
        } else {
            0nat
        }),
    decreases ids.len(),
{
    if ids.len() == 0 {
        assert(ids.push(x)[0] == x);
        assert(ids.push(x).drop_first() =~= Seq::<Seq<u8>>::empty());
        assert(match_count(Seq::<Seq<u8>>::empty(), name) == 0);
        assert(ids =~= Seq::<Seq<u8>>::empty());
    } else {
        assert(ids.push(x)[0] == ids[0]);
        assert(ids.push(x).drop_first() =~= ids.drop_first().push(x));
        lemma_match_count_push(ids.drop_first(), x, name);
    }
}

/// A stored identity stands somewhere in the identity list.
proof fn lemma_lookup_exists(entries: Seq<(Seq<u8>, Seq<u8>)>, id: Seq<u8>)
    requires
        entries_lookup(entries, id) is Some,
    ensures
        exists|j: int| 0 <= j < entries.len() && (#[trigger] entries[j]).0 == id,
    decreases entries.len(),
{
    if entries.len() > 0 && entries[0].0 != id {
        lemma_lookup_exists(entries.drop_first(), id);
        let j = choose|j: int|
            0 <= j < entries.drop_first().len() && (#[trigger] entries.drop_first()[j]).0 == id;
        assert(entries[j + 1].0 == id);
    }
}

/// `name` abbreviates exactly one stored object, and that one is `id`.
pub open spec fn resolves_to(store: Store, name: Seq<char>, id: Seq<u8>) -> bool {
    &&& name.len() >= 2
    &&& store.contains(id)
    &&& name_matches(name, id)
    &&& match_count(store.ids(), name) == 1
}

/// Some stored object is what `name` abbreviates.
pub open spec fn can_resolve(store: Store, name: Seq<char>) -> bool {
    exists|id: Seq<u8>| resolves_to(store, name, id)
}

/// Which error a failed resolution reports: a prefix shorter than two
/// digits, no match, or more than one match.
pub open spec fn resolve_err(store: Store, name: Seq<char>, e: GitError) -> bool {
    &&& e == GitError::Decode || e == GitError::NotFound || e == GitError::Ambiguous
    &&& (e == GitError::Decode <==> name.len() < 2)
    &&& e == GitError::NotFound ==> name.len() >= 2 && match_count(store.ids(), name) == 0
    &&& e == GitError::Ambiguous ==> name.len() >= 2 && match_count(store.ids(), name) >= 2
}

/// At most one identity resolves a name.
pub proof fn lemma_resolves_unique(store: Store, name: Seq<char>, id1: Seq<u8>, id2: Seq<u8>)
    requires
        store.wf(),
        resolves_to(store, name, id1),
        resolves_to(store, name, id2),
    ensures
        id1 == id2,
{
    if id1 != id2 {
        lemma_lookup_exists(store.entries(), id1);
        lemma_lookup_exists(store.entries(), id2);
        let j1 = choose|j: int|
            0 <= j < store.entries().len() && (#[trigger] store.entries()[j]).0 == id1;
        let j2 = choose|j: int|
            0 <= j < store.entries().len() && (#[trigger] store.entries()[j]).0 == id2;
        assert(store.ids()[j1] == id1);
        assert(store.ids()[j2] == id2);
        if j1 < j2 {
            lemma_two_matches(store.ids(), name, j1, j2);
        } else {
            lemma_two_matches(store.ids(), name, j2, j1);
        }
        assert(false);
    }
}

/// Finds the index of the one entry `name` abbreviates.
fn resolve_index(store: &Store, name: &str) -> (r: Result<usize, GitError>)
    requires
        store.wf(),
    ensures
        match r {
            Ok(i) => {
                &&& i < store.entries().len()
                &&& resolves_to(*store, name@, store.entries()[i as int].0)
            },
            Err(e) => resolve_err(*store, name@, e),
        },
{
    let n = name.unicode_len();
    if n < 2 {
        return Err(GitError::Decode);
    }
    let mut j: usize = 0;
    let mut count: usize = 0;
    let mut last: usize = 0;
    while j < store.objects.len()
        invariant
            store.wf(),
            0 <= j <= store.entries().len(),
            store.entries().len() == store.objects@.len(),
            count == match_count(store.ids().take(j as int), name@),
            count <= j,
            count > 0 ==> last < j && name_matches(name@, store.entries()[last as int].0),
        decreases store.objects@.len() - j,
    {
        let hex_str = to_hex(&store.objects[j].id);
        proof {
            assert(store.entries()[j as int].0 == store.objects@[j as int].id@);
            assert(store.ids()[j as int] == store.objects@[j as int].id@);
            assert(store.ids().take(j + 1).drop_last() =~= store.ids().take(j as int));
            assert(store.ids().take(j + 1) =~= store.ids().take(j as int).push(
                store.ids()[j as int],
            ));
            lemma_match_count_push(store.ids().take(j as int), store.ids()[j as int], name@);
        }
        if crate::text::str_is_prefix(name, hex_str.as_str()) {
            count = count + 1;
            last = j;
        }
        j = j + 1;
    }
    proof {
        assert(store.ids().take(store.objects@.len() as int) =~= store.ids());
    }
    if count == 0 {
        return Err(GitError::NotFound);
    }
    if count > 1 {
        return Err(GitError::Ambiguous);
    }
    proof {
        lemma_lookup_at(store.entries(), last as int);
    }
    Ok(last)
}

/// Resolves an abbreviated identity to its full 40-digit hex form.
pub fn full_hash(store: &Store, partial_hash: &String) -> (r: Result<String, GitError>)
    requires
        store.wf(),
    ensures
        match r {
            Ok(h) => exists|id: Seq<u8>|
                #[trigger] resolves_to(*store, partial_hash@, id) && h@ == hex_of(id),
            Err(e) => resolve_err(*store, partial_hash@, e),
        },
        r is Ok <==> can_resolve(*store, partial_hash@),
{
    match resolve_index(store, partial_hash.as_str()) {
        Ok(i) => {
            let h = to_hex(&store.objects[i].id);
            proof {
                assert(store.entries()[i as int].0 == store.objects@[i as int].id@);
            }
            Ok(h)
        },
        Err(e) => {
            proof {
                if can_resolve(*store, partial_hash@) {
                    let id = choose|id: Seq<u8>| resolves_to(*store, partial_hash@, id);
                    lemma_lookup_exists(store.entries(), id);
                    let j = choose|j: int|
                        0 <= j < store.entries().len() && (#[trigger] store.entries()[j]).0 == id;
                    assert(store.ids()[j] == id);
                    lemma_match_at(store.ids(), partial_hash@, j);
                    assert(false);
                }
            }
            Err(e)
        },
    }
}

/// Opens a reader over the framed bytes of the object `object_name`
/// abbreviates.
pub fn reader(store: &Store, object_name: &String) -> (r: Result<
    crate::reader_utils::ByteReader,
    GitError,
>)
    requires
        store.wf(),
    ensures
        match r {
            Ok(rd) => exists|id: Seq<u8>|
                #[trigger] resolves_to(*store, object_name@, id) && store.lookup(id) == Some(
                    rd.data@,
                ) && rd.pos == 0,
            Err(e) => resolve_err(*store, object_name@, e),
        },
        r is Ok <==> can_resolve(*store, object_name@),
{
    match resolve_index(store, object_name.as_str()) {
        Ok(i) => {
            proof {
                lemma_lookup_at(store.entries(), i as int);
                assert(store.entries()[i as int]
                    == (store.objects@[i as int].id@, store.objects@[i as int].data@));
            }
            let data = bytes_dup(&store.objects[i].data);
            Ok(crate::reader_utils::ByteReader::new(data))
        },
        Err(e) => {
            proof {
                if can_resolve(*store, object_name@) {
                    let id = choose|id: Seq<u8>| resolves_to(*store, object_name@, id);
                    lemma_lookup_exists(store.entries(), id);
                    let j = choose|j: int|
                        0 <= j < store.entries().len() && (#[trigger] store.entries()[j]).0 == id;
                    assert(store.ids()[j] == id);
                    lemma_match_at(store.ids(), object_name@, j);
                    assert(false);
                }
            }
            Err(e)
        },
    }
}

/// The framed bytes `d` carry a well-formed header naming `t` and `n`.
pub open spec fn object_header_parsed(d: Seq<u8>, t: ObjectType, n: nat) -> bool {
    exists|k: int|
        #[trigger] crate::reader_utils::first_nul_at(d, 0, k) && valid_utf8(d.take(k))
            && header_parsed(decode_utf8(d.take(k)), t, n)
}

/// The object `name` abbreviates is stored and heads its bytes with a
/// header of kind `t`.
/// The object stored under `id` carries a header naming `t` and `n`.
pub open spec fn stored_object_has_header(store: Store, id: Seq<u8>, t: ObjectType, n: nat) -> bool {
    store.lookup(id) matches Some(d) && object_header_parsed(d, t, n)
}

pub open spec fn stored_kind(store: Store, name: Seq<char>, t: ObjectType) -> bool {
    exists|id: Seq<u8>, n: nat|
        resolves_to(store, name, id) && #[trigger] stored_object_has_header(store, id, t, n)
}

/// The first NUL of a byte sequence sits at one position only.
pub proof fn lemma_first_nul_unique(d: Seq<u8>, from: int, k1: int, k2: int)
    requires
        crate::reader_utils::first_nul_at(d, from, k1),
        crate::reader_utils::first_nul_at(d, from, k2),
    ensures
        k1 == k2,
{
}

/// Position of the first NUL byte in `s`, or `s.len()` if none occurs.
pub open spec fn nul_pos(s: Seq<u8>) -> int
    decreases s.len(),
{
    if s.len() == 0 {
        0
    } else if s[0] == 0 {
        0
    } else {
        1 + nul_pos(s.drop_first())
    }
}

/// Position of the first space in `s`, or `s.len()` if none occurs.
pub open spec fn space_pos(s: Seq<char>) -> int
    decreases s.len(),
{
    if s.len() == 0 {
        0
    } else if s[0] == ' ' {
        0
    } else {
        1 + space_pos(s.drop_first())
    }
}

/// A witnessed first NUL pins down `nul_pos`.
pub proof fn lemma_nul_pos_at(s: Seq<u8>, k: int)
    requires
        crate::reader_utils::first_nul_at(s, 0, k),
    ensures
        nul_pos(s) == k,
    decreases k,
{
    if k > 0 {
        assert(s[0] != 0);
        assert(crate::reader_utils::first_nul_at(s.drop_first(), 0, k - 1)) by {
            assert(s.drop_first()[k - 1] == s[k]);
            assert(forall|j: int|
                0 <= j < k - 1 ==> #[trigger] s.drop_first()[j] == s[j + 1] && s[j + 1] != 0);
        }
        lemma_nul_pos_at(s.drop_first(), k - 1);
    }
}

/// Without a NUL, `nul_pos` reaches the end.
pub proof fn lemma_nul_pos_none(s: Seq<u8>)
    requires
        crate::reader_utils::no_nul(s, 0, s.len() as int),
    ensures
        nul_pos(s) == s.len(),
    decreases s.len(),
{
    if s.len() > 0 {
        assert(forall|j: int|
            0 <= j < s.drop_first().len() ==> #[trigger] s.drop_first()[j] == s[j + 1] && s[j + 1]
                != 0);
        lemma_nul_pos_none(s.drop_first());
    }
}

/// A witnessed first space pins down `space_pos`.
proof fn lemma_space_pos_at(s: Seq<char>, k: int)
    requires
        0 <= k < s.len(),
        s[k] == ' ',
        forall|j: int| 0 <= j < k ==> s[j] != ' ',
    ensures
        space_pos(s) == k,
    decreases k,
{
    if k > 0 {
        assert(forall|j: int|
            0 <= j < k - 1 ==> #[trigger] s.drop_first()[j] == s[j + 1] && s[j + 1] != ' ');
        assert(s.drop_first()[k - 1] == s[k]);
        lemma_space_pos_at(s.drop_first(), k - 1);
    }
}

/// Without a space, `space_pos` reaches the end.
proof fn lemma_space_pos_none(s: Seq<char>)
    requires
        forall|j: int| 0 <= j < s.len() ==> s[j] != ' ',
    ensures
        space_pos(s) == s.len(),
    decreases s.len(),
{
    if s.len() > 0 {
        assert(forall|j: int|
            0 <= j < s.drop_first().len() ==> #[trigger] s.drop_first()[j] == s[j + 1] && s[j + 1]
                != ' ');
        lemma_space_pos_none(s.drop_first());
    }
}

/// Parses a tree payload into `(mode, name, identity)` entries: each
/// entry is `<mode-digits> <name>\x00<20-byte-identity>`, and entries
/// fill the payload exactly.
pub open spec fn tree_parse(s: Seq<u8>) -> Option<Seq<(nat, Seq<char>, Seq<u8>)>>
    decreases s.len(),
{
    if s.len() == 0 {
        Some(Seq::empty())
    } else {
        let k = nul_pos(s);
        if !(0 <= k && k < s.len()) {
            None
        } else if !valid_utf8(s.take(k)) {
            None
        } else {
            let info = decode_utf8(s.take(k));
            let i = space_pos(info);
            if i == info.len() {
                None
            } else if space_pos(info.skip(i + 1)) != info.skip(i + 1).len() {
                None
            } else if i == 0 || !all_digits(info.take(i)) || dec_val(info.take(i)) > u64::MAX {
                None
            } else if k + 21 > s.len() {
                None
            } else {
                match tree_parse(s.skip(k + 21)) {
                    None => None,
                    Some(rest) => Some(
                        seq![(dec_val(info.take(i)), info.skip(i + 1), s.subrange(k + 1, k + 21))]
                            + rest,
                    ),
                }
            }
        }
    }
}

/// One entry of a parsed tree: its decimal mode, its name, and the hex
/// form of the identity it points at.
#[derive(Debug, PartialEq)]
pub struct TreeNode {
    pub mode: u64,
    pub name: String,
    pub hash: String,
}

/// Every identity a tree payload parses to is 20 bytes long.
pub proof fn lemma_tree_parse_id_len(s: Seq<u8>)
    ensures
        tree_parse(s) matches Some(ents) ==> forall|j: int|
            0 <= j < ents.len() ==> (#[trigger] ents[j]).2.len() == 20,
    decreases s.len(),
{
    match tree_parse(s) {
        Some(ents) => {
            if s.len() > 0 {
                let k = nul_pos(s);
                lemma_tree_parse_id_len(s.skip(k + 21));
                let rest = tree_parse(s.skip(k + 21))->Some_0;
                assert forall|j: int| 0 <= j < ents.len() implies (#[trigger] ents[j]).2.len()
                    == 20 by {
                    if j > 0 {
                        assert(ents[j] == rest[j - 1]);
                    }
                }
            }
        },
        None => {},
    }
}

/// The nodes carry the parsed entries: same modes and names, and the
/// hex form of each entry's identity.
pub open spec fn nodes_match(nodes: Seq<TreeNode>, ents: Seq<(nat, Seq<char>, Seq<u8>)>) -> bool {
    &&& nodes.len() == ents.len()
    &&& forall|i: int|
        0 <= i < nodes.len() ==> (#[trigger] nodes[i]).mode == ents[i].0 && nodes[i].name@
            == ents[i].1 && nodes[i].hash@ == hex_of(ents[i].2)
}

/// The kind a header's left part names, if any.
pub open spec fn kind_of_chars(s: Seq<char>) -> Option<ObjectType> {
    if s == kind_chars(ObjectType::Blob) {
        Some(ObjectType::Blob)
    } else if s == kind_chars(ObjectType::Tree) {
        Some(ObjectType::Tree)
    } else if s == kind_chars(ObjectType::Commit) {
        Some(ObjectType::Commit)
    } else if s == kind_chars(ObjectType::Tag) {
        Some(ObjectType::Tag)
    } else {
        None
    }
}

/// The kind and size a header line parses to, as a function of its
/// text: split at the only space, the kind on the left, the size's
/// digits on the right.
pub open spec fn header_fn(s: Seq<char>) -> Option<(ObjectType, nat)> {
    let i = space_pos(s);
    if !(0 <= i < s.len()) {
        None
    } else if space_pos(s.skip(i + 1)) != s.skip(i + 1).len() {
        None
    } else {
        match kind_of_chars(s.take(i)) {
            None => None,
            Some(t) => {
                let dg = s.skip(i + 1);
                if dg.len() == 0 || !all_digits(dg) || dec_val(dg) > usize::MAX {
                    None
                } else {
                    Some((t, dec_val(dg)))
                }
            },
        }
    }
}

/// Where `space_pos` lands: on the first space, or past the end.
proof fn lemma_space_pos_charac(s: Seq<char>)
    ensures
        0 <= space_pos(s) <= s.len(),
        space_pos(s) < s.len() ==> s[space_pos(s)] == ' ',
        forall|j: int| 0 <= j < space_pos(s) ==> (#[trigger] s[j]) != ' ',
    decreases s.len(),
{
    if s.len() > 0 && s[0] != ' ' {
        lemma_space_pos_charac(s.drop_first());
        assert forall|j: int| 0 <= j < space_pos(s) implies (#[trigger] s[j]) != ' ' by {
            if j > 0 {
                assert(s.drop_first()[j - 1] == s[j]);
                assert(s.drop_first()[j - 1] != ' ');
            }
        }
    }
}

/// The witness form and the function form of header parsing agree.
pub proof fn lemma_header_fn_iff(s: Seq<char>)
    ensures
        forall|t: ObjectType, n: nat|
            #[trigger] header_parsed(s, t, n) <==> header_fn(s) == Some((t, n)),
{
    assert forall|t: ObjectType, n: nat|
        #[trigger] header_parsed(s, t, n) <==> header_fn(s) == Some((t, n)) by {
        if header_parsed(s, t, n) {
            let i = choose|i: int| header_split_at(s, i) && header_fields_at(s, i, t, n);
            lemma_space_pos_at(s, i);
            let tail = s.skip(i + 1);
            assert(forall|j: int|
                0 <= j < tail.len() ==> #[trigger] tail[j] == s[j + i + 1] && s[j + i + 1] != ' ');
            lemma_space_pos_none(tail);
            assert(kind_of_chars(s.take(i)) == Some(t)) by {
                if t != ObjectType::Blob {
                    assert(s.take(i) != kind_chars(ObjectType::Blob)) by {
                        if s.take(i) == kind_chars(ObjectType::Blob) {
                            lemma_header_parsed_unique(s, t, n, ObjectType::Blob, n);
                        }
                    }
                }
                if t != ObjectType::Tree {
                    assert(s.take(i) != kind_chars(ObjectType::Tree)) by {
                        if s.take(i) == kind_chars(ObjectType::Tree) {
                            lemma_header_parsed_unique(s, t, n, ObjectType::Tree, n);
                        }
                    }
                }
                if t != ObjectType::Commit {
                    assert(s.take(i) != kind_chars(ObjectType::Commit)) by {
                        if s.take(i) == kind_chars(ObjectType::Commit) {
                            lemma_header_parsed_unique(s, t, n, ObjectType::Commit, n);
                        }
                    }
                }
                if t != ObjectType::Tag {
                    assert(s.take(i) != kind_chars(ObjectType::Tag)) by {
                        if s.take(i) == kind_chars(ObjectType::Tag) {
                            lemma_header_parsed_unique(s, t, n, ObjectType::Tag, n);
                        }
                    }
                }
            }
        }
        if header_fn(s) == Some((t, n)) {
            let i = space_pos(s);
            lemma_space_pos_charac(s);
            assert(header_split_at(s, i)) by {
                let tail = s.skip(i + 1);
                lemma_space_pos_charac(tail);
                assert forall|j: int| 0 <= j < s.len() && j != i implies s[j] != ' ' by {
                    if j > i {
                        assert(tail[j - i - 1] == s[j]);
                        assert(tail[j - i - 1] != ' ');
                    }
                }
            }
            assert(header_fields_at(s, i, t, n)) by {
                assert(is_loose_kind(t));
                assert(s.take(i) == kind_chars(t));
            }
        }
    }
}

/// The entries of `full` are `ents` followed by whatever `rem` parses
/// to; if `rem` fails to parse, so does `full`.
pub open spec fn parse_extends(
    full: Seq<u8>,
    ents: Seq<(nat, Seq<char>, Seq<u8>)>,
    rem: Seq<u8>,
) -> bool {
    tree_parse(full) == (match tree_parse(rem) {
        None => None::<Seq<(nat, Seq<char>, Seq<u8>)>>,
        Some(rest) => Some(ents + rest),
    })
}

/// Reads `size` bytes as a tree payload and returns its entries in
/// order. Succeeds exactly when the next `size` bytes are available and
/// are a well-formed tree payload.
#[verifier::loop_isolation(false)]
#[verifier::rlimit(100)]
pub fn read_tree(reader: &mut crate::reader_utils::ByteReader, size: usize) -> (r: Result<
    Vec<TreeNode>,
    GitError,
>)
    ensures
        final(reader).data == old(reader).data,
        ({
            let region = old(reader).data@.subrange(old(reader).pos as int, old(reader).pos + size);
            match r {
                Ok(nodes) => {
                    &&& old(reader).pos + size <= old(reader).data@.len()
                    &&& final(reader).pos == old(reader).pos + size
                    &&& (tree_parse(region) matches Some(ents) && nodes_match(nodes@, ents))
                },
                Err(e) => {
                    &&& e == GitError::Io || e == GitError::Decode
                    &&& old(reader).pos + size <= old(reader).data@.len() ==> tree_parse(region)
                        is None
                },
            }
        }),
{
    let ghost data = reader.data@;
    let ghost start = reader.pos as int;
    if reader.pos > reader.data.len() || size > reader.data.len() - reader.pos {
        return Err(GitError::Io);
    }
    let ghost full = data.subrange(start, start + size);
    let mut remaining: usize = size;
    let mut result: Vec<TreeNode> = Vec::new();
    let ghost mut ents: Seq<(nat, Seq<char>, Seq<u8>)> = Seq::empty();
    proof {
        assert(data.subrange(start + (size - remaining), start + size) =~= full);
    }
    while remaining > 0
        invariant
            reader.data == old(reader).data,
            reader.data@ == data,
            remaining <= size,
            reader.pos == start + (size - remaining),
            start + size <= data.len(),
            start >= 0,
            nodes_match(result@, ents),
            parse_extends(full, ents, data.subrange(reader.pos as int, reader.pos + remaining)),
        decreases remaining,
    {
        let pos_before: usize = reader.pos;
        let ghost pos0 = reader.pos as int;
        let ghost rem = data.subrange(pos0, pos0 + remaining);
        let info = match crate::reader_utils::read_to_next_null_byte(reader) {
            Ok(s) => s,
            Err(e) => {
                proof {
                    if e == GitError::Io {
                        assert(crate::reader_utils::no_nul(rem, 0, rem.len() as int)) by {
                            assert(forall|j: int|
                                0 <= j < rem.len() ==> #[trigger] rem[j] == data[pos0 + j]);
                        }
                        lemma_nul_pos_none(rem);
                    } else {
                        let k = choose|k: int|
                            crate::reader_utils::first_nul_at(data, pos0, k) && !valid_utf8(
                                data.subrange(pos0, k),
                            );
                        if k - pos0 >= remaining {
                            assert(crate::reader_utils::no_nul(rem, 0, rem.len() as int)) by {
                                assert(forall|j: int|
                                    0 <= j < rem.len() ==> #[trigger] rem[j] == data[pos0 + j]);
                            }
                            lemma_nul_pos_none(rem);
                        } else {
                            assert(crate::reader_utils::first_nul_at(rem, 0, k - pos0)) by {
                                assert(forall|j: int|
                                    0 <= j < rem.len() ==> #[trigger] rem[j] == data[pos0 + j]);
                            }
                            lemma_nul_pos_at(rem, k - pos0);
                            assert(rem.take(k - pos0) =~= data.subrange(pos0, k));
                        }
                    }
                    assert(tree_parse(rem) is None);
                }
                return Err(e);
            },
        };
        let ghost k_abs = reader.pos - 1;
        let ghost kr = k_abs - pos0;
        proof {
            assert(crate::reader_utils::first_nul_at(data, pos0, k_abs));
        }
        let info_bytes: usize = (reader.pos - 1) - pos_before;
        proof {
            assert(info_bytes == kr);
            if kr >= remaining {
                assert(crate::reader_utils::no_nul(rem, 0, rem.len() as int)) by {
                    assert(forall|j: int|
                        0 <= j < rem.len() ==> #[trigger] rem[j] == data[pos0 + j]);
                }
                lemma_nul_pos_none(rem);
            } else {
                assert(crate::reader_utils::first_nul_at(rem, 0, kr)) by {
                    assert(forall|j: int|
                        0 <= j < rem.len() ==> #[trigger] rem[j] == data[pos0 + j]);
                }
                lemma_nul_pos_at(rem, kr);
                assert(rem.take(kr) =~= data.subrange(pos0, k_abs));
                vstd::utf8::encode_utf8_valid_utf8(info@);
                assert(valid_utf8(rem.take(kr)));
                assert(decode_utf8(rem.take(kr)) == info@);
            }
        }
        if info_bytes > remaining || remaining - info_bytes < 21 {
            proof {
                if kr < remaining {
                    assert(kr + 21 > rem.len());
                    let ichars = decode_utf8(rem.take(kr));
                    assert(ichars == info@);
                }
                assert(tree_parse(rem) is None);
            }
            return Err(GitError::Decode);
        }
        proof {
            assert(kr < remaining);
        }
        let s = info.as_str();
        let n = s.unicode_len();
        let mut i: usize = 0;
        while i < n && s.get_char(i) != ' '
            invariant
                0 <= i <= n,
                n == s@.len(),
                s@ == info@,
                forall|j: int| 0 <= j < i ==> s@[j] != ' ',
            decreases n - i,
        {
            i = i + 1;
        }
        if i == n {
            proof {
                lemma_space_pos_none(info@);
                assert(tree_parse(rem) is None);
            }
            return Err(GitError::Decode);
        }
        proof {
            lemma_space_pos_at(info@, i as int);
        }
        let mut j: usize = i + 1;
        while j < n
            invariant
                i < j <= n,
                n == s@.len(),
                s@ == info@,
                s@[i as int] == ' ',
                forall|k: int| i < k < j ==> s@[k] != ' ',
            decreases n - j,
        {
            if s.get_char(j) == ' ' {
                proof {
                    let tail = info@.skip(i + 1);
                    assert(tail[j - i - 1] == ' ');
                    assert(forall|m: int|
                        0 <= m < j - i - 1 ==> #[trigger] tail[m] == info@[m + i + 1] && info@[m + i
                            + 1] != ' ');
                    lemma_space_pos_at(tail, j - i - 1);
                    assert(tree_parse(rem) is None);
                }
                return Err(GitError::Decode);
            }
            j = j + 1;
        }
        proof {
            let tail = info@.skip(i + 1);
            assert(forall|m: int|
                0 <= m < tail.len() ==> #[trigger] tail[m] == info@[m + i + 1] && info@[m + i + 1]
                    != ' ');
            lemma_space_pos_none(tail);
        }
        let digits = s.substring_char(0, i);
        proof {
            assert(digits@ =~= info@.take(i as int));
        }
        let mode_v = match parse_u64_chars(digits) {
            Ok(v) => v,
            Err(_) => {
                proof {
                    assert(tree_parse(rem) is None);
                }
                return Err(GitError::Decode);
            },
        };
        let name_str = s.substring_char(i + 1, n);
        proof {
            assert(name_str@ =~= info@.skip(i + 1));
        }
        let name = String::from_str(name_str);
        let id_bytes = match crate::reader_utils::read_n_bytes(20, reader) {
            Ok(v) => v,
            Err(_) => {
                proof {
                    assert(false);
                }
                return Err(GitError::Io);
            },
        };
        let hash = to_hex(&id_bytes);
        let node = TreeNode { mode: mode_v, name, hash };
        result.push(node);
        let ghost entry = (mode_v as nat, info@.skip(i + 1), id_bytes@);
        proof {
            let rem2 = data.subrange(reader.pos as int, reader.pos + (remaining - (info_bytes
                + 21)));
            assert(rem.subrange(kr + 1, kr + 21) =~= id_bytes@);
            assert(rem.skip(kr + 21) =~= rem2);
            assert(tree_parse(rem) == (match tree_parse(rem2) {
                None => None::<Seq<(nat, Seq<char>, Seq<u8>)>>,
                Some(rest) => Some(seq![entry] + rest),
            }));
            assert(parse_extends(full, ents.push(entry), rem2)) by {
                match tree_parse(rem2) {
                    Some(rest) => {
                        assert(ents + (seq![entry] + rest) =~= ents.push(entry) + rest);
                    },
                    None => {},
                }
            }
            ents = ents.push(entry);
            assert(nodes_match(result@, ents));
        }
        remaining = remaining - (info_bytes + 21);
    }
    proof {
        let rem = data.subrange(reader.pos as int, reader.pos as int);
        assert(rem =~= Seq::<u8>::empty());
        assert(tree_parse(rem) == Some(Seq::<(nat, Seq<char>, Seq<u8>)>::empty()));
        assert(ents + Seq::<(nat, Seq<char>, Seq<u8>)>::empty() =~= ents);
        assert(tree_parse(full) == Some(ents));
    }
    Ok(result)
}

/// A name abbreviating a stored object pins down that object's kind.
pub proof fn lemma_stored_kind_unique(store: Store, name: Seq<char>, t1: ObjectType, t2: ObjectType)
    requires
        store.wf(),
        stored_kind(store, name, t1),
        stored_kind(store, name, t2),
    ensures
        t1 == t2,
{
    let (id1, n1) = choose|id: Seq<u8>, n: nat|
        resolves_to(store, name, id) && #[trigger] stored_object_has_header(store, id, t1, n);
    let (id2, n2) = choose|id: Seq<u8>, n: nat|
        resolves_to(store, name, id) && #[trigger] stored_object_has_header(store, id, t2, n);
    lemma_resolves_unique(store, name, id1, id2);
    let d = store.lookup(id1)->Some_0;
    assert(object_header_parsed(d, t1, n1));
    assert(object_header_parsed(d, t2, n2));
    let k1 = choose|k: int|
        #[trigger] crate::reader_utils::first_nul_at(d, 0, k) && valid_utf8(d.take(k))
            && header_parsed(decode_utf8(d.take(k)), t1, n1);
    let k2 = choose|k: int|
        #[trigger] crate::reader_utils::first_nul_at(d, 0, k) && valid_utf8(d.take(k))
            && header_parsed(decode_utf8(d.take(k)), t2, n2);
    lemma_first_nul_unique(d, 0, k1, k2);
    lemma_header_parsed_unique(decode_utf8(d.take(k1)), t1, n1, t2, n2);
}

/// Reads just the header of the object `hash` abbreviates and returns
/// its kind.
pub fn get_type(store: &Store, hash: &String) -> (r: Result<ObjectType, GitError>)
    requires
        store.wf(),
    ensures
        match r {
            Ok(t) => stored_kind(*store, hash@, t),
            Err(e) => {
                &&& e == GitError::Decode || e == GitError::NotFound || e == GitError::Ambiguous
                    || e == GitError::Io
                &&& e == GitError::NotFound ==> hash@.len() >= 2 && match_count(
                    store.ids(),
                    hash@,
                ) == 0
                &&& e == GitError::Ambiguous ==> match_count(store.ids(), hash@) >= 2
            },
        },
        r is Ok <==> exists|t: ObjectType| stored_kind(*store, hash@, t),
{
    let mut rd = match reader(store, hash) {
        Ok(rd) => rd,
        Err(e) => {
            proof {
                if exists|t: ObjectType| stored_kind(*store, hash@, t) {
                    let t = choose|t: ObjectType| stored_kind(*store, hash@, t);
                    let (id, n) = choose|id: Seq<u8>, n: nat|
                        resolves_to(*store, hash@, id) && #[trigger] stored_object_has_header(
                            *store,
                            id,
                            t,
                            n,
                        );
                    assert(can_resolve(*store, hash@));
                    assert(false);
                }
            }
            return Err(e);
        },
    };
    let ghost id = choose|id: Seq<u8>|
        #[trigger] resolves_to(*store, hash@, id) && store.lookup(id) == Some(rd.data@)
            && rd.pos == 0;
    let ghost d = rd.data@;
    let header = match crate::reader_utils::read_to_next_null_byte(&mut rd) {
        Ok(h) => h,
        Err(e) => {
            proof {
                assert forall|t: ObjectType| !stored_kind(*store, hash@, t) by {
                    if stored_kind(*store, hash@, t) {
                        let (id2, n) = choose|id2: Seq<u8>, n: nat|
                            resolves_to(*store, hash@, id2) && #[trigger] stored_object_has_header(
                                *store,
                                id2,
                                t,
                                n,
                            );
                        lemma_resolves_unique(*store, hash@, id, id2);
                        assert(object_header_parsed(d, t, n));
                        let k = choose|k: int|
                            #[trigger] crate::reader_utils::first_nul_at(d, 0, k) && valid_utf8(
                                d.take(k),
                            ) && header_parsed(decode_utf8(d.take(k)), t, n);
                        if e == GitError::Io {
                            assert(d[k] != 0);
                        } else {
                            let k0 = choose|k0: int|
                                crate::reader_utils::first_nul_at(d, 0, k0) && !valid_utf8(
                                    d.subrange(0, k0),
                                );
                            lemma_first_nul_unique(d, 0, k, k0);
                            assert(d.take(k) =~= d.subrange(0, k0));
                        }
                        assert(false);
                    }
                }
            }
            return Err(e);
        },
    };
    let ghost k = rd.pos - 1;
    match identify_header(&header) {
        Ok((t, size)) => {
            proof {
                assert(object_header_parsed(d, t, size as nat)) by {
                    assert(crate::reader_utils::first_nul_at(d, 0, k));
                    assert(d.take(k) =~= d.subrange(0, k));
                    vstd::utf8::encode_utf8_valid_utf8(header@);
                    assert(valid_utf8(d.take(k)));
                    assert(decode_utf8(d.take(k)) == header@);
                }
                assert(resolves_to(*store, hash@, id));
                assert(stored_object_has_header(*store, id, t, size as nat));
                assert(stored_kind(*store, hash@, t));
            }
            Ok(t)
        },
        Err(e) => {
            proof {
                assert forall|t: ObjectType| !stored_kind(*store, hash@, t) by {
                    if stored_kind(*store, hash@, t) {
                        let (id2, n) = choose|id2: Seq<u8>, n: nat|
                            resolves_to(*store, hash@, id2) && #[trigger] stored_object_has_header(
                                *store,
                                id2,
                                t,
                                n,
                            );
                        lemma_resolves_unique(*store, hash@, id, id2);
                        assert(object_header_parsed(d, t, n));
                        let k2 = choose|k2: int|
                            #[trigger] crate::reader_utils::first_nul_at(d, 0, k2) && valid_utf8(
                                d.take(k2),
                            ) && header_parsed(decode_utf8(d.take(k2)), t, n);
                        lemma_first_nul_unique(d, 0, k, k2);
                        assert(d.take(k2) =~= d.subrange(0, k));
                        assert(header_parsed(header@, t, n));
                        assert(header_valid(header@));
                        assert(false);
                    }
                }
            }
            Err(e)
        },
    }
}

/// A snapshot of one directory entry: a regular file with its bytes, or
/// a subdirectory with its entries. The surrounding binary builds these
/// from the real filesystem.
pub enum FsNode {
    File { name: String, data: Vec<u8> },
    Dir { name: String, children: Vec<FsNode> },
}

impl FsNode {
    /// The entry's name.
    pub open spec fn name_view(self) -> Seq<char> {
        match self {
            FsNode::File { name, .. } => name@,
            FsNode::Dir { name, .. } => name@,
        }
    }
}

/// Strict lexicographic order on char sequences.
pub open spec fn lex_lt(a: Seq<char>, b: Seq<char>) -> bool
    decreases a.len(),
{
    if b.len() == 0 {
        false
    } else if a.len() == 0 {
        true
    } else if a[0] != b[0] {
        a[0] < b[0]
    } else {
        lex_lt(a.drop_first(), b.drop_first())
    }
}

/// Character-wise lexicographic comparison.
fn str_lex_lt(a: &str, b: &str) -> (r: bool)
    ensures
        r == lex_lt(a@, b@),
    decreases a@.len(),
{
    let la = a.unicode_len();
    let lb = b.unicode_len();
    if lb == 0 {
        return false;
    }
    if la == 0 {
        return true;
    }
    let ca = a.get_char(0);
    let cb = b.get_char(0);
    if ca != cb {
        return ca < cb;
    }
    let ta = a.substring_char(1, la);
    let tb = b.substring_char(1, lb);
    proof {
        assert(ta@ =~= a@.drop_first());
        assert(tb@ =~= b@.drop_first());
    }
    str_lex_lt(ta, tb)
}

/// One serialized tree entry: `<mode-digits> <name>\x00<identity>`.
pub open spec fn tree_entry_bytes(mode: nat, name: Seq<char>, id: Seq<u8>) -> Seq<u8> {
    bytes_of_ascii(dec_chars(mode)) + seq![32u8] + vstd::utf8::encode_utf8(name) + seq![0u8] + id
}

/// A serialized tree payload: its entries, in order.
pub open spec fn tree_payload(ents: Seq<(nat, Seq<char>, Seq<u8>)>) -> Seq<u8>
    decreases ents.len(),
{
    if ents.len() == 0 {
        Seq::empty()
    } else {
        tree_entry_bytes(ents[0].0, ents[0].1, ents[0].2) + tree_payload(ents.drop_first())
    }
}

/// An entry the codec round-trips: the mode fits a `u64`, the name holds
/// neither NUL nor space, and the identity is 20 bytes.
pub open spec fn tree_entry_wf(e: (nat, Seq<char>, Seq<u8>)) -> bool {
    &&& e.0 <= u64::MAX
    &&& !e.1.contains('\u{0}')
    &&& !e.1.contains(' ')
    &&& e.2.len() == 20
}

/// UTF-8 encoding distributes over concatenation.
proof fn lemma_encode_concat(a: Seq<char>, b: Seq<char>)
    ensures
        vstd::utf8::encode_utf8(a + b) == vstd::utf8::encode_utf8(a) + vstd::utf8::encode_utf8(b),
    decreases a.len(),
{
    if a.len() == 0 {
        assert(a + b =~= b);
        assert(vstd::utf8::encode_utf8(a) =~= Seq::<u8>::empty());
        assert(vstd::utf8::encode_utf8(a) + vstd::utf8::encode_utf8(b) =~= vstd::utf8::encode_utf8(
            b,
        ));
    } else {
        assert((a + b)[0] == a[0]);
        assert((a + b).drop_first() =~= a.drop_first() + b);
        lemma_encode_concat(a.drop_first(), b);
        assert(vstd::utf8::encode_utf8(a + b) =~= vstd::utf8::encode_utf8(a)
            + vstd::utf8::encode_utf8(b));
    }
}

/// Text without a NUL char encodes without a NUL byte.
proof fn lemma_encode_no_nul(s: Seq<char>)
    requires
        !s.contains('\u{0}'),
    ensures
        forall|i: int|
            0 <= i < vstd::utf8::encode_utf8(s).len() ==> #[trigger] vstd::utf8::encode_utf8(
                s,
            )[i] != 0,
    decreases s.len(),
{
    if s.len() > 0 {
        let c = s[0];
        let scalar = c as u32;
        let head = vstd::utf8::encode_scalar(scalar);
        if c == '\u{0}' {
            assert(s[0] == '\u{0}');
            assert(s.contains('\u{0}'));
        }
        assert(c != '\u{0}');
        vstd::utf8::char_is_scalar(c);
        vstd::utf8::char_u32_cast(c, scalar);
        assert(scalar != 0) by {
            if scalar == 0 {
                assert((0u32 as char) == '\u{0}');
            }
        }
        assert(forall|x: u32| (0x80u8 | ((x & 0x3F) as u8)) != 0) by (bit_vector);
        assert(forall|x: u32| (0xC0u8 | (((x >> 6) & 0x1F) as u8)) != 0) by (bit_vector);
        assert(forall|x: u32| (0xE0u8 | (((x >> 12) & 0x0F) as u8)) != 0) by (bit_vector);
        assert(forall|x: u32| (0xF0u8 | (((x >> 18) & 0x7) as u8)) != 0) by (bit_vector);
        assert(forall|x: u32| x != 0 && x < 0x80 ==> (x & 0x7F) as u8 != 0) by (bit_vector);
        assert(forall|i: int| 0 <= i < head.len() ==> #[trigger] head[i] != 0);
        assert(!s.drop_first().contains('\u{0}')) by {
            if s.drop_first().contains('\u{0}') {
                let j = choose|j: int|
                    0 <= j < s.drop_first().len() && s.drop_first()[j] == '\u{0}';
                assert(s[j + 1] == '\u{0}');
                assert(s.contains('\u{0}'));
            }
        }
        lemma_encode_no_nul(s.drop_first());
        assert(forall|i: int|
            0 <= i < vstd::utf8::encode_utf8(s).len() ==> #[trigger] vstd::utf8::encode_utf8(
                s,
            )[i] != 0) by {
            assert(vstd::utf8::encode_utf8(s) =~= head + vstd::utf8::encode_utf8(s.drop_first()));
        }
    }
}

/// A serialized tree payload parses back to exactly its entries.
pub proof fn lemma_tree_roundtrip(ents: Seq<(nat, Seq<char>, Seq<u8>)>)
    requires
        forall|i: int| 0 <= i < ents.len() ==> tree_entry_wf(#[trigger] ents[i]),
    ensures
        tree_parse(tree_payload(ents)) == Some(ents),
    decreases ents.len(),
{
    if ents.len() == 0 {
        assert(tree_parse(Seq::<u8>::empty()) == Some(Seq::<(nat, Seq<char>, Seq<u8>)>::empty()));
        assert(tree_payload(ents) =~= Seq::<u8>::empty());
        assert(ents =~= Seq::<(nat, Seq<char>, Seq<u8>)>::empty());
    } else {
        let e = ents[0];
        assert(tree_entry_wf(e));
        let s = tree_payload(ents);
        let dig = dec_chars(e.0);
        lemma_dec_chars_ok(e.0);
        let db = bytes_of_ascii(dig);
        let nb = vstd::utf8::encode_utf8(e.1);
        let k = db.len() + 1 + nb.len();
        let entry = tree_entry_bytes(e.0, e.1, e.2);
        let rest = tree_payload(ents.drop_first());
        assert(s == entry + rest);
        assert(entry.len() == k + 1 + 20);
        lemma_encode_no_nul(e.1);
        assert(s[k as int] == 0);
        assert forall|j: int| 0 <= j < k implies s[j] != 0 by {
            if j < db.len() {
                assert(s[j] == db[j]);
                assert(is_digit(dig[j]));
            } else if j == db.len() {
                assert(s[j] == 32);
            } else {
                assert(s[j] == nb[j - db.len() - 1]);
            }
        }
        assert(crate::reader_utils::first_nul_at(s, 0, k as int));
        lemma_nul_pos_at(s, k as int);
        let info = dig + seq![' '] + e.1;
        assert(vstd::utf8::is_ascii_chars(dig + seq![' '])) by {
            assert(forall|j: int|
                0 <= j < dig.len() ==> (dig + seq![' '])[j] == #[trigger] dig[j]);
            assert((dig + seq![' '])[dig.len() as int] == ' ');
        }
        lemma_ascii_encode(dig + seq![' ']);
        lemma_encode_concat(dig + seq![' '], e.1);
        assert((dig + seq![' ']) + e.1 =~= info);
        assert(s.take(k as int) =~= bytes_of_ascii(dig + seq![' ']) + nb);
        assert(vstd::utf8::encode_utf8(info) == s.take(k as int));
        vstd::utf8::encode_utf8_valid_utf8(info);
        vstd::utf8::encode_utf8_decode_utf8(info);
        assert(valid_utf8(s.take(k as int)));
        assert(decode_utf8(s.take(k as int)) == info);
        let i = dig.len() as int;
        assert(info[i] == ' ');
        assert forall|j: int| 0 <= j < i implies info[j] != ' ' by {
            assert(info[j] == dig[j]);
            assert(is_digit(dig[j]));
        }
        lemma_space_pos_at(info, i);
        let tail = info.skip(i + 1);
        assert(tail =~= e.1);
        assert forall|j: int| 0 <= j < tail.len() implies tail[j] != ' ' by {
            if tail[j] == ' ' {
                assert(e.1.contains(' '));
            }
        }
        lemma_space_pos_none(tail);
        assert(info.take(i) =~= dig);
        assert(k + 21 <= s.len());
        assert(s.subrange(k as int + 1, k as int + 21) =~= e.2);
        assert(s.skip(k as int + 21) =~= rest);
        assert forall|j: int|
            0 <= j < ents.drop_first().len() implies tree_entry_wf(
            #[trigger] ents.drop_first()[j],
        ) by {
            assert(ents.drop_first()[j] == ents[j + 1]);
        }
        lemma_tree_roundtrip(ents.drop_first());
        assert(tree_parse(s) == Some(
            seq![(dec_val(info.take(i)), info.skip(i + 1), s.subrange(k as int + 1, k as int + 21))]
                + ents.drop_first(),
        ));
        assert(seq![(e.0, e.1, e.2)] + ents.drop_first() =~= ents);
        assert((dec_val(info.take(i)), info.skip(i + 1), s.subrange(k as int + 1, k as int + 21))
            == (e.0, e.1, e.2));
    }
}

/// Equal hex encodings come from equal bytes.
proof fn lemma_hex_of_injective(a: Seq<u8>, b: Seq<u8>)
    requires
        hex_of(a) == hex_of(b),
    ensures
        a == b,
    decreases a.len(),
{
    crate::hashing::lemma_hex_of_shape(a);
    crate::hashing::lemma_hex_of_shape(b);
    if a.len() == 0 {
        assert(a =~= b);
    } else {
        assert(hex_of(a)[0] == hex_digit(a[0] / 16));
        assert(hex_of(a)[1] == hex_digit(a[0] % 16));
        assert(hex_of(b)[0] == hex_digit(b[0] / 16));
        assert(hex_of(b)[1] == hex_digit(b[0] % 16));
        lemma_hex_digit_injective(a[0] / 16, b[0] / 16);
        lemma_hex_digit_injective(a[0] % 16, b[0] % 16);
        assert(a[0] == b[0]);
        assert(hex_of(a).drop_first().drop_first() =~= hex_of(a.drop_first())) by {
            assert(hex_of(a) =~= seq![hex_digit(a[0] / 16), hex_digit(a[0] % 16)] + hex_of(
                a.drop_first(),
            ));
        }
        assert(hex_of(b).drop_first().drop_first() =~= hex_of(b.drop_first())) by {
            assert(hex_of(b) =~= seq![hex_digit(b[0] / 16), hex_digit(b[0] % 16)] + hex_of(
                b.drop_first(),
            ));
        }
        assert(hex_of(a.drop_first()) == hex_of(b.drop_first()));
        lemma_hex_of_injective(a.drop_first(), b.drop_first());
        assert forall|i: int| 0 <= i < a.len() implies a[i] == b[i] by {
            if i > 0 {
                assert(a.drop_first()[i - 1] == b.drop_first()[i - 1]);
            }
        }
        assert(a =~= b);
    }
}

/// Distinct nibbles get distinct hex digits.
proof fn lemma_hex_digit_injective(m: u8, n: u8)
    requires
        m < 16,
        n < 16,
        hex_digit(m) == hex_digit(n),
    ensures
        m == n,
{
    if m < 10 && n < 10 {
        assert(((m + 0x30) as u8) as char as u32 == m + 0x30);
        assert(((n + 0x30) as u8) as char as u32 == n + 0x30);
    } else if m >= 10 && n >= 10 {
        assert(((m + 0x57) as u8) as char as u32 == m + 0x57);
        assert(((n + 0x57) as u8) as char as u32 == n + 0x57);
    } else if m < 10 {
        assert(((m + 0x30) as u8) as char as u32 == m + 0x30);
        assert(((n + 0x57) as u8) as char as u32 == n + 0x57);
    } else {
        assert(((m + 0x57) as u8) as char as u32 == m + 0x57);
        assert(((n + 0x30) as u8) as char as u32 == n + 0x30);
    }
}

/// With one match at `j` and none elsewhere, the count is one.
proof fn lemma_match_count_one(ids: Seq<Seq<u8>>, name: Seq<char>, j: int)
    requires
        0 <= j < ids.len(),
        name_matches(name, ids[j]),
        forall|i: int| 0 <= i < ids.len() && i != j ==> !name_matches(name, #[trigger] ids[i]),
    ensures
        match_count(ids, name) == 1,
    decreases ids.len(),
{
    if j == 0 {
        assert forall|i: int|
            0 <= i < ids.drop_first().len() implies !name_matches(
            name,
            #[trigger] ids.drop_first()[i],
        ) by {
            assert(ids.drop_first()[i] == ids[i + 1]);
        }
        lemma_match_count_zero(ids.drop_first(), name);
    } else {
        assert(!name_matches(name, ids[0]));
        assert(ids.drop_first()[j - 1] == ids[j]);
        assert forall|i: int|
            0 <= i < ids.drop_first().len() && i != j - 1 implies !name_matches(
            name,
            #[trigger] ids.drop_first()[i],
        ) by {
            assert(ids.drop_first()[i] == ids[i + 1]);
        }
        lemma_match_count_one(ids.drop_first(), name, j - 1);
    }
}

/// With no match at all, the count is zero.
proof fn lemma_match_count_zero(ids: Seq<Seq<u8>>, name: Seq<char>)
    requires
        forall|i: int| 0 <= i < ids.len() ==> !name_matches(name, #[trigger] ids[i]),
    ensures
        match_count(ids, name) == 0,
    decreases ids.len(),
{
    if ids.len() > 0 {
        assert(forall|i: int|
            0 <= i < ids.drop_first().len() ==> #[trigger] ids.drop_first()[i] == ids[i + 1]);
        lemma_match_count_zero(ids.drop_first(), name);
    }
}

/// A stored object's full 40-digit hex identity always resolves back to
/// it: its digits pin the identity down, and no other stored object can
/// match all forty of them.
pub proof fn lemma_full_hex_resolves(store: Store, id: Seq<u8>)
    requires
        store.wf(),
        store.contains(id),
        id.len() == 20,
    ensures
        resolves_to(store, hex_of(id), id),
{
    crate::hashing::lemma_hex_of_shape(id);
    let name = hex_of(id);
    assert(name_matches(name, id)) by {
        assert(hex_of(id).take(name.len() as int) =~= name);
    }
    lemma_lookup_exists(store.entries(), id);
    let j = choose|j: int|
        0 <= j < store.entries().len() && (#[trigger] store.entries()[j]).0 == id;
    assert(store.ids()[j] == id);
    assert forall|i: int|
        0 <= i < store.ids().len() && i != j implies !name_matches(
        name,
        #[trigger] store.ids()[i],
    ) by {
        if name_matches(name, store.ids()[i]) {
            crate::hashing::lemma_hex_of_shape(store.ids()[i]);
            assert(store.ids()[i] == store.entries()[i].0);
            assert(store.entries()[i].0.len() == 20);
            assert(hex_of(store.ids()[i]).take(40) =~= hex_of(store.ids()[i]));
            lemma_hex_of_injective(store.ids()[i], id);
            if i < j {
                assert(store.entries()[i].0 != store.entries()[j].0);
            } else {
                assert(store.entries()[j].0 != store.entries()[i].0);
            }
        }
    }
    lemma_match_count_one(store.ids(), name, j);
}

/// A full 40-digit hex name resolves exactly to the identity it spells:
/// it resolves when that identity is stored, and to nothing else.
pub proof fn lemma_hex40_resolution(store: Store, id: Seq<u8>)
    requires
        store.wf(),
        id.len() == 20,
    ensures
        store.contains(id) ==> resolves_to(store, hex_of(id), id),
        forall|id2: Seq<u8>| #[trigger] resolves_to(store, hex_of(id), id2) ==> id2 == id,
{
    if store.contains(id) {
        lemma_full_hex_resolves(store, id);
    }
    assert forall|id2: Seq<u8>| #[trigger] resolves_to(store, hex_of(id), id2) implies id2
        == id by {
        crate::hashing::lemma_hex_of_shape(id);
        lemma_lookup_exists(store.entries(), id2);
        let j = choose|j: int|
            0 <= j < store.entries().len() && (#[trigger] store.entries()[j]).0 == id2;
        assert(store.entries()[j].0.len() == 20);
        crate::hashing::lemma_hex_of_shape(id2);
        assert(hex_of(id2).take(hex_of(id).len() as int) =~= hex_of(id2));
        lemma_hex_of_injective(id2, id);
    }
}

/// An abbreviation of a stored identity resolves to it whenever no other
/// stored object shares the abbreviated prefix.
pub proof fn lemma_prefix_resolves(store: Store, id: Seq<u8>, len: int)
    requires
        store.wf(),
        store.contains(id),
        id.len() == 20,
        2 <= len <= 40,
        forall|id2: Seq<u8>|
            #[trigger] store.contains(id2) && name_matches(hex_of(id).take(len), id2) ==> id2
                == id,
    ensures
        resolves_to(store, hex_of(id).take(len), id),
{
    crate::hashing::lemma_hex_of_shape(id);
    let name = hex_of(id).take(len);
    assert(name_matches(name, id)) by {
        assert(hex_of(id).take(name.len() as int) =~= name);
    }
    lemma_lookup_exists(store.entries(), id);
    let j = choose|j: int|
        0 <= j < store.entries().len() && (#[trigger] store.entries()[j]).0 == id;
    assert(store.ids()[j] == id);
    assert forall|i: int|
        0 <= i < store.ids().len() && i != j implies !name_matches(
        name,
        #[trigger] store.ids()[i],
    ) by {
        if name_matches(name, store.ids()[i]) {
            assert(store.ids()[i] == store.entries()[i].0);
            lemma_lookup_at(store.entries(), i);
            assert(store.contains(store.ids()[i]));
            assert(store.ids()[i] == id);
            if i < j {
                assert(store.entries()[i].0 != store.entries()[j].0);
            } else {
                assert(store.entries()[j].0 != store.entries()[i].0);
            }
        }
    }
    lemma_match_count_one(store.ids(), name, j);
}

/// Two distinct stored objects sharing an abbreviation make it
/// ambiguous: at least two identities match it.
pub proof fn lemma_prefix_ambiguous(store: Store, id1: Seq<u8>, id2: Seq<u8>, name: Seq<char>)
    requires
        store.wf(),
        store.contains(id1),
        store.contains(id2),
        id1 != id2,
        name_matches(name, id1),
        name_matches(name, id2),
    ensures
        match_count(store.ids(), name) >= 2,
{
    lemma_lookup_exists(store.entries(), id1);
    lemma_lookup_exists(store.entries(), id2);
    let j1 = choose|j: int|
        0 <= j < store.entries().len() && (#[trigger] store.entries()[j]).0 == id1;
    let j2 = choose|j: int|
        0 <= j < store.entries().len() && (#[trigger] store.entries()[j]).0 == id2;
    assert(store.ids()[j1] == id1);
    assert(store.ids()[j2] == id2);
    if j1 < j2 {
        lemma_two_matches(store.ids(), name, j1, j2);
    } else {
        lemma_two_matches(store.ids(), name, j2, j1);
    }
}

/// An object written to the store is read back whole: its full hex
/// identity resolves to it, and looking it up yields exactly the framed
/// bytes that were written.
pub proof fn lemma_write_then_read(store: Store, data: Seq<u8>)
    requires
        store.wf(),
        store.lookup(sha1_of(data)) == Some(data),
        sha1_of(data).len() == 20,
    ensures
        resolves_to(store, hex_of(sha1_of(data)), sha1_of(data)),
        store.lookup(sha1_of(data)) == Some(data),
{
    lemma_full_hex_resolves(store, sha1_of(data));
}

/// The entry survives snapshotting: it is not named `.git`.
pub open spec fn keeps_entry(node: FsNode) -> bool {
    node.name_view() != seq!['.', 'g', 'i', 't']
}

/// The entries that survive snapshotting, in their given order.
pub open spec fn filter_fs(nodes: Seq<FsNode>) -> Seq<FsNode>
    decreases nodes.len(),
{
    if nodes.len() == 0 {
        Seq::empty()
    } else if keeps_entry(nodes[0]) {
        seq![nodes[0]] + filter_fs(nodes.drop_first())
    } else {
        filter_fs(nodes.drop_first())
    }
}

/// The first index of a name-minimal entry.
pub open spec fn min_name_index(nodes: Seq<FsNode>) -> int
    decreases nodes.len(),
{
    if nodes.len() <= 1 {
        0
    } else {
        let m = 1 + min_name_index(nodes.drop_first());
        if 0 <= m < nodes.len() && lex_lt(nodes[m].name_view(), nodes[0].name_view()) {
            m
        } else {
            0
        }
    }
}

/// Entries sorted by name: repeatedly take the first name-minimal one.
pub open spec fn sort_fs(nodes: Seq<FsNode>) -> Seq<FsNode>
    decreases nodes.len(),
{
    if nodes.len() == 0 {
        nodes
    } else {
        let m = min_name_index(nodes);
        if 0 <= m < nodes.len() {
            seq![nodes[m]] + sort_fs(nodes.remove(m))
        } else {
            nodes
        }
    }
}

/// The tree entry an entry snapshots to: files as mode 100644 with the
/// identity of their blob, directories as mode 40000 with the identity
/// of their recursively snapshotted tree. `fuel` bounds the nesting.
pub open spec fn fs_entry(node: FsNode, fuel: nat) -> (nat, Seq<char>, Seq<u8>)
    decreases fuel, 0int, 0int,
{
    match node {
        FsNode::File { name, data } => (
            100644 as nat,
            name@,
            sha1_of(frame_spec(ObjectType::Blob, data@)),
        ),
        FsNode::Dir { name, children } => (
            40000 as nat,
            name@,
            sha1_of(
                frame_spec(
                    ObjectType::Tree,
                    if fuel == 0 {
                        Seq::empty()
                    } else {
                        snapshot_payload(children@, (fuel - 1) as nat)
                    },
                ),
            ),
        ),
    }
}

/// The tree entries of a run of snapshot entries, in order.
pub open spec fn fs_entries(nodes: Seq<FsNode>, fuel: nat) -> Seq<(nat, Seq<char>, Seq<u8>)>
    decreases fuel, 1int, nodes.len(),
{
    if nodes.len() == 0 {
        Seq::empty()
    } else {
        seq![fs_entry(nodes[0], fuel)] + fs_entries(nodes.drop_first(), fuel)
    }
}

/// The tree payload a directory snapshot serializes to: its non-`.git`
/// entries, sorted by name, each as [`fs_entry`].
pub open spec fn snapshot_payload(nodes: Seq<FsNode>, fuel: nat) -> Seq<u8>
    decreases fuel, 2int, 0int,
{
    tree_payload(fs_entries(sort_fs(filter_fs(nodes)), fuel))
}

/// The entry snapshots within `fuel` more levels: files always do, a
/// directory needs a level for its children.
pub open spec fn node_snapshot_ok(node: FsNode, fuel: nat) -> bool
    decreases fuel, 0int, 0int,
{
    match node {
        FsNode::File { .. } => true,
        FsNode::Dir { children, .. } => fuel > 0 && snapshot_ok(children@, (fuel - 1) as nat),
    }
}

/// Every kept entry of the run snapshots within `fuel`.
pub open spec fn nodes_snapshot_ok(nodes: Seq<FsNode>, fuel: nat) -> bool
    decreases fuel, 1int, nodes.len(),
{
    nodes.len() == 0 || ((!keeps_entry(nodes[0]) || node_snapshot_ok(nodes[0], fuel))
        && nodes_snapshot_ok(nodes.drop_first(), fuel))
}

/// The directory snapshots: there is a level left, and every kept entry
/// snapshots in turn.
pub open spec fn snapshot_ok(nodes: Seq<FsNode>, fuel: nat) -> bool
    decreases fuel, 2int, 0int,
{
    fuel > 0 && nodes_snapshot_ok(nodes, fuel)
}

/// A run snapshots exactly when each of its kept entries does.
pub proof fn lemma_nodes_snapshot_ok_iff(nodes: Seq<FsNode>, fuel: nat)
    ensures
        nodes_snapshot_ok(nodes, fuel) <==> (forall|i: int|
            0 <= i < nodes.len() ==> !keeps_entry(#[trigger] nodes[i]) || node_snapshot_ok(
                nodes[i],
                fuel,
            )),
    decreases nodes.len(),
{
    if nodes.len() > 0 {
        lemma_nodes_snapshot_ok_iff(nodes.drop_first(), fuel);
        assert(forall|i: int|
            0 <= i < nodes.drop_first().len() ==> #[trigger] nodes.drop_first()[i] == nodes[i
                + 1]);
        if nodes_snapshot_ok(nodes, fuel) {
            assert forall|i: int|
                0 <= i < nodes.len() implies !keeps_entry(#[trigger] nodes[i])
                || node_snapshot_ok(nodes[i], fuel) by {
                if i > 0 {
                    assert(nodes.drop_first()[i - 1] == nodes[i]);
                }
            }
        } else {
            if !(nodes.len() == 0) && (!keeps_entry(nodes[0]) || node_snapshot_ok(
                nodes[0],
                fuel,
            )) {
                assert(!nodes_snapshot_ok(nodes.drop_first(), fuel));
                let i = choose|i: int|
                    0 <= i < nodes.drop_first().len() && keeps_entry(
                        #[trigger] nodes.drop_first()[i],
                    ) && !node_snapshot_ok(nodes.drop_first()[i], fuel);
                assert(nodes[i + 1] == nodes.drop_first()[i]);
                assert(keeps_entry(nodes[i + 1]) && !node_snapshot_ok(nodes[i + 1], fuel));
            }
        }
    }
}

/// Every entry the filter keeps satisfies the keep test.
proof fn lemma_filter_keeps(nodes: Seq<FsNode>)
    ensures
        forall|x: int|
            0 <= x < filter_fs(nodes).len() ==> keeps_entry(#[trigger] filter_fs(nodes)[x]),
    decreases nodes.len(),
{
    if nodes.len() > 0 {
        lemma_filter_keeps(nodes.drop_first());
        if keeps_entry(nodes[0]) {
            assert(forall|x: int|
                0 <= x < filter_fs(nodes.drop_first()).len() ==> #[trigger] filter_fs(nodes)[x
                    + 1] == filter_fs(nodes.drop_first())[x]);
            assert(filter_fs(nodes)[0] == nodes[0]);
        } else {
            assert(filter_fs(nodes) == filter_fs(nodes.drop_first()));
        }
    }
}

/// Index `i` occurs in the work list.
pub open spec fn work_contains(work: Seq<usize>, i: int) -> bool {
    exists|x: int| 0 <= x < work.len() && work[x] == i
}

/// Nothing precedes itself lexicographically.
proof fn lemma_lex_irrefl(a: Seq<char>)
    ensures
        !lex_lt(a, a),
    decreases a.len(),
{
    if a.len() > 0 {
        lemma_lex_irrefl(a.drop_first());
    }
}

/// Lexicographic order is transitive.
proof fn lemma_lex_trans(a: Seq<char>, b: Seq<char>, c: Seq<char>)
    requires
        lex_lt(a, b),
        lex_lt(b, c),
    ensures
        lex_lt(a, c),
    decreases a.len(),
{
    if c.len() == 0 {
    } else if a.len() == 0 {
    } else if b.len() == 0 {
    } else {
        if a[0] == b[0] && b[0] == c[0] {
            lemma_lex_trans(a.drop_first(), b.drop_first(), c.drop_first());
        }
    }
}

/// Two names are equal or one precedes the other.
proof fn lemma_lex_trichotomy(a: Seq<char>, b: Seq<char>)
    ensures
        a == b || lex_lt(a, b) || lex_lt(b, a),
    decreases a.len(),
{
    if a.len() == 0 || b.len() == 0 {
        if a.len() == b.len() {
            assert(a =~= Seq::<char>::empty());
            assert(b =~= Seq::<char>::empty());
        }
    } else if a[0] == b[0] {
        lemma_lex_trichotomy(a.drop_first(), b.drop_first());
        if a.drop_first() == b.drop_first() {
            assert(a.drop_first().len() == b.drop_first().len());
            assert(a.drop_first().len() == a.len() - 1);
            assert(b.drop_first().len() == b.len() - 1);
            assert(a.len() == b.len());
            assert forall|i: int| 0 <= i < a.len() implies a[i] == b[i] by {
                if i > 0 {
                    assert(a[i] == a.drop_first()[i - 1]);
                    assert(b[i] == b.drop_first()[i - 1]);
                }
            }
            assert(a =~= b);
        }
    }
}

/// Failing to precede is preserved through a middle name.
proof fn lemma_lex_not_lt_trans(a: Seq<char>, b: Seq<char>, c: Seq<char>)
    requires
        !lex_lt(a, b),
        !lex_lt(b, c),
    ensures
        !lex_lt(a, c),
{
    if lex_lt(a, c) {
        lemma_lex_trichotomy(a, b);
        if a == b {
        } else {
            lemma_lex_trans(b, a, c);
        }
    }
}

/// What the first name-minimal index satisfies: it is in bounds, no
/// name precedes its name, and its name strictly precedes every earlier
/// one.
proof fn lemma_min_name_charac(nodes: Seq<FsNode>)
    requires
        nodes.len() > 0,
    ensures
        0 <= min_name_index(nodes) < nodes.len(),
        forall|j: int|
            0 <= j < nodes.len() ==> !lex_lt(
                (#[trigger] nodes[j]).name_view(),
                nodes[min_name_index(nodes)].name_view(),
            ),
        forall|j: int|
            0 <= j < min_name_index(nodes) ==> lex_lt(
                nodes[min_name_index(nodes)].name_view(),
                (#[trigger] nodes[j]).name_view(),
            ),
    decreases nodes.len(),
{
    if nodes.len() == 1 {
        lemma_lex_irrefl(nodes[0].name_view());
    } else {
        let tail = nodes.drop_first();
        lemma_min_name_charac(tail);
        let mt = min_name_index(tail);
        let m = 1 + mt;
        assert(tail[mt] == nodes[m]);
        assert(forall|j: int| 0 <= j < tail.len() ==> #[trigger] tail[j] == nodes[j + 1]);
        if lex_lt(nodes[m].name_view(), nodes[0].name_view()) {
            assert(min_name_index(nodes) == m);
            assert forall|j: int|
                0 <= j < nodes.len() implies !lex_lt(
                (#[trigger] nodes[j]).name_view(),
                nodes[m].name_view(),
            ) by {
                if j == 0 {
                    if lex_lt(nodes[0].name_view(), nodes[m].name_view()) {
                        lemma_lex_trans(
                            nodes[0].name_view(),
                            nodes[m].name_view(),
                            nodes[0].name_view(),
                        );
                        lemma_lex_irrefl(nodes[0].name_view());
                        assert(false);
                    }
                } else {
                    assert(tail[j - 1] == nodes[j]);
                }
            }
            assert forall|j: int|
                0 <= j < m implies lex_lt(
                nodes[m].name_view(),
                (#[trigger] nodes[j]).name_view(),
            ) by {
                if j > 0 {
                    assert(tail[j - 1] == nodes[j]);
                }
            }
        } else {
            assert(min_name_index(nodes) == 0);
            assert forall|j: int|
                0 <= j < nodes.len() implies !lex_lt(
                (#[trigger] nodes[j]).name_view(),
                nodes[0].name_view(),
            ) by {
                if j == 0 {
                    lemma_lex_irrefl(nodes[0].name_view());
                } else {
                    assert(tail[j - 1] == nodes[j]);
                    lemma_lex_not_lt_trans(
                        nodes[j].name_view(),
                        nodes[m].name_view(),
                        nodes[0].name_view(),
                    );
                }
            }
        }
    }
}

/// Any index satisfying the first-minimum characterization is the first
/// name-minimal index.
proof fn lemma_min_name_unique(nodes: Seq<FsNode>, m: int)
    requires
        0 <= m < nodes.len(),
        forall|j: int|
            0 <= j < nodes.len() ==> !lex_lt(
                (#[trigger] nodes[j]).name_view(),
                nodes[m].name_view(),
            ),
        forall|j: int|
            0 <= j < m ==> lex_lt(nodes[m].name_view(), (#[trigger] nodes[j]).name_view()),
    ensures
        m == min_name_index(nodes),
{
    lemma_min_name_charac(nodes);
    let m2 = min_name_index(nodes);
    if m < m2 {
        assert(lex_lt(nodes[m2].name_view(), nodes[m].name_view()));
        assert(!lex_lt(nodes[m2].name_view(), nodes[m].name_view()));
    } else if m2 < m {
        assert(lex_lt(nodes[m].name_view(), nodes[m2].name_view()));
        assert(!lex_lt(nodes[m].name_view(), nodes[m2].name_view()));
    }
}

/// Filtering distributes over appending one entry.
proof fn lemma_filter_push(nodes: Seq<FsNode>, e: FsNode)
    ensures
        filter_fs(nodes.push(e)) == filter_fs(nodes) + (if keeps_entry(e) {
            seq![e]
        } else {
            Seq::<FsNode>::empty()
        }),
    decreases nodes.len(),
{
    if nodes.len() == 0 {
        assert(nodes.push(e)[0] == e);
        assert(nodes.push(e).drop_first() =~= Seq::<FsNode>::empty());
        assert(filter_fs(Seq::<FsNode>::empty()) == Seq::<FsNode>::empty());
        if keeps_entry(e) {
            assert(filter_fs(nodes.push(e)) =~= filter_fs(nodes) + seq![e]);
        } else {
            assert(filter_fs(nodes.push(e)) =~= filter_fs(nodes) + Seq::<FsNode>::empty());
        }
    } else {
        assert(nodes.push(e)[0] == nodes[0]);
        assert(nodes.push(e).drop_first() =~= nodes.drop_first().push(e));
        lemma_filter_push(nodes.drop_first(), e);
        if keeps_entry(e) {
            assert(filter_fs(nodes.push(e)) =~= filter_fs(nodes) + seq![e]);
        } else {
            assert(filter_fs(nodes.push(e)) =~= filter_fs(nodes) + Seq::<FsNode>::empty());
        }
    }
}

/// Snapshots a directory into the store: entries named `.git` are
/// dropped, the rest are sorted by name, subdirectories are written
/// recursively as trees (mode 40000) and files as blobs (mode 100644),
/// and the resulting tree object is stored. Its payload is exactly
/// [`snapshot_payload`] of the entries. `fuel` bounds the recursion
/// depth.
#[verifier::loop_isolation(false)]
#[verifier::rlimit(100)]
#[verifier::spinoff_prover]
pub fn write_tree_from_directory(store: &mut Store, entries: &Vec<FsNode>, fuel: usize) -> (r:
    Result<Vec<u8>, GitError>)
    requires
        old(store).wf(),
    ensures
        final(store).wf(),
        forall|q: Seq<u8>|
            old(store).lookup(q) is Some ==> #[trigger] final(store).lookup(q) is Some,
        match r {
            Ok(h) => {
                &&& h@ == sha1_of(
                    frame_spec(ObjectType::Tree, snapshot_payload(entries@, fuel as nat)),
                )
                &&& final(store).lookup(h@) == Some(
                    frame_spec(ObjectType::Tree, snapshot_payload(entries@, fuel as nat)),
                )
            },
            Err(e) => e == GitError::Decode,
        },
        r is Ok <==> snapshot_ok(entries@, fuel as nat),
    decreases fuel,
{
    if fuel == 0 {
        return Err(GitError::Decode);
    }
    let ghost all = entries@;
    let ghost filtered = filter_fs(all);
    let mut work: Vec<usize> = Vec::new();
    let mut j: usize = 0;
    proof {
        reveal_strlit(".git");
        assert(".git"@ =~= seq!['.', 'g', 'i', 't']);
        assert(all.take(0) =~= Seq::<FsNode>::empty());
        assert(filter_fs(all.take(0)) =~= Seq::<FsNode>::empty());
    }
    while j < entries.len()
        invariant
            j <= all.len(),
            work@.len() == filter_fs(all.take(j as int)).len(),
            forall|x: int|
                0 <= x < work@.len() ==> #[trigger] work@[x] < all.len() && all[work@[x] as int]
                    == filter_fs(all.take(j as int))[x],
            forall|i: int| 0 <= i < j && keeps_entry(all[i]) ==> #[trigger] work_contains(work@, i),
        decreases all.len() - j,
    {
        let name = match &entries[j] {
            FsNode::File { name, .. } => name,
            FsNode::Dir { name, .. } => name,
        };
        let keep = !crate::text::str_eq(name.as_str(), ".git");
        proof {
            assert(keep == keeps_entry(all[j as int]));
            assert(all.take(j + 1) =~= all.take(j as int).push(all[j as int]));
            lemma_filter_push(all.take(j as int), all[j as int]);
        }
        let ghost work0 = work@;
        if keep {
            work.push(j);
        }
        proof {
            assert forall|i: int|
                0 <= i < j + 1 && keeps_entry(all[i]) implies #[trigger] work_contains(
                work@,
                i,
            ) by {
                if i == j {
                    assert(keep);
                    assert(work@ == work0.push(j));
                    assert(work@[work@.len() - 1] == j);
                } else {
                    assert(work_contains(work0, i));
                    let x = choose|x: int| 0 <= x < work0.len() && work0[x] == i;
                    assert(work@[x] == i);
                }
            }
        }
        j = j + 1;
    }
    proof {
        assert(all.take(all.len() as int) =~= all);
    }
    let mut payload: Vec<u8> = Vec::new();
    let ghost mut remaining = filtered;
    proof {
        assert(Seq::<u8>::empty() + tree_payload(fs_entries(sort_fs(remaining), fuel as nat))
            =~= tree_payload(fs_entries(sort_fs(remaining), fuel as nat)));
        lemma_filter_keeps(all);
    }
    while work.len() > 0
        invariant
            store.wf(),
            fuel >= 1,
            forall|q: Seq<u8>|
                old(store).lookup(q) is Some ==> #[trigger] store.lookup(q) is Some,
            work@.len() == remaining.len(),
            forall|x: int|
                0 <= x < work@.len() ==> #[trigger] work@[x] < all.len() && all[work@[x] as int]
                    == remaining[x],
            forall|x: int| 0 <= x < remaining.len() ==> keeps_entry(#[trigger] remaining[x]),
            forall|i: int|
                0 <= i < all.len() && keeps_entry(all[i]) ==> #[trigger] work_contains(work@, i)
                    || node_snapshot_ok(all[i], fuel as nat),
            tree_payload(fs_entries(sort_fs(filtered), fuel as nat)) == payload@ + tree_payload(
                fs_entries(sort_fs(remaining), fuel as nat),
            ),
        decreases work@.len(),
    {
        let mut best: usize = 0;
        let mut m: usize = 1;
        proof {
            lemma_lex_irrefl(remaining[0].name_view());
        }
        while m < work.len()
            invariant
                work@.len() > 0,
                best < m <= work@.len(),
                forall|x: int|
                    0 <= x < m ==> !lex_lt(
                        (#[trigger] remaining[x]).name_view(),
                        remaining[best as int].name_view(),
                    ),
                forall|x: int|
                    0 <= x < best ==> lex_lt(
                        remaining[best as int].name_view(),
                        (#[trigger] remaining[x]).name_view(),
                    ),
            decreases work@.len() - m,
        {
            let name_m = match &entries[work[m]] {
                FsNode::File { name, .. } => name,
                FsNode::Dir { name, .. } => name,
            };
            let name_b = match &entries[work[best]] {
                FsNode::File { name, .. } => name,
                FsNode::Dir { name, .. } => name,
            };
            if str_lex_lt(name_m.as_str(), name_b.as_str()) {
                proof {
                    assert forall|x: int|
                        0 <= x < m implies lex_lt(
                        remaining[m as int].name_view(),
                        (#[trigger] remaining[x]).name_view(),
                    ) by {
                        lemma_lex_trichotomy(
                            remaining[m as int].name_view(),
                            remaining[x].name_view(),
                        );
                        if remaining[m as int].name_view() == remaining[x].name_view() {
                            assert(lex_lt(
                                remaining[m as int].name_view(),
                                remaining[best as int].name_view(),
                            ));
                        } else if lex_lt(
                            remaining[x].name_view(),
                            remaining[m as int].name_view(),
                        ) {
                            lemma_lex_trans(
                                remaining[x].name_view(),
                                remaining[m as int].name_view(),
                                remaining[best as int].name_view(),
                            );
                        }
                    }
                    assert forall|x: int|
                        0 <= x < m + 1 implies !lex_lt(
                        (#[trigger] remaining[x]).name_view(),
                        remaining[m as int].name_view(),
                    ) by {
                        if x < m {
                            if lex_lt(
                                remaining[x].name_view(),
                                remaining[m as int].name_view(),
                            ) {
                                lemma_lex_trans(
                                    remaining[x].name_view(),
                                    remaining[m as int].name_view(),
                                    remaining[x].name_view(),
                                );
                                lemma_lex_irrefl(remaining[x].name_view());
                                assert(false);
                            }
                        } else {
                            lemma_lex_irrefl(remaining[m as int].name_view());
                        }
                    }
                }
                best = m;
            } else {
                proof {
                    assert forall|x: int|
                        0 <= x < m + 1 implies !lex_lt(
                        (#[trigger] remaining[x]).name_view(),
                        remaining[best as int].name_view(),
                    ) by {}
                }
            }
            m = m + 1;
        }
        proof {
            lemma_min_name_unique(remaining, best as int);
        }
        let ghost work_before = work@;
        let idx = work.remove(best);
        let node = &entries[idx];
        let ghost picked = remaining[best as int];
        let ghost rest = remaining.remove(best as int);
        proof {
            assert forall|x: int|
                0 <= x < work@.len() implies #[trigger] work@[x] < all.len() && all[(
            work@[x]) as int] == rest[x] by {
            }
            assert(keeps_entry(picked));
        }
        let (entry_hash, mode): (Vec<u8>, u64) = match node {
            FsNode::Dir { children, .. } => {
                let h = match write_tree_from_directory(store, children, fuel - 1) {
                    Ok(h) => h,
                    Err(e) => {
                        proof {
                            assert(!node_snapshot_ok(picked, fuel as nat));
                            assert(!snapshot_ok(all, fuel as nat)) by {
                                lemma_nodes_snapshot_ok_iff(all, fuel as nat);
                                assert(all[idx as int] == picked);
                                if nodes_snapshot_ok(all, fuel as nat) {
                                    assert(!keeps_entry(all[idx as int]) || node_snapshot_ok(
                                        all[idx as int],
                                        fuel as nat,
                                    ));
                                    assert(false);
                                }
                            }
                        }
                        return Err(e);
                    },
                };
                (h, 40000u64)
            },
            FsNode::File { data, .. } => {
                let framed = frame_object(ObjectType::Blob, data);
                (write_object(store, &framed), 100644u64)
            },
        };
        proof {
            assert(node_snapshot_ok(picked, fuel as nat));
            assert forall|i: int|
                0 <= i < all.len() && keeps_entry(all[i]) implies #[trigger] work_contains(
                work@,
                i,
            ) || node_snapshot_ok(all[i], fuel as nat) by {
                if work_contains(work_before, i) {
                    let x = choose|x: int| 0 <= x < work_before.len() && work_before[x] == i;
                    if x == best as int {
                        assert(all[i] == picked);
                    } else if x < best as int {
                        assert(work@[x] == i);
                    } else {
                        assert(work@[x - 1] == i);
                    }
                }
            }
        }
        let name = match node {
            FsNode::File { name, .. } => name,
            FsNode::Dir { name, .. } => name,
        };
        let ghost payload0 = payload@;
        push_dec_bytes(mode, &mut payload);
        payload.push(32);
        let mut name_bytes = name.as_str().as_bytes_vec();
        payload.append(&mut name_bytes);
        payload.push(0);
        let ghost id_view = entry_hash@;
        let mut id_bytes = entry_hash;
        payload.append(&mut id_bytes);
        proof {
            let e = fs_entry(picked, fuel as nat);
            assert(id_view == e.2);
            assert(payload@ =~= payload0 + tree_entry_bytes(e.0, e.1, e.2));
            let sorted_rem = sort_fs(remaining);
            assert(sorted_rem == seq![picked] + sort_fs(rest));
            assert((seq![picked] + sort_fs(rest)).drop_first() =~= sort_fs(rest));
            assert(fs_entries(sorted_rem, fuel as nat) == seq![e] + fs_entries(
                sort_fs(rest),
                fuel as nat,
            ));
            assert((seq![e] + fs_entries(sort_fs(rest), fuel as nat)).drop_first() =~= fs_entries(
                sort_fs(rest),
                fuel as nat,
            ));
            assert(tree_payload(fs_entries(sorted_rem, fuel as nat)) == tree_entry_bytes(
                e.0,
                e.1,
                e.2,
            ) + tree_payload(fs_entries(sort_fs(rest), fuel as nat)));
            assert(payload0 + (tree_entry_bytes(e.0, e.1, e.2) + tree_payload(
                fs_entries(sort_fs(rest), fuel as nat),
            )) =~= payload@ + tree_payload(fs_entries(sort_fs(rest), fuel as nat)));
            remaining = rest;
        }
    }
    proof {
        assert(remaining =~= Seq::<FsNode>::empty());
        assert(sort_fs(remaining) == remaining);
        assert(fs_entries(sort_fs(remaining), fuel as nat) =~= Seq::<
            (nat, Seq<char>, Seq<u8>),
        >::empty());
        assert(tree_payload(fs_entries(sort_fs(remaining), fuel as nat)) =~= Seq::<u8>::empty());
        assert(payload@ + Seq::<u8>::empty() =~= payload@);
        assert(payload@ == snapshot_payload(all, fuel as nat));
        assert(snapshot_ok(all, fuel as nat)) by {
            lemma_nodes_snapshot_ok_iff(all, fuel as nat);
            assert forall|i: int|
                0 <= i < all.len() implies !keeps_entry(#[trigger] all[i]) || node_snapshot_ok(
                all[i],
                fuel as nat,
            ) by {
                if keeps_entry(all[i]) {
                    if work_contains(work@, i) {
                        let x = choose|x: int| 0 <= x < work@.len() && work@[x] == i;
                        assert(false);
                    }
                }
            }
        }
    }
    let hash = write_tree(store, &payload);
    Ok(hash)
}

} // verus!


