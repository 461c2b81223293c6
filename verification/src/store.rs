//! The key-value store: an in-memory map of name to sealed record, with
//! whole-store encrypted persistence as one byte image.

use vstd::prelude::*;
use vstd::slice::slice_subrange;
use vstd::string::StrSliceExecFns;
use vstd::utf8::{decode_utf8, encode_utf8, valid_utf8};

use crate::cipher::{
    cipher_ct, decrypt_data, encrypt_data, KEY_LEN, MAX_PLAINTEXT_LEN, NONCE_LEN, TAG_LEN,
};
use crate::codec::{
    bounded_entries, entry_bytes, lemma_store_bytes_snoc, lemma_store_round_trip, parse_entry,
    parse_field, parse_rel, parse_store, pow256, push_le64, push_slice, read_field, store_bytes,
    EntryView,
};

verus! {

/// One stored ciphertext: the random nonce it was sealed with and the
/// sealed bytes themselves.
pub struct Secret {
    pub iv: Vec<u8>,
    pub encrypted_value: Vec<u8>,
}

impl View for Secret {
    type V = (Seq<u8>, Seq<u8>);

    open spec fn view(&self) -> (Seq<u8>, Seq<u8>) {
        (self.iv@, self.encrypted_value@)
    }
}

impl Clone for Secret {
    fn clone(&self) -> (r: Self)
        ensures
            r@ == self@,
    {
        Secret { iv: self.iv.clone(), encrypted_value: self.encrypted_value.clone() }
    }
}

/// The whole map as one serializable value: what a store image decodes to.
pub struct PersistedSecrets {
    pub secrets: Vec<(String, Secret)>,
}

/// Why a store image was refused on load.
#[derive(Clone, Copy, PartialEq, Eq, Structural, Debug)]
pub enum LoadError {
    /// The tag check failed: wrong key, or the image was altered.
    Integrity,
    /// The decrypted bytes are not a store encoding (or repeat a name).
    Malformed,
}

/// The mathematical content of a sequence of entries.
pub open spec fn entries_view(s: Seq<(String, Secret)>) -> Seq<EntryView> {
    s.map_values(|e: (String, Secret)| (e.0@, e.1@))
}

/// No two entries carry the same name.
pub open spec fn unique_names(vs: Seq<EntryView>) -> bool {
    forall|i: int, j: int| 0 <= i < j < vs.len() ==> (#[trigger] vs[i]).0 != (#[trigger] vs[j]).0
}

/// The map the entries denote: later entries overwrite earlier ones.
pub open spec fn view_map(vs: Seq<EntryView>) -> Map<Seq<char>, (Seq<u8>, Seq<u8>)>
    decreases vs.len(),
{
    if vs.len() == 0 {
        Map::empty()
    } else {
        view_map(vs.drop_last()).insert(vs.last().0, vs.last().1)
    }
}

pub proof fn lemma_view_map_contains(vs: Seq<EntryView>, k: Seq<char>)
    ensures
        view_map(vs).contains_key(k) <==> exists|i: int|
            0 <= i < vs.len() && (#[trigger] vs[i]).0 == k,
    decreases vs.len(),
{
    if vs.len() == 0 {
    } else {
        let dl = vs.drop_last();
        lemma_view_map_contains(dl, k);
        if vs.last().0 == k {
            assert(vs[vs.len() - 1].0 == k);
        } else {
            if exists|i: int| 0 <= i < vs.len() && (#[trigger] vs[i]).0 == k {
                let i = choose|i: int| 0 <= i < vs.len() && (#[trigger] vs[i]).0 == k;
                assert(dl[i].0 == k);
            }
            if view_map(dl).contains_key(k) {
                let i = choose|i: int| 0 <= i < dl.len() && (#[trigger] dl[i]).0 == k;
                assert(vs[i].0 == k);
            }
        }
    }
}

pub proof fn lemma_view_map_value(vs: Seq<EntryView>, i: int)
    requires
        unique_names(vs),
        0 <= i < vs.len(),
    ensures
        view_map(vs).contains_key(vs[i].0),
        view_map(vs)[vs[i].0] == vs[i].1,
    decreases vs.len(),
{
    if i == vs.len() - 1 {
    } else {
        let dl = vs.drop_last();
        assert(forall|a: int| 0 <= a < dl.len() ==> dl[a] == vs[a]);
        lemma_view_map_value(dl, i);
        assert(vs.last().0 != vs[i].0);
    }
}

pub proof fn lemma_view_map_remove(vs: Seq<EntryView>, i: int)
    requires
        unique_names(vs),
        0 <= i < vs.len(),
    ensures
        view_map(vs.remove(i)) == view_map(vs).remove(vs[i].0),
    decreases vs.len(),
{
    let k = vs[i].0;
    if i == vs.len() - 1 {
        assert(vs.remove(i) =~= vs.drop_last());
        lemma_view_map_contains(vs.drop_last(), k);
        assert(forall|a: int| 0 <= a < vs.len() - 1 ==> (#[trigger] vs[a]).0 != k);
        assert(forall|a: int|
            0 <= a < vs.drop_last().len() ==> (#[trigger] vs.drop_last()[a]) == vs[a]);
        assert(!view_map(vs.drop_last()).contains_key(k));
        assert(view_map(vs.drop_last()).insert(k, vs.last().1).remove(k) =~= view_map(
            vs.drop_last(),
        ));
    } else {
        let dl = vs.drop_last();
        assert(forall|a: int| 0 <= a < dl.len() ==> dl[a] == vs[a]);
        lemma_view_map_remove(dl, i);
        assert(vs.remove(i).drop_last() =~= dl.remove(i));
        assert(vs.remove(i).last() == vs.last());
        assert(vs.last().0 != k);
        assert(view_map(dl).remove(k).insert(vs.last().0, vs.last().1) =~= view_map(dl).insert(
            vs.last().0,
            vs.last().1,
        ).remove(k));
    }
}

/// Relies on str's `PartialEq`: two string slices are equal exactly when
/// their character sequences are.
#[verifier::external_body]
pub(crate) fn str_eq(a: &str, b: &str) -> (r: bool)
    ensures
        r == (a@ == b@),
{
    a == b
}

/// Relies on std's `String::from_utf8`: returns the decoded string exactly
/// when the bytes are valid UTF-8, and refuses them otherwise.
#[verifier::external_body]
fn bytes_to_string(v: Vec<u8>) -> (r: Option<String>)
    ensures
        r is Some <==> valid_utf8(v@),
        r is Some ==> r->Some_0@ == decode_utf8(v@),
{
    match String::from_utf8(v) {
        Ok(s) => Some(s),
        Err(_) => None,
    }
}

/// Encodes the entries into the canonical store byte format, in order.
pub(crate) fn encode_entries(entries: &Vec<(String, Secret)>) -> (r: Vec<u8>)
    ensures
        r@ == store_bytes(entries_view(entries@)),
        bounded_entries(entries_view(entries@)),
{
    let ghost vs = entries_view(entries@);
    let mut out: Vec<u8> = Vec::new();
    let n = entries.len();
    let mut i: usize = 0;
    proof {
        assert(vs.take(0) =~= Seq::<EntryView>::empty());
    }
    while i < n
        invariant
            n == entries@.len(),
            vs == entries_view(entries@),
            0 <= i <= n,
            out@ == store_bytes(vs.take(i as int)),
            forall|a: int|
                0 <= a < i ==> encode_utf8((#[trigger] vs[a]).0).len() < pow256(8)
                    && vs[a].1.0.len() < pow256(8) && vs[a].1.1.len() < pow256(8),
        decreases n - i,
    {
        let ghost pre = out@;
        let e = &entries[i];
        let name_bytes = e.0.as_str().as_bytes_vec();
        push_le64(&mut out, name_bytes.len() as u64);
        push_slice(&mut out, name_bytes.as_slice());
        push_le64(&mut out, e.1.iv.len() as u64);
        push_slice(&mut out, e.1.iv.as_slice());
        push_le64(&mut out, e.1.encrypted_value.len() as u64);
        push_slice(&mut out, e.1.encrypted_value.as_slice());
        proof {
            crate::codec::lemma_pow256_values();
            let ev = vs[i as int];
            assert(ev == (entries@[i as int].0@, entries@[i as int].1@));
            assert(name_bytes@ == encode_utf8(ev.0));
            assert(out@ =~= pre + entry_bytes(ev));
            lemma_store_bytes_snoc(vs.take(i as int), ev);
            assert(vs.take(i as int).push(ev) =~= vs.take(i as int + 1));
        }
        i += 1;
    }
    proof {
        assert(vs.take(n as int) =~= vs);
    }
    out
}

/// Decodes a canonical store byte image back into its entries, refusing
/// malformed bytes.
pub(crate) fn decode_entries(bytes: &[u8]) -> (r: Result<PersistedSecrets, ()>)
    ensures
        r is Ok ==> parse_store(bytes@) == Some(entries_view(r->Ok_0.secrets@)),
        r is Err ==> parse_store(bytes@) is None,
{
    let mut out: Vec<(String, Secret)> = Vec::new();
    let n = bytes.len();
    let mut pos: usize = 0;
    proof {
        assert(entries_view(out@) =~= Seq::<EntryView>::empty());
        assert(bytes@.skip(0) =~= bytes@);
        if parse_store(bytes@) is Some {
            assert(Seq::<EntryView>::empty() + parse_store(bytes@)->Some_0 =~= parse_store(
                bytes@,
            )->Some_0);
        }
    }
    while pos < n
        invariant
            n == bytes@.len(),
            0 <= pos <= n,
            parse_rel(bytes@, bytes@.skip(pos as int), entries_view(out@)),
        decreases n - pos,
    {
        let ghost rest0 = bytes@.skip(pos as int);
        let ghost done0 = entries_view(out@);
        let r1 = read_field(bytes, pos);
        if r1.is_none() {
            proof {
                assert(parse_entry(rest0) is None);
                assert(rest0.len() > 0);
            }
            return Err(());
        }
        let (name_vec, p1) = r1.unwrap();
        let ghost nb = name_vec@;
        let name_opt = bytes_to_string(name_vec);
        if name_opt.is_none() {
            proof {
                assert(!valid_utf8(nb));
                assert(parse_entry(rest0) is None);
                assert(rest0.len() > 0);
            }
            return Err(());
        }
        let name = name_opt.unwrap();
        let r2 = read_field(bytes, p1);
        if r2.is_none() {
            proof {
                assert(parse_field(bytes@.skip(p1 as int)) is None);
                assert(parse_entry(rest0) is None);
                assert(rest0.len() > 0);
            }
            return Err(());
        }
        let (iv_vec, p2) = r2.unwrap();
        let r3 = read_field(bytes, p2);
        if r3.is_none() {
            proof {
                assert(parse_field(bytes@.skip(p2 as int)) is None);
                assert(parse_entry(rest0) is None);
                assert(rest0.len() > 0);
            }
            return Err(());
        }
        let (val_vec, p3) = r3.unwrap();
        let ghost ev = (name@, (iv_vec@, val_vec@));
        proof {
            assert(name@ == decode_utf8(nb));
            assert(parse_entry(rest0) == Some((ev, bytes@.skip(p3 as int))));
            let rest1 = bytes@.skip(p3 as int);
            assert(rest1.len() < rest0.len());
            if parse_store(rest1) is Some {
                let es = parse_store(rest1)->Some_0;
                assert(parse_store(rest0) == Some(seq![ev] + es));
                assert(done0 + (seq![ev] + es) =~= done0.push(ev) + es);
            } else {
                assert(parse_store(rest0) is None);
            }
        }
        out.push((name, Secret { iv: iv_vec, encrypted_value: val_vec }));
        proof {
            assert(entries_view(out@) =~= done0.push(ev));
        }
        pos = p3;
    }
    proof {
        assert(bytes@.skip(pos as int) =~= Seq::<u8>::empty());
        assert(parse_store(bytes@.skip(pos as int)) == Some(Seq::<EntryView>::empty()));
        assert(entries_view(out@) + Seq::<EntryView>::empty() =~= entries_view(out@));
    }
    Ok(PersistedSecrets { secrets: out })
}

/// Decides whether the entries' names are pairwise distinct.
pub(crate) fn check_unique(entries: &Vec<(String, Secret)>) -> (r: bool)
    ensures
        r == unique_names(entries_view(entries@)),
{
    let ghost vs = entries_view(entries@);
    let n = entries.len();
    let mut i: usize = 0;
    while i < n
        invariant
            n == entries@.len(),
            vs == entries_view(entries@),
            0 <= i <= n,
            forall|a: int, b: int|
                0 <= a < b < n && a < i ==> (#[trigger] vs[a]).0 != (#[trigger] vs[b]).0,
        decreases n - i,
    {
        let mut j: usize = i + 1;
        while j < n
            invariant
                n == entries@.len(),
                vs == entries_view(entries@),
                0 <= i < j <= n,
                forall|b: int| i < b < j ==> (#[trigger] vs[b]).0 != vs[i as int].0,
            decreases n - j,
        {
            if str_eq(entries[i].0.as_str(), entries[j].0.as_str()) {
                proof {
                    assert(vs[i as int] == (entries@[i as int].0@, entries@[i as int].1@));
                    assert(vs[j as int] == (entries@[j as int].0@, entries@[j as int].1@));
                    assert(vs[i as int].0 == vs[j as int].0);
                }
                return false;
            }
            proof {
                assert(vs[i as int] == (entries@[i as int].0@, entries@[i as int].1@));
                assert(vs[j as int] == (entries@[j as int].0@, entries@[j as int].1@));
            }
            j += 1;
        }
        i += 1;
    }
    true
}

/// A byte image whose tail is the sealing of `pt` under `key` and the
/// image's own leading nonce.
pub open spec fn seals(data: Seq<u8>, key: Seq<u8>, pt: Seq<u8>) -> bool {
    &&& data.len() >= NONCE_LEN
    &&& pt.len() < MAX_PLAINTEXT_LEN
    &&& data.skip(NONCE_LEN as int) == cipher_ct(key, data.take(NONCE_LEN as int), pt)
}

/// The in-memory map of name to sealed record.
pub struct KVStore {
    secrets: Vec<(String, Secret)>,
}

impl View for KVStore {
    type V = Map<Seq<char>, (Seq<u8>, Seq<u8>)>;

    open spec fn view(&self) -> Map<Seq<char>, (Seq<u8>, Seq<u8>)> {
        view_map(self.entries())
    }
}

impl KVStore {
    /// The store's entries, in insertion order.
    pub closed spec fn entries(&self) -> Seq<EntryView> {
        entries_view(self.secrets@)
    }

    /// The store's invariant: names are pairwise distinct.
    pub open spec fn wf(&self) -> bool {
        unique_names(self.entries())
    }

    /// Creates an empty store.
    pub fn new() -> (r: Self)
        ensures
            r.wf(),
            r@ == Map::<Seq<char>, (Seq<u8>, Seq<u8>)>::empty(),
            r.entries() == Seq::<EntryView>::empty(),
    {
        let r = KVStore { secrets: Vec::new() };
        proof {
            assert(r.entries() =~= Seq::<EntryView>::empty());
        }
        r
    }

    /// The index of the entry named `name`, if any.
    fn find(&self, name: &str) -> (r: Option<usize>)
        ensures
            match r {
                Option::Some(i) => 0 <= i < self.entries().len() && self.entries()[i as int].0
                    == name@,
                Option::None => forall|j: int|
                    0 <= j < self.entries().len() ==> (#[trigger] self.entries()[j]).0 != name@,
            },
    {
        let ghost vs = entries_view(self.secrets@);
        let n = self.secrets.len();
        let mut i: usize = 0;
        while i < n
            invariant
                n == self.secrets@.len(),
                vs == entries_view(self.secrets@),
                0 <= i <= n,
                forall|j: int| 0 <= j < i ==> (#[trigger] vs[j]).0 != name@,
            decreases n - i,
        {
            proof {
                assert(vs[i as int] == (self.secrets@[i as int].0@, self.secrets@[i as int].1@));
            }
            if str_eq(self.secrets[i].0.as_str(), name) {
                return Some(i);
            }
            i += 1;
        }
        None
    }

    /// Stores or replaces the record for `key`: afterwards the map is the
    /// old map with `key` bound to the new nonce and sealed bytes.
    pub fn set_secret(&mut self, key: String, iv: Vec<u8>, encrypted_value: Vec<u8>)
        requires
            old(self).wf(),
        ensures
            final(self).wf(),
            final(self)@ == old(self)@.insert(key@, (iv@, encrypted_value@)),
    {
        let ghost kview = key@;
        let ghost vview = (iv@, encrypted_value@);
        let ghost vs0 = entries_view(self.secrets@);
        let found = self.find(key.as_str());
        match found {
            Option::Some(i) => {
                proof {
                    lemma_view_map_remove(vs0, i as int);
                }
                self.secrets.remove(i);
                proof {
                    assert(entries_view(self.secrets@) =~= vs0.remove(i as int));
                    assert forall|a: int, b: int|
                        0 <= a < b < vs0.remove(i as int).len() implies (#[trigger] vs0.remove(
                        i as int,
                    )[a]).0 != (#[trigger] vs0.remove(i as int)[b]).0 by {
                        assert(vs0.remove(i as int)[a] == if a < i {
                            vs0[a]
                        } else {
                            vs0[a + 1]
                        });
                        assert(vs0.remove(i as int)[b] == if b < i {
                            vs0[b]
                        } else {
                            vs0[b + 1]
                        });
                    }
                    assert forall|a: int| 0 <= a < vs0.remove(i as int).len() implies (
                    #[trigger] vs0.remove(i as int)[a]).0 != kview by {
                        assert(vs0.remove(i as int)[a] == if a < i {
                            vs0[a]
                        } else {
                            vs0[a + 1]
                        });
                    }
                }
            },
            Option::None => {},
        }
        let ghost vs1 = entries_view(self.secrets@);
        self.secrets.push((key, Secret { iv, encrypted_value }));
        proof {
            let e = (kview, vview);
            assert(entries_view(self.secrets@) =~= vs1.push(e));
            assert(vs1.push(e).drop_last() =~= vs1);
            assert(vs1.push(e).last() == e);
            assert(view_map(vs1.push(e)) == view_map(vs1).insert(kview, vview));
            assert forall|a: int, b: int|
                0 <= a < b < vs1.push(e).len() implies (#[trigger] vs1.push(e)[a]).0 != (
            #[trigger] vs1.push(e)[b]).0 by {
                if b < vs1.len() {
                } else {
                    assert(vs1.push(e)[b] == e);
                    assert(vs1.push(e)[a] == vs1[a]);
                }
            }
            match found {
                Option::Some(i) => {
                    assert(view_map(vs1) == view_map(vs0).remove(kview));
                    assert(view_map(vs0).remove(kview).insert(kview, vview) =~= view_map(
                        vs0,
                    ).insert(kview, vview));
                },
                Option::None => {
                    lemma_view_map_contains(vs0, kview);
                },
            }
        }
    }

    /// Returns a copy of the record stored under `key`, or nothing where no
    /// record of that name exists.
    pub fn get_secret(&self, key: &str) -> (r: Option<Secret>)
        requires
            self.wf(),
        ensures
            r is Some <==> self@.contains_key(key@),
            r is Some ==> r->Some_0@ == self@[key@],
    {
        proof {
            lemma_view_map_contains(self.entries(), key@);
        }
        match self.find(key) {
            Option::Some(i) => {
                proof {
                    lemma_view_map_value(self.entries(), i as int);
                }
                Some(self.secrets[i].1.clone())
            },
            Option::None => None,
        }
    }

    /// Serializes the whole map to its canonical byte encoding, seals it
    /// under `master_key` with a fresh nonce, and returns the image
    /// `nonce || ciphertext`. The image decrypts and parses back to exactly
    /// this store's entries.
    pub fn save_encrypted(&self, master_key: &[u8]) -> (r: Vec<u8>)
        requires
            self.wf(),
            master_key@.len() == KEY_LEN,
            store_bytes(self.entries()).len() < MAX_PLAINTEXT_LEN,
            store_bytes(self.entries()).len() + NONCE_LEN + TAG_LEN <= usize::MAX,
        ensures
            r@.len() == NONCE_LEN + TAG_LEN + store_bytes(self.entries()).len(),
            seals(r@, master_key@, store_bytes(self.entries())),
            parse_store(store_bytes(self.entries())) == Some(self.entries()),
    {
        let image = encode_entries(&self.secrets);
        let (nonce, ciphertext) = encrypt_data(master_key, image.as_slice());
        let mut out = nonce;
        let mut tail = ciphertext;
        let ghost nview = out@;
        let ghost cview = tail@;
        out.append(&mut tail);
        proof {
            assert(out@.take(NONCE_LEN as int) =~= nview);
            assert(out@.skip(NONCE_LEN as int) =~= cview);
            lemma_store_round_trip(self.entries());
        }
        out
    }

    /// Replaces the whole map with the one sealed in `data`, an image
    /// produced by `save_encrypted` under the same `master_key`. On any
    /// failure — bytes too short, tag check failed, bytes that do not parse
    /// or repeat a name — the store is left unchanged.
    pub fn load_encrypted(&mut self, data: &[u8], master_key: &[u8]) -> (r: Result<(), LoadError>)
        requires
            master_key@.len() == KEY_LEN,
        ensures
            r is Err ==> *final(self) == *old(self),
            r is Ok ==> final(self).wf(),
            r is Ok ==> exists|pt: Seq<u8>|
                #[trigger] seals(data@, master_key@, pt) && parse_store(pt) == Some(
                    final(self).entries(),
                ),
            forall|pt: Seq<u8>|
                #[trigger] seals(data@, master_key@, pt) && parse_store(pt) is Some
                    && unique_names(parse_store(pt)->Some_0) ==> r is Ok && parse_store(pt)
                    == Some(final(self).entries()),
            data@.len() < NONCE_LEN ==> r == Result::<(), LoadError>::Err(LoadError::Malformed),
    {
        let n = data.len();
        if n < NONCE_LEN {
            return Err(LoadError::Malformed);
        }
        let nonce = slice_subrange(data, 0, NONCE_LEN);
        let ct = slice_subrange(data, NONCE_LEN, n);
        proof {
            assert(nonce@ =~= data@.take(NONCE_LEN as int));
            assert(ct@ =~= data@.skip(NONCE_LEN as int));
        }
        let opened = decrypt_data(master_key, nonce, ct);
        if opened.is_err() {
            proof {
                assert forall|pt: Seq<u8>| #[trigger] seals(data@, master_key@, pt) implies false
                by {
                    assert(ct@ == cipher_ct(master_key@, nonce@, pt));
                }
            }
            return Err(LoadError::Integrity);
        }
        let pt_vec = opened.unwrap();
        let ghost ptv = pt_vec@;
        proof {
            assert forall|pt: Seq<u8>| #[trigger] seals(data@, master_key@, pt) implies pt == ptv
            by {
                assert(ct@ == cipher_ct(master_key@, nonce@, pt));
            }
        }
        let decoded = decode_entries(pt_vec.as_slice());
        match decoded {
            Result::Err(_) => {
                proof {
                    assert(parse_store(ptv) is None);
                }
                Err(LoadError::Malformed)
            },
            Result::Ok(ps) => {
                if !check_unique(&ps.secrets) {
                    proof {
                        assert(parse_store(ptv) == Some(entries_view(ps.secrets@)));
                    }
                    return Err(LoadError::Malformed);
                }
                let ghost es = entries_view(ps.secrets@);
                self.secrets = ps.secrets;
                proof {
                    assert(seals(data@, master_key@, ptv));
                    assert(parse_store(ptv) == Some(es));
                    assert(final(self).entries() == es);
                }
                Ok(())
            },
        }
    }
}

/// Law: persistence round-trips. An image that seals the canonical encoding
/// of a store with pairwise distinct names — which is what `save_encrypted`
/// produces — meets exactly the condition under which `load_encrypted`
/// returns `Ok` and installs those same entries: the encoding parses back to
/// exactly the entries that were saved.
pub proof fn lemma_persistence_round_trip(image: Seq<u8>, key: Seq<u8>, entries: Seq<EntryView>)
    requires
        unique_names(entries),
        bounded_entries(entries),
        seals(image, key, store_bytes(entries)),
    ensures
        seals(image, key, store_bytes(entries)) && parse_store(store_bytes(entries)) == Some(
            entries,
        ) && unique_names(parse_store(store_bytes(entries))->Some_0),
{
    lemma_store_round_trip(entries);
}

} // verus!
