//! Pointers to vault keys, stored under an explicit resource key.
use crate::codec::{
    enc_opt_u64, enc_str, lemma_opt_u64_round_trip, lemma_str_round_trip, lemma_tail_tail,
    parse_opt_u64, parse_str, read_opt_u64, read_str, str_fits, str_key, tail, write_opt_u64,
    write_str,
};
use crate::store::{
    insert_sorted, lookup, opt_view, values_of, views_of, RecordStore, StoredRecord,
};
use vstd::prelude::*;
use vstd::utf8::encode_utf8;

verus! {

/// A reference to a key held elsewhere. `expires_at` is advisory: nothing here
/// enforces it.
pub struct VaultPointer {
    pub key_id: String,
    pub expires_at: Option<u64>,
}

pub struct VaultPointerView {
    pub key_id: Seq<char>,
    pub expires_at: Option<u64>,
}

impl View for VaultPointer {
    type V = VaultPointerView;

    open spec fn view(&self) -> VaultPointerView {
        VaultPointerView { key_id: self.key_id@, expires_at: self.expires_at }
    }
}

impl StoredRecord for VaultPointer {
    open spec fn encoding(v: VaultPointerView) -> Seq<u8> {
        enc_str(v.key_id) + enc_opt_u64(v.expires_at)
    }

    open spec fn fits(v: VaultPointerView) -> bool {
        str_fits(v.key_id)
    }

    open spec fn parse(b: Seq<u8>) -> Option<(VaultPointerView, int)> {
        match parse_str(b) {
            None => None,
            Some((key_id, a)) => match parse_opt_u64(tail(b, a)) {
                None => None,
                Some((expires_at, c)) => Some((VaultPointerView { key_id, expires_at }, a + c)),
            },
        }
    }

    proof fn lemma_round_trip(v: VaultPointerView, rest: Seq<u8>) {
        let e1 = enc_str(v.key_id);
        let e2 = enc_opt_u64(v.expires_at);
        let b = Self::encoding(v) + rest;
        assert(b =~= e1 + (e2 + rest));
        lemma_str_round_trip(v.key_id, e2 + rest);
        assert(tail(b, e1.len() as int) =~= e2 + rest);
        lemma_opt_u64_round_trip(v.expires_at, rest);
    }

    fn duplicate(&self) -> (r: Self) {
        VaultPointer { key_id: self.key_id.clone(), expires_at: self.expires_at }
    }

    fn encode_into(&self, out: &mut Vec<u8>) {
        write_str(out, &self.key_id);
        write_opt_u64(out, self.expires_at);
        proof {
            assert(out@ =~= old(out)@ + Self::encoding(self@));
        }
    }

    fn decode_at(b: &[u8], pos: usize) -> (r: Option<(Self, usize)>) {
        let (key_id, p1) = match read_str(b, pos) {
            Some(x) => x,
            None => return None,
        };
        proof {
            lemma_tail_tail(b@, pos as int, p1 - pos);
        }
        let (expires_at, p2) = match read_opt_u64(b, p1) {
            Some(x) => x,
            None => return None,
        };
        Some((VaultPointer { key_id, expires_at }, p2))
    }
}

pub type VaultStore = RecordStore<VaultPointer>;

/// Stores `pointer` under `key`, replacing what was there.
pub fn put(store: &mut VaultStore, key: String, pointer: VaultPointer)
    requires
        old(store).wf(),
    ensures
        final(store).wf(),
        final(store)@ == insert_sorted(old(store)@, encode_utf8(key@), pointer@),
{
    let k = str_key(key.as_str());
    store.put(k, pointer);
}

/// The pointer stored under `key`, if any.
pub fn get(store: &VaultStore, key: String) -> (r: Option<VaultPointer>)
    requires
        store.wf(),
    ensures
        opt_view(r) == lookup(store@, encode_utf8(key@)),
{
    let k = str_key(key.as_str());
    store.get(k.as_slice())
}

/// Every pointer, in key order.
pub fn proofs(store: &VaultStore) -> (r: Vec<VaultPointer>)
    ensures
        views_of(r@) == values_of(store@),
{
    store.list_all()
}

} // verus!
