//! Identity anchors, one per authenticated caller.
use crate::codec::{
    enc_str, enc_u64, lemma_str_round_trip, lemma_tail_tail, lemma_u64_round_trip, parse_str,
    parse_u64, read_str, read_u64, str_fits, tail, write_bytes, write_str, write_u64,
};
use crate::store::{
    insert_sorted, lookup, opt_view, values_of, views_of, RecordStore, StoredRecord,
};
use vstd::prelude::*;

verus! {

/// The longest identity a caller can have, in bytes.
pub const MAX_CALLER_LEN: usize = 29;

/// An authenticated caller's identity, as the bytes of its principal.
pub struct CallerId {
    bytes: Vec<u8>,
}

impl View for CallerId {
    type V = Seq<u8>;

    closed spec fn view(&self) -> Seq<u8> {
        self.bytes@
    }
}

/// The key of a caller: its length, then its bytes. Keys then sort by length first and
/// by bytes among equal lengths, the order of principals.
pub open spec fn caller_key(id: Seq<u8>) -> Seq<u8> {
    seq![id.len() as u8] + id
}

impl CallerId {
    /// An identity made of `bytes`; `None` when they are longer than a principal can be.
    pub fn from_bytes(bytes: &[u8]) -> (r: Option<CallerId>)
        ensures
            r is Some <==> bytes@.len() <= MAX_CALLER_LEN,
            r matches Some(c) ==> c@ == bytes@,
    {
        if bytes.len() > MAX_CALLER_LEN {
            return None;
        }
        let mut v: Vec<u8> = Vec::new();
        write_bytes(&mut v, bytes);
        proof {
            assert(v@ =~= bytes@);
        }
        Some(CallerId { bytes: v })
    }

    pub fn as_slice(&self) -> (r: &[u8])
        ensures
            r@ == self@,
    {
        self.bytes.as_slice()
    }

    fn key(&self) -> (r: Vec<u8>)
        ensures
            r@ == caller_key(self@),
    {
        let mut r: Vec<u8> = Vec::new();
        r.push(self.bytes.len() as u8);
        write_bytes(&mut r, self.bytes.as_slice());
        proof {
            assert(r@ =~= caller_key(self@));
        }
        r
    }
}

pub struct Anchor {
    pub anchor_id: String,
    pub tenant: String,
    pub created_at: u64,
}

pub struct AnchorView {
    pub anchor_id: Seq<char>,
    pub tenant: Seq<char>,
    pub created_at: u64,
}

impl View for Anchor {
    type V = AnchorView;

    open spec fn view(&self) -> AnchorView {
        AnchorView { anchor_id: self.anchor_id@, tenant: self.tenant@, created_at: self.created_at }
    }
}

impl StoredRecord for Anchor {
    open spec fn encoding(v: AnchorView) -> Seq<u8> {
        enc_str(v.anchor_id) + enc_str(v.tenant) + enc_u64(v.created_at)
    }

    open spec fn fits(v: AnchorView) -> bool {
        str_fits(v.anchor_id) && str_fits(v.tenant)
    }

    open spec fn parse(b: Seq<u8>) -> Option<(AnchorView, int)> {
        match parse_str(b) {
            None => None,
            Some((anchor_id, a)) => match parse_str(tail(b, a)) {
                None => None,
                Some((tenant, c)) => match parse_u64(tail(b, a + c)) {
                    None => None,
                    Some((created_at, d)) => Some(
                        (AnchorView { anchor_id, tenant, created_at }, a + c + d),
                    ),
                },
            },
        }
    }

    proof fn lemma_round_trip(v: AnchorView, rest: Seq<u8>) {
        let e1 = enc_str(v.anchor_id);
        let e2 = enc_str(v.tenant);
        let e3 = enc_u64(v.created_at);
        let b = Self::encoding(v) + rest;
        assert(b =~= e1 + (e2 + e3 + rest));
        lemma_str_round_trip(v.anchor_id, e2 + e3 + rest);
        assert(tail(b, e1.len() as int) =~= e2 + (e3 + rest));
        lemma_str_round_trip(v.tenant, e3 + rest);
        assert(tail(b, (e1.len() + e2.len()) as int) =~= e3 + rest);
        lemma_u64_round_trip(v.created_at, rest);
    }

    fn duplicate(&self) -> (r: Self) {
        Anchor {
            anchor_id: self.anchor_id.clone(),
            tenant: self.tenant.clone(),
            created_at: self.created_at,
        }
    }

    fn encode_into(&self, out: &mut Vec<u8>) {
        write_str(out, &self.anchor_id);
        write_str(out, &self.tenant);
        write_u64(out, self.created_at);
        proof {
            assert(out@ =~= old(out)@ + Self::encoding(self@));
        }
    }

    fn decode_at(b: &[u8], pos: usize) -> (r: Option<(Self, usize)>) {
        let (anchor_id, p1) = match read_str(b, pos) {
            Some(x) => x,
            None => return None,
        };
        proof {
            lemma_tail_tail(b@, pos as int, p1 - pos);
        }
        let (tenant, p2) = match read_str(b, p1) {
            Some(x) => x,
            None => return None,
        };
        proof {
            lemma_tail_tail(b@, pos as int, p2 - pos);
        }
        let (created_at, p3) = match read_u64(b, p2) {
            Some(x) => x,
            None => return None,
        };
        Some((Anchor { anchor_id, tenant, created_at }, p3))
    }
}

pub type AnchorStore = RecordStore<Anchor>;

/// The anchor that a registration stores.
pub open spec fn anchored(anchor_id: Seq<char>, tenant: Seq<char>, timestamp: u64) -> AnchorView {
    AnchorView { anchor_id, tenant, created_at: timestamp }
}

/// Registers an anchor for `caller`, replacing any earlier one of that caller.
pub fn register(
    store: &mut AnchorStore,
    caller: &CallerId,
    anchor_id: String,
    tenant: String,
    timestamp: u64,
)
    requires
        old(store).wf(),
    ensures
        final(store).wf(),
        final(store)@ == insert_sorted(
            old(store)@,
            caller_key(caller@),
            anchored(anchor_id@, tenant@, timestamp),
        ),
{
    let anchor = Anchor { anchor_id, tenant, created_at: timestamp };
    store.put(caller.key(), anchor);
}

/// The anchor of `principal`, if it registered one.
pub fn get(store: &AnchorStore, principal: &CallerId) -> (r: Option<Anchor>)
    requires
        store.wf(),
    ensures
        opt_view(r) == lookup(store@, caller_key(principal@)),
{
    let key = principal.key();
    store.get(key.as_slice())
}

/// Every anchor, in the order of their callers.
pub fn proofs(store: &AnchorStore) -> (r: Vec<Anchor>)
    ensures
        views_of(r@) == values_of(store@),
{
    store.list_all()
}

} // verus!
