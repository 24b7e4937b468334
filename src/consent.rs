//! Consent records keyed by scope: granted, revoked once, read back.
use crate::codec::{
    enc_opt_u64, enc_str, enc_u64, lemma_opt_u64_round_trip, lemma_str_round_trip,
    lemma_tail_tail, lemma_u64_round_trip, parse_opt_u64, parse_str, parse_u64, read_opt_u64,
    read_str, read_u64, str_fits, str_key, tail, write_opt_u64, write_str, write_u64,
};
use crate::store::{
    insert_sorted, lemma_insert_lookup, lemma_insert_sorted_keeps_order, lookup, opt_view,
    values_of, views_of, RecordStore, StoredRecord,
};
use vstd::prelude::*;
use vstd::utf8::encode_utf8;

verus! {

pub struct ConsentRecord {
    pub scope: String,
    pub granted_at: u64,
    pub revoked_at: Option<u64>,
    pub signer: String,
}

pub struct ConsentView {
    pub scope: Seq<char>,
    pub granted_at: u64,
    pub revoked_at: Option<u64>,
    pub signer: Seq<char>,
}

impl View for ConsentRecord {
    type V = ConsentView;

    open spec fn view(&self) -> ConsentView {
        ConsentView {
            scope: self.scope@,
            granted_at: self.granted_at,
            revoked_at: self.revoked_at,
            signer: self.signer@,
        }
    }
}

impl StoredRecord for ConsentRecord {
    open spec fn encoding(v: ConsentView) -> Seq<u8> {
        enc_str(v.scope) + enc_u64(v.granted_at) + enc_opt_u64(v.revoked_at) + enc_str(v.signer)
    }

    open spec fn fits(v: ConsentView) -> bool {
        str_fits(v.scope) && str_fits(v.signer)
    }

    open spec fn parse(b: Seq<u8>) -> Option<(ConsentView, int)> {
        match parse_str(b) {
            None => None,
            Some((scope, a)) => match parse_u64(tail(b, a)) {
                None => None,
                Some((granted_at, c)) => match parse_opt_u64(tail(b, a + c)) {
                    None => None,
                    Some((revoked_at, d)) => match parse_str(tail(b, a + c + d)) {
                        None => None,
                        Some((signer, e)) => Some(
                            (ConsentView { scope, granted_at, revoked_at, signer }, a + c + d + e),
                        ),
                    },
                },
            },
        }
    }

    proof fn lemma_round_trip(v: ConsentView, rest: Seq<u8>) {
        let e1 = enc_str(v.scope);
        let e2 = enc_u64(v.granted_at);
        let e3 = enc_opt_u64(v.revoked_at);
        let e4 = enc_str(v.signer);
        let b = Self::encoding(v) + rest;
        assert(b =~= e1 + (e2 + e3 + e4 + rest));
        lemma_str_round_trip(v.scope, e2 + e3 + e4 + rest);
        assert(tail(b, e1.len() as int) =~= e2 + (e3 + e4 + rest));
        lemma_u64_round_trip(v.granted_at, e3 + e4 + rest);
        assert(tail(b, (e1.len() + e2.len()) as int) =~= e3 + (e4 + rest));
        lemma_opt_u64_round_trip(v.revoked_at, e4 + rest);
        assert(tail(b, (e1.len() + e2.len() + e3.len()) as int) =~= e4 + rest);
        lemma_str_round_trip(v.signer, rest);
    }

    fn duplicate(&self) -> (r: Self) {
        ConsentRecord {
            scope: self.scope.clone(),
            granted_at: self.granted_at,
            revoked_at: self.revoked_at,
            signer: self.signer.clone(),
        }
    }

    fn encode_into(&self, out: &mut Vec<u8>) {
        write_str(out, &self.scope);
        write_u64(out, self.granted_at);
        write_opt_u64(out, self.revoked_at);
        write_str(out, &self.signer);
        proof {
            assert(out@ =~= old(out)@ + Self::encoding(self@));
        }
    }

    fn decode_at(b: &[u8], pos: usize) -> (r: Option<(Self, usize)>) {
        let (scope, p1) = match read_str(b, pos) {
            Some(x) => x,
            None => return None,
        };
        proof {
            lemma_tail_tail(b@, pos as int, p1 - pos);
        }
        let (granted_at, p2) = match read_u64(b, p1) {
            Some(x) => x,
            None => return None,
        };
        proof {
            lemma_tail_tail(b@, pos as int, p2 - pos);
        }
        let (revoked_at, p3) = match read_opt_u64(b, p2) {
            Some(x) => x,
            None => return None,
        };
        proof {
            lemma_tail_tail(b@, pos as int, p3 - pos);
        }
        let (signer, p4) = match read_str(b, p3) {
            Some(x) => x,
            None => return None,
        };
        Some((ConsentRecord { scope, granted_at, revoked_at, signer }, p4))
    }
}

pub type ConsentStore = RecordStore<ConsentRecord>;

/// The key of a scope.
pub open spec fn scope_key(scope: Seq<char>) -> Seq<u8> {
    encode_utf8(scope)
}

/// The record that a grant writes.
pub open spec fn granted(scope: Seq<char>, signer: Seq<char>, timestamp: u64) -> ConsentView {
    ConsentView { scope, granted_at: timestamp, revoked_at: None, signer }
}

/// The entries after a revocation: a record that is present and not yet revoked gets
/// `revoked_at` set; anything else stays as it is.
pub open spec fn revoked(
    s: Seq<(Seq<u8>, ConsentView)>,
    scope: Seq<char>,
    timestamp: u64,
) -> Seq<(Seq<u8>, ConsentView)> {
    match lookup(s, scope_key(scope)) {
        Some(rec) => if rec.revoked_at is None {
            insert_sorted(s, scope_key(scope), ConsentView { revoked_at: Some(timestamp), ..rec })
        } else {
            s
        },
        None => s,
    }
}

/// Records the consent of `signer` to `scope`, replacing any earlier record of it.
pub fn grant(store: &mut ConsentStore, scope: String, signer: String, timestamp: u64)
    requires
        old(store).wf(),
    ensures
        final(store).wf(),
        final(store)@ == insert_sorted(
            old(store)@,
            scope_key(scope@),
            granted(scope@, signer@, timestamp),
        ),
{
    let key = str_key(scope.as_str());
    let record = ConsentRecord { scope, granted_at: timestamp, revoked_at: None, signer };
    store.put(key, record);
}

/// Marks the consent to `scope` revoked at `timestamp`. Does nothing when there is no
/// record of `scope` or when it was revoked already.
pub fn revoke(store: &mut ConsentStore, scope: String, timestamp: u64)
    requires
        old(store).wf(),
    ensures
        final(store).wf(),
        final(store)@ == revoked(old(store)@, scope@, timestamp),
{
    let key = str_key(scope.as_str());
    match store.get(key.as_slice()) {
        Some(record) => {
            if record.revoked_at.is_none() {
                let updated = ConsentRecord { revoked_at: Some(timestamp), ..record };
                let _ = store.replace_existing(key.as_slice(), updated);
            }
        },
        None => {},
    }
}

/// The record of `scope`, if one was granted.
pub fn get(store: &ConsentStore, scope: String) -> (r: Option<ConsentRecord>)
    requires
        store.wf(),
    ensures
        opt_view(r) == lookup(store@, scope_key(scope@)),
{
    let key = str_key(scope.as_str());
    store.get(key.as_slice())
}

/// Every consent record, in scope order.
pub fn proofs(store: &ConsentStore) -> (r: Vec<ConsentRecord>)
    ensures
        views_of(r@) == values_of(store@),
{
    store.list_all()
}

/// Revoking a scope that has no record leaves the store as it was and adds no record.
pub proof fn lemma_revoke_absent(s: Seq<(Seq<u8>, ConsentView)>, scope: Seq<char>, t: u64)
    requires
        lookup(s, scope_key(scope)) is None,
    ensures
        revoked(s, scope, t) == s,
        lookup(revoked(s, scope, t), scope_key(scope)) is None,
{
}

/// The first revocation stands: a later one changes nothing, and a record that was
/// not revoked before carries the first revocation's time.
pub proof fn lemma_first_revocation_wins(
    s: Seq<(Seq<u8>, ConsentView)>,
    scope: Seq<char>,
    t1: u64,
    t2: u64,
)
    requires
        crate::store::keys_sorted(s),
    ensures
        revoked(revoked(s, scope, t1), scope, t2) == revoked(s, scope, t1),
        match lookup(s, scope_key(scope)) {
            Some(rec) => rec.revoked_at is None ==> lookup(
                revoked(revoked(s, scope, t1), scope, t2),
                scope_key(scope),
            ) == Some(ConsentView { revoked_at: Some(t1), ..rec }),
            None => true,
        },
{
    let k = scope_key(scope);
    match lookup(s, k) {
        Some(rec) => {
            if rec.revoked_at is None {
                let nrec = ConsentView { revoked_at: Some(t1), ..rec };
                lemma_insert_lookup(s, k, nrec, k);
            }
        },
        None => {},
    }
}

} // verus!
