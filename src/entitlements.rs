//! A partner's tier and capabilities, stored under the partner's name.
use crate::codec::{
    enc_str, enc_str_list, lemma_str_list_round_trip, lemma_str_round_trip, lemma_tail_tail,
    parse_str, parse_str_list, read_str, read_str_list, str_fits, str_key, str_views, strs_fit,
    tail, write_str, write_str_list,
};
use crate::store::{
    insert_sorted, lookup, opt_view, values_of, views_of, RecordStore, StoredRecord,
};
use vstd::prelude::*;
use vstd::utf8::encode_utf8;

verus! {

/// Capabilities are kept as written, duplicates included.
pub struct Entitlement {
    pub tier: String,
    pub capabilities: Vec<String>,
}

pub struct EntitlementView {
    pub tier: Seq<char>,
    pub capabilities: Seq<Seq<char>>,
}

impl View for Entitlement {
    type V = EntitlementView;

    open spec fn view(&self) -> EntitlementView {
        EntitlementView { tier: self.tier@, capabilities: str_views(self.capabilities@) }
    }
}

fn clone_strings(v: &Vec<String>) -> (r: Vec<String>)
    ensures
        str_views(r@) == str_views(v@),
{
    let mut r: Vec<String> = Vec::new();
    let mut i: usize = 0;
    while i < v.len()
        invariant
            i <= v@.len(),
            r@.len() == i,
            str_views(r@) == str_views(v@).subrange(0, i as int),
        decreases v@.len() - i,
    {
        let ghost prev = r@;
        r.push(v[i].clone());
        i = i + 1;
        proof {
            assert(str_views(r@) =~= str_views(v@).subrange(0, i as int)) by {
                assert(r@ == prev.push(v@[i - 1]));
                assert(str_views(prev) == str_views(v@).subrange(0, i - 1));
                assert forall|j: int| 0 <= j < i implies str_views(r@)[j] == str_views(v@)[j] by {
                    if j < i - 1 {
                        assert(str_views(prev)[j] == str_views(v@).subrange(0, i - 1)[j]);
                    }
                }
            }
        }
    }
    proof {
        assert(str_views(v@).subrange(0, i as int) =~= str_views(v@));
    }
    r
}

impl StoredRecord for Entitlement {
    open spec fn encoding(v: EntitlementView) -> Seq<u8> {
        enc_str(v.tier) + enc_str_list(v.capabilities)
    }

    open spec fn fits(v: EntitlementView) -> bool {
        str_fits(v.tier) && strs_fit(v.capabilities)
    }

    open spec fn parse(b: Seq<u8>) -> Option<(EntitlementView, int)> {
        match parse_str(b) {
            None => None,
            Some((tier, a)) => match parse_str_list(tail(b, a)) {
                None => None,
                Some((capabilities, c)) => Some((EntitlementView { tier, capabilities }, a + c)),
            },
        }
    }

    proof fn lemma_round_trip(v: EntitlementView, rest: Seq<u8>) {
        let e1 = enc_str(v.tier);
        let e2 = enc_str_list(v.capabilities);
        let b = Self::encoding(v) + rest;
        assert(b =~= e1 + (e2 + rest));
        lemma_str_round_trip(v.tier, e2 + rest);
        assert(tail(b, e1.len() as int) =~= e2 + rest);
        lemma_str_list_round_trip(v.capabilities, rest);
    }

    fn duplicate(&self) -> (r: Self) {
        Entitlement { tier: self.tier.clone(), capabilities: clone_strings(&self.capabilities) }
    }

    fn encode_into(&self, out: &mut Vec<u8>) {
        write_str(out, &self.tier);
        write_str_list(out, &self.capabilities);
        proof {
            assert(out@ =~= old(out)@ + Self::encoding(self@));
        }
    }

    fn decode_at(b: &[u8], pos: usize) -> (r: Option<(Self, usize)>) {
        let (tier, p1) = match read_str(b, pos) {
            Some(x) => x,
            None => return None,
        };
        proof {
            lemma_tail_tail(b@, pos as int, p1 - pos);
        }
        let (capabilities, p2) = match read_str_list(b, p1) {
            Some(x) => x,
            None => return None,
        };
        Some((Entitlement { tier, capabilities }, p2))
    }
}

pub type EntitlementStore = RecordStore<Entitlement>;

/// The record that a write for a partner stores.
pub open spec fn entitled(tier: Seq<char>, capabilities: Seq<Seq<char>>) -> EntitlementView {
    EntitlementView { tier, capabilities }
}

/// Sets the entitlement of `partner`, replacing any earlier one.
pub fn put(store: &mut EntitlementStore, partner: String, tier: String, capabilities: Vec<String>)
    requires
        old(store).wf(),
    ensures
        final(store).wf(),
        final(store)@ == insert_sorted(
            old(store)@,
            encode_utf8(partner@),
            entitled(tier@, str_views(capabilities@)),
        ),
{
    let key = str_key(partner.as_str());
    store.put(key, Entitlement { tier, capabilities });
}

/// The entitlement of `partner`, if any.
pub fn get(store: &EntitlementStore, partner: String) -> (r: Option<Entitlement>)
    requires
        store.wf(),
    ensures
        opt_view(r) == lookup(store@, encode_utf8(partner@)),
{
    let key = str_key(partner.as_str());
    store.get(key.as_slice())
}

/// Every entitlement, in partner order.
pub fn proofs(store: &EntitlementStore) -> (r: Vec<Entitlement>)
    ensures
        views_of(r@) == values_of(store@),
{
    store.list_all()
}

} // verus!
