//! An ordered, snapshot-restorable record store keyed by byte strings.
use crate::codec::{
    enc_key, enc_u64, lemma_key_round_trip, lemma_u64_round_trip, parse_key, parse_u64, read_key,
    read_u64, tail, lemma_tail_tail, write_key, write_u64,
};
use crate::order::{
    compare_bytes, lemma_lex_asymmetric, lemma_lex_irreflexive, lemma_lex_total,
    lemma_lex_transitive, lex_lt,
};
use vstd::prelude::*;

verus! {

/// A value that a store can hold: it can be copied exactly, and written to and read
/// back from bytes.
pub trait StoredRecord: Sized + View {
    /// The bytes that stand for a value.
    spec fn encoding(v: Self::V) -> Seq<u8>;

    /// The value's parts are small enough for their lengths to be written as `u64`.
    spec fn fits(v: Self::V) -> bool;

    /// Reads a value at the start of `b`: the value and the number of bytes it took.
    spec fn parse(b: Seq<u8>) -> Option<(Self::V, int)>;

    proof fn lemma_round_trip(v: Self::V, rest: Seq<u8>)
        requires
            Self::fits(v),
        ensures
            Self::parse(Self::encoding(v) + rest) == Some((v, Self::encoding(v).len() as int)),
    ;

    fn duplicate(&self) -> (r: Self)
        ensures
            r@ == self@,
    ;

    fn encode_into(&self, out: &mut Vec<u8>)
        ensures
            final(out)@ == old(out)@ + Self::encoding(self@),
            Self::fits(self@),
    ;

    fn decode_at(b: &[u8], pos: usize) -> (r: Option<(Self, usize)>)
        requires
            pos <= b@.len(),
        ensures
            match Self::parse(tail(b@, pos as int)) {
                None => r is None,
                Some((v, n)) => r matches Some((x, p)) && x@ == v && p == pos + n,
            },
            r matches Some((x, p)) ==> pos <= p <= b@.len(),
    ;
}

/// Keys strictly increasing: each key appears once, in lexicographic order.
pub open spec fn keys_sorted<X>(s: Seq<(Seq<u8>, X)>) -> bool {
    forall|i: int, j: int| 0 <= i < j < s.len() ==> lex_lt(#[trigger] s[i].0, #[trigger] s[j].0)
}

/// The value stored under `k`, if any.
pub open spec fn lookup<X>(s: Seq<(Seq<u8>, X)>, k: Seq<u8>) -> Option<X>
    decreases s.len(),
{
    if s.len() == 0 {
        None
    } else if s[0].0 == k {
        Some(s[0].1)
    } else {
        lookup(s.drop_first(), k)
    }
}

/// The entries after `k` has been set to `v`: an entry with key `k` is replaced,
/// else the new one goes in before the first greater key.
pub open spec fn insert_sorted<X>(s: Seq<(Seq<u8>, X)>, k: Seq<u8>, v: X) -> Seq<(Seq<u8>, X)>
    decreases s.len(),
{
    if s.len() == 0 {
        seq![(k, v)]
    } else if s[0].0 == k {
        seq![(k, v)] + s.drop_first()
    } else if lex_lt(k, s[0].0) {
        seq![(k, v)] + s
    } else {
        seq![s[0]] + insert_sorted(s.drop_first(), k, v)
    }
}

/// The values, in the order of their keys.
pub open spec fn values_of<X>(s: Seq<(Seq<u8>, X)>) -> Seq<X> {
    s.map_values(|e: (Seq<u8>, X)| e.1)
}

/// The entries after a series of writes, applied from first to last.
pub open spec fn apply_puts<X>(s: Seq<(Seq<u8>, X)>, writes: Seq<(Seq<u8>, X)>) -> Seq<(Seq<u8>, X)>
    decreases writes.len(),
{
    if writes.len() == 0 {
        s
    } else {
        apply_puts(insert_sorted(s, writes[0].0, writes[0].1), writes.drop_first())
    }
}

pub open spec fn views_of<T: View>(s: Seq<T>) -> Seq<T::V> {
    s.map_values(|x: T| x@)
}

pub open spec fn opt_view<T: View>(o: Option<T>) -> Option<T::V> {
    match o {
        Some(x) => Some(x@),
        None => None,
    }
}

pub proof fn lemma_lookup_sorted<X>(s: Seq<(Seq<u8>, X)>, i: int)
    requires
        keys_sorted(s),
        0 <= i < s.len(),
    ensures
        lookup(s, s[i].0) == Some(s[i].1),
    decreases i,
{
    if i > 0 {
        assert(lex_lt(s[0].0, s[i].0));
        lemma_lex_irreflexive(s[i].0);
        lemma_lookup_sorted(s.drop_first(), i - 1);
    }
}

pub proof fn lemma_lookup_absent<X>(s: Seq<(Seq<u8>, X)>, k: Seq<u8>)
    requires
        forall|i: int| 0 <= i < s.len() ==> (#[trigger] s[i]).0 != k,
    ensures
        lookup(s, k) is None,
    decreases s.len(),
{
    if s.len() > 0 {
        assert(s[0].0 != k);
        assert forall|i: int| 0 <= i < s.drop_first().len() implies (#[trigger] s.drop_first()[i]).0 != k by {
            assert(s.drop_first()[i] == s[i + 1]);
        }
        lemma_lookup_absent(s.drop_first(), k);
    }
}

pub proof fn lemma_insert_lookup<X>(s: Seq<(Seq<u8>, X)>, k: Seq<u8>, v: X, q: Seq<u8>)
    requires
        keys_sorted(s),
    ensures
        lookup(insert_sorted(s, k, v), q) == if q == k {
            Some(v)
        } else {
            lookup(s, q)
        },
    decreases s.len(),
{
    let r = insert_sorted(s, k, v);
    if s.len() == 0 {
        assert(r[0] == (k, v));
        assert(r.drop_first() =~= Seq::<(Seq<u8>, X)>::empty());
        assert(lookup(r.drop_first(), q) is None);
    } else if s[0].0 == k {
        assert(r[0] == (k, v));
        assert(r.drop_first() =~= s.drop_first());
    } else if lex_lt(k, s[0].0) {
        assert(r[0] == (k, v));
        assert(r.drop_first() =~= s);
    } else {
        assert(r[0] == s[0]);
        assert(keys_sorted(s.drop_first()));
        lemma_insert_lookup(s.drop_first(), k, v, q);
        assert(r.drop_first() =~= insert_sorted(s.drop_first(), k, v));
    }
}

pub proof fn lemma_insert_sorted_keeps_order<X>(s: Seq<(Seq<u8>, X)>, k: Seq<u8>, v: X)
    requires
        keys_sorted(s),
    ensures
        keys_sorted(insert_sorted(s, k, v)),
        insert_sorted(s, k, v).len() == s.len() + if lookup(s, k) is Some {
            0int
        } else {
            1int
        },
        forall|i: int|
            0 <= i < insert_sorted(s, k, v).len() ==> {
                let e = #[trigger] insert_sorted(s, k, v)[i];
                e.0 == k || exists|j: int| 0 <= j < s.len() && s[j] == e
            },
    decreases s.len(),
{
    let r = insert_sorted(s, k, v);
    if s.len() == 0 {
    } else if s[0].0 == k {
        assert forall|i: int, j: int| 0 <= i < j < r.len() implies lex_lt(
            #[trigger] r[i].0,
            #[trigger] r[j].0,
        ) by {
            assert(r[j] == s[j]);
            if i > 0 {
                assert(r[i] == s[i]);
            }
        }
        assert forall|i: int| 0 <= i < r.len() implies {
            let e = #[trigger] r[i];
            e.0 == k || exists|j: int| 0 <= j < s.len() && s[j] == e
        } by {
            if i > 0 {
                assert(r[i] == s[i]);
            }
        }
    } else if lex_lt(k, s[0].0) {
        assert forall|i: int, j: int| 0 <= i < j < r.len() implies lex_lt(
            #[trigger] r[i].0,
            #[trigger] r[j].0,
        ) by {
            assert(r[j] == s[j - 1]);
            if i > 0 {
                assert(r[i] == s[i - 1]);
            } else if j - 1 > 0 {
                lemma_lex_transitive(k, s[0].0, s[j - 1].0);
            }
        }
        assert forall|i: int| 0 <= i < r.len() implies {
            let e = #[trigger] r[i];
            e.0 == k || exists|j: int| 0 <= j < s.len() && s[j] == e
        } by {
            if i > 0 {
                assert(r[i] == s[i - 1]);
            }
        }
        assert forall|i: int| 0 <= i < s.len() implies (#[trigger] s[i]).0 != k by {
            if i > 0 {
                lemma_lex_transitive(k, s[0].0, s[i].0);
            }
            lemma_lex_irreflexive(k);
        }
        lemma_lookup_absent(s, k);
    } else {
        let t = s.drop_first();
        assert(keys_sorted(t));
        lemma_insert_sorted_keeps_order(t, k, v);
        let rt = insert_sorted(t, k, v);
        assert(r.drop_first() =~= rt);
        lemma_lex_total(k, s[0].0);
        assert forall|i: int, j: int| 0 <= i < j < r.len() implies lex_lt(
            #[trigger] r[i].0,
            #[trigger] r[j].0,
        ) by {
            if i == 0 {
                assert(r[j] == rt[j - 1]);
                let e = rt[j - 1];
                if e.0 != k {
                    let m = choose|m: int| 0 <= m < t.len() && t[m] == e;
                    assert(t[m] == s[m + 1]);
                }
            } else {
                assert(r[i] == rt[i - 1]);
                assert(r[j] == rt[j - 1]);
            }
        }
        assert forall|i: int| 0 <= i < r.len() implies {
            let e = #[trigger] r[i];
            e.0 == k || exists|j: int| 0 <= j < s.len() && s[j] == e
        } by {
            if i > 0 {
                assert(r[i] == rt[i - 1]);
                let e = rt[i - 1];
                if e.0 != k {
                    let m = choose|m: int| 0 <= m < t.len() && t[m] == e;
                    assert(s[m + 1] == e);
                }
            }
        }
    }
}

/// Setting `k` where the first `i` keys are smaller and the next one is not is an
/// update at `i` when that key is `k`, and an insertion at `i` otherwise.
proof fn lemma_insert_at<X>(s: Seq<(Seq<u8>, X)>, k: Seq<u8>, v: X, i: int)
    requires
        keys_sorted(s),
        0 <= i <= s.len(),
        forall|j: int| 0 <= j < i ==> lex_lt((#[trigger] s[j]).0, k),
        i < s.len() ==> !lex_lt(s[i].0, k),
    ensures
        insert_sorted(s, k, v) == if i < s.len() && s[i].0 == k {
            s.update(i, (k, v))
        } else {
            s.insert(i, (k, v))
        },
    decreases i,
{
    if i == 0 {
        if s.len() > 0 && s[0].0 != k {
            lemma_lex_total(k, s[0].0);
            assert(s.insert(0, (k, v)) =~= seq![(k, v)] + s);
        } else if s.len() > 0 {
            assert(s.update(0, (k, v)) =~= seq![(k, v)] + s.drop_first());
        } else {
            assert(s.insert(0, (k, v)) =~= seq![(k, v)]);
        }
    } else {
        let t = s.drop_first();
        assert(lex_lt(s[0].0, k));
        lemma_lex_irreflexive(k);
        lemma_lex_asymmetric(s[0].0, k);
        assert(keys_sorted(t));
        assert forall|j: int| 0 <= j < i - 1 implies lex_lt((#[trigger] t[j]).0, k) by {
            assert(t[j] == s[j + 1]);
        }
        lemma_insert_at(t, k, v, i - 1);
        if i < s.len() && s[i].0 == k {
            assert(s.update(i, (k, v)) =~= seq![s[0]] + t.update(i - 1, (k, v)));
        } else {
            assert(s.insert(i, (k, v)) =~= seq![s[0]] + t.insert(i - 1, (k, v)));
        }
    }
}

/// An ordered mapping from byte-string keys to records, each key held once.
pub struct RecordStore<V> {
    entries: Vec<(Vec<u8>, V)>,
}

impl<V: View> View for RecordStore<V> {
    /// The entries in key order.
    type V = Seq<(Seq<u8>, V::V)>;

    closed spec fn view(&self) -> Seq<(Seq<u8>, V::V)> {
        self.entries@.map_values(|e: (Vec<u8>, V)| (e.0@, e.1@))
    }
}

impl<V: StoredRecord> RecordStore<V> {
    pub open spec fn wf(&self) -> bool {
        keys_sorted(self@)
    }

    pub fn new() -> (r: Self)
        ensures
            r@ == Seq::<(Seq<u8>, V::V)>::empty(),
            r.wf(),
    {
        let r = RecordStore { entries: Vec::new() };
        proof {
            assert(r@ =~= Seq::<(Seq<u8>, V::V)>::empty());
        }
        r
    }

    pub fn len(&self) -> (r: usize)
        ensures
            r == self@.len(),
    {
        self.entries.len()
    }

    /// The number of keys smaller than `key`.
    fn position(&self, key: &[u8]) -> (i: usize)
        requires
            self.wf(),
        ensures
            i <= self@.len(),
            forall|j: int| 0 <= j < i ==> lex_lt((#[trigger] self@[j]).0, key@),
            i < self@.len() ==> !lex_lt(self@[i as int].0, key@),
    {
        let mut i: usize = 0;
        while i < self.entries.len()
            invariant
                i <= self@.len(),
                self@.len() == self.entries@.len(),
                forall|j: int| 0 <= j < i ==> lex_lt((#[trigger] self@[j]).0, key@),
            decreases self@.len() - i,
        {
            match compare_bytes(self.entries[i].0.as_slice(), key) {
                core::cmp::Ordering::Less => {},
                _ => {
                    return i;
                },
            }
            i = i + 1;
        }
        i
    }

    /// Whether `key` is present at the position that `position` gave.
    fn found_at(&self, key: &[u8], i: usize) -> (r: bool)
        requires
            self.wf(),
            i <= self@.len(),
            forall|j: int| 0 <= j < i ==> lex_lt((#[trigger] self@[j]).0, key@),
            i < self@.len() ==> !lex_lt(self@[i as int].0, key@),
        ensures
            r == (lookup(self@, key@) is Some),
            r ==> i < self@.len() && self@[i as int].0 == key@ && lookup(self@, key@) == Some(
                self@[i as int].1,
            ),
    {
        let ghost s = self@;
        if i < self.entries.len() {
            if let core::cmp::Ordering::Equal = compare_bytes(self.entries[i].0.as_slice(), key) {
                proof {
                    lemma_lookup_sorted(s, i as int);
                }
                return true;
            }
        }
        proof {
            assert forall|j: int| 0 <= j < s.len() implies (#[trigger] s[j]).0 != key@ by {
                if j < i {
                    lemma_lex_irreflexive(key@);
                } else {
                    lemma_lex_total(s[i as int].0, key@);
                    if j > i {
                        lemma_lex_transitive(key@, s[i as int].0, s[j].0);
                    }
                    lemma_lex_irreflexive(key@);
                }
            }
            lemma_lookup_absent(s, key@);
        }
        false
    }

    /// The record stored under `key`, if any.
    pub fn get(&self, key: &[u8]) -> (r: Option<V>)
        requires
            self.wf(),
        ensures
            opt_view(r) == lookup(self@, key@),
    {
        let i = self.position(key);
        if self.found_at(key, i) {
            Some(self.entries[i].1.duplicate())
        } else {
            None
        }
    }

    /// Stores `value` under `key`, replacing what was there.
    pub fn put(&mut self, key: Vec<u8>, value: V)
        requires
            old(self).wf(),
        ensures
            final(self).wf(),
            final(self)@ == insert_sorted(old(self)@, key@, value@),
    {
        let ghost s = self@;
        let ghost k = key@;
        let ghost v = value@;
        let i = self.position(key.as_slice());
        let found = self.found_at(key.as_slice(), i);
        proof {
            lemma_insert_at(s, k, v, i as int);
            lemma_insert_sorted_keeps_order(s, k, v);
        }
        if found {
            self.entries.set(i, (key, value));
            proof {
                assert(self@ =~= s.update(i as int, (k, v)));
            }
        } else {
            self.entries.insert(i, (key, value));
            proof {
                assert(self@ =~= s.insert(i as int, (k, v)));
            }
        }
    }

    /// Replaces the record under `key` when there is one; never adds a key.
    pub fn replace_existing(&mut self, key: &[u8], value: V) -> (found: bool)
        requires
            old(self).wf(),
        ensures
            final(self).wf(),
            found == (lookup(old(self)@, key@) is Some),
            final(self)@ == if found {
                insert_sorted(old(self)@, key@, value@)
            } else {
                old(self)@
            },
    {
        let ghost s = self@;
        let ghost v = value@;
        let i = self.position(key);
        let found = self.found_at(key, i);
        if found {
            proof {
                lemma_insert_at(s, key@, v, i as int);
                lemma_insert_sorted_keeps_order(s, key@, v);
            }
            let k = self.entries[i].0.clone();
            self.entries.set(i, (k, value));
            proof {
                assert(self@ =~= s.update(i as int, (key@, v)));
            }
        }
        found
    }

    /// Every record, in key order.
    pub fn list_all(&self) -> (r: Vec<V>)
        ensures
            views_of(r@) == values_of(self@),
    {
        let mut r: Vec<V> = Vec::new();
        let mut i: usize = 0;
        while i < self.entries.len()
            invariant
                i <= self.entries@.len(),
                self@.len() == self.entries@.len(),
                r@.len() == i,
                views_of(r@) == values_of(self@).subrange(0, i as int),
            decreases self.entries@.len() - i,
        {
            let ghost prev = r@;
            let x = self.entries[i].1.duplicate();
            proof {
                assert(x@ == self@[i as int].1);
            }
            r.push(x);
            i = i + 1;
            proof {
                assert(r@ == prev.push(x));
                assert forall|j: int| 0 <= j < i implies views_of(r@)[j]
                    == values_of(self@).subrange(0, i as int)[j] by {
                    if j < i - 1 {
                        assert(r@[j] == prev[j]);
                        assert(views_of(prev)[j] == values_of(self@).subrange(0, i - 1)[j]);
                    }
                }
                assert(views_of(r@) =~= values_of(self@).subrange(0, i as int));
            }
        }
        proof {
            assert(values_of(self@).subrange(0, i as int) =~= values_of(self@));
        }
        r
    }
}

/// The first bytes of every snapshot: a format tag and its version.
pub open spec fn snapshot_header() -> Seq<u8> {
    seq![0x48u8, 0x58u8, 0x53u8, 0x01u8]
}

pub open spec fn enc_entry<V: StoredRecord>(e: (Seq<u8>, V::V)) -> Seq<u8> {
    enc_key(e.0) + V::encoding(e.1)
}

pub open spec fn enc_entries<V: StoredRecord>(s: Seq<(Seq<u8>, V::V)>) -> Seq<u8>
    decreases s.len(),
{
    if s.len() == 0 {
        Seq::empty()
    } else {
        enc_entry::<V>(s[0]) + enc_entries::<V>(s.drop_first())
    }
}

/// A snapshot: the header, the number of entries, then each key and its record in
/// key order.
pub open spec fn encode_store<V: StoredRecord>(s: Seq<(Seq<u8>, V::V)>) -> Seq<u8> {
    snapshot_header() + enc_u64(s.len() as u64) + enc_entries::<V>(s)
}

/// Every length in the entries can be written as a `u64`.
pub open spec fn store_fits<V: StoredRecord>(s: Seq<(Seq<u8>, V::V)>) -> bool {
    &&& s.len() <= u64::MAX
    &&& forall|i: int| 0 <= i < s.len() ==> (#[trigger] s[i]).0.len() <= u64::MAX && V::fits(s[i].1)
}

/// Reads exactly `n` entries that fill all of `b`.
pub open spec fn parse_entries<V: StoredRecord>(b: Seq<u8>, n: nat) -> Option<Seq<(Seq<u8>, V::V)>>
    decreases n,
{
    if n == 0 {
        if b.len() == 0 {
            Some(Seq::empty())
        } else {
            None
        }
    } else {
        match parse_key(b) {
            None => None,
            Some((k, a)) => {
                let b1 = tail(b, a);
                match V::parse(b1) {
                    None => None,
                    Some((v, c)) => if 0 <= c <= b1.len() {
                        match parse_entries::<V>(tail(b1, c), (n - 1) as nat) {
                            Some(rest) => Some(seq![(k, v)] + rest),
                            None => None,
                        }
                    } else {
                        None
                    },
                }
            },
        }
    }
}

pub open spec fn parse_snapshot<V: StoredRecord>(b: Seq<u8>) -> Option<Seq<(Seq<u8>, V::V)>> {
    if b.len() >= 4 && b.subrange(0, 4) == snapshot_header() {
        match parse_u64(tail(b, 4)) {
            Some((n, _)) => parse_entries::<V>(tail(b, 12), n as nat),
            None => None,
        }
    } else {
        None
    }
}

/// The entries that a snapshot holds, when it is well formed and its keys are in order.
pub open spec fn decode_store<V: StoredRecord>(b: Seq<u8>) -> Option<Seq<(Seq<u8>, V::V)>> {
    match parse_snapshot::<V>(b) {
        Some(s) => if keys_sorted(s) {
            Some(s)
        } else {
            None
        },
        None => None,
    }
}

proof fn lemma_enc_entries_push<V: StoredRecord>(s: Seq<(Seq<u8>, V::V)>, e: (Seq<u8>, V::V))
    ensures
        enc_entries::<V>(s.push(e)) == enc_entries::<V>(s) + enc_entry::<V>(e),
    decreases s.len(),
{
    if s.len() == 0 {
        assert(s.push(e).drop_first() =~= Seq::<(Seq<u8>, V::V)>::empty());
        assert(s.push(e)[0] == e);
        assert(enc_entries::<V>(Seq::<(Seq<u8>, V::V)>::empty()) =~= Seq::<u8>::empty());
        assert(enc_entries::<V>(s.push(e)) =~= enc_entry::<V>(e));
    } else {
        lemma_enc_entries_push::<V>(s.drop_first(), e);
        assert(s.push(e).drop_first() =~= s.drop_first().push(e));
        assert(enc_entries::<V>(s.push(e)) =~= enc_entries::<V>(s) + enc_entry::<V>(e));
    }
}

proof fn lemma_entries_round_trip<V: StoredRecord>(s: Seq<(Seq<u8>, V::V)>)
    requires
        store_fits::<V>(s),
    ensures
        parse_entries::<V>(enc_entries::<V>(s), s.len()) == Some(s),
    decreases s.len(),
{
    if s.len() > 0 {
        let t = s.drop_first();
        assert(store_fits::<V>(t)) by {
            assert forall|i: int| 0 <= i < t.len() implies (#[trigger] t[i]).0.len() <= u64::MAX
                && V::fits(t[i].1) by {
                assert(t[i] == s[i + 1]);
            }
        }
        lemma_entries_round_trip::<V>(t);
        let k = s[0].0;
        let v = s[0].1;
        let rest = enc_entries::<V>(t);
        let b = enc_entries::<V>(s);
        assert(b =~= enc_key(k) + (V::encoding(v) + rest));
        lemma_key_round_trip(k, V::encoding(v) + rest);
        let a = enc_key(k).len() as int;
        assert(tail(b, a) =~= V::encoding(v) + rest);
        V::lemma_round_trip(v, rest);
        let c = V::encoding(v).len() as int;
        assert(tail(tail(b, a), c) =~= rest);
        assert(seq![(k, v)] + t =~= s);
    } else {
        assert(enc_entries::<V>(s).len() == 0);
    }
}

/// Restoring a snapshot gives back the entries it was taken from.
pub proof fn lemma_snapshot_round_trip<V: StoredRecord>(s: Seq<(Seq<u8>, V::V)>)
    requires
        keys_sorted(s),
        store_fits::<V>(s),
    ensures
        decode_store::<V>(encode_store::<V>(s)) == Some(s),
{
    let b = encode_store::<V>(s);
    let rest = enc_entries::<V>(s);
    assert(b.subrange(0, 4) =~= snapshot_header());
    assert(tail(b, 4) =~= enc_u64(s.len() as u64) + rest);
    lemma_u64_round_trip(s.len() as u64, rest);
    assert(tail(b, 12) =~= rest);
    lemma_entries_round_trip::<V>(s);
}

/// Bytes that do not start with the snapshot header restore nothing.
pub proof fn lemma_foreign_bytes_rejected<V: StoredRecord>(b: Seq<u8>)
    requires
        b.len() < 4 || b.subrange(0, 4) != snapshot_header(),
    ensures
        decode_store::<V>(b) is None,
{
}

proof fn lemma_adjacent_chain<X>(s: Seq<(Seq<u8>, X)>, i: int, j: int)
    requires
        forall|m: int| 0 < m < s.len() ==> lex_lt((#[trigger] s[m - 1]).0, s[m].0),
        0 <= i < j < s.len(),
    ensures
        lex_lt(s[i].0, s[j].0),
    decreases j - i,
{
    assert(lex_lt(s[j - 1].0, s[j].0));
    if i < j - 1 {
        lemma_adjacent_chain(s, i, j - 1);
        lemma_lex_transitive(s[i].0, s[j - 1].0, s[j].0);
    }
}

proof fn lemma_adjacent_sorted<X>(s: Seq<(Seq<u8>, X)>)
    requires
        forall|m: int| 0 < m < s.len() ==> lex_lt((#[trigger] s[m - 1]).0, s[m].0),
    ensures
        keys_sorted(s),
{
    assert forall|i: int, j: int| 0 <= i < j < s.len() implies lex_lt(
        #[trigger] s[i].0,
        #[trigger] s[j].0,
    ) by {
        lemma_adjacent_chain(s, i, j);
    }
}

impl<V: StoredRecord> RecordStore<V> {
    /// Writes every entry, in key order, after the header and the entry count.
    pub fn snapshot(&self) -> (r: Vec<u8>)
        ensures
            r@ == encode_store::<V>(self@),
            store_fits::<V>(self@),
    {
        let ghost s = self@;
        let mut out: Vec<u8> = Vec::new();
        out.push(0x48u8);
        out.push(0x58u8);
        out.push(0x53u8);
        out.push(0x01u8);
        let n = self.entries.len();
        write_u64(&mut out, n as u64);
        let ghost head = out@;
        proof {
            assert(head =~= snapshot_header() + enc_u64(s.len() as u64));
            assert(s.subrange(0, 0) =~= Seq::<(Seq<u8>, V::V)>::empty());
        }
        let mut i: usize = 0;
        while i < n
            invariant
                n == self.entries@.len(),
                s == self@,
                s.len() == n,
                i <= n,
                out@ == head + enc_entries::<V>(s.subrange(0, i as int)),
                forall|j: int| 0 <= j < i ==> (#[trigger] s[j]).0.len() <= u64::MAX && V::fits(s[j].1),
            decreases n - i,
        {
            let ghost before = out@;
            write_key(&mut out, self.entries[i].0.as_slice());
            self.entries[i].1.encode_into(&mut out);
            proof {
                let e = s[i as int];
                assert(e == (self.entries@[i as int].0@, self.entries@[i as int].1@));
                lemma_enc_entries_push::<V>(s.subrange(0, i as int), e);
                assert(s.subrange(0, i + 1) =~= s.subrange(0, i as int).push(e));
                assert(out@ =~= head + enc_entries::<V>(s.subrange(0, i + 1)));
            }
            i = i + 1;
        }
        proof {
            assert(s.subrange(0, n as int) =~= s);
            assert(out@ =~= encode_store::<V>(s));
        }
        out
    }

    /// Reads a snapshot back. Fails, with nothing else happening, on bytes that are
    /// not a well-formed snapshot with its keys in order.
    pub fn restore(b: &[u8]) -> (r: Option<Self>)
        ensures
            match decode_store::<V>(b@) {
                None => r is None,
                Some(s) => r matches Some(st) && st@ == s && st.wf(),
            },
    {
        if b.len() < 12 {
            proof {
                if b@.len() >= 4 && b@.subrange(0, 4) == snapshot_header() {
                    assert(tail(b@, 4).len() < 8);
                }
            }
            return None;
        }
        if b[0] != 0x48u8 || b[1] != 0x58u8 || b[2] != 0x53u8 || b[3] != 0x01u8 {
            proof {
                if b@.subrange(0, 4) == snapshot_header() {
                    assert(b@[0] == b@.subrange(0, 4)[0]);
                    assert(b@[1] == b@.subrange(0, 4)[1]);
                    assert(b@[2] == b@.subrange(0, 4)[2]);
                    assert(b@[3] == b@.subrange(0, 4)[3]);
                }
            }
            return None;
        }
        proof {
            assert(b@.subrange(0, 4) =~= snapshot_header());
        }
        let (n, start) = match read_u64(b, 4) {
            Some(x) => x,
            None => return None,
        };
        let ghost whole = tail(b@, 12);
        let mut entries: Vec<(Vec<u8>, V)> = Vec::new();
        let mut pos: usize = start;
        let mut i: u64 = 0;
        while i < n
            invariant
                start == 12,
                12 <= pos <= b@.len(),
                i <= n,
                parse_snapshot::<V>(b@) == parse_entries::<V>(whole, n as nat),
                whole == tail(b@, 12),
                parse_entries::<V>(whole, n as nat) == match parse_entries::<V>(
                    tail(b@, pos as int),
                    (n - i) as nat,
                ) {
                    Some(rest) => Some(
                        entries@.map_values(|e: (Vec<u8>, V)| (e.0@, e.1@)) + rest,
                    ),
                    None => None,
                },
            decreases n - i,
        {
            let ghost bt = tail(b@, pos as int);
            let ghost prev = entries@.map_values(|e: (Vec<u8>, V)| (e.0@, e.1@));
            let (key, p1) = match read_key(b, pos) {
                Some(x) => x,
                None => return None,
            };
            proof {
                lemma_tail_tail(b@, pos as int, p1 - pos);
            }
            let (value, p2) = match V::decode_at(b, p1) {
                Some(x) => x,
                None => return None,
            };
            proof {
                lemma_tail_tail(b@, p1 as int, p2 - p1);
                lemma_tail_tail(b@, pos as int, p1 - pos);
                let k = key@;
                let v = value@;
                assert(parse_entries::<V>(bt, (n - i) as nat) == match parse_entries::<V>(
                    tail(b@, p2 as int),
                    (n - i - 1) as nat,
                ) {
                    Some(rest) => Some(seq![(k, v)] + rest),
                    None => None,
                });
            }
            entries.push((key, value));
            proof {
                let cur = entries@.map_values(|e: (Vec<u8>, V)| (e.0@, e.1@));
                assert(cur =~= prev.push((key@, value@)));
                match parse_entries::<V>(tail(b@, p2 as int), (n - i - 1) as nat) {
                    Some(rest) => {
                        assert(prev + (seq![(key@, value@)] + rest) =~= cur + rest);
                    },
                    None => {},
                }
            }
            pos = p2;
            i = i + 1;
        }
        if pos != b.len() {
            return None;
        }
        let st = RecordStore { entries };
        proof {
            assert(tail(b@, pos as int).len() == 0);
            assert(st@ + Seq::<(Seq<u8>, V::V)>::empty() =~= st@);
        }
        let len = st.entries.len();
        let mut j: usize = 1;
        while j < len
            invariant
                parse_snapshot::<V>(b@) == Some(st@),
                len == st@.len(),
                len == st.entries@.len(),
                1 <= j,
                j <= len || len == 0,
                forall|m: int| 0 < m < j && m < len ==> lex_lt((#[trigger] st@[m - 1]).0, st@[m].0),
            decreases len - j,
        {
            proof {
                assert(st@[j - 1].0 == st.entries@[j - 1].0@);
                assert(st@[j as int].0 == st.entries@[j as int].0@);
            }
            match compare_bytes(st.entries[j - 1].0.as_slice(), st.entries[j].0.as_slice()) {
                core::cmp::Ordering::Less => {},
                _ => {
                    proof {
                        assert(!keys_sorted(st@)) by {
                            assert(!lex_lt(st@[j - 1].0, st@[j as int].0));
                        }
                    }
                    return None;
                },
            }
            j = j + 1;
        }
        proof {
            lemma_adjacent_sorted(st@);
        }
        Some(st)
    }

    /// Reads a snapshot back, or starts empty when the bytes are not a valid snapshot.
    pub fn restore_or_empty(b: &[u8]) -> (r: Self)
        ensures
            r.wf(),
            r@ == match decode_store::<V>(b@) {
                Some(s) => s,
                None => Seq::empty(),
            },
    {
        match Self::restore(b) {
            Some(st) => st,
            None => Self::new(),
        }
    }
}

/// Writes keep the keys in order.
pub proof fn lemma_apply_puts_sorted<X>(s: Seq<(Seq<u8>, X)>, writes: Seq<(Seq<u8>, X)>)
    requires
        keys_sorted(s),
    ensures
        keys_sorted(apply_puts(s, writes)),
    decreases writes.len(),
{
    if writes.len() > 0 {
        lemma_insert_sorted_keeps_order(s, writes[0].0, writes[0].1);
        lemma_apply_puts_sorted(insert_sorted(s, writes[0].0, writes[0].1), writes.drop_first());
    }
}

/// A key that no write names reads as it did before the writes; in particular, on a
/// store that started empty, it reads as absent.
pub proof fn lemma_unwritten_key_unchanged<X>(
    s: Seq<(Seq<u8>, X)>,
    writes: Seq<(Seq<u8>, X)>,
    k: Seq<u8>,
)
    requires
        keys_sorted(s),
        forall|j: int| 0 <= j < writes.len() ==> (#[trigger] writes[j]).0 != k,
    ensures
        lookup(apply_puts(s, writes), k) == lookup(s, k),
        s.len() == 0 ==> lookup(apply_puts(s, writes), k) is None,
    decreases writes.len(),
{
    if writes.len() > 0 {
        let s1 = insert_sorted(s, writes[0].0, writes[0].1);
        assert(writes[0].0 != k);
        lemma_insert_lookup(s, writes[0].0, writes[0].1, k);
        lemma_insert_sorted_keeps_order(s, writes[0].0, writes[0].1);
        let rest = writes.drop_first();
        assert forall|j: int| 0 <= j < rest.len() implies (#[trigger] rest[j]).0 != k by {
            assert(rest[j] == writes[j + 1]);
        }
        lemma_unwritten_key_unchanged(s1, rest, k);
    }
}

/// After `put(k, v)`, `get(k)` gives exactly `v`.
pub proof fn lemma_put_then_get<X>(s: Seq<(Seq<u8>, X)>, k: Seq<u8>, v: X)
    requires
        keys_sorted(s),
    ensures
        lookup(insert_sorted(s, k, v), k) == Some(v),
{
    lemma_insert_lookup(s, k, v, k);
}

/// A second write to a key replaces the first entirely: the store is as if only the
/// second had happened.
pub proof fn lemma_last_write_wins<X>(s: Seq<(Seq<u8>, X)>, k: Seq<u8>, v1: X, v2: X)
    requires
        keys_sorted(s),
    ensures
        insert_sorted(insert_sorted(s, k, v1), k, v2) == insert_sorted(s, k, v2),
        lookup(insert_sorted(insert_sorted(s, k, v1), k, v2), k) == Some(v2),
    decreases s.len(),
{
    let r1 = insert_sorted(s, k, v1);
    if s.len() == 0 {
        assert(r1[0].0 == k);
        assert(r1.drop_first() =~= Seq::<(Seq<u8>, X)>::empty());
        assert(insert_sorted(r1, k, v2) =~= insert_sorted(s, k, v2));
    } else if s[0].0 == k {
        assert(r1[0].0 == k);
        assert(r1.drop_first() =~= s.drop_first());
        assert(insert_sorted(r1, k, v2) =~= insert_sorted(s, k, v2));
    } else if lex_lt(k, s[0].0) {
        assert(r1[0].0 == k);
        assert(r1.drop_first() =~= s);
        assert(insert_sorted(r1, k, v2) =~= insert_sorted(s, k, v2));
    } else {
        assert(r1[0] == s[0]);
        assert(keys_sorted(s.drop_first()));
        lemma_last_write_wins(s.drop_first(), k, v1, v2);
        assert(r1.drop_first() =~= insert_sorted(s.drop_first(), k, v1));
        assert(insert_sorted(r1, k, v2) =~= insert_sorted(s, k, v2));
    }
    lemma_put_then_get(s, k, v2);
}

/// Writes to distinct keys that a store does not hold yet add one entry each, every
/// key reads as its write, and the keys stay in order.
pub proof fn lemma_distinct_writes<X>(s: Seq<(Seq<u8>, X)>, writes: Seq<(Seq<u8>, X)>)
    requires
        keys_sorted(s),
        forall|i: int, j: int|
            0 <= i < j < writes.len() ==> (#[trigger] writes[i]).0 != (#[trigger] writes[j]).0,
        forall|j: int| 0 <= j < writes.len() ==> lookup(s, (#[trigger] writes[j]).0) is None,
    ensures
        apply_puts(s, writes).len() == s.len() + writes.len(),
        keys_sorted(apply_puts(s, writes)),
        forall|j: int|
            0 <= j < writes.len() ==> lookup(apply_puts(s, writes), (#[trigger] writes[j]).0)
                == Some(writes[j].1),
    decreases writes.len(),
{
    lemma_apply_puts_sorted(s, writes);
    if writes.len() > 0 {
        let w = writes[0];
        let s1 = insert_sorted(s, w.0, w.1);
        let rest = writes.drop_first();
        lemma_insert_sorted_keeps_order(s, w.0, w.1);
        assert forall|i: int, j: int| 0 <= i < j < rest.len() implies (#[trigger] rest[i]).0 != (
        #[trigger] rest[j]).0 by {
            assert(rest[i] == writes[i + 1]);
            assert(rest[j] == writes[j + 1]);
        }
        assert forall|j: int| 0 <= j < rest.len() implies lookup(s1, (#[trigger] rest[j]).0) is None by {
            assert(rest[j] == writes[j + 1]);
            lemma_insert_lookup(s, w.0, w.1, rest[j].0);
        }
        lemma_distinct_writes(s1, rest);
        assert forall|j: int| 0 <= j < writes.len() implies lookup(
            apply_puts(s, writes),
            (#[trigger] writes[j]).0,
        ) == Some(writes[j].1) by {
            if j == 0 {
                assert forall|m: int| 0 <= m < rest.len() implies (#[trigger] rest[m]).0 != w.0 by {
                    assert(rest[m] == writes[m + 1]);
                }
                lemma_unwritten_key_unchanged(s1, rest, w.0);
                lemma_put_then_get(s, w.0, w.1);
            } else {
                assert(rest[j - 1] == writes[j]);
            }
        }
    }
}

} // verus!
