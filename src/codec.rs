//! Building blocks of the snapshot format: little-endian integers, optional integers
//! and length-prefixed UTF-8 strings, each with its parser.
use vstd::bytes::{
    lemma_auto_spec_u64_to_from_le_bytes, spec_u64_from_le_bytes, spec_u64_to_le_bytes,
    u64_from_le_bytes, u64_to_le_bytes,
};
use vstd::prelude::*;
use vstd::utf8::{decode_utf8, encode_utf8, encode_utf8_decode_utf8, valid_utf8};

verus! {

/// What is left of `b` from position `pos` on.
pub open spec fn tail(b: Seq<u8>, pos: int) -> Seq<u8> {
    b.subrange(pos, b.len() as int)
}

pub open spec fn enc_u64(x: u64) -> Seq<u8> {
    spec_u64_to_le_bytes(x)
}

/// A parser's result: the value read and the number of bytes it took.
pub open spec fn parse_u64(b: Seq<u8>) -> Option<(u64, int)> {
    if b.len() >= 8 {
        Some((spec_u64_from_le_bytes(b.subrange(0, 8)), 8))
    } else {
        None
    }
}

pub open spec fn enc_opt_u64(o: Option<u64>) -> Seq<u8> {
    match o {
        None => seq![0u8],
        Some(x) => seq![1u8] + enc_u64(x),
    }
}

pub open spec fn parse_opt_u64(b: Seq<u8>) -> Option<(Option<u64>, int)> {
    if b.len() == 0 {
        None
    } else if b[0] == 0 {
        Some((None, 1))
    } else if b[0] == 1 {
        match parse_u64(b.drop_first()) {
            Some((x, n)) => Some((Some(x), n + 1)),
            None => None,
        }
    } else {
        None
    }
}

/// A string is written as the length of its UTF-8 form, then that form.
pub open spec fn enc_str(c: Seq<char>) -> Seq<u8> {
    enc_u64(encode_utf8(c).len() as u64) + encode_utf8(c)
}

pub open spec fn str_fits(c: Seq<char>) -> bool {
    encode_utf8(c).len() <= u64::MAX
}

pub open spec fn parse_str(b: Seq<u8>) -> Option<(Seq<char>, int)> {
    match parse_u64(b) {
        Some((n, k)) => if k + n <= b.len() && valid_utf8(b.subrange(k, k + n)) {
            Some((decode_utf8(b.subrange(k, k + n)), k + n))
        } else {
            None
        },
        None => None,
    }
}

/// A byte string (a store's key) is written as its length, then its bytes.
pub open spec fn enc_key(k: Seq<u8>) -> Seq<u8> {
    enc_u64(k.len() as u64) + k
}

pub open spec fn parse_key(b: Seq<u8>) -> Option<(Seq<u8>, int)> {
    match parse_u64(b) {
        Some((n, k)) => if k + n <= b.len() {
            Some((b.subrange(k, k + n), k + n))
        } else {
            None
        },
        None => None,
    }
}

pub proof fn lemma_key_round_trip(key: Seq<u8>, rest: Seq<u8>)
    requires
        key.len() <= u64::MAX,
    ensures
        parse_key(enc_key(key) + rest) == Some((key, enc_key(key).len() as int)),
{
    let b = enc_key(key) + rest;
    lemma_u64_round_trip(key.len() as u64, key + rest);
    assert(b =~= enc_u64(key.len() as u64) + (key + rest));
    assert(b.subrange(8, 8 + key.len() as int) =~= key);
}

pub proof fn lemma_u64_round_trip(x: u64, rest: Seq<u8>)
    ensures
        enc_u64(x).len() == 8,
        parse_u64(enc_u64(x) + rest) == Some((x, 8int)),
{
    lemma_auto_spec_u64_to_from_le_bytes();
    assert((enc_u64(x) + rest).subrange(0, 8) =~= enc_u64(x));
}

pub proof fn lemma_opt_u64_round_trip(o: Option<u64>, rest: Seq<u8>)
    ensures
        parse_opt_u64(enc_opt_u64(o) + rest) == Some((o, enc_opt_u64(o).len() as int)),
{
    let b = enc_opt_u64(o) + rest;
    match o {
        None => {},
        Some(x) => {
            lemma_u64_round_trip(x, rest);
            assert(b.drop_first() =~= enc_u64(x) + rest);
        },
    }
}

pub proof fn lemma_str_round_trip(c: Seq<char>, rest: Seq<u8>)
    requires
        str_fits(c),
    ensures
        parse_str(enc_str(c) + rest) == Some((c, enc_str(c).len() as int)),
{
    let u = encode_utf8(c);
    let b = enc_str(c) + rest;
    lemma_u64_round_trip(u.len() as u64, u + rest);
    assert(b =~= enc_u64(u.len() as u64) + (u + rest));
    assert(b.subrange(8, 8 + u.len() as int) =~= u);
    vstd::utf8::encode_utf8_valid_utf8(c);
    encode_utf8_decode_utf8(c);
}

/// Relies on std's `String::from_utf8`: it succeeds exactly on valid UTF-8, and the
/// string then holds those bytes.
#[verifier::external_body]
fn string_from_utf8(v: Vec<u8>) -> (r: Option<String>)
    ensures
        r is Some <==> valid_utf8(v@),
        r matches Some(s) ==> encode_utf8(s@) == v@,
{
    match String::from_utf8(v) {
        Ok(s) => Some(s),
        Err(_) => None,
    }
}

pub fn write_u64(out: &mut Vec<u8>, x: u64)
    ensures
        final(out)@ == old(out)@ + enc_u64(x),
{
    let bytes = u64_to_le_bytes(x);
    write_bytes(out, bytes.as_slice());
}

pub fn write_bytes(out: &mut Vec<u8>, bytes: &[u8])
    ensures
        final(out)@ == old(out)@ + bytes@,
{
    let ghost start = out@;
    let mut i: usize = 0;
    while i < bytes.len()
        invariant
            i <= bytes@.len(),
            out@ == start + bytes@.subrange(0, i as int),
        decreases bytes@.len() - i,
    {
        out.push(bytes[i]);
        i = i + 1;
        proof {
            assert(bytes@.subrange(0, i as int) =~= bytes@.subrange(0, i - 1).push(bytes@[i - 1]));
        }
    }
    proof {
        assert(bytes@.subrange(0, i as int) =~= bytes@);
    }
}

pub fn write_opt_u64(out: &mut Vec<u8>, o: Option<u64>)
    ensures
        final(out)@ == old(out)@ + enc_opt_u64(o),
{
    match o {
        None => {
            out.push(0u8);
            proof {
                assert(out@ =~= old(out)@ + enc_opt_u64(o));
            }
        },
        Some(x) => {
            out.push(1u8);
            write_u64(out, x);
            proof {
                assert(out@ =~= old(out)@ + enc_opt_u64(o));
            }
        },
    }
}

pub fn write_str(out: &mut Vec<u8>, s: &String)
    ensures
        final(out)@ == old(out)@ + enc_str(s@),
        str_fits(s@),
{
    let bytes = s.as_str().as_bytes();
    let n = bytes.len();
    write_u64(out, n as u64);
    write_bytes(out, bytes);
    proof {
        assert(out@ =~= old(out)@ + enc_str(s@));
    }
}

pub fn write_key(out: &mut Vec<u8>, key: &[u8])
    ensures
        final(out)@ == old(out)@ + enc_key(key@),
        key@.len() <= u64::MAX,
{
    let n = key.len();
    write_u64(out, n as u64);
    write_bytes(out, key);
    proof {
        assert(out@ =~= old(out)@ + enc_key(key@));
    }
}

pub fn read_key(b: &[u8], pos: usize) -> (r: Option<(Vec<u8>, usize)>)
    requires
        pos <= b@.len(),
    ensures
        match parse_key(tail(b@, pos as int)) {
            None => r is None,
            Some((k, n)) => r matches Some((v, p)) && v@ == k && p == pos + n,
        },
{
    let (n, p) = match read_u64(b, pos) {
        Some(x) => x,
        None => return None,
    };
    if n > (b.len() - p) as u64 {
        return None;
    }
    let v = copy_range(b, p, n as usize);
    proof {
        assert(tail(b@, pos as int).subrange(8, 8 + n) =~= v@);
    }
    Some((v, p + n as usize))
}

/// Copies `len` bytes of `b` from `pos` on.
fn copy_range(b: &[u8], pos: usize, len: usize) -> (r: Vec<u8>)
    requires
        pos + len <= b@.len(),
    ensures
        r@ == b@.subrange(pos as int, pos + len),
{
    let mut r: Vec<u8> = Vec::new();
    let blen = b.len();
    let mut i: usize = 0;
    while i < len
        invariant
            i <= len,
            blen == b@.len(),
            pos + len <= b@.len(),
            r@ == b@.subrange(pos as int, pos + i),
        decreases len - i,
    {
        r.push(b[pos + i]);
        i = i + 1;
        proof {
            assert(b@.subrange(pos as int, pos + i) =~= b@.subrange(pos as int, pos + i - 1).push(
                b@[pos + i - 1],
            ));
        }
    }
    r
}

pub fn read_u64(b: &[u8], pos: usize) -> (r: Option<(u64, usize)>)
    requires
        pos <= b@.len(),
    ensures
        match parse_u64(tail(b@, pos as int)) {
            None => r is None,
            Some((x, n)) => r matches Some((y, p)) && y == x && p == pos + n,
        },
        r matches Some((x, p)) ==> p == pos + 8 && p <= b@.len(),
{
    if b.len() - pos < 8 {
        return None;
    }
    let v = copy_range(b, pos, 8);
    let x = u64_from_le_bytes(v.as_slice());
    proof {
        assert(tail(b@, pos as int).subrange(0, 8) =~= v@);
    }
    Some((x, pos + 8))
}

pub fn read_opt_u64(b: &[u8], pos: usize) -> (r: Option<(Option<u64>, usize)>)
    requires
        pos <= b@.len(),
    ensures
        match parse_opt_u64(tail(b@, pos as int)) {
            None => r is None,
            Some((x, n)) => r matches Some((y, p)) && y == x && p == pos + n,
        },
        r matches Some((x, p)) ==> pos < p <= b@.len(),
{
    if pos == b.len() {
        return None;
    }
    let tag = b[pos];
    proof {
        assert(tail(b@, pos as int)[0] == tag);
        assert(tail(b@, pos as int).drop_first() =~= tail(b@, pos + 1));
    }
    if tag == 0 {
        Some((None, pos + 1))
    } else if tag == 1 {
        match read_u64(b, pos + 1) {
            Some((x, p)) => Some((Some(x), p)),
            None => None,
        }
    } else {
        None
    }
}

pub fn read_str(b: &[u8], pos: usize) -> (r: Option<(String, usize)>)
    requires
        pos <= b@.len(),
    ensures
        match parse_str(tail(b@, pos as int)) {
            None => r is None,
            Some((c, n)) => r matches Some((s, p)) && s@ == c && p == pos + n,
        },
        r matches Some((s, p)) ==> pos <= p <= b@.len(),
{
    let (n, p) = match read_u64(b, pos) {
        Some(x) => x,
        None => return None,
    };
    if n > (b.len() - p) as u64 {
        return None;
    }
    let v = copy_range(b, p, n as usize);
    proof {
        assert(tail(b@, pos as int).subrange(8, 8 + n) =~= v@);
    }
    match string_from_utf8(v) {
        Some(s) => {
            proof {
                encode_utf8_decode_utf8(s@);
            }
            Some((s, p + n as usize))
        },
        None => None,
    }
}

pub proof fn lemma_tail_tail(b: Seq<u8>, a: int, c: int)
    requires
        0 <= a <= b.len(),
        0 <= c <= b.len() - a,
    ensures
        tail(tail(b, a), c) == tail(b, a + c),
{
    assert(tail(tail(b, a), c) =~= tail(b, a + c));
}

/// The UTF-8 bytes of a string: the key under which a string-keyed record is stored.
pub fn str_key(s: &str) -> (r: Vec<u8>)
    ensures
        r@ == encode_utf8(s@),
{
    let mut r: Vec<u8> = Vec::new();
    write_bytes(&mut r, s.as_bytes());
    proof {
        assert(r@ =~= encode_utf8(s@));
    }
    r
}

pub open spec fn enc_strs(c: Seq<Seq<char>>) -> Seq<u8>
    decreases c.len(),
{
    if c.len() == 0 {
        Seq::empty()
    } else {
        enc_str(c[0]) + enc_strs(c.drop_first())
    }
}

/// A list of strings is written as its length, then each string.
pub open spec fn enc_str_list(c: Seq<Seq<char>>) -> Seq<u8> {
    enc_u64(c.len() as u64) + enc_strs(c)
}

pub open spec fn strs_fit(c: Seq<Seq<char>>) -> bool {
    c.len() <= u64::MAX && forall|i: int| 0 <= i < c.len() ==> str_fits(#[trigger] c[i])
}

pub open spec fn parse_strs(b: Seq<u8>, n: nat) -> Option<(Seq<Seq<char>>, int)>
    decreases n,
{
    if n == 0 {
        Some((Seq::empty(), 0))
    } else {
        match parse_str(b) {
            Some((x, a)) => match parse_strs(tail(b, a), (n - 1) as nat) {
                Some((xs, c)) => Some((seq![x] + xs, a + c)),
                None => None,
            },
            None => None,
        }
    }
}

pub open spec fn parse_str_list(b: Seq<u8>) -> Option<(Seq<Seq<char>>, int)> {
    match parse_u64(b) {
        Some((n, k)) => match parse_strs(tail(b, k), n as nat) {
            Some((xs, c)) => Some((xs, k + c)),
            None => None,
        },
        None => None,
    }
}

proof fn lemma_strs_round_trip(c: Seq<Seq<char>>, rest: Seq<u8>)
    requires
        forall|i: int| 0 <= i < c.len() ==> str_fits(#[trigger] c[i]),
    ensures
        parse_strs(enc_strs(c) + rest, c.len()) == Some((c, enc_strs(c).len() as int)),
    decreases c.len(),
{
    if c.len() == 0 {
        assert(enc_strs(c) + rest =~= rest);
    } else {
        let t = c.drop_first();
        assert forall|i: int| 0 <= i < t.len() implies str_fits(#[trigger] t[i]) by {
            assert(t[i] == c[i + 1]);
        }
        lemma_strs_round_trip(t, rest);
        let b = enc_strs(c) + rest;
        assert(b =~= enc_str(c[0]) + (enc_strs(t) + rest));
        lemma_str_round_trip(c[0], enc_strs(t) + rest);
        assert(tail(b, enc_str(c[0]).len() as int) =~= enc_strs(t) + rest);
        assert(seq![c[0]] + t =~= c);
    }
}

pub proof fn lemma_str_list_round_trip(c: Seq<Seq<char>>, rest: Seq<u8>)
    requires
        strs_fit(c),
    ensures
        parse_str_list(enc_str_list(c) + rest) == Some((c, enc_str_list(c).len() as int)),
{
    let b = enc_str_list(c) + rest;
    lemma_u64_round_trip(c.len() as u64, enc_strs(c) + rest);
    assert(b =~= enc_u64(c.len() as u64) + (enc_strs(c) + rest));
    assert(tail(b, 8) =~= enc_strs(c) + rest);
    lemma_strs_round_trip(c, rest);
}

pub open spec fn str_views(v: Seq<String>) -> Seq<Seq<char>> {
    v.map_values(|s: String| s@)
}

proof fn lemma_enc_strs_push(c: Seq<Seq<char>>, x: Seq<char>)
    ensures
        enc_strs(c.push(x)) == enc_strs(c) + enc_str(x),
    decreases c.len(),
{
    if c.len() == 0 {
        assert(c.push(x).drop_first() =~= Seq::<Seq<char>>::empty());
        assert(c.push(x)[0] == x);
        assert(enc_strs(Seq::<Seq<char>>::empty()) =~= Seq::<u8>::empty());
        assert(enc_strs(c.push(x)) =~= enc_str(x));
    } else {
        lemma_enc_strs_push(c.drop_first(), x);
        assert(c.push(x).drop_first() =~= c.drop_first().push(x));
        assert(enc_strs(c.push(x)) =~= enc_strs(c) + enc_str(x));
    }
}

pub fn write_str_list(out: &mut Vec<u8>, v: &Vec<String>)
    ensures
        final(out)@ == old(out)@ + enc_str_list(str_views(v@)),
        strs_fit(str_views(v@)),
{
    let ghost c = str_views(v@);
    let n = v.len();
    write_u64(out, n as u64);
    let ghost head = out@;
    proof {
        assert(c.subrange(0, 0) =~= Seq::<Seq<char>>::empty());
    }
    let mut i: usize = 0;
    while i < n
        invariant
            n == v@.len(),
            c == str_views(v@),
            i <= n,
            out@ == head + enc_strs(c.subrange(0, i as int)),
            forall|j: int| 0 <= j < i ==> str_fits(#[trigger] c[j]),
        decreases n - i,
    {
        write_str(out, &v[i]);
        proof {
            lemma_enc_strs_push(c.subrange(0, i as int), c[i as int]);
            assert(c.subrange(0, i + 1) =~= c.subrange(0, i as int).push(c[i as int]));
        }
        i = i + 1;
    }
    proof {
        assert(c.subrange(0, n as int) =~= c);
        assert(out@ =~= old(out)@ + enc_str_list(c));
    }
}

pub fn read_str_list(b: &[u8], pos: usize) -> (r: Option<(Vec<String>, usize)>)
    requires
        pos <= b@.len(),
    ensures
        match parse_str_list(tail(b@, pos as int)) {
            None => r is None,
            Some((c, n)) => r matches Some((v, p)) && str_views(v@) == c && p == pos + n,
        },
        r matches Some((v, p)) ==> pos <= p <= b@.len(),
{
    let (n, start) = match read_u64(b, pos) {
        Some(x) => x,
        None => return None,
    };
    proof {
        lemma_tail_tail(b@, pos as int, 8);
    }
    let mut v: Vec<String> = Vec::new();
    let mut p: usize = start;
    let mut i: u64 = 0;
    while i < n
        invariant
            start == pos + 8,
            start <= p <= b@.len(),
            i <= n,
            parse_str_list(tail(b@, pos as int)) == match parse_strs(tail(b@, start as int), n as nat) {
                Some((xs, c)) => Some((xs, 8 + c)),
                None => None,
            },
            parse_strs(tail(b@, start as int), n as nat) == match parse_strs(
                tail(b@, p as int),
                (n - i) as nat,
            ) {
                Some((xs, c)) => Some((str_views(v@) + xs, (p - start) + c)),
                None => None,
            },
        decreases n - i,
    {
        let ghost prev = str_views(v@);
        let (s, p1) = match read_str(b, p) {
            Some(x) => x,
            None => return None,
        };
        proof {
            lemma_tail_tail(b@, p as int, p1 - p);
        }
        v.push(s);
        proof {
            assert(str_views(v@) =~= prev.push(s@));
            match parse_strs(tail(b@, p1 as int), (n - i - 1) as nat) {
                Some((xs, c)) => {
                    assert(prev + (seq![s@] + xs) =~= str_views(v@) + xs);
                },
                None => {},
            }
        }
        p = p1;
        i = i + 1;
    }
    proof {
        assert(str_views(v@) + Seq::<Seq<char>>::empty() =~= str_views(v@));
    }
    Some((v, p))
}

} // verus!
