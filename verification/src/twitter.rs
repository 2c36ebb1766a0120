//! The request signer: long-lived secret material and the signing scheme.

use vstd::prelude::*;
use sha1::Digest;
use crate::encode::lex_le;
use crate::encode::lemma_lex_total;
use crate::encode::lemma_lex_trans;
use crate::encode::lemma_lex_antisym;
use crate::encode::percent_encode;
use crate::encode::percent_encode_spec;
use crate::encode::lemma_percent_encode_ascii;
use crate::encode::lemma_base64_ascii;
use crate::encode::base64_spec;
use crate::encode::base64_encode;
use crate::encode::all_ascii;
use crate::encode::chars_of_ascii;
use crate::encode::ascii_to_string;
use crate::encode::push_bytes;
use crate::encode::joined;
use crate::encode::lemma_joined_snoc;
use crate::encode::lemma_joined_ascii;
use crate::encode::CH_EQUALS;

verus! {

use vstd::string::StrSliceExecFns;
use vstd::string::StringSliceAdditionalSpecFns;
use vstd::utf8::encode_utf8;

pub const CH_AMP: u8 = 38;

pub const CH_QUOTE: u8 = 34;

pub const CH_COMMA: u8 = 44;

pub const CH_SPACE: u8 = 32;

/// A parameter pair as the signing scheme sees it: encoded key and value.
pub type BytePair = (Seq<u8>, Seq<u8>);

/// Order on encoded pairs: by key, then by value for equal keys.
pub open spec fn pair_le(p: BytePair, q: BytePair) -> bool {
    if p.0 == q.0 {
        lex_le(p.1, q.1)
    } else {
        lex_le(p.0, q.0)
    }
}

pub proof fn lemma_pair_total(p: BytePair, q: BytePair)
    ensures
        pair_le(p, q) || pair_le(q, p),
{
    if p.0 == q.0 {
        lemma_lex_total(p.1, q.1);
    } else {
        lemma_lex_total(p.0, q.0);
    }
}

pub proof fn lemma_pair_trans(p: BytePair, q: BytePair, r: BytePair)
    requires
        pair_le(p, q),
        pair_le(q, r),
    ensures
        pair_le(p, r),
{
    if p.0 == q.0 && q.0 == r.0 {
        lemma_lex_trans(p.1, q.1, r.1);
    } else if p.0 == q.0 {
        // key order decided between q and r
    } else if q.0 == r.0 {
        // key order decided between p and q
    } else if p.0 == r.0 {
        // then lex_le(p.0, q.0) and lex_le(q.0, p.0): the keys coincide
        lemma_lex_antisym(p.0, q.0);
    } else {
        lemma_lex_trans(p.0, q.0, r.0);
    }
}

/// Insert a pair in front of the first element it does not come after.
pub open spec fn insert_pair(p: BytePair, s: Seq<BytePair>) -> Seq<BytePair>
    decreases s.len(),
{
    if s.len() == 0 {
        seq![p]
    } else if pair_le(s[0], p) {
        seq![s[0]] + insert_pair(p, s.subrange(1, s.len() as int))
    } else {
        seq![p] + s
    }
}

/// Insertion sort of the parameter pairs, in the order of `pair_le`.
pub open spec fn sort_pairs(s: Seq<BytePair>) -> Seq<BytePair>
    decreases s.len(),
{
    if s.len() == 0 {
        Seq::empty()
    } else {
        insert_pair(s.last(), sort_pairs(s.drop_last()))
    }
}

/// Where a pair lands when inserted: `insert_pair` splits the sequence
/// at any position whose left side comes before the pair and whose right
/// side does not.
proof fn lemma_insert_at(p: BytePair, s: Seq<BytePair>, j: int)
    requires
        0 <= j <= s.len(),
        forall|k: int| 0 <= k < j ==> pair_le(#[trigger] s[k], p),
        j < s.len() ==> !pair_le(s[j], p),
    ensures
        insert_pair(p, s) == s.subrange(0, j) + seq![p] + s.subrange(j, s.len() as int),
    decreases j,
{
    if j == 0 {
        if s.len() == 0 {
            assert(insert_pair(p, s) =~= s.subrange(0, 0) + seq![p] + s.subrange(0, 0));
        } else {
            assert(insert_pair(p, s) =~= s.subrange(0, 0) + seq![p] + s.subrange(
                0,
                s.len() as int,
            ));
        }
    } else {
        let s1 = s.subrange(1, s.len() as int);
        assert(forall|k: int| 0 <= k < j - 1 ==> s1[k] == s[k + 1]);
        lemma_insert_at(p, s1, j - 1);
        assert(s1.subrange(0, j - 1) =~= s.subrange(1, j));
        assert(s1.subrange(j - 1, s1.len() as int) =~= s.subrange(j, s.len() as int));
        assert(insert_pair(p, s) =~= s.subrange(0, j) + seq![p] + s.subrange(j, s.len() as int));
    }
}

/// Sortedness of a pair sequence under `pair_le`.
pub open spec fn pairs_sorted(s: Seq<BytePair>) -> bool {
    forall|i: int, j: int| 0 <= i < j < s.len() ==> pair_le(#[trigger] s[i], #[trigger] s[j])
}

proof fn lemma_insert_sorted(p: BytePair, s: Seq<BytePair>)
    requires
        pairs_sorted(s),
    ensures
        pairs_sorted(insert_pair(p, s)),
    decreases s.len(),
{
    if s.len() == 0 {
    } else if pair_le(s[0], p) {
        let s1 = s.subrange(1, s.len() as int);
        assert(forall|k: int| 0 <= k < s1.len() ==> s1[k] == s[k + 1]);
        lemma_insert_sorted(p, s1);
        let t = insert_pair(p, s1);
        let w = insert_pair(p, s);
        assert(w == seq![s[0]] + t);
        // every element of t is p or an element of s1, so s[0] comes before it
        lemma_insert_members(p, s1);
        assert forall|i: int, j: int| 0 <= i < j < w.len() implies pair_le(w[i], w[j]) by {
            if i == 0 {
                assert(w[j] == t[j - 1]);
                if t[j - 1] == p {
                    assert(pair_le(s[0], p));
                } else {
                    let k = choose|k: int| 0 <= k < s1.len() && s1[k] == t[j - 1];
                    assert(pair_le(s[0], s[k + 1]));
                }
            } else {
                assert(w[i] == t[i - 1] && w[j] == t[j - 1]);
            }
        }
    } else {
        let w = insert_pair(p, s);
        assert(w == seq![p] + s);
        lemma_pair_total(s[0], p);
        assert(pair_le(p, s[0]));
        assert forall|i: int, j: int| 0 <= i < j < w.len() implies pair_le(w[i], w[j]) by {
            if i == 0 {
                if j == 1 {
                    assert(w[j] == s[0]);
                } else {
                    assert(w[j] == s[j - 1]);
                    assert(pair_le(s[0], s[j - 1]));
                    lemma_pair_trans(p, s[0], s[j - 1]);
                }
            } else {
                assert(w[i] == s[i - 1] && w[j] == s[j - 1]);
            }
        }
    }
}

/// Every element of an insertion is the inserted pair or one of the old ones.
proof fn lemma_insert_members(p: BytePair, s: Seq<BytePair>)
    ensures
        insert_pair(p, s).len() == s.len() + 1,
        forall|i: int|
            0 <= i < insert_pair(p, s).len() ==> (#[trigger] insert_pair(p, s)[i] == p || exists|
                k: int,
            | 0 <= k < s.len() && s[k] == insert_pair(p, s)[i]),
    decreases s.len(),
{
    if s.len() == 0 {
    } else if pair_le(s[0], p) {
        let s1 = s.subrange(1, s.len() as int);
        lemma_insert_members(p, s1);
        let t = insert_pair(p, s1);
        let w = insert_pair(p, s);
        assert(w == seq![s[0]] + t);
        assert forall|i: int|
            0 <= i < w.len() implies (w[i] == p || exists|k: int|
            0 <= k < s.len() && s[k] == w[i]) by {
            if i == 0 {
                assert(s[0] == w[0]);
            } else {
                assert(w[i] == t[i - 1]);
                if t[i - 1] != p {
                    let k = choose|k: int| 0 <= k < s1.len() && s1[k] == t[i - 1];
                    assert(s[k + 1] == w[i]);
                }
            }
        }
    } else {
        let w = insert_pair(p, s);
        assert(w == seq![p] + s);
        assert forall|i: int|
            0 <= i < w.len() implies (w[i] == p || exists|k: int|
            0 <= k < s.len() && s[k] == w[i]) by {
            if i > 0 {
                assert(s[i - 1] == w[i]);
            }
        }
    }
}

/// The sorted parameter list is sorted: by key, then by value.
pub proof fn lemma_sort_pairs_sorted(s: Seq<BytePair>)
    ensures
        pairs_sorted(sort_pairs(s)),
    decreases s.len(),
{
    if s.len() > 0 {
        lemma_sort_pairs_sorted(s.drop_last());
        lemma_insert_sorted(s.last(), sort_pairs(s.drop_last()));
    }
}

/// For a fixed nonce and timestamp the signature is a function of the
/// method, endpoint, parameters and secrets alone — each signing spec is a
/// mathematical function — and the parameters of the signing base string
/// stand sorted by key, then by value for equal keys.
pub proof fn lemma_base_string_params_sorted(params: Seq<BytePair>)
    ensures
        pairs_sorted(sort_pairs(encode_pairs(params))),
{
    lemma_sort_pairs_sorted(encode_pairs(params));
}

/// The views of a parameter vector's pairs.
pub open spec fn pairs_view(s: Seq<(Vec<u8>, Vec<u8>)>) -> Seq<BytePair> {
    s.map_values(|p: (Vec<u8>, Vec<u8>)| (p.0@, p.1@))
}

fn pair_le_exec(a: &(Vec<u8>, Vec<u8>), b: &(Vec<u8>, Vec<u8>)) -> (r: bool)
    ensures
        r == pair_le((a.0@, a.1@), (b.0@, b.1@)),
{
    let keys_equal = bytes_eq(&a.0, &b.0);
    if keys_equal {
        crate::encode::lex_le_exec(&a.1, &b.1)
    } else {
        crate::encode::lex_le_exec(&a.0, &b.0)
    }
}

/// Byte-string equality.
pub fn bytes_eq(a: &Vec<u8>, b: &Vec<u8>) -> (r: bool)
    ensures
        r == (a@ == b@),
{
    if a.len() != b.len() {
        proof {
            assert(a@ != b@);
        }
        return false;
    }
    let mut i: usize = 0;
    while i < a.len()
        invariant
            a@.len() == b@.len(),
            i <= a@.len(),
            forall|j: int| 0 <= j < i ==> a@[j] == b@[j],
        decreases a@.len() - i,
    {
        if a[i] != b[i] {
            proof {
                assert(a@ != b@);
            }
            return false;
        }
        i = i + 1;
    }
    proof {
        assert(a@ =~= b@);
    }
    true
}

/// Sort the encoded parameter pairs by key, then by value.
pub fn sort_params(params: Vec<(Vec<u8>, Vec<u8>)>) -> (r: Vec<(Vec<u8>, Vec<u8>)>)
    ensures
        pairs_view(r@) == sort_pairs(pairs_view(params@)),
{
    let ghost orig = params@;
    let mut v = params;
    let mut r: Vec<(Vec<u8>, Vec<u8>)> = Vec::new();
    proof {
        assert(orig.subrange(0, 0) =~= Seq::<(Vec<u8>, Vec<u8>)>::empty());
        assert(pairs_view(orig.subrange(0, 0)) =~= Seq::<BytePair>::empty());
        assert(v@ =~= orig.subrange(0, orig.len() as int));
    }
    while v.len() > 0
        invariant
            r@.len() + v@.len() == orig.len(),
            v@ == orig.subrange(r@.len() as int, orig.len() as int),
            pairs_view(r@) == sort_pairs(pairs_view(orig.subrange(0, r@.len() as int))),
        decreases v@.len(),
    {
        let ghost i = r@.len() as int;
        let x = v.remove(0);
        proof {
            assert(x == orig[i]);
            assert(orig.subrange(i, orig.len() as int).subrange(1, orig.len() - i) =~= orig.subrange(
                i + 1,
                orig.len() as int,
            ));
        }
        let ghost xv = (x.0@, x.1@);
        let mut j: usize = 0;
        loop
            invariant
                xv == (x.0@, x.1@),
                j <= r@.len(),
                forall|k: int| 0 <= k < j ==> pair_le(#[trigger] pairs_view(r@)[k], xv),
            ensures
                j <= r@.len(),
                forall|k: int| 0 <= k < j ==> pair_le(#[trigger] pairs_view(r@)[k], xv),
                j < r@.len() ==> !pair_le(pairs_view(r@)[j as int], xv),
            decreases r@.len() - j,
        {
            if j == r.len() {
                break ;
            }
            let keep_going = pair_le_exec(&r[j], &x);
            proof {
                assert(pairs_view(r@)[j as int] == (r@[j as int].0@, r@[j as int].1@));
            }
            if !keep_going {
                break ;
            }
            j = j + 1;
        }
        proof {
            lemma_insert_at(xv, pairs_view(r@), j as int);
        }
        r.insert(j, x);
        proof {
            let pre = orig.subrange(0, i);
            let cur = orig.subrange(0, i + 1);
            assert(cur.drop_last() =~= pre);
            assert(cur.last() == orig[i]);
            assert(pairs_view(cur).last() == xv);
            assert(pairs_view(cur).drop_last() =~= pairs_view(pre));
            assert(sort_pairs(pairs_view(cur)) == insert_pair(xv, sort_pairs(pairs_view(pre))));
            assert(pairs_view(r@) =~= sort_pairs(pairs_view(cur)));
        }
    }
    proof {
        assert(orig.subrange(0, r@.len() as int) =~= orig);
    }
    r
}

/// The SHA-1 digest of a byte string, a function of the bytes alone.
pub uninterp spec fn sha1_of(msg: Seq<u8>) -> Seq<u8>;

/// Relies on sha1::Sha1 through its one-shot digest method: the 20-byte
/// SHA-1 digest of the input, a function of the input bytes alone.
#[verifier::external_body]
fn sha1_digest(msg: &Vec<u8>) -> (r: Vec<u8>)
    ensures
        r@ == sha1_of(msg@),
        r@.len() == 20,
{
    sha1::Sha1::digest(msg.as_slice()).to_vec()
}

pub const HMAC_BLOCK_LEN: usize = 64;

pub const HMAC_IPAD: u8 = 54;

pub const HMAC_OPAD: u8 = 92;

/// A key padded with zero bytes to the hash block length.
pub open spec fn zero_pad(k: Seq<u8>) -> Seq<u8> {
    k + Seq::new((HMAC_BLOCK_LEN - k.len()) as nat, |i: int| 0u8)
}

/// The block-length key HMAC derives from the caller's key: the key itself,
/// hashed first if longer than a block, zero-padded to a full block.
pub open spec fn hmac_key_block(key: Seq<u8>) -> Seq<u8> {
    if key.len() > HMAC_BLOCK_LEN {
        zero_pad(sha1_of(key))
    } else {
        zero_pad(key)
    }
}

pub open spec fn xor_all(s: Seq<u8>, x: u8) -> Seq<u8> {
    Seq::new(s.len(), |i: int| s[i] ^ x)
}

/// HMAC-SHA1: the outer hash of the padded key over the inner hash of the
/// padded key and the message.
pub open spec fn hmac_sha1_spec(key: Seq<u8>, msg: Seq<u8>) -> Seq<u8> {
    let k = hmac_key_block(key);
    sha1_of(xor_all(k, HMAC_OPAD) + sha1_of(xor_all(k, HMAC_IPAD) + msg))
}

fn xor_block(k: &Vec<u8>, x: u8) -> (r: Vec<u8>)
    ensures
        r@ == xor_all(k@, x),
{
    let mut r: Vec<u8> = Vec::new();
    let mut i: usize = 0;
    while i < k.len()
        invariant
            i <= k@.len(),
            r@.len() == i,
            forall|j: int| 0 <= j < i ==> r@[j] == (k@[j] ^ x),
        decreases k@.len() - i,
    {
        r.push(k[i] ^ x);
        i = i + 1;
    }
    proof {
        assert(r@ =~= xor_all(k@, x));
    }
    r
}

/// Compute HMAC-SHA1 of a message under a key.
pub fn hmac_sha1(key: &Vec<u8>, msg: &Vec<u8>) -> (r: Vec<u8>)
    ensures
        r@ == hmac_sha1_spec(key@, msg@),
        r@.len() == 20,
{
    let mut k: Vec<u8> = if key.len() > HMAC_BLOCK_LEN {
        sha1_digest(key)
    } else {
        vstd::slice::slice_to_vec(key.as_slice())
    };
    let ghost k0 = k@;
    while k.len() < HMAC_BLOCK_LEN
        invariant
            k0.len() <= HMAC_BLOCK_LEN,
            k0.len() <= k@.len() <= HMAC_BLOCK_LEN,
            k@.subrange(0, k0.len() as int) == k0,
            forall|j: int| k0.len() <= j < k@.len() ==> k@[j] == 0u8,
        decreases HMAC_BLOCK_LEN - k@.len(),
    {
        k.push(0u8);
        proof {
            assert(k@.subrange(0, k0.len() as int) =~= k0);
        }
    }
    proof {
        assert(k@ =~= zero_pad(k0));
        assert(k@ == hmac_key_block(key@));
    }
    let mut inner = xor_block(&k, HMAC_IPAD);
    push_bytes(&mut inner, msg);
    let inner_hash = sha1_digest(&inner);
    let mut outer = xor_block(&k, HMAC_OPAD);
    push_bytes(&mut outer, &inner_hash);
    sha1_digest(&outer)
}

/// One pair as it stands in the signing base string: `key=value`.
pub open spec fn param_item(p: BytePair) -> Seq<u8> {
    p.0 + seq![CH_EQUALS] + p.1
}

/// One pair as it stands in the authorization header: `key="value"`.
pub open spec fn header_item(p: BytePair) -> Seq<u8> {
    p.0 + seq![CH_EQUALS, CH_QUOTE] + p.1 + seq![CH_QUOTE]
}

/// The `key=value` pairs joined with `&`.
pub open spec fn join_params(s: Seq<BytePair>) -> Seq<u8> {
    joined(s.map_values(|p: BytePair| param_item(p)), seq![CH_AMP])
}

/// The `key="value"` pairs joined with `, `.
pub open spec fn join_header(s: Seq<BytePair>) -> Seq<u8> {
    joined(s.map_values(|p: BytePair| header_item(p)), seq![CH_COMMA, CH_SPACE])
}

/// Build the `key=value&...` byte string of a pair list.
fn join_params_exec(pairs: &Vec<(Vec<u8>, Vec<u8>)>) -> (r: Vec<u8>)
    ensures
        r@ == join_params(pairs_view(pairs@)),
{
    let ghost items = pairs_view(pairs@).map_values(|p: BytePair| param_item(p));
    let mut r: Vec<u8> = Vec::new();
    let mut i: usize = 0;
    proof {
        assert(items.subrange(0, 0) =~= Seq::<Seq<u8>>::empty());
    }
    while i < pairs.len()
        invariant
            i <= pairs@.len(),
            items == pairs_view(pairs@).map_values(|p: BytePair| param_item(p)),
            r@ == joined(items.subrange(0, i as int), seq![CH_AMP]),
        decreases pairs@.len() - i,
    {
        if i > 0 {
            r.push(CH_AMP);
        }
        push_bytes(&mut r, &pairs[i].0);
        r.push(CH_EQUALS);
        push_bytes(&mut r, &pairs[i].1);
        proof {
            assert(items[i as int] == param_item(
                (pairs@[i as int].0@, pairs@[i as int].1@),
            ));
            if i == 0 {
                assert(items.subrange(0, 1) =~= seq![items[0]]);
                assert(joined(seq![items[0]], seq![CH_AMP]) == items[0]);
                assert(r@ =~= items[0]);
            } else {
                lemma_joined_snoc(items, seq![CH_AMP], i as int);
                assert(r@ =~= joined(items.subrange(0, i as int), seq![CH_AMP]) + seq![CH_AMP]
                    + items[i as int]);
            }
        }
        i = i + 1;
    }
    proof {
        assert(items.subrange(0, items.len() as int) =~= items);
    }
    r
}

/// Build the `key="value", ...` byte string of a pair list.
fn join_header_exec(pairs: &Vec<(Vec<u8>, Vec<u8>)>) -> (r: Vec<u8>)
    ensures
        r@ == join_header(pairs_view(pairs@)),
{
    let ghost items = pairs_view(pairs@).map_values(|p: BytePair| header_item(p));
    let ghost sep = seq![CH_COMMA, CH_SPACE];
    let mut r: Vec<u8> = Vec::new();
    let mut i: usize = 0;
    proof {
        assert(items.subrange(0, 0) =~= Seq::<Seq<u8>>::empty());
    }
    while i < pairs.len()
        invariant
            i <= pairs@.len(),
            sep == seq![CH_COMMA, CH_SPACE],
            items == pairs_view(pairs@).map_values(|p: BytePair| header_item(p)),
            r@ == joined(items.subrange(0, i as int), sep),
        decreases pairs@.len() - i,
    {
        if i > 0 {
            r.push(CH_COMMA);
            r.push(CH_SPACE);
        }
        push_bytes(&mut r, &pairs[i].0);
        r.push(CH_EQUALS);
        r.push(CH_QUOTE);
        push_bytes(&mut r, &pairs[i].1);
        r.push(CH_QUOTE);
        proof {
            assert(items[i as int] == header_item(
                (pairs@[i as int].0@, pairs@[i as int].1@),
            ));
            if i == 0 {
                assert(items.subrange(0, 1) =~= seq![items[0]]);
                assert(joined(seq![items[0]], sep) == items[0]);
                assert(r@ =~= items[0]);
            } else {
                lemma_joined_snoc(items, sep, i as int);
                assert(r@ =~= joined(items.subrange(0, i as int), sep) + sep + items[i as int]);
            }
        }
        i = i + 1;
    }
    proof {
        assert(items.subrange(0, items.len() as int) =~= items);
    }
    r
}

/// Each pair percent-encoded, key and value.
pub open spec fn encode_pairs(s: Seq<BytePair>) -> Seq<BytePair> {
    s.map_values(|p: BytePair| (percent_encode_spec(p.0), percent_encode_spec(p.1)))
}

fn encode_params(pairs: &Vec<(Vec<u8>, Vec<u8>)>) -> (r: Vec<(Vec<u8>, Vec<u8>)>)
    ensures
        pairs_view(r@) == encode_pairs(pairs_view(pairs@)),
{
    let mut r: Vec<(Vec<u8>, Vec<u8>)> = Vec::new();
    let mut i: usize = 0;
    while i < pairs.len()
        invariant
            i <= pairs@.len(),
            r@.len() == i,
            forall|k: int|
                0 <= k < i ==> (#[trigger] r@[k]).0@ == percent_encode_spec(pairs@[k].0@)
                    && r@[k].1@ == percent_encode_spec(pairs@[k].1@),
        decreases pairs@.len() - i,
    {
        let ek = percent_encode(pairs[i].0.as_slice());
        let ev = percent_encode(pairs[i].1.as_slice());
        r.push((ek, ev));
        i = i + 1;
    }
    proof {
        assert(pairs_view(r@) =~~= encode_pairs(pairs_view(pairs@)));
    }
    r
}

/// Every pair of the sorted sequence is one of the pairs that went in.
proof fn lemma_sort_members(s: Seq<BytePair>)
    ensures
        sort_pairs(s).len() == s.len(),
        forall|i: int|
            0 <= i < sort_pairs(s).len() ==> exists|k: int|
                0 <= k < s.len() && s[k] == #[trigger] sort_pairs(s)[i],
    decreases s.len(),
{
    if s.len() > 0 {
        let pre = s.drop_last();
        lemma_sort_members(pre);
        lemma_insert_members(s.last(), sort_pairs(pre));
        let t = sort_pairs(s);
        assert forall|i: int|
            0 <= i < t.len() implies exists|k: int| 0 <= k < s.len() && s[k] == #[trigger] t[i] by {
            if t[i] == s.last() {
                assert(s[s.len() - 1] == t[i]);
            } else {
                let m = choose|m: int|
                    0 <= m < sort_pairs(pre).len() && sort_pairs(pre)[m] == t[i];
                let k = choose|k: int| 0 <= k < pre.len() && pre[k] == sort_pairs(pre)[m];
                assert(s[k] == t[i]);
            }
        }
    }
}

/// Step 4 of the scheme: `METHOD & enc(endpoint) & enc(key1=value1&...)`,
/// the pairs encoded and sorted by key, then by value.
pub open spec fn base_string_spec(method: Seq<u8>, endpoint: Seq<u8>, params: Seq<BytePair>) -> Seq<
    u8,
> {
    method + seq![CH_AMP] + percent_encode_spec(endpoint) + seq![CH_AMP] + percent_encode_spec(
        join_params(sort_pairs(encode_pairs(params))),
    )
}

/// The HMAC key: `enc(consumer secret) & enc(token secret)`.
pub open spec fn signing_key_spec(consumer_secret: Seq<u8>, token_secret: Seq<u8>) -> Seq<u8> {
    percent_encode_spec(consumer_secret) + seq![CH_AMP] + percent_encode_spec(token_secret)
}

/// The signature value: base64 of HMAC-SHA1 of the base string under the key.
pub open spec fn oauth_signature_spec(
    method: Seq<u8>,
    endpoint: Seq<u8>,
    params: Seq<BytePair>,
    consumer_secret: Seq<u8>,
    token_secret: Seq<u8>,
) -> Seq<u8> {
    base64_spec(
        hmac_sha1_spec(
            signing_key_spec(consumer_secret, token_secret),
            base_string_spec(method, endpoint, params),
        ),
    )
}

/// Build the canonical signing base string.
pub fn base_string(method: &Vec<u8>, endpoint: &Vec<u8>, params: &Vec<(Vec<u8>, Vec<u8>)>) -> (r:
    Vec<u8>)
    ensures
        r@ == base_string_spec(method@, endpoint@, pairs_view(params@)),
{
    let enc = encode_params(params);
    let sorted = sort_params(enc);
    let joined_params = join_params_exec(&sorted);
    let mut r = vstd::slice::slice_to_vec(method.as_slice());
    r.push(CH_AMP);
    push_bytes(&mut r, &percent_encode(endpoint.as_slice()));
    r.push(CH_AMP);
    push_bytes(&mut r, &percent_encode(joined_params.as_slice()));
    proof {
        assert(r@ =~= base_string_spec(method@, endpoint@, pairs_view(params@)));
    }
    r
}

/// The parameter pairs a list of string pairs stands for, as bytes.
pub open spec fn str_pairs_view(s: Seq<(&str, &str)>) -> Seq<BytePair> {
    s.map_values(|p: (&str, &str)| (p.0.spec_bytes(), p.1.spec_bytes()))
}

fn str_pairs_to_bytes(params: &Vec<(&str, &str)>) -> (r: Vec<(Vec<u8>, Vec<u8>)>)
    ensures
        pairs_view(r@) == str_pairs_view(params@),
{
    let mut r: Vec<(Vec<u8>, Vec<u8>)> = Vec::new();
    let mut i: usize = 0;
    while i < params.len()
        invariant
            i <= params@.len(),
            r@.len() == i,
            forall|k: int|
                0 <= k < i ==> (#[trigger] r@[k]).0@ == params@[k].0.spec_bytes() && r@[k].1@
                    == params@[k].1.spec_bytes(),
        decreases params@.len() - i,
    {
        let p = params[i];
        r.push((p.0.as_bytes_vec(), p.1.as_bytes_vec()));
        i = i + 1;
    }
    proof {
        assert(pairs_view(r@) =~~= str_pairs_view(params@));
    }
    r
}

/// The four long-lived secrets behind every signed request.
pub struct Twitter {
    pub consumer_key: String,
    pub consumer_secret: String,
    pub access_token: String,
    pub access_token_secret: String,
}

impl Twitter {
    pub fn new(
        consumer_key: String,
        consumer_secret: String,
        access_token: String,
        access_token_secret: String,
    ) -> (r: Twitter)
        ensures
            r.consumer_key == consumer_key,
            r.consumer_secret == consumer_secret,
            r.access_token == access_token,
            r.access_token_secret == access_token_secret,
    {
        Twitter { consumer_key, consumer_secret, access_token, access_token_secret }
    }

    /// The HMAC key derived from the two secrets.
    fn sign_key(&self) -> (r: Vec<u8>)
        ensures
            r@ == signing_key_spec(
                encode_utf8(self.consumer_secret@),
                encode_utf8(self.access_token_secret@),
            ),
    {
        let mut r = percent_encode(self.consumer_secret.as_str().as_bytes());
        r.push(CH_AMP);
        push_bytes(&mut r, &percent_encode(self.access_token_secret.as_str().as_bytes()));
        proof {
            assert(r@ =~= signing_key_spec(
                encode_utf8(self.consumer_secret@),
                encode_utf8(self.access_token_secret@),
            ));
        }
        r
    }

    /// The signature over a full parameter set, as base64 bytes.
    pub fn oauth_signature_bytes(
        &self,
        method: &Vec<u8>,
        endpoint: &Vec<u8>,
        params: &Vec<(Vec<u8>, Vec<u8>)>,
    ) -> (r: Vec<u8>)
        ensures
            r@ == oauth_signature_spec(
                method@,
                endpoint@,
                pairs_view(params@),
                encode_utf8(self.consumer_secret@),
                encode_utf8(self.access_token_secret@),
            ),
            all_ascii(r@),
    {
        let base = base_string(method, endpoint, params);
        let key = self.sign_key();
        let digest = hmac_sha1(&key, &base);
        let sig = base64_encode(&digest);
        proof {
            lemma_base64_ascii(digest@);
        }
        sig
    }

    /// The signature value of the signing scheme, for a parameter set that
    /// already carries the protocol parameters.
    pub fn get_oauth_signature(
        &self,
        method: &str,
        endpoint: &str,
        parameters: Vec<(&str, &str)>,
    ) -> (r: String)
        ensures
            r@ == chars_of_ascii(
                oauth_signature_spec(
                    method.spec_bytes(),
                    endpoint.spec_bytes(),
                    str_pairs_view(parameters@),
                    encode_utf8(self.consumer_secret@),
                    encode_utf8(self.access_token_secret@),
                ),
            ),
    {
        let raw = str_pairs_to_bytes(&parameters);
        let mb = method.as_bytes_vec();
        let eb = endpoint.as_bytes_vec();
        let sig = self.oauth_signature_bytes(&mb, &eb, &raw);
        ascii_to_string(sig)
    }

    /// Append the protocol parameters: consumer key, nonce, signing method
    /// name, timestamp, token, and version.
    fn push_oauth_params(&self, params: &mut Vec<(Vec<u8>, Vec<u8>)>, nonce: &str, timestamp: &str)
        ensures
            pairs_view(final(params)@) == with_oauth_params(
                pairs_view(old(params)@),
                encode_utf8(self.consumer_key@),
                nonce.spec_bytes(),
                timestamp.spec_bytes(),
                encode_utf8(self.access_token@),
            ),
    {
        params.push(("oauth_consumer_key".as_bytes_vec(), self.consumer_key.as_str().as_bytes_vec()));
        params.push(("oauth_nonce".as_bytes_vec(), nonce.as_bytes_vec()));
        params.push(("oauth_signature_method".as_bytes_vec(), "HMAC-SHA1".as_bytes_vec()));
        params.push(("oauth_timestamp".as_bytes_vec(), timestamp.as_bytes_vec()));
        params.push(("oauth_token".as_bytes_vec(), self.access_token.as_str().as_bytes_vec()));
        params.push(("oauth_version".as_bytes_vec(), "1.0".as_bytes_vec()));
        proof {
            assert(pairs_view(params@) =~~= with_oauth_params(
                pairs_view(old(params)@),
                encode_utf8(self.consumer_key@),
                nonce.spec_bytes(),
                timestamp.spec_bytes(),
                encode_utf8(self.access_token@),
            ));
        }
    }

    /// The full authorization header for given nonce and timestamp strings.
    pub fn authorization_header_with(
        &self,
        method: &str,
        endpoint: &str,
        parameters: Vec<(&str, &str)>,
        nonce: &str,
        timestamp: &str,
    ) -> (r: String)
        ensures
            r@ == chars_of_ascii(
                authorization_header_spec(
                    method.spec_bytes(),
                    endpoint.spec_bytes(),
                    str_pairs_view(parameters@),
                    encode_utf8(self.consumer_key@),
                    encode_utf8(self.consumer_secret@),
                    encode_utf8(self.access_token@),
                    encode_utf8(self.access_token_secret@),
                    nonce.spec_bytes(),
                    timestamp.spec_bytes(),
                ),
            ),
    {
        let mut all = str_pairs_to_bytes(&parameters);
        self.push_oauth_params(&mut all, nonce, timestamp);
        let mb = method.as_bytes_vec();
        let eb = endpoint.as_bytes_vec();
        let sig = self.oauth_signature_bytes(&mb, &eb, &all);
        let ghost all_before_sig = pairs_view(all@);
        all.push(("oauth_signature".as_bytes_vec(), sig));
        proof {
            assert(pairs_view(all@) =~~= all_before_sig.push(
                ("oauth_signature".spec_bytes(), sig@),
            ));
        }
        let enc = encode_params(&all);
        let sorted = sort_params(enc);
        let hdr = join_header_exec(&sorted);
        let mut out: Vec<u8> = Vec::new();
        out.push(79);
        out.push(65);
        out.push(117);
        out.push(116);
        out.push(104);
        out.push(32);
        push_bytes(&mut out, &hdr);
        proof {
            lemma_header_bytes_ascii(pairs_view(all@));
            assert(out@ =~= oauth_prefix() + join_header(sort_pairs(encode_pairs(pairs_view(all@)))));
            assert(all_ascii(out@));
        }
        ascii_to_string(out)
    }

    /// The authorization header of a request signed now: nonce and timestamp
    /// are both the current Unix time, as the scheme's reference behaviour
    /// has it.
    pub fn get_authorization_header(
        &self,
        method: &str,
        endpoint: &str,
        parameters: Vec<(&str, &str)>,
    ) -> (r: String)
        ensures
            exists|ts: Seq<u8>|
                r@ == chars_of_ascii(
                    authorization_header_spec(
                        method.spec_bytes(),
                        endpoint.spec_bytes(),
                        str_pairs_view(parameters@),
                        encode_utf8(self.consumer_key@),
                        encode_utf8(self.consumer_secret@),
                        encode_utf8(self.access_token@),
                        encode_utf8(self.access_token_secret@),
                        ts,
                        ts,
                    ),
                ),
    {
        let t = unix_timestamp_now();
        let tu: u64 = if t >= 0 {
            t as u64
        } else {
            0
        };
        let ts_bytes = crate::encode::u64_to_dec(tu);
        proof {
            crate::encode::lemma_dec_digits_ascii(tu as int);
        }
        let ts = ascii_to_string(ts_bytes);
        let r = self.authorization_header_with(
            method,
            endpoint,
            parameters,
            ts.as_str(),
            ts.as_str(),
        );
        proof {
            let witness = encode_utf8(ts@);
            assert(r@ == chars_of_ascii(
                authorization_header_spec(
                    method.spec_bytes(),
                    endpoint.spec_bytes(),
                    str_pairs_view(parameters@),
                    encode_utf8(self.consumer_key@),
                    encode_utf8(self.consumer_secret@),
                    encode_utf8(self.access_token@),
                    encode_utf8(self.access_token_secret@),
                    witness,
                    witness,
                ),
            ));
        }
        r
    }
}

/// Relies on chrono::Utc::now: the current Unix timestamp in seconds.
/// Nothing is assumed of the value.
#[verifier::external_body]
fn unix_timestamp_now() -> i64 {
    chrono::Utc::now().timestamp()
}

/// A parameter set with the six protocol parameters appended.
pub open spec fn with_oauth_params(
    params: Seq<BytePair>,
    consumer_key: Seq<u8>,
    nonce: Seq<u8>,
    timestamp: Seq<u8>,
    token: Seq<u8>,
) -> Seq<BytePair> {
    params.push(("oauth_consumer_key".spec_bytes(), consumer_key)).push(
        ("oauth_nonce".spec_bytes(), nonce),
    ).push(("oauth_signature_method".spec_bytes(), "HMAC-SHA1".spec_bytes())).push(
        ("oauth_timestamp".spec_bytes(), timestamp),
    ).push(("oauth_token".spec_bytes(), token)).push(("oauth_version".spec_bytes(), "1.0".spec_bytes()))
}

/// The bytes of `OAuth `, the header's fixed prefix.
pub open spec fn oauth_prefix() -> Seq<u8> {
    seq![79u8, 65u8, 117u8, 116u8, 104u8, 32u8]
}

/// The whole authorization header: the prefix, then every parameter with
/// the computed signature appended, encoded, sorted, and joined.
pub open spec fn authorization_header_spec(
    method: Seq<u8>,
    endpoint: Seq<u8>,
    params: Seq<BytePair>,
    consumer_key: Seq<u8>,
    consumer_secret: Seq<u8>,
    token: Seq<u8>,
    token_secret: Seq<u8>,
    nonce: Seq<u8>,
    timestamp: Seq<u8>,
) -> Seq<u8> {
    let all = with_oauth_params(params, consumer_key, nonce, timestamp, token);
    let sig = oauth_signature_spec(method, endpoint, all, consumer_secret, token_secret);
    let with_sig = all.push(("oauth_signature".spec_bytes(), sig));
    oauth_prefix() + join_header(sort_pairs(encode_pairs(with_sig)))
}

/// The header body built from any parameter set is ASCII: every key and
/// value is percent-encoded first.
proof fn lemma_header_bytes_ascii(params: Seq<BytePair>)
    ensures
        all_ascii(oauth_prefix() + join_header(sort_pairs(encode_pairs(params)))),
{
    let ep = encode_pairs(params);
    assert forall|i: int| 0 <= i < ep.len() implies all_ascii((#[trigger] ep[i]).0) && all_ascii(
        ep[i].1,
    ) by {
        lemma_percent_encode_ascii(params[i].0);
        lemma_percent_encode_ascii(params[i].1);
    }
    let sp = sort_pairs(ep);
    lemma_sort_members(ep);
    assert forall|i: int| 0 <= i < sp.len() implies all_ascii((#[trigger] sp[i]).0) && all_ascii(
        sp[i].1,
    ) by {
        let k = choose|k: int| 0 <= k < ep.len() && ep[k] == sp[i];
        assert(all_ascii(ep[k].0) && all_ascii(ep[k].1));
    }
    let items = sp.map_values(|p: BytePair| header_item(p));
    assert forall|i: int| 0 <= i < items.len() implies all_ascii(#[trigger] items[i]) by {
        let h = header_item(sp[i]);
        assert forall|j: int| 0 <= j < h.len() implies h[j] < 128 by {
            let a = sp[i].0;
            let b = sp[i].1;
            if j < a.len() {
                assert(h[j] == a[j]);
            } else if j < a.len() + 2 {
                assert(h[j] == seq![CH_EQUALS, CH_QUOTE][j - a.len()]);
            } else if j < a.len() + 2 + b.len() {
                assert(h[j] == b[j - a.len() - 2]);
            } else {
                assert(h[j] == CH_QUOTE);
            }
        }
    }
    lemma_joined_ascii(items, seq![CH_COMMA, CH_SPACE]);
    let whole = oauth_prefix() + join_header(sp);
    assert forall|j: int| 0 <= j < whole.len() implies whole[j] < 128 by {
        if j < 6 {
            assert(whole[j] == oauth_prefix()[j]);
        } else {
            assert(whole[j] == join_header(sp)[j - 6]);
        }
    }
}

} // verus!
