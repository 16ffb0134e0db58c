//! Resolution of a full verkey from a DID and an optional, possibly
//! abbreviated verkey string.
//!
//! A verkey argument may carry a crypto-type tag after a colon, which is
//! carried through unchanged, and its key part may start with the marker
//! `~`, in which case the marker's tail and the DID are both base58-decoded,
//! concatenated (DID bytes first) and re-encoded.

use vstd::prelude::*;
use vstd::string::StrSliceExecFns;
use vstd::string::StringExecFns;

use crate::base58::decode;
use crate::base58::decode_spec;
use crate::base58::encode;
use crate::base58::encode_spec;
use crate::base58::lemma_encode_valid;
use crate::base58::DecodeError;

verus! {

/// Index of the first occurrence of `c` in `s`, or `s.len()` when `c` does
/// not occur.
pub open spec fn find_ix(s: Seq<char>, c: char) -> int
    decreases s.len(),
{
    if s.len() == 0 {
        0
    } else if s[0] == c {
        0
    } else {
        1 + find_ix(s.drop_first(), c)
    }
}

pub proof fn lemma_find_ix_from(s: Seq<char>, c: char, n: int)
    requires
        0 <= n <= s.len(),
        forall|i: int| 0 <= i < n ==> s[i] != c,
        n == s.len() || s[n] == c,
    ensures
        find_ix(s, c) == n,
    decreases s.len(),
{
    if s.len() == 0 {
    } else if n == 0 {
    } else {
        let d = s.drop_first();
        assert(forall|i: int| 0 <= i < n - 1 ==> #[trigger] d[i] == s[i + 1] && s[i + 1] != c);
        if n < s.len() {
            assert(d[n - 1] == s[n]);
        }
        lemma_find_ix_from(d, c, n - 1);
    }
}

/// Splits a verkey argument at its first colon into the key part and the
/// crypto-type tag. The tag is the text between the first and the second
/// colon (or the end): anything after a second colon is discarded.
pub open spec fn split_verkey(v: Seq<char>) -> (Seq<char>, Option<Seq<char>>) {
    let i = find_ix(v, ':');
    if i == v.len() {
        (v, None)
    } else {
        let rest = v.skip(i + 1);
        (v.take(i), Some(rest.take(find_ix(rest, ':'))))
    }
}

/// Expands the key part against the DID: a key starting with the marker `~`
/// denotes the base58 encoding of the DID's bytes followed by the tail's
/// bytes; any other key stands for itself. `None` when a needed base58
/// decoding fails.
pub open spec fn expand_key(did: Seq<char>, key: Seq<char>) -> Option<Seq<char>> {
    if key.len() > 0 && key[0] == '~' {
        match (decode_spec(did), decode_spec(key.skip(1))) {
            (Some(db), Some(kb)) => Some(encode_spec(db + kb)),
            _ => None,
        }
    } else {
        Some(key)
    }
}

/// Reattaches the crypto-type tag, if one was present.
pub open spec fn with_tag(key: Seq<char>, tag: Option<Seq<char>>) -> Seq<char> {
    match tag {
        Some(t) => key + seq![':'] + t,
        None => key,
    }
}

/// The resolved verkey: the DID itself when no verkey is given; otherwise
/// the verkey's key part, expanded if abbreviated, with its tag reattached.
/// `None` when a base58 decoding fails.
pub open spec fn resolve_spec(did: Seq<char>, verkey: Option<Seq<char>>) -> Option<Seq<char>> {
    match verkey {
        None => Some(did),
        Some(v) => {
            let kt = split_verkey(v);
            match expand_key(did, kt.0) {
                Some(k) => Some(with_tag(k, kt.1)),
                None => None,
            }
        },
    }
}

/// View of an optional verkey argument.
pub open spec fn vk_view(verkey: Option<&str>) -> Option<Seq<char>> {
    match verkey {
        Some(v) => Some(v@),
        None => None,
    }
}

/// Builds the full verkey that `verkey` denotes for the DID `dest`.
pub fn build_full_verkey(dest: &str, verkey: Option<&str>) -> (r: Result<String, DecodeError>)
    ensures
        match r {
            Ok(s) => resolve_spec(dest@, vk_view(verkey)) == Some(s@),
            Err(e) => resolve_spec(dest@, vk_view(verkey)) is None,
        },
{
    match verkey {
        None => Ok(dest.to_owned()),
        Some(vk) => {
            let n = vk.unicode_len();
            let mut i: usize = 0;
            loop
                invariant
                    n == vk@.len(),
                    i <= n,
                    forall|j: int| 0 <= j < i ==> vk@[j] != ':',
                ensures
                    i <= n,
                    forall|j: int| 0 <= j < i ==> vk@[j] != ':',
                    i == n || vk@[i as int] == ':',
                decreases n - i,
            {
                if i == n {
                    break ;
                }
                if vk.get_char(i) == ':' {
                    break ;
                }
                i += 1;
            }
            proof {
                lemma_find_ix_from(vk@, ':', i as int);
            }
            let ghost sv = split_verkey(vk@);
            let (key, tag): (&str, Option<&str>) = if i < n {
                let rest = vk.substring_char(i + 1, n);
                proof {
                    assert(rest@ =~= vk@.skip(i + 1));
                }
                let rn = rest.unicode_len();
                let mut j: usize = 0;
                loop
                    invariant
                        rn == rest@.len(),
                        j <= rn,
                        forall|p: int| 0 <= p < j ==> rest@[p] != ':',
                    ensures
                        j <= rn,
                        forall|p: int| 0 <= p < j ==> rest@[p] != ':',
                        j == rn || rest@[j as int] == ':',
                    decreases rn - j,
                {
                    if j == rn {
                        break ;
                    }
                    if rest.get_char(j) == ':' {
                        break ;
                    }
                    j += 1;
                }
                proof {
                    lemma_find_ix_from(rest@, ':', j as int);
                }
                let key = vk.substring_char(0, i);
                let tag = rest.substring_char(0, j);
                proof {
                    assert(key@ =~= vk@.take(i as int));
                    assert(tag@ =~= vk@.skip(i + 1).take(find_ix(vk@.skip(i + 1), ':')));
                    assert(sv.0 == key@ && sv.1 == Some(tag@));
                }
                (key, Some(tag))
            } else {
                proof {
                    assert(sv.0 == vk@ && sv.1 == None::<Seq<char>>);
                }
                (vk, None)
            };
            let klen = key.unicode_len();
            let key_string: String = if klen > 0 && key.get_char(0) == '~' {
                let dbytes = match decode(dest) {
                    Ok(b) => b,
                    Err(e) => {
                        return Err(e);
                    },
                };
                let tail = key.substring_char(1, klen);
                proof {
                    assert(tail@ =~= key@.skip(1));
                }
                let tbytes = match decode(tail) {
                    Ok(b) => b,
                    Err(e) => {
                        return Err(e);
                    },
                };
                let mut cat = dbytes;
                let ghost db = cat@;
                let mut p: usize = 0;
                while p < tbytes.len()
                    invariant
                        p <= tbytes@.len(),
                        cat@ == db + tbytes@.take(p as int),
                    decreases tbytes@.len() - p,
                {
                    cat.push(tbytes[p]);
                    proof {
                        assert(cat@ =~= db + tbytes@.take(p + 1));
                    }
                    p += 1;
                }
                proof {
                    assert(tbytes@.take(tbytes@.len() as int) =~= tbytes@);
                    assert(cat@ == db + tbytes@);
                }
                encode(&cat)
            } else {
                key.to_owned()
            };
            proof {
                assert(expand_key(dest@, sv.0) == Some(key_string@));
            }
            match tag {
                Some(t) => {
                    let mut out = key_string;
                    crate::base58::push_char(&mut out, ':');
                    out.append(t);
                    proof {
                        assert(out@ =~= key_string@ + seq![':'] + t@);
                    }
                    Ok(out)
                },
                None => Ok(key_string),
            }
        },
    }
}

/// With no verkey given, resolution returns the DID itself, for every DID.
pub proof fn lemma_resolve_cryptonym(did: Seq<char>)
    ensures
        resolve_spec(did, None::<Seq<char>>) == Some(did),
{
}

/// A plain verkey — no colon, not starting with the marker `~` — resolves
/// to itself, for every DID.
pub proof fn lemma_resolve_plain(did: Seq<char>, v: Seq<char>)
    requires
        forall|i: int| 0 <= i < v.len() ==> v[i] != ':',
        v.len() == 0 || v[0] != '~',
    ensures
        resolve_spec(did, Some(v)) == Some(v),
{
    lemma_find_ix_from(v, ':', v.len() as int);
}

/// Attaching a colon-free crypto-type tag to a colon-free verkey resolves
/// to the resolution of the bare verkey with the tag reattached, and fails
/// exactly when the bare verkey fails.
pub proof fn lemma_resolve_typed(did: Seq<char>, v: Seq<char>, t: Seq<char>)
    requires
        forall|i: int| 0 <= i < v.len() ==> v[i] != ':',
        forall|i: int| 0 <= i < t.len() ==> t[i] != ':',
    ensures
        resolve_spec(did, Some(v + seq![':'] + t)) == match resolve_spec(did, Some(v)) {
            Some(k) => Some(k + seq![':'] + t),
            None => None::<Seq<char>>,
        },
{
    let w = v + seq![':'] + t;
    assert(w.len() == v.len() + 1 + t.len());
    assert forall|i: int| 0 <= i < v.len() implies w[i] != ':' by {
        assert(w[i] == v[i]);
    }
    assert(w[v.len() as int] == ':');
    lemma_find_ix_from(w, ':', v.len() as int);
    assert(w.take(v.len() as int) =~= v);
    assert(w.skip(v.len() as int + 1) =~= t);
    lemma_find_ix_from(t, ':', t.len() as int);
    assert(t.take(t.len() as int) =~= t);
    lemma_find_ix_from(v, ':', v.len() as int);
    assert(split_verkey(w) == (v, Some(t)));
    assert(split_verkey(v) == (v, None::<Seq<char>>));
}

/// Abbreviation expansion: for byte sequences `d` and `e`, the abbreviated
/// verkey `~` + encode(e) against the DID encode(d) resolves to
/// encode(d + e), the DID's bytes coming first.
pub proof fn lemma_resolve_abbreviated(d: Seq<u8>, e: Seq<u8>)
    ensures
        resolve_spec(encode_spec(d), Some(seq!['~'] + encode_spec(e))) == Some(
            encode_spec(d + e),
        ),
{
    let did = encode_spec(d);
    let ek = encode_spec(e);
    let v = seq!['~'] + ek;
    lemma_encode_valid(e);
    assert(v[0] == '~');
    assert forall|i: int| 0 <= i < v.len() implies v[i] != ':' by {
        if i >= 1 {
            assert(v[i] == ek[i - 1]);
        }
    }
    lemma_find_ix_from(v, ':', v.len() as int);
    assert(split_verkey(v) == (v, None::<Seq<char>>));
    assert(v.skip(1) =~= ek);
    crate::base58::lemma_decode_encode(d);
    crate::base58::lemma_decode_encode(e);
    assert(expand_key(did, v) == Some(encode_spec(d + e)));
}

/// Abbreviation with a crypto-type tag: the tag is carried through unchanged
/// around the expanded key.
pub proof fn lemma_resolve_abbreviated_typed(d: Seq<u8>, e: Seq<u8>, t: Seq<char>)
    requires
        forall|i: int| 0 <= i < t.len() ==> t[i] != ':',
    ensures
        resolve_spec(encode_spec(d), Some(seq!['~'] + encode_spec(e) + seq![':'] + t)) == Some(
            encode_spec(d + e) + seq![':'] + t,
        ),
{
    let did = encode_spec(d);
    let ek = encode_spec(e);
    let v = seq!['~'] + ek;
    lemma_encode_valid(e);
    assert forall|i: int| 0 <= i < v.len() implies v[i] != ':' by {
        if i >= 1 {
            assert(v[i] == ek[i - 1]);
        }
    }
    lemma_resolve_typed(did, v, t);
    lemma_resolve_abbreviated(d, e);
    assert(seq!['~'] + ek + seq![':'] + t =~= v + seq![':'] + t);
}

/// A decoding failure in the DID or in the abbreviated tail surfaces as a
/// resolution failure.
pub proof fn lemma_resolve_decode_failure(did: Seq<char>, v: Seq<char>)
    requires
        forall|i: int| 0 <= i < v.len() ==> v[i] != ':',
        v.len() > 0,
        v[0] == '~',
        decode_spec(did) is None || decode_spec(v.skip(1)) is None,
    ensures
        resolve_spec(did, Some(v)) is None,
{
    lemma_find_ix_from(v, ':', v.len() as int);
    assert(split_verkey(v) == (v, None::<Seq<char>>));
}

} // verus!
