//! Decoding of `application/x-www-form-urlencoded` request bodies.
//!
//! A body is a sequence of `&`-separated pairs; each pair is split at its
//! first `=` into a key and a value (a pair without `=` has an empty value).
//! Within keys and values, `+` decodes to a space and `%XY` (two hex digits)
//! decodes to the byte `16 * X + Y`. A body is well formed when every `%` in
//! every key and value starts such a two-digit escape.

use vstd::prelude::*;

use crate::FormData;

verus! {

/// Byte value of `%`.
pub const PERCENT: u8 = 37;
/// Byte value of `+`.
pub const PLUS: u8 = 43;
/// Byte value of a space.
pub const SPACE: u8 = 32;
/// Byte value of `&`.
pub const AMPERSAND: u8 = 38;
/// Byte value of `=`.
pub const EQUALS: u8 = 61;

/// Whether `b` is an ASCII hexadecimal digit (`0-9`, `a-f`, `A-F`).
pub open spec fn is_hex_digit(b: u8) -> bool {
    (48 <= b && b <= 57) || (97 <= b && b <= 102) || (65 <= b && b <= 70)
}

/// The numeric value of the hexadecimal digit `b`.
pub open spec fn hex_val(b: u8) -> u8 {
    if 48 <= b && b <= 57 {
        (b - 48) as u8
    } else if 97 <= b && b <= 102 {
        (b - 87) as u8
    } else {
        (b - 55) as u8
    }
}

/// Whether every `%` in `s` starts a two-hex-digit escape.
pub open spec fn escapes_well_formed(s: Seq<u8>) -> bool
    decreases s.len(),
{
    if s.len() == 0 {
        true
    } else if s[0] == PERCENT {
        s.len() >= 3 && is_hex_digit(s[1]) && is_hex_digit(s[2]) && escapes_well_formed(
            s.subrange(3, s.len() as int),
        )
    } else {
        escapes_well_formed(s.drop_first())
    }
}

/// The percent- and plus-decoding of `s`. A `%` that does not start a
/// two-hex-digit escape is kept literally; on well-formed input that case
/// never arises.
pub open spec fn decoded(s: Seq<u8>) -> Seq<u8>
    decreases s.len(),
{
    if s.len() == 0 {
        Seq::<u8>::empty()
    } else if s[0] == PERCENT && s.len() >= 3 && is_hex_digit(s[1]) && is_hex_digit(s[2]) {
        seq![(16 * hex_val(s[1]) + hex_val(s[2])) as u8] + decoded(s.subrange(3, s.len() as int))
    } else if s[0] == PLUS {
        seq![SPACE] + decoded(s.drop_first())
    } else {
        seq![s[0]] + decoded(s.drop_first())
    }
}

/// Decodes one key or value: `+` becomes a space, `%XY` becomes a byte.
/// Fails exactly when some `%` does not start a two-hex-digit escape.
pub fn decode_component(s: &[u8]) -> (r: Result<Vec<u8>, ()>)
    ensures
        r is Ok <==> escapes_well_formed(s@),
        r is Ok ==> r->Ok_0@ == decoded(s@),
{
    let mut out: Vec<u8> = Vec::new();
    let mut i: usize = 0;
    proof {
        assert(s@.subrange(0, s@.len() as int) =~= s@);
    }
    while i < s.len()
        invariant
            i <= s.len(),
            decoded(s@) == out@ + decoded(s@.subrange(i as int, s@.len() as int)),
            escapes_well_formed(s@) <==> escapes_well_formed(
                s@.subrange(i as int, s@.len() as int),
            ),
        decreases s.len() - i,
    {
        let ghost suffix = s@.subrange(i as int, s@.len() as int);
        let b = s[i];
        assert(suffix[0] == b);
        if b == PERCENT {
            if s.len() - i >= 3 && is_hex_digit_exec(s[i + 1]) && is_hex_digit_exec(s[i + 2]) {
                let hi = hex_val_exec(s[i + 1]);
                let lo = hex_val_exec(s[i + 2]);
                assert(suffix[1] == s@[i + 1] && suffix[2] == s@[i + 2]);
                out.push(16 * hi + lo);
                proof {
                    assert(suffix.subrange(3, suffix.len() as int) =~= s@.subrange(
                        i + 3,
                        s@.len() as int,
                    ));
                }
                i = i + 3;
            } else {
                proof {
                    assert(!escapes_well_formed(suffix));
                }
                return Err(());
            }
        } else {
            if b == PLUS {
                out.push(SPACE);
            } else {
                out.push(b);
            }
            proof {
                assert(suffix.drop_first() =~= s@.subrange(i + 1, s@.len() as int));
            }
            i = i + 1;
        }
    }
    proof {
        assert(s@.subrange(i as int, s@.len() as int) =~= Seq::<u8>::empty());
        assert(out@ =~= decoded(s@));
    }
    Ok(out)
}

/// The index of the first occurrence of `sep` in `s`, or `s.len()` when
/// `sep` does not occur.
pub open spec fn find_sep(s: Seq<u8>, sep: u8) -> int
    decreases s.len(),
{
    if s.len() == 0 {
        0
    } else if s[0] == sep {
        0
    } else {
        1 + find_sep(s.drop_first(), sep)
    }
}

/// `find_sep` points at the first occurrence of `sep`, or past the end.
pub proof fn lemma_find_sep(s: Seq<u8>, sep: u8)
    ensures
        0 <= find_sep(s, sep) <= s.len(),
        forall|j: int| 0 <= j < find_sep(s, sep) ==> s[j] != sep,
        find_sep(s, sep) < s.len() ==> s[find_sep(s, sep)] == sep,
    decreases s.len(),
{
    if s.len() > 0 && s[0] != sep {
        lemma_find_sep(s.drop_first(), sep);
        assert forall|j: int| 0 <= j < find_sep(s, sep) implies s[j] != sep by {
            if j > 0 {
                assert(s.drop_first()[j - 1] == s[j]);
            }
        }
    }
}

/// Any index with no occurrence of `sep` before it, and `sep` (or the end)
/// at it, is `find_sep`.
pub proof fn lemma_find_sep_is(s: Seq<u8>, sep: u8, i: int)
    requires
        0 <= i <= s.len(),
        forall|j: int| 0 <= j < i ==> s[j] != sep,
        i < s.len() ==> s[i] == sep,
    ensures
        find_sep(s, sep) == i,
    decreases s.len(),
{
    if s.len() > 0 && s[0] != sep {
        lemma_find_sep_is(s.drop_first(), sep, i - 1);
    }
}

/// The segments of `s`: the (possibly empty) stretches between occurrences
/// of `sep`. The empty sequence has one empty segment.
pub open spec fn split_on(s: Seq<u8>, sep: u8) -> Seq<Seq<u8>>
    decreases s.len(),
    via split_on_decreases
{
    let i = find_sep(s, sep);
    if i == s.len() {
        seq![s]
    } else {
        seq![s.subrange(0, i)] + split_on(s.subrange(i + 1, s.len() as int), sep)
    }
}

#[via_fn]
proof fn split_on_decreases(s: Seq<u8>, sep: u8) {
    lemma_find_sep(s, sep);
}

/// Splits `s` at each occurrence of `sep`.
pub fn split_on_exec(s: &[u8], sep: u8) -> (r: Vec<Vec<u8>>)
    ensures
        r@.map_values(|v: Vec<u8>| v@) == split_on(s@, sep),
{
    let mut out: Vec<Vec<u8>> = Vec::new();
    let mut start: usize = 0;
    let mut i: usize = 0;
    proof {
        assert(s@.subrange(0, s@.len() as int) =~= s@);
        assert(out@.map_values(|v: Vec<u8>| v@) =~= Seq::<Seq<u8>>::empty());
    }
    while i < s.len()
        invariant
            start <= i <= s.len(),
            forall|j: int| start <= j < i ==> s@[j] != sep,
            split_on(s@, sep) == out@.map_values(|v: Vec<u8>| v@) + split_on(
                s@.subrange(start as int, s@.len() as int),
                sep,
            ),
        decreases s.len() - i,
    {
        if s[i] == sep {
            let ghost suffix = s@.subrange(start as int, s@.len() as int);
            let seg = slice_to_vec(s, start, i);
            proof {
                assert(forall|j: int| 0 <= j < i - start ==> suffix[j] == s@[start + j]);
                lemma_find_sep_is(suffix, sep, i - start);
                assert(suffix.subrange(0, i - start) =~= s@.subrange(start as int, i as int));
                assert(suffix.subrange(i - start + 1, suffix.len() as int) =~= s@.subrange(
                    i + 1,
                    s@.len() as int,
                ));
                assert(split_on(suffix, sep) =~= seq![seg@] + split_on(
                    s@.subrange(i + 1, s@.len() as int),
                    sep,
                ));
            }
            let ghost prev = out@;
            out.push(seg);
            proof {
                assert(out@.map_values(|v: Vec<u8>| v@) =~= prev.map_values(|v: Vec<u8>| v@)
                    + seq![seg@]);
            }
            start = i + 1;
            i = i + 1;
        } else {
            i = i + 1;
        }
    }
    let ghost suffix = s@.subrange(start as int, s@.len() as int);
    let seg = slice_to_vec(s, start, s.len());
    proof {
        assert(forall|j: int| 0 <= j < suffix.len() ==> suffix[j] == s@[start + j]);
        lemma_find_sep_is(suffix, sep, suffix.len() as int);
        assert(seg@ =~= suffix);
    }
    let ghost prev = out@;
    out.push(seg);
    proof {
        assert(out@.map_values(|v: Vec<u8>| v@) =~= prev.map_values(|v: Vec<u8>| v@)
            + seq![seg@]);
    }
    out
}

/// The raw (still encoded) key of a pair: everything before the first `=`,
/// or the whole pair when it has no `=`.
pub open spec fn seg_key(seg: Seq<u8>) -> Seq<u8> {
    seg.subrange(0, find_sep(seg, EQUALS))
}

/// The raw (still encoded) value of a pair: everything after the first `=`,
/// or empty when the pair has no `=`.
pub open spec fn seg_value(seg: Seq<u8>) -> Seq<u8> {
    if find_sep(seg, EQUALS) == seg.len() {
        Seq::<u8>::empty()
    } else {
        seg.subrange(find_sep(seg, EQUALS) + 1, seg.len() as int)
    }
}

/// Splits one pair at its first `=` into its raw key and raw value.
pub fn split_pair(seg: &[u8]) -> (r: (Vec<u8>, Vec<u8>))
    ensures
        r.0@ == seg_key(seg@),
        r.1@ == seg_value(seg@),
{
    let mut i: usize = 0;
    while i < seg.len() && seg[i] != EQUALS
        invariant
            i <= seg.len(),
            forall|j: int| 0 <= j < i ==> seg@[j] != EQUALS,
        decreases seg.len() - i,
    {
        i = i + 1;
    }
    proof {
        lemma_find_sep_is(seg@, EQUALS, i as int);
    }
    let key = slice_to_vec(seg, 0, i);
    let value = if i < seg.len() {
        slice_to_vec(seg, i + 1, seg.len())
    } else {
        Vec::new()
    };
    proof {
        if i == seg.len() {
            assert(value@ =~= seg_value(seg@));
        }
    }
    (key, value)
}

/// The decoded key `email`, as bytes.
pub open spec fn email_key() -> Seq<u8> {
    seq![101u8, 109u8, 97u8, 105u8, 108u8]
}

/// The decoded key `name`, as bytes.
pub open spec fn name_key() -> Seq<u8> {
    seq![110u8, 97u8, 109u8, 101u8]
}

/// Whether `k` spells `email`.
pub fn is_email_key(k: &[u8]) -> (r: bool)
    ensures
        r == (k@ == email_key()),
{
    let r = k.len() == 5 && k[0] == 101 && k[1] == 109 && k[2] == 97 && k[3] == 105 && k[4]
        == 108;
    proof {
        if r {
            assert(k@ =~= email_key());
        }
    }
    r
}

/// Whether `k` spells `name`.
pub fn is_name_key(k: &[u8]) -> (r: bool)
    ensures
        r == (k@ == name_key()),
{
    let r = k.len() == 4 && k[0] == 110 && k[1] == 97 && k[2] == 109 && k[3] == 101;
    proof {
        if r {
            assert(k@ =~= name_key());
        }
    }
    r
}

/// Whether some pair's decoded key equals `key`.
pub open spec fn has_key_in(segs: Seq<Seq<u8>>, key: Seq<u8>) -> bool
    decreases segs.len(),
{
    if segs.len() == 0 {
        false
    } else if decoded(seg_key(segs[0])) == key {
        true
    } else {
        has_key_in(segs.drop_first(), key)
    }
}

/// The decoded value of the first pair whose decoded key equals `key`
/// (empty when there is none).
pub open spec fn lookup_in(segs: Seq<Seq<u8>>, key: Seq<u8>) -> Seq<u8>
    decreases segs.len(),
{
    if segs.len() == 0 {
        Seq::<u8>::empty()
    } else if decoded(seg_key(segs[0])) == key {
        decoded(seg_value(segs[0]))
    } else {
        lookup_in(segs.drop_first(), key)
    }
}

/// When no pair among the first `k` carries `key`, the search over all of
/// `segs` is the search over the remaining pairs.
pub proof fn lemma_search_skip(segs: Seq<Seq<u8>>, key: Seq<u8>, k: int)
    requires
        0 <= k <= segs.len(),
        forall|i: int| 0 <= i < k ==> decoded(seg_key(#[trigger] segs[i])) != key,
    ensures
        has_key_in(segs, key) == has_key_in(segs.skip(k), key),
        lookup_in(segs, key) == lookup_in(segs.skip(k), key),
    decreases k,
{
    if k > 0 {
        lemma_search_skip(segs, key, k - 1);
        let tail = segs.skip(k - 1);
        assert(tail[0] == segs[k - 1]);
        assert(decoded(seg_key(segs[k - 1])) != key);
        assert(tail.drop_first() =~= segs.skip(k));
        assert(has_key_in(tail, key) == has_key_in(segs.skip(k), key));
        assert(lookup_in(tail, key) == lookup_in(segs.skip(k), key));
    } else {
        assert(segs.skip(0) =~= segs);
    }
}

/// The pairs of a body: its `&`-separated stretches.
pub open spec fn body_segments(body: Seq<u8>) -> Seq<Seq<u8>> {
    split_on(body, AMPERSAND)
}

/// Whether every key and value of the body percent-decodes.
pub open spec fn body_well_formed(body: Seq<u8>) -> bool {
    forall|i: int|
        0 <= i < body_segments(body).len() ==> escapes_well_formed(
            seg_key(#[trigger] body_segments(body)[i]),
        ) && escapes_well_formed(seg_value(body_segments(body)[i]))
}

/// Whether some pair of the body has the decoded key `key`.
pub open spec fn body_has_key(body: Seq<u8>, key: Seq<u8>) -> bool {
    has_key_in(body_segments(body), key)
}

/// The decoded value of the body's first pair with decoded key `key`.
pub open spec fn body_lookup(body: Seq<u8>, key: Seq<u8>) -> Seq<u8> {
    lookup_in(body_segments(body), key)
}

/// Whether the body decodes into the two-field subscription form: every
/// pair percent-decodes and both `email` and `name` occur among the keys.
pub open spec fn form_decodes(body: Seq<u8>) -> bool {
    body_well_formed(body) && body_has_key(body, email_key()) && body_has_key(body, name_key())
}

/// Why a body failed to decode into the subscription form.
#[derive(Debug, PartialEq, Eq, Structural, Clone, Copy)]
pub enum DecodeError {
    /// Some `%` in a key or value does not start a two-hex-digit escape.
    InvalidEncoding,
    /// No pair has the key `email`.
    MissingEmail,
    /// No pair has the key `name`.
    MissingName,
}

/// Decodes a request body into the subscription form.
///
/// Succeeds exactly when the body is well formed and both `email` and
/// `name` occur among the decoded keys; each field is the decoded value of
/// the first pair with that key. Otherwise the error says what failed,
/// ill-formed escapes taking precedence over missing keys, and a missing
/// `email` over a missing `name`.
pub fn parse_form_body(body: &[u8]) -> (r: Result<FormData, DecodeError>)
    ensures
        r is Ok <==> form_decodes(body@),
        r matches Ok(f) ==> f.email@ == body_lookup(body@, email_key()) && f.name@ == body_lookup(
            body@,
            name_key(),
        ),
        !body_well_formed(body@) ==> r == Err::<FormData, DecodeError>(DecodeError::InvalidEncoding),
        body_well_formed(body@) && !body_has_key(body@, email_key()) ==> r == Err::<FormData, DecodeError>(DecodeError::MissingEmail),
        body_well_formed(body@) && body_has_key(body@, email_key()) && !body_has_key(
            body@,
            name_key(),
        ) ==> r == Err::<FormData, DecodeError>(DecodeError::MissingName),
{
    let segs = split_on_exec(body, AMPERSAND);
    let ghost sv = segs@.map_values(|v: Vec<u8>| v@);
    let mut email: Option<Vec<u8>> = None;
    let mut name: Option<Vec<u8>> = None;
    let mut j: usize = 0;
    while j < segs.len()
        invariant
            j <= segs.len(),
            sv == segs@.map_values(|v: Vec<u8>| v@),
            sv == body_segments(body@),
            forall|i: int|
                0 <= i < j ==> escapes_well_formed(seg_key(#[trigger] sv[i]))
                    && escapes_well_formed(seg_value(sv[i])),
            email is None ==> forall|i: int|
                0 <= i < j ==> decoded(seg_key(#[trigger] sv[i])) != email_key(),
            email matches Some(v) ==> has_key_in(sv, email_key()) && v@ == lookup_in(
                sv,
                email_key(),
            ),
            name is None ==> forall|i: int|
                0 <= i < j ==> decoded(seg_key(#[trigger] sv[i])) != name_key(),
            name matches Some(v) ==> has_key_in(sv, name_key()) && v@ == lookup_in(
                sv,
                name_key(),
            ),
        decreases segs.len() - j,
    {
        proof {
            assert(sv[j as int] == segs@[j as int]@);
        }
        let (rk, rv) = split_pair(segs[j].as_slice());
        let dk = match decode_component(rk.as_slice()) {
            Ok(d) => d,
            Err(()) => {
                proof {
                    assert(!(escapes_well_formed(seg_key(body_segments(body@)[j as int]))
                        && escapes_well_formed(seg_value(body_segments(body@)[j as int]))));
                    assert(!body_well_formed(body@));
                }
                return Err(DecodeError::InvalidEncoding);
            },
        };
        let dv = match decode_component(rv.as_slice()) {
            Ok(d) => d,
            Err(()) => {
                proof {
                    assert(!(escapes_well_formed(seg_key(body_segments(body@)[j as int]))
                        && escapes_well_formed(seg_value(body_segments(body@)[j as int]))));
                    assert(!body_well_formed(body@));
                }
                return Err(DecodeError::InvalidEncoding);
            },
        };
        if email.is_none() && is_email_key(dk.as_slice()) {
            proof {
                lemma_search_skip(sv, email_key(), j as int);
                assert(sv.skip(j as int)[0] == sv[j as int]);
            }
            email = Some(dv);
        } else if name.is_none() && is_name_key(dk.as_slice()) {
            proof {
                lemma_search_skip(sv, name_key(), j as int);
                assert(sv.skip(j as int)[0] == sv[j as int]);
            }
            name = Some(dv);
        }
        j = j + 1;
    }
    proof {
        if email is None {
            lemma_search_skip(sv, email_key(), sv.len() as int);
            assert(sv.skip(sv.len() as int) =~= Seq::<Seq<u8>>::empty());
        }
        if name is None {
            lemma_search_skip(sv, name_key(), sv.len() as int);
            assert(sv.skip(sv.len() as int) =~= Seq::<Seq<u8>>::empty());
        }
    }
    match (email, name) {
        (Some(e), Some(n)) => Ok(FormData { email: e, name: n }),
        (None, _) => Err(DecodeError::MissingEmail),
        (_, None) => Err(DecodeError::MissingName),
    }
}

/// Copies `s[from..to]` into a fresh vector.
pub fn slice_to_vec(s: &[u8], from: usize, to: usize) -> (r: Vec<u8>)
    requires
        from <= to <= s@.len(),
    ensures
        r@ == s@.subrange(from as int, to as int),
{
    let mut out: Vec<u8> = Vec::new();
    let mut i: usize = from;
    proof {
        assert(out@ =~= s@.subrange(from as int, from as int));
    }
    while i < to
        invariant
            from <= i <= to <= s@.len(),
            out@ == s@.subrange(from as int, i as int),
        decreases to - i,
    {
        out.push(s[i]);
        proof {
            assert(s@.subrange(from as int, i + 1) =~= s@.subrange(from as int, i as int)
                + seq![s@[i as int]]);
        }
        i = i + 1;
    }
    out
}

/// Executable check that `b` is an ASCII hexadecimal digit.
pub fn is_hex_digit_exec(b: u8) -> (r: bool)
    ensures
        r == is_hex_digit(b),
{
    (48 <= b && b <= 57) || (97 <= b && b <= 102) || (65 <= b && b <= 70)
}

/// Executable value of the hexadecimal digit `b`.
pub fn hex_val_exec(b: u8) -> (r: u8)
    requires
        is_hex_digit(b),
    ensures
        r == hex_val(b),
        r < 16,
{
    if 48 <= b && b <= 57 {
        b - 48
    } else if 97 <= b && b <= 102 {
        b - 87
    } else {
        b - 55
    }
}

} // verus!
