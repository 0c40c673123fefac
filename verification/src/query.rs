use vstd::prelude::*;

verus! {

use vstd::utf8::{valid_utf8, decode_utf8};

// ---------------------------------------------------------------------------
// Spec model of the query-string binding.
//
// A query string such as `query=rust&limit=5` is a list of `&`-separated
// pairs.  Each pair is split at its first `=` into a key and a value (a pair
// without `=` has an empty value), and both sides are decoded: `+` becomes a
// space and `%XY` with two hex digits becomes the byte `0xXY`; a `%` that is
// not followed by two hex digits stays as it is.  The pair whose decoded key
// is `query` binds the required text parameter, the pair whose decoded key is
// `limit` binds the optional result count, every other pair is ignored.
// ---------------------------------------------------------------------------

/// Decimal digit, as a byte.
pub open spec fn is_digit(b: u8) -> bool {
    48 <= b && b <= 57
}

/// Hexadecimal digit, as a byte, either case.
pub open spec fn is_hex_digit(b: u8) -> bool {
    is_digit(b) || (97 <= b && b <= 102) || (65 <= b && b <= 70)
}

/// Value of one hexadecimal digit.
pub open spec fn hex_val(b: u8) -> u8
    recommends
        is_hex_digit(b),
{
    if is_digit(b) {
        (b - 48) as u8
    } else if 97 <= b && b <= 102 {
        (b - 87) as u8
    } else {
        (b - 55) as u8
    }
}

/// Index of the first occurrence of `c` in `s`, or `s.len()` if absent.
pub open spec fn first_pos(s: Seq<u8>, c: u8) -> nat
    decreases s.len(),
{
    if s.len() == 0 {
        0
    } else if s[0] == c {
        0
    } else {
        1 + first_pos(s.skip(1), c)
    }
}

/// `first_pos` is the position characterised by "nothing before it, and it
/// is an occurrence unless it is the length".
pub proof fn lemma_first_pos_at(s: Seq<u8>, c: u8, m: int)
    requires
        0 <= m <= s.len(),
        forall|k: int| 0 <= k < m ==> s[k] != c,
        m < s.len() ==> s[m] == c,
    ensures
        first_pos(s, c) == m,
    decreases m,
{
    if m == 0 {
        if s.len() > 0 && s[0] != c {
            assert(m < s.len() ==> s[m] == c);
            assert(false);
        }
    } else {
        assert(s[0] != c);
        assert forall|k: int| 0 <= k < m - 1 implies s.skip(1)[k] != c by {
            assert(s.skip(1)[k] == s[k + 1]);
        }
        if m - 1 < s.skip(1).len() {
            assert(s.skip(1)[m - 1] == s[m]);
        }
        lemma_first_pos_at(s.skip(1), c, m - 1);
    }
}

/// The `&`-separated pairs of a query string.  An empty string yields one
/// empty pair, which binds nothing.
pub open spec fn pairs(s: Seq<u8>) -> Seq<Seq<u8>>
    decreases s.len(),
{
    let p = first_pos(s, 38);  // `&`
    if p >= s.len() {
        seq![s]
    } else {
        seq![s.take(p as int)] + pairs(s.skip(p as int + 1))
    }
}

/// The part of a pair before its first `=`.
pub open spec fn raw_key(p: Seq<u8>) -> Seq<u8> {
    p.take(first_pos(p, 61) as int)  // `=`
}

/// The part of a pair after its first `=`, empty if there is none.
pub open spec fn raw_val(p: Seq<u8>) -> Seq<u8> {
    let e = first_pos(p, 61);
    if e >= p.len() {
        Seq::empty()
    } else {
        p.skip(e as int + 1)
    }
}

/// Plus and percent decoding.  Total: a malformed escape stays verbatim.
pub open spec fn decoded(s: Seq<u8>) -> Seq<u8>
    decreases s.len(),
{
    if s.len() == 0 {
        Seq::empty()
    } else if s[0] == 43 {  // `+`
        seq![32u8] + decoded(s.skip(1))
    } else if s[0] == 37 && s.len() >= 3 && is_hex_digit(s[1]) && is_hex_digit(s[2]) {  // `%`
        seq![(hex_val(s[1]) * 16 + hex_val(s[2])) as u8] + decoded(s.skip(3))
    } else {
        seq![s[0]] + decoded(s.skip(1))
    }
}

/// Every byte a decimal digit.
pub open spec fn all_digits(v: Seq<u8>) -> bool {
    forall|i: int| 0 <= i < v.len() ==> is_digit(v[i])
}

/// Value of a digit string, most significant digit first.
pub open spec fn dec_val(v: Seq<u8>) -> int
    decreases v.len(),
{
    if v.len() == 0 {
        0
    } else {
        dec_val(v.drop_last()) * 10 + (v.last() - 48)
    }
}

/// The digits of a limit literal: an optional leading `+` sign is accepted,
/// as the standard unsigned-integer grammar has it.
pub open spec fn digits_part(v: Seq<u8>) -> Seq<u8> {
    if v.len() > 0 && v[0] == 43 {
        v.skip(1)
    } else {
        v
    }
}

/// The limit a value binds to: a non-empty digit string that fits the
/// machine's word, or nothing.
pub open spec fn limit_of(v: Seq<u8>) -> Option<int> {
    let d = digits_part(v);
    if d.len() > 0 && all_digits(d) && dec_val(d) <= usize::MAX {
        Option::Some(dec_val(d))
    } else {
        Option::None
    }
}

/// The bytes of the key `query`.
pub open spec fn query_key() -> Seq<u8> {
    seq![113u8, 117u8, 101u8, 114u8, 121u8]
}

/// The bytes of the key `limit`.
pub open spec fn limit_key() -> Seq<u8> {
    seq![108u8, 105u8, 109u8, 105u8, 116u8]
}

/// Why a request fails to bind.  Each variant is a client error: the
/// response is a 4xx status and the engine is not consulted.
#[derive(Clone, Copy, PartialEq, Eq, Structural, Debug)]
pub enum BindError {
    /// No pair binds `query`.
    MissingQuery,
    /// Two pairs bind `query`.
    DuplicateQuery,
    /// Two pairs bind `limit`.
    DuplicateLimit,
    /// The `limit` value is not an unsigned integer of machine size.
    InvalidLimit,
}

/// Binding, pair by pair, carrying the values bound so far.  The first
/// offending pair decides the error; a missing `query` shows only at the
/// end; an absent `limit` defaults to 30.
pub open spec fn bind_pairs(
    ps: Seq<Seq<u8>>,
    q: Option<Seq<u8>>,
    l: Option<int>,
) -> Result<(Seq<u8>, int), BindError>
    decreases ps.len(),
{
    if ps.len() == 0 {
        match q {
            Option::Some(qv) => Result::Ok(
                (
                    qv,
                    match l {
                        Option::Some(n) => n,
                        Option::None => 30,
                    },
                ),
            ),
            Option::None => Result::Err(BindError::MissingQuery),
        }
    } else {
        let k = decoded(raw_key(ps[0]));
        if k == query_key() {
            if q is Some {
                Result::Err(BindError::DuplicateQuery)
            } else {
                bind_pairs(ps.skip(1), Option::Some(decoded(raw_val(ps[0]))), l)
            }
        } else if k == limit_key() {
            if l is Some {
                Result::Err(BindError::DuplicateLimit)
            } else {
                match limit_of(decoded(raw_val(ps[0]))) {
                    Option::Some(n) => bind_pairs(ps.skip(1), q, Option::Some(n)),
                    Option::None => Result::Err(BindError::InvalidLimit),
                }
            }
        } else {
            bind_pairs(ps.skip(1), q, l)
        }
    }
}

/// What a whole query string binds to: the decoded `query` value and the
/// effective limit, or the error the client is owed.
pub open spec fn bind_query_string(s: Seq<u8>) -> Result<(Seq<u8>, int), BindError> {
    bind_pairs(pairs(s), Option::None, Option::None)
}

// ---------------------------------------------------------------------------
// Executable binding.
// ---------------------------------------------------------------------------

/// A bound search request: the text to search for and how many results the
/// engine is asked for.
#[derive(Debug)]
pub struct SearchQuery {
    pub query: String,
    pub limit: usize,
}

/// Number of results requested from the engine when the client supplies
/// no `limit` parameter.
pub fn default_limit() -> (n: usize)
    ensures
        n == 30,
{
    30
}

/// What a decoded value seen as replacement-tolerant text is.  Relies on
/// `String::from_utf8_lossy`; the outcome depends on the bytes alone.
pub uninterp spec fn lossy_decoded(b: Seq<u8>) -> Seq<char>;

/// Relies on `String::from_utf8_lossy`: valid UTF-8 converts without
/// replacement, anything else is a function of the bytes alone.
#[verifier::external_body]
fn utf8_lossy(b: &[u8]) -> (r: String)
    ensures
        r@ == lossy_decoded(b@),
        valid_utf8(b@) ==> r@ == decode_utf8(b@),
{
    String::from_utf8_lossy(b).into_owned()
}

/// First position of `c` in `s` at or after `from`, or the length.
fn find_byte(s: &[u8], from: usize, c: u8) -> (j: usize)
    requires
        from <= s@.len(),
    ensures
        from <= j <= s@.len(),
        forall|k: int| from <= k < j ==> s@[k] != c,
        j < s@.len() ==> s@[j as int] == c,
{
    let mut j: usize = from;
    while j < s.len()
        invariant
            from <= j <= s@.len(),
            forall|k: int| from <= k < j ==> s@[k] != c,
        decreases s@.len() - j,
    {
        if s[j] == c {
            return j;
        }
        j = j + 1;
    }
    j
}

pub(crate) fn is_hex_digit_x(b: u8) -> (r: bool)
    ensures
        r == is_hex_digit(b),
{
    (48 <= b && b <= 57) || (97 <= b && b <= 102) || (65 <= b && b <= 70)
}

pub(crate) fn hex_val_x(b: u8) -> (v: u8)
    requires
        is_hex_digit(b),
    ensures
        v == hex_val(b),
        v <= 15,
{
    if b <= 57 {
        b - 48
    } else if b >= 97 {
        b - 87
    } else {
        b - 55
    }
}

/// Plus and percent decoding of one component.
fn decode_component(s: &[u8]) -> (out: Vec<u8>)
    ensures
        out@ == decoded(s@),
{
    let mut out: Vec<u8> = Vec::new();
    let mut i: usize = 0;
    proof {
        assert(s@.skip(0) =~= s@);
        assert(out@ + decoded(s@) =~= decoded(s@));
    }
    while i < s.len()
        invariant
            i <= s@.len(),
            decoded(s@) == out@ + decoded(s@.skip(i as int)),
        decreases s@.len() - i,
    {
        let b = s[i];
        if b == 43 {
            out.push(32);
            proof {
                assert(s@.skip(i as int).skip(1) =~= s@.skip(i as int + 1));
                assert(decoded(s@) =~= out@ + decoded(s@.skip(i as int + 1)));
            }
            i = i + 1;
        } else if b == 37 && s.len() - i >= 3 && is_hex_digit_x(s[i + 1]) && is_hex_digit_x(
            s[i + 2],
        ) {
            let v: u8 = hex_val_x(s[i + 1]) * 16 + hex_val_x(s[i + 2]);
            out.push(v);
            proof {
                assert(s@.skip(i as int)[1] == s@[i as int + 1]);
                assert(s@.skip(i as int)[2] == s@[i as int + 2]);
                assert(s@.skip(i as int).skip(3) =~= s@.skip(i as int + 3));
                assert(decoded(s@) =~= out@ + decoded(s@.skip(i as int + 3)));
            }
            i = i + 3;
        } else {
            out.push(b);
            proof {
                if b == 37 && s@.skip(i as int).len() >= 3 {
                    assert(s@.skip(i as int)[1] == s@[i as int + 1]);
                    assert(s@.skip(i as int)[2] == s@[i as int + 2]);
                }
                assert(s@.skip(i as int).skip(1) =~= s@.skip(i as int + 1));
                assert(decoded(s@) =~= out@ + decoded(s@.skip(i as int + 1)));
            }
            i = i + 1;
        }
    }
    proof {
        assert(s@.skip(s@.len() as int) =~= Seq::<u8>::empty());
        assert(out@ =~= decoded(s@));
    }
    out
}

fn is_query_key(k: &[u8]) -> (r: bool)
    ensures
        r == (k@ == query_key()),
{
    let r = k.len() == 5 && k[0] == 113 && k[1] == 117 && k[2] == 101 && k[3] == 114 && k[4]
        == 121;
    proof {
        if r {
            assert(k@ =~= query_key());
        }
        if k@ == query_key() {
            assert(k@.len() == 5);
            assert(k@[0] == 113 && k@[1] == 117 && k@[2] == 101 && k@[3] == 114 && k@[4] == 121);
        }
    }
    r
}

fn is_limit_key(k: &[u8]) -> (r: bool)
    ensures
        r == (k@ == limit_key()),
{
    let r = k.len() == 5 && k[0] == 108 && k[1] == 105 && k[2] == 109 && k[3] == 105 && k[4]
        == 116;
    proof {
        if r {
            assert(k@ =~= limit_key());
        }
        if k@ == limit_key() {
            assert(k@.len() == 5);
            assert(k@[0] == 108 && k@[1] == 105 && k@[2] == 109 && k@[3] == 105 && k@[4] == 116);
        }
    }
    r
}

pub proof fn lemma_dec_val_nonneg(v: Seq<u8>)
    requires
        all_digits(v),
    ensures
        dec_val(v) >= 0,
    decreases v.len(),
{
    if v.len() > 0 {
        assert forall|k: int| 0 <= k < v.drop_last().len() implies is_digit(v.drop_last()[k]) by {
            assert(v.drop_last()[k] == v[k]);
        }
        lemma_dec_val_nonneg(v.drop_last());
    }
}

/// A digit string's value only grows as digits are appended.
pub proof fn lemma_dec_val_mono(v: Seq<u8>, i: int)
    requires
        0 <= i <= v.len(),
        all_digits(v),
    ensures
        dec_val(v.take(i)) <= dec_val(v),
    decreases v.len() - i,
{
    if i == v.len() {
        assert(v.take(i) =~= v);
    } else {
        assert forall|k: int| 0 <= k < v.take(i).len() implies is_digit(v.take(i)[k]) by {
            assert(v.take(i)[k] == v[k]);
        }
        lemma_dec_val_nonneg(v.take(i));
        assert(v.take(i + 1).drop_last() =~= v.take(i));
        assert(v.take(i + 1).last() == v[i]);
        assert(dec_val(v.take(i + 1)) == dec_val(v.take(i)) * 10 + (v[i] - 48));
        lemma_dec_val_mono(v, i + 1);
    }
}

/// Parse a decoded `limit` value.
fn parse_limit_bytes(v: &[u8]) -> (r: Option<usize>)
    ensures
        match r {
            Option::Some(n) => limit_of(v@) == Option::Some(n as int),
            Option::None => limit_of(v@) is None,
        },
{
    let d: &[u8] = if v.len() > 0 && v[0] == 43 {
        &v[1..v.len()]
    } else {
        &v[0..v.len()]
    };
    proof {
        assert(d@ =~= digits_part(v@));
    }
    if d.len() == 0 {
        return Option::None;
    }
    let mut acc: usize = 0;
    let mut i: usize = 0;
    while i < d.len()
        invariant
            i <= d@.len(),
            d@ == digits_part(v@),
            d@.len() > 0,
            all_digits(d@.take(i as int)),
            acc as int == dec_val(d@.take(i as int)),
        decreases d@.len() - i,
    {
        let b = d[i];
        if !(48 <= b && b <= 57) {
            proof {
                assert(!all_digits(d@));
            }
            return Option::None;
        }
        let dig: usize = (b - 48) as usize;
        let wide: u128 = (acc as u128) * 10 + (dig as u128);
        proof {
            assert(d@.take(i as int + 1).drop_last() =~= d@.take(i as int));
            assert(d@.take(i as int + 1).last() == d@[i as int]);
            assert(dec_val(d@.take(i as int + 1)) == (acc as int) * 10 + (b - 48));
        }
        if wide > usize::MAX as u128 {
            proof {
                if all_digits(d@) {
                    lemma_dec_val_mono(d@, i as int + 1);
                }
                assert(limit_of(v@) is None);
            }
            return Option::None;
        }
        acc = wide as usize;
        proof {
            let t = d@.take(i as int + 1);
            assert forall|k: int| 0 <= k < t.len() implies is_digit(#[trigger] t[k]) by {
                assert(t[k] == d@[k]);
            }
            assert(all_digits(t));
        }
        i = i + 1;
    }
    proof {
        assert(d@.take(d@.len() as int) =~= d@);
    }
    Option::Some(acc)
}

/// Spec view of an optional byte buffer.
pub open spec fn opt_bytes_view(o: Option<Vec<u8>>) -> Option<Seq<u8>> {
    match o {
        Option::Some(v) => Option::Some(v@),
        Option::None => Option::None,
    }
}

/// Spec view of an optional machine word.
pub open spec fn opt_usize_view(o: Option<usize>) -> Option<int> {
    match o {
        Option::Some(n) => Option::Some(n as int),
        Option::None => Option::None,
    }
}

/// Bind a raw query string to a search request, exactly as the model
/// `bind_query_string` says: required `query`, optional `limit` with
/// default 30, first offending pair decides the error.
pub fn parse_search_query(raw: &[u8]) -> (r: Result<SearchQuery, BindError>)
    ensures
        r is Ok <==> bind_query_string(raw@) is Ok,
        r is Ok ==> {
            let (qb, n) = bind_query_string(raw@)->Ok_0;
            &&& r->Ok_0.limit == n
            &&& r->Ok_0.query@ == lossy_decoded(qb)
            &&& (valid_utf8(qb) ==> r->Ok_0.query@ == decode_utf8(qb))
        },
        r is Err ==> bind_query_string(raw@) == Result::<(Seq<u8>, int), BindError>::Err(
            r->Err_0,
        ),
{
    let mut i: usize = 0;
    let mut qv: Option<Vec<u8>> = Option::None;
    let mut lv: Option<usize> = Option::None;
    proof {
        assert(raw@.skip(0) =~= raw@);
    }
    loop
        invariant
            i <= raw@.len(),
            bind_query_string(raw@) == bind_pairs(
                pairs(raw@.skip(i as int)),
                opt_bytes_view(qv),
                opt_usize_view(lv),
            ),
        decreases raw@.len() - i,
    {
        let ghost rest = raw@.skip(i as int);
        let j = find_byte(raw, i, 38);
        let pair: &[u8] = &raw[i..j];
        proof {
            assert forall|k: int| 0 <= k < j - i implies rest[k] != 38 by {
                assert(rest[k] == raw@[i + k]);
            }
            if j < raw@.len() {
                assert(rest[j - i] == raw@[j as int]);
            }
            lemma_first_pos_at(rest, 38, j - i);
            assert(rest.take(j - i) =~= pair@);
            if j < raw@.len() {
                assert(rest.skip(j - i + 1) =~= raw@.skip(j as int + 1));
            } else {
                assert(rest =~= pair@);
            }
        }
        let ghost ps = pairs(rest);
        proof {
            if j < raw@.len() {
                assert(ps == seq![pair@] + pairs(raw@.skip(j as int + 1)));
                assert(ps[0] == pair@);
                assert(ps.skip(1) =~= pairs(raw@.skip(j as int + 1)));
            } else {
                assert(ps == seq![pair@]);
                assert(ps[0] == pair@);
                assert(ps.skip(1) =~= Seq::<Seq<u8>>::empty());
            }
        }
        // split the pair at its first `=`
        let e = find_byte(pair, 0, 61);
        proof {
            lemma_first_pos_at(pair@, 61, e as int);
            assert(pair@.take(e as int) =~= pair@.subrange(0, e as int));
        }
        let key = decode_component(&pair[0..e]);
        let valdec: Vec<u8> = if e < pair.len() {
            proof {
                assert(pair@.skip(e as int + 1) =~= pair@.subrange(e as int + 1, pair@.len() as int));
            }
            decode_component(&pair[e + 1..pair.len()])
        } else {
            Vec::new()
        };
        proof {
            assert(key@ == decoded(raw_key(pair@)));
            assert(valdec@ == decoded(raw_val(pair@)));
        }
        if is_query_key(key.as_slice()) {
            if qv.is_some() {
                return Result::Err(BindError::DuplicateQuery);
            }
            qv = Option::Some(valdec);
        } else if is_limit_key(key.as_slice()) {
            if lv.is_some() {
                return Result::Err(BindError::DuplicateLimit);
            }
            match parse_limit_bytes(valdec.as_slice()) {
                Option::Some(n) => {
                    lv = Option::Some(n);
                },
                Option::None => {
                    return Result::Err(BindError::InvalidLimit);
                },
            }
        }
        proof {
            if j < raw@.len() {
                assert(bind_query_string(raw@) == bind_pairs(
                    pairs(raw@.skip(j as int + 1)),
                    opt_bytes_view(qv),
                    opt_usize_view(lv),
                ));
            } else {
                assert(bind_query_string(raw@) == bind_pairs(
                    Seq::<Seq<u8>>::empty(),
                    opt_bytes_view(qv),
                    opt_usize_view(lv),
                ));
            }
        }
        if j == raw.len() {
            let lim: usize = match lv {
                Option::Some(n) => n,
                Option::None => default_limit(),
            };
            match qv {
                Option::Some(qb) => {
                    let q = utf8_lossy(qb.as_slice());
                    return Result::Ok(SearchQuery { query: q, limit: lim });
                },
                Option::None => {
                    return Result::Err(BindError::MissingQuery);
                },
            }
        }
        i = j + 1;
    }
}

} // verus!
