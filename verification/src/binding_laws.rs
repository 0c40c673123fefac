use vstd::prelude::*;

verus! {

use crate::query::{
    BindError, bind_pairs, bind_query_string, decoded, limit_key, limit_of, pairs, query_key,
    raw_key, raw_val,
};

// ---------------------------------------------------------------------------
// What the binding owes the client, stated of every query string.
// ---------------------------------------------------------------------------

/// How many pairs bind the given key.
pub open spec fn key_count(ps: Seq<Seq<u8>>, key: Seq<u8>) -> int
    decreases ps.len(),
{
    if ps.len() == 0 {
        0
    } else {
        (if decoded(raw_key(ps[0])) == key {
            1int
        } else {
            0int
        }) + key_count(ps.skip(1), key)
    }
}

proof fn lemma_key_count_nonneg(ps: Seq<Seq<u8>>, key: Seq<u8>)
    ensures
        key_count(ps, key) >= 0,
    decreases ps.len(),
{
    if ps.len() > 0 {
        lemma_key_count_nonneg(ps.skip(1), key);
    }
}

proof fn lemma_keys_differ()
    ensures
        query_key() != limit_key(),
{
    assert(query_key()[0] == 113);
    assert(limit_key()[0] == 108);
}

proof fn lemma_bind_pairs_no_limit(ps: Seq<Seq<u8>>, q: Option<Seq<u8>>)
    requires
        forall|k: int| 0 <= k < ps.len() ==> decoded(raw_key(#[trigger] ps[k])) != limit_key(),
        bind_pairs(ps, q, Option::None) is Ok,
    ensures
        bind_pairs(ps, q, Option::None)->Ok_0.1 == 30,
    decreases ps.len(),
{
    if ps.len() > 0 {
        assert(decoded(raw_key(ps[0])) != limit_key());
        assert forall|k: int| 0 <= k < ps.skip(1).len() implies decoded(
            raw_key(#[trigger] ps.skip(1)[k]),
        ) != limit_key() by {
            assert(ps.skip(1)[k] == ps[k + 1]);
        }
        if decoded(raw_key(ps[0])) == query_key() {
            if q is None {
                lemma_bind_pairs_no_limit(ps.skip(1), Option::Some(decoded(raw_val(ps[0]))));
            }
        } else {
            lemma_bind_pairs_no_limit(ps.skip(1), q);
        }
    }
}

/// An omitted `limit` binds to the default of 30: whenever no pair binds
/// `limit` and the request binds at all, the effective limit is 30.
pub proof fn lemma_omitted_limit_defaults(s: Seq<u8>)
    requires
        forall|k: int| 0 <= k < pairs(s).len() ==> decoded(raw_key(#[trigger] pairs(s)[k]))
            != limit_key(),
        bind_query_string(s) is Ok,
    ensures
        bind_query_string(s)->Ok_0.1 == 30,
{
    lemma_bind_pairs_no_limit(pairs(s), Option::None);
}

proof fn lemma_bind_pairs_limit_set(ps: Seq<Seq<u8>>, q: Option<Seq<u8>>, n: int)
    requires
        bind_pairs(ps, q, Option::Some(n)) is Ok,
    ensures
        bind_pairs(ps, q, Option::Some(n))->Ok_0.1 == n,
    decreases ps.len(),
{
    if ps.len() > 0 {
        if decoded(raw_key(ps[0])) == query_key() {
            if q is None {
                lemma_bind_pairs_limit_set(
                    ps.skip(1),
                    Option::Some(decoded(raw_val(ps[0]))),
                    n,
                );
            }
        } else if decoded(raw_key(ps[0])) == limit_key() {
        } else {
            lemma_bind_pairs_limit_set(ps.skip(1), q, n);
        }
    }
}

proof fn lemma_bind_pairs_first_limit(ps: Seq<Seq<u8>>, q: Option<Seq<u8>>, i: int)
    requires
        0 <= i < ps.len(),
        decoded(raw_key(ps[i])) == limit_key(),
        forall|k: int| 0 <= k < i ==> decoded(raw_key(#[trigger] ps[k])) != limit_key(),
        bind_pairs(ps, q, Option::None) is Ok,
    ensures
        limit_of(decoded(raw_val(ps[i]))) == Option::Some(bind_pairs(ps, q, Option::None)->Ok_0.1),
    decreases i,
{
    lemma_keys_differ();
    if i == 0 {
        match limit_of(decoded(raw_val(ps[0]))) {
            Option::Some(n) => {
                lemma_bind_pairs_limit_set(ps.skip(1), q, n);
            },
            Option::None => {},
        }
    } else {
        assert(decoded(raw_key(ps[0])) != limit_key());
        assert forall|k: int| 0 <= k < i - 1 implies decoded(raw_key(#[trigger] ps.skip(1)[k]))
            != limit_key() by {
            assert(ps.skip(1)[k] == ps[k + 1]);
        }
        assert(ps.skip(1)[i - 1] == ps[i]);
        if decoded(raw_key(ps[0])) == query_key() {
            if q is None {
                lemma_bind_pairs_first_limit(
                    ps.skip(1),
                    Option::Some(decoded(raw_val(ps[0]))),
                    i - 1,
                );
            }
        } else {
            lemma_bind_pairs_first_limit(ps.skip(1), q, i - 1);
        }
    }
}

/// A supplied `limit` is passed through exactly as it parsed, with no
/// clamping: whenever the request binds, the effective limit is the parsed
/// value of the first pair that binds `limit`.
pub proof fn lemma_supplied_limit_passed(s: Seq<u8>, i: int)
    requires
        0 <= i < pairs(s).len(),
        decoded(raw_key(pairs(s)[i])) == limit_key(),
        forall|k: int| 0 <= k < i ==> decoded(raw_key(#[trigger] pairs(s)[k])) != limit_key(),
        bind_query_string(s) is Ok,
    ensures
        limit_of(decoded(raw_val(pairs(s)[i]))) == Option::Some(bind_query_string(s)->Ok_0.1),
{
    lemma_bind_pairs_first_limit(pairs(s), Option::None, i);
}

proof fn lemma_bind_pairs_no_query(ps: Seq<Seq<u8>>, l: Option<int>)
    requires
        forall|k: int| 0 <= k < ps.len() ==> decoded(raw_key(#[trigger] ps[k])) != query_key(),
    ensures
        bind_pairs(ps, Option::None, l) is Err,
    decreases ps.len(),
{
    if ps.len() > 0 {
        assert(decoded(raw_key(ps[0])) != query_key());
        assert forall|k: int| 0 <= k < ps.skip(1).len() implies decoded(
            raw_key(#[trigger] ps.skip(1)[k]),
        ) != query_key() by {
            assert(ps.skip(1)[k] == ps[k + 1]);
        }
        if decoded(raw_key(ps[0])) == limit_key() {
            match limit_of(decoded(raw_val(ps[0]))) {
                Option::Some(n) => {
                    lemma_bind_pairs_no_query_limit_set(ps.skip(1), n);
                },
                Option::None => {},
            }
        } else {
            lemma_bind_pairs_no_query(ps.skip(1), l);
        }
    }
}

proof fn lemma_bind_pairs_no_query_limit_set(ps: Seq<Seq<u8>>, n: int)
    requires
        forall|k: int| 0 <= k < ps.len() ==> decoded(raw_key(#[trigger] ps[k])) != query_key(),
    ensures
        bind_pairs(ps, Option::None, Option::Some(n)) is Err,
    decreases ps.len(),
{
    if ps.len() > 0 {
        assert forall|k: int| 0 <= k < ps.skip(1).len() implies decoded(
            raw_key(#[trigger] ps.skip(1)[k]),
        ) != query_key() by {
            assert(ps.skip(1)[k] == ps[k + 1]);
        }
        if decoded(raw_key(ps[0])) == limit_key() {
        } else {
            lemma_bind_pairs_no_query_limit_set(ps.skip(1), n);
        }
    }
}

/// A request in which no pair binds `query` never binds: it is rejected
/// with a client error, so the engine is never consulted for it.
pub proof fn lemma_missing_query_rejected(s: Seq<u8>)
    requires
        forall|k: int| 0 <= k < pairs(s).len() ==> decoded(raw_key(#[trigger] pairs(s)[k]))
            != query_key(),
    ensures
        bind_query_string(s) is Err,
{
    lemma_bind_pairs_no_query(pairs(s), Option::None);
}

proof fn lemma_bind_pairs_only_ignored(ps: Seq<Seq<u8>>, q: Option<Seq<u8>>, l: Option<int>)
    requires
        forall|k: int| 0 <= k < ps.len() ==> decoded(raw_key(#[trigger] ps[k])) != query_key(),
        forall|k: int| 0 <= k < ps.len() ==> decoded(raw_key(#[trigger] ps[k])) != limit_key(),
    ensures
        bind_pairs(ps, q, l) == bind_pairs(Seq::<Seq<u8>>::empty(), q, l),
    decreases ps.len(),
{
    if ps.len() > 0 {
        assert forall|k: int| 0 <= k < ps.skip(1).len() implies decoded(
            raw_key(#[trigger] ps.skip(1)[k]),
        ) != query_key() && decoded(raw_key(ps.skip(1)[k])) != limit_key() by {
            assert(ps.skip(1)[k] == ps[k + 1]);
        }
        lemma_bind_pairs_only_ignored(ps.skip(1), q, l);
    }
}

proof fn lemma_bind_pairs_single_query(ps: Seq<Seq<u8>>, i: int)
    requires
        0 <= i < ps.len(),
        decoded(raw_key(ps[i])) == query_key(),
        forall|k: int| 0 <= k < ps.len() && k != i ==> decoded(raw_key(#[trigger] ps[k]))
            != query_key(),
        forall|k: int| 0 <= k < ps.len() ==> decoded(raw_key(#[trigger] ps[k])) != limit_key(),
    ensures
        bind_pairs(ps, Option::None, Option::None) == Result::<(Seq<u8>, int), BindError>::Ok(
            (decoded(raw_val(ps[i])), 30),
        ),
    decreases i,
{
    lemma_keys_differ();
    assert forall|k: int| 0 <= k < ps.skip(1).len() implies decoded(
        raw_key(#[trigger] ps.skip(1)[k]),
    ) != limit_key() by {
        assert(ps.skip(1)[k] == ps[k + 1]);
    }
    if i == 0 {
        assert forall|k: int| 0 <= k < ps.skip(1).len() implies decoded(
            raw_key(#[trigger] ps.skip(1)[k]),
        ) != query_key() by {
            assert(ps.skip(1)[k] == ps[k + 1]);
        }
        lemma_bind_pairs_only_ignored(
            ps.skip(1),
            Option::Some(decoded(raw_val(ps[0]))),
            Option::None,
        );
    } else {
        assert(decoded(raw_key(ps[0])) != query_key());
        assert forall|k: int| 0 <= k < ps.skip(1).len() && k != i - 1 implies decoded(
            raw_key(#[trigger] ps.skip(1)[k]),
        ) != query_key() by {
            assert(ps.skip(1)[k] == ps[k + 1]);
        }
        assert(ps.skip(1)[i - 1] == ps[i]);
        lemma_bind_pairs_single_query(ps.skip(1), i - 1);
    }
}

/// Success is owed: a request whose pairs bind `query` exactly once and
/// `limit` not at all binds to that `query` value with the default limit
/// of 30.
pub proof fn lemma_single_query_binds(s: Seq<u8>, i: int)
    requires
        0 <= i < pairs(s).len(),
        decoded(raw_key(pairs(s)[i])) == query_key(),
        forall|k: int| 0 <= k < pairs(s).len() && k != i ==> decoded(
            raw_key(#[trigger] pairs(s)[k]),
        ) != query_key(),
        forall|k: int| 0 <= k < pairs(s).len() ==> decoded(raw_key(#[trigger] pairs(s)[k]))
            != limit_key(),
    ensures
        bind_query_string(s) == Result::<(Seq<u8>, int), BindError>::Ok(
            (decoded(raw_val(pairs(s)[i])), 30),
        ),
{
    lemma_bind_pairs_single_query(pairs(s), i);
}

proof fn lemma_bind_pairs_bad_limit(ps: Seq<Seq<u8>>, q: Option<Seq<u8>>, i: int)
    requires
        0 <= i < ps.len(),
        decoded(raw_key(ps[i])) == limit_key(),
        forall|k: int| 0 <= k < i ==> decoded(raw_key(#[trigger] ps[k])) != limit_key(),
        limit_of(decoded(raw_val(ps[i]))) is None,
        key_count(ps.take(i), query_key()) + (if q is Some {
            1int
        } else {
            0int
        }) <= 1,
    ensures
        bind_pairs(ps, q, Option::None) == Result::<(Seq<u8>, int), BindError>::Err(
            BindError::InvalidLimit,
        ),
    decreases i,
{
    lemma_keys_differ();
    if i == 0 {
    } else {
        assert(decoded(raw_key(ps[0])) != limit_key());
        assert forall|k: int| 0 <= k < i - 1 implies decoded(raw_key(#[trigger] ps.skip(1)[k]))
            != limit_key() by {
            assert(ps.skip(1)[k] == ps[k + 1]);
        }
        assert(ps.skip(1)[i - 1] == ps[i]);
        assert(ps.take(i)[0] == ps[0]);
        assert(ps.take(i).skip(1) =~= ps.skip(1).take(i - 1));
        lemma_key_count_nonneg(ps.skip(1).take(i - 1), query_key());
        if decoded(raw_key(ps[0])) == query_key() {
            assert(key_count(ps.take(i), query_key()) == 1 + key_count(
                ps.skip(1).take(i - 1),
                query_key(),
            ));
            assert(q is None);
            lemma_bind_pairs_bad_limit(
                ps.skip(1),
                Option::Some(decoded(raw_val(ps[0]))),
                i - 1,
            );
        } else {
            assert(key_count(ps.take(i), query_key()) == key_count(
                ps.skip(1).take(i - 1),
                query_key(),
            ));
            lemma_bind_pairs_bad_limit(ps.skip(1), q, i - 1);
        }
    }
}

/// A `limit` value that does not parse as an unsigned integer is rejected
/// with a client error before the engine is consulted, whatever else the
/// request carries, as long as `query` is not itself bound twice before it.
pub proof fn lemma_invalid_limit_rejected(s: Seq<u8>, i: int)
    requires
        0 <= i < pairs(s).len(),
        decoded(raw_key(pairs(s)[i])) == limit_key(),
        forall|k: int| 0 <= k < i ==> decoded(raw_key(#[trigger] pairs(s)[k])) != limit_key(),
        limit_of(decoded(raw_val(pairs(s)[i]))) is None,
        key_count(pairs(s).take(i), query_key()) <= 1,
    ensures
        bind_query_string(s) == Result::<(Seq<u8>, int), BindError>::Err(BindError::InvalidLimit),
{
    lemma_bind_pairs_bad_limit(pairs(s), Option::None, i);
}

} // verus!
