use vstd::prelude::*;

verus! {

use vstd::arithmetic::div_mod::lemma_fundamental_div_mod;
use vstd::utf8::{valid_utf8, decode_utf8, encode_utf8, encode_utf8_valid_utf8};
use crate::json::{
    Book, BookSpec, SearchResult, books_seq_view, escape_byte, escape_bytes, json_string,
    dec_digits, hex_digit_byte, lit_title, lit_author, lit_extension, lit_filesize,
    lit_books_open, json_of_book, json_of_books, json_of_search_result, push_lit_title,
    push_lit_author, push_lit_extension, push_lit_filesize, push_lit_books_open,
};
use crate::query::{is_digit, is_hex_digit, hex_val, all_digits, dec_val, hex_val_x, is_hex_digit_x};

// ---------------------------------------------------------------------------
// Reading the response body back.
//
// The parser below consumes the canonical serialised form that
// `json_of_search_result` defines, from the front of a byte sequence,
// handing back the remaining suffix.  Serialising any list of records and
// parsing the result yields the same records, in the same order: the
// round-trip theorem at the end.
// ---------------------------------------------------------------------------

/// The body of a JSON string after its opening quote, up to and including
/// its closing quote.  Escaped quotes and backslashes, and `\u00XX` control
/// escapes, are read back as the bytes they stand for.
pub open spec fn parse_jstring_body(s: Seq<u8>) -> Option<(Seq<u8>, Seq<u8>)>
    decreases s.len(),
{
    if s.len() == 0 {
        Option::None
    } else if s[0] == 34 {
        Option::Some((Seq::empty(), s.skip(1)))
    } else if s[0] == 92 {
        if s.len() >= 2 && (s[1] == 34 || s[1] == 92) {
            match parse_jstring_body(s.skip(2)) {
                Option::Some((t, r)) => Option::Some((seq![s[1]] + t, r)),
                Option::None => Option::None,
            }
        } else if s.len() >= 6 && s[1] == 117 && s[2] == 48 && s[3] == 48 && is_hex_digit(s[4])
            && is_hex_digit(s[5]) {
            match parse_jstring_body(s.skip(6)) {
                Option::Some((t, r)) => Option::Some(
                    (seq![(hex_val(s[4]) * 16 + hex_val(s[5])) as u8] + t, r),
                ),
                Option::None => Option::None,
            }
        } else {
            Option::None
        }
    } else {
        match parse_jstring_body(s.skip(1)) {
            Option::Some((t, r)) => Option::Some((seq![s[0]] + t, r)),
            Option::None => Option::None,
        }
    }
}

/// A whole JSON string, quotes included.
pub open spec fn parse_jstring(s: Seq<u8>) -> Option<(Seq<u8>, Seq<u8>)> {
    if s.len() > 0 && s[0] == 34 {
        parse_jstring_body(s.skip(1))
    } else {
        Option::None
    }
}

/// How many decimal digits stand at the front.
pub open spec fn digit_run(s: Seq<u8>) -> nat
    decreases s.len(),
{
    if s.len() > 0 && is_digit(s[0]) {
        1 + digit_run(s.skip(1))
    } else {
        0
    }
}

/// A decimal number: its digits, greedily, and their value.
pub open spec fn parse_dec(s: Seq<u8>) -> Option<(int, Seq<u8>)> {
    let k = digit_run(s);
    if k == 0 {
        Option::None
    } else {
        Option::Some((dec_val(s.take(k as int)), s.skip(k as int)))
    }
}

/// A fixed literal at the front.
pub open spec fn expect(s: Seq<u8>, lit: Seq<u8>) -> Option<Seq<u8>> {
    if s.len() >= lit.len() && s.take(lit.len() as int) == lit {
        Option::Some(s.skip(lit.len() as int))
    } else {
        Option::None
    }
}

/// One record object, in the canonical field order.
pub open spec fn parse_book(s: Seq<u8>) -> Option<(BookSpec, Seq<u8>)> {
    match expect(s, lit_title()) {
        Option::None => Option::None,
        Option::Some(s1) => match parse_jstring(s1) {
            Option::None => Option::None,
            Option::Some((t, s2)) => match expect(s2, lit_author()) {
                Option::None => Option::None,
                Option::Some(s3) => match parse_jstring(s3) {
                    Option::None => Option::None,
                    Option::Some((a, s4)) => match expect(s4, lit_extension()) {
                        Option::None => Option::None,
                        Option::Some(s5) => match parse_jstring(s5) {
                            Option::None => Option::None,
                            Option::Some((x, s6)) => match expect(s6, lit_filesize()) {
                                Option::None => Option::None,
                                Option::Some(s7) => match parse_dec(s7) {
                                    Option::None => Option::None,
                                    Option::Some((n, s8)) => if 0 <= n <= u64::MAX && s8.len() > 0
                                        && s8[0] == 125 && valid_utf8(t) && valid_utf8(a)
                                        && valid_utf8(x) {
                                        Option::Some(
                                            (
                                                BookSpec {
                                                    title: t,
                                                    author: a,
                                                    extension: x,
                                                    filesize: n as u64,
                                                },
                                                s8.skip(1),
                                            ),
                                        )
                                    } else {
                                        Option::None
                                    },
                                },
                            },
                        },
                    },
                },
            },
        },
    }
}

/// A record value whose text attributes are valid UTF-8, as every record
/// built from actual strings has them.
pub open spec fn book_wf(b: BookSpec) -> bool {
    valid_utf8(b.title) && valid_utf8(b.author) && valid_utf8(b.extension)
}

/// One or more records, comma-separated, up to and including the closing
/// bracket of the array.
pub open spec fn parse_books_rest(s: Seq<u8>) -> Option<(Seq<BookSpec>, Seq<u8>)>
    decreases s.len(),
{
    match parse_book(s) {
        Option::None => Option::None,
        Option::Some((b, r)) => if r.len() >= s.len() {
            Option::None
        } else if r.len() > 0 && r[0] == 44 {
            match parse_books_rest(r.skip(1)) {
                Option::Some((bs, r2)) => Option::Some((seq![b] + bs, r2)),
                Option::None => Option::None,
            }
        } else if r.len() > 0 && r[0] == 93 {
            Option::Some((seq![b], r.skip(1)))
        } else {
            Option::None
        },
    }
}

/// A whole response body, consumed completely.
pub open spec fn parse_search_result(s: Seq<u8>) -> Option<Seq<BookSpec>> {
    match expect(s, lit_books_open()) {
        Option::None => Option::None,
        Option::Some(r) => if r.len() > 0 && r[0] == 93 {
            if r.len() == 2 && r[1] == 125 {
                Option::Some(Seq::empty())
            } else {
                Option::None
            }
        } else {
            match parse_books_rest(r) {
                Option::Some((bs, r2)) => if r2.len() == 1 && r2[0] == 125 {
                    Option::Some(bs)
                } else {
                    Option::None
                },
                Option::None => Option::None,
            }
        },
    }
}

// ---------------------------------------------------------------------------
// The round trip.
// ---------------------------------------------------------------------------

proof fn lemma_expect_lit(lit: Seq<u8>, rest: Seq<u8>)
    ensures
        expect(lit + rest, lit) == Option::Some(rest),
{
    assert((lit + rest).take(lit.len() as int) =~= lit);
    assert((lit + rest).skip(lit.len() as int) =~= rest);
}

proof fn lemma_hex_digit_byte_val(x: u8)
    requires
        x < 16,
    ensures
        is_hex_digit(hex_digit_byte(x)),
        hex_val(hex_digit_byte(x)) == x,
{
}

/// An escaped string followed by its closing quote reads back exactly.
proof fn lemma_parse_jstring_body_round(b: Seq<u8>, rest: Seq<u8>)
    ensures
        parse_jstring_body(escape_bytes(b) + seq![34u8] + rest) == Option::Some((b, rest)),
    decreases b.len(),
{
    let s = escape_bytes(b) + seq![34u8] + rest;
    if b.len() == 0 {
        assert(escape_bytes(b) == Seq::<u8>::empty());
        assert(s =~= seq![34u8] + rest);
        assert(s[0] == 34);
        assert(s.skip(1) =~= rest);
        assert(b =~= Seq::<u8>::empty());
    } else {
        let c = b[0];
        let tail = escape_bytes(b.skip(1)) + seq![34u8] + rest;
        assert(escape_bytes(b) == escape_byte(c) + escape_bytes(b.skip(1)));
        assert(s =~= escape_byte(c) + tail);
        lemma_parse_jstring_body_round(b.skip(1), rest);
        assert(seq![c] + b.skip(1) =~= b);
        if c == 34 {
            assert(s[0] == 92 && s[1] == 34);
            assert(s.skip(2) =~= tail);
        } else if c == 92 {
            assert(s[0] == 92 && s[1] == 92);
            assert(s.skip(2) =~= tail);
        } else if c < 32 {
            assert(s[0] == 92 && s[1] == 117 && s[2] == 48 && s[3] == 48);
            assert(s[4] == hex_digit_byte(c / 16) && s[5] == hex_digit_byte(c % 16));
            lemma_hex_digit_byte_val(c / 16);
            lemma_hex_digit_byte_val(c % 16);
            lemma_fundamental_div_mod(c as int, 16);
            assert(hex_val(s[4]) * 16 + hex_val(s[5]) == c);
            assert(s.skip(6) =~= tail);
        } else {
            assert(s[0] == c && c != 34 && c != 92);
            assert(s.skip(1) =~= tail);
        }
    }
}

/// A serialised JSON string reads back exactly.
proof fn lemma_parse_jstring_round(b: Seq<u8>, rest: Seq<u8>)
    ensures
        parse_jstring(json_string(b) + rest) == Option::Some((b, rest)),
{
    let s = json_string(b) + rest;
    assert(s[0] == 34);
    assert(s.skip(1) =~= escape_bytes(b) + seq![34u8] + rest);
    lemma_parse_jstring_body_round(b, rest);
}

proof fn lemma_digit_run_concat(d: Seq<u8>, rest: Seq<u8>)
    requires
        all_digits(d),
        rest.len() > 0,
        !is_digit(rest[0]),
    ensures
        digit_run(d + rest) == d.len(),
    decreases d.len(),
{
    if d.len() == 0 {
        assert(d + rest =~= rest);
    } else {
        assert((d + rest)[0] == d[0]);
        assert(is_digit(d[0]));
        assert((d + rest).skip(1) =~= d.skip(1) + rest);
        assert forall|k: int| 0 <= k < d.skip(1).len() implies is_digit(d.skip(1)[k]) by {
            assert(d.skip(1)[k] == d[k + 1]);
        }
        lemma_digit_run_concat(d.skip(1), rest);
    }
}

/// The decimal digits of a number are digits, and there is at least one.
pub proof fn lemma_dec_digits_all(n: int)
    requires
        n >= 0,
    ensures
        all_digits(dec_digits(n)),
        dec_digits(n).len() >= 1,
    decreases n,
{
    if n < 10 {
        assert(dec_digits(n) == seq![(48 + n) as u8]);
        assert(is_digit((48 + n) as u8));
    } else {
        lemma_dec_digits_all(n / 10);
        let d = dec_digits(n / 10) + seq![(48 + n % 10) as u8];
        assert forall|k: int| 0 <= k < d.len() implies is_digit(d[k]) by {
            if k < dec_digits(n / 10).len() {
                assert(d[k] == dec_digits(n / 10)[k]);
            } else {
                assert(d[k] == (48 + n % 10) as u8);
            }
        }
    }
}

/// The digits of a number carry its value.
pub proof fn lemma_dec_val_of_digits(n: int)
    requires
        n >= 0,
    ensures
        dec_val(dec_digits(n)) == n,
    decreases n,
{
    if n < 10 {
        let d = seq![(48 + n) as u8];
        assert(dec_digits(n) == d);
        assert(d.drop_last() =~= Seq::<u8>::empty());
        assert(dec_val(d) == dec_val(d.drop_last()) * 10 + (d.last() - 48));
    } else {
        lemma_dec_val_of_digits(n / 10);
        let d = dec_digits(n);
        assert(d == dec_digits(n / 10) + seq![(48 + n % 10) as u8]);
        assert(d.drop_last() =~= dec_digits(n / 10));
        assert(d.last() == (48 + n % 10) as u8);
        lemma_fundamental_div_mod(n, 10);
    }
}

/// Serialised digits followed by a non-digit read back as the number.
proof fn lemma_parse_dec_round(n: int, rest: Seq<u8>)
    requires
        0 <= n,
        rest.len() > 0,
        !is_digit(rest[0]),
    ensures
        parse_dec(dec_digits(n) + rest) == Option::Some((n, rest)),
{
    let d = dec_digits(n);
    lemma_dec_digits_all(n);
    lemma_digit_run_concat(d, rest);
    assert((d + rest).take(d.len() as int) =~= d);
    assert((d + rest).skip(d.len() as int) =~= rest);
    lemma_dec_val_of_digits(n);
}

/// A serialised record reads back exactly.
#[verifier::rlimit(100)]
proof fn lemma_parse_book_round(bk: BookSpec, rest: Seq<u8>)
    requires
        book_wf(bk),
    ensures
        parse_book(json_of_book(bk) + rest) == Option::Some((bk, rest)),
        json_of_book(bk).len() >= 1,
{
    let s = json_of_book(bk) + rest;
    let t8 = seq![125u8] + rest;
    let t7 = dec_digits(bk.filesize as int) + t8;
    let t6 = lit_filesize() + t7;
    let t5 = json_string(bk.extension) + t6;
    let t4 = lit_extension() + t5;
    let t3 = json_string(bk.author) + t4;
    let t2 = lit_author() + t3;
    let t1 = json_string(bk.title) + t2;
    assert(s =~= lit_title() + t1);
    lemma_expect_lit(lit_title(), t1);
    lemma_parse_jstring_round(bk.title, t2);
    lemma_expect_lit(lit_author(), t3);
    lemma_parse_jstring_round(bk.author, t4);
    lemma_expect_lit(lit_extension(), t5);
    lemma_parse_jstring_round(bk.extension, t6);
    lemma_expect_lit(lit_filesize(), t7);
    assert(t8[0] == 125);
    assert(!is_digit(125));
    lemma_parse_dec_round(bk.filesize as int, t8);
    assert(t8.skip(1) =~= rest);
    assert(parse_book(s) == Option::Some((bk, rest)));
}

/// A serialised non-empty record list with its closing bracket reads back
/// exactly.
#[verifier::rlimit(100)]
proof fn lemma_parse_books_rest_round(bks: Seq<BookSpec>, rest: Seq<u8>)
    requires
        bks.len() >= 1,
        forall|k: int| 0 <= k < bks.len() ==> book_wf(#[trigger] bks[k]),
    ensures
        parse_books_rest(json_of_books(bks) + seq![93u8] + rest) == Option::Some((bks, rest)),
    decreases bks.len(),
{
    let s = json_of_books(bks) + seq![93u8] + rest;
    if bks.len() == 1 {
        let t = seq![93u8] + rest;
        assert(s =~= json_of_book(bks[0]) + t);
        lemma_parse_book_round(bks[0], t);
        assert(t.len() < s.len());
        assert(t[0] == 93);
        assert(t.skip(1) =~= rest);
        assert(seq![bks[0]] =~= bks);
    } else {
        let t = seq![44u8] + (json_of_books(bks.skip(1)) + seq![93u8] + rest);
        assert(json_of_books(bks) == json_of_book(bks[0]) + seq![44u8] + json_of_books(
            bks.skip(1),
        ));
        assert(s =~= json_of_book(bks[0]) + t);
        lemma_parse_book_round(bks[0], t);
        assert(t.len() < s.len());
        assert(t[0] == 44);
        assert(t.skip(1) =~= json_of_books(bks.skip(1)) + seq![93u8] + rest);
        assert forall|k: int| 0 <= k < bks.skip(1).len() implies book_wf(
            #[trigger] bks.skip(1)[k],
        ) by {
            assert(bks.skip(1)[k] == bks[k + 1]);
        }
        lemma_parse_books_rest_round(bks.skip(1), rest);
        assert(seq![bks[0]] + bks.skip(1) =~= bks);
    }
}

/// Round trip: serialising any list of records and parsing the resulting
/// body yields exactly those records, in the same order.
pub proof fn lemma_search_result_round_trip(bks: Seq<BookSpec>)
    requires
        forall|k: int| 0 <= k < bks.len() ==> book_wf(#[trigger] bks[k]),
    ensures
        parse_search_result(json_of_search_result(bks)) == Option::Some(bks),
{
    let s = json_of_search_result(bks);
    if bks.len() == 0 {
        let r = seq![93u8, 125u8];
        assert(json_of_books(bks) == Seq::<u8>::empty());
        assert(s =~= lit_books_open() + r);
        lemma_expect_lit(lit_books_open(), r);
        assert(r[0] == 93 && r.len() == 2 && r[1] == 125);
    } else {
        let r = json_of_books(bks) + seq![93u8] + seq![125u8];
        assert(s =~= lit_books_open() + r);
        lemma_expect_lit(lit_books_open(), r);
        assert(json_of_books(bks)[0] == json_of_book(bks[0])[0]);
        assert(json_of_book(bks[0])[0] == lit_title()[0]);
        assert(r[0] == 123);
        lemma_parse_books_rest_round(bks, seq![125u8]);
        let r2 = seq![125u8];
        assert(r2.len() == 1 && r2[0] == 125);
    }
}

/// Round trip for any actual result value: serialising it and parsing the
/// body yields exactly its records, in the same order.  The text attributes
/// of a record are strings, so their bytes are always valid UTF-8.
pub proof fn lemma_search_result_round_trip_value(res: SearchResult)
    ensures
        parse_search_result(json_of_search_result(res@)) == Option::Some(res@),
{
    broadcast use encode_utf8_valid_utf8;

    assert forall|k: int| 0 <= k < res@.len() implies book_wf(#[trigger] res@[k]) by {
        assert(res@[k] == res.books@[k]@);
    }
    lemma_search_result_round_trip(res@);
}

// ---------------------------------------------------------------------------
// Executable parsing, refining the spec parser above.
// ---------------------------------------------------------------------------

/// Relies on `String::from_utf8`: it succeeds exactly on valid UTF-8 and
/// the string then carries the given bytes.
#[verifier::external_body]
fn string_from_utf8(v: Vec<u8>) -> (r: Option<String>)
    ensures
        match r {
            Option::Some(s) => valid_utf8(v@) && s@ == decode_utf8(v@) && encode_utf8(s@) == v@,
            Option::None => !valid_utf8(v@),
        },
{
    match String::from_utf8(v) {
        Ok(s) => Option::Some(s),
        Err(_) => Option::None,
    }
}

/// The body of a JSON string, from `pos`, mirroring `parse_jstring_body`.
fn parse_jstring_body_x(s: &[u8], pos: usize) -> (r: Option<(Vec<u8>, usize)>)
    requires
        pos <= s@.len(),
    ensures
        match r {
            Option::Some((v, p)) => pos < p <= s@.len() && parse_jstring_body(
                s@.skip(pos as int),
            ) == Option::Some((v@, s@.skip(p as int))),
            Option::None => parse_jstring_body(s@.skip(pos as int)) is None,
        },
{
    let mut out: Vec<u8> = Vec::new();
    let mut i: usize = pos;
    proof {
        match parse_jstring_body(s@.skip(pos as int)) {
            Option::Some((t, rr)) => {
                assert(out@ + t =~= t);
            },
            Option::None => {},
        }
    }
    loop
        invariant
            pos <= i <= s@.len(),
            (match parse_jstring_body(s@.skip(i as int)) {
                Option::Some((t, rr)) => parse_jstring_body(s@.skip(pos as int))
                    == Option::Some((out@ + t, rr)),
                Option::None => parse_jstring_body(s@.skip(pos as int)) is None,
            }),
        decreases s@.len() - i,
    {
        let ghost cur = s@.skip(i as int);
        if i >= s.len() {
            proof {
                assert(cur.len() == 0);
            }
            return Option::None;
        }
        let b = s[i];
        proof {
            assert(cur[0] == s@[i as int]);
        }
        if b == 34 {
            proof {
                assert(cur.skip(1) =~= s@.skip(i as int + 1));
                assert(out@ + Seq::<u8>::empty() =~= out@);
            }
            return Option::Some((out, i + 1));
        } else if b == 92 {
            if s.len() - i >= 2 && (s[i + 1] == 34 || s[i + 1] == 92) {
                let e = s[i + 1];
                let ghost ob = out@;
                out.push(e);
                proof {
                    assert(cur[1] == s@[i as int + 1]);
                    assert(cur.skip(2) =~= s@.skip(i as int + 2));
                    match parse_jstring_body(s@.skip(i as int + 2)) {
                        Option::Some((t, rr)) => {
                            assert(out@ + t =~= ob + (seq![e] + t));
                        },
                        Option::None => {},
                    }
                }
                i = i + 2;
            } else if s.len() - i >= 6 && s[i + 1] == 117 && s[i + 2] == 48 && s[i + 3] == 48
                && is_hex_digit_x(s[i + 4]) && is_hex_digit_x(s[i + 5]) {
                let v: u8 = hex_val_x(s[i + 4]) * 16 + hex_val_x(s[i + 5]);
                let ghost ob = out@;
                out.push(v);
                proof {
                    assert(cur[1] == s@[i as int + 1]);
                    assert(cur[2] == s@[i as int + 2]);
                    assert(cur[3] == s@[i as int + 3]);
                    assert(cur[4] == s@[i as int + 4]);
                    assert(cur[5] == s@[i as int + 5]);
                    assert(cur.skip(6) =~= s@.skip(i as int + 6));
                    match parse_jstring_body(s@.skip(i as int + 6)) {
                        Option::Some((t, rr)) => {
                            assert(out@ + t =~= ob + (seq![v] + t));
                        },
                        Option::None => {},
                    }
                }
                i = i + 6;
            } else {
                proof {
                    if cur.len() >= 2 {
                        assert(cur[1] == s@[i as int + 1]);
                    }
                    if cur.len() >= 6 {
                        assert(cur[2] == s@[i as int + 2]);
                        assert(cur[3] == s@[i as int + 3]);
                        assert(cur[4] == s@[i as int + 4]);
                        assert(cur[5] == s@[i as int + 5]);
                    }
                    assert(parse_jstring_body(cur) is None);
                }
                return Option::None;
            }
        } else {
            let ghost ob = out@;
            out.push(b);
            proof {
                assert(cur.skip(1) =~= s@.skip(i as int + 1));
                match parse_jstring_body(s@.skip(i as int + 1)) {
                    Option::Some((t, rr)) => {
                        assert(out@ + t =~= ob + (seq![b] + t));
                    },
                    Option::None => {},
                }
            }
            i = i + 1;
        }
    }
}

/// A whole JSON string from `pos`, mirroring `parse_jstring`.
fn parse_jstring_x(s: &[u8], pos: usize) -> (r: Option<(Vec<u8>, usize)>)
    requires
        pos <= s@.len(),
    ensures
        match r {
            Option::Some((v, p)) => pos < p <= s@.len() && parse_jstring(s@.skip(pos as int))
                == Option::Some((v@, s@.skip(p as int))),
            Option::None => parse_jstring(s@.skip(pos as int)) is None,
        },
{
    if pos < s.len() && s[pos] == 34 {
        proof {
            assert(s@.skip(pos as int)[0] == s@[pos as int]);
            assert(s@.skip(pos as int).skip(1) =~= s@.skip(pos as int + 1));
        }
        parse_jstring_body_x(s, pos + 1)
    } else {
        proof {
            if pos < s@.len() {
                assert(s@.skip(pos as int)[0] == s@[pos as int]);
            }
        }
        Option::None
    }
}

proof fn lemma_digit_run_at(s: Seq<u8>, m: int)
    requires
        0 <= m <= s.len(),
        forall|k: int| 0 <= k < m ==> is_digit(s[k]),
        m < s.len() ==> !is_digit(s[m]),
    ensures
        digit_run(s) == m,
    decreases m,
{
    if m == 0 {
    } else {
        assert(is_digit(s[0]));
        assert forall|k: int| 0 <= k < m - 1 implies is_digit(s.skip(1)[k]) by {
            assert(s.skip(1)[k] == s[k + 1]);
        }
        if m - 1 < s.skip(1).len() {
            assert(s.skip(1)[m - 1] == s[m]);
        }
        lemma_digit_run_at(s.skip(1), m - 1);
    }
}

/// A decimal number from `pos`, mirroring `parse_dec`; a value beyond the
/// machine's range is reported as absent.
fn parse_dec_x(s: &[u8], pos: usize) -> (r: Option<(u64, usize)>)
    requires
        pos <= s@.len(),
    ensures
        match r {
            Option::Some((n, p)) => pos < p <= s@.len() && parse_dec(s@.skip(pos as int))
                == Option::Some((n as int, s@.skip(p as int))),
            Option::None => parse_dec(s@.skip(pos as int)) is None || (match parse_dec(
                s@.skip(pos as int),
            ) {
                Option::Some((n, rr)) => n > u64::MAX,
                Option::None => false,
            }),
        },
{
    let ghost cur = s@.skip(pos as int);
    let mut j: usize = pos;
    while j < s.len() && 48 <= s[j] && s[j] <= 57
        invariant
            pos <= j <= s@.len(),
            forall|k: int| pos <= k < j ==> is_digit(s@[k]),
        decreases s@.len() - j,
    {
        j = j + 1;
    }
    proof {
        assert forall|k: int| 0 <= k < j - pos implies is_digit(cur[k]) by {
            assert(cur[k] == s@[pos + k]);
        }
        if j - pos < cur.len() {
            assert(cur[j - pos] == s@[j as int]);
        }
        lemma_digit_run_at(cur, j - pos);
    }
    if j == pos {
        return Option::None;
    }
    let ghost d = cur.take(j - pos);
    proof {
        assert forall|k: int| 0 <= k < d.len() implies is_digit(#[trigger] d[k]) by {
            assert(d[k] == cur[k]);
        }
    }
    let mut acc: u64 = 0;
    let mut i: usize = pos;
    while i < j
        invariant
            pos <= i <= j <= s@.len(),
            d == cur.take(j - pos),
            cur == s@.skip(pos as int),
            all_digits(d),
            digit_run(cur) == j - pos,
            acc as int == dec_val(d.take(i - pos)),
        decreases j - i,
    {
        let b = s[i];
        proof {
            assert(d[i - pos] == s@[i as int]);
            assert(d.take(i - pos + 1).drop_last() =~= d.take(i - pos));
            assert(d.take(i - pos + 1).last() == d[i - pos]);
            assert(dec_val(d.take(i - pos + 1)) == (acc as int) * 10 + (b - 48));
        }
        let wide: u128 = (acc as u128) * 10 + ((b - 48) as u128);
        if wide > u64::MAX as u128 {
            proof {
                crate::query::lemma_dec_val_mono(d, i - pos + 1);
                assert(dec_val(d) > u64::MAX);
            }
            return Option::None;
        }
        acc = wide as u64;
        i = i + 1;
    }
    proof {
        assert(d.take(j - pos) =~= d);
        assert(cur.skip(j - pos) =~= s@.skip(j as int));
    }
    Option::Some((acc, j))
}

/// A fixed literal from `pos`.
fn expect_x(s: &[u8], pos: usize, lit: &[u8]) -> (r: Option<usize>)
    requires
        pos <= s@.len(),
    ensures
        match r {
            Option::Some(p) => pos as int + lit@.len() == p && p <= s@.len() && expect(
                s@.skip(pos as int),
                lit@,
            ) == Option::Some(s@.skip(p as int)),
            Option::None => expect(s@.skip(pos as int), lit@) is None,
        },
{
    if s.len() - pos < lit.len() {
        return Option::None;
    }
    let end: usize = pos + lit.len();
    let mut k: usize = 0;
    while k < lit.len()
        invariant
            k <= lit@.len(),
            end == pos + lit@.len(),
            end <= s@.len(),
            forall|t: int| 0 <= t < k ==> s@[pos + t] == lit@[t],
        decreases lit@.len() - k,
    {
        let idx: usize = pos + k;
        if s[idx] != lit[k] {
            proof {
                assert(s@.skip(pos as int).take(lit@.len() as int)[k as int] == s@[pos + k]);
            }
            return Option::None;
        }
        k = k + 1;
    }
    proof {
        assert(s@.skip(pos as int).take(lit@.len() as int) =~= lit@);
        assert(s@.skip(pos as int).skip(lit@.len() as int) =~= s@.skip(
            pos as int + lit@.len() as int,
        ));
    }
    Option::Some(pos + lit.len())
}

/// One record from `pos`, mirroring `parse_book`.
fn parse_book_x(s: &[u8], pos: usize) -> (r: Option<(Book, usize)>)
    requires
        pos <= s@.len(),
    ensures
        match r {
            Option::Some((b, p)) => pos < p <= s@.len() && parse_book(s@.skip(pos as int))
                == Option::Some((b@, s@.skip(p as int))),
            Option::None => parse_book(s@.skip(pos as int)) is None,
        },
{
    let mut lt: Vec<u8> = Vec::new();
    push_lit_title(&mut lt);
    let mut la: Vec<u8> = Vec::new();
    push_lit_author(&mut la);
    let mut lx: Vec<u8> = Vec::new();
    push_lit_extension(&mut lx);
    let mut lf: Vec<u8> = Vec::new();
    push_lit_filesize(&mut lf);
    proof {
        assert(lt@ =~= lit_title());
        assert(la@ =~= lit_author());
        assert(lx@ =~= lit_extension());
        assert(lf@ =~= lit_filesize());
    }
    let p1 = match expect_x(s, pos, lt.as_slice()) {
        Option::Some(p) => p,
        Option::None => {
            return Option::None;
        },
    };
    let (tv, p2) = match parse_jstring_x(s, p1) {
        Option::Some(v) => v,
        Option::None => {
            return Option::None;
        },
    };
    let p3 = match expect_x(s, p2, la.as_slice()) {
        Option::Some(p) => p,
        Option::None => {
            return Option::None;
        },
    };
    let (av, p4) = match parse_jstring_x(s, p3) {
        Option::Some(v) => v,
        Option::None => {
            return Option::None;
        },
    };
    let p5 = match expect_x(s, p4, lx.as_slice()) {
        Option::Some(p) => p,
        Option::None => {
            return Option::None;
        },
    };
    let (xv, p6) = match parse_jstring_x(s, p5) {
        Option::Some(v) => v,
        Option::None => {
            return Option::None;
        },
    };
    let p7 = match expect_x(s, p6, lf.as_slice()) {
        Option::Some(p) => p,
        Option::None => {
            return Option::None;
        },
    };
    let (n, p8) = match parse_dec_x(s, p7) {
        Option::Some(v) => v,
        Option::None => {
            return Option::None;
        },
    };
    if !(p8 < s.len() && s[p8] == 125) {
        proof {
            if p8 < s@.len() {
                assert(s@.skip(p8 as int)[0] == s@[p8 as int]);
            }
        }
        return Option::None;
    }
    proof {
        assert(s@.skip(p8 as int)[0] == s@[p8 as int]);
        assert(s@.skip(p8 as int).skip(1) =~= s@.skip(p8 as int + 1));
    }
    let title = match string_from_utf8(tv) {
        Option::Some(t) => t,
        Option::None => {
            return Option::None;
        },
    };
    let author = match string_from_utf8(av) {
        Option::Some(a) => a,
        Option::None => {
            return Option::None;
        },
    };
    let extension = match string_from_utf8(xv) {
        Option::Some(x) => x,
        Option::None => {
            return Option::None;
        },
    };
    let book = Book { title, author, extension, filesize: n };
    Option::Some((book, p8 + 1))
}

/// The records of an array from `pos`, mirroring `parse_books_rest`.
#[verifier::rlimit(100)]
fn parse_books_rest_x(s: &[u8], pos: usize) -> (r: Option<(Vec<Book>, usize)>)
    requires
        pos <= s@.len(),
    ensures
        match r {
            Option::Some((v, p)) => pos < p <= s@.len() && parse_books_rest(s@.skip(pos as int))
                == Option::Some((books_seq_view(v@), s@.skip(p as int))),
            Option::None => parse_books_rest(s@.skip(pos as int)) is None,
        },
{
    let mut acc: Vec<Book> = Vec::new();
    let mut i: usize = pos;
    proof {
        assert(books_seq_view(acc@) =~= Seq::<BookSpec>::empty());
        match parse_books_rest(s@.skip(pos as int)) {
            Option::Some((bs, rr)) => {
                assert(books_seq_view(acc@) + bs =~= bs);
            },
            Option::None => {},
        }
    }
    loop
        invariant
            pos <= i <= s@.len(),
            (match parse_books_rest(s@.skip(i as int)) {
                Option::Some((bs, rr)) => parse_books_rest(s@.skip(pos as int)) == Option::Some(
                    (books_seq_view(acc@) + bs, rr),
                ),
                Option::None => parse_books_rest(s@.skip(pos as int)) is None,
            }),
        decreases s@.len() - i,
    {
        let ghost cur = s@.skip(i as int);
        let (b, p) = match parse_book_x(s, i) {
            Option::Some(v) => v,
            Option::None => {
                return Option::None;
            },
        };
        proof {
            assert(s@.skip(p as int).len() < cur.len());
        }
        if p < s.len() && s[p] == 44 {
            let ghost accv = books_seq_view(acc@);
            acc.push(b);
            proof {
                assert(s@.skip(p as int)[0] == s@[p as int]);
                assert(s@.skip(p as int).skip(1) =~= s@.skip(p as int + 1));
                assert(books_seq_view(acc@) =~= accv.push(b@));
                match parse_books_rest(s@.skip(p as int + 1)) {
                    Option::Some((bs, rr)) => {
                        assert(books_seq_view(acc@) + bs =~= accv + (seq![b@] + bs));
                    },
                    Option::None => {},
                }
            }
            i = p + 1;
        } else if p < s.len() && s[p] == 93 {
            let ghost accv = books_seq_view(acc@);
            acc.push(b);
            proof {
                assert(s@.skip(p as int)[0] == s@[p as int]);
                assert(s@.skip(p as int).skip(1) =~= s@.skip(p as int + 1));
                assert(books_seq_view(acc@) =~= accv.push(b@));
                assert(books_seq_view(acc@) =~= accv + seq![b@]);
            }
            return Option::Some((acc, p + 1));
        } else {
            proof {
                if p < s@.len() {
                    assert(s@.skip(p as int)[0] == s@[p as int]);
                }
            }
            return Option::None;
        }
    }
}

/// Parse a whole response body, mirroring `parse_search_result`: the
/// canonical serialised form of a search result, consumed completely.
pub fn parse_search_result_bytes(s: &[u8]) -> (r: Option<SearchResult>)
    ensures
        match r {
            Option::Some(res) => parse_search_result(s@) == Option::Some(res@),
            Option::None => parse_search_result(s@) is None,
        },
{
    let mut lb: Vec<u8> = Vec::new();
    push_lit_books_open(&mut lb);
    proof {
        assert(lb@ =~= lit_books_open());
        assert(s@.skip(0) =~= s@);
    }
    let p = match expect_x(s, 0, lb.as_slice()) {
        Option::Some(p) => p,
        Option::None => {
            return Option::None;
        },
    };
    if p < s.len() && s[p] == 93 {
        proof {
            assert(s@.skip(p as int)[0] == s@[p as int]);
        }
        if s.len() - p == 2 && s[p + 1] == 125 {
            proof {
                assert(s@.skip(p as int)[1] == s@[p as int + 1]);
                assert(books_seq_view(Seq::<Book>::empty()) =~= Seq::<BookSpec>::empty());
            }
            let res = SearchResult { books: Vec::new() };
            proof {
                assert(res@ =~= Seq::<BookSpec>::empty());
            }
            return Option::Some(res);
        } else {
            proof {
                if s@.skip(p as int).len() >= 2 {
                    assert(s@.skip(p as int)[1] == s@[p as int + 1]);
                }
            }
            return Option::None;
        }
    }
    proof {
        if p < s@.len() {
            assert(s@.skip(p as int)[0] == s@[p as int]);
        }
    }
    let (books, p2) = match parse_books_rest_x(s, p) {
        Option::Some(v) => v,
        Option::None => {
            return Option::None;
        },
    };
    if s.len() - p2 == 1 && s[p2] == 125 {
        proof {
            assert(s@.skip(p2 as int)[0] == s@[p2 as int]);
            assert(s@.skip(p2 as int).len() == 1);
        }
        let res = SearchResult { books };
        Option::Some(res)
    } else {
        proof {
            if p2 < s@.len() {
                assert(s@.skip(p2 as int)[0] == s@[p2 as int]);
            }
        }
        Option::None
    }
}

} // verus!
