use vstd::prelude::*;

verus! {

use vstd::utf8::encode_utf8;

// ---------------------------------------------------------------------------
// The response body.
//
// A search result is written as the JSON object `{"books":[...]}`: one
// object per record, records in engine order, strings escaped, sizes in
// decimal.  The encoding below is the specification, `encode_search_result`
// produces exactly those bytes, and the parser further down reads them back;
// the round trip is proved in `round_trip.rs`.
// ---------------------------------------------------------------------------

/// One search result record.  The record is produced by the engine and
/// carried through unchanged; these are the attributes the response body
/// serialises.
pub struct Book {
    pub title: String,
    pub author: String,
    pub extension: String,
    pub filesize: u64,
}

/// The ghost value of a record: each text attribute as its UTF-8 bytes.
pub struct BookSpec {
    pub title: Seq<u8>,
    pub author: Seq<u8>,
    pub extension: Seq<u8>,
    pub filesize: u64,
}

impl View for Book {
    type V = BookSpec;

    open spec fn view(&self) -> BookSpec {
        BookSpec {
            title: encode_utf8(self.title@),
            author: encode_utf8(self.author@),
            extension: encode_utf8(self.extension@),
            filesize: self.filesize,
        }
    }
}

/// The ordered records a search returned, as the response wraps them.
pub struct SearchResult {
    pub books: Vec<Book>,
}

/// The ghost value of a record list.
pub open spec fn books_seq_view(bs: Seq<Book>) -> Seq<BookSpec> {
    Seq::new(bs.len(), |i: int| bs[i]@)
}

impl View for SearchResult {
    type V = Seq<BookSpec>;

    open spec fn view(&self) -> Seq<BookSpec> {
        books_seq_view(self.books@)
    }
}

// ---------------------------------------------------------------------------
// Spec encoding.
// ---------------------------------------------------------------------------

/// Hex digit byte, lower case.
pub open spec fn hex_digit_byte(n: u8) -> u8
    recommends
        n < 16,
{
    if n < 10 {
        (48 + n) as u8
    } else {
        (87 + n) as u8
    }
}

/// How one byte of a string appears inside a JSON string: quote and
/// backslash escaped, control bytes as `\u00XX`, all else verbatim.
pub open spec fn escape_byte(b: u8) -> Seq<u8> {
    if b == 34 {  // `"`
        seq![92u8, 34u8]
    } else if b == 92 {  // `\`
        seq![92u8, 92u8]
    } else if b < 32 {
        seq![92u8, 117u8, 48u8, 48u8, hex_digit_byte(b / 16), hex_digit_byte(b % 16)]
    } else {
        seq![b]
    }
}

pub open spec fn escape_bytes(s: Seq<u8>) -> Seq<u8>
    decreases s.len(),
{
    if s.len() == 0 {
        Seq::empty()
    } else {
        escape_byte(s[0]) + escape_bytes(s.skip(1))
    }
}

/// A JSON string: quote, escaped bytes, quote.
pub open spec fn json_string(b: Seq<u8>) -> Seq<u8> {
    seq![34u8] + escape_bytes(b) + seq![34u8]
}

/// Decimal digits of a non-negative number, most significant first.
pub open spec fn dec_digits(n: int) -> Seq<u8>
    recommends
        n >= 0,
    decreases n,
{
    if n < 10 {
        seq![(48 + n) as u8]
    } else {
        dec_digits(n / 10) + seq![(48 + n % 10) as u8]
    }
}

/// The bytes of `{"title":`.
pub open spec fn lit_title() -> Seq<u8> {
    seq![123u8, 34u8, 116u8, 105u8, 116u8, 108u8, 101u8, 34u8, 58u8]
}

/// The bytes of `,"author":`.
pub open spec fn lit_author() -> Seq<u8> {
    seq![44u8, 34u8, 97u8, 117u8, 116u8, 104u8, 111u8, 114u8, 34u8, 58u8]
}

/// The bytes of `,"extension":`.
pub open spec fn lit_extension() -> Seq<u8> {
    seq![44u8, 34u8, 101u8, 120u8, 116u8, 101u8, 110u8, 115u8, 105u8, 111u8, 110u8, 34u8, 58u8]
}

/// The bytes of `,"filesize":`.
pub open spec fn lit_filesize() -> Seq<u8> {
    seq![44u8, 34u8, 102u8, 105u8, 108u8, 101u8, 115u8, 105u8, 122u8, 101u8, 34u8, 58u8]
}

/// The bytes of `{"books":[`.
pub open spec fn lit_books_open() -> Seq<u8> {
    seq![123u8, 34u8, 98u8, 111u8, 111u8, 107u8, 115u8, 34u8, 58u8, 91u8]
}

/// One record as a JSON object.
pub open spec fn json_of_book(b: BookSpec) -> Seq<u8> {
    lit_title() + json_string(b.title) + lit_author() + json_string(b.author) + lit_extension()
        + json_string(b.extension) + lit_filesize() + dec_digits(b.filesize as int) + seq![125u8]
}

/// The records, comma-separated.
pub open spec fn json_of_books(bs: Seq<BookSpec>) -> Seq<u8>
    decreases bs.len(),
{
    if bs.len() == 0 {
        Seq::empty()
    } else if bs.len() == 1 {
        json_of_book(bs[0])
    } else {
        json_of_book(bs[0]) + seq![44u8] + json_of_books(bs.skip(1))
    }
}

/// The whole response body, `{"books":[...]}`.
pub open spec fn json_of_search_result(bs: Seq<BookSpec>) -> Seq<u8> {
    lit_books_open() + json_of_books(bs) + seq![93u8, 125u8]
}

// ---------------------------------------------------------------------------
// Executable encoding.
// ---------------------------------------------------------------------------

/// Appending a record to the list appends its object, with a comma when the
/// list was not empty.
pub proof fn lemma_json_of_books_snoc(bs: Seq<BookSpec>, b: BookSpec)
    ensures
        json_of_books(bs.push(b)) == if bs.len() == 0 {
            json_of_book(b)
        } else {
            json_of_books(bs) + seq![44u8] + json_of_books(seq![b])
        },
    decreases bs.len(),
{
    if bs.len() == 0 {
        assert(bs.push(b) =~= seq![b]);
        assert(json_of_books(seq![b]) == json_of_book(b));
    } else {
        assert(bs.push(b)[0] == bs[0]);
        assert(bs.push(b).skip(1) =~= bs.skip(1).push(b));
        lemma_json_of_books_snoc(bs.skip(1), b);
        if bs.len() == 1 {
            assert(bs.skip(1).len() == 0);
            assert(json_of_books(bs.push(b)) == json_of_book(bs[0]) + seq![44u8] + json_of_book(
                b,
            ));
            assert(json_of_books(bs) + seq![44u8] + json_of_books(seq![b]) =~= json_of_book(bs[0])
                + seq![44u8] + json_of_book(b));
        } else {
            assert(json_of_books(bs.push(b)) =~= json_of_books(bs) + seq![44u8] + json_of_books(
                seq![b],
            ));
        }
    }
}

pub(crate) fn push_lit_title(out: &mut Vec<u8>)
    ensures
        final(out)@ == old(out)@ + lit_title(),
{
    out.push(123);
    out.push(34);
    out.push(116);
    out.push(105);
    out.push(116);
    out.push(108);
    out.push(101);
    out.push(34);
    out.push(58);
    proof {
        assert(out@ =~= old(out)@ + lit_title());
    }
}

pub(crate) fn push_lit_author(out: &mut Vec<u8>)
    ensures
        final(out)@ == old(out)@ + lit_author(),
{
    out.push(44);
    out.push(34);
    out.push(97);
    out.push(117);
    out.push(116);
    out.push(104);
    out.push(111);
    out.push(114);
    out.push(34);
    out.push(58);
    proof {
        assert(out@ =~= old(out)@ + lit_author());
    }
}

pub(crate) fn push_lit_extension(out: &mut Vec<u8>)
    ensures
        final(out)@ == old(out)@ + lit_extension(),
{
    out.push(44);
    out.push(34);
    out.push(101);
    out.push(120);
    out.push(116);
    out.push(101);
    out.push(110);
    out.push(115);
    out.push(105);
    out.push(111);
    out.push(110);
    out.push(34);
    out.push(58);
    proof {
        assert(out@ =~= old(out)@ + lit_extension());
    }
}

pub(crate) fn push_lit_filesize(out: &mut Vec<u8>)
    ensures
        final(out)@ == old(out)@ + lit_filesize(),
{
    out.push(44);
    out.push(34);
    out.push(102);
    out.push(105);
    out.push(108);
    out.push(101);
    out.push(115);
    out.push(105);
    out.push(122);
    out.push(101);
    out.push(34);
    out.push(58);
    proof {
        assert(out@ =~= old(out)@ + lit_filesize());
    }
}

pub(crate) fn push_lit_books_open(out: &mut Vec<u8>)
    ensures
        final(out)@ == old(out)@ + lit_books_open(),
{
    out.push(123);
    out.push(34);
    out.push(98);
    out.push(111);
    out.push(111);
    out.push(107);
    out.push(115);
    out.push(34);
    out.push(58);
    out.push(91);
    proof {
        assert(out@ =~= old(out)@ + lit_books_open());
    }
}

/// Escaping distributes over concatenation.
pub proof fn lemma_escape_bytes_app(a: Seq<u8>, b: Seq<u8>)
    ensures
        escape_bytes(a + b) == escape_bytes(a) + escape_bytes(b),
    decreases a.len(),
{
    if a.len() == 0 {
        assert(a + b =~= b);
        assert(escape_bytes(a) =~= Seq::<u8>::empty());
        assert(escape_bytes(a) + escape_bytes(b) =~= escape_bytes(b));
    } else {
        assert((a + b)[0] == a[0]);
        assert((a + b).skip(1) =~= a.skip(1) + b);
        lemma_escape_bytes_app(a.skip(1), b);
        assert(escape_bytes(a + b) =~= escape_bytes(a) + escape_bytes(b));
    }
}

fn exec_hex_digit_byte(n: u8) -> (r: u8)
    requires
        n < 16,
    ensures
        r == hex_digit_byte(n),
{
    if n < 10 {
        48 + n
    } else {
        87 + n
    }
}

/// Append a JSON string for the given text bytes.
fn push_json_string(out: &mut Vec<u8>, s: &[u8])
    ensures
        final(out)@ == old(out)@ + json_string(s@),
{
    let ghost out0 = out@;
    out.push(34);
    let mut i: usize = 0;
    while i < s.len()
        invariant
            i <= s@.len(),
            out@ == out0 + seq![34u8] + escape_bytes(s@.take(i as int)),
        decreases s@.len() - i,
    {
        let b = s[i];
        proof {
            assert(s@.take(i as int + 1) =~= s@.take(i as int) + seq![b]);
            lemma_escape_bytes_app(s@.take(i as int), seq![b]);
            assert(seq![b].skip(1) =~= Seq::<u8>::empty());
            assert(escape_bytes(Seq::<u8>::empty()) == Seq::<u8>::empty());
            assert(escape_bytes(seq![b]) =~= escape_byte(b));
        }
        if b == 34 {
            out.push(92);
            out.push(34);
        } else if b == 92 {
            out.push(92);
            out.push(92);
        } else if b < 32 {
            out.push(92);
            out.push(117);
            out.push(48);
            out.push(48);
            out.push(exec_hex_digit_byte(b / 16));
            out.push(exec_hex_digit_byte(b % 16));
        } else {
            out.push(b);
        }
        proof {
            assert(out@ =~= out0 + seq![34u8] + escape_bytes(s@.take(i as int + 1)));
        }
        i = i + 1;
    }
    out.push(34);
    proof {
        assert(s@.take(s@.len() as int) =~= s@);
        assert(out@ =~= out0 + json_string(s@));
    }
}

/// Append the decimal digits of `n`.
fn push_dec(out: &mut Vec<u8>, n: u64)
    ensures
        final(out)@ == old(out)@ + dec_digits(n as int),
    decreases n,
{
    if n < 10 {
        out.push(48 + n as u8);
        proof {
            assert(out@ =~= old(out)@ + dec_digits(n as int));
        }
    } else {
        push_dec(out, n / 10);
        out.push(48 + (n % 10) as u8);
        proof {
            assert(out@ =~= old(out)@ + dec_digits(n as int));
        }
    }
}

/// Append one record as a JSON object.
fn push_book(out: &mut Vec<u8>, b: &Book)
    ensures
        final(out)@ == old(out)@ + json_of_book(b@),
{
    push_lit_title(out);
    push_json_string(out, b.title.as_str().as_bytes());
    push_lit_author(out);
    push_json_string(out, b.author.as_str().as_bytes());
    push_lit_extension(out);
    push_json_string(out, b.extension.as_str().as_bytes());
    push_lit_filesize(out);
    push_dec(out, b.filesize);
    out.push(125);
    proof {
        assert(out@ =~= old(out)@ + json_of_book(b@));
    }
}

/// The response body for a search result: exactly the bytes of
/// `json_of_search_result` on its records, in engine order.
pub fn encode_search_result(r: &SearchResult) -> (out: Vec<u8>)
    ensures
        out@ == json_of_search_result(r@),
{
    let mut out: Vec<u8> = Vec::new();
    push_lit_books_open(&mut out);
    let mut k: usize = 0;
    while k < r.books.len()
        invariant
            k <= r.books@.len(),
            out@ == lit_books_open() + json_of_books(r@.take(k as int)),
        decreases r.books@.len() - k,
    {
        if k > 0 {
            out.push(44);
        }
        push_book(&mut out, &r.books[k]);
        proof {
            assert(r@.take(k as int + 1) =~= r@.take(k as int).push(r.books@[k as int]@));
            lemma_json_of_books_snoc(r@.take(k as int), r.books@[k as int]@);
            if k == 0 {
                assert(out@ =~= lit_books_open() + json_of_books(r@.take(k as int + 1)));
            } else {
                assert(json_of_books(seq![r.books@[k as int]@]) == json_of_book(
                    r.books@[k as int]@,
                ));
                assert(out@ =~= lit_books_open() + json_of_books(r@.take(k as int + 1)));
            }
        }
        k = k + 1;
    }
    out.push(93);
    out.push(125);
    proof {
        assert(r@.take(r.books@.len() as int) =~= r@);
        assert(out@ =~= json_of_search_result(r@));
    }
    out
}

} // verus!
