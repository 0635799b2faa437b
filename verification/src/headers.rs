//! Which of the headers that the coordinator hands out can be sent.

use vstd::prelude::*;
use vstd::utf8::encode_utf8;

verus! {

/// The greatest length of a header name, in bytes.
pub const MAX_HEADER_NAME_LEN: usize = 65_535;

/// Whether `b` may stand in a header name: a letter, a digit, or one of the
/// marks ``!#$%&'*+-.^_`|~``.
pub open spec fn is_name_byte(b: u8) -> bool {
    b == 33 || (35 <= b <= 39) || b == 42 || b == 43 || b == 45 || b == 46 || (48 <= b <= 57) || (
    65 <= b <= 90) || (94 <= b <= 122) || b == 124 || b == 126
}

/// Whether `b` may stand in a header value: a tab, or any byte from the
/// space on but the delete character.
pub open spec fn is_value_byte(b: u8) -> bool {
    b == 9 || (b >= 32 && b != 127)
}

/// Whether `name` can be the name of a header: its UTF-8 bytes are at least
/// one and at most [`MAX_HEADER_NAME_LEN`], and each may stand in a name.
pub open spec fn header_name_accepted(name: Seq<char>) -> bool {
    let bytes = encode_utf8(name);
    1 <= bytes.len() <= MAX_HEADER_NAME_LEN && forall|i: int|
        0 <= i < bytes.len() ==> is_name_byte(#[trigger] bytes[i])
}

/// Whether `value` can be the value of a header: each of its UTF-8 bytes may
/// stand in a value.
pub open spec fn header_value_accepted(value: Seq<char>) -> bool {
    let bytes = encode_utf8(value);
    forall|i: int| 0 <= i < bytes.len() ==> is_value_byte(#[trigger] bytes[i])
}

/// Calls `http::header::HeaderName::from_bytes` on the bytes of `name` and
/// tells whether it returned a header name. It refuses the empty name and a
/// name of more than `MAX_HEADER_NAME_LEN` bytes, and in any other a byte
/// that its table `HEADER_CHARS` maps to zero; the table maps to zero all
/// but the letters, the digits and the marks that `is_name_byte` lists.
#[verifier::external_body]
fn header_name_ok(name: &str) -> (ok: bool)
    ensures
        ok == header_name_accepted(name@),
{
    http::header::HeaderName::from_bytes(name.as_bytes()).is_ok()
}

/// Calls `http::header::HeaderValue::from_str` on `value` and tells whether
/// it returned a header value. It refuses a text with a byte that its
/// function `is_valid` refuses, which accepts the tab and every byte from 32
/// on but 127; so a text beyond ASCII is accepted, whatever the
/// documentation of the function says.
#[verifier::external_body]
fn header_value_ok(value: &str) -> (ok: bool)
    ensures
        ok == header_value_accepted(value@),
{
    http::header::HeaderValue::from_str(value).is_ok()
}

/// One header: a name and a value.
#[derive(Debug)]
pub struct Header {
    pub name: String,
    pub value: String,
}

impl Clone for Header {
    fn clone(&self) -> (out: Self)
        ensures
            out == *self,
    {
        Header { name: self.name.clone(), value: self.value.clone() }
    }
}

/// What was found of one header: whether its name and its value are
/// accepted.
#[derive(Clone, Copy, Debug, PartialEq, Eq, Structural)]
pub struct Verdict {
    pub name_ok: bool,
    pub value_ok: bool,
}

/// The verdict that the `http` crate passes on `h`.
pub open spec fn verdict_of(h: Header) -> Verdict {
    Verdict {
        name_ok: header_name_accepted(h.name@),
        value_ok: header_value_accepted(h.value@),
    }
}

/// The verdicts that the `http` crate passes on `headers`, in order.
pub open spec fn verdicts_of(headers: Seq<Header>) -> Seq<Verdict> {
    headers.map_values(|h: Header| verdict_of(h))
}

/// The headers among `headers` whose name and value are both accepted
/// according to `verdicts`, in order.
pub open spec fn kept(headers: Seq<Header>, verdicts: Seq<Verdict>) -> Seq<Header>
    recommends
        headers.len() == verdicts.len(),
    decreases headers.len(),
{
    if headers.len() == 0 || verdicts.len() == 0 {
        Seq::empty()
    } else {
        let rest = kept(headers.drop_last(), verdicts.drop_last());
        if verdicts.last().name_ok && verdicts.last().value_ok {
            rest.push(headers.last())
        } else {
            rest
        }
    }
}

/// The headers to send, given the verdict on each: those whose name and
/// value are both accepted. The others are dropped without a fault.
pub fn select_headers(headers: &Vec<Header>, verdicts: &Vec<Verdict>) -> (out: Vec<Header>)
    requires
        headers@.len() == verdicts@.len(),
    ensures
        out@ == kept(headers@, verdicts@),
{
    let mut out: Vec<Header> = Vec::new();
    let mut i: usize = 0;
    assert(headers@.take(0) =~= Seq::<Header>::empty());
    while i < headers.len()
        invariant
            i <= headers@.len() == verdicts@.len(),
            out@ == kept(headers@.take(i as int), verdicts@.take(i as int)),
        decreases headers@.len() - i,
    {
        proof {
            assert(headers@.take(i + 1).drop_last() =~= headers@.take(i as int));
            assert(verdicts@.take(i + 1).drop_last() =~= verdicts@.take(i as int));
        }
        if verdicts[i].name_ok && verdicts[i].value_ok {
            out.push(headers[i].clone());
        }
        i += 1;
    }
    assert(headers@.take(headers@.len() as int) =~= headers@);
    assert(verdicts@.take(verdicts@.len() as int) =~= verdicts@);
    out
}

/// The headers among `headers` that can be sent: those whose name and value
/// the `http` crate accepts, in order.
pub fn usable_headers(headers: &Vec<Header>) -> (out: Vec<Header>)
    ensures
        out@ == kept(headers@, verdicts_of(headers@)),
{
    let mut verdicts: Vec<Verdict> = Vec::new();
    let mut i: usize = 0;
    while i < headers.len()
        invariant
            i <= headers@.len(),
            verdicts@ == verdicts_of(headers@.take(i as int)),
        decreases headers@.len() - i,
    {
        let name_ok = header_name_ok(headers[i].name.as_str());
        let value_ok = header_value_ok(headers[i].value.as_str());
        verdicts.push(Verdict { name_ok, value_ok });
        assert(verdicts@ =~= verdicts_of(headers@.take(i + 1)));
        i += 1;
    }
    assert(headers@.take(headers@.len() as int) =~= headers@);
    select_headers(headers, &verdicts)
}

} // verus!
