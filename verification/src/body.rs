//! Body framing: resolving the framing discipline from the parsed headers
//! (content-length vs. chunked transfer coding) and decoding the body,
//! including the chunked sub-state machine.

use vstd::prelude::*;

use crate::ascii::{
    append_slice, bytes_eq, find_byte, lower_bytes, spec_find_byte, spec_find_crlf, spec_trim,
    to_vec_bytes, trim_bytes, COMMA, CR, LF,
};
use crate::errors::{BodyError, HeadersError, StreamError};
use crate::headers::{spec_lookup, spec_remove, spec_set, Entry, Headers};
use crate::numbers::{dec_bytes, parse_dec, parse_hex, spec_dec_bytes, spec_parse_dec,
    spec_parse_hex};
use crate::stream_reader::StreamReader;

verus! {

/// The framing disciplines a message body can use.
#[derive(Debug, PartialEq, Eq, Structural)]
pub enum Encoding {
    /// A body of exactly the given size; no body is size 0.
    Nothing(usize),
    /// A body delimited by size-prefixed chunks.
    Chunked,
}

/// The bytes of the `transfer-encoding` field name.
pub open spec fn spec_te_name() -> Seq<u8> {
    seq![116u8, 114, 97, 110, 115, 102, 101, 114, 45, 101, 110, 99, 111, 100, 105, 110, 103]
}

/// The bytes of the `content-length` field name.
pub open spec fn spec_cl_name() -> Seq<u8> {
    seq![99u8, 111, 110, 116, 101, 110, 116, 45, 108, 101, 110, 103, 116, 104]
}

/// The bytes of the `chunked` coding token.
pub open spec fn spec_chunked_token() -> Seq<u8> {
    seq![99u8, 104, 117, 110, 107, 101, 100]
}

/// Whether every comma-separated token of `v`, whitespace-trimmed, equals
/// `first`.
pub open spec fn spec_cl_tokens_all_eq(v: Seq<u8>, first: Seq<u8>) -> bool
    decreases v.len(),
{
    match spec_find_byte(v, COMMA) {
        None => spec_trim(v) == first,
        Some(i) => if 0 <= i < v.len() {
            spec_trim(v.take(i)) == first && spec_cl_tokens_all_eq(v.skip(i + 1), first)
        } else {
            spec_trim(v) == first
        },
    }
}

/// The first comma-separated token of `v`, whitespace-trimmed.
pub open spec fn spec_first_cl_token(v: Seq<u8>) -> Seq<u8> {
    match spec_find_byte(v, COMMA) {
        None => spec_trim(v),
        Some(i) => spec_trim(v.take(i)),
    }
}

/// The size a `Content-Length` value advertises: the value as one decimal
/// numeral, or, failing that, the common numeral of its comma-separated
/// tokens when they are all identical. `None` means the value is invalid.
pub open spec fn spec_content_length(v: Seq<u8>) -> Option<usize> {
    match spec_parse_dec(v) {
        Some(n) => Some(n),
        None => {
            if spec_cl_tokens_all_eq(v, spec_first_cl_token(v)) {
                spec_parse_dec(spec_first_cl_token(v))
            } else {
                None
            }
        },
    }
}

/// What framing the headers demand: both framing fields present is a
/// conflict; `transfer-encoding` must be exactly `chunked`; a
/// `content-length` must advertise a valid size; neither field means a
/// body of size 0.
pub open spec fn spec_get_encoding(es: Seq<Entry>) -> Result<Encoding, BodyError> {
    let te = spec_lookup(es, spec_te_name());
    let cl = spec_lookup(es, spec_cl_name());
    if te is Some && cl is Some {
        Err(BodyError::Header(HeadersError::InvalidHeaderFields))
    } else if te is Some {
        if te == Some(spec_chunked_token()) {
            Ok(Encoding::Chunked)
        } else {
            Err(BodyError::Header(HeadersError::InvalidHeaderFields))
        }
    } else if cl is Some {
        match spec_content_length(cl->Some_0) {
            Some(n) => Ok(Encoding::Nothing(n)),
            None => Err(BodyError::Header(HeadersError::InvalidContentLength)),
        }
    } else {
        Ok(Encoding::Nothing(0))
    }
}

/// The size a `Content-Length` value advertises, if it is valid.
fn content_length_value(v: &[u8]) -> (r: Option<usize>)
    ensures
        r == spec_content_length(v@),
{
    match parse_dec(v) {
        Some(n) => Some(n),
        None => {
            let first = match find_byte(v, COMMA) {
                None => trim_bytes(v),
                Some(i) => {
                    proof {
                        assert(v@.subrange(0, i as int) =~= v@.take(i as int));
                    }
                    trim_bytes(&v[0..i])
                },
            };
            let mut rest = to_vec_bytes(v);
            loop
                invariant
                    spec_parse_dec(v@) == None::<usize>,
                    first@ == spec_first_cl_token(v@),
                    spec_cl_tokens_all_eq(v@, first@) == spec_cl_tokens_all_eq(rest@, first@),
                decreases rest@.len(),
            {
                let ghost cur = rest@;
                match find_byte(rest.as_slice(), COMMA) {
                    None => {
                        let seg = trim_bytes(rest.as_slice());
                        if !bytes_eq(seg.as_slice(), first.as_slice()) {
                            return None;
                        }
                        return parse_dec(first.as_slice());
                    },
                    Some(c) => {
                        proof {
                            assert(cur.subrange(0, c as int) =~= cur.take(c as int));
                        }
                        let seg = trim_bytes(&rest.as_slice()[0..c]);
                        if !bytes_eq(seg.as_slice(), first.as_slice()) {
                            return None;
                        }
                        let n = rest.len();
                        let next = to_vec_bytes(&rest.as_slice()[c + 1..n]);
                        rest = next;
                        proof {
                            assert(rest@ =~= cur.skip(c + 1 as int));
                        }
                    },
                }
            }
        },
    }
}

/// Resolves the body framing that the headers demand.
pub fn get_encoding(headers: &Headers) -> (r: Result<Encoding, BodyError>)
    ensures
        r == spec_get_encoding(headers@),
{
    let te_name = [
        116u8, 114, 97, 110, 115, 102, 101, 114, 45, 101, 110, 99, 111, 100, 105, 110, 103,
    ];
    let cl_name = [99u8, 111, 110, 116, 101, 110, 116, 45, 108, 101, 110, 103, 116, 104];
    proof {
        assert(te_name@ =~= spec_te_name());
        assert(cl_name@ =~= spec_cl_name());
        assert(crate::ascii::lower_seq(te_name@) =~= spec_te_name());
        assert(crate::ascii::lower_seq(cl_name@) =~= spec_cl_name());
    }
    let te = headers.get(&te_name);
    let cl_present = headers.get(&cl_name).is_some();
    match te {
        Some(coding) => {
            if cl_present {
                return Err(BodyError::Header(HeadersError::InvalidHeaderFields));
            }
            let chunked = [99u8, 104, 117, 110, 107, 101, 100];
            proof {
                assert(chunked@ =~= spec_chunked_token());
            }
            if bytes_eq(coding.as_slice(), &chunked) {
                Ok(Encoding::Chunked)
            } else {
                Err(BodyError::Header(HeadersError::InvalidHeaderFields))
            }
        },
        None => {
            let cl = headers.get(&cl_name);
            match cl {
                Some(v) => match content_length_value(v.as_slice()) {
                    Some(n) => Ok(Encoding::Nothing(n)),
                    None => Err(BodyError::Header(HeadersError::InvalidContentLength)),
                },
                None => Ok(Encoding::Nothing(0)),
            }
        },
    }
}

/// What the chunked decoder yields from the stream `s` after having
/// collected `acc`: the body and the unconsumed rest, or the first error.
/// Each step reads a hexadecimal size line; size 0 ends the body, any
/// other size is followed by that many payload bytes and a CRLF.
pub open spec fn spec_decode_chunked(s: Seq<u8>, acc: Seq<u8>) -> Result<
    (Seq<u8>, Seq<u8>),
    BodyError,
>
    decreases s.len(),
{
    match spec_find_crlf(s) {
        None => Err(BodyError::IO(StreamError::EOF)),
        Some(i) => if 0 <= i && i + 1 < s.len() {
            let line = s.take(i);
            let rest = s.skip(i + 2);
            match spec_parse_hex(line) {
                None => Err(BodyError::MalformedChunkedSize),
                Some(k) => if k == 0 {
                    Ok((acc, rest))
                } else if rest.len() < k + 2 {
                    Err(BodyError::IO(StreamError::EOF))
                } else if rest[k as int] == CR && rest[k as int + 1] == LF {
                    spec_decode_chunked(rest.skip(k + 2 as int), acc + rest.take(k as int))
                } else {
                    Err(BodyError::MalformedChunkedBody)
                },
            }
        } else {
            Err(BodyError::IO(StreamError::EOF))
        },
    }
}

/// What body parsing yields: the (possibly updated) headers, the body, and
/// the unconsumed rest of the stream. Length framing reads exactly the
/// advertised size; chunked framing decodes the chunks, then records the
/// body length as `content-length` and drops `transfer-encoding`.
pub open spec fn spec_parse_body(es: Seq<Entry>, s: Seq<u8>) -> Result<
    (Seq<Entry>, Seq<u8>, Seq<u8>),
    BodyError,
> {
    match spec_get_encoding(es) {
        Err(e) => Err(e),
        Ok(Encoding::Nothing(n)) => if n == 0 {
            Ok((es, Seq::<u8>::empty(), s))
        } else if s.len() < n {
            Err(BodyError::IO(StreamError::EOF))
        } else {
            Ok((es, s.take(n as int), s.skip(n as int)))
        },
        Ok(Encoding::Chunked) => match spec_decode_chunked(s, Seq::<u8>::empty()) {
            Err(e) => Err(e),
            Ok((body, rest)) => Ok(
                (
                    spec_remove(
                        spec_set(es, spec_cl_name(), spec_dec_bytes(body.len())),
                        spec_te_name(),
                    ),
                    body,
                    rest,
                ),
            ),
        },
    }
}

/// Reads the message body that the headers announce. On the chunked path
/// the headers come back normalized: `content-length` holds the decoded
/// body's length and `transfer-encoding` is gone.
pub fn parse_body(headers: &mut Headers, reader: &mut StreamReader) -> (r: Result<
    Vec<u8>,
    BodyError,
>)
    requires
        old(headers).wf(),
        old(reader).wf(),
    ensures
        final(headers).wf(),
        final(reader).wf(),
        match r {
            Ok(body) => spec_parse_body(old(headers)@, old(reader)@) == Ok::<
                (Seq<Entry>, Seq<u8>, Seq<u8>),
                BodyError,
            >((final(headers)@, body@, final(reader)@)),
            Err(e) => spec_parse_body(old(headers)@, old(reader)@) == Err::<
                (Seq<Entry>, Seq<u8>, Seq<u8>),
                BodyError,
            >(e) && final(headers)@ == old(headers)@,
        },
{
    let encoding = match get_encoding(headers) {
        Ok(enc) => enc,
        Err(e) => {
            return Err(e);
        },
    };
    match encoding {
        Encoding::Nothing(n) => {
            if n == 0 {
                return Ok(Vec::new());
            }
            match reader.read_n(n) {
                Ok(body) => Ok(body),
                Err(_) => Err(BodyError::IO(StreamError::EOF)),
            }
        },
        Encoding::Chunked => {
            let mut body: Vec<u8> = Vec::new();
            loop
                invariant
                    headers.wf(),
                    headers@ == old(headers)@,
                    reader.wf(),
                    spec_get_encoding(old(headers)@) == Ok::<Encoding, BodyError>(
                        Encoding::Chunked,
                    ),
                    spec_decode_chunked(old(reader)@, Seq::<u8>::empty()) == spec_decode_chunked(
                        reader@,
                        body@,
                    ),
                decreases reader@.len(),
            {
                let ghost s = reader@;
                let ghost acc = body@;
                let line = match reader.read_line() {
                    Ok(line) => line,
                    Err(_) => {
                        proof {
                            assert(spec_decode_chunked(s, acc) == Err::<(Seq<u8>, Seq<u8>),
                                BodyError>(BodyError::IO(StreamError::EOF)));
                        }
                        return Err(BodyError::IO(StreamError::EOF));
                    },
                };
                proof {
                    crate::ascii::lemma_find_crlf(s);
                }
                let size = match parse_hex(line.as_slice()) {
                    Some(k) => k,
                    None => {
                        return Err(BodyError::MalformedChunkedSize);
                    },
                };
                if size == 0 {
                    proof {
                        assert(spec_decode_chunked(s, acc) == Ok::<(Seq<u8>, Seq<u8>), BodyError>(
                            (acc, s.skip(line@.len() + 2int)),
                        ));
                    }
                    let len = body.len();
                    let cl_name = [
                        99u8, 111, 110, 116, 101, 110, 116, 45, 108, 101, 110, 103, 116, 104,
                    ];
                    let te_name = [
                        116u8, 114, 97, 110, 115, 102, 101, 114, 45, 101, 110, 99, 111, 100, 105,
                        110, 103,
                    ];
                    proof {
                        assert(cl_name@ =~= spec_cl_name());
                        assert(te_name@ =~= spec_te_name());
                        assert(crate::ascii::lower_seq(cl_name@) =~= spec_cl_name());
                        assert(crate::ascii::lower_seq(te_name@) =~= spec_te_name());
                    }
                    let digits = dec_bytes(len);
                    headers.set(&cl_name, digits.as_slice());
                    headers.remove(&te_name);
                    return Ok(body);
                }
                let chunk = match reader.read_n(size) {
                    Ok(chunk) => chunk,
                    Err(_) => {
                        return Err(BodyError::IO(StreamError::EOF));
                    },
                };
                let ghost rest = s.skip(line@.len() + 2int);
                let pair = match reader.read_n(2) {
                    Ok(pair) => pair,
                    Err(_) => {
                        proof {
                            assert(rest.len() < size + 2);
                        }
                        return Err(BodyError::IO(StreamError::EOF));
                    },
                };
                proof {
                    assert(rest.len() >= size + 2);
                    assert(pair@.len() == 2);
                    assert(pair@[0] == rest.skip(size as int)[0] && pair@[1] == rest.skip(
                        size as int,
                    )[1]);
                    assert(rest.skip(size as int)[0] == rest[size as int]);
                    assert(rest.skip(size as int)[1] == rest[size as int + 1]);
                }
                if !(pair[0] == CR && pair[1] == LF) {
                    return Err(BodyError::MalformedChunkedBody);
                }
                let ghost pre = body@;
                append_slice(&mut body, chunk.as_slice());
                proof {
                    assert(chunk@ == rest.take(size as int));
                    assert(reader@ =~= rest.skip(size as int).skip(2));
                    assert(rest.skip(size as int).skip(2) =~= rest.skip(size + 2 as int));
                    assert(body@ == acc + rest.take(size as int));
                    assert(spec_decode_chunked(s, acc) == spec_decode_chunked(
                        rest.skip(size + 2 as int),
                        acc + rest.take(size as int),
                    ));
                }
            }
        },
    }
}

/// The chunked encoding of a body split into the given chunks: each
/// chunk's size in hexadecimal, CRLF, the chunk, CRLF; then the final
/// zero-size line.
pub open spec fn spec_chunk_encode(chunks: Seq<Seq<u8>>) -> Seq<u8>
    decreases chunks.len(),
{
    if chunks.len() == 0 {
        seq![48u8, CR, LF]
    } else {
        crate::numbers::spec_hex_bytes(chunks[0].len()) + seq![CR, LF] + chunks[0] + seq![CR, LF]
            + spec_chunk_encode(chunks.skip(1))
    }
}

/// Decoding a chunked encoding yields the concatenated chunks and leaves
/// whatever follows the zero-size line untouched, whatever bytes — CRLF
/// included — the chunks hold.
proof fn lemma_decode_chunk_encode(chunks: Seq<Seq<u8>>, acc: Seq<u8>, tail: Seq<u8>)
    requires
        forall|i: int| 0 <= i < chunks.len() ==> 0 < (#[trigger] chunks[i]).len() <= usize::MAX,
    ensures
        spec_decode_chunked(spec_chunk_encode(chunks) + tail, acc) == Ok::<
            (Seq<u8>, Seq<u8>),
            BodyError,
        >((acc + chunks.flatten(), tail)),
    decreases chunks.len(),
{
    let s = spec_chunk_encode(chunks) + tail;
    if chunks.len() == 0 {
        assert(s =~= seq![48u8] + seq![CR, LF] + tail);
        assert(spec_find_crlf(seq![48u8]) == None::<int>) by {
            crate::ascii::lemma_find_crlf_none(seq![48u8]);
        }
        crate::ascii::lemma_find_crlf_boundary(seq![48u8], tail);
        assert(s.take(1) =~= seq![48u8]);
        assert(crate::numbers::hex_val(seq![48u8]) == 0) by {
            assert(seq![48u8].drop_last() =~= Seq::<u8>::empty());
            assert(crate::numbers::hex_val(Seq::<u8>::empty()) == 0);
            assert(crate::numbers::hex_digit_val(48u8) == 0);
        }
        assert(spec_parse_hex(seq![48u8]) == Some(0usize));
        assert(s.skip(3) =~= tail);
        assert(chunks.flatten() =~= Seq::<Seq<u8>>::empty().flatten());
        assert(Seq::<Seq<u8>>::empty().flatten() =~= Seq::<u8>::empty());
        assert(acc + chunks.flatten() =~= acc);
    } else {
        let c = chunks[0];
        let k = c.len();
        let digits = crate::numbers::spec_hex_bytes(k);
        let s1 = spec_chunk_encode(chunks.skip(1)) + tail;
        crate::numbers::lemma_hex_bytes_roundtrip(k);
        assert(s =~= digits + seq![CR, LF] + (c + seq![CR, LF] + s1));
        assert forall|j: int| 0 <= j < digits.len() implies digits[j] != CR by {
            assert(crate::numbers::is_hex_digit(digits[j]));
        }
        crate::ascii::lemma_no_cr_no_crlf(digits);
        crate::ascii::lemma_find_crlf_boundary(digits, c + seq![CR, LF] + s1);
        assert(spec_find_crlf(s) == Some(digits.len() as int));
        assert(s.take(digits.len() as int) =~= digits);
        assert(spec_parse_hex(digits) == Some(k as usize));
        let rest = s.skip(digits.len() + 2int);
        assert(rest =~= c + seq![CR, LF] + s1);
        assert(rest.len() >= k + 2);
        assert(rest[k as int] == CR && rest[k as int + 1] == LF);
        assert(rest.take(k as int) =~= c);
        assert(rest.skip(k + 2int) =~= s1);
        lemma_decode_chunk_encode(chunks.skip(1), acc + c, tail);
        assert(spec_decode_chunked(s, acc) == spec_decode_chunked(s1, acc + c));
        assert(chunks.flatten() == c + chunks.skip(1).flatten()) by {
            assert(chunks.flatten() == chunks.first() + chunks.drop_first().flatten());
            assert(chunks.drop_first() =~= chunks.skip(1));
        }
        assert((acc + c) + chunks.skip(1).flatten() =~= acc + chunks.flatten());
    }
}

/// Chunked equivalence: for a body split into chunks of positive sizes,
/// encoding then parsing under a `transfer-encoding: chunked` header
/// block yields the concatenated body, records its length under
/// `content-length`, and drops `transfer-encoding`.
pub proof fn lemma_chunked_equivalence(chunks: Seq<Seq<u8>>, es: Seq<Entry>, tail: Seq<u8>)
    requires
        forall|i: int| 0 <= i < chunks.len() ==> 0 < (#[trigger] chunks[i]).len() <= usize::MAX,
        crate::headers::entries_sorted(es),
        spec_lookup(es, spec_te_name()) == Some(spec_chunked_token()),
        spec_lookup(es, spec_cl_name()) == None::<Seq<u8>>,
    ensures
        ({
            let body = chunks.flatten();
            let es2 = spec_remove(spec_set(es, spec_cl_name(), spec_dec_bytes(body.len())),
                spec_te_name());
            &&& spec_parse_body(es, spec_chunk_encode(chunks) + tail) == Ok::<
                (Seq<Entry>, Seq<u8>, Seq<u8>),
                BodyError,
            >((es2, body, tail))
            &&& spec_lookup(es2, spec_cl_name()) == Some(spec_dec_bytes(body.len()))
            &&& spec_lookup(es2, spec_te_name()) == None::<Seq<u8>>
        }),
{
    let body = chunks.flatten();
    lemma_decode_chunk_encode(chunks, Seq::<u8>::empty(), tail);
    assert(Seq::<u8>::empty() + body =~= body);
    let es1 = spec_set(es, spec_cl_name(), spec_dec_bytes(body.len()));
    crate::headers::lemma_set_sorted(es, spec_cl_name(), spec_dec_bytes(body.len()));
    crate::headers::lemma_lookup_set(es, spec_cl_name(), spec_dec_bytes(body.len()),
        spec_cl_name());
    crate::headers::lemma_lookup_set(es, spec_cl_name(), spec_dec_bytes(body.len()),
        spec_te_name());
    crate::headers::lemma_lookup_remove(es1, spec_te_name(), spec_cl_name());
    crate::headers::lemma_lookup_remove(es1, spec_te_name(), spec_te_name());
    assert(spec_cl_name() != spec_te_name());
}

/// Length enforcement: when the headers announce a body of `n` bytes and
/// the stream ends earlier, body parsing fails with an unexpected end —
/// it never succeeds with a short body.
pub proof fn lemma_length_enforcement(es: Seq<Entry>, s: Seq<u8>, v: Seq<u8>, n: usize)
    requires
        spec_lookup(es, spec_cl_name()) == Some(v),
        spec_lookup(es, spec_te_name()) == None::<Seq<u8>>,
        spec_content_length(v) == Some(n),
        s.len() < n,
    ensures
        spec_parse_body(es, s) == Err::<(Seq<Entry>, Seq<u8>, Seq<u8>), BodyError>(
            BodyError::IO(StreamError::EOF),
        ),
{
}

/// Framing conflict: headers that carry both `transfer-encoding` and
/// `content-length` make body parsing fail with `InvalidHeaderFields`,
/// whatever the stream holds.
pub proof fn lemma_framing_conflict(es: Seq<Entry>, s: Seq<u8>)
    requires
        spec_lookup(es, spec_te_name()) is Some,
        spec_lookup(es, spec_cl_name()) is Some,
    ensures
        spec_get_encoding(es) == Err::<Encoding, BodyError>(
            BodyError::Header(HeadersError::InvalidHeaderFields),
        ),
        spec_parse_body(es, s) == Err::<(Seq<Entry>, Seq<u8>, Seq<u8>), BodyError>(
            BodyError::Header(HeadersError::InvalidHeaderFields),
        ),
{
}

} // verus!
