//! Byte classes and small byte-sequence helpers used throughout the
//! message codecs: the RFC 9110 `tchar` and field-value classes, ASCII
//! case folding, and searching for separators.

use vstd::prelude::*;

verus! {

pub const CR: u8 = 13;
pub const LF: u8 = 10;
pub const SP: u8 = 32;
pub const HTAB: u8 = 9;
pub const COLON: u8 = 58;
pub const COMMA: u8 = 44;
pub const SLASH: u8 = 47;

/// The RFC 9110 `tchar` class: ASCII letters and digits plus
/// `! # $ % & ' * + - . ^ _ ` | ~`.
pub open spec fn is_tchar(b: u8) -> bool {
    ||| (65 <= b && b <= 90)
    ||| (97 <= b && b <= 122)
    ||| (48 <= b && b <= 57)
    ||| b == 33 || b == 35 || b == 36 || b == 37 || b == 38 || b == 39
    ||| b == 42 || b == 43 || b == 45 || b == 46 || b == 94 || b == 95
    ||| b == 96 || b == 124 || b == 126
}

/// A byte allowed inside a header field value: HTAB, SP, visible ASCII,
/// or obs-text (`0x80`-`0xFF`).
pub open spec fn is_field_byte(b: u8) -> bool {
    b == 9 || b == 32 || (33 <= b && b <= 126) || b >= 128
}

/// ASCII whitespace: SP, HTAB, LF, FF, CR.
pub open spec fn is_ascii_ws(b: u8) -> bool {
    b == 32 || b == 9 || b == 10 || b == 12 || b == 13
}

/// ASCII lower-casing of one byte.
pub open spec fn lower(b: u8) -> u8 {
    if 65 <= b && b <= 90 {
        (b + 32) as u8
    } else {
        b
    }
}

/// ASCII lower-casing of a byte sequence.
pub open spec fn lower_seq(s: Seq<u8>) -> Seq<u8> {
    s.map_values(|b: u8| lower(b))
}

/// Whether every byte of a header field name is in the `tchar` class.
pub fn is_valid_token(bytes: &[u8]) -> (r: bool)
    ensures
        r <==> forall|i: int| 0 <= i < bytes@.len() ==> is_tchar(bytes@[i]),
{
    let mut i: usize = 0;
    while i < bytes.len()
        invariant
            i <= bytes@.len(),
            forall|j: int| 0 <= j < i ==> is_tchar(bytes@[j]),
        decreases bytes@.len() - i,
    {
        let b = bytes[i];
        let ok = (65 <= b && b <= 90) || (97 <= b && b <= 122) || (48 <= b && b <= 57) || b == 33
            || b == 35 || b == 36 || b == 37 || b == 38 || b == 39 || b == 42 || b == 43 || b == 45
            || b == 46 || b == 94 || b == 95 || b == 96 || b == 124 || b == 126;
        if !ok {
            return false;
        }
        i += 1;
    }
    true
}

/// Whether every byte is allowed inside a header field value.
pub fn is_valid_field_value(bytes: &[u8]) -> (r: bool)
    ensures
        r <==> forall|i: int| 0 <= i < bytes@.len() ==> is_field_byte(bytes@[i]),
{
    let mut i: usize = 0;
    while i < bytes.len()
        invariant
            i <= bytes@.len(),
            forall|j: int| 0 <= j < i ==> is_field_byte(bytes@[j]),
        decreases bytes@.len() - i,
    {
        let b = bytes[i];
        if !(b == 9 || b == 32 || (33 <= b && b <= 126) || b >= 128) {
            return false;
        }
        i += 1;
    }
    true
}

/// Lower-cases one ASCII byte.
pub fn lower_byte(b: u8) -> (r: u8)
    ensures
        r == lower(b),
{
    if 65 <= b && b <= 90 {
        b + 32
    } else {
        b
    }
}

/// Lower-cases a byte string.
pub fn lower_bytes(s: &[u8]) -> (r: Vec<u8>)
    ensures
        r@ == lower_seq(s@),
{
    let mut out: Vec<u8> = Vec::new();
    let mut i: usize = 0;
    while i < s.len()
        invariant
            i <= s@.len(),
            out@ == lower_seq(s@.take(i as int)),
        decreases s@.len() - i,
    {
        out.push(lower_byte(s[i]));
        proof {
            assert(lower_seq(s@.take(i + 1 as int)) =~= lower_seq(s@.take(i as int)).push(
                lower(s@[i as int]),
            ));
        }
        i += 1;
    }
    proof {
        assert(s@.take(s@.len() as int) =~= s@);
    }
    out
}

/// Byte-for-byte equality of two byte strings.
pub fn bytes_eq(a: &[u8], b: &[u8]) -> (r: bool)
    ensures
        r <==> a@ == b@,
{
    if a.len() != b.len() {
        proof {
            assert(a@.len() != b@.len());
        }
        return false;
    }
    let mut i: usize = 0;
    while i < a.len()
        invariant
            i <= a@.len(),
            a@.len() == b@.len(),
            forall|j: int| 0 <= j < i ==> a@[j] == b@[j],
        decreases a@.len() - i,
    {
        if a[i] != b[i] {
            return false;
        }
        i += 1;
    }
    proof {
        assert(a@ =~= b@);
    }
    true
}

/// Appends a byte string to an output buffer.
pub fn append_slice(out: &mut Vec<u8>, s: &[u8])
    ensures
        final(out)@ == old(out)@ + s@,
{
    let mut i: usize = 0;
    while i < s.len()
        invariant
            i <= s@.len(),
            out@ == old(out)@ + s@.take(i as int),
        decreases s@.len() - i,
    {
        out.push(s[i]);
        proof {
            assert(old(out)@ + s@.take(i + 1 as int) =~= (old(out)@ + s@.take(i as int)).push(
                s@[i as int],
            ));
        }
        i += 1;
    }
    proof {
        assert(old(out)@ + s@.take(s@.len() as int) =~= old(out)@ + s@);
    }
}

/// Copies a byte string into an owned vector.
pub fn to_vec_bytes(s: &[u8]) -> (r: Vec<u8>)
    ensures
        r@ == s@,
{
    let mut out: Vec<u8> = Vec::new();
    append_slice(&mut out, s);
    out
}

/// Index of the first occurrence of `b` in `s`, if any.
pub open spec fn spec_find_byte(s: Seq<u8>, b: u8) -> Option<int>
    decreases s.len(),
{
    if s.len() == 0 {
        None
    } else if s[0] == b {
        Some(0)
    } else {
        match spec_find_byte(s.skip(1), b) {
            Some(i) => Some(i + 1),
            None => None,
        }
    }
}

/// `spec_find_byte` finds the first occurrence: the byte is there and no
/// earlier position holds it; `None` means the byte does not occur.
pub proof fn lemma_find_byte(s: Seq<u8>, b: u8)
    ensures
        match spec_find_byte(s, b) {
            Some(i) => 0 <= i < s.len() && s[i] == b && forall|j: int| 0 <= j < i ==> s[j] != b,
            None => forall|j: int| 0 <= j < s.len() ==> s[j] != b,
        },
    decreases s.len(),
{
    if s.len() > 0 && s[0] != b {
        lemma_find_byte(s.skip(1), b);
        let t = s.skip(1);
        match spec_find_byte(t, b) {
            Some(i) => {
                assert(s[i + 1] == t[i]);
                assert forall|j: int| 0 <= j < i + 1 implies s[j] != b by {
                    if j > 0 {
                        assert(t[j - 1] != b);
                        assert(s[j] == t[j - 1]);
                    }
                }
            },
            None => {
                assert forall|j: int| 0 <= j < s.len() implies s[j] != b by {
                    if j > 0 {
                        assert(t[j - 1] != b);
                        assert(s[j] == t[j - 1]);
                    }
                }
            },
        }
    }
}

/// Any position that holds `b` with no earlier occurrence is what
/// `spec_find_byte` returns.
pub proof fn lemma_find_byte_is(s: Seq<u8>, b: u8, i: int)
    requires
        0 <= i < s.len(),
        s[i] == b,
        forall|j: int| 0 <= j < i ==> s[j] != b,
    ensures
        spec_find_byte(s, b) == Some(i),
    decreases s.len(),
{
    if i > 0 {
        lemma_find_byte_is(s.skip(1), b, i - 1);
    }
}

/// When no position holds `b`, `spec_find_byte` returns `None`.
pub proof fn lemma_find_byte_none(s: Seq<u8>, b: u8)
    requires
        forall|j: int| 0 <= j < s.len() ==> s[j] != b,
    ensures
        spec_find_byte(s, b) == None::<int>,
    decreases s.len(),
{
    if s.len() > 0 {
        lemma_find_byte_none(s.skip(1), b);
    }
}

/// Index of the first occurrence of `b` in `s`, if any.
pub fn find_byte(s: &[u8], b: u8) -> (r: Option<usize>)
    ensures
        match r {
            Some(i) => i < s@.len() && spec_find_byte(s@, b) == Some(i as int),
            None => spec_find_byte(s@, b) == None::<int>,
        },
{
    let mut i: usize = 0;
    while i < s.len()
        invariant
            i <= s@.len(),
            forall|j: int| 0 <= j < i ==> s@[j] != b,
        decreases s@.len() - i,
    {
        if s[i] == b {
            proof {
                lemma_find_byte_is(s@, b, i as int);
            }
            return Some(i);
        }
        i += 1;
    }
    proof {
        lemma_find_byte_none(s@, b);
    }
    None
}

/// Index of the first CRLF pair in `s`, if any.
pub open spec fn spec_find_crlf(s: Seq<u8>) -> Option<int>
    decreases s.len(),
{
    if s.len() < 2 {
        None
    } else if s[0] == CR && s[1] == LF {
        Some(0)
    } else {
        match spec_find_crlf(s.skip(1)) {
            Some(i) => Some(i + 1),
            None => None,
        }
    }
}

/// `spec_find_crlf` finds the first CRLF pair; `None` means no pair occurs.
pub proof fn lemma_find_crlf(s: Seq<u8>)
    ensures
        match spec_find_crlf(s) {
            Some(i) => 0 <= i && i + 1 < s.len() && s[i] == CR && s[i + 1] == LF && forall|j: int|
                0 <= j < i ==> !((#[trigger] s[j]) == CR && s[j + 1] == LF),
            None => forall|j: int|
                0 <= j && j + 1 < s.len() ==> !((#[trigger] s[j]) == CR && s[j + 1] == LF),
        },
    decreases s.len(),
{
    if s.len() >= 2 && !(s[0] == CR && s[1] == LF) {
        lemma_find_crlf(s.skip(1));
        let t = s.skip(1);
        match spec_find_crlf(t) {
            Some(i) => {
                assert(s[i + 1] == t[i] && s[i + 2] == t[i + 1]);
                assert forall|j: int| 0 <= j < i + 1 implies !((#[trigger] s[j]) == CR && s[j + 1]
                    == LF) by {
                    if j > 0 {
                        assert(!(t[j - 1] == CR && t[j] == LF));
                        assert(s[j] == t[j - 1] && s[j + 1] == t[j]);
                    }
                }
            },
            None => {
                assert forall|j: int| 0 <= j && j + 1 < s.len() implies !((#[trigger] s[j]) == CR
                    && s[j + 1] == LF) by {
                    if j > 0 {
                        assert(!(t[j - 1] == CR && t[j] == LF));
                        assert(s[j] == t[j - 1] && s[j + 1] == t[j]);
                    }
                }
            },
        }
    }
}

/// Any position holding a CRLF pair with no earlier pair is what
/// `spec_find_crlf` returns.
pub proof fn lemma_find_crlf_is(s: Seq<u8>, i: int)
    requires
        0 <= i,
        i + 1 < s.len(),
        s[i] == CR,
        s[i + 1] == LF,
        forall|j: int| 0 <= j < i ==> !((#[trigger] s[j]) == CR && s[j + 1] == LF),
    ensures
        spec_find_crlf(s) == Some(i),
    decreases s.len(),
{
    if i > 0 {
        lemma_find_crlf_is(s.skip(1), i - 1);
    }
}

/// When no CRLF pair occurs, `spec_find_crlf` returns `None`.
pub proof fn lemma_find_crlf_none(s: Seq<u8>)
    requires
        forall|j: int| 0 <= j && j + 1 < s.len() ==> !((#[trigger] s[j]) == CR && s[j + 1] == LF),
    ensures
        spec_find_crlf(s) == None::<int>,
    decreases s.len(),
{
    if s.len() >= 2 {
        lemma_find_crlf_none(s.skip(1));
    }
}

/// A CRLF-free prefix followed by CRLF puts the first CRLF exactly at the
/// prefix's end, whatever follows.
pub proof fn lemma_find_crlf_boundary(line: Seq<u8>, rest: Seq<u8>)
    requires
        spec_find_crlf(line) == None::<int>,
    ensures
        spec_find_crlf(line + seq![CR, LF] + rest) == Some(line.len() as int),
{
    let s = line + seq![CR, LF] + rest;
    lemma_find_crlf(line);
    assert forall|j: int| 0 <= j < line.len() implies !((#[trigger] s[j]) == CR && s[j + 1]
        == LF) by {
        if j + 1 < line.len() {
            assert(s[j] == line[j] && s[j + 1] == line[j + 1]);
        } else {
            assert(s[j + 1] == CR);
        }
    }
    lemma_find_crlf_is(s, line.len() as int);
}

/// Index of the first CRLF pair in `s`, if any.
pub fn find_crlf(s: &[u8]) -> (r: Option<usize>)
    ensures
        match r {
            Some(i) => i + 1 < s@.len() && spec_find_crlf(s@) == Some(i as int),
            None => spec_find_crlf(s@) == None::<int>,
        },
{
    if s.len() < 1 {
        proof {
            lemma_find_crlf_none(s@);
        }
        return None;
    }
    let mut i: usize = 0;
    while i < s.len() - 1
        invariant
            s@.len() >= 1,
            i <= s@.len() - 1,
            forall|j: int| 0 <= j < i ==> !((#[trigger] s@[j]) == CR && s@[j + 1] == LF),
        decreases s@.len() - i,
    {
        if s[i] == CR && s[i + 1] == LF {
            proof {
                lemma_find_crlf_is(s@, i as int);
            }
            return Some(i);
        }
        i += 1;
    }
    proof {
        lemma_find_crlf_none(s@);
    }
    None
}

/// A `c`-free prefix followed by an occurrence of `c` puts the first
/// occurrence exactly at the prefix's end.
pub proof fn lemma_find_byte_boundary(a: Seq<u8>, b: Seq<u8>, c: u8)
    requires
        forall|j: int| 0 <= j < a.len() ==> a[j] != c,
        b.len() > 0,
        b[0] == c,
    ensures
        spec_find_byte(a + b, c) == Some(a.len() as int),
{
    let s = a + b;
    assert(s[a.len() as int] == c);
    assert forall|j: int| 0 <= j < a.len() implies s[j] != c by {
        assert(s[j] == a[j]);
    }
    lemma_find_byte_is(s, c, a.len() as int);
}

/// A sequence without CR holds no CRLF pair.
pub proof fn lemma_no_cr_no_crlf(s: Seq<u8>)
    requires
        forall|j: int| 0 <= j < s.len() ==> s[j] != CR,
    ensures
        spec_find_crlf(s) == None::<int>,
{
    lemma_find_crlf_none(s);
}

/// What remains after dropping leading ASCII whitespace.
pub open spec fn spec_trim_start(s: Seq<u8>) -> Seq<u8>
    decreases s.len(),
{
    if s.len() > 0 && is_ascii_ws(s[0]) {
        spec_trim_start(s.skip(1))
    } else {
        s
    }
}

/// What remains after dropping trailing ASCII whitespace.
pub open spec fn spec_trim_end(s: Seq<u8>) -> Seq<u8>
    decreases s.len(),
{
    if s.len() > 0 && is_ascii_ws(s.last()) {
        spec_trim_end(s.drop_last())
    } else {
        s
    }
}

/// What remains after dropping ASCII whitespace from both ends.
pub open spec fn spec_trim(s: Seq<u8>) -> Seq<u8> {
    spec_trim_end(spec_trim_start(s))
}

proof fn lemma_trim_start_step(s: Seq<u8>, i: int)
    requires
        0 <= i <= s.len(),
        forall|j: int| 0 <= j < i ==> is_ascii_ws(s[j]),
    ensures
        spec_trim_start(s) == spec_trim_start(s.skip(i)),
    decreases i,
{
    if i > 0 {
        lemma_trim_start_step(s, i - 1);
        let t = s.skip(i - 1);
        assert(t[0] == s[i - 1]);
        assert(t.len() > 0 && is_ascii_ws(t[0]));
        assert(spec_trim_start(t) == spec_trim_start(t.skip(1)));
        assert(t.skip(1) =~= s.skip(i));
    } else {
        assert(s.skip(0) =~= s);
    }
}

proof fn lemma_trim_end_step(s: Seq<u8>, i: int)
    requires
        0 <= i <= s.len(),
        forall|j: int| i <= j < s.len() ==> is_ascii_ws(s[j]),
    ensures
        spec_trim_end(s) == spec_trim_end(s.take(i)),
    decreases s.len() - i,
{
    if i < s.len() {
        assert(is_ascii_ws(s.last()));
        lemma_trim_end_step(s.drop_last(), i);
        assert(s.drop_last().take(i) =~= s.take(i));
    } else {
        assert(s.take(i) =~= s);
    }
}

/// Whether `b` is ASCII whitespace.
pub fn is_ws(b: u8) -> (r: bool)
    ensures
        r == is_ascii_ws(b),
{
    b == 32 || b == 9 || b == 10 || b == 12 || b == 13
}

/// Drops ASCII whitespace from both ends of a byte string.
pub fn trim_bytes(s: &[u8]) -> (r: Vec<u8>)
    ensures
        r@ == spec_trim(s@),
{
    let mut start: usize = 0;
    while start < s.len() && is_ws(s[start])
        invariant
            start <= s@.len(),
            forall|j: int| 0 <= j < start ==> is_ascii_ws(s@[j]),
        decreases s@.len() - start,
    {
        start += 1;
    }
    proof {
        lemma_trim_start_step(s@, start as int);
    }
    if start == s.len() {
        proof {
            assert(s@.skip(start as int) =~= Seq::<u8>::empty());
        }
        return Vec::new();
    }
    // s[start] is not whitespace, so trimming the start stops exactly here.
    let mut end: usize = s.len();
    while end > start && is_ws(s[end - 1])
        invariant
            start <= end <= s@.len(),
            forall|j: int| end <= j < s@.len() ==> is_ascii_ws(s@[j]),
        decreases end,
    {
        end -= 1;
    }
    // s[end - 1] is not whitespace (end > start since s[start] is not).
    let mut out: Vec<u8> = Vec::new();
    append_slice(&mut out, &s[start..end]);
    proof {
        let t = s@.skip(start as int);
        assert(spec_trim_start(s@) == t);
        lemma_trim_end_step(t, end - start as int);
        assert(t.take(end - start as int) =~= s@.subrange(start as int, end as int));
        assert(!is_ascii_ws(t.take(end - start as int).last()));
        assert(spec_trim_end(t.take(end - start as int)) == t.take(end - start as int));
    }
    out
}

} // verus!
