//! The header block: a mapping from case-normalized field names to values,
//! kept as an association list sorted by name, so serialization order is
//! deterministic and map equality is plain sequence equality.

use vstd::prelude::*;

use crate::ascii::{
    bytes_eq, is_field_byte, is_tchar, lower_bytes, lower_seq, spec_find_byte, spec_find_crlf,
    spec_trim, to_vec_bytes, trim_bytes, append_slice, find_byte, find_crlf, is_valid_token,
    is_valid_field_value, lemma_find_byte, COLON, COMMA, CR, LF, SP,
};
use crate::errors::HeadersError;

verus! {

/// One stored field: (lower-cased name, value).
pub type Entry = (Seq<u8>, Seq<u8>);

/// Strict lexicographic byte order.
pub open spec fn lex_lt(a: Seq<u8>, b: Seq<u8>) -> bool
    decreases a.len(),
{
    if b.len() == 0 {
        false
    } else if a.len() == 0 {
        true
    } else if a[0] < b[0] {
        true
    } else if a[0] > b[0] {
        false
    } else {
        lex_lt(a.skip(1), b.skip(1))
    }
}

pub proof fn lemma_lex_lt_irrefl(a: Seq<u8>)
    ensures
        !lex_lt(a, a),
    decreases a.len(),
{
    if a.len() > 0 {
        lemma_lex_lt_irrefl(a.skip(1));
    }
}

pub proof fn lemma_lex_lt_total(a: Seq<u8>, b: Seq<u8>)
    requires
        a != b,
    ensures
        lex_lt(a, b) || lex_lt(b, a),
    decreases a.len(),
{
    if a.len() == 0 && b.len() == 0 {
        assert(a =~= b);
    } else if a.len() > 0 && b.len() > 0 && a[0] == b[0] {
        assert(a.skip(1) != b.skip(1)) by {
            if a.skip(1) == b.skip(1) {
                assert(a.skip(1).len() == b.skip(1).len());
                assert(a.len() == b.len());
                assert forall|i: int| 0 <= i < a.len() implies a[i] == b[i] by {
                    if i > 0 {
                        assert(a[i] == a.skip(1)[i - 1] && b[i] == b.skip(1)[i - 1]);
                    }
                }
                assert(a =~= b);
            }
        }
        lemma_lex_lt_total(a.skip(1), b.skip(1));
    }
}

pub proof fn lemma_lex_lt_asym(a: Seq<u8>, b: Seq<u8>)
    requires
        lex_lt(a, b),
    ensures
        !lex_lt(b, a),
        a != b,
    decreases a.len(),
{
    lemma_lex_lt_irrefl(a);
    if a.len() > 0 && b.len() > 0 && a[0] == b[0] {
        lemma_lex_lt_asym(a.skip(1), b.skip(1));
        assert(a != b) by {
            if a == b {
                lemma_lex_lt_irrefl(a);
            }
        }
    }
}

pub proof fn lemma_lex_lt_trans(a: Seq<u8>, b: Seq<u8>, c: Seq<u8>)
    requires
        lex_lt(a, b),
        lex_lt(b, c),
    ensures
        lex_lt(a, c),
    decreases a.len() + b.len() + c.len(),
{
    if a.len() > 0 && b.len() > 0 && c.len() > 0 {
        if a[0] == b[0] && b[0] == c[0] {
            lemma_lex_lt_trans(a.skip(1), b.skip(1), c.skip(1));
        }
    }
}

/// Entries sorted strictly ascending by name; names are therefore unique.
pub open spec fn entries_sorted(es: Seq<Entry>) -> bool {
    forall|i: int| 0 <= i < es.len() - 1 ==> lex_lt(#[trigger] es[i].0, es[i + 1].0)
}

/// Sortedness orders any two positions, so names never repeat.
pub proof fn lemma_sorted_distinct(es: Seq<Entry>, i: int, j: int)
    requires
        entries_sorted(es),
        0 <= i < j < es.len(),
    ensures
        lex_lt(es[i].0, es[j].0),
        es[i].0 != es[j].0,
    decreases j - i,
{
    if i + 1 == j {
        lemma_lex_lt_asym(es[i].0, es[j].0);
    } else {
        lemma_sorted_distinct(es, i + 1, j);
        lemma_lex_lt_trans(es[i].0, es[i + 1].0, es[j].0);
        lemma_lex_lt_asym(es[i].0, es[j].0);
    }
}

/// The value stored under `k`, if any.
pub open spec fn spec_lookup(es: Seq<Entry>, k: Seq<u8>) -> Option<Seq<u8>>
    decreases es.len(),
{
    if es.len() == 0 {
        None
    } else if es[0].0 == k {
        Some(es[0].1)
    } else {
        spec_lookup(es.skip(1), k)
    }
}

/// `es` with `k` bound to `v`, inserted in sorted position.
pub open spec fn spec_set(es: Seq<Entry>, k: Seq<u8>, v: Seq<u8>) -> Seq<Entry>
    decreases es.len(),
{
    if es.len() == 0 {
        seq![(k, v)]
    } else if lex_lt(k, es[0].0) {
        seq![(k, v)] + es
    } else if k == es[0].0 {
        seq![(k, v)] + es.skip(1)
    } else {
        seq![es[0]] + spec_set(es.skip(1), k, v)
    }
}

/// `es` without any binding for `k`.
pub open spec fn spec_remove(es: Seq<Entry>, k: Seq<u8>) -> Seq<Entry>
    decreases es.len(),
{
    if es.len() == 0 {
        es
    } else if es[0].0 == k {
        es.skip(1)
    } else {
        seq![es[0]] + spec_remove(es.skip(1), k)
    }
}

/// The comma-fold value `add` stores on a duplicate name.
pub open spec fn spec_joined(old_v: Seq<u8>, v: Seq<u8>) -> Seq<u8> {
    old_v + seq![COMMA] + v
}

/// `es` after an `add`: a fresh name is inserted, a duplicate folds the new
/// value onto the old one joined by a comma.
pub open spec fn spec_add(es: Seq<Entry>, k: Seq<u8>, v: Seq<u8>) -> Seq<Entry> {
    match spec_lookup(es, k) {
        Some(old_v) => spec_set(es, k, spec_joined(old_v, v)),
        None => spec_set(es, k, v),
    }
}

pub proof fn lemma_set_sorted(es: Seq<Entry>, k: Seq<u8>, v: Seq<u8>)
    requires
        entries_sorted(es),
    ensures
        entries_sorted(spec_set(es, k, v)),
        spec_set(es, k, v).len() >= 1,
        spec_set(es, k, v).len() <= es.len() + 1,
    decreases es.len(),
{
    let r = spec_set(es, k, v);
    if es.len() == 0 {
    } else if lex_lt(k, es[0].0) {
        assert forall|i: int| 0 <= i < r.len() - 1 implies lex_lt(#[trigger] r[i].0, r[i + 1].0) by {
            if i > 0 {
                assert(r[i] == es[i - 1] && r[i + 1] == es[i]);
            }
        }
    } else if k == es[0].0 {
        assert forall|i: int| 0 <= i < r.len() - 1 implies lex_lt(#[trigger] r[i].0, r[i + 1].0) by {
            if i == 0 {
                assert(r[1] == es.skip(1)[0]);
                assert(lex_lt(es[0].0, es[1].0));
            } else {
                assert(r[i] == es[i] && r[i + 1] == es[i + 1]);
            }
        }
    } else {
        assert(entries_sorted(es.skip(1))) by {
            assert forall|i: int| 0 <= i < es.skip(1).len() - 1 implies lex_lt(
                #[trigger] es.skip(1)[i].0,
                es.skip(1)[i + 1].0,
            ) by {
                assert(es.skip(1)[i] == es[i + 1] && es.skip(1)[i + 1] == es[i + 2]);
            }
        }
        lemma_set_sorted(es.skip(1), k, v);
        let inner = spec_set(es.skip(1), k, v);
        lemma_lex_lt_total(k, es[0].0);
        // head of inner is either (k, v) or the old head of the tail; the
        // head of es is below both.
        assert(lex_lt(es[0].0, inner[0].0)) by {
            if es.skip(1).len() == 0 {
                assert(inner[0] == (k, v));
            } else if lex_lt(k, es.skip(1)[0].0) {
                assert(inner[0] == (k, v));
            } else if k == es.skip(1)[0].0 {
                assert(inner[0] == (k, v));
                assert(es.skip(1)[0] == es[1]);
                assert(lex_lt(es[0].0, es[1].0));
            } else {
                assert(inner[0] == es.skip(1)[0]);
                assert(es.skip(1)[0] == es[1]);
                assert(lex_lt(es[0].0, es[1].0));
            }
        }
        assert forall|i: int| 0 <= i < r.len() - 1 implies lex_lt(#[trigger] r[i].0, r[i + 1].0) by {
            if i == 0 {
                assert(r[0] == es[0] && r[1] == inner[0]);
            } else {
                assert(r[i] == inner[i - 1] && r[i + 1] == inner[i]);
            }
        }
    }
}

pub proof fn lemma_remove_sorted(es: Seq<Entry>, k: Seq<u8>)
    requires
        entries_sorted(es),
    ensures
        entries_sorted(spec_remove(es, k)),
        spec_remove(es, k).len() <= es.len(),
    decreases es.len(),
{
    let r = spec_remove(es, k);
    if es.len() == 0 {
    } else if es[0].0 == k {
        assert forall|i: int| 0 <= i < r.len() - 1 implies lex_lt(#[trigger] r[i].0, r[i + 1].0) by {
            assert(r[i] == es[i + 1] && r[i + 1] == es[i + 2]);
        }
    } else {
        assert(entries_sorted(es.skip(1))) by {
            assert forall|i: int| 0 <= i < es.skip(1).len() - 1 implies lex_lt(
                #[trigger] es.skip(1)[i].0,
                es.skip(1)[i + 1].0,
            ) by {
                assert(es.skip(1)[i] == es[i + 1] && es.skip(1)[i + 1] == es[i + 2]);
            }
        }
        lemma_remove_sorted(es.skip(1), k);
        let inner = spec_remove(es.skip(1), k);
        assert forall|i: int| 0 <= i < r.len() - 1 implies lex_lt(#[trigger] r[i].0, r[i + 1].0) by {
            if i == 0 {
                // the head of inner is some entry of the tail
                assert(inner[0] == r[1]);
                lemma_remove_head_from_tail(es, k);
            } else {
                assert(r[i] == inner[i - 1] && r[i + 1] == inner[i]);
            }
        }
    }
}

/// Every entry of `spec_remove(es, k)` is an entry of `es`.
proof fn lemma_remove_head_from_tail(es: Seq<Entry>, k: Seq<u8>)
    requires
        entries_sorted(es),
        es.len() > 0,
        es[0].0 != k,
        spec_remove(es.skip(1), k).len() > 0,
    ensures
        lex_lt(es[0].0, spec_remove(es.skip(1), k)[0].0),
    decreases es.len(),
{
    let t = es.skip(1);
    if t.len() > 0 {
        if t[0].0 == k {
            // removed head of tail; next survivor is t[1] == es[2]
            assert(spec_remove(t, k) == t.skip(1));
            assert(t.skip(1)[0] == es[2]);
            lemma_sorted_distinct(es, 0, 2);
        } else {
            assert(spec_remove(t, k)[0] == t[0]);
            assert(t[0] == es[1]);
        }
    }
}

/// Lookup after `set`: the new binding under its name, everything else
/// untouched.
pub proof fn lemma_lookup_set(es: Seq<Entry>, k: Seq<u8>, v: Seq<u8>, q: Seq<u8>)
    requires
        entries_sorted(es),
    ensures
        spec_lookup(spec_set(es, k, v), q) == if q == k {
            Some(v)
        } else {
            spec_lookup(es, q)
        },
    decreases es.len(),
{
    let r = spec_set(es, k, v);
    if es.len() == 0 {
        assert(r == seq![(k, v)]);
        assert(r.skip(1) =~= Seq::<Entry>::empty());
    } else if lex_lt(k, es[0].0) {
        assert(r == seq![(k, v)] + es);
        assert(r.skip(1) =~= es);
    } else if k == es[0].0 {
        assert(r == seq![(k, v)] + es.skip(1));
        assert(r.skip(1) =~= es.skip(1));
        if q != k {
            // q skips the replaced head either way
        }
    } else {
        assert(entries_sorted(es.skip(1))) by {
            assert forall|i: int| 0 <= i < es.skip(1).len() - 1 implies lex_lt(
                #[trigger] es.skip(1)[i].0,
                es.skip(1)[i + 1].0,
            ) by {
                assert(es.skip(1)[i] == es[i + 1] && es.skip(1)[i + 1] == es[i + 2]);
            }
        }
        lemma_lookup_set(es.skip(1), k, v, q);
        assert(r == seq![es[0]] + spec_set(es.skip(1), k, v));
        assert(r.skip(1) =~= spec_set(es.skip(1), k, v));
        assert(r[0] == es[0]);
    }
}

/// Lookup after `remove`: the name is gone, everything else untouched.
pub proof fn lemma_lookup_remove(es: Seq<Entry>, k: Seq<u8>, q: Seq<u8>)
    requires
        entries_sorted(es),
    ensures
        spec_lookup(spec_remove(es, k), q) == if q == k {
            None::<Seq<u8>>
        } else {
            spec_lookup(es, q)
        },
    decreases es.len(),
{
    let r = spec_remove(es, k);
    if es.len() == 0 {
    } else if es[0].0 == k {
        assert(r == es.skip(1));
        if q == k {
            // k does not recur past the head in a sorted list
            assert forall|i: int| 0 <= i < es.skip(1).len() implies lex_lt(
                es[0].0,
                #[trigger] es.skip(1)[i].0,
            ) by {
                assert(es.skip(1)[i] == es[i + 1]);
                lemma_sorted_distinct(es, 0, i + 1);
            }
            lemma_sorted_skip(es, 1);
            lemma_lookup_none_when_all_above(es.skip(1), k, es[0].0);
        }
    } else {
        assert(entries_sorted(es.skip(1))) by {
            assert forall|i: int| 0 <= i < es.skip(1).len() - 1 implies lex_lt(
                #[trigger] es.skip(1)[i].0,
                es.skip(1)[i + 1].0,
            ) by {
                assert(es.skip(1)[i] == es[i + 1] && es.skip(1)[i + 1] == es[i + 2]);
            }
        }
        lemma_lookup_remove(es.skip(1), k, q);
        assert(r == seq![es[0]] + spec_remove(es.skip(1), k));
        assert(r.skip(1) =~= spec_remove(es.skip(1), k));
        assert(r[0] == es[0]);
    }
}

/// In a sorted list whose entries all sit strictly above `bound`, a name
/// equal to `bound` is not found.
proof fn lemma_lookup_none_when_all_above(es: Seq<Entry>, k: Seq<u8>, bound: Seq<u8>)
    requires
        entries_sorted(es),
        k == bound,
        forall|i: int| 0 <= i < es.len() ==> lex_lt(bound, #[trigger] es[i].0),
    ensures
        spec_lookup(es, k) == None::<Seq<u8>>,
    decreases es.len(),
{
    if es.len() > 0 {
        lemma_lex_lt_asym(bound, es[0].0);
        assert(entries_sorted(es.skip(1))) by {
            assert forall|i: int| 0 <= i < es.skip(1).len() - 1 implies lex_lt(
                #[trigger] es.skip(1)[i].0,
                es.skip(1)[i + 1].0,
            ) by {
                assert(es.skip(1)[i] == es[i + 1] && es.skip(1)[i + 1] == es[i + 2]);
            }
        }
        assert forall|i: int| 0 <= i < es.skip(1).len() implies lex_lt(
            bound,
            #[trigger] es.skip(1)[i].0,
        ) by {
            assert(es.skip(1)[i] == es[i + 1]);
        }
        lemma_lookup_none_when_all_above(es.skip(1), k, bound);
    }
}

/// The tail of a sorted list is sorted.
pub proof fn lemma_sorted_skip(es: Seq<Entry>, n: int)
    requires
        entries_sorted(es),
        0 <= n <= es.len(),
    ensures
        entries_sorted(es.skip(n)),
{
    assert forall|i: int| 0 <= i < es.skip(n).len() - 1 implies lex_lt(
        #[trigger] es.skip(n)[i].0,
        es.skip(n)[i + 1].0,
    ) by {
        assert(es.skip(n)[i] == es[i + n] && es.skip(n)[i + 1] == es[i + n + 1]);
    }
}

/// Positions before `i` hold other names, so lookup continues past them.
proof fn lemma_lookup_prefix(es: Seq<Entry>, k: Seq<u8>, i: int)
    requires
        0 <= i <= es.len(),
        forall|j: int| 0 <= j < i ==> (#[trigger] es[j]).0 != k,
    ensures
        spec_lookup(es, k) == spec_lookup(es.skip(i), k),
    decreases i,
{
    if i > 0 {
        lemma_lookup_prefix(es, k, i - 1);
        let t = es.skip(i - 1);
        assert(t[0] == es[i - 1]);
        assert(spec_lookup(t, k) == spec_lookup(t.skip(1), k));
        assert(t.skip(1) =~= es.skip(i));
    } else {
        assert(es.skip(0) =~= es);
    }
}

/// Positions before `i` hold names strictly below `k`, so `set` keeps them
/// and works on the rest.
proof fn lemma_set_prefix(es: Seq<Entry>, k: Seq<u8>, v: Seq<u8>, i: int)
    requires
        0 <= i <= es.len(),
        forall|j: int| 0 <= j < i ==> lex_lt((#[trigger] es[j]).0, k),
    ensures
        spec_set(es, k, v) == es.take(i) + spec_set(es.skip(i), k, v),
    decreases i,
{
    if i > 0 {
        lemma_set_prefix(es, k, v, i - 1);
        let t = es.skip(i - 1);
        assert(t[0] == es[i - 1]);
        lemma_lex_lt_asym(es[i - 1].0, k);
        assert(spec_set(t, k, v) == seq![t[0]] + spec_set(t.skip(1), k, v));
        assert(t.skip(1) =~= es.skip(i));
        assert(es.take(i - 1) + (seq![t[0]] + spec_set(es.skip(i), k, v)) =~= es.take(i)
            + spec_set(es.skip(i), k, v));
    } else {
        assert(es.skip(0) =~= es);
        assert(es.take(0) + spec_set(es, k, v) =~= spec_set(es, k, v));
    }
}

/// Positions before `i` hold other names, so `remove` keeps them and works
/// on the rest.
proof fn lemma_remove_prefix(es: Seq<Entry>, k: Seq<u8>, i: int)
    requires
        0 <= i <= es.len(),
        forall|j: int| 0 <= j < i ==> (#[trigger] es[j]).0 != k,
    ensures
        spec_remove(es, k) == es.take(i) + spec_remove(es.skip(i), k),
    decreases i,
{
    if i > 0 {
        lemma_remove_prefix(es, k, i - 1);
        let t = es.skip(i - 1);
        assert(t[0] == es[i - 1]);
        assert(spec_remove(t, k) == seq![t[0]] + spec_remove(t.skip(1), k));
        assert(t.skip(1) =~= es.skip(i));
        assert(es.take(i - 1) + (seq![t[0]] + spec_remove(es.skip(i), k)) =~= es.take(i)
            + spec_remove(es.skip(i), k));
    } else {
        assert(es.skip(0) =~= es);
        assert(es.take(0) + spec_remove(es, k) =~= spec_remove(es, k));
    }
}

/// Equal prefixes do not decide the lexicographic order.
proof fn lemma_lex_lt_common_prefix(a: Seq<u8>, b: Seq<u8>, i: int)
    requires
        0 <= i <= a.len(),
        i <= b.len(),
        forall|j: int| 0 <= j < i ==> a[j] == b[j],
    ensures
        lex_lt(a, b) == lex_lt(a.skip(i), b.skip(i)),
    decreases i,
{
    if i > 0 {
        lemma_lex_lt_common_prefix(a, b, i - 1);
        let x = a.skip(i - 1);
        let y = b.skip(i - 1);
        assert(x[0] == a[i - 1] && y[0] == b[i - 1]);
        assert(lex_lt(x, y) == lex_lt(x.skip(1), y.skip(1)));
        assert(x.skip(1) =~= a.skip(i));
        assert(y.skip(1) =~= b.skip(i));
    } else {
        assert(a.skip(0) =~= a);
        assert(b.skip(0) =~= b);
    }
}

/// Strict lexicographic comparison of two byte strings.
pub fn lex_less(a: &[u8], b: &[u8]) -> (r: bool)
    ensures
        r == lex_lt(a@, b@),
{
    let mut i: usize = 0;
    loop
        invariant
            i <= a@.len(),
            i <= b@.len(),
            forall|j: int| 0 <= j < i ==> a@[j] == b@[j],
        decreases a@.len() - i,
    {
        proof {
            lemma_lex_lt_common_prefix(a@, b@, i as int);
        }
        if i >= b.len() {
            return false;
        }
        if i >= a.len() {
            return true;
        }
        if a[i] < b[i] {
            proof {
                assert(a@.skip(i as int)[0] == a@[i as int]);
                assert(b@.skip(i as int)[0] == b@[i as int]);
            }
            return true;
        }
        if a[i] > b[i] {
            proof {
                assert(a@.skip(i as int)[0] == a@[i as int]);
                assert(b@.skip(i as int)[0] == b@[i as int]);
            }
            return false;
        }
        i += 1;
    }
}

/// An ordered header block: lower-cased names mapped to values.
#[derive(Debug)]
pub struct Headers {
    entries: Vec<(Vec<u8>, Vec<u8>)>,
}

impl View for Headers {
    type V = Seq<Entry>;

    closed spec fn view(&self) -> Seq<Entry> {
        self.entries@.map_values(|p: (Vec<u8>, Vec<u8>)| (p.0@, p.1@))
    }
}

impl Headers {
    /// The entries are sorted strictly ascending by name.
    pub open spec fn wf(&self) -> bool {
        entries_sorted(self@)
    }

    /// An empty header block.
    pub fn new() -> (r: Headers)
        ensures
            r@ == Seq::<Entry>::empty(),
            r.wf(),
    {
        let r = Headers { entries: Vec::new() };
        proof {
            assert(r@ =~= Seq::<Entry>::empty());
        }
        r
    }

    /// Whether no field is stored.
    pub fn is_empty(&self) -> (r: bool)
        ensures
            r <==> self@.len() == 0,
    {
        self.entries.is_empty()
    }

    /// Index of the entry holding `key` (already lower-cased), if any.
    fn index_of(&self, key: &[u8]) -> (r: Option<usize>)
        ensures
            match r {
                Some(i) => i < self@.len() && self@[i as int].0 == key@ && spec_lookup(self@, key@)
                    == Some(self@[i as int].1) && forall|j: int|
                    0 <= j < i ==> (#[trigger] self@[j]).0 != key@,
                None => spec_lookup(self@, key@) == None::<Seq<u8>>,
            },
    {
        let mut i: usize = 0;
        while i < self.entries.len()
            invariant
                i <= self@.len(),
                self@.len() == self.entries@.len(),
                forall|j: int| 0 <= j < i ==> (#[trigger] self@[j]).0 != key@,
            decreases self@.len() - i,
        {
            if bytes_eq(self.entries[i].0.as_slice(), key) {
                proof {
                    lemma_lookup_prefix(self@, key@, i as int);
                    assert(self@.skip(i as int)[0] == self@[i as int]);
                }
                return Some(i);
            }
            i += 1;
        }
        proof {
            lemma_lookup_prefix(self@, key@, self@.len() as int);
            assert(self@.skip(self@.len() as int) =~= Seq::<Entry>::empty());
        }
        None
    }

    /// Stores `value` under the already-normalized `key`, keeping the
    /// entries sorted.
    fn set_entry(&mut self, key: Vec<u8>, value: Vec<u8>)
        requires
            old(self).wf(),
        ensures
            final(self).wf(),
            final(self)@ == spec_set(old(self)@, key@, value@),
    {
        let ghost es = self@;
        let mut i: usize = 0;
        while i < self.entries.len() && lex_less(self.entries[i].0.as_slice(), key.as_slice())
            invariant
                i <= self@.len(),
                self@.len() == self.entries@.len(),
                self@ == es,
                self.wf(),
                forall|j: int| 0 <= j < i ==> lex_lt((#[trigger] self@[j]).0, key@),
            decreases self@.len() - i,
        {
            i += 1;
        }
        proof {
            lemma_set_prefix(es, key@, value@, i as int);
        }
        if i < self.entries.len() && bytes_eq(self.entries[i].0.as_slice(), key.as_slice()) {
            self.entries.remove(i);
            self.entries.insert(i, (key, value));
            proof {
                let t = es.skip(i as int);
                assert(t[0] == es[i as int]);
                assert(spec_set(t, key@, value@) == seq![(key@, value@)] + t.skip(1));
                assert(self@ =~= es.take(i as int) + (seq![(key@, value@)] + t.skip(1)));
                lemma_set_sorted(es, key@, value@);
            }
        } else {
            self.entries.insert(i, (key, value));
            proof {
                let t = es.skip(i as int);
                if i < es.len() {
                    assert(t[0] == es[i as int]);
                    assert(!lex_lt(es[i as int].0, key@) && es[i as int].0 != key@);
                    lemma_lex_lt_total(key@, es[i as int].0);
                    assert(spec_set(t, key@, value@) == seq![(key@, value@)] + t);
                } else {
                    assert(t =~= Seq::<Entry>::empty());
                }
                assert(self@ =~= es.take(i as int) + (seq![(key@, value@)] + t));
                lemma_set_sorted(es, key@, value@);
            }
        }
    }

    /// Overwrites any prior value of the field, inserting it if absent.
    /// The name is lower-cased on the way in.
    pub fn set(&mut self, name: &[u8], value: &[u8])
        requires
            old(self).wf(),
        ensures
            final(self).wf(),
            final(self)@ == spec_set(old(self)@, lower_seq(name@), value@),
    {
        let key = lower_bytes(name);
        let v = to_vec_bytes(value);
        self.set_entry(key, v);
    }

    /// Adds a field: a fresh name is inserted; a duplicate folds the new
    /// value onto the old one joined by a comma. Returns the value the
    /// name held before the call, if any.
    pub fn add(&mut self, name: &[u8], value: &[u8]) -> (r: Option<Vec<u8>>)
        requires
            old(self).wf(),
        ensures
            final(self).wf(),
            final(self)@ == spec_add(old(self)@, lower_seq(name@), value@),
            match r {
                Some(prev) => spec_lookup(old(self)@, lower_seq(name@)) == Some(prev@),
                None => spec_lookup(old(self)@, lower_seq(name@)) == None::<Seq<u8>>,
            },
    {
        let key = lower_bytes(name);
        match self.index_of(key.as_slice()) {
            Some(i) => {
                let prev = to_vec_bytes(self.entries[i].1.as_slice());
                let mut joined = to_vec_bytes(prev.as_slice());
                joined.push(COMMA);
                append_slice(&mut joined, value);
                proof {
                    assert(joined@ =~= spec_joined(prev@, value@));
                }
                self.set_entry(key, joined);
                Some(prev)
            },
            None => {
                let v = to_vec_bytes(value);
                self.set_entry(key, v);
                None
            },
        }
    }

    /// Sets the default fields of a fresh message: `connection: close`.
    pub fn add_default(&mut self)
        requires
            old(self).wf(),
        ensures
            final(self).wf(),
            final(self)@ == spec_set(old(self)@, spec_connection_name(), spec_close_token()),
    {
        let mut name: Vec<u8> = Vec::new();
        name.push(99);
        name.push(111);
        name.push(110);
        name.push(110);
        name.push(101);
        name.push(99);
        name.push(116);
        name.push(105);
        name.push(111);
        name.push(110);
        let mut value: Vec<u8> = Vec::new();
        value.push(99);
        value.push(108);
        value.push(111);
        value.push(115);
        value.push(101);
        proof {
            assert(name@ =~= spec_connection_name());
            assert(lower_seq(name@) =~= spec_connection_name());
            assert(value@ =~= spec_close_token());
        }
        let key = lower_bytes(name.as_slice());
        self.set_entry(key, value);
    }

    /// Removes the field, if present. The name is lower-cased first.
    pub fn remove(&mut self, name: &[u8])
        requires
            old(self).wf(),
        ensures
            final(self).wf(),
            final(self)@ == spec_remove(old(self)@, lower_seq(name@)),
    {
        let key = lower_bytes(name);
        let ghost es = self@;
        match self.index_of(key.as_slice()) {
            Some(i) => {
                self.entries.remove(i);
                proof {
                    lemma_remove_prefix(es, key@, i as int);
                    let t = es.skip(i as int);
                    assert(t[0] == es[i as int]);
                    assert(spec_remove(t, key@) == t.skip(1));
                    assert(self@ =~= es.take(i as int) + t.skip(1));
                    lemma_remove_sorted(es, key@);
                }
            },
            None => {
                proof {
                    lemma_remove_unbound(es, key@);
                }
            },
        }
    }

    /// Case-insensitive lookup: the value stored under the lower-cased
    /// name, if any.
    pub fn get(&self, name: &[u8]) -> (r: Option<&Vec<u8>>)
        ensures
            match r {
                Some(v) => spec_lookup(self@, lower_seq(name@)) == Some(v@),
                None => spec_lookup(self@, lower_seq(name@)) == None::<Seq<u8>>,
            },
    {
        let key = lower_bytes(name);
        match self.index_of(key.as_slice()) {
            Some(i) => {
                let e = &self.entries[i];
                Some(&e.1)
            },
            None => None,
        }
    }
}

/// The bytes of the `connection` field name.
pub open spec fn spec_connection_name() -> Seq<u8> {
    seq![99u8, 111, 110, 110, 101, 99, 116, 105, 111, 110]
}

/// The bytes of the `close` token.
pub open spec fn spec_close_token() -> Seq<u8> {
    seq![99u8, 108, 111, 115, 101]
}

/// Removing a name that is not bound leaves the entries unchanged.
proof fn lemma_remove_unbound(es: Seq<Entry>, k: Seq<u8>)
    requires
        spec_lookup(es, k) == None::<Seq<u8>>,
    ensures
        spec_remove(es, k) == es,
    decreases es.len(),
{
    if es.len() > 0 {
        lemma_remove_unbound(es.skip(1), k);
        assert(seq![es[0]] + es.skip(1) =~= es);
    }
}

/// What parsing one field line (without its CRLF) yields: the lower-cased
/// name and the whitespace-trimmed value, or the reason it is rejected.
pub open spec fn spec_parse_field_line(line: Seq<u8>) -> Result<Entry, HeadersError> {
    match spec_find_byte(line, COLON) {
        None => Err(HeadersError::MalformedFieldLine),
        Some(i) => {
            let name = line.take(i);
            let value = spec_trim(line.skip(i + 1));
            if name.len() == 0 {
                Err(HeadersError::MalformedFieldLine)
            } else if !(forall|j: int| 0 <= j < name.len() ==> is_tchar(name[j])) {
                Err(HeadersError::MalformedFieldLine)
            } else if !(forall|j: int| 0 <= j < value.len() ==> is_field_byte(value[j])) {
                Err(HeadersError::MalformedFieldLine)
            } else {
                Ok((lower_seq(name), value))
            }
        },
    }
}

/// The wire form of one field: `name: value` followed by CRLF.
pub open spec fn spec_field_line_bytes(e: Entry) -> Seq<u8> {
    e.0 + seq![COLON, SP] + e.1 + seq![CR, LF]
}

/// The wire form of the entries, one field line each, in stored order.
pub open spec fn spec_serialize_entries(es: Seq<Entry>) -> Seq<u8>
    decreases es.len(),
{
    if es.len() == 0 {
        Seq::<u8>::empty()
    } else {
        spec_field_line_bytes(es[0]) + spec_serialize_entries(es.skip(1))
    }
}

/// The wire form of a header block: its field lines and the terminating
/// blank line.
pub open spec fn spec_serialize_headers(es: Seq<Entry>) -> Seq<u8> {
    spec_serialize_entries(es) + seq![CR, LF]
}

/// Serialization distributes over concatenation of entry lists.
pub proof fn lemma_serialize_entries_concat(a: Seq<Entry>, b: Seq<Entry>)
    ensures
        spec_serialize_entries(a + b) == spec_serialize_entries(a) + spec_serialize_entries(b),
    decreases a.len(),
{
    if a.len() == 0 {
        assert(a + b =~= b);
        assert(spec_serialize_entries(a) + spec_serialize_entries(b) =~= spec_serialize_entries(
            b,
        ));
    } else {
        assert((a + b).skip(1) =~= a.skip(1) + b);
        lemma_serialize_entries_concat(a.skip(1), b);
        assert((a + b)[0] == a[0]);
        assert(spec_field_line_bytes(a[0]) + (spec_serialize_entries(a.skip(1))
            + spec_serialize_entries(b)) =~= (spec_field_line_bytes(a[0])
            + spec_serialize_entries(a.skip(1))) + spec_serialize_entries(b));
    }
}

/// Whether the comma-separated value `v` contains `tok`, comparing each
/// whitespace-trimmed segment case-insensitively.
pub open spec fn spec_field_contains(v: Seq<u8>, tok: Seq<u8>) -> bool
    decreases v.len(),
{
    match spec_find_byte(v, COMMA) {
        None => lower_seq(spec_trim(v)) == lower_seq(tok),
        Some(i) => if 0 <= i < v.len() {
            lower_seq(spec_trim(v.take(i))) == lower_seq(tok) || spec_field_contains(
                v.skip(i + 1),
                tok,
            )
        } else {
            lower_seq(spec_trim(v)) == lower_seq(tok)
        },
    }
}

impl Headers {
    /// Parses one field line (without its CRLF) and adds the field.
    pub fn parse_one_from_line(&mut self, line: &[u8]) -> (r: Result<(), HeadersError>)
        requires
            old(self).wf(),
        ensures
            final(self).wf(),
            match spec_parse_field_line(line@) {
                Ok(kv) => r == Ok::<(), HeadersError>(()) && final(self)@ == spec_add(
                    old(self)@,
                    kv.0,
                    kv.1,
                ),
                Err(e) => r == Err::<(), HeadersError>(e) && final(self)@ == old(self)@,
            },
    {
        let colon = match find_byte(line, COLON) {
            Some(i) => i,
            None => {
                return Err(HeadersError::MalformedFieldLine);
            },
        };
        let n = line.len();
        let name = &line[0..colon];
        let value = trim_bytes(&line[colon + 1..n]);
        if name.len() == 0 {
            return Err(HeadersError::MalformedFieldLine);
        }
        if !is_valid_token(name) {
            return Err(HeadersError::MalformedFieldLine);
        }
        if !is_valid_field_value(value.as_slice()) {
            return Err(HeadersError::MalformedFieldLine);
        }
        self.add(name, value.as_slice());
        Ok(())
    }

    /// Parses the first field line of `bytes`, if a complete one is there.
    /// Returns how many bytes were consumed: 0 when no CRLF has arrived
    /// yet, 2 for the blank line ending the block, and the line length
    /// plus 2 for a parsed field.
    pub fn parse(&mut self, bytes: &[u8]) -> (r: Result<usize, HeadersError>)
        requires
            old(self).wf(),
        ensures
            final(self).wf(),
            match spec_find_crlf(bytes@) {
                None => r == Ok::<usize, HeadersError>(0) && final(self)@ == old(self)@,
                Some(i) => if i == 0 {
                    r == Ok::<usize, HeadersError>(2) && final(self)@ == old(self)@
                } else {
                    match spec_parse_field_line(bytes@.take(i)) {
                        Ok(kv) => r == Ok::<usize, HeadersError>((i + 2) as usize)
                            && final(self)@ == spec_add(old(self)@, kv.0, kv.1),
                        Err(e) => r == Err::<usize, HeadersError>(e)
                            && final(self)@ == old(self)@,
                    }
                },
            },
    {
        let end = match find_crlf(bytes) {
            None => {
                return Ok(0);
            },
            Some(i) => i,
        };
        if end == 0 {
            return Ok(2);
        }
        let n = bytes.len();
        proof {
            assert(end + 2 <= n);
        }
        let line = &bytes[0..end];
        match self.parse_one_from_line(line) {
            Ok(()) => Ok(end + 2),
            Err(e) => Err(e),
        }
    }

    /// Appends the wire form of the block: each `name: value` line in
    /// stored order, then the terminating blank line.
    pub fn write_to(&self, out: &mut Vec<u8>)
        ensures
            final(out)@ == old(out)@ + spec_serialize_headers(self@),
    {
        let ghost base = out@;
        let mut i: usize = 0;
        while i < self.entries.len()
            invariant
                i <= self@.len(),
                self@.len() == self.entries@.len(),
                out@ == base + spec_serialize_entries(self@.take(i as int)),
            decreases self@.len() - i,
        {
            let ghost pre = self@.take(i as int);
            let ghost o0 = out@;
            append_slice(out, self.entries[i].0.as_slice());
            out.push(COLON);
            out.push(SP);
            append_slice(out, self.entries[i].1.as_slice());
            out.push(CR);
            out.push(LF);
            proof {
                let e = self@[i as int];
                assert(e == (self.entries@[i as int].0@, self.entries@[i as int].1@));
                assert(out@ =~= o0 + (e.0 + seq![COLON, SP] + e.1 + seq![CR, LF]));
                assert(self@.take(i + 1 as int) =~= pre + seq![e]);
                lemma_serialize_entries_concat(pre, seq![e]);
                assert(seq![e].skip(1) =~= Seq::<Entry>::empty());
                assert(spec_serialize_entries(Seq::<Entry>::empty()) =~= Seq::<u8>::empty());
                assert(seq![e][0] == e);
                assert(spec_serialize_entries(seq![e]) == spec_field_line_bytes(e)
                    + spec_serialize_entries(seq![e].skip(1)));
                assert(spec_serialize_entries(seq![e]) =~= spec_field_line_bytes(e));
                assert(out@ =~= base + (spec_serialize_entries(pre) + spec_field_line_bytes(e)));
            }
            i += 1;
        }
        out.push(CR);
        out.push(LF);
        proof {
            assert(self@.take(self@.len() as int) =~= self@);
            assert(out@ =~= base + spec_serialize_headers(self@));
        }
    }

    /// Treats the field's value as a comma-separated list and tests
    /// case-insensitive membership of `token` among the trimmed segments.
    pub fn field_contains_value(&self, name: &[u8], token: &[u8]) -> (r: bool)
        ensures
            r == match spec_lookup(self@, lower_seq(name@)) {
                Some(v) => spec_field_contains(v, token@),
                None => false,
            },
    {
        let key = lower_bytes(name);
        let i = match self.index_of(key.as_slice()) {
            Some(i) => i,
            None => {
                return false;
            },
        };
        let tok = lower_bytes(token);
        let mut rest = to_vec_bytes(self.entries[i].1.as_slice());
        loop
            invariant
                i < self@.len(),
                self@.len() == self.entries@.len(),
                tok@ == lower_seq(token@),
                spec_lookup(self@, lower_seq(name@)) == Some(self@[i as int].1),
                spec_field_contains(self@[i as int].1, token@) == spec_field_contains(
                    rest@,
                    token@,
                ),
            decreases rest@.len(),
        {
            match find_byte(rest.as_slice(), COMMA) {
                None => {
                    let seg = trim_bytes(rest.as_slice());
                    return bytes_eq(lower_bytes(seg.as_slice()).as_slice(), tok.as_slice());
                },
                Some(c) => {
                    let seg = trim_bytes(&rest.as_slice()[0..c]);
                    if bytes_eq(lower_bytes(seg.as_slice()).as_slice(), tok.as_slice()) {
                        return true;
                    }
                    let n = rest.len();
                    let next = to_vec_bytes(&rest.as_slice()[c + 1..n]);
                    rest = next;
                },
            }
        }
    }
}

impl Default for Headers {
    /// An empty header block.
    fn default() -> (r: Headers)
        ensures
            r@ == Seq::<Entry>::empty(),
            r.wf(),
    {
        Headers::new()
    }
}

/// A field that can survive the wire: a non-empty lower-case `tchar`
/// name, and a value of field bytes that neither starts nor ends with
/// whitespace (serialization would otherwise lose the padding).
pub open spec fn wire_entry(e: Entry) -> bool {
    &&& e.0.len() > 0
    &&& forall|j: int| 0 <= j < e.0.len() ==> is_tchar(#[trigger] e.0[j])
    &&& lower_seq(e.0) == e.0
    &&& forall|j: int| 0 <= j < e.1.len() ==> is_field_byte(#[trigger] e.1[j])
    &&& (e.1.len() > 0 ==> !crate::ascii::is_ascii_ws(e.1[0]) && !crate::ascii::is_ascii_ws(
        e.1.last(),
    ))
}

/// Parsing the wire form of one field recovers it: the first CRLF ends the
/// line exactly where it was written, and the line parses back to the
/// same name and value.
proof fn lemma_field_line_roundtrip(e: Entry)
    requires
        wire_entry(e),
    ensures
        spec_find_crlf(spec_field_line_bytes(e)) == Some(e.0.len() + e.1.len() + 2int),
        spec_parse_field_line(e.0 + seq![COLON, SP] + e.1) == Ok::<Entry, HeadersError>(e),
{
    let k = e.0;
    let v = e.1;
    let line = k + seq![COLON, SP] + v;
    // no CR occurs in the line, so it holds no CRLF pair
    assert forall|j: int| 0 <= j < line.len() implies line[j] != CR by {
        if j < k.len() {
            assert(line[j] == k[j] && is_tchar(k[j]));
        } else if j == k.len() {
            assert(line[j] == COLON);
        } else if j == k.len() + 1 {
            assert(line[j] == SP);
        } else {
            assert(line[j] == v[j - k.len() - 2] && is_field_byte(line[j]));
        }
    }
    crate::ascii::lemma_no_cr_no_crlf(line);
    crate::ascii::lemma_find_crlf_boundary(line, Seq::<u8>::empty());
    assert(spec_field_line_bytes(e) =~= line + seq![CR, LF] + Seq::<u8>::empty());
    assert(line.len() == k.len() + v.len() + 2);
    // the first colon sits right after the name
    assert forall|j: int| 0 <= j < k.len() implies k[j] != COLON by {
        assert(is_tchar(k[j]));
    }
    assert((seq![COLON, SP] + v)[0] == COLON);
    crate::ascii::lemma_find_byte_boundary(k, seq![COLON, SP] + v, COLON);
    assert(line =~= k + (seq![COLON, SP] + v));
    assert(spec_find_byte(line, COLON) == Some(k.len() as int));
    assert(line.take(k.len() as int) =~= k);
    // the raw value is one leading space then the value, and trimming
    // gives the value back
    let raw = line.skip(k.len() + 1int);
    assert(raw =~= seq![SP] + v);
    assert(crate::ascii::is_ascii_ws(raw[0]));
    assert(raw.skip(1) =~= v);
    assert(crate::ascii::spec_trim_start(raw) == crate::ascii::spec_trim_start(v));
    if v.len() > 0 {
        assert(!crate::ascii::is_ascii_ws(v[0]));
        assert(crate::ascii::spec_trim_start(v) == v);
        assert(!crate::ascii::is_ascii_ws(v.last()));
        assert(crate::ascii::spec_trim_end(v) == v);
    }
    assert(crate::ascii::spec_trim(raw) == v);
    assert(lower_seq(k) == k);
}

/// Parsing the serialized entries, after anything already gathered below
/// them, appends them in order and stops at the blank line.
pub proof fn lemma_parse_serialized_entries(acc: Seq<Entry>, es: Seq<Entry>, tail: Seq<u8>)
    requires
        entries_sorted(acc + es),
        forall|i: int| 0 <= i < es.len() ==> wire_entry(#[trigger] es[i]),
    ensures
        crate::connection::spec_parse_header_block(
            spec_serialize_entries(es) + seq![CR, LF] + tail,
            acc,
        ) == Ok::<(Seq<Entry>, Seq<u8>), crate::connection::HeaderBlockError>((acc + es, tail)),
    decreases es.len(),
{
    let s = spec_serialize_entries(es) + seq![CR, LF] + tail;
    if es.len() == 0 {
        assert(spec_serialize_entries(es) =~= Seq::<u8>::empty());
        assert(s =~= seq![CR, LF] + tail);
        assert(s[0] == CR && s[1] == LF);
        crate::ascii::lemma_find_crlf_is(s, 0);
        assert(s.skip(2) =~= tail);
        assert(acc + es =~= acc);
    } else {
        let e = es[0];
        let k = e.0;
        let v = e.1;
        let line = k + seq![COLON, SP] + v;
        let s1 = spec_serialize_entries(es.skip(1)) + seq![CR, LF] + tail;
        assert(spec_serialize_entries(es) == spec_field_line_bytes(e) + spec_serialize_entries(
            es.skip(1),
        ));
        assert(s =~= line + seq![CR, LF] + s1);
        lemma_field_line_roundtrip(e);
        crate::ascii::lemma_find_crlf(line + seq![CR, LF] + Seq::<u8>::empty());
        // the line itself holds no CRLF pair, so the boundary lemma
        // applies with the real continuation as well
        assert forall|j: int| 0 <= j < line.len() implies line[j] != CR by {
            if j < k.len() {
                assert(line[j] == k[j] && is_tchar(k[j]));
            } else if j == k.len() {
                assert(line[j] == COLON);
            } else if j == k.len() + 1 {
                assert(line[j] == SP);
            } else {
                assert(line[j] == v[j - k.len() - 2] && is_field_byte(line[j]));
            }
        }
        crate::ascii::lemma_no_cr_no_crlf(line);
        crate::ascii::lemma_find_crlf_boundary(line, s1);
        assert(spec_find_crlf(s) == Some(line.len() as int));
        assert(line.len() > 0);
        assert(s.take(line.len() as int) =~= line);
        assert(spec_parse_field_line(line) == Ok::<Entry, HeadersError>(e));
        // a fresh sorted name lands at the end of the gathered entries
        assert forall|j: int| 0 <= j < acc.len() implies lex_lt((#[trigger] acc[j]).0, k) by {
            assert(acc[j] == (acc + es)[j]);
            lemma_sorted_distinct(acc + es, j, acc.len() as int);
        }
        assert forall|j: int| 0 <= j < acc.len() implies (#[trigger] acc[j]).0 != k by {
            lemma_lex_lt_asym(acc[j].0, k);
        }
        lemma_lookup_prefix(acc, k, acc.len() as int);
        assert(acc.skip(acc.len() as int) =~= Seq::<Entry>::empty());
        assert(spec_lookup(acc, k) == None::<Seq<u8>>);
        lemma_set_prefix(acc, k, v, acc.len() as int);
        assert(acc.take(acc.len() as int) =~= acc);
        assert(spec_set(Seq::<Entry>::empty(), k, v) =~= seq![(k, v)]);
        assert(spec_add(acc, k, v) =~= acc + seq![e]);
        // recurse on the remaining entries
        assert((acc + seq![e]) + es.skip(1) =~= acc + es);
        lemma_parse_serialized_entries(acc + seq![e], es.skip(1), tail);
        assert(s.skip(line.len() + 2int) =~= s1);
        assert(crate::connection::spec_parse_header_block(s, acc)
            == crate::connection::spec_parse_header_block(s1, acc + seq![e]));
    }
}

/// Header round-trip: serializing any sorted block of wire-clean fields
/// and re-parsing it yields the same block, with nothing left over.
pub proof fn lemma_headers_round_trip(es: Seq<Entry>)
    requires
        entries_sorted(es),
        forall|i: int| 0 <= i < es.len() ==> wire_entry(#[trigger] es[i]),
    ensures
        crate::connection::spec_parse_header_block(
            spec_serialize_headers(es),
            Seq::<Entry>::empty(),
        ) == Ok::<(Seq<Entry>, Seq<u8>), crate::connection::HeaderBlockError>(
            (es, Seq::<u8>::empty()),
        ),
{
    assert(Seq::<Entry>::empty() + es =~= es);
    lemma_parse_serialized_entries(Seq::<Entry>::empty(), es, Seq::<u8>::empty());
    assert(spec_serialize_headers(es) =~= spec_serialize_entries(es) + seq![CR, LF]
        + Seq::<u8>::empty());
}

/// Every entry of `spec_set(es, k, v)` is the new binding or one of `es`.
pub proof fn lemma_set_entries_from(es: Seq<Entry>, k: Seq<u8>, v: Seq<u8>)
    ensures
        forall|i: int| 0 <= i < spec_set(es, k, v).len() ==> ((#[trigger] spec_set(es, k, v)[i])
            == (k, v) || es.contains(spec_set(es, k, v)[i])),
    decreases es.len(),
{
    let r = spec_set(es, k, v);
    if es.len() == 0 {
    } else if lex_lt(k, es[0].0) {
        assert forall|i: int| 0 <= i < r.len() implies ((#[trigger] r[i]) == (k, v) || es.contains(
            r[i],
        )) by {
            if i > 0 {
                assert(r[i] == es[i - 1]);
            }
        }
    } else if k == es[0].0 {
        assert forall|i: int| 0 <= i < r.len() implies ((#[trigger] r[i]) == (k, v) || es.contains(
            r[i],
        )) by {
            if i > 0 {
                assert(r[i] == es.skip(1)[i - 1]);
                assert(es.skip(1)[i - 1] == es[i]);
            }
        }
    } else {
        lemma_set_entries_from(es.skip(1), k, v);
        let inner = spec_set(es.skip(1), k, v);
        assert forall|i: int| 0 <= i < r.len() implies ((#[trigger] r[i]) == (k, v) || es.contains(
            r[i],
        )) by {
            if i == 0 {
                assert(r[0] == es[0]);
            } else {
                assert(r[i] == inner[i - 1]);
                if inner[i - 1] != (k, v) {
                    let w = choose|j: int| 0 <= j < es.skip(1).len() && es.skip(1)[j] == inner[i
                        - 1];
                    assert(es[w + 1] == inner[i - 1]);
                }
            }
        }
    }
}

/// Two spellings of one field name that fold to the same letters look up
/// the same field: `get` is case-insensitive.
pub proof fn lemma_lookup_case_insensitive(es: Seq<Entry>, a: Seq<u8>, b: Seq<u8>)
    requires
        lower_seq(a) == lower_seq(b),
    ensures
        spec_lookup(es, lower_seq(a)) == spec_lookup(es, lower_seq(b)),
{
}

} // verus!
