use vstd::prelude::*;

verus! {

/// The mathematical model of a bencode value: the ghost counterpart of
/// the executable value tree, stated over `Seq` and `int`.
pub enum BValue {
    Int(int),
    Bytes(Seq<u8>),
    List(Seq<BValue>),
    Dict(Seq<(Seq<u8>, BValue)>),
}

/// The mathematical model of a lexer token.
pub enum BToken {
    Dict,
    List,
    Int(int),
    Bytes(Seq<u8>),
    End,
}

/// An ASCII decimal digit.
pub open spec fn is_digit(b: u8) -> bool {
    48 <= b <= 57
}

pub open spec fn all_digits(ds: Seq<u8>) -> bool {
    forall|i: int| 0 <= i < ds.len() ==> is_digit(ds[i])
}

/// Decimal digits of a natural number, most significant first.
pub open spec fn dec_digits(n: nat) -> Seq<u8>
    decreases n,
{
    if n < 10 {
        seq![(48 + n) as u8]
    } else {
        dec_digits(n / 10) + seq![(48 + n % 10) as u8]
    }
}

/// Decimal form of an integer: a leading minus sign for negatives.
pub open spec fn int_bytes(n: int) -> Seq<u8> {
    if n >= 0 {
        dec_digits(n as nat)
    } else {
        seq![45u8] + dec_digits((-n) as nat)
    }
}

/// The number a digit run denotes, read most significant first.
pub open spec fn dec_val(ds: Seq<u8>) -> int
    decreases ds.len(),
{
    if ds.len() == 0 {
        0
    } else {
        dec_val(ds.drop_last()) * 10 + (ds.last() - 48)
    }
}

/// A well-formed integer token body: an optional minus sign, then at
/// least one digit.
pub open spec fn int_body_valid(ds: Seq<u8>) -> bool {
    if ds.len() == 0 {
        false
    } else if ds[0] == 45 {
        ds.len() >= 2 && all_digits(ds.skip(1))
    } else {
        all_digits(ds)
    }
}

/// The signed value an integer token body denotes.
pub open spec fn int_body_val(ds: Seq<u8>) -> int {
    if ds.len() > 0 && ds[0] == 45 {
        -dec_val(ds.skip(1))
    } else {
        dec_val(ds)
    }
}

pub open spec fn fits_i64(n: int) -> bool {
    i64::MIN <= n <= i64::MAX
}

/// Index of the first occurrence of `b` in `s`, or `s.len()` if absent.
pub open spec fn scan_to(s: Seq<u8>, b: u8) -> int
    decreases s.len(),
{
    if s.len() == 0 {
        0
    } else if s[0] == b {
        0
    } else {
        1 + scan_to(s.skip(1), b)
    }
}

/// Strict byte-lexicographic order: a proper prefix comes first, and
/// otherwise the first differing byte decides.
pub open spec fn lex_lt(a: Seq<u8>, b: Seq<u8>) -> bool
    decreases a.len(),
{
    if b.len() == 0 {
        false
    } else if a.len() == 0 {
        true
    } else if a[0] < b[0] {
        true
    } else if a[0] > b[0] {
        false
    } else {
        lex_lt(a.skip(1), b.skip(1))
    }
}

/// Keys strictly ascending in byte-lexicographic order; strictness also
/// makes them unique.
pub open spec fn keys_sorted(es: Seq<(Seq<u8>, BValue)>) -> bool {
    forall|i: int, j: int| 0 <= i < j < es.len() ==> lex_lt(es[i].0, es[j].0)
}

/// Insert a key/value pair into a key-sorted entry sequence; an entry
/// under the same key is replaced, so the last write wins.
pub open spec fn dict_insert(es: Seq<(Seq<u8>, BValue)>, k: Seq<u8>, v: BValue) -> Seq<
    (Seq<u8>, BValue),
>
    decreases es.len(),
{
    if es.len() == 0 {
        seq![(k, v)]
    } else if lex_lt(k, es[0].0) {
        seq![(k, v)] + es
    } else if k == es[0].0 {
        seq![(k, v)] + es.skip(1)
    } else {
        seq![es[0]] + dict_insert(es.skip(1), k, v)
    }
}

/// The canonical form of a value tree: every dictionary's entries are
/// re-inserted in order, which sorts the keys and keeps the last write
/// on a repeated key.
pub open spec fn canon(v: BValue) -> BValue
    decreases v, 0nat,
{
    match v {
        BValue::Int(n) => BValue::Int(n),
        BValue::Bytes(s) => BValue::Bytes(s),
        BValue::List(items) => BValue::List(canon_items(items, 0)),
        BValue::Dict(es) => BValue::Dict(canon_entries(es, es.len() as int)),
    }
}

/// Canonical forms of the list items from index `i` on.
pub open spec fn canon_items(items: Seq<BValue>, i: int) -> Seq<BValue>
    decreases items, items.len() - i, 1nat,
{
    if 0 <= i < items.len() {
        seq![canon(items[i])] + canon_items(items, i + 1)
    } else {
        Seq::empty()
    }
}

/// Sorted insertion of the first `n` entries, values in canonical form.
pub open spec fn canon_entries(es: Seq<(Seq<u8>, BValue)>, n: int) -> Seq<(Seq<u8>, BValue)>
    decreases es, n, 1nat,
{
    if 0 < n <= es.len() {
        dict_insert(canon_entries(es, n - 1), es[n - 1].0, canon(es[n - 1].1))
    } else {
        Seq::empty()
    }
}

/// Bencode bytes of a value tree, emitted in stored order: dictionary
/// entries are not sorted here.
pub open spec fn emit(v: BValue) -> Seq<u8>
    decreases v, 0nat,
{
    match v {
        BValue::Int(n) => seq![105u8] + int_bytes(n) + seq![101u8],
        BValue::Bytes(s) => dec_digits(s.len()) + seq![58u8] + s,
        BValue::List(items) => seq![108u8] + emit_items(items, 0) + seq![101u8],
        BValue::Dict(es) => seq![100u8] + emit_entries(es, 0) + seq![101u8],
    }
}

/// Concatenated emissions of the list items from index `i` on.
pub open spec fn emit_items(items: Seq<BValue>, i: int) -> Seq<u8>
    decreases items, items.len() - i, 1nat,
{
    if 0 <= i < items.len() {
        emit(items[i]) + emit_items(items, i + 1)
    } else {
        Seq::empty()
    }
}

/// Concatenated emissions of the dictionary entries from index `i` on:
/// each key as a byte string, then its value.
pub open spec fn emit_entries(es: Seq<(Seq<u8>, BValue)>, i: int) -> Seq<u8>
    decreases es, es.len() - i, 1nat,
{
    if 0 <= i < es.len() {
        dec_digits(es[i].0.len()) + seq![58u8] + es[i].0 + emit(es[i].1) + emit_entries(es, i + 1)
    } else {
        Seq::empty()
    }
}

/// The canonical bencode encoding of a value tree: dictionaries are
/// brought to canonical key order first, then emitted.
pub open spec fn encoded(v: BValue) -> Seq<u8> {
    emit(canon(v))
}

/// A well-formed value tree: integers fit the signed 64-bit range and
/// every dictionary's keys are strictly sorted. Trees produced by
/// decoding are of this shape, and on them `encoded` and `emit` agree.
pub open spec fn wf(v: BValue) -> bool
    decreases v, 0nat,
{
    match v {
        BValue::Int(n) => fits_i64(n),
        BValue::Bytes(s) => true,
        BValue::List(items) => wf_items(items, 0),
        BValue::Dict(es) => keys_sorted(es) && wf_entries(es, 0),
    }
}

pub open spec fn wf_items(items: Seq<BValue>, i: int) -> bool
    decreases items, items.len() - i, 1nat,
{
    if 0 <= i < items.len() {
        wf(items[i]) && wf_items(items, i + 1)
    } else {
        true
    }
}

pub open spec fn wf_entries(es: Seq<(Seq<u8>, BValue)>, i: int) -> bool
    decreases es, es.len() - i, 1nat,
{
    if 0 <= i < es.len() {
        wf(es[i].1) && wf_entries(es, i + 1)
    } else {
        true
    }
}

/// Nesting depth of a value tree: the number of containers on the
/// deepest path. Atoms have depth zero.
pub open spec fn depth(v: BValue) -> nat
    decreases v, 0nat,
{
    match v {
        BValue::Int(_) => 0,
        BValue::Bytes(_) => 0,
        BValue::List(items) => 1 + depth_items(items, 0),
        BValue::Dict(es) => 1 + depth_entries(es, 0),
    }
}

pub open spec fn depth_items(items: Seq<BValue>, i: int) -> nat
    decreases items, items.len() - i, 1nat,
{
    if 0 <= i < items.len() {
        let d = depth(items[i]);
        let rest = depth_items(items, i + 1);
        if d >= rest {
            d
        } else {
            rest
        }
    } else {
        0
    }
}

pub open spec fn depth_entries(es: Seq<(Seq<u8>, BValue)>, i: int) -> nat
    decreases es, es.len() - i, 1nat,
{
    if 0 <= i < es.len() {
        let d = depth(es[i].1);
        let rest = depth_entries(es, i + 1);
        if d >= rest {
            d
        } else {
            rest
        }
    } else {
        0
    }
}

/// The token sequence of a value tree in stored order.
pub open spec fn toks(v: BValue) -> Seq<BToken>
    decreases v, 0nat,
{
    match v {
        BValue::Int(n) => seq![BToken::Int(n)],
        BValue::Bytes(s) => seq![BToken::Bytes(s)],
        BValue::List(items) => seq![BToken::List] + toks_items(items, 0) + seq![BToken::End],
        BValue::Dict(es) => seq![BToken::Dict] + toks_entries(es, 0) + seq![BToken::End],
    }
}

pub open spec fn toks_items(items: Seq<BValue>, i: int) -> Seq<BToken>
    decreases items, items.len() - i, 1nat,
{
    if 0 <= i < items.len() {
        toks(items[i]) + toks_items(items, i + 1)
    } else {
        Seq::empty()
    }
}

pub open spec fn toks_entries(es: Seq<(Seq<u8>, BValue)>, i: int) -> Seq<BToken>
    decreases es, es.len() - i, 1nat,
{
    if 0 <= i < es.len() {
        seq![BToken::Bytes(es[i].0)] + toks(es[i].1) + toks_entries(es, i + 1)
    } else {
        Seq::empty()
    }
}

/// The length of one token's canonical encoding: what `Token::shift`
/// computes.
pub open spec fn btok_len(t: BToken) -> int {
    match t {
        BToken::Dict => 1,
        BToken::List => 1,
        BToken::End => 1,
        BToken::Int(n) => 2 + int_bytes(n).len() as int,
        BToken::Bytes(s) => dec_digits(s.len()).len() + 1 + s.len() as int,
    }
}

/// Nothing comes lexicographically before itself.
pub proof fn lemma_lex_lt_irrefl(a: Seq<u8>)
    ensures
        !lex_lt(a, a),
    decreases a.len(),
{
    if a.len() > 0 {
        lemma_lex_lt_irrefl(a.skip(1));
    }
}

/// The lexicographic order is one-directional, so distinct in each pair.
pub proof fn lemma_lex_lt_asym(a: Seq<u8>, b: Seq<u8>)
    requires
        lex_lt(a, b),
    ensures
        !lex_lt(b, a),
        a != b,
    decreases a.len(),
{
    if a.len() > 0 && b.len() > 0 && a[0] == b[0] {
        lemma_lex_lt_asym(a.skip(1), b.skip(1));
        assert(a != b) by {
            if a == b {
                assert(a.skip(1) == b.skip(1));
            }
        }
    } else {
        if a == b {
            lemma_lex_lt_irrefl(a);
        }
    }
}

/// Two byte strings are ordered one way or the other, or are equal.
pub proof fn lemma_lex_lt_connex(a: Seq<u8>, b: Seq<u8>)
    ensures
        lex_lt(a, b) || lex_lt(b, a) || a == b,
    decreases a.len(),
{
    if a.len() == 0 && b.len() == 0 {
        assert(a =~= b);
    } else if a.len() > 0 && b.len() > 0 && a[0] == b[0] {
        lemma_lex_lt_connex(a.skip(1), b.skip(1));
        if a.skip(1) == b.skip(1) {
            assert(a.skip(1).len() == b.skip(1).len());
            assert(a.len() == b.len());
            assert forall|j: int| 0 <= j < a.len() implies a[j] == b[j] by {
                if j > 0 {
                    assert(a.skip(1)[j - 1] == a[j]);
                    assert(b.skip(1)[j - 1] == b[j]);
                }
            }
            assert(a =~= b);
        }
    }
}

/// The lexicographic order chains.
pub proof fn lemma_lex_lt_trans(a: Seq<u8>, b: Seq<u8>, c: Seq<u8>)
    requires
        lex_lt(a, b),
        lex_lt(b, c),
    ensures
        lex_lt(a, c),
    decreases a.len(),
{
    if a.len() > 0 && b.len() > 0 && c.len() > 0 && a[0] == b[0] && b[0] == c[0] {
        lemma_lex_lt_trans(a.skip(1), b.skip(1), c.skip(1));
    }
}

/// Past an equal prefix, the order is decided by the tails.
pub proof fn lemma_lex_lt_skip(a: Seq<u8>, b: Seq<u8>, i: int)
    requires
        0 <= i <= a.len(),
        i <= b.len(),
        a.take(i) == b.take(i),
    ensures
        lex_lt(a, b) == lex_lt(a.skip(i), b.skip(i)),
        (a == b) <==> (a.skip(i) == b.skip(i)),
    decreases i,
{
    if i > 0 {
        assert(a[0] == b[0]) by {
            assert(a.take(i)[0] == a[0] && b.take(i)[0] == b[0]);
        }
        assert(a.skip(1).take(i - 1) =~= b.skip(1).take(i - 1)) by {
            assert forall|j: int| 0 <= j < i - 1 implies #[trigger] a.skip(1).take(i - 1)[j]
                == b.skip(1).take(i - 1)[j] by {
                assert(a.skip(1).take(i - 1)[j] == a.skip(1)[j]);
                assert(a.skip(1)[j] == a[j + 1]);
                assert(b.skip(1).take(i - 1)[j] == b.skip(1)[j]);
                assert(b.skip(1)[j] == b[j + 1]);
                assert(a.take(i)[j + 1] == a[j + 1]);
                assert(b.take(i)[j + 1] == b[j + 1]);
            }
        }
        lemma_lex_lt_skip(a.skip(1), b.skip(1), i - 1);
        assert(a.skip(1).skip(i - 1) =~= a.skip(i));
        assert(b.skip(1).skip(i - 1) =~= b.skip(i));
        assert((a == b) <==> (a.skip(1) == b.skip(1))) by {
            if a.skip(1) == b.skip(1) && a.len() > 0 && b.len() > 0 && a[0] == b[0] {
                assert forall|j: int| 0 <= j < a.len() implies a[j] == b[j] by {
                    if j > 0 {
                        assert(a.skip(1)[j - 1] == a[j]);
                        assert(b.skip(1)[j - 1] == b[j]);
                    }
                }
                assert(a =~= b);
            }
            if a == b {
                assert(a.skip(1) =~= b.skip(1));
            }
        }
    } else {
        assert(a.skip(0) =~= a);
        assert(b.skip(0) =~= b);
    }
}

/// A key beyond every key of a sorted entry sequence lands at its end.
pub proof fn lemma_dict_insert_append(es: Seq<(Seq<u8>, BValue)>, k: Seq<u8>, v: BValue)
    requires
        forall|i: int| 0 <= i < es.len() ==> lex_lt(#[trigger] es[i].0, k),
    ensures
        dict_insert(es, k, v) == es.push((k, v)),
    decreases es.len(),
{
    if es.len() == 0 {
        assert(dict_insert(es, k, v) =~= es.push((k, v)));
    } else {
        lemma_lex_lt_asym(es[0].0, k);
        lemma_dict_insert_append(es.skip(1), k, v);
        assert(seq![es[0]] + es.skip(1).push((k, v)) =~= es.push((k, v)));
    }
}

/// Where the insertion lands: at the first position whose key is not
/// below the new one, replacing it when the keys are equal.
pub proof fn lemma_dict_insert_at(es: Seq<(Seq<u8>, BValue)>, k: Seq<u8>, v: BValue, p: int)
    requires
        keys_sorted(es),
        0 <= p <= es.len(),
        forall|j: int| 0 <= j < p ==> lex_lt(#[trigger] es[j].0, k),
        p < es.len() ==> !lex_lt(es[p].0, k),
    ensures
        p < es.len() && es[p].0 == k ==> dict_insert(es, k, v) == es.update(p, (k, v)),
        !(p < es.len() && es[p].0 == k) ==> dict_insert(es, k, v) == es.take(p) + seq![(k, v)]
            + es.skip(p),
    decreases p,
{
    if p == 0 {
        if es.len() == 0 {
            assert(dict_insert(es, k, v) =~= es.take(0) + seq![(k, v)] + es.skip(0));
        } else if es[0].0 == k {
            lemma_lex_lt_irrefl(k);
            assert(seq![(k, v)] + es.skip(1) =~= es.update(0, (k, v)));
        } else {
            lemma_lex_lt_connex(k, es[0].0);
            assert(lex_lt(k, es[0].0));
            assert(seq![(k, v)] + es =~= es.take(0) + seq![(k, v)] + es.skip(0));
        }
    } else {
        assert(lex_lt(es[0].0, k));
        lemma_lex_lt_asym(es[0].0, k);
        let tail = es.skip(1);
        assert(keys_sorted(tail)) by {
            assert(forall|i: int, j: int|
                0 <= i < j < tail.len() ==> tail[i] == es[i + 1] && tail[j] == es[j + 1]);
        }
        assert(forall|j: int| 0 <= j < p - 1 ==> lex_lt(#[trigger] tail[j].0, k)) by {
            assert(forall|j: int| 0 <= j < p - 1 ==> tail[j] == es[j + 1]);
        }
        assert(p - 1 < tail.len() ==> !lex_lt(tail[p - 1].0, k));
        lemma_dict_insert_at(tail, k, v, p - 1);
        if p < es.len() && es[p].0 == k {
            assert(seq![es[0]] + tail.update(p - 1, (k, v)) =~= es.update(p, (k, v)));
        } else {
            assert(seq![es[0]] + (tail.take(p - 1) + seq![(k, v)] + tail.skip(p - 1)) =~= es.take(
                p,
            ) + seq![(k, v)] + es.skip(p));
        }
    }
}


/// Insertion keeps the keys sorted.
pub proof fn lemma_dict_insert_keeps_sorted(es: Seq<(Seq<u8>, BValue)>, k: Seq<u8>, v: BValue)
    requires
        keys_sorted(es),
    ensures
        keys_sorted(dict_insert(es, k, v)),
    decreases es.len(),
{
    let r = dict_insert(es, k, v);
    if es.len() == 0 {
    } else if lex_lt(k, es[0].0) {
        assert forall|i: int, j: int| 0 <= i < j < r.len() implies lex_lt(r[i].0, r[j].0) by {
            if i == 0 && j > 1 {
                lemma_lex_lt_trans(k, es[0].0, es[j - 1].0);
            }
        }
    } else if k == es[0].0 {
        assert forall|i: int, j: int| 0 <= i < j < r.len() implies lex_lt(r[i].0, r[j].0) by {
            if i > 0 {
                assert(r[i].0 == es[i].0);
            }
            assert(r[j].0 == es[j].0);
        }
    } else {
        lemma_lex_lt_connex(k, es[0].0);
        let tail = es.skip(1);
        assert(keys_sorted(tail)) by {
            assert(forall|i: int, j: int|
                0 <= i < j < tail.len() ==> tail[i] == es[i + 1] && tail[j] == es[j + 1]);
        }
        lemma_dict_insert_keeps_sorted(tail, k, v);
        lemma_dict_insert_all_keys(tail, k, v);
        let rt = dict_insert(tail, k, v);
        assert forall|i: int, j: int| 0 <= i < j < r.len() implies lex_lt(r[i].0, r[j].0) by {
            if i == 0 {
                assert(r[j].0 == rt[j - 1].0);
                if rt[j - 1].0 != k {
                    let w = choose|w: int| 0 <= w < tail.len() && tail[w].0 == rt[j - 1].0;
                    assert(es[w + 1] == tail[w]);
                    assert(lex_lt(es[0].0, es[w + 1].0));
                }
            } else {
                assert(r[i].0 == rt[i - 1].0 && r[j].0 == rt[j - 1].0);
            }
        }
    }
}

/// Every key of the inserted sequence is the new key or an old one.
pub proof fn lemma_dict_insert_all_keys(es: Seq<(Seq<u8>, BValue)>, k: Seq<u8>, v: BValue)
    ensures
        forall|j: int|
            0 <= j < dict_insert(es, k, v).len() ==> (#[trigger] dict_insert(es, k, v)[j].0 == k
                || exists|i: int| 0 <= i < es.len() && es[i].0 == dict_insert(es, k, v)[j].0),
    decreases es.len(),
{
    let r = dict_insert(es, k, v);
    if es.len() == 0 {
    } else if lex_lt(k, es[0].0) {
        assert forall|j: int| 0 <= j < r.len() implies (#[trigger] r[j].0 == k || exists|i: int|
            0 <= i < es.len() && es[i].0 == r[j].0) by {
            if j > 0 {
                assert(es[j - 1].0 == r[j].0);
            }
        }
    } else if k == es[0].0 {
        assert forall|j: int| 0 <= j < r.len() implies (#[trigger] r[j].0 == k || exists|i: int|
            0 <= i < es.len() && es[i].0 == r[j].0) by {
            if j > 0 {
                assert(es[j].0 == r[j].0);
            }
        }
    } else {
        let tail = es.skip(1);
        lemma_dict_insert_all_keys(tail, k, v);
        let rt = dict_insert(tail, k, v);
        assert forall|j: int| 0 <= j < r.len() implies (#[trigger] r[j].0 == k || exists|i: int|
            0 <= i < es.len() && es[i].0 == r[j].0) by {
            if j == 0 {
                assert(es[0].0 == r[0].0);
            } else {
                assert(r[j].0 == rt[j - 1].0);
                if rt[j - 1].0 != k {
                    let w = choose|w: int| 0 <= w < tail.len() && tail[w].0 == rt[j - 1].0;
                    assert(es[w + 1].0 == r[j].0);
                }
            }
        }
    }
}

/// Every byte of `dec_digits(n)` is an ASCII digit, and there is at
/// least one.
pub proof fn lemma_dec_digits_digits(n: nat)
    ensures
        all_digits(dec_digits(n)),
        dec_digits(n).len() >= 1,
    decreases n,
{
    if n >= 10 {
        lemma_dec_digits_digits(n / 10);
    }
}

/// Reading the digits of `n` back gives `n`.
pub proof fn lemma_dec_val_digits(n: nat)
    ensures
        dec_val(dec_digits(n)) == n,
    decreases n,
{
    if n < 10 {
        let ds = dec_digits(n);
        assert(ds.len() == 1);
        assert(ds.drop_last().len() == 0);
        assert(dec_val(ds) == dec_val(ds.drop_last()) * 10 + (ds.last() - 48));
        assert(ds.last() == (48 + n) as u8);
        assert(dec_val(ds) == n);
    } else {
        lemma_dec_val_digits(n / 10);
        let ds = dec_digits(n);
        assert(ds.drop_last() =~= dec_digits(n / 10));
        assert(0 <= n % 10 < 10);
        assert(ds.last() == (48 + n % 10) as u8);
        assert(ds.last() - 48 == n % 10);
        assert(dec_val(ds) == (n / 10) * 10 + n % 10);
        assert(n == (n / 10) * 10 + n % 10) by (nonlinear_arith);
    }
}

/// A digit run denotes a number that is not negative.
pub proof fn lemma_dec_val_nonneg(ds: Seq<u8>)
    requires
        all_digits(ds),
    ensures
        dec_val(ds) >= 0,
    decreases ds.len(),
{
    if ds.len() > 0 {
        assert(all_digits(ds.drop_last()));
        lemma_dec_val_nonneg(ds.drop_last());
    }
}

/// Extending a digit run only grows the denoted number.
pub proof fn lemma_dec_val_prefix(ds: Seq<u8>, j: int)
    requires
        all_digits(ds),
        0 <= j <= ds.len(),
    ensures
        dec_val(ds.take(j)) <= dec_val(ds),
    decreases ds.len() - j,
{
    if j < ds.len() {
        let ds1 = ds.take(j + 1);
        assert(ds1.drop_last() =~= ds.take(j));
        assert(all_digits(ds1));
        lemma_dec_val_nonneg(ds.take(j));
        assert(dec_val(ds1) == dec_val(ds.take(j)) * 10 + (ds[j] - 48));
        lemma_dec_val_prefix(ds, j + 1);
        assert(ds.take(ds.len() as int) =~= ds);
    } else {
        assert(ds.take(j) =~= ds);
    }
}

/// What `scan_to` returns: a position no further than the end, with no
/// occurrence of `b` before it, and `b` at it unless it is the end.
pub proof fn lemma_scan_to_bounds(s: Seq<u8>, b: u8)
    ensures
        0 <= scan_to(s, b) <= s.len(),
        forall|j: int| 0 <= j < scan_to(s, b) ==> s[j] != b,
        scan_to(s, b) < s.len() ==> s[scan_to(s, b)] == b,
    decreases s.len(),
{
    if s.len() > 0 && s[0] != b {
        lemma_scan_to_bounds(s.skip(1), b);
        assert forall|j: int| 0 <= j < scan_to(s, b) implies s[j] != b by {
            if j > 0 {
                assert(s.skip(1)[j - 1] == s[j]);
            }
        }
        if scan_to(s, b) < s.len() {
            assert(s.skip(1)[scan_to(s, b) - 1] == s[scan_to(s, b)]);
        }
    }
}

/// Scanning past a prefix free of `b` lands where scanning the suffix
/// does.
pub proof fn lemma_scan_to_concat(pre: Seq<u8>, suf: Seq<u8>, b: u8)
    requires
        forall|j: int| 0 <= j < pre.len() ==> pre[j] != b,
    ensures
        scan_to(pre + suf, b) == pre.len() + scan_to(suf, b),
    decreases pre.len(),
{
    if pre.len() == 0 {
        assert(pre + suf =~= suf);
    } else {
        let s = pre + suf;
        assert(s.len() > 0 && s[0] != b);
        assert(s.skip(1) =~= pre.skip(1) + suf);
        lemma_scan_to_concat(pre.skip(1), suf, b);
    }
}

/// Canonical dictionary ordering: however dictionary entries are
/// stored, the canonical entry sequence that encoding emits has its
/// keys in strictly ascending byte order.
pub proof fn lemma_canonical_key_order(es: Seq<(Seq<u8>, BValue)>, n: int)
    requires
        0 <= n <= es.len(),
    ensures
        keys_sorted(canon_entries(es, n)),
    decreases n,
{
    if 0 < n <= es.len() {
        lemma_canonical_key_order(es, n - 1);
        lemma_dict_insert_keeps_sorted(canon_entries(es, n - 1), es[n - 1].0, canon(es[n - 1].1));
    }
}

} // verus!
