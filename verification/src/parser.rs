use vstd::prelude::*;

use crate::lexer::{int_to_bytes, tokens_view, u64_to_bytes, Token};
use crate::model::{
    canon, canon_entries, canon_items, dec_digits, dict_insert, emit, emit_entries, emit_items,
    encoded, keys_sorted, lemma_dict_insert_at, lemma_dict_insert_keeps_sorted, lex_lt,
    lemma_lex_lt_skip, BToken, BValue,
};

verus! {

/// The deepest nesting of lists and dictionaries the parser accepts:
/// anything deeper is refused with a typed error rather than risking
/// the call stack.
pub const MAX_DEPTH: u64 = 64;

/// The recursive bencode value: what a document decodes to, and what
/// the serializer takes back to bytes.
#[derive(Debug, PartialEq)]
pub enum Bencode {
    /// A signed 64-bit integer.
    Integer(i64),
    /// A fixed-length string of raw bytes.
    ByteString(Vec<u8>),
    /// An ordered list of bencode values.
    List(Vec<Bencode>),
    /// An associative array whose keys can only be byte strings. The
    /// stored entry order is free; encoding sorts the keys.
    Dictionary(Vec<(Vec<u8>, Bencode)>),
}

/// The value sequence a vector of values stands for.
pub open spec fn vals_view(s: Seq<Bencode>) -> Seq<BValue> {
    Seq::new(s.len(), |i: int| s[i]@)
}

/// The entry sequence a vector of key/value pairs stands for.
pub open spec fn entries_view(s: Seq<(Vec<u8>, Bencode)>) -> Seq<(Seq<u8>, BValue)> {
    Seq::new(s.len(), |i: int| (s[i].0@, s[i].1@))
}

/// The model value of an executable value tree.
pub open spec fn bval(v: Bencode) -> BValue
    decreases v, 0nat, 0nat,
{
    match v {
        Bencode::Integer(n) => BValue::Int(n as int),
        Bencode::ByteString(s) => BValue::Bytes(s@),
        Bencode::List(items) => BValue::List(bval_items(items, 0)),
        Bencode::Dictionary(es) => BValue::Dict(bval_entries(es, 0)),
    }
}

/// Model values of the list items from index `i` on.
pub open spec fn bval_items(items: Vec<Bencode>, i: int) -> Seq<BValue>
    decreases items, items@.len() - i, 1nat,
{
    if 0 <= i < items@.len() {
        seq![bval(items[i])] + bval_items(items, i + 1)
    } else {
        Seq::empty()
    }
}

/// Model entries of the dictionary entries from index `i` on.
pub open spec fn bval_entries(es: Vec<(Vec<u8>, Bencode)>, i: int) -> Seq<(Seq<u8>, BValue)>
    decreases es, es@.len() - i, 1nat,
{
    if 0 <= i < es@.len() {
        seq![(es[i].0@, bval(es[i].1))] + bval_entries(es, i + 1)
    } else {
        Seq::empty()
    }
}

impl View for Bencode {
    type V = BValue;

    open spec fn view(&self) -> BValue {
        bval(*self)
    }
}

/// The view of a list value is the pointwise view of its items.
pub proof fn lemma_view_list(items: Vec<Bencode>)
    ensures
        Bencode::List(items)@ == BValue::List(vals_view(items@)),
{
    lemma_bval_items(items, 0);
    assert(vals_view(items@).skip(0) =~= vals_view(items@));
}

/// The view of a dictionary value is the pointwise view of its entries.
pub proof fn lemma_view_dict(es: Vec<(Vec<u8>, Bencode)>)
    ensures
        Bencode::Dictionary(es)@ == BValue::Dict(entries_view(es@)),
{
    lemma_bval_entries(es, 0);
    assert(entries_view(es@).skip(0) =~= entries_view(es@));
}

proof fn lemma_bval_items(items: Vec<Bencode>, i: int)
    requires
        0 <= i <= items@.len(),
    ensures
        bval_items(items, i) == vals_view(items@).skip(i),
    decreases items@.len() - i,
{
    if i < items@.len() {
        lemma_bval_items(items, i + 1);
        assert(seq![bval(items[i])] + vals_view(items@).skip(i + 1) =~= vals_view(items@).skip(
            i,
        ));
    } else {
        assert(bval_items(items, i) =~= vals_view(items@).skip(i));
    }
}

proof fn lemma_bval_entries(es: Vec<(Vec<u8>, Bencode)>, i: int)
    requires
        0 <= i <= es@.len(),
    ensures
        bval_entries(es, i) == entries_view(es@).skip(i),
    decreases es@.len() - i,
{
    if i < es@.len() {
        lemma_bval_entries(es, i + 1);
        assert(seq![(es[i].0@, bval(es[i].1))] + entries_view(es@).skip(i + 1) =~= entries_view(
            es@,
        ).skip(i));
    } else {
        assert(bval_entries(es, i) =~= entries_view(es@).skip(i));
    }
}

/// What can go wrong while shaping tokens into a value tree.
#[derive(Debug, Clone, PartialEq)]
pub enum Error {
    /// An empty token sequence was handed in.
    NoTokens,
    /// An `End` token stands where a value is expected.
    UnexpectedEnd,
    /// A list ran out of tokens before its `End`.
    UnterminatedList,
    /// A token other than a byte string stands as a dictionary key.
    InvalidDictionaryKey,
    /// A dictionary ran out of tokens before its `End`.
    UnterminatedDictionary,
    /// Lists and dictionaries nest deeper than the parser accepts.
    MaxDepthExceeded,
}

impl Error {
    /// A human-readable account of the error.
    pub fn message(&self) -> String {
        match self {
            Error::NoTokens => "There are no tokens in the given vector.".to_owned(),
            Error::UnexpectedEnd => "Too many end characters in given data.".to_owned(),
            Error::UnterminatedList => "There is a list without an end character in given data."
                .to_owned(),
            Error::InvalidDictionaryKey => "Dictionaries can only have byte strings as keys."
                .to_owned(),
            Error::UnterminatedDictionary => "There is a dictionary without an end character in given data."
                .to_owned(),
            Error::MaxDepthExceeded => "The data nests lists or dictionaries too deeply."
                .to_owned(),
        }
    }
}

/// One value read from the front of the token sequence, its first token
/// already split off, and the tokens left over. Opening a list or a
/// dictionary spends one level of the depth allowance.
pub open spec fn spec_parse_value(t: BToken, ts: Seq<BToken>, d: nat) -> Result<
    (BValue, Seq<BToken>),
    Error,
>
    decreases ts.len(), 1nat,
{
    match t {
        BToken::Int(n) => Ok((BValue::Int(n), ts)),
        BToken::Bytes(s) => Ok((BValue::Bytes(s), ts)),
        BToken::End => Err(Error::UnexpectedEnd),
        BToken::List => if d == 0 {
            Err(Error::MaxDepthExceeded)
        } else {
            match spec_parse_list(ts, Seq::empty(), (d - 1) as nat) {
                Ok((items, rest)) => Ok((BValue::List(items), rest)),
                Err(e) => Err(e),
            }
        },
        BToken::Dict => if d == 0 {
            Err(Error::MaxDepthExceeded)
        } else {
            match spec_parse_dict(ts, Seq::empty(), (d - 1) as nat) {
                Ok((es, rest)) => Ok((BValue::Dict(es), rest)),
                Err(e) => Err(e),
            }
        },
    }
}

/// List items read until an `End` token, gathered onto `acc`.
pub open spec fn spec_parse_list(ts: Seq<BToken>, acc: Seq<BValue>, d: nat) -> Result<
    (Seq<BValue>, Seq<BToken>),
    Error,
>
    decreases ts.len(), 0nat,
{
    if ts.len() == 0 {
        Err(Error::UnterminatedList)
    } else if ts[0] is End {
        Ok((acc, ts.skip(1)))
    } else {
        match spec_parse_value(ts[0], ts.skip(1), d) {
            Err(e) => Err(e),
            Ok((v, rest)) => if rest.len() < ts.len() {
                spec_parse_list(rest, acc.push(v), d)
            } else {
                Err(Error::UnterminatedList)
            },
        }
    }
}

/// Dictionary entries read until an `End` token, inserted into `acc` in
/// key order; on a repeated key the last write wins.
pub open spec fn spec_parse_dict(
    ts: Seq<BToken>,
    acc: Seq<(Seq<u8>, BValue)>,
    d: nat,
) -> Result<(Seq<(Seq<u8>, BValue)>, Seq<BToken>), Error>
    decreases ts.len(), 0nat,
{
    if ts.len() == 0 {
        Err(Error::UnterminatedDictionary)
    } else if ts[0] is End {
        Ok((acc, ts.skip(1)))
    } else if ts[0] is Bytes {
        let k = ts[0]->Bytes_0;
        if ts.len() == 1 {
            Err(Error::UnterminatedDictionary)
        } else {
            match spec_parse_value(ts[1], ts.skip(2), d) {
                Err(e) => Err(e),
                Ok((v, rest)) => if rest.len() < ts.len() {
                    spec_parse_dict(rest, dict_insert(acc, k, v), d)
                } else {
                    Err(Error::UnterminatedDictionary)
                },
            }
        }
    } else {
        Err(Error::InvalidDictionaryKey)
    }
}

/// The value of a whole token sequence: its first value; tokens past it
/// are ignored, as the original decoder ignored them.
pub open spec fn spec_parse(ts: Seq<BToken>) -> Result<BValue, Error> {
    if ts.len() == 0 {
        Err(Error::NoTokens)
    } else {
        match spec_parse_value(ts[0], ts.skip(1), MAX_DEPTH as nat) {
            Ok((v, rest)) => Ok(v),
            Err(e) => Err(e),
        }
    }
}

/// How two byte-string keys compare.
pub enum KeyOrder {
    Less,
    Equal,
    Greater,
}

/// Three-way byte-lexicographic comparison of two keys.
fn key_cmp(a: &Vec<u8>, b: &Vec<u8>) -> (r: KeyOrder)
    ensures
        r is Less <==> lex_lt(a@, b@),
        r is Equal <==> a@ == b@,
        r is Greater <==> lex_lt(b@, a@),
{
    let an = a.len();
    let bn = b.len();
    let mut i: usize = 0;
    while i < an && i < bn && a[i] == b[i]
        invariant
            0 <= i <= an,
            i <= bn,
            an == a@.len(),
            bn == b@.len(),
            a@.take(i as int) == b@.take(i as int),
        decreases an - i,
    {
        proof {
            assert(a@.take(i + 1) =~= a@.take(i as int).push(a@[i as int]));
            assert(b@.take(i + 1) =~= b@.take(i as int).push(b@[i as int]));
        }
        i = i + 1;
    }
    proof {
        lemma_lex_lt_skip(a@, b@, i as int);
        lemma_lex_lt_skip(b@, a@, i as int);
    }
    if i >= an && i >= bn {
        proof {
            assert(a@.skip(i as int) =~= b@.skip(i as int));
        }
        KeyOrder::Equal
    } else if i >= an {
        KeyOrder::Less
    } else if i >= bn {
        KeyOrder::Greater
    } else {
        let x = a[i];
        let y = b[i];
        proof {
            assert(a@.skip(i as int)[0] == x);
            assert(b@.skip(i as int)[0] == y);
        }
        if x < y {
            KeyOrder::Less
        } else {
            KeyOrder::Greater
        }
    }
}

/// Put one key/value pair into a key-sorted entry vector, keeping the
/// order; an entry under the same key is replaced.
#[verifier::rlimit(30)]
fn insert_sorted(es: &mut Vec<(Vec<u8>, Bencode)>, k: Vec<u8>, v: Bencode)
    requires
        keys_sorted(entries_view(old(es)@)),
    ensures
        entries_view(final(es)@) == dict_insert(entries_view(old(es)@), k@, v@),
        keys_sorted(entries_view(final(es)@)),
{
    let ghost ev0 = entries_view(es@);
    let n = es.len();
    let mut p: usize = 0;
    let mut stop: bool = false;
    while !stop && p < n
        invariant
            0 <= p <= n,
            n == es@.len(),
            es@ == old(es)@,
            ev0 == entries_view(es@),
            forall|j: int| 0 <= j < p ==> lex_lt(#[trigger] ev0[j].0, k@),
            stop ==> p < n && !lex_lt(ev0[p as int].0, k@),
        decreases n - p + (if stop { 0int } else { 1int }),
    {
        let c = key_cmp(&es[p].0, &k);
        match c {
            KeyOrder::Less => {
                p = p + 1;
            },
            _ => {
                stop = true;
            },
        }
    }
    proof {
        lemma_dict_insert_at(ev0, k@, v@, p as int);
        lemma_dict_insert_keeps_sorted(ev0, k@, v@);
    }
    if !stop {
        es.push((k, v));
        proof {
            assert(entries_view(es@) =~= ev0.push((k@, v@)));
            assert(ev0.take(n as int) + seq![(k@, v@)] + ev0.skip(n as int) =~= ev0.push(
                (k@, v@),
            ));
        }
    } else {
        let same = match key_cmp(&es[p].0, &k) {
            KeyOrder::Equal => true,
            _ => false,
        };
        if same {
            es.remove(p);
            es.insert(p, (k, v));
            proof {
                assert(entries_view(es@) =~= ev0.update(p as int, (k@, v@)));
            }
        } else {
            es.insert(p, (k, v));
            proof {
                assert(entries_view(es@) =~= ev0.take(p as int) + seq![(k@, v@)] + ev0.skip(
                    p as int,
                ));
            }
        }
    }
}

/// The value of a token vector: the first value the tokens spell;
/// trailing tokens are ignored. An empty vector is refused.
pub fn parse(tokens: Vec<Token>) -> (r: Result<Bencode, Error>)
    ensures
        match r {
            Ok(v) => spec_parse(tokens_view(tokens@)) == Ok::<BValue, Error>(v@),
            Err(e) => spec_parse(tokens_view(tokens@)) == Err::<BValue, Error>(e),
        },
{
    let mut toks = tokens;
    let ghost ts0 = tokens_view(toks@);
    if toks.len() == 0 {
        return Err(Error::NoTokens);
    }
    let t = toks.remove(0);
    proof {
        assert(tokens_view(toks@) =~= ts0.skip(1));
        assert(ts0[0] == t@);
    }
    match parse_token(t, &mut toks, MAX_DEPTH) {
        Ok(v) => Ok(v),
        Err(e) => Err(e),
    }
}

/// One value built from its first token `t` and, for lists and
/// dictionaries, from the tokens that follow, which are consumed.
pub fn parse_token(t: Token, tokens: &mut Vec<Token>, depth: u64) -> (r: Result<Bencode, Error>)
    ensures
        final(tokens)@.len() <= old(tokens)@.len(),
        match r {
            Ok(v) => spec_parse_value(t@, tokens_view(old(tokens)@), depth as nat)
                == Ok::<(BValue, Seq<BToken>), Error>((v@, tokens_view(final(tokens)@))),
            Err(e) => spec_parse_value(t@, tokens_view(old(tokens)@), depth as nat)
                == Err::<(BValue, Seq<BToken>), Error>(e),
        },
    decreases old(tokens)@.len(), 1nat,
{
    match t {
        Token::Integer(n) => Ok(Bencode::Integer(n)),
        Token::ByteString(s) => Ok(Bencode::ByteString(s)),
        Token::End => Err(Error::UnexpectedEnd),
        Token::List => {
            if depth == 0 {
                return Err(Error::MaxDepthExceeded);
            }
            match parse_list(tokens, depth - 1) {
                Ok(items) => {
                    proof {
                        lemma_view_list(items);
                    }
                    Ok(Bencode::List(items))
                },
                Err(e) => Err(e),
            }
        },
        Token::Dictionary => {
            if depth == 0 {
                return Err(Error::MaxDepthExceeded);
            }
            match parse_dict(tokens, depth - 1) {
                Ok(es) => {
                    proof {
                        lemma_view_dict(es);
                    }
                    Ok(Bencode::Dictionary(es))
                },
                Err(e) => Err(e),
            }
        },
    }
}

/// List items read from the tokens until an `End` token.
fn parse_list(tokens: &mut Vec<Token>, depth: u64) -> (r: Result<Vec<Bencode>, Error>)
    ensures
        final(tokens)@.len() <= old(tokens)@.len(),
        match r {
            Ok(items) => spec_parse_list(tokens_view(old(tokens)@), Seq::empty(), depth as nat)
                == Ok::<(Seq<BValue>, Seq<BToken>), Error>(
                (vals_view(items@), tokens_view(final(tokens)@)),
            ),
            Err(e) => spec_parse_list(tokens_view(old(tokens)@), Seq::empty(), depth as nat)
                == Err::<(Seq<BValue>, Seq<BToken>), Error>(e),
        },
    decreases old(tokens)@.len(), 0nat,
{
    let ghost ts0 = tokens_view(old(tokens)@);
    let mut items: Vec<Bencode> = Vec::new();
    proof {
        assert(vals_view(items@) =~= Seq::<BValue>::empty());
    }
    loop
        invariant
            tokens@.len() <= old(tokens)@.len(),
            spec_parse_list(ts0, Seq::empty(), depth as nat) == spec_parse_list(
                tokens_view(tokens@),
                vals_view(items@),
                depth as nat,
            ),
            ts0 == tokens_view(old(tokens)@),
        decreases tokens@.len(),
    {
        let ghost ts_cur = tokens_view(tokens@);
        if tokens.len() == 0 {
            return Err(Error::UnterminatedList);
        }
        let t = tokens.remove(0);
        proof {
            assert(ts_cur[0] == t@);
            assert(tokens_view(tokens@) =~= ts_cur.skip(1));
        }
        match t {
            Token::End => {
                return Ok(items);
            },
            other => {
                let ghost acc = vals_view(items@);
                match parse_token(other, tokens, depth) {
                    Err(e) => {
                        return Err(e);
                    },
                    Ok(v) => {
                        proof {
                            assert(spec_parse_value(other@, ts_cur.skip(1), depth as nat)
                                == Ok::<(BValue, Seq<BToken>), Error>(
                                (v@, tokens_view(tokens@)),
                            ));
                            assert(tokens_view(tokens@).len() < ts_cur.len());
                            assert(spec_parse_list(ts_cur, acc, depth as nat) == spec_parse_list(
                                tokens_view(tokens@),
                                acc.push(v@),
                                depth as nat,
                            ));
                            assert(vals_view(items@.push(v)) =~= acc.push(v@));
                        }
                        items.push(v);
                    },
                }
            },
        }
    }
}

/// Dictionary entries read from the tokens until an `End` token; each
/// key must be a byte string, and entries land in key-sorted order with
/// the last write winning on a repeated key.
fn parse_dict(tokens: &mut Vec<Token>, depth: u64) -> (r: Result<Vec<(Vec<u8>, Bencode)>, Error>)
    ensures
        final(tokens)@.len() <= old(tokens)@.len(),
        match r {
            Ok(es) => spec_parse_dict(tokens_view(old(tokens)@), Seq::empty(), depth as nat)
                == Ok::<(Seq<(Seq<u8>, BValue)>, Seq<BToken>), Error>(
                (entries_view(es@), tokens_view(final(tokens)@)),
            ) && keys_sorted(entries_view(es@)),
            Err(e) => spec_parse_dict(tokens_view(old(tokens)@), Seq::empty(), depth as nat)
                == Err::<(Seq<(Seq<u8>, BValue)>, Seq<BToken>), Error>(e),
        },
    decreases old(tokens)@.len(), 0nat,
{
    let ghost ts0 = tokens_view(old(tokens)@);
    let mut entries: Vec<(Vec<u8>, Bencode)> = Vec::new();
    proof {
        assert(entries_view(entries@) =~= Seq::<(Seq<u8>, BValue)>::empty());
    }
    loop
        invariant
            tokens@.len() <= old(tokens)@.len(),
            keys_sorted(entries_view(entries@)),
            spec_parse_dict(ts0, Seq::empty(), depth as nat) == spec_parse_dict(
                tokens_view(tokens@),
                entries_view(entries@),
                depth as nat,
            ),
            ts0 == tokens_view(old(tokens)@),
        decreases tokens@.len(),
    {
        let ghost ts_cur = tokens_view(tokens@);
        if tokens.len() == 0 {
            return Err(Error::UnterminatedDictionary);
        }
        let t = tokens.remove(0);
        proof {
            assert(ts_cur[0] == t@);
            assert(tokens_view(tokens@) =~= ts_cur.skip(1));
        }
        match t {
            Token::End => {
                return Ok(entries);
            },
            Token::ByteString(key) => {
                if tokens.len() == 0 {
                    proof {
                        assert(ts_cur.len() == 1);
                    }
                    return Err(Error::UnterminatedDictionary);
                }
                let t2 = tokens.remove(0);
                proof {
                    assert(ts_cur.skip(1)[0] == t2@);
                    assert(ts_cur[1] == t2@);
                    assert(tokens_view(tokens@) =~= ts_cur.skip(2));
                }
                let ghost acc = entries_view(entries@);
                match parse_token(t2, tokens, depth) {
                    Err(e) => {
                        return Err(e);
                    },
                    Ok(val) => {
                        proof {
                            assert(spec_parse_value(t2@, ts_cur.skip(2), depth as nat)
                                == Ok::<(BValue, Seq<BToken>), Error>(
                                (val@, tokens_view(tokens@)),
                            ));
                            assert(tokens_view(tokens@).len() < ts_cur.len());
                            assert(spec_parse_dict(ts_cur, acc, depth as nat) == spec_parse_dict(
                                tokens_view(tokens@),
                                dict_insert(acc, key@, val@),
                                depth as nat,
                            ));
                        }
                        insert_sorted(&mut entries, key, val);
                    },
                }
            },
            _ => {
                return Err(Error::InvalidDictionaryKey);
            },
        }
    }
}

/// An owned copy of a byte string.
fn copy_bytes(s: &Vec<u8>) -> (r: Vec<u8>)
    ensures
        r@ == s@,
{
    vstd::slice::slice_to_vec(s.as_slice())
}

/// The canonical form of a value tree: a copy in which every
/// dictionary's entries stand in ascending key order, the last write
/// winning on a repeated key.
fn canonize(v: &Bencode) -> (r: Bencode)
    ensures
        r@ == canon(v@),
    decreases v,
{
    match v {
        Bencode::Integer(n) => Bencode::Integer(*n),
        Bencode::ByteString(s) => Bencode::ByteString(copy_bytes(s)),
        Bencode::List(items) => {
            let ghost iv = vals_view(items@);
            let n = items.len();
            let mut out: Vec<Bencode> = Vec::new();
            let mut i: usize = 0;
            proof {
                lemma_view_list(*items);
                assert(vals_view(out@) + canon_items(iv, 0) =~= canon_items(iv, 0));
            }
            while i < n
                invariant
                    0 <= i <= n,
                    n == items@.len(),
                    iv == vals_view(items@),
                    v == Bencode::List(*items),
                    vals_view(out@) + canon_items(iv, i as int) == canon_items(iv, 0),
                decreases n - i,
            {
                proof {
                    assert(decreases_to!(*v => v->List_0));
                    assert(v->List_0 == *items);
                    vstd::std_specs::vec::axiom_vec_index_decreases(*items, i as int);
                    assert(decreases_to!(*v => items@[i as int]));
                }
                let c = canonize(&items[i]);
                proof {
                    assert(c@ == canon(iv[i as int]));
                    assert(vals_view(out@.push(c)) =~= vals_view(out@).push(c@));
                    assert(vals_view(out@).push(c@) + canon_items(iv, i + 1) =~= vals_view(out@)
                        + canon_items(iv, i as int));
                }
                out.push(c);
                i = i + 1;
            }
            proof {
                assert(canon_items(iv, n as int) =~= Seq::<BValue>::empty());
                assert(vals_view(out@) + canon_items(iv, n as int) =~= vals_view(out@));
                lemma_view_list(out);
            }
            Bencode::List(out)
        },
        Bencode::Dictionary(es) => {
            let ghost ev = entries_view(es@);
            let n = es.len();
            let mut out: Vec<(Vec<u8>, Bencode)> = Vec::new();
            let mut i: usize = 0;
            proof {
                lemma_view_dict(*es);
                assert(entries_view(out@) =~= canon_entries(ev, 0));
            }
            while i < n
                invariant
                    0 <= i <= n,
                    n == es@.len(),
                    ev == entries_view(es@),
                    v == Bencode::Dictionary(*es),
                    entries_view(out@) == canon_entries(ev, i as int),
                    keys_sorted(entries_view(out@)),
                decreases n - i,
            {
                let pair = &es[i];
                let k = copy_bytes(&pair.0);
                proof {
                    assert(decreases_to!(*v => v->Dictionary_0));
                    assert(v->Dictionary_0 == *es);
                    vstd::std_specs::vec::axiom_vec_index_decreases(*es, i as int);
                    assert(decreases_to!(es@[i as int] => es@[i as int].1));
                    assert(decreases_to!(*v => es@[i as int].1));
                }
                let c = canonize(&pair.1);
                proof {
                    assert(k@ == ev[i as int].0);
                    assert(c@ == canon(ev[i as int].1));
                }
                insert_sorted(&mut out, k, c);
                i = i + 1;
            }
            proof {
                lemma_view_dict(out);
            }
            Bencode::Dictionary(out)
        },
    }
}

/// The bencode bytes of a value tree, dictionary entries emitted in
/// stored order.
fn emit_value(v: &Bencode) -> (r: Vec<u8>)
    ensures
        r@ == emit(v@),
    decreases v,
{
    match v {
        Bencode::Integer(n) => {
            let mut out: Vec<u8> = Vec::new();
            out.push(105);
            let mut mid = int_to_bytes(*n);
            out.append(&mut mid);
            out.push(101);
            proof {
                assert(out@ =~= emit(v@));
            }
            out
        },
        Bencode::ByteString(s) => {
            let mut out = u64_to_bytes(s.len() as u64);
            out.push(58);
            let mut pay = copy_bytes(s);
            out.append(&mut pay);
            proof {
                assert(out@ =~= emit(v@));
            }
            out
        },
        Bencode::List(items) => {
            let ghost iv = vals_view(items@);
            let n = items.len();
            let mut out: Vec<u8> = Vec::new();
            out.push(108);
            proof {
                lemma_view_list(*items);
                assert(out@ + emit_items(iv, 0) =~= seq![108u8] + emit_items(iv, 0));
            }
            let mut i: usize = 0;
            while i < n
                invariant
                    0 <= i <= n,
                    n == items@.len(),
                    iv == vals_view(items@),
                    v == Bencode::List(*items),
                    out@ + emit_items(iv, i as int) == seq![108u8] + emit_items(iv, 0),
                decreases n - i,
            {
                proof {
                    assert(decreases_to!(*v => v->List_0));
                    assert(v->List_0 == *items);
                    vstd::std_specs::vec::axiom_vec_index_decreases(*items, i as int);
                    assert(decreases_to!(*v => items@[i as int]));
                }
                let mut piece = emit_value(&items[i]);
                proof {
                    assert(piece@ == emit(iv[i as int]));
                    assert((out@ + piece@) + emit_items(iv, i + 1) =~= out@ + emit_items(
                        iv,
                        i as int,
                    ));
                }
                out.append(&mut piece);
                i = i + 1;
            }
            out.push(101);
            proof {
                assert(emit_items(iv, n as int) =~= Seq::<u8>::empty());
                assert(out@ =~= seq![108u8] + emit_items(iv, 0) + seq![101u8]);
            }
            out
        },
        Bencode::Dictionary(es) => {
            let ghost ev = entries_view(es@);
            let n = es.len();
            let mut out: Vec<u8> = Vec::new();
            out.push(100);
            proof {
                lemma_view_dict(*es);
                assert(out@ + emit_entries(ev, 0) =~= seq![100u8] + emit_entries(ev, 0));
            }
            let mut i: usize = 0;
            while i < n
                invariant
                    0 <= i <= n,
                    n == es@.len(),
                    ev == entries_view(es@),
                    v == Bencode::Dictionary(*es),
                    out@ + emit_entries(ev, i as int) == seq![100u8] + emit_entries(ev, 0),
                decreases n - i,
            {
                let ghost out0 = out@;
                let pair = &es[i];
                let mut head = u64_to_bytes(pair.0.len() as u64);
                out.append(&mut head);
                out.push(58);
                let mut kb = copy_bytes(&pair.0);
                out.append(&mut kb);
                proof {
                    assert(decreases_to!(*v => v->Dictionary_0));
                    assert(v->Dictionary_0 == *es);
                    vstd::std_specs::vec::axiom_vec_index_decreases(*es, i as int);
                    assert(decreases_to!(es@[i as int] => es@[i as int].1));
                    assert(decreases_to!(*v => es@[i as int].1));
                }
                let mut piece = emit_value(&pair.1);
                out.append(&mut piece);
                proof {
                    assert(out@ =~= out0 + (dec_digits(ev[i as int].0.len()) + seq![58u8]
                        + ev[i as int].0 + emit(ev[i as int].1)));
                    assert(out@ + emit_entries(ev, i + 1) =~= out0 + emit_entries(ev, i as int));
                }
                i = i + 1;
            }
            out.push(101);
            proof {
                assert(emit_entries(ev, n as int) =~= Seq::<u8>::empty());
                assert(out@ =~= seq![100u8] + emit_entries(ev, 0) + seq![101u8]);
            }
            out
        },
    }
}

impl Bencode {
    /// The canonical bencode encoding of this value: dictionaries are
    /// emitted with their keys in ascending byte order, whatever order
    /// they were stored in, so equal mappings give equal bytes.
    pub fn into_bytes(self) -> (r: Vec<u8>)
        ensures
            r@ == encoded(self@),
    {
        let c = canonize(&self);
        emit_value(&c)
    }
}

} // verus!
