use vstd::prelude::*;

use crate::model::{
    all_digits, btok_len, dec_digits, dec_val, fits_i64, int_body_val, int_body_valid, int_bytes,
    is_digit, lemma_dec_val_nonneg, lemma_dec_val_prefix, lemma_scan_to_bounds, scan_to, BToken,
};
use vstd::slice::{slice_index_get, slice_subrange, slice_to_vec};

verus! {

/// What can go wrong while turning bytes into tokens.
#[derive(Debug, Clone, PartialEq)]
pub enum Error {
    /// The run between `i` and `e` is not a signed 64-bit decimal.
    InvalidInteger,
    /// The run before the `:` of a byte string is not a decimal length.
    InvalidLength,
    /// A byte string declares more bytes than the buffer still holds.
    TruncatedByteString,
    /// No token starts with this byte.
    UnrecognizedLeadingByte(u8),
    /// The buffer holds no byte at all.
    EmptyInput,
}

impl Error {
    /// A human-readable account of the error.
    pub fn message(&self) -> String {
        match self {
            Error::InvalidInteger => "Integers can only be composed of numeric characters."
                .to_owned(),
            Error::InvalidLength => "Length can only be composed of numeric characters."
                .to_owned(),
            Error::TruncatedByteString => "The data contains a malformed string of bytes."
                .to_owned(),
            Error::UnrecognizedLeadingByte(_) => "Does not recognize a data structure with this beginning."
                .to_owned(),
            Error::EmptyInput => "Given slice is empty.".to_owned(),
        }
    }
}

/// One lexical unit of a bencode document. Nesting is implicit: the
/// openers and `End` are matched up later by the parser.
#[derive(Debug, Clone, PartialEq)]
pub enum Token {
    Dictionary,
    List,
    Integer(i64),
    ByteString(Vec<u8>),
    End,
}

impl View for Token {
    type V = BToken;

    open spec fn view(&self) -> BToken {
        match self {
            Token::Dictionary => BToken::Dict,
            Token::List => BToken::List,
            Token::Integer(n) => BToken::Int(*n as int),
            Token::ByteString(s) => BToken::Bytes(s@),
            Token::End => BToken::End,
        }
    }
}

impl Token {
    /// How many bytes this token takes in canonical form: for tokens
    /// read from canonical input this is exactly what the reader
    /// consumed.
    pub fn shift(&self) -> (r: usize)
        requires
            btok_len(self@) <= usize::MAX,
        ensures
            r as int == btok_len(self@),
    {
        match self {
            Token::Dictionary => 1,
            Token::List => 1,
            Token::End => 1,
            Token::Integer(n) => 2 + str_len(*n),
            Token::ByteString(s) => {
                let head = u64_to_bytes(s.len() as u64);
                head.len() + 1 + s.len()
            },
        }
    }
}

/// The token sequence a token vector stands for.
pub open spec fn tokens_view(s: Seq<Token>) -> Seq<BToken> {
    Seq::new(s.len(), |i: int| s[i]@)
}

/// The decimal digits of `n`, as bytes.
pub fn u64_to_bytes(n: u64) -> (r: Vec<u8>)
    ensures
        r@ == dec_digits(n as nat),
    decreases n,
{
    if n < 10 {
        let mut r: Vec<u8> = Vec::new();
        r.push((48 + n) as u8);
        proof {
            assert(r@ =~= dec_digits(n as nat));
        }
        r
    } else {
        let mut r = u64_to_bytes(n / 10);
        r.push((48 + n % 10) as u8);
        proof {
            assert(r@ =~= dec_digits(n as nat));
        }
        r
    }
}

/// The decimal form of `n`, as bytes, with a minus sign for negatives.
pub fn int_to_bytes(n: i64) -> (r: Vec<u8>)
    ensures
        r@ == int_bytes(n as int),
{
    if n >= 0 {
        u64_to_bytes(n as u64)
    } else {
        let mut r: Vec<u8> = Vec::new();
        r.push(45);
        let m: u64 = if n == i64::MIN {
            9223372036854775808u64
        } else {
            (-n) as u64
        };
        proof {
            assert(m as int == -(n as int));
        }
        let mut tail = u64_to_bytes(m);
        r.append(&mut tail);
        proof {
            assert(r@ =~= int_bytes(n as int));
        }
        r
    }
}

/// How many bytes the decimal form of `d` takes, sign counted.
pub fn str_len(d: i64) -> (r: usize)
    ensures
        r == int_bytes(d as int).len(),
{
    let v = int_to_bytes(d);
    v.len()
}

/// The first token of `s` and how many bytes it takes, or the error.
/// The leading byte dispatches: `d`, `l` and `e` are one-byte markers,
/// `i` opens an integer, a digit opens a byte string.
pub open spec fn spec_next(s: Seq<u8>) -> Result<(BToken, int), Error> {
    if s.len() == 0 {
        Err(Error::EmptyInput)
    } else if s[0] == 100 {
        Ok((BToken::Dict, 1))
    } else if s[0] == 108 {
        Ok((BToken::List, 1))
    } else if s[0] == 101 {
        Ok((BToken::End, 1))
    } else if s[0] == 105 {
        match spec_read_int(s.skip(1)) {
            Ok((t, used)) => Ok((t, used + 1)),
            Err(e) => Err(e),
        }
    } else if is_digit(s[0]) {
        spec_read_bytes(s)
    } else {
        Err(Error::UnrecognizedLeadingByte(s[0]))
    }
}

/// An integer token read from the bytes after the opening `i`: the run
/// up to the terminating `e` must be an optional minus sign and then
/// digits, and the value must fit a signed 64-bit integer. Leading
/// zeros and a minus before zero are accepted and normalized to the
/// value they denote.
pub open spec fn spec_read_int(s: Seq<u8>) -> Result<(BToken, int), Error> {
    let k = scan_to(s, 101);
    if k >= s.len() {
        Err(Error::InvalidInteger)
    } else {
        let body = s.take(k);
        if int_body_valid(body) && fits_i64(int_body_val(body)) {
            Ok((BToken::Int(int_body_val(body)), k + 1))
        } else {
            Err(Error::InvalidInteger)
        }
    }
}

/// A byte-string token: a decimal length, a `:`, then exactly that many
/// payload bytes. A declared length beyond the remaining buffer is a
/// truncation, whatever the declared number.
pub open spec fn spec_read_bytes(s: Seq<u8>) -> Result<(BToken, int), Error> {
    let k = scan_to(s, 58);
    if k >= s.len() {
        Err(Error::InvalidLength)
    } else {
        let lenp = s.take(k);
        if !(lenp.len() >= 1 && all_digits(lenp)) {
            Err(Error::InvalidLength)
        } else if s.len() - k - 1 < dec_val(lenp) {
            Err(Error::TruncatedByteString)
        } else {
            Ok((BToken::Bytes(s.subrange(k + 1, k + 1 + dec_val(lenp))), k + 1 + dec_val(lenp)))
        }
    }
}

/// A token never takes less than one byte nor more than the buffer.
pub proof fn lemma_next_consumes(s: Seq<u8>)
    ensures
        spec_next(s) matches Ok(p) ==> 1 <= p.1 <= s.len(),
{
    if s.len() > 0 {
        if s[0] == 105 {
            lemma_scan_to_bounds(s.skip(1), 101);
        } else if is_digit(s[0]) {
            lemma_scan_to_bounds(s, 58);
            let k = scan_to(s, 58);
            if k < s.len() {
                let lenp = s.take(k);
                if lenp.len() >= 1 && all_digits(lenp) {
                    lemma_dec_val_nonneg(lenp);
                }
            }
        }
    }
}

/// The whole token sequence of a buffer: tokens read one after the
/// other until the buffer is exhausted, or the first error.
pub open spec fn spec_lex(s: Seq<u8>) -> Result<Seq<BToken>, Error>
    decreases s.len(),
{
    if s.len() == 0 {
        Ok(Seq::empty())
    } else {
        match spec_next(s) {
            Err(e) => Err(e),
            Ok((t, used)) => if 1 <= used <= s.len() {
                match spec_lex(s.skip(used)) {
                    Err(e) => Err(e),
                    Ok(ts) => Ok(seq![t] + ts),
                }
            } else {
                Err(Error::EmptyInput)
            },
        }
    }
}

/// Tokens already read, joined onto what the rest of the buffer gives.
pub open spec fn lex_app(pre: Seq<BToken>, r: Result<Seq<BToken>, Error>) -> Result<
    Seq<BToken>,
    Error,
> {
    match r {
        Ok(ts) => Ok(pre + ts),
        Err(e) => Err(e),
    }
}

/// The longest prefix of `slice` free of the byte `end`.
pub fn read_until(slice: &[u8], end: u8) -> (r: Vec<u8>)
    ensures
        r@ == slice@.take(scan_to(slice@, end)),
        r@.len() == scan_to(slice@, end),
{
    let n: usize = slice.len();
    let mut r: Vec<u8> = Vec::new();
    let mut i: usize = 0;
    let mut stop: bool = false;
    while !stop && i < n
        invariant
            0 <= i <= n,
            n == slice@.len(),
            r@ =~= slice@.take(i as int),
            forall|j: int| 0 <= j < i ==> slice@[j] != end,
            stop ==> i < n && slice@[i as int] == end,
        decreases n - i + (if stop { 0int } else { 1int }),
    {
        let b = *slice_index_get(slice, i);
        if b == end {
            stop = true;
        } else {
            r.push(b);
            i = i + 1;
        }
    }
    proof {
        lemma_scan_to_bounds(slice@, end);
        let k = scan_to(slice@, end);
        if stop {
            // `end` stands at `i` and nowhere before: that is the scan index.
            assert(k <= i);
            assert(k >= i);
        } else {
            assert(i == n);
            assert(k == n);
        }
        assert(r@ =~= slice@.take(k));
    }
    r
}

/// The magnitude cap for a signed 64-bit integer: one beyond `i64::MAX`.
const I64_MAG: u64 = 9223372036854775808;

/// An integer token body read from the bytes after the opening `i`, and
/// the count of bytes taken, the terminating `e` counted.
pub fn read_int(slice: &[u8]) -> (r: Result<(i64, usize), Error>)
    ensures
        match r {
            Ok((n, used)) => spec_read_int(slice@) == Ok::<(BToken, int), Error>(
                (BToken::Int(n as int), used as int),
            ),
            Err(e) => spec_read_int(slice@) == Err::<(BToken, int), Error>(e),
        },
{
    let ds = read_until(slice, 101);
    let k = ds.len();
    if k >= slice.len() {
        proof {
            lemma_scan_to_bounds(slice@, 101);
        }
        return Err(Error::InvalidInteger);
    }
    let ghost body = slice@.take(k as int);
    let neg = ds.len() > 0 && ds[0] == 45;
    let start: usize = if neg {
        1
    } else {
        0
    };
    if k <= start {
        // No digit at all between the sign and the terminator.
        return Err(Error::InvalidInteger);
    }
    let ghost digits = if neg {
        body.skip(1)
    } else {
        body
    };
    let mut acc: u64 = 0;
    let mut j: usize = start;
    while j < k
        invariant
            start <= j <= k,
            k == ds@.len(),
            k < slice@.len(),
            k as int == scan_to(slice@, 101),
            ds@ == slice@.take(k as int),
            body == slice@.take(k as int),
            body.len() == k,
            start == 0 || start == 1,
            start < k,
            neg <==> start == 1,
            neg ==> body[0] == 45 && digits == body.skip(1),
            !neg ==> body[0] != 45 && digits == body,
            digits.len() == k - start,
            acc <= I64_MAG,
            acc as int == dec_val(digits.take(j - start)),
            all_digits(digits.take(j - start)),
        decreases k - j,
    {
        let d = ds[j];
        if d < 48 || d > 57 {
            // A stray byte in the digit run: the body is not a number.
            proof {
                assert(digits[j - start] == d);
                assert(!all_digits(digits)) by {
                    assert(0 <= j - start < digits.len() && !is_digit(digits[j - start]));
                }
                assert(!int_body_valid(body));
            }
            return Err(Error::InvalidInteger);
        }
        proof {
            let pre = digits.take(j + 1 - start);
            assert(pre =~= digits.take(j - start).push(d));
            assert(pre.drop_last() =~= digits.take(j - start));
            assert(pre.last() == d);
            assert(all_digits(pre));
            assert(dec_val(pre) == acc * 10 + (d - 48));
        }
        if acc > 922337203685477580u64 {
            // Any further digit pushes the magnitude beyond the 64-bit range.
            proof {
                assert(dec_val(digits.take(j + 1 - start)) > I64_MAG);
                lemma_oversized_body(body, digits, j + 1 - start, neg);
            }
            return Err(Error::InvalidInteger);
        }
        let next: u64 = acc * 10 + ((d - 48) as u64);
        if next > I64_MAG {
            proof {
                lemma_oversized_body(body, digits, j + 1 - start, neg);
            }
            return Err(Error::InvalidInteger);
        }
        acc = next;
        j = j + 1;
    }
    proof {
        assert(digits.take(k - start) =~= digits);
        assert(int_body_valid(body)) by {
            if neg {
                assert(body[0] == 45);
            }
        }
    }
    let used = k + 1;
    if neg {
        if acc == I64_MAG {
            proof {
                assert(int_body_val(body) == -(I64_MAG as int));
            }
            Ok((i64::MIN, used))
        } else {
            Ok((-(acc as i64), used))
        }
    } else {
        if acc == I64_MAG {
            // The positive range ends one below the magnitude cap.
            assert(!fits_i64(int_body_val(body)));
            return Err(Error::InvalidInteger);
        }
        Ok((acc as i64, used))
    }
}

/// A digit run whose prefix already exceeds the 64-bit magnitude names
/// a value outside the signed 64-bit range, whatever follows.
proof fn lemma_oversized_body(body: Seq<u8>, digits: Seq<u8>, j: int, neg: bool)
    requires
        body.len() > 0,
        neg ==> body[0] == 45 && digits == body.skip(1),
        !neg ==> body[0] != 45 && digits == body,
        0 <= j <= digits.len(),
        dec_val(digits.take(j)) > I64_MAG,
        all_digits(digits.take(j)),
    ensures
        int_body_valid(body) ==> !fits_i64(int_body_val(body)),
{
    if int_body_valid(body) {
        if neg {
            assert(all_digits(digits));
        }
        lemma_dec_val_prefix(digits, j);
        assert(digits.take(digits.len() as int) =~= digits);
        assert(dec_val(digits) > I64_MAG);
    }
}

/// The length prefix of a byte string: its value and its digit count.
/// The prefix must be pure digits up to the `:`, and the value must not
/// outrun the bytes that remain after the `:`.
pub fn read_len(slice: &[u8]) -> (r: Result<(usize, usize), Error>)
    ensures
        match r {
            Ok((l, k)) => {
                &&& k as int == scan_to(slice@, 58)
                &&& k < slice@.len()
                &&& k >= 1
                &&& all_digits(slice@.take(k as int))
                &&& l as int == dec_val(slice@.take(k as int))
                &&& l + k + 1 <= slice@.len()
                &&& spec_read_bytes(slice@) == Ok::<(BToken, int), Error>(
                    (
                        BToken::Bytes(slice@.subrange(k as int + 1, k as int + 1 + l as int)),
                        k + 1 + l as int,
                    ),
                )
            },
            Err(e) => spec_read_bytes(slice@) == Err::<(BToken, int), Error>(e),
        },
{
    let ds = read_until(slice, 58);
    let k = ds.len();
    let n = slice.len();
    if k >= n || k == 0 {
        proof {
            lemma_scan_to_bounds(slice@, 58);
        }
        return Err(Error::InvalidLength);
    }
    let ghost lenp = slice@.take(k as int);
    // First pass: the prefix must be digits throughout.
    let mut j: usize = 0;
    while j < k
        invariant
            0 <= j <= k,
            k == ds@.len(),
            k < n,
            k >= 1,
            n == slice@.len(),
            k as int == scan_to(slice@, 58),
            ds@ == lenp,
            lenp == slice@.take(k as int),
            all_digits(lenp.take(j as int)),
        decreases k - j,
    {
        let d = ds[j];
        if d < 48 || d > 57 {
            proof {
                lemma_scan_to_bounds(slice@, 58);
                assert(!all_digits(lenp)) by {
                    assert(0 <= j < lenp.len() && !is_digit(lenp[j as int]));
                }
            }
            return Err(Error::InvalidLength);
        }
        proof {
            assert(lenp.take(j + 1) =~= lenp.take(j as int).push(d));
        }
        j = j + 1;
    }
    proof {
        assert(lenp.take(k as int) =~= lenp);
    }
    // Second pass: the value, capped by the buffer length so that the
    // accumulator can never overflow.
    let mut l: usize = 0;
    j = 0;
    while j < k
        invariant
            0 <= j <= k,
            k < n,
            k >= 1,
            n == slice@.len(),
            k == ds@.len(),
            k as int == scan_to(slice@, 58),
            ds@ == lenp,
            lenp == slice@.take(k as int),
            all_digits(lenp),
            l as int == dec_val(lenp.take(j as int)),
            l <= n,
        decreases k - j,
    {
        let d = ds[j];
        let dv: usize = (d - 48) as usize;
        proof {
            let pre = lenp.take(j + 1);
            assert(pre.drop_last() =~= lenp.take(j as int));
            assert(pre.last() == d);
            assert(all_digits(pre));
        }
        if l > n / 10 || (l == n / 10 && dv > n % 10) {
            // The declared length already exceeds the whole buffer.
            proof {
                assert(dec_val(lenp.take(j + 1)) == l * 10 + dv);
                assert(l * 10 + dv > n) by (nonlinear_arith)
                    requires
                        l > n / 10 || (l == n / 10 && dv > n % 10),
                        n == (n / 10) * 10 + n % 10,
                        n % 10 <= 9,
                        0 <= dv,
                        0 <= n,
                        0 <= l,
                ;
                lemma_dec_val_prefix(lenp, j + 1);
                assert(lenp.take(lenp.len() as int) =~= lenp);
                assert(dec_val(lenp) > n);
            }
            return Err(Error::TruncatedByteString);
        }
        assert(l * 10 + dv <= n) by (nonlinear_arith)
            requires
                l <= n / 10,
                dv <= 9,
                l == n / 10 ==> dv <= n % 10,
                n == (n / 10) * 10 + n % 10,
                0 <= n,
                0 <= l,
        ;
        l = l * 10 + dv;
        j = j + 1;
    }
    proof {
        assert(lenp.take(k as int) =~= lenp);
    }
    if l > n - k - 1 {
        return Err(Error::TruncatedByteString);
    }
    Ok((l, k))
}

/// A byte-string token: the payload bytes and the count of bytes taken,
/// length prefix and `:` counted.
pub fn read_byte_string(slice: &[u8]) -> (r: Result<(Vec<u8>, usize), Error>)
    ensures
        match r {
            Ok((v, used)) => spec_read_bytes(slice@) == Ok::<(BToken, int), Error>(
                (BToken::Bytes(v@), used as int),
            ),
            Err(e) => spec_read_bytes(slice@) == Err::<(BToken, int), Error>(e),
        },
{
    let n = slice.len();
    match read_len(slice) {
        Err(e) => Err(e),
        Ok((l, k)) => {
            let start = k + 1;
            let payload = slice_subrange(slice, start, start + l);
            let v = slice_to_vec(payload);
            Ok((v, start + l))
        },
    }
}

/// The first token of the buffer and how many bytes it took.
pub fn tokenize(slice: &[u8]) -> (r: Result<(Token, usize), Error>)
    ensures
        match r {
            Ok((t, used)) => spec_next(slice@) == Ok::<(BToken, int), Error>(
                (t@, used as int),
            ),
            Err(e) => spec_next(slice@) == Err::<(BToken, int), Error>(e),
        },
{
    if slice.len() == 0 {
        return Err(Error::EmptyInput);
    }
    let b = *slice_index_get(slice, 0);
    if b == 100 {
        Ok((Token::Dictionary, 1))
    } else if b == 108 {
        Ok((Token::List, 1))
    } else if b == 101 {
        Ok((Token::End, 1))
    } else if b == 105 {
        let tail = slice_subrange(slice, 1, slice.len());
        proof {
            assert(tail@ =~= slice@.skip(1));
        }
        match read_int(tail) {
            Ok((n, used)) => {
                proof {
                    lemma_scan_to_bounds(tail@, 101);
                }
                Ok((Token::Integer(n), used + 1))
            },
            Err(e) => Err(e),
        }
    } else if 48 <= b && b <= 57 {
        match read_byte_string(slice) {
            Ok((v, used)) => Ok((Token::ByteString(v), used)),
            Err(e) => Err(e),
        }
    } else {
        Err(Error::UnrecognizedLeadingByte(b))
    }
}

/// The whole token sequence of the buffer, or the first error met. An
/// empty buffer gives an empty sequence, not an error.
pub fn parse(slice: &[u8]) -> (r: Result<Vec<Token>, Error>)
    ensures
        match r {
            Ok(ts) => spec_lex(slice@) == Ok::<Seq<BToken>, Error>(tokens_view(ts@)),
            Err(e) => spec_lex(slice@) == Err::<Seq<BToken>, Error>(e),
        },
{
    let n = slice.len();
    let mut index: usize = 0;
    let mut ret: Vec<Token> = Vec::new();
    proof {
        assert(slice@.skip(0) =~= slice@);
        assert(tokens_view(ret@) =~= Seq::<BToken>::empty());
        let r0 = spec_lex(slice@);
        if r0 is Ok {
            assert(tokens_view(ret@) + r0->Ok_0 =~= r0->Ok_0);
        }
    }
    loop
        invariant
            0 <= index <= n,
            n == slice@.len(),
            spec_lex(slice@) == lex_app(tokens_view(ret@), spec_lex(slice@.skip(index as int))),
        decreases n - index,
    {
        let rest = slice_subrange(slice, index, n);
        proof {
            assert(rest@ =~= slice@.skip(index as int));
        }
        match tokenize(rest) {
            Ok((token, used)) => {
                proof {
                    lemma_next_consumes(rest@);
                    assert(rest@.skip(used as int) =~= slice@.skip(index + used));
                    let ts2 = spec_lex(slice@.skip(index + used));
                    assert(spec_lex(rest@) == lex_app(seq![token@], ts2));
                    assert(tokens_view(ret@.push(token)) =~= tokens_view(ret@).push(token@));
                    assert(lex_app(tokens_view(ret@), lex_app(seq![token@], ts2)) == lex_app(
                        tokens_view(ret@.push(token)),
                        ts2,
                    )) by {
                        if ts2 is Ok {
                            assert(tokens_view(ret@) + (seq![token@] + ts2->Ok_0) =~= (tokens_view(
                                ret@,
                            ) + seq![token@]) + ts2->Ok_0);
                            assert(tokens_view(ret@) + seq![token@] =~= tokens_view(ret@).push(
                                token@,
                            ));
                        }
                    }
                }
                index = index + used;
                ret.push(token);
            },
            Err(e) => {
                match e {
                    Error::EmptyInput => {
                        proof {
                            assert(rest@.len() == 0);
                            assert(tokens_view(ret@) + Seq::<BToken>::empty() =~= tokens_view(
                                ret@,
                            ));
                        }
                        return Ok(ret);
                    },
                    _ => {
                        proof {
                            assert(spec_lex(rest@) == Err::<Seq<BToken>, Error>(e));
                        }
                        return Err(e);
                    },
                }
            },
        }
    }
}

} // verus!
