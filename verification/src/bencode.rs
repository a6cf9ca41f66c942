//! Bencode codec: decoding raw bytes into a `Value` tree and encoding a
//! `Value` tree back into bytes.

use vstd::prelude::*;

use crate::digits::{dec_digits, digit_run_len, digits_val, is_digit_byte};

verus! {

/// `i` opens an integer term.
pub const TAG_INT: u8 = 0x69;

/// `l` opens a list term.
pub const TAG_LIST: u8 = 0x6c;

/// `d` opens a dictionary term.
pub const TAG_DICT: u8 = 0x64;

/// `e` closes integers, lists and dictionaries.
pub const TAG_END: u8 = 0x65;

/// `:` separates a byte string's length prefix from its content.
pub const LEN_SEP: u8 = 0x3a;

/// `-` signs a negative integer.
pub const MINUS: u8 = 0x2d;

/// The ways a bencoded byte sequence can be malformed.
#[derive(Clone, Copy, Debug, PartialEq, Eq, Structural)]
pub enum ParseError {
    /// The input (or a value position inside it) ended before a value began.
    UnexpectedEnd,
    /// A value began with a byte that opens no bencode term.
    UnrecognizedTag,
    /// An integer term violated the `i<decimal>e` syntax (empty interior,
    /// a non-digit, a leading zero, a bare or misplaced `-`, or no closing `e`).
    InvalidInteger,
    /// A syntactically valid integer does not fit in a 64-bit signed integer.
    IntegerOverflow,
    /// A byte-string length prefix violated the `<decimal>:` syntax
    /// (a leading zero, or no `:` after the digits).
    InvalidLength,
    /// A byte-string length prefix declared more bytes than remain.
    TruncatedByteString,
    /// A list was still open when the input ended.
    UnterminatedList,
    /// A dictionary was still open when the input ended, or a key had no value.
    UnterminatedDictionary,
    /// A dictionary key was not a byte string.
    InvalidDictionaryKey,
    /// A complete value was decoded but bytes remained after it.
    TrailingData,
}

/// A decoded bencoded term.
///
/// Dictionary entries are kept in the order they were inserted or decoded;
/// canonical form (`sorted_keys`) additionally demands strictly ascending
/// keys, which makes the encoding of a dictionary unique.
#[derive(Debug, PartialEq, Eq)]
pub enum Value {
    Integer(i64),
    ByteString(Vec<u8>),
    List(Vec<Value>),
    Dictionary(Vec<(Vec<u8>, Value)>),
}

/// The mathematical model of a bencoded term, the type the contracts
/// speak of.
pub ghost enum SpecValue {
    Int(int),
    Bytes(Seq<u8>),
    List(Seq<SpecValue>),
    Dict(Seq<(Seq<u8>, SpecValue)>),
}

impl View for Value {
    type V = SpecValue;

    open spec fn view(&self) -> SpecValue
        decreases self,
    {
        match self {
            Value::Integer(i) => SpecValue::Int(*i as int),
            Value::ByteString(b) => SpecValue::Bytes(b@),
            Value::List(xs) => SpecValue::List(view_elems(xs@)),
            Value::Dictionary(ps) => SpecValue::Dict(view_pairs(ps@)),
        }
    }
}

pub open spec fn view_elems(s: Seq<Value>) -> Seq<SpecValue>
    decreases s,
{
    if s.len() == 0 {
        seq![]
    } else {
        seq![s[0]@] + view_elems(s.drop_first())
    }
}

pub open spec fn view_pairs(s: Seq<(Vec<u8>, Value)>) -> Seq<(Seq<u8>, SpecValue)>
    decreases s,
{
    if s.len() == 0 {
        seq![]
    } else {
        seq![(s[0].0@, s[0].1@)] + view_pairs(s.drop_first())
    }
}

/// A model value the codec can represent faithfully: every integer in it
/// fits in 64 signed bits.
pub open spec fn wf_value(v: SpecValue) -> bool
    decreases v,
{
    match v {
        SpecValue::Int(n) => i64::MIN <= n <= i64::MAX,
        SpecValue::Bytes(_) => true,
        SpecValue::List(es) => wf_elems(es),
        SpecValue::Dict(ps) => wf_pairs(ps),
    }
}

pub open spec fn wf_elems(es: Seq<SpecValue>) -> bool
    decreases es,
{
    es.len() == 0 || (wf_value(es[0]) && wf_elems(es.drop_first()))
}

pub open spec fn wf_pairs(ps: Seq<(Seq<u8>, SpecValue)>) -> bool
    decreases ps,
{
    ps.len() == 0 || (wf_value(ps[0].1) && wf_pairs(ps.drop_first()))
}

/// Dictionary keys strictly ascend (byte-wise order), at every nesting
/// level: the canonical form the encoder is required to emit.
pub open spec fn sorted_keys(v: SpecValue) -> bool
    decreases v,
{
    match v {
        SpecValue::Int(_) => true,
        SpecValue::Bytes(_) => true,
        SpecValue::List(es) => sorted_keys_elems(es),
        SpecValue::Dict(ps) => sorted_keys_pairs(ps) && (forall|i: int, j: int|
            0 <= i < j < ps.len() ==> bytes_lt(#[trigger] ps[i].0, #[trigger] ps[j].0)),
    }
}

pub open spec fn sorted_keys_elems(es: Seq<SpecValue>) -> bool
    decreases es,
{
    es.len() == 0 || (sorted_keys(es[0]) && sorted_keys_elems(es.drop_first()))
}

pub open spec fn sorted_keys_pairs(ps: Seq<(Seq<u8>, SpecValue)>) -> bool
    decreases ps,
{
    ps.len() == 0 || (sorted_keys(ps[0].1) && sorted_keys_pairs(ps.drop_first()))
}

/// Byte-wise ascending order on byte strings: a strict prefix comes
/// first, otherwise the first differing byte decides.
pub open spec fn bytes_lt(a: Seq<u8>, b: Seq<u8>) -> bool
    decreases a.len(),
{
    if b.len() == 0 {
        false
    } else if a.len() == 0 {
        true
    } else if a[0] != b[0] {
        a[0] < b[0]
    } else {
        bytes_lt(a.drop_first(), b.drop_first())
    }
}

// ---------------------------------------------------------------------
// The byte form of a value
// ---------------------------------------------------------------------

/// The bencoding of a byte string: decimal length, `:`, content.
pub open spec fn enc_bytes(s: Seq<u8>) -> Seq<u8> {
    dec_digits(s.len()) + seq![LEN_SEP] + s
}

/// The decimal interior of an integer term: an optional `-`, then the
/// magnitude without leading zeros.
pub open spec fn dec_int(n: int) -> Seq<u8> {
    if n < 0 {
        seq![MINUS] + dec_digits((-n) as nat)
    } else {
        dec_digits(n as nat)
    }
}

/// The bencoding of a value, with dictionary entries emitted in stored
/// order. On a value with sorted keys (`sorted_keys`) this is the
/// canonical form of the format.
pub open spec fn enc(v: SpecValue) -> Seq<u8>
    decreases v,
{
    match v {
        SpecValue::Int(n) => seq![TAG_INT] + dec_int(n) + seq![TAG_END],
        SpecValue::Bytes(s) => enc_bytes(s),
        SpecValue::List(es) => seq![TAG_LIST] + enc_elems(es) + seq![TAG_END],
        SpecValue::Dict(ps) => seq![TAG_DICT] + enc_pairs(ps) + seq![TAG_END],
    }
}

pub open spec fn enc_elems(es: Seq<SpecValue>) -> Seq<u8>
    decreases es,
{
    if es.len() == 0 {
        seq![]
    } else {
        enc(es[0]) + enc_elems(es.drop_first())
    }
}

pub open spec fn enc_pairs(ps: Seq<(Seq<u8>, SpecValue)>) -> Seq<u8>
    decreases ps,
{
    if ps.len() == 0 {
        seq![]
    } else {
        enc_bytes(ps[0].0) + enc(ps[0].1) + enc_pairs(ps.drop_first())
    }
}

// ---------------------------------------------------------------------
// The meaning of a byte sequence
// ---------------------------------------------------------------------

/// Parses an integer term at the start of `b` (whose first byte is the
/// integer tag): `i`, an optional `-`, digits without a leading zero
/// (and without `-0`), then `e`. Returns the value and the bytes
/// consumed.
pub open spec fn parse_int(b: Seq<u8>) -> Result<(SpecValue, nat), ParseError> {
    let inner = b.drop_first();
    let neg = inner.len() > 0 && inner[0] == MINUS;
    let ds = if neg {
        inner.drop_first()
    } else {
        inner
    };
    let k = digit_run_len(ds) as int;
    if k == 0 {
        Err(ParseError::InvalidInteger)
    } else if ds[0] == 0x30 && (k > 1 || neg) {
        Err(ParseError::InvalidInteger)
    } else if k == ds.len() || ds[k] != TAG_END {
        Err(ParseError::InvalidInteger)
    } else {
        let m = digits_val(ds.take(k));
        let bound = if neg {
            0x8000_0000_0000_0000u64 as nat
        } else {
            0x7fff_ffff_ffff_ffffu64 as nat
        };
        if m > bound {
            Err(ParseError::IntegerOverflow)
        } else {
            let n = if neg {
                -(m as int)
            } else {
                m as int
            };
            let consumed = if neg {
                k + 3
            } else {
                k + 2
            };
            Ok((SpecValue::Int(n), consumed as nat))
        }
    }
}

/// Parses a byte-string term at the start of `b` (whose first byte is a
/// digit): a length prefix without leading zeros, `:`, and exactly that
/// many content bytes. Returns the content and the bytes consumed.
pub open spec fn parse_bytes(b: Seq<u8>) -> Result<(Seq<u8>, nat), ParseError> {
    let k = digit_run_len(b) as int;
    if k == 0 {
        Err(ParseError::InvalidLength)
    } else if b[0] == 0x30 && k > 1 {
        Err(ParseError::InvalidLength)
    } else if k == b.len() || b[k] != LEN_SEP {
        Err(ParseError::InvalidLength)
    } else {
        let n = digits_val(b.take(k)) as int;
        if b.len() - k - 1 < n {
            Err(ParseError::TruncatedByteString)
        } else {
            Ok((b.subrange(k + 1, k + 1 + n), (k + 1 + n) as nat))
        }
    }
}

/// Parses one value at the start of `b`. Returns the value and the
/// bytes consumed.
pub open spec fn parse_value(b: Seq<u8>) -> Result<(SpecValue, nat), ParseError>
    decreases b.len(), 0int,
{
    if b.len() == 0 {
        Err(ParseError::UnexpectedEnd)
    } else if b[0] == TAG_INT {
        parse_int(b)
    } else if is_digit_byte(b[0]) {
        match parse_bytes(b) {
            Ok((s, n)) => Ok((SpecValue::Bytes(s), n)),
            Err(e) => Err(e),
        }
    } else if b[0] == TAG_LIST {
        match parse_items(b.drop_first()) {
            Ok((es, n)) => Ok((SpecValue::List(es), (n + 1) as nat)),
            Err(e) => Err(e),
        }
    } else if b[0] == TAG_DICT {
        match parse_entries(b.drop_first()) {
            Ok((ps, n)) => Ok((SpecValue::Dict(ps), (n + 1) as nat)),
            Err(e) => Err(e),
        }
    } else {
        Err(ParseError::UnrecognizedTag)
    }
}

/// Parses list elements up to and including the closing tag.
pub open spec fn parse_items(b: Seq<u8>) -> Result<(Seq<SpecValue>, nat), ParseError>
    decreases b.len(), 1int,
{
    if b.len() == 0 {
        Err(ParseError::UnterminatedList)
    } else if b[0] == TAG_END {
        Ok((seq![], 1))
    } else {
        match parse_value(b) {
            Ok((v, n)) => {
                if n < 1 || n > b.len() {
                    Err(ParseError::UnterminatedList)
                } else {
                    match parse_items(b.skip(n as int)) {
                        Ok((es, m)) => Ok((seq![v] + es, (n + m) as nat)),
                        Err(e) => Err(e),
                    }
                }
            },
            Err(e) => Err(e),
        }
    }
}

/// Parses dictionary entries (a byte-string key followed by a value)
/// up to and including the closing tag.
pub open spec fn parse_entries(b: Seq<u8>) -> Result<(Seq<(Seq<u8>, SpecValue)>, nat), ParseError>
    decreases b.len(), 1int,
{
    if b.len() == 0 {
        Err(ParseError::UnterminatedDictionary)
    } else if b[0] == TAG_END {
        Ok((seq![], 1))
    } else if !is_digit_byte(b[0]) {
        Err(ParseError::InvalidDictionaryKey)
    } else {
        match parse_bytes(b) {
            Ok((key, n)) => {
                if n < 1 || n > b.len() {
                    Err(ParseError::UnterminatedDictionary)
                } else {
                    let rest = b.skip(n as int);
                    if rest.len() == 0 || rest[0] == TAG_END {
                        Err(ParseError::UnterminatedDictionary)
                    } else {
                        match parse_value(rest) {
                            Ok((v, m)) => {
                                if m < 1 || n + m > b.len() {
                                    Err(ParseError::UnterminatedDictionary)
                                } else {
                                    match parse_entries(b.skip((n + m) as int)) {
                                        Ok((ps, l)) => Ok(
                                            (seq![(key, v)] + ps, (n + m + l) as nat),
                                        ),
                                        Err(e) => Err(e),
                                    }
                                }
                            },
                            Err(e) => Err(e),
                        }
                    }
                }
            },
            Err(e) => Err(e),
        }
    }
}

/// Parses a whole buffer: one value, with nothing after it.
pub open spec fn parse_top(b: Seq<u8>) -> Result<SpecValue, ParseError> {
    match parse_value(b) {
        Ok((v, n)) => {
            if n == b.len() {
                Ok(v)
            } else {
                Err(ParseError::TrailingData)
            }
        },
        Err(e) => Err(e),
    }
}

// ---------------------------------------------------------------------
// The decoder
// ---------------------------------------------------------------------

/// Advances over the digit run that starts at `from`.
#[verifier::loop_isolation(false)]
fn scan_digits(data: &Vec<u8>, from: usize) -> (i: usize)
    requires
        from <= data@.len(),
    ensures
        from <= i <= data@.len(),
        (i - from) as nat == digit_run_len(data@.skip(from as int)),
        forall|j: int| from <= j < i ==> is_digit_byte(#[trigger] data@[j]),
    decreases data@.len() - from,
{
    let mut i = from;
    while i < data.len() && 0x30 <= data[i] && data[i] <= 0x39
        invariant
            from <= i <= data@.len(),
            forall|j: int| from <= j < i ==> is_digit_byte(#[trigger] data@[j]),
            digit_run_len(data@.skip(from as int)) == (i - from) as nat + digit_run_len(
                data@.skip(i as int),
            ),
        decreases data@.len() - i,
    {
        proof {
            assert(data@.skip(i as int).drop_first() =~= data@.skip(i as int + 1));
        }
        i = i + 1;
    }
    proof {
        if i < data@.len() {
            assert(data@.skip(i as int)[0] == data@[i as int]);
        }
        assert(digit_run_len(data@.skip(i as int)) == 0);
    }
    i
}

/// Decodes an integer term that starts at `pos` (whose byte is the
/// integer tag), returning the value and the position just past it.
#[verifier::loop_isolation(false)]
#[verifier::rlimit(60)]
fn parse_int_at(data: &Vec<u8>, pos: usize) -> (r: Result<(i64, usize), ParseError>)
    requires
        pos < data@.len(),
        data@[pos as int] == TAG_INT,
    ensures
        match r {
            Ok(p) => pos < p.1 <= data@.len() && parse_int(data@.skip(pos as int)) == Ok::<
                (SpecValue, nat),
                ParseError,
            >((SpecValue::Int(p.0 as int), (p.1 - pos) as nat)),
            Err(e) => parse_int(data@.skip(pos as int)) == Err::<(SpecValue, nat), ParseError>(e),
        },
{
    let len = data.len();
    let ghost b = data@.skip(pos as int);
    proof {
        assert(b.drop_first() =~= data@.skip(pos as int + 1));
    }
    let mut dstart = pos + 1;
    let neg = dstart < len && data[dstart] == MINUS;
    if neg {
        proof {
            assert(data@.skip(pos as int + 1).drop_first() =~= data@.skip(pos as int + 2));
        }
        dstart = dstart + 1;
    }
    let ghost ds = data@.skip(dstart as int);
    let i = scan_digits(data, dstart);
    let ghost k = (i - dstart) as int;
    if i == dstart {
        return Err(ParseError::InvalidInteger);
    }
    if data[dstart] == 0x30 && (i - dstart > 1 || neg) {
        return Err(ParseError::InvalidInteger);
    }
    proof {
        crate::digits::lemma_digit_run_le_len(ds);
    }
    if i == data.len() || data[i] != TAG_END {
        return Err(ParseError::InvalidInteger);
    }
    let ghost run = data@.subrange(dstart as int, i as int);
    proof {
        assert(ds.take(k) =~= run);
    }
    let pre: u64 = 922337203685477580;
    let lastd: u64 = if neg {
        8
    } else {
        7
    };
    let ghost bound: nat = if neg {
        0x8000_0000_0000_0000u64 as nat
    } else {
        0x7fff_ffff_ffff_ffffu64 as nat
    };
    let mut val: u64 = 0;
    let mut j = dstart;
    while j < i
        invariant
            dstart <= j <= i <= data@.len(),
            forall|t: int| dstart <= t < i ==> is_digit_byte(#[trigger] data@[t]),
            run == data@.subrange(dstart as int, i as int),
            val as nat == digits_val(data@.subrange(dstart as int, j as int)),
            val as nat <= bound,
            pre == 922337203685477580u64,
            lastd == (if neg {
                8u64
            } else {
                7u64
            }),
            bound == (if neg {
                0x8000_0000_0000_0000u64 as nat
            } else {
                0x7fff_ffff_ffff_ffffu64 as nat
            }),
        decreases i - j,
    {
        let d = (data[j] - 0x30) as u64;
        proof {
            assert(data@.subrange(dstart as int, j as int + 1).drop_last() =~= data@.subrange(
                dstart as int,
                j as int,
            ));
        }
        if val > pre || (val == pre && d > lastd) {
            proof {
                assert(digits_val(data@.subrange(dstart as int, j as int + 1)) == val as nat * 10
                    + d as nat);
                assert(val as nat * 10 + d as nat > bound);
                assert(run.take(j - dstart + 1) =~= data@.subrange(dstart as int, j as int + 1));
                assert(run.take(run.len() as int) =~= run);
                crate::digits::lemma_digits_val_monotone(run, j - dstart + 1, run.len() as int);
                assert(digits_val(ds.take(k)) > bound);
            }
            return Err(ParseError::IntegerOverflow);
        }
        val = val * 10 + d;
        j = j + 1;
    }
    let out: i64 = if neg {
        if val == 0x8000_0000_0000_0000u64 {
            i64::MIN
        } else {
            -(val as i64)
        }
    } else {
        val as i64
    };
    Ok((out, i + 1))
}

/// Decodes a byte-string term that starts at `pos` (whose byte is a
/// digit), returning the content and the position just past it.
#[verifier::loop_isolation(false)]
fn parse_bytes_at(data: &Vec<u8>, pos: usize) -> (r: Result<(Vec<u8>, usize), ParseError>)
    requires
        pos < data@.len(),
        is_digit_byte(data@[pos as int]),
    ensures
        match r {
            Ok(p) => pos < p.1 <= data@.len() && parse_bytes(data@.skip(pos as int)) == Ok::<
                (Seq<u8>, nat),
                ParseError,
            >((p.0@, (p.1 - pos) as nat)),
            Err(e) => parse_bytes(data@.skip(pos as int)) == Err::<(Seq<u8>, nat), ParseError>(e),
        },
{
    let ghost b = data@.skip(pos as int);
    let i = scan_digits(data, pos);
    let ghost k = (i - pos) as int;
    proof {
        assert(k >= 1);
    }
    if data[pos] == 0x30 && i - pos > 1 {
        return Err(ParseError::InvalidLength);
    }
    proof {
        crate::digits::lemma_digit_run_le_len(b);
    }
    if i == data.len() || data[i] != LEN_SEP {
        return Err(ParseError::InvalidLength);
    }
    let ghost run = data@.subrange(pos as int, i as int);
    proof {
        assert(b.take(k) =~= run);
    }
    let pre: u64 = 1844674407370955161;
    let mut val: u64 = 0;
    let mut j = pos;
    while j < i
        invariant
            pos <= j <= i <= data@.len(),
            forall|t: int| pos <= t < i ==> is_digit_byte(#[trigger] data@[t]),
            run == data@.subrange(pos as int, i as int),
            val as nat == digits_val(data@.subrange(pos as int, j as int)),
            pre == 1844674407370955161u64,
        decreases i - j,
    {
        let d = (data[j] - 0x30) as u64;
        proof {
            assert(data@.subrange(pos as int, j as int + 1).drop_last() =~= data@.subrange(
                pos as int,
                j as int,
            ));
        }
        if val > pre || (val == pre && d > 5) {
            proof {
                assert(digits_val(data@.subrange(pos as int, j as int + 1)) == val as nat * 10
                    + d as nat);
                assert(val as nat * 10 + d as nat > u64::MAX as nat);
                assert(run.take(j - pos + 1) =~= data@.subrange(pos as int, j as int + 1));
                assert(run.take(run.len() as int) =~= run);
                crate::digits::lemma_digits_val_monotone(run, j - pos + 1, run.len() as int);
                assert(digits_val(b.take(k)) > u64::MAX as nat);
                assert(b.len() - k - 1 < digits_val(b.take(k)));
            }
            return Err(ParseError::TruncatedByteString);
        }
        val = val * 10 + d;
        j = j + 1;
    }
    let remaining = data.len() - (i + 1);
    if (remaining as u64) < val {
        return Err(ParseError::TruncatedByteString);
    }
    let n = val as usize;
    let mut content: Vec<u8> = Vec::new();
    let mut t = i + 1;
    let end = i + 1 + n;
    while t < end
        invariant
            i + 1 <= t <= end <= data@.len(),
            content@ == data@.subrange(i as int + 1, t as int),
        decreases end - t,
    {
        content.push(data[t]);
        t = t + 1;
    }
    proof {
        assert(b.subrange(k + 1, k + 1 + n as int) =~= data@.subrange(
            i as int + 1,
            i as int + 1 + n as int,
        ));
    }
    Ok((content, end))
}

/// Decodes one value that starts at `pos`, returning it and the
/// position just past it.
fn parse_value_at(data: &Vec<u8>, pos: usize) -> (r: Result<(Value, usize), ParseError>)
    requires
        pos <= data@.len(),
    ensures
        match r {
            Ok(p) => pos < p.1 <= data@.len() && parse_value(data@.skip(pos as int)) == Ok::<
                (SpecValue, nat),
                ParseError,
            >((p.0@, (p.1 - pos) as nat)),
            Err(e) => parse_value(data@.skip(pos as int)) == Err::<(SpecValue, nat), ParseError>(e),
        },
    decreases data@.len() - pos, 0int,
{
    let ghost b = data@.skip(pos as int);
    if pos == data.len() {
        return Err(ParseError::UnexpectedEnd);
    }
    let tag = data[pos];
    if tag == TAG_INT {
        match parse_int_at(data, pos) {
            Ok((n, end)) => Ok((Value::Integer(n), end)),
            Err(e) => Err(e),
        }
    } else if 0x30 <= tag && tag <= 0x39 {
        match parse_bytes_at(data, pos) {
            Ok((s, end)) => Ok((Value::ByteString(s), end)),
            Err(e) => Err(e),
        }
    } else if tag == TAG_LIST {
        proof {
            assert(b.drop_first() =~= data@.skip(pos as int + 1));
        }
        match parse_items_at(data, pos + 1) {
            Ok((vs, end)) => Ok((Value::List(vs), end)),
            Err(e) => Err(e),
        }
    } else if tag == TAG_DICT {
        proof {
            assert(b.drop_first() =~= data@.skip(pos as int + 1));
        }
        match parse_entries_at(data, pos + 1) {
            Ok((ps, end)) => Ok((Value::Dictionary(ps), end)),
            Err(e) => Err(e),
        }
    } else {
        Err(ParseError::UnrecognizedTag)
    }
}

/// Decodes list elements from `start` up to and including the closing
/// tag.
fn parse_items_at(data: &Vec<u8>, start: usize) -> (r: Result<(Vec<Value>, usize), ParseError>)
    requires
        start <= data@.len(),
    ensures
        match r {
            Ok(p) => start < p.1 <= data@.len() && parse_items(data@.skip(start as int)) == Ok::<
                (Seq<SpecValue>, nat),
                ParseError,
            >((view_elems(p.0@), (p.1 - start) as nat)),
            Err(e) => parse_items(data@.skip(start as int)) == Err::<
                (Seq<SpecValue>, nat),
                ParseError,
            >(e),
        },
    decreases data@.len() - start, 1int,
{
    let ghost b = data@.skip(start as int);
    if start == data.len() {
        return Err(ParseError::UnterminatedList);
    }
    if data[start] == TAG_END {
        let out: Vec<Value> = Vec::new();
        return Ok((out, start + 1));
    }
    match parse_value_at(data, start) {
        Ok((v, vend)) => {
            proof {
                assert(b.skip((vend - start) as int) =~= data@.skip(vend as int));
            }
            match parse_items_at(data, vend) {
                Ok((mut vs, end)) => {
                    let ghost tail = vs@;
                    vs.insert(0, v);
                    proof {
                        assert(vs@ =~= seq![v] + tail);
                        assert((seq![v] + tail).drop_first() =~= tail);
                        assert(view_elems(vs@) == seq![v@] + view_elems(tail));
                    }
                    Ok((vs, end))
                },
                Err(e) => Err(e),
            }
        },
        Err(e) => Err(e),
    }
}

/// Decodes dictionary entries from `start` up to and including the
/// closing tag.
fn parse_entries_at(data: &Vec<u8>, start: usize) -> (r: Result<
    (Vec<(Vec<u8>, Value)>, usize),
    ParseError,
>)
    requires
        start <= data@.len(),
    ensures
        match r {
            Ok(p) => start < p.1 <= data@.len() && parse_entries(data@.skip(start as int)) == Ok::<
                (Seq<(Seq<u8>, SpecValue)>, nat),
                ParseError,
            >((view_pairs(p.0@), (p.1 - start) as nat)),
            Err(e) => parse_entries(data@.skip(start as int)) == Err::<
                (Seq<(Seq<u8>, SpecValue)>, nat),
                ParseError,
            >(e),
        },
    decreases data@.len() - start, 1int,
{
    let ghost b = data@.skip(start as int);
    if start == data.len() {
        return Err(ParseError::UnterminatedDictionary);
    }
    if data[start] == TAG_END {
        let out: Vec<(Vec<u8>, Value)> = Vec::new();
        return Ok((out, start + 1));
    }
    if !(0x30 <= data[start] && data[start] <= 0x39) {
        return Err(ParseError::InvalidDictionaryKey);
    }
    match parse_bytes_at(data, start) {
        Ok((key, kend)) => {
            proof {
                assert(b.skip((kend - start) as int) =~= data@.skip(kend as int));
            }
            if kend == data.len() || data[kend] == TAG_END {
                return Err(ParseError::UnterminatedDictionary);
            }
            match parse_value_at(data, kend) {
                Ok((v, vend)) => {
                    proof {
                        assert(b.skip((vend - start) as int) =~= data@.skip(vend as int));
                    }
                    match parse_entries_at(data, vend) {
                        Ok((mut ps, end)) => {
                            let ghost tail = ps@;
                            let ghost kview = key@;
                            ps.insert(0, (key, v));
                            proof {
                                assert(ps@ =~= seq![(key, v)] + tail);
                                assert((seq![(key, v)] + tail).drop_first() =~= tail);
                                assert(view_pairs(ps@) == seq![(kview, v@)] + view_pairs(tail));
                            }
                            Ok((ps, end))
                        },
                        Err(e) => Err(e),
                    }
                },
                Err(e) => Err(e),
            }
        },
        Err(e) => Err(e),
    }
}

// ---------------------------------------------------------------------
// Dictionary lookup
// ---------------------------------------------------------------------

/// The first value stored under `key`, in stored order.
pub open spec fn spec_dict_get(ps: Seq<(Seq<u8>, SpecValue)>, key: Seq<u8>) -> Option<SpecValue>
    decreases ps,
{
    if ps.len() == 0 {
        None
    } else if ps[0].0 == key {
        Some(ps[0].1)
    } else {
        spec_dict_get(ps.drop_first(), key)
    }
}

/// Copies the byte range `s[from..to]` into a fresh vector.
pub fn subvec(s: &Vec<u8>, from: usize, to: usize) -> (r: Vec<u8>)
    requires
        from <= to <= s@.len(),
    ensures
        r@ == s@.subrange(from as int, to as int),
{
    let mut out: Vec<u8> = Vec::new();
    let mut i = from;
    while i < to
        invariant
            from <= i <= to <= s@.len(),
            out@ == s@.subrange(from as int, i as int),
        decreases to - i,
    {
        out.push(s[i]);
        proof {
            assert(out@ =~= s@.subrange(from as int, i as int + 1));
        }
        i = i + 1;
    }
    out
}

/// Looks a key up in a dictionary model; `None` on other variants.
pub open spec fn lookup(root: SpecValue, key: Seq<u8>) -> Option<SpecValue> {
    match root {
        SpecValue::Dict(ps) => spec_dict_get(ps, key),
        _ => None,
    }
}

/// Byte-for-byte equality of two byte vectors.
pub fn bytes_equal(a: &Vec<u8>, b: &Vec<u8>) -> (r: bool)
    ensures
        r == (a@ == b@),
{
    if a.len() != b.len() {
        proof {
            assert(a@.len() != b@.len());
        }
        return false;
    }
    let mut i: usize = 0;
    while i < a.len()
        invariant
            i <= a@.len(),
            a@.len() == b@.len(),
            forall|j: int| 0 <= j < i ==> a@[j] == b@[j],
        decreases a@.len() - i,
    {
        if a[i] != b[i] {
            return false;
        }
        i = i + 1;
    }
    proof {
        assert(a@ =~= b@);
    }
    true
}

impl Value {
    /// Looks up `key` in a dictionary value: the first entry with that
    /// key, in stored order. `None` on other variants and absent keys.
    #[verifier::loop_isolation(false)]
    pub fn dict_get<'a>(&'a self, key: &Vec<u8>) -> (r: Option<&'a Value>)
        ensures
            match r {
                Some(v) => self@ is Dict && spec_dict_get(self@->Dict_0, key@) == Some(v@),
                None => !(self@ is Dict) || spec_dict_get(self@->Dict_0, key@) is None,
            },
    {
        match self {
            Value::Dictionary(ps) => {
                proof {
                    lemma_view_pairs_props(ps@);
                }
                let ghost vp = view_pairs(ps@);
                proof {
                    assert(vp.skip(0) =~= vp);
                }
                let mut i: usize = 0;
                while i < ps.len()
                    invariant
                        i <= ps@.len(),
                        vp == view_pairs(ps@),
                        vp.len() == ps@.len(),
                        forall|j: int| 0 <= j < ps@.len() ==> vp[j] == (#[trigger] ps@[j].0@, ps@[j].1@),
                        spec_dict_get(vp, key@) == spec_dict_get(vp.skip(i as int), key@),
                    decreases ps@.len() - i,
                {
                    proof {
                        assert(vp.skip(i as int)[0] == vp[i as int]);
                        assert(vp.skip(i as int).drop_first() =~= vp.skip(i as int + 1));
                    }
                    if bytes_equal(&ps[i].0, key) {
                        proof {
                            assert(self@ == SpecValue::Dict(vp));
                            assert(vp.skip(i as int)[0].0 == key@);
                            assert(spec_dict_get(vp.skip(i as int), key@) == Some(vp[i as int].1));
                            assert(vp[i as int].1 == ps@[i as int].1@);
                        }
                        return Some(&ps[i].1);
                    }
                    i = i + 1;
                }
                proof {
                    assert(vp.skip(i as int) =~= Seq::<(Seq<u8>, SpecValue)>::empty());
                }
                None
            },
            _ => None,
        }
    }
}

// ---------------------------------------------------------------------
// Sorted dictionary construction
// ---------------------------------------------------------------------

/// `bytes_lt` orders byte strings strictly: of two strings, either one
/// is below the other or they are equal, never two of these at once.
pub proof fn lemma_bytes_lt_trichotomy(a: Seq<u8>, b: Seq<u8>)
    ensures
        bytes_lt(a, b) || bytes_lt(b, a) || a == b,
        !(bytes_lt(a, b) && bytes_lt(b, a)),
        !(bytes_lt(a, b) && a == b),
    decreases a.len(),
{
    if a.len() == 0 && b.len() == 0 {
        assert(a =~= b);
    } else if a.len() > 0 && b.len() > 0 && a[0] == b[0] {
        lemma_bytes_lt_trichotomy(a.drop_first(), b.drop_first());
        if a.drop_first() == b.drop_first() {
            assert(a.len() == b.len());
            assert forall|i: int| 0 <= i < a.len() implies a[i] == b[i] by {
                if i > 0 {
                    assert(a.drop_first()[i - 1] == a[i]);
                    assert(b.drop_first()[i - 1] == b[i]);
                }
            }
            assert(a =~= b);
        }
        if a == b {
            assert(a.drop_first() =~= b.drop_first());
        }
    }
}

/// `bytes_lt` is transitive.
pub proof fn lemma_bytes_lt_transitive(a: Seq<u8>, b: Seq<u8>, c: Seq<u8>)
    requires
        bytes_lt(a, b),
        bytes_lt(b, c),
    ensures
        bytes_lt(a, c),
    decreases a.len(),
{
    if a.len() > 0 && b.len() > 0 && c.len() > 0 && a[0] == b[0] && b[0] == c[0] {
        lemma_bytes_lt_transitive(a.drop_first(), b.drop_first(), c.drop_first());
    }
}

/// Entry insertion at the key's sorted position, replacing an entry
/// whose key is equal.
pub open spec fn spec_dict_insert(
    ps: Seq<(Seq<u8>, SpecValue)>,
    key: Seq<u8>,
    v: SpecValue,
) -> Seq<(Seq<u8>, SpecValue)>
    decreases ps,
{
    if ps.len() == 0 {
        seq![(key, v)]
    } else if bytes_lt(key, ps[0].0) {
        seq![(key, v)] + ps
    } else if key == ps[0].0 {
        seq![(key, v)] + ps.drop_first()
    } else {
        seq![ps[0]] + spec_dict_insert(ps.drop_first(), key, v)
    }
}

/// Sorted insertion keeps the entries strictly sorted, and every key of
/// the result is the inserted key or one of the old keys.
pub proof fn lemma_spec_dict_insert_sorted(
    ps: Seq<(Seq<u8>, SpecValue)>,
    key: Seq<u8>,
    v: SpecValue,
)
    requires
        forall|i: int, j: int|
            0 <= i < j < ps.len() ==> bytes_lt(#[trigger] ps[i].0, #[trigger] ps[j].0),
    ensures
        forall|i: int, j: int|
            0 <= i < j < spec_dict_insert(ps, key, v).len() ==> bytes_lt(
                #[trigger] spec_dict_insert(ps, key, v)[i].0,
                #[trigger] spec_dict_insert(ps, key, v)[j].0,
            ),
        forall|t: int|
            0 <= t < spec_dict_insert(ps, key, v).len() ==> (
            #[trigger] spec_dict_insert(ps, key, v)[t].0 == key || exists|s: int|
                0 <= s < ps.len() && ps[s].0 == spec_dict_insert(ps, key, v)[t].0),
    decreases ps,
{
    let r = spec_dict_insert(ps, key, v);
    if ps.len() == 0 {
    } else if bytes_lt(key, ps[0].0) {
        assert forall|i: int, j: int| 0 <= i < j < r.len() implies bytes_lt(
            #[trigger] r[i].0,
            #[trigger] r[j].0,
        ) by {
            if i == 0 {
                if j > 1 {
                    lemma_bytes_lt_transitive(key, ps[0].0, ps[j - 1].0);
                }
            }
        }
        assert forall|t: int| 0 <= t < r.len() implies (#[trigger] r[t].0 == key || exists|s: int|
            0 <= s < ps.len() && ps[s].0 == r[t].0) by {
            if t > 0 {
                assert(ps[t - 1].0 == r[t].0);
            }
        }
    } else if key == ps[0].0 {
        assert forall|t: int| 0 <= t < r.len() implies (#[trigger] r[t].0 == key || exists|s: int|
            0 <= s < ps.len() && ps[s].0 == r[t].0) by {
            if t > 0 {
                assert(ps[t].0 == r[t].0);
            }
        }
    } else {
        lemma_bytes_lt_trichotomy(key, ps[0].0);
        let tail = ps.drop_first();
        lemma_spec_dict_insert_sorted(tail, key, v);
        let rt = spec_dict_insert(tail, key, v);
        assert forall|i: int, j: int| 0 <= i < j < r.len() implies bytes_lt(
            #[trigger] r[i].0,
            #[trigger] r[j].0,
        ) by {
            if i == 0 {
                assert(r[j].0 == rt[j - 1].0);
                if rt[j - 1].0 == key {
                } else {
                    let s = choose|s: int| 0 <= s < tail.len() && tail[s].0 == rt[j - 1].0;
                    assert(tail[s].0 == ps[s + 1].0);
                }
            } else {
                assert(r[i].0 == rt[i - 1].0 && r[j].0 == rt[j - 1].0);
            }
        }
        assert forall|t: int| 0 <= t < r.len() implies (#[trigger] r[t].0 == key || exists|s: int|
            0 <= s < ps.len() && ps[s].0 == r[t].0) by {
            if t == 0 {
                assert(ps[0].0 == r[0].0);
            } else {
                if rt[t - 1].0 == key {
                } else {
                    let s = choose|s: int| 0 <= s < tail.len() && tail[s].0 == rt[t - 1].0;
                    assert(ps[s + 1].0 == r[t].0);
                }
            }
        }
    }
}

proof fn lemma_spec_dict_insert_values_sorted(
    ps: Seq<(Seq<u8>, SpecValue)>,
    key: Seq<u8>,
    v: SpecValue,
)
    requires
        sorted_keys_pairs(ps),
        sorted_keys(v),
    ensures
        sorted_keys_pairs(spec_dict_insert(ps, key, v)),
    decreases ps,
{
    let r = spec_dict_insert(ps, key, v);
    if ps.len() == 0 {
        assert(r.drop_first() =~= Seq::<(Seq<u8>, SpecValue)>::empty());
        assert(r[0].1 == v);
        assert(sorted_keys_pairs(Seq::<(Seq<u8>, SpecValue)>::empty()));
        assert(sorted_keys_pairs(r));
    } else if bytes_lt(key, ps[0].0) {
        assert(r.drop_first() =~= ps);
        assert(r[0].1 == v);
        assert(sorted_keys_pairs(r));
    } else if key == ps[0].0 {
        assert(r.drop_first() =~= ps.drop_first());
        assert(r[0].1 == v);
        assert(sorted_keys_pairs(ps.drop_first()));
        assert(sorted_keys_pairs(r));
    } else {
        lemma_spec_dict_insert_values_sorted(ps.drop_first(), key, v);
        assert(r.drop_first() =~= spec_dict_insert(ps.drop_first(), key, v));
        assert(r[0].1 == ps[0].1);
        assert(sorted_keys(ps[0].1));
        assert(sorted_keys_pairs(r));
    }
}

/// A dictionary grown by sorted insertion from canonical values is in
/// canonical form: its keys strictly ascend and every value below it
/// is canonical too.
pub proof fn lemma_dict_insert_canonical(ps: Seq<(Seq<u8>, SpecValue)>, key: Seq<u8>, v: SpecValue)
    requires
        sorted_keys(SpecValue::Dict(ps)),
        sorted_keys(v),
    ensures
        sorted_keys(SpecValue::Dict(spec_dict_insert(ps, key, v))),
{
    lemma_spec_dict_insert_values_sorted(ps, key, v);
    lemma_spec_dict_insert_sorted(ps, key, v);
}

/// Compares two byte vectors in the byte-wise order of `bytes_lt`.
#[verifier::loop_isolation(false)]
pub fn bytes_less(a: &Vec<u8>, b: &Vec<u8>) -> (r: bool)
    ensures
        r == bytes_lt(a@, b@),
{
    proof {
        assert(a@.skip(0) =~= a@);
        assert(b@.skip(0) =~= b@);
    }
    let mut j: usize = 0;
    while j < a.len() && j < b.len() && a[j] == b[j]
        invariant
            j <= a@.len(),
            j <= b@.len(),
            bytes_lt(a@, b@) == bytes_lt(a@.skip(j as int), b@.skip(j as int)),
        decreases a@.len() - j,
    {
        proof {
            assert(a@.skip(j as int).drop_first() =~= a@.skip(j as int + 1));
            assert(b@.skip(j as int).drop_first() =~= b@.skip(j as int + 1));
        }
        j = j + 1;
    }
    if j == b.len() {
        false
    } else if j == a.len() {
        true
    } else {
        a[j] < b[j]
    }
}

/// Inserts `(key, value)` into dictionary entries at the key's sorted
/// position, replacing the entry with an equal key if one is there.
/// Building every dictionary this way keeps its keys strictly
/// ascending, so that the encoder emits the canonical sorted form.
#[verifier::loop_isolation(false)]
pub fn dict_insert(entries: &mut Vec<(Vec<u8>, Value)>, key: Vec<u8>, value: Value)
    ensures
        view_pairs(final(entries)@) == spec_dict_insert(view_pairs(old(entries)@), key@, value@),
{
    let ghost vp = view_pairs(old(entries)@);
    proof {
        lemma_view_pairs_props(old(entries)@);
        assert(vp.skip(0) =~= vp);
    }
    let mut i: usize = 0;
    while i < entries.len()
        invariant
            i <= old(entries)@.len(),
            entries@ == old(entries)@,
            spec_dict_insert(vp, key@, value@) == vp.take(i as int) + spec_dict_insert(
                vp.skip(i as int),
                key@,
                value@,
            ),
        decreases old(entries)@.len() - i,
    {
        proof {
            assert(vp.skip(i as int)[0] == vp[i as int]);
            assert(vp.skip(i as int).drop_first() =~= vp.skip(i as int + 1));
        }
        if bytes_less(&key, &entries[i].0) {
            let ghost pre = entries@;
            entries.insert(i, (key, value));
            proof {
                lemma_view_pairs_props(entries@);
                let target = vp.take(i as int) + (seq![(key@, value@)] + vp.skip(i as int));
                assert(view_pairs(entries@).len() == target.len());
                assert forall|t: int|
                    0 <= t < target.len() implies view_pairs(entries@)[t] == target[t] by {
                    assert(view_pairs(entries@)[t] == (entries@[t].0@, entries@[t].1@));
                    if t < i {
                        assert(entries@[t] == pre[t]);
                        assert(vp[t] == (pre[t].0@, pre[t].1@));
                    } else if t > i {
                        assert(entries@[t] == pre[t - 1]);
                        assert(vp[t - 1] == (pre[t - 1].0@, pre[t - 1].1@));
                    }
                }
                assert(view_pairs(entries@) =~= target);
            }
            return ;
        }
        if bytes_equal(&entries[i].0, &key) {
            let ghost pre = entries@;
            entries.remove(i);
            entries.insert(i, (key, value));
            proof {
                lemma_view_pairs_props(entries@);
                assert(entries@ =~= pre.update(i as int, (key, value)));
                let target = vp.take(i as int) + (seq![(key@, value@)] + vp.skip(i as int + 1));
                assert(view_pairs(entries@).len() == target.len());
                assert forall|t: int|
                    0 <= t < target.len() implies view_pairs(entries@)[t] == target[t] by {
                    assert(view_pairs(entries@)[t] == (entries@[t].0@, entries@[t].1@));
                    if t < i {
                        assert(entries@[t] == pre[t]);
                        assert(vp[t] == (pre[t].0@, pre[t].1@));
                    } else if t > i {
                        assert(entries@[t] == pre[t]);
                        assert(vp[t] == (pre[t].0@, pre[t].1@));
                    }
                }
                assert(view_pairs(entries@) =~= target);
            }
            return ;
        }
        proof {
            assert(vp.take(i as int) + (seq![vp[i as int]] + spec_dict_insert(
                vp.skip(i as int + 1),
                key@,
                value@,
            )) =~= vp.take(i as int + 1) + spec_dict_insert(vp.skip(i as int + 1), key@, value@));
        }
        i = i + 1;
    }
    proof {
        assert(vp.skip(i as int) =~= Seq::<(Seq<u8>, SpecValue)>::empty());
    }
    let ghost pre = entries@;
    entries.push((key, value));
    proof {
        lemma_view_pairs_props(entries@);
        let target = vp + seq![(key@, value@)];
        assert forall|t: int| 0 <= t < target.len() implies view_pairs(entries@)[t] == target[t] by {
            assert(view_pairs(entries@)[t] == (entries@[t].0@, entries@[t].1@));
            if t < vp.len() {
                assert(entries@[t] == pre[t]);
                assert(vp[t] == (pre[t].0@, pre[t].1@));
            }
        }
        assert(view_pairs(entries@) =~= target);
        assert(vp.take(vp.len() as int) =~= vp);
    }
}

impl Value {
    /// The integer carried by an `Integer` value.
    pub fn as_integer(&self) -> (r: Option<i64>)
        ensures
            match r {
                Some(n) => self@ == SpecValue::Int(n as int),
                None => !(self@ is Int),
            },
    {
        match self {
            Value::Integer(n) => Some(*n),
            _ => None,
        }
    }

    /// The content carried by a `ByteString` value.
    pub fn as_byte_string<'a>(&'a self) -> (r: Option<&'a Vec<u8>>)
        ensures
            match r {
                Some(b) => self@ == SpecValue::Bytes(b@),
                None => !(self@ is Bytes),
            },
    {
        match self {
            Value::ByteString(b) => Some(b),
            _ => None,
        }
    }

    /// The elements carried by a `List` value.
    pub fn as_list<'a>(&'a self) -> (r: Option<&'a Vec<Value>>)
        ensures
            match r {
                Some(xs) => self@ == SpecValue::List(view_elems(xs@)),
                None => !(self@ is List),
            },
    {
        match self {
            Value::List(xs) => Some(xs),
            _ => None,
        }
    }

    /// The entries carried by a `Dictionary` value, in stored order.
    pub fn as_dictionary<'a>(&'a self) -> (r: Option<&'a Vec<(Vec<u8>, Value)>>)
        ensures
            match r {
                Some(ps) => self@ == SpecValue::Dict(view_pairs(ps@)),
                None => !(self@ is Dict),
            },
    {
        match self {
            Value::Dictionary(ps) => Some(ps),
            _ => None,
        }
    }
}

// ---------------------------------------------------------------------
// The encoder
// ---------------------------------------------------------------------

/// The element views of a value sequence, element by element.
pub proof fn lemma_view_elems_props(s: Seq<Value>)
    ensures
        view_elems(s).len() == s.len(),
        forall|i: int| 0 <= i < s.len() ==> view_elems(s)[i] == #[trigger] s[i]@,
    decreases s,
{
    if s.len() == 0 {
        assert(view_elems(s) == Seq::<SpecValue>::empty());
    } else {
        lemma_view_elems_props(s.drop_first());
        assert(view_elems(s) == seq![s[0]@] + view_elems(s.drop_first()));
        assert forall|i: int| 0 <= i < s.len() implies view_elems(s)[i] == #[trigger] s[i]@ by {
            if i > 0 {
                assert(s.drop_first()[i - 1] == s[i]);
                assert(view_elems(s)[i] == view_elems(s.drop_first())[i - 1]);
            }
        }
    }
}

/// The entry views of a pair sequence, entry by entry.
pub proof fn lemma_view_pairs_props(s: Seq<(Vec<u8>, Value)>)
    ensures
        view_pairs(s).len() == s.len(),
        forall|i: int|
            0 <= i < s.len() ==> view_pairs(s)[i] == (#[trigger] s[i].0@, s[i].1@),
    decreases s,
{
    if s.len() == 0 {
        assert(view_pairs(s) == Seq::<(Seq<u8>, SpecValue)>::empty());
    } else {
        lemma_view_pairs_props(s.drop_first());
        assert(view_pairs(s) == seq![(s[0].0@, s[0].1@)] + view_pairs(s.drop_first()));
        assert forall|i: int|
            0 <= i < s.len() implies view_pairs(s)[i] == (#[trigger] s[i].0@, s[i].1@) by {
            if i > 0 {
                assert(s.drop_first()[i - 1] == s[i]);
                assert(view_pairs(s)[i] == view_pairs(s.drop_first())[i - 1]);
            }
        }
    }
}

/// Appends the decimal rendering of `n` (no leading zeros).
fn push_decimal(n: u64, out: &mut Vec<u8>)
    ensures
        final(out)@ == old(out)@ + dec_digits(n as nat),
    decreases n,
{
    if n < 10 {
        out.push((0x30 + n) as u8);
        proof {
            assert(out@ =~= old(out)@ + dec_digits(n as nat));
        }
    } else {
        push_decimal(n / 10, out);
        out.push((0x30 + (n % 10)) as u8);
        proof {
            assert(dec_digits(n as nat) == dec_digits(n as nat / 10).push(
                crate::digits::digit_byte(n as nat % 10),
            ));
            assert(out@ =~= old(out)@ + dec_digits(n as nat));
        }
    }
}

/// Appends the bencoding of a byte string: length, separator, content.
#[verifier::loop_isolation(false)]
fn push_bytestring(s: &Vec<u8>, out: &mut Vec<u8>)
    ensures
        final(out)@ == old(out)@ + enc_bytes(s@),
{
    push_decimal(s.len() as u64, out);
    out.push(LEN_SEP);
    let ghost base = out@;
    let mut i: usize = 0;
    while i < s.len()
        invariant
            i <= s@.len(),
            out@ == base + s@.take(i as int),
        decreases s@.len() - i,
    {
        out.push(s[i]);
        proof {
            assert(base + s@.take(i as int) + seq![s@[i as int]] =~= base + s@.take(i as int + 1));
        }
        i = i + 1;
    }
    proof {
        assert(s@.take(s@.len() as int) =~= s@);
        assert(out@ =~= old(out)@ + enc_bytes(s@));
    }
}

/// Appends the bencoding of one value.
fn encode_into(v: &Value, out: &mut Vec<u8>)
    ensures
        final(out)@ == old(out)@ + enc(v@),
    decreases v, 0int,
{
    match v {
        Value::Integer(n) => {
            out.push(TAG_INT);
            if *n < 0 {
                out.push(MINUS);
                let mag: u64 = if *n == i64::MIN {
                    0x8000_0000_0000_0000u64
                } else {
                    (-*n) as u64
                };
                push_decimal(mag, out);
            } else {
                push_decimal(*n as u64, out);
            }
            out.push(TAG_END);
            proof {
                assert(out@ =~= old(out)@ + enc(v@));
            }
        },
        Value::ByteString(s) => {
            push_bytestring(s, out);
        },
        Value::List(xs) => {
            out.push(TAG_LIST);
            encode_elems(xs, 0, out);
            out.push(TAG_END);
            proof {
                lemma_view_elems_props(xs@);
                assert(view_elems(xs@).skip(0) =~= view_elems(xs@));
                assert(out@ =~= old(out)@ + enc(v@));
            }
        },
        Value::Dictionary(ps) => {
            out.push(TAG_DICT);
            encode_pairs(ps, 0, out);
            out.push(TAG_END);
            proof {
                lemma_view_pairs_props(ps@);
                assert(view_pairs(ps@).skip(0) =~= view_pairs(ps@));
                assert(out@ =~= old(out)@ + enc(v@));
            }
        },
    }
}

/// Appends the bencodings of the elements from `i` on.
fn encode_elems(xs: &Vec<Value>, i: usize, out: &mut Vec<u8>)
    requires
        i <= xs@.len(),
    ensures
        final(out)@ == old(out)@ + enc_elems(view_elems(xs@).skip(i as int)),
    decreases xs, xs@.len() - i + 1,
{
    proof {
        lemma_view_elems_props(xs@);
    }
    if i < xs.len() {
        encode_into(&xs[i], out);
        encode_elems(xs, i + 1, out);
        proof {
            let ve = view_elems(xs@);
            assert(ve.skip(i as int)[0] == ve[i as int]);
            assert(ve.skip(i as int).drop_first() =~= ve.skip(i as int + 1));
            assert(out@ =~= old(out)@ + enc_elems(ve.skip(i as int)));
        }
    } else {
        proof {
            assert(view_elems(xs@).skip(i as int) =~= Seq::<SpecValue>::empty());
            assert(out@ =~= old(out)@ + enc_elems(view_elems(xs@).skip(i as int)));
        }
    }
}

/// Appends the bencodings of the dictionary entries from `i` on.
fn encode_pairs(ps: &Vec<(Vec<u8>, Value)>, i: usize, out: &mut Vec<u8>)
    requires
        i <= ps@.len(),
    ensures
        final(out)@ == old(out)@ + enc_pairs(view_pairs(ps@).skip(i as int)),
    decreases ps, ps@.len() - i + 1,
{
    proof {
        lemma_view_pairs_props(ps@);
    }
    if i < ps.len() {
        push_bytestring(&ps[i].0, out);
        encode_into(&ps[i].1, out);
        encode_pairs(ps, i + 1, out);
        proof {
            let vp = view_pairs(ps@);
            assert(vp.skip(i as int)[0] == vp[i as int]);
            assert(vp.skip(i as int).drop_first() =~= vp.skip(i as int + 1));
            assert(out@ =~= old(out)@ + enc_pairs(vp.skip(i as int)));
        }
    } else {
        proof {
            assert(view_pairs(ps@).skip(i as int) =~= Seq::<(Seq<u8>, SpecValue)>::empty());
            assert(out@ =~= old(out)@ + enc_pairs(view_pairs(ps@).skip(i as int)));
        }
    }
}

/// Encodes a value tree into bencode bytes, dictionary entries in
/// stored order; on a tree with sorted keys this is the canonical form.
pub fn encode_value(v: &Value) -> (r: Vec<u8>)
    ensures
        r@ == enc(v@),
{
    let mut out: Vec<u8> = Vec::new();
    encode_into(v, &mut out);
    proof {
        assert(out@ =~= enc(v@));
    }
    out
}

/// Decodes a whole buffer as a single bencoded value.
///
/// Succeeds exactly when the buffer is one complete, well-formed
/// bencoded term, and then returns its value tree; otherwise reports
/// the specific way the input is malformed.
pub fn decode_bencoded_structure(bytes: &Vec<u8>) -> (r: Result<Value, ParseError>)
    ensures
        match r {
            Ok(v) => parse_top(bytes@) == Ok::<SpecValue, ParseError>(v@),
            Err(e) => parse_top(bytes@) == Err::<SpecValue, ParseError>(e),
        },
{
    proof {
        assert(bytes@.skip(0) =~= bytes@);
    }
    match parse_value_at(bytes, 0) {
        Ok((v, end)) => {
            if end == bytes.len() {
                Ok(v)
            } else {
                Err(ParseError::TrailingData)
            }
        },
        Err(e) => Err(e),
    }
}

} // verus!
