//! The two round-trip laws of the codec.
//!
//! Decoding inverts encoding on every well-formed value tree, and
//! re-encoding a decoded buffer reproduces that buffer byte for byte.

use vstd::prelude::*;

use crate::bencode::{
    dec_int, enc, enc_bytes, enc_elems, enc_pairs, parse_bytes, parse_entries, parse_int,
    parse_items, parse_top, parse_value, wf_elems, wf_pairs, wf_value, ParseError, SpecValue,
    LEN_SEP, MINUS, TAG_DICT, TAG_END, TAG_INT, TAG_LIST,
};
use crate::digits::{
    dec_digits, digit_run_len, digits_val, is_digit_byte, lemma_dec_digits_shape,
    lemma_dec_of_digits_val, lemma_digit_run_digits, lemma_digit_run_le_len,
    lemma_digit_run_of_concat, lemma_digits_val_of_dec, lemma_digits_val_positive,
};

verus! {

/// An encoding is never empty and never begins with the closing tag.
proof fn lemma_enc_head(v: SpecValue)
    ensures
        enc(v).len() >= 2,
        enc(v)[0] != TAG_END,
{
    match v {
        SpecValue::Int(n) => {
        },
        SpecValue::Bytes(s) => {
            lemma_dec_digits_shape(s.len());
            assert(enc_bytes(s)[0] == dec_digits(s.len())[0]);
        },
        SpecValue::List(es) => {
        },
        SpecValue::Dict(ps) => {
        },
    }
}

/// Parsing a byte string's encoding, whatever follows it, recovers the
/// content and consumes exactly the encoding.
proof fn lemma_parse_bytes_of_enc(s: Seq<u8>, rest: Seq<u8>)
    ensures
        parse_bytes(enc_bytes(s) + rest) == Ok::<(Seq<u8>, nat), ParseError>(
            (s, enc_bytes(s).len() as nat),
        ),
{
    let ld = dec_digits(s.len());
    let b = enc_bytes(s) + rest;
    lemma_dec_digits_shape(s.len());
    lemma_digits_val_of_dec(s.len());
    assert(b =~= ld + (seq![LEN_SEP] + s + rest));
    lemma_digit_run_of_concat(ld, seq![LEN_SEP] + s + rest);
    let k = ld.len() as int;
    assert(digit_run_len(b) == k);
    assert(b[0] == ld[0]);
    assert(b[k] == LEN_SEP);
    assert(b[0] == 0x30 ==> s.len() == 0 && k == 1);
    assert(b.take(k) =~= ld);
    assert(digits_val(b.take(k)) == s.len());
    assert(b.len() - k - 1 == s.len() + rest.len());
    assert(b.subrange(k + 1, k + 1 + s.len() as int) =~= s);
}

/// Parsing an integer's encoding, whatever follows it, recovers the
/// value and consumes exactly the encoding.
proof fn lemma_parse_int_of_enc(n: int, rest: Seq<u8>)
    requires
        i64::MIN <= n <= i64::MAX,
    ensures
        parse_int(enc(SpecValue::Int(n)) + rest) == Ok::<(SpecValue, nat), ParseError>(
            (SpecValue::Int(n), enc(SpecValue::Int(n)).len() as nat),
        ),
{
    let e = enc(SpecValue::Int(n));
    let b = e + rest;
    let inner = b.drop_first();
    let mag: nat = if n < 0 {
        (-n) as nat
    } else {
        n as nat
    };
    let md = dec_digits(mag);
    lemma_dec_digits_shape(mag);
    lemma_digits_val_of_dec(mag);
    if n < 0 {
        assert(dec_int(n) == seq![MINUS] + md);
        assert(inner =~= seq![MINUS] + md + (seq![TAG_END] + rest));
        assert(inner[0] == MINUS);
        let ds = inner.drop_first();
        assert(ds =~= md + (seq![TAG_END] + rest));
        lemma_digit_run_of_concat(md, seq![TAG_END] + rest);
        let k = md.len() as int;
        assert(digit_run_len(ds) == k);
        assert(ds[0] == md[0]);
        assert(ds[0] != 0x30);
        assert(ds[k] == TAG_END);
        assert(ds.take(k) =~= md);
        assert(digits_val(ds.take(k)) == mag);
        assert(mag <= 0x8000_0000_0000_0000u64 as nat);
        assert(e.len() == k + 3);
    } else {
        assert(dec_int(n) == md);
        assert(inner =~= md + (seq![TAG_END] + rest));
        assert(is_digit_byte(md[0]));
        assert(inner[0] != MINUS);
        let ds = inner;
        lemma_digit_run_of_concat(md, seq![TAG_END] + rest);
        let k = md.len() as int;
        assert(digit_run_len(ds) == k);
        assert(ds[0] == md[0]);
        assert(ds[0] == 0x30 ==> mag == 0 && k == 1);
        assert(ds[k] == TAG_END);
        assert(ds.take(k) =~= md);
        assert(digits_val(ds.take(k)) == mag);
        assert(mag <= 0x7fff_ffff_ffff_ffffu64 as nat);
        assert(e.len() == k + 2);
    }
}

/// Decoding inverts encoding: a well-formed value's encoding, whatever
/// follows it, parses back to that value.
pub proof fn lemma_parse_of_enc(v: SpecValue, rest: Seq<u8>)
    requires
        wf_value(v),
    ensures
        parse_value(enc(v) + rest) == Ok::<(SpecValue, nat), ParseError>(
            (v, enc(v).len() as nat),
        ),
    decreases v, 0int,
{
    let b = enc(v) + rest;
    match v {
        SpecValue::Int(n) => {
            assert(b[0] == TAG_INT);
            lemma_parse_int_of_enc(n, rest);
        },
        SpecValue::Bytes(s) => {
            lemma_dec_digits_shape(s.len());
            assert(b[0] == dec_digits(s.len())[0]);
            assert(is_digit_byte(b[0]));
            assert(b[0] != TAG_INT);
            lemma_parse_bytes_of_enc(s, rest);
            assert(enc(v) =~= enc_bytes(s));
        },
        SpecValue::List(es) => {
            assert(b[0] == TAG_LIST);
            assert(!is_digit_byte(b[0]));
            assert(b.drop_first() =~= enc_elems(es) + seq![TAG_END] + rest);
            lemma_parse_of_enc_items(es, rest);
            assert(enc(v).len() == enc_elems(es).len() + 2);
        },
        SpecValue::Dict(ps) => {
            assert(b[0] == TAG_DICT);
            assert(!is_digit_byte(b[0]));
            assert(b.drop_first() =~= enc_pairs(ps) + seq![TAG_END] + rest);
            lemma_parse_of_enc_entries(ps, rest);
            assert(enc(v).len() == enc_pairs(ps).len() + 2);
        },
    }
}

proof fn lemma_parse_of_enc_items(es: Seq<SpecValue>, rest: Seq<u8>)
    requires
        wf_elems(es),
    ensures
        parse_items(enc_elems(es) + seq![TAG_END] + rest) == Ok::<
            (Seq<SpecValue>, nat),
            ParseError,
        >((es, (enc_elems(es).len() + 1) as nat)),
    decreases es, 1int,
{
    let b = enc_elems(es) + seq![TAG_END] + rest;
    if es.len() == 0 {
        assert(b =~= seq![TAG_END] + rest);
        assert(b[0] == TAG_END);
        assert(es =~= Seq::<SpecValue>::empty());
    } else {
        let head = es[0];
        let tail = es.drop_first();
        let after = enc_elems(tail) + seq![TAG_END] + rest;
        assert(b =~= enc(head) + after);
        lemma_enc_head(head);
        assert(b[0] == enc(head)[0]);
        assert(b[0] != TAG_END);
        lemma_parse_of_enc(head, after);
        let n = enc(head).len() as int;
        assert(1 <= n <= b.len());
        assert(b.skip(n) =~= after);
        lemma_parse_of_enc_items(tail, rest);
        assert(seq![head] + tail =~= es);
        assert(enc_elems(es).len() == enc(head).len() + enc_elems(tail).len());
    }
}

#[verifier::rlimit(100)]
proof fn lemma_parse_of_enc_entries(ps: Seq<(Seq<u8>, SpecValue)>, rest: Seq<u8>)
    requires
        wf_pairs(ps),
    ensures
        parse_entries(enc_pairs(ps) + seq![TAG_END] + rest) == Ok::<
            (Seq<(Seq<u8>, SpecValue)>, nat),
            ParseError,
        >((ps, (enc_pairs(ps).len() + 1) as nat)),
    decreases ps, 1int,
{
    let b = enc_pairs(ps) + seq![TAG_END] + rest;
    if ps.len() == 0 {
        assert(b =~= seq![TAG_END] + rest);
        assert(b[0] == TAG_END);
        assert(ps =~= Seq::<(Seq<u8>, SpecValue)>::empty());
    } else {
        let key = ps[0].0;
        let val = ps[0].1;
        let tail = ps.drop_first();
        let after_key = enc(val) + enc_pairs(tail) + seq![TAG_END] + rest;
        let after_val = enc_pairs(tail) + seq![TAG_END] + rest;
        assert(b =~= enc_bytes(key) + after_key);
        lemma_dec_digits_shape(key.len());
        assert(b[0] == dec_digits(key.len())[0]);
        assert(is_digit_byte(b[0]));
        assert(b[0] != TAG_END);
        lemma_parse_bytes_of_enc(key, after_key);
        let n = enc_bytes(key).len() as int;
        assert(1 <= n <= b.len());
        assert(b.skip(n) =~= after_key);
        lemma_enc_head(val);
        assert(after_key[0] == enc(val)[0]);
        assert(after_key.len() > 0 && after_key[0] != TAG_END);
        assert(after_key =~= enc(val) + after_val);
        lemma_parse_of_enc(val, after_val);
        let m = enc(val).len() as int;
        assert(b.skip(n + m) =~= after_val);
        lemma_parse_of_enc_entries(tail, rest);
        assert(seq![(key, val)] + tail =~= ps);
        assert(enc_pairs(ps).len() == enc_bytes(key).len() + enc(val).len() + enc_pairs(
            tail,
        ).len());
    }
}

/// A byte string parsed out of `b` re-encodes to exactly the bytes it
/// was parsed from.
proof fn lemma_parse_bytes_exact(b: Seq<u8>)
    ensures
        match parse_bytes(b) {
            Ok(p) => 2 <= p.1 <= b.len() && enc_bytes(p.0) == b.take(p.1 as int),
            Err(_) => true,
        },
{
    if parse_bytes(b) is Ok {
        let k = digit_run_len(b) as int;
        lemma_digit_run_le_len(b);
        lemma_digit_run_digits(b);
        let run = b.take(k);
        let n = digits_val(run) as int;
        lemma_dec_of_digits_val(run);
        let s = b.subrange(k + 1, k + 1 + n);
        assert(s.len() == n);
        assert(dec_digits(s.len()) == run);
        assert(enc_bytes(s) =~= b.take(k + 1 + n));
    }
}

/// An integer parsed out of `b` re-encodes to exactly the bytes it was
/// parsed from, and fits in 64 signed bits.
proof fn lemma_parse_int_exact(b: Seq<u8>)
    requires
        b.len() > 0,
        b[0] == TAG_INT,
    ensures
        match parse_int(b) {
            Ok(p) => 3 <= p.1 <= b.len() && enc(p.0) == b.take(p.1 as int) && wf_value(p.0),
            Err(_) => true,
        },
{
    if parse_int(b) is Ok {
        let inner = b.drop_first();
        let neg = inner.len() > 0 && inner[0] == MINUS;
        let ds = if neg {
            inner.drop_first()
        } else {
            inner
        };
        let k = digit_run_len(ds) as int;
        lemma_digit_run_le_len(ds);
        lemma_digit_run_digits(ds);
        let run = ds.take(k);
        let m = digits_val(run);
        lemma_dec_of_digits_val(run);
        assert(dec_digits(m) == run);
        if neg {
            lemma_digits_val_positive(run);
            let n = -(m as int);
            assert(n < 0);
            assert(dec_int(n) == seq![MINUS] + dec_digits(m));
            assert(forall|t: int| 0 <= t < ds.len() ==> ds[t] == #[trigger] b[t + 2]);
            assert(enc(SpecValue::Int(n)) =~= b.take(k + 3));
        } else {
            let n = m as int;
            assert(dec_int(n) == dec_digits(m));
            assert(forall|t: int| 0 <= t < ds.len() ==> ds[t] == #[trigger] b[t + 1]);
            assert(enc(SpecValue::Int(n)) =~= b.take(k + 2));
        }
    }
}

/// Re-encoding a parsed value reproduces exactly the bytes it consumed,
/// and every parsed value is well formed.
pub proof fn lemma_parse_value_exact(b: Seq<u8>)
    ensures
        match parse_value(b) {
            Ok(p) => 2 <= p.1 <= b.len() && enc(p.0) == b.take(p.1 as int) && wf_value(p.0),
            Err(_) => true,
        },
    decreases b.len(), 0int,
{
    if b.len() == 0 {
    } else if b[0] == TAG_INT {
        lemma_parse_int_exact(b);
    } else if is_digit_byte(b[0]) {
        lemma_parse_bytes_exact(b);
    } else if b[0] == TAG_LIST {
        lemma_parse_items_exact(b.drop_first());
        if parse_items(b.drop_first()) is Ok {
            let p = parse_items(b.drop_first())->Ok_0;
            let es = p.0;
            let n = p.1 as int;
            let c = b.drop_first();
            assert(enc_elems(es) + seq![TAG_END] == c.take(n));
            let e = enc(SpecValue::List(es));
            assert(e.len() == n + 1);
            assert forall|i: int| 0 <= i < n + 1 implies e[i] == b.take(n + 1)[i] by {
                if i > 0 {
                    assert(e[i] == (enc_elems(es) + seq![TAG_END])[i - 1]);
                    assert(c.take(n)[i - 1] == c[i - 1]);
                    assert(c[i - 1] == b[i]);
                }
            }
            assert(enc(SpecValue::List(es)) =~= b.take(n + 1));
        }
    } else if b[0] == TAG_DICT {
        lemma_parse_entries_exact(b.drop_first());
        if parse_entries(b.drop_first()) is Ok {
            let p = parse_entries(b.drop_first())->Ok_0;
            let ps = p.0;
            let n = p.1 as int;
            let c = b.drop_first();
            assert(enc_pairs(ps) + seq![TAG_END] == c.take(n));
            let e = enc(SpecValue::Dict(ps));
            assert(e.len() == n + 1);
            assert forall|i: int| 0 <= i < n + 1 implies e[i] == b.take(n + 1)[i] by {
                if i > 0 {
                    assert(e[i] == (enc_pairs(ps) + seq![TAG_END])[i - 1]);
                    assert(c.take(n)[i - 1] == c[i - 1]);
                    assert(c[i - 1] == b[i]);
                }
            }
            assert(enc(SpecValue::Dict(ps)) =~= b.take(n + 1));
        }
    }
}

proof fn lemma_parse_items_exact(c: Seq<u8>)
    ensures
        match parse_items(c) {
            Ok(p) => 1 <= p.1 <= c.len() && enc_elems(p.0) + seq![TAG_END] == c.take(p.1 as int)
                && wf_elems(p.0),
            Err(_) => true,
        },
    decreases c.len(), 1int,
{
    if c.len() == 0 {
    } else if c[0] == TAG_END {
        assert(enc_elems(seq![]) + seq![TAG_END] =~= c.take(1));
    } else {
        lemma_parse_value_exact(c);
        if parse_value(c) is Ok {
            let p = parse_value(c)->Ok_0;
            let v = p.0;
            let n = p.1 as int;
            lemma_parse_items_exact(c.skip(n));
            if parse_items(c.skip(n)) is Ok {
                let q = parse_items(c.skip(n))->Ok_0;
                let es = q.0;
                let m = q.1 as int;
                let whole = seq![v] + es;
                assert(whole.drop_first() =~= es);
                assert(whole[0] == v);
                assert(enc_elems(whole) == enc(v) + enc_elems(es));
                assert(c.take(n) + c.skip(n).take(m) =~= c.take(n + m));
                assert(enc_elems(whole) + seq![TAG_END] =~= c.take(n + m));
            }
        }
    }
}

proof fn lemma_parse_entries_exact(c: Seq<u8>)
    ensures
        match parse_entries(c) {
            Ok(p) => 1 <= p.1 <= c.len() && enc_pairs(p.0) + seq![TAG_END] == c.take(p.1 as int)
                && wf_pairs(p.0),
            Err(_) => true,
        },
    decreases c.len(), 1int,
{
    if c.len() == 0 {
    } else if c[0] == TAG_END {
        assert(enc_pairs(seq![]) + seq![TAG_END] =~= c.take(1));
    } else if is_digit_byte(c[0]) {
        lemma_parse_bytes_exact(c);
        if parse_bytes(c) is Ok {
            let p = parse_bytes(c)->Ok_0;
            let key = p.0;
            let n = p.1 as int;
            let rest = c.skip(n);
            lemma_parse_value_exact(rest);
            if parse_value(rest) is Ok {
                let q = parse_value(rest)->Ok_0;
                let v = q.0;
                let m = q.1 as int;
                lemma_parse_entries_exact(c.skip(n + m));
                assert(rest.skip(m) =~= c.skip(n + m));
                if parse_entries(c.skip(n + m)) is Ok {
                    let w = parse_entries(c.skip(n + m))->Ok_0;
                    let ps = w.0;
                    let l = w.1 as int;
                    let whole = seq![(key, v)] + ps;
                    assert(whole.drop_first() =~= ps);
                    assert(whole[0] == (key, v));
                    assert(enc_pairs(whole) == enc_bytes(key) + enc(v) + enc_pairs(ps));
                    assert(c.take(n) + rest.take(m) =~= c.take(n + m));
                    assert(c.take(n + m) + c.skip(n + m).take(l) =~= c.take(n + m + l));
                    assert(enc_pairs(whole) + seq![TAG_END] =~= c.take(n + m + l));
                }
            }
        }
    }
}

/// Byte-level round trip: any buffer the decoder accepts is reproduced
/// exactly by re-encoding the decoded value (in particular every
/// accepted buffer whose dictionary keys are sorted), and the decoded
/// value is well formed.
pub proof fn lemma_encode_of_decode(b: Seq<u8>)
    ensures
        match parse_top(b) {
            Ok(v) => enc(v) == b && wf_value(v),
            Err(_) => true,
        },
{
    lemma_parse_value_exact(b);
    if parse_top(b) is Ok {
        assert(b.take(b.len() as int) =~= b);
    }
}

/// The byte form identifies the value: two well-formed values with the
/// same encoding are the same value. In particular, over trees with
/// sorted dictionary keys the canonical form is a one-to-one identity.
pub proof fn lemma_enc_injective(v1: SpecValue, v2: SpecValue)
    requires
        wf_value(v1),
        wf_value(v2),
        enc(v1) == enc(v2),
    ensures
        v1 == v2,
{
    lemma_decode_of_encode(v1);
    lemma_decode_of_encode(v2);
}

/// Round trip through the value domain: decoding the encoding of any
/// well-formed value tree yields exactly that tree.
pub proof fn lemma_decode_of_encode(v: SpecValue)
    requires
        wf_value(v),
    ensures
        parse_top(enc(v)) == Ok::<SpecValue, ParseError>(v),
{
    lemma_parse_of_enc(v, Seq::<u8>::empty());
    assert(enc(v) + Seq::<u8>::empty() =~= enc(v));
}

} // verus!
