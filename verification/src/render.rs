//! A readable display form for decoded values: integers bare, byte
//! strings double-quoted with printable ASCII kept and everything else
//! escaped, lists in brackets, dictionaries in braces.

use vstd::prelude::*;

use crate::bencode::{
    lemma_view_elems_props, lemma_view_pairs_props, view_elems, view_pairs, SpecValue, Value,
};
use crate::text::{hex_digit_char, push_decimal_signed, signed_dec_chars, string_push};

verus! {

/// The display form of one byte inside a quoted string: printable
/// ASCII stands for itself, `"` and `\` are backslash-escaped, and any
/// other byte becomes `\x` and two lowercase hex digits.
pub open spec fn escape_byte_chars(b: u8) -> Seq<char> {
    if b == 0x22 {
        seq!['\\', '"']
    } else if b == 0x5c {
        seq!['\\', '\\']
    } else if 0x20 <= b && b <= 0x7e {
        seq![b as char]
    } else {
        seq!['\\', 'x', hex_digit_char((b / 16) as nat), hex_digit_char((b % 16) as nat)]
    }
}

/// The display form of a byte string's content, byte by byte.
pub open spec fn escaped_bytes_chars(s: Seq<u8>) -> Seq<char>
    decreases s.len(),
{
    if s.len() == 0 {
        Seq::empty()
    } else {
        escaped_bytes_chars(s.drop_last()) + escape_byte_chars(s.last())
    }
}

/// The display form of a byte string: its escaped content in double
/// quotes.
pub open spec fn quoted_chars(s: Seq<u8>) -> Seq<char> {
    seq!['"'] + escaped_bytes_chars(s) + seq!['"']
}

/// The display form of a decoded value.
pub open spec fn render_chars(v: SpecValue) -> Seq<char>
    decreases v,
{
    match v {
        SpecValue::Int(n) => signed_dec_chars(n),
        SpecValue::Bytes(s) => quoted_chars(s),
        SpecValue::List(es) => seq!['['] + render_elems_chars(es) + seq![']'],
        SpecValue::Dict(ps) => seq!['{'] + render_entries_chars(ps) + seq!['}'],
    }
}

/// List elements, comma-separated.
pub open spec fn render_elems_chars(es: Seq<SpecValue>) -> Seq<char>
    decreases es,
{
    if es.len() == 0 {
        Seq::empty()
    } else if es.len() == 1 {
        render_chars(es[0])
    } else {
        render_chars(es[0]) + seq![','] + render_elems_chars(es.drop_first())
    }
}

/// Dictionary entries, comma-separated, each a quoted key, a colon and
/// the value.
pub open spec fn render_entries_chars(ps: Seq<(Seq<u8>, SpecValue)>) -> Seq<char>
    decreases ps,
{
    if ps.len() == 0 {
        Seq::empty()
    } else if ps.len() == 1 {
        quoted_chars(ps[0].0) + seq![':'] + render_chars(ps[0].1)
    } else {
        quoted_chars(ps[0].0) + seq![':'] + render_chars(ps[0].1) + seq![',']
            + render_entries_chars(ps.drop_first())
    }
}

/// Appends the quoted display form of a byte string.
#[verifier::loop_isolation(false)]
fn push_quoted(s: &Vec<u8>, out: &mut String)
    ensures
        final(out)@ == old(out)@ + quoted_chars(s@),
{
    string_push(out, '"');
    let ghost base = out@;
    let mut i: usize = 0;
    while i < s.len()
        invariant
            i <= s@.len(),
            out@ == base + escaped_bytes_chars(s@.take(i as int)),
        decreases s@.len() - i,
    {
        let b = s[i];
        if b == 0x22 {
            string_push(out, '\\');
            string_push(out, '"');
        } else if b == 0x5c {
            string_push(out, '\\');
            string_push(out, '\\');
        } else if 0x20 <= b && b <= 0x7e {
            string_push(out, b as char);
        } else {
            string_push(out, '\\');
            string_push(out, 'x');
            let hi = b / 16;
            let lo = b % 16;
            let hc: u8 = if hi < 10 {
                0x30 + hi
            } else {
                0x61 + (hi - 10)
            };
            let lc: u8 = if lo < 10 {
                0x30 + lo
            } else {
                0x61 + (lo - 10)
            };
            string_push(out, hc as char);
            string_push(out, lc as char);
        }
        proof {
            assert(s@.take(i as int + 1).drop_last() =~= s@.take(i as int));
            assert(s@.take(i as int + 1).last() == s@[i as int]);
            assert(out@ =~= base + escaped_bytes_chars(s@.take(i as int + 1)));
        }
        i = i + 1;
    }
    string_push(out, '"');
    proof {
        assert(s@.take(s@.len() as int) =~= s@);
        assert(out@ =~= old(out)@ + quoted_chars(s@));
    }
}

/// Appends the display form of one value.
fn render_into(v: &Value, out: &mut String)
    ensures
        final(out)@ == old(out)@ + render_chars(v@),
    decreases v, 0int,
{
    match v {
        Value::Integer(n) => {
            push_decimal_signed(*n, out);
        },
        Value::ByteString(s) => {
            push_quoted(s, out);
        },
        Value::List(xs) => {
            string_push(out, '[');
            render_elems_into(xs, 0, out);
            string_push(out, ']');
            proof {
                lemma_view_elems_props(xs@);
                assert(view_elems(xs@).skip(0) =~= view_elems(xs@));
                assert(out@ =~= old(out)@ + render_chars(v@));
            }
        },
        Value::Dictionary(ps) => {
            string_push(out, '{');
            render_entries_into(ps, 0, out);
            string_push(out, '}');
            proof {
                lemma_view_pairs_props(ps@);
                assert(view_pairs(ps@).skip(0) =~= view_pairs(ps@));
                assert(out@ =~= old(out)@ + render_chars(v@));
            }
        },
    }
}

/// Appends the display forms of the elements from `i` on, separated by
/// commas.
fn render_elems_into(xs: &Vec<Value>, i: usize, out: &mut String)
    requires
        i <= xs@.len(),
    ensures
        final(out)@ == old(out)@ + render_elems_chars(view_elems(xs@).skip(i as int)),
    decreases xs, xs@.len() - i + 1,
{
    proof {
        lemma_view_elems_props(xs@);
    }
    if i < xs.len() {
        render_into(&xs[i], out);
        if i + 1 < xs.len() {
            string_push(out, ',');
        }
        render_elems_into(xs, i + 1, out);
        proof {
            let ve = view_elems(xs@);
            assert(ve.skip(i as int)[0] == ve[i as int]);
            assert(ve.skip(i as int).drop_first() =~= ve.skip(i as int + 1));
            if i + 1 == xs@.len() {
                assert(ve.skip(i as int + 1) =~= Seq::<SpecValue>::empty());
                assert(ve.skip(i as int).len() == 1);
            }
            assert(out@ =~= old(out)@ + render_elems_chars(ve.skip(i as int)));
        }
    } else {
        proof {
            assert(view_elems(xs@).skip(i as int) =~= Seq::<SpecValue>::empty());
            assert(out@ =~= old(out)@ + render_elems_chars(view_elems(xs@).skip(i as int)));
        }
    }
}

/// Appends the display forms of the entries from `i` on, separated by
/// commas.
fn render_entries_into(ps: &Vec<(Vec<u8>, Value)>, i: usize, out: &mut String)
    requires
        i <= ps@.len(),
    ensures
        final(out)@ == old(out)@ + render_entries_chars(view_pairs(ps@).skip(i as int)),
    decreases ps, ps@.len() - i + 1,
{
    proof {
        lemma_view_pairs_props(ps@);
    }
    if i < ps.len() {
        push_quoted(&ps[i].0, out);
        string_push(out, ':');
        render_into(&ps[i].1, out);
        if i + 1 < ps.len() {
            string_push(out, ',');
        }
        render_entries_into(ps, i + 1, out);
        proof {
            let vp = view_pairs(ps@);
            assert(vp.skip(i as int)[0] == vp[i as int]);
            assert(vp.skip(i as int).drop_first() =~= vp.skip(i as int + 1));
            if i + 1 == ps@.len() {
                assert(vp.skip(i as int + 1) =~= Seq::<(Seq<u8>, SpecValue)>::empty());
                assert(vp.skip(i as int).len() == 1);
            }
            assert(out@ =~= old(out)@ + render_entries_chars(vp.skip(i as int)));
        }
    } else {
        proof {
            assert(view_pairs(ps@).skip(i as int) =~= Seq::<(Seq<u8>, SpecValue)>::empty());
            assert(out@ =~= old(out)@ + render_entries_chars(view_pairs(ps@).skip(i as int)));
        }
    }
}

impl Value {
    /// The display form of the value, for showing a decoded term to a
    /// human.
    pub fn render(&self) -> (r: String)
        ensures
            r@ == render_chars(self@),
    {
        let mut out = String::new();
        render_into(self, &mut out);
        proof {
            assert(out@ =~= render_chars(self@));
        }
        out
    }
}

} // verus!
