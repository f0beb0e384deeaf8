//! JSON rendering of byte strings and of objects whose members are string
//! key/value pairs. Escaping follows the usual JSON writer conventions:
//! quote and backslash get a backslash, the common control characters their
//! short escapes, the remaining control bytes a `\u00XX` escape.

use vstd::prelude::*;
use crate::{DIGIT_0, LOWER_A, LOWER_F};
use crate::query::pairs_view;

verus! {

/// ASCII `"`.
pub const QUOTE: u8 = 34;

/// ASCII `\`.
pub const BACKSLASH: u8 = 92;

/// ASCII `{`.
pub const LBRACE: u8 = 123;

/// ASCII `}`.
pub const RBRACE: u8 = 125;

/// ASCII `:`.
pub const COLON: u8 = 58;

/// ASCII `,`.
pub const COMMA: u8 = 44;

/// ASCII backspace.
pub const BACKSPACE: u8 = 8;

/// ASCII horizontal tab.
pub const TAB: u8 = 9;

/// ASCII line feed.
pub const LINEFEED: u8 = 10;

/// ASCII form feed.
pub const FORMFEED: u8 = 12;

/// ASCII carriage return.
pub const CARRIAGE: u8 = 13;

/// ASCII `b`.
pub const LOWER_B: u8 = 98;

/// ASCII `t`.
pub const LOWER_T: u8 = 116;

/// ASCII `n`.
pub const LOWER_N: u8 = 110;

/// ASCII `r`.
pub const LOWER_R: u8 = 114;

/// ASCII `u`.
pub const LOWER_U: u8 = 117;

/// The lowercase hexadecimal digit for a value below 16.
pub open spec fn spec_hex_digit(n: u8) -> u8 {
    if n < 10 {
        (DIGIT_0 + n) as u8
    } else {
        (LOWER_A + n - 10) as u8
    }
}

/// The lowercase hexadecimal digit byte for a value below 16.
fn hex_digit(n: u8) -> (r: u8)
    requires
        n < 16,
    ensures
        r == spec_hex_digit(n),
{
    if n < 10 {
        DIGIT_0 + n
    } else {
        LOWER_A + n - 10
    }
}

/// The JSON escaping of one byte inside a string literal.
pub open spec fn spec_escape_byte(b: u8) -> Seq<u8> {
    if b == QUOTE {
        seq![BACKSLASH, QUOTE]
    } else if b == BACKSLASH {
        seq![BACKSLASH, BACKSLASH]
    } else if b == BACKSPACE {
        seq![BACKSLASH, LOWER_B]
    } else if b == TAB {
        seq![BACKSLASH, LOWER_T]
    } else if b == LINEFEED {
        seq![BACKSLASH, LOWER_N]
    } else if b == FORMFEED {
        seq![BACKSLASH, LOWER_F]
    } else if b == CARRIAGE {
        seq![BACKSLASH, LOWER_R]
    } else if b < 32 {
        seq![BACKSLASH, LOWER_U, DIGIT_0, DIGIT_0, spec_hex_digit(b / 16), spec_hex_digit(b % 16)]
    } else {
        seq![b]
    }
}

/// The JSON escaping of a byte string.
pub open spec fn spec_escape(s: Seq<u8>) -> Seq<u8>
    decreases s.len(),
{
    if s.len() == 0 {
        Seq::empty()
    } else {
        spec_escape(s.drop_last()) + spec_escape_byte(s.last())
    }
}

/// A JSON string literal: the escaped bytes between quotes.
pub open spec fn spec_json_string(s: Seq<u8>) -> Seq<u8> {
    seq![QUOTE] + spec_escape(s) + seq![QUOTE]
}

/// One object member, `"key":"value"`.
pub open spec fn spec_json_member(p: (Seq<u8>, Seq<u8>)) -> Seq<u8> {
    spec_json_string(p.0) + seq![COLON] + spec_json_string(p.1)
}

/// The comma-separated members of an object, in the order given.
pub open spec fn spec_members(ps: Seq<(Seq<u8>, Seq<u8>)>) -> Seq<u8>
    decreases ps.len(),
{
    if ps.len() == 0 {
        Seq::empty()
    } else if ps.len() == 1 {
        spec_json_member(ps[0])
    } else {
        spec_members(ps.drop_last()) + seq![COMMA] + spec_json_member(ps.last())
    }
}

/// A JSON object of string members, in the order given.
pub open spec fn spec_json_object(ps: Seq<(Seq<u8>, Seq<u8>)>) -> Seq<u8> {
    seq![LBRACE] + spec_members(ps) + seq![RBRACE]
}

/// Appends a byte string.
pub fn push_all(out: &mut Vec<u8>, s: &[u8])
    ensures
        final(out)@ == old(out)@ + s@,
{
    let mut i: usize = 0;
    proof {
        assert(out@ =~= old(out)@ + s@.take(0));
    }
    while i < s.len()
        invariant
            0 <= i <= s@.len(),
            out@ == old(out)@ + s@.take(i as int),
        decreases s@.len() - i,
    {
        out.push(s[i]);
        proof {
            assert(out@ =~= old(out)@ + s@.take(i as int + 1));
        }
        i = i + 1;
    }
    proof {
        assert(s@.take(s@.len() as int) =~= s@);
    }
}

/// Appends the JSON escaping of `s`.
fn escape_into(out: &mut Vec<u8>, s: &[u8])
    ensures
        final(out)@ == old(out)@ + spec_escape(s@),
{
    let mut i: usize = 0;
    proof {
        assert(s@.take(0) =~= Seq::<u8>::empty());
        assert(out@ =~= old(out)@ + spec_escape(s@.take(0)));
    }
    while i < s.len()
        invariant
            0 <= i <= s@.len(),
            out@ == old(out)@ + spec_escape(s@.take(i as int)),
        decreases s@.len() - i,
    {
        let b = s[i];
        let ghost out0 = out@;
        proof {
            assert(s@.take(i as int + 1).drop_last() =~= s@.take(i as int));
            assert(s@.take(i as int + 1).last() == b);
        }
        if b == QUOTE {
            out.push(BACKSLASH);
            out.push(QUOTE);
        } else if b == BACKSLASH {
            out.push(BACKSLASH);
            out.push(BACKSLASH);
        } else if b == BACKSPACE {
            out.push(BACKSLASH);
            out.push(LOWER_B);
        } else if b == TAB {
            out.push(BACKSLASH);
            out.push(LOWER_T);
        } else if b == LINEFEED {
            out.push(BACKSLASH);
            out.push(LOWER_N);
        } else if b == FORMFEED {
            out.push(BACKSLASH);
            out.push(LOWER_F);
        } else if b == CARRIAGE {
            out.push(BACKSLASH);
            out.push(LOWER_R);
        } else if b < 32 {
            out.push(BACKSLASH);
            out.push(LOWER_U);
            out.push(DIGIT_0);
            out.push(DIGIT_0);
            out.push(hex_digit(b / 16));
            out.push(hex_digit(b % 16));
        } else {
            out.push(b);
        }
        proof {
            assert(out@ =~= out0 + spec_escape_byte(b));
            assert(out@ =~= old(out)@ + spec_escape(s@.take(i as int + 1)));
        }
        i = i + 1;
    }
    proof {
        assert(s@.take(s@.len() as int) =~= s@);
    }
}

/// Appends `s` as a JSON string literal.
pub fn json_string_into(out: &mut Vec<u8>, s: &[u8])
    ensures
        final(out)@ == old(out)@ + spec_json_string(s@),
{
    out.push(QUOTE);
    escape_into(out, s);
    out.push(QUOTE);
    proof {
        assert(out@ =~= old(out)@ + spec_json_string(s@));
    }
}

/// Renders the pairs as a JSON object, members in the order given.
pub fn json_object(ps: &Vec<(Vec<u8>, Vec<u8>)>) -> (r: Vec<u8>)
    ensures
        r@ == spec_json_object(pairs_view(ps@)),
{
    let mut out: Vec<u8> = Vec::new();
    out.push(LBRACE);
    let mut i: usize = 0;
    proof {
        assert(pairs_view(ps@).take(0) =~= Seq::<(Seq<u8>, Seq<u8>)>::empty());
        assert(out@ =~= seq![LBRACE] + spec_members(pairs_view(ps@).take(0)));
    }
    while i < ps.len()
        invariant
            0 <= i <= ps@.len(),
            out@ == seq![LBRACE] + spec_members(pairs_view(ps@).take(i as int)),
        decreases ps@.len() - i,
    {
        let ghost out0 = out@;
        let ghost pv = pairs_view(ps@)[i as int];
        proof {
            assert(pairs_view(ps@).take(i as int + 1).drop_last() =~= pairs_view(ps@).take(
                i as int,
            ));
            assert(pairs_view(ps@).take(i as int + 1).last() == pv);
        }
        if i > 0 {
            out.push(COMMA);
        }
        json_string_into(&mut out, ps[i].0.as_slice());
        out.push(COLON);
        json_string_into(&mut out, ps[i].1.as_slice());
        proof {
            assert(pv == (ps@[i as int].0@, ps@[i as int].1@));
            if i == 0 {
                assert(out@ =~= seq![LBRACE] + spec_members(pairs_view(ps@).take(1)));
            } else {
                assert(out@ =~= out0 + seq![COMMA] + spec_json_member(pv));
                assert(out@ =~= seq![LBRACE] + spec_members(pairs_view(ps@).take(i as int + 1)));
            }
        }
        i = i + 1;
    }
    out.push(RBRACE);
    proof {
        assert(pairs_view(ps@).take(ps@.len() as int) =~= pairs_view(ps@));
        assert(out@ =~= spec_json_object(pairs_view(ps@)));
    }
    out
}

} // verus!
