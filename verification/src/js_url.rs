//! Percent encoding that matches JavaScript's `encodeURIComponent`.

use crate::text::{chars_of, string_of};
use vstd::prelude::*;

verus! {

/// The characters `encodeURIComponent` leaves alone: ASCII letters and
/// digits and `- _ . ! ~ * ' ( )`.
pub open spec fn uri_keeps(c: char) -> bool {
    ('a' <= c && c <= 'z') || ('A' <= c && c <= 'Z') || ('0' <= c && c <= '9') || c == '-' || c
        == '_' || c == '.' || c == '!' || c == '~' || c == '*' || c == '\'' || c == '(' || c == ')'
}

/// The UTF-8 encoding of a scalar value.
pub open spec fn utf8_bytes(c: char) -> Seq<int> {
    let n = c as int;
    if n < 0x80 {
        seq![n]
    } else if n < 0x800 {
        seq![0xC0 + n / 64, 0x80 + n % 64]
    } else if n < 0x10000 {
        seq![0xE0 + n / 4096, 0x80 + (n / 64) % 64, 0x80 + n % 64]
    } else {
        seq![0xF0 + n / 262144, 0x80 + (n / 4096) % 64, 0x80 + (n / 64) % 64, 0x80 + n % 64]
    }
}

/// An upper-case hexadecimal digit.
pub open spec fn hex_upper(d: int) -> char {
    if d < 10 {
        (48 + d) as char
    } else {
        (55 + d) as char
    }
}

pub open spec fn percent_triples(bytes: Seq<int>) -> Seq<char>
    decreases bytes.len(),
{
    if bytes.len() == 0 {
        Seq::empty()
    } else {
        percent_triples(bytes.drop_last()) + seq![
            '%',
            hex_upper(bytes.last() / 16),
            hex_upper(bytes.last() % 16),
        ]
    }
}

pub open spec fn encode_char(c: char) -> Seq<char> {
    if uri_keeps(c) {
        seq![c]
    } else {
        percent_triples(utf8_bytes(c))
    }
}

/// `encodeURIComponent`: every character outside the kept set goes out as
/// the `%XX` triples of its UTF-8 bytes.
pub open spec fn uri_component(s: Seq<char>) -> Seq<char>
    decreases s.len(),
{
    if s.len() == 0 {
        Seq::empty()
    } else {
        uri_component(s.drop_last()) + encode_char(s.last())
    }
}

fn keeps(c: char) -> (r: bool)
    ensures
        r == uri_keeps(c),
{
    ('a' <= c && c <= 'z') || ('A' <= c && c <= 'Z') || ('0' <= c && c <= '9') || c == '-' || c
        == '_' || c == '.' || c == '!' || c == '~' || c == '*' || c == '\'' || c == '(' || c == ')'
}

fn hex_digit(d: u32) -> (r: char)
    requires
        d < 16,
    ensures
        r == hex_upper(d as int),
{
    if d < 10 {
        let b: u8 = (48 + d) as u8;
        b as char
    } else {
        let b: u8 = (55 + d) as u8;
        b as char
    }
}

fn push_byte(out: &mut Vec<char>, b: u32)
    requires
        b < 256,
    ensures
        final(out)@ == old(out)@ + seq!['%', hex_upper(b as int / 16), hex_upper(b as int % 16)],
{
    out.push('%');
    out.push(hex_digit(b / 16));
    out.push(hex_digit(b % 16));
}

fn push_encoded(out: &mut Vec<char>, c: char)
    ensures
        final(out)@ == old(out)@ + encode_char(c),
{
    if keeps(c) {
        out.push(c);
        return;
    }
    let n: u32 = c as u32;
    proof {
        assert(n as int == c as int);
    }
    let ghost start = out@;
    let ghost e = Seq::<int>::empty();
    if n < 0x80 {
        push_byte(out, n);
        proof {
            lemma_triples_push(e, n as int);
            assert(utf8_bytes(c) =~= e.push(n as int));
        }
    } else if n < 0x800 {
        let b0 = 0xC0 + n / 64;
        let b1 = 0x80 + n % 64;
        push_byte(out, b0);
        push_byte(out, b1);
        proof {
            lemma_triples_push(e, b0 as int);
            lemma_triples_push(e.push(b0 as int), b1 as int);
            assert(utf8_bytes(c) =~= e.push(b0 as int).push(b1 as int));
        }
    } else if n < 0x10000 {
        let b0 = 0xE0 + n / 4096;
        let b1 = 0x80 + (n / 64) % 64;
        let b2 = 0x80 + n % 64;
        push_byte(out, b0);
        push_byte(out, b1);
        push_byte(out, b2);
        proof {
            lemma_triples_push(e, b0 as int);
            lemma_triples_push(e.push(b0 as int), b1 as int);
            lemma_triples_push(e.push(b0 as int).push(b1 as int), b2 as int);
            assert(utf8_bytes(c) =~= e.push(b0 as int).push(b1 as int).push(b2 as int));
        }
    } else {
        assert(n <= 0x10FFFF);
        let b0 = 0xF0 + n / 262144;
        let b1 = 0x80 + (n / 4096) % 64;
        let b2 = 0x80 + (n / 64) % 64;
        let b3 = 0x80 + n % 64;
        push_byte(out, b0);
        push_byte(out, b1);
        push_byte(out, b2);
        push_byte(out, b3);
        proof {
            lemma_triples_push(e, b0 as int);
            lemma_triples_push(e.push(b0 as int), b1 as int);
            lemma_triples_push(e.push(b0 as int).push(b1 as int), b2 as int);
            lemma_triples_push(e.push(b0 as int).push(b1 as int).push(b2 as int), b3 as int);
            assert(utf8_bytes(c) =~= e.push(b0 as int).push(b1 as int).push(b2 as int).push(
                b3 as int,
            ));
        }
    }
    assert(out@ =~= start + encode_char(c));
}

proof fn lemma_triples_push(bs: Seq<int>, b: int)
    ensures
        percent_triples(bs.push(b)) == percent_triples(bs) + seq!['%', hex_upper(b / 16), hex_upper(b % 16)],
        percent_triples(Seq::<int>::empty()) == Seq::<char>::empty(),
{
    assert(bs.push(b).drop_last() =~= bs);
}

/// `encodeURIComponent` for a string.
pub fn encode_uri_component(input: &str) -> (r: String)
    ensures
        r@ == uri_component(input@),
{
    let v = chars_of(input);
    let mut out: Vec<char> = Vec::new();
    let mut i: usize = 0;
    while i < v.len()
        invariant
            i <= v@.len(),
            out@ == uri_component(v@.take(i as int)),
        decreases v@.len() - i,
    {
        push_encoded(&mut out, v[i]);
        proof {
            assert(v@.take(i + 1).drop_last() =~= v@.take(i as int));
        }
        i = i + 1;
    }
    proof {
        assert(v@.take(v@.len() as int) =~= v@);
    }
    string_of(&out)
}

} // verus!
