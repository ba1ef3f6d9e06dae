//! Base64 encoding (standard alphabet, with `=` padding).

use vstd::prelude::*;

verus! {

/// The standard Base64 alphabet, as byte values: `A`-`Z`, `a`-`z`,
/// `0`-`9`, `+`, `/`.
pub open spec fn b64_table(i: int) -> u8 {
    if 0 <= i < 26 {
        (65 + i) as u8
    } else if 26 <= i < 52 {
        (97 + (i - 26)) as u8
    } else if 52 <= i < 62 {
        (48 + (i - 52)) as u8
    } else if i == 62 {
        43u8
    } else {
        47u8
    }
}

/// The four output bytes of one input chunk of `len` (1 to 3) bytes;
/// missing bytes count as zero and padding becomes `=` (byte 61).
pub open spec fn b64_chunk(a: u8, b: u8, c: u8, len: int) -> Seq<u8> {
    let e1 = b64_table((a >> 2) as int);
    let e2 = b64_table((((a & 3) << 4) | (b >> 4)) as int);
    let e3 = b64_table((((b & 15) << 2) | (c >> 6)) as int);
    let e4 = b64_table((c & 63) as int);
    if len == 1 {
        seq![e1, e2, 61u8, 61u8]
    } else if len == 2 {
        seq![e1, e2, e3, 61u8]
    } else {
        seq![e1, e2, e3, e4]
    }
}

/// The Base64 encoding of a byte sequence, as bytes.
pub open spec fn b64_bytes(s: Seq<u8>) -> Seq<u8>
    decreases s.len(),
{
    if s.len() == 0 {
        Seq::empty()
    } else if s.len() == 1 {
        b64_chunk(s[0], 0, 0, 1)
    } else if s.len() == 2 {
        b64_chunk(s[0], s[1], 0, 2)
    } else {
        b64_chunk(s[0], s[1], s[2], 3) + b64_bytes(s.skip(3))
    }
}

/// The Base64 encoding of a byte sequence, as characters.
pub open spec fn b64_chars(s: Seq<u8>) -> Seq<char> {
    b64_bytes(s).map_values(|b: u8| b as char)
}

/// Encoding a whole number of chunks, then more, encodes piecewise.
proof fn lemma_b64_bytes_append(t: Seq<u8>, u: Seq<u8>)
    requires
        t.len() % 3 == 0,
    ensures
        b64_bytes(t + u) == b64_bytes(t) + b64_bytes(u),
    decreases t.len(),
{
    if t.len() == 0 {
        assert(t + u =~= u);
        assert(b64_bytes(t) + b64_bytes(u) =~= b64_bytes(u));
    } else {
        let s = t + u;
        assert(s.len() >= 3);
        assert(s[0] == t[0] && s[1] == t[1] && s[2] == t[2]);
        assert(s.skip(3) =~= t.skip(3) + u);
        lemma_b64_bytes_append(t.skip(3), u);
        if u.len() == 0 && t.len() == 3 {
            assert(t.skip(3) =~= Seq::<u8>::empty());
        }
        assert(b64_bytes(t) == b64_chunk(t[0], t[1], t[2], 3) + b64_bytes(t.skip(3))) by {
            if t.len() < 3 {
            }
        }
        assert(b64_bytes(s) =~= b64_bytes(t) + b64_bytes(u));
    }
}

/// Every encoded byte is ASCII.
proof fn lemma_b64_bytes_ascii(s: Seq<u8>)
    ensures
        forall|i: int| 0 <= i < b64_bytes(s).len() ==> #[trigger] b64_bytes(s)[i] < 128,
    decreases s.len(),
{
    if s.len() == 0 {
    } else if s.len() <= 2 {
        let bs = b64_bytes(s);
        assert(bs[0] < 128 && bs[1] < 128 && bs[2] < 128 && bs[3] < 128);
        assert forall|i: int| 0 <= i < bs.len() implies #[trigger] bs[i] < 128 by {
            assert(i == 0 || i == 1 || i == 2 || i == 3);
        }
    } else {
        lemma_b64_bytes_ascii(s.skip(3));
        let c = b64_chunk(s[0], s[1], s[2], 3);
        let bs = b64_bytes(s);
        assert(c[0] < 128 && c[1] < 128 && c[2] < 128 && c[3] < 128);
        assert forall|i: int| 0 <= i < bs.len() implies #[trigger] bs[i] < 128 by {
            if i < 4 {
                assert(bs[i] == c[i]);
            } else {
                assert(bs[i] == b64_bytes(s.skip(3))[i - 4]);
            }
        }
    }
}

/// One alphabet byte.
fn b64_byte(index: u8) -> (r: u8)
    requires
        index < 64,
    ensures
        r == b64_table(index as int),
{
    if index < 26 {
        65 + index
    } else if index < 52 {
        97 + (index - 26)
    } else if index < 62 {
        48 + (index - 52)
    } else if index == 62 {
        43
    } else {
        47
    }
}

/// Turns ASCII bytes into the string of the same characters.
/// Relies on `String::from_utf8`: bytes below 128 are valid UTF-8 and
/// decode to one character each.
#[verifier::external_body]
fn ascii_string_from_bytes(v: Vec<u8>) -> (r: String)
    requires
        forall|i: int| 0 <= i < v@.len() ==> #[trigger] v@[i] < 128,
    ensures
        r@ == v@.map_values(|b: u8| b as char),
{
    String::from_utf8(v).unwrap()
}

/// Encodes `input` in Base64, three bytes to four characters, the final
/// short chunk padded with `=`.
pub fn encode(input: &[u8]) -> (r: String)
    ensures
        r@ == b64_chars(input@),
{
    let input_len = input.len();
    let mut output: Vec<u8> = Vec::new();
    let mut i: usize = 0;
    while input_len - i >= 3
        invariant
            input_len == input@.len(),
            i % 3 == 0,
            i <= input_len,
            output@ == b64_bytes(input@.take(i as int)),
        decreases input_len - i,
    {
        let a = input[i];
        let b = input[i + 1];
        let c = input[i + 2];
        proof {
            assert((a >> 2) < 64 && (((a & 3) << 4) | (b >> 4)) < 64 && (((b & 15) << 2) | (c
                >> 6)) < 64 && (c & 63) < 64) by (bit_vector);
        }
        output.push(b64_byte(a >> 2));
        output.push(b64_byte(((a & 3) << 4) | (b >> 4)));
        output.push(b64_byte(((b & 15) << 2) | (c >> 6)));
        output.push(b64_byte(c & 63));
        proof {
            let t = input@.take(i as int);
            let w = input@.subrange(i as int, i + 3);
            assert(input@.take(i + 3) =~= t + w);
            lemma_b64_bytes_append(t, w);
            assert(w.skip(3) =~= Seq::<u8>::empty());
            assert(b64_bytes(Seq::<u8>::empty()) =~= Seq::<u8>::empty());
            assert(b64_bytes(w) == b64_chunk(w[0], w[1], w[2], 3) + b64_bytes(w.skip(3)));
            assert(b64_bytes(w) =~= b64_chunk(w[0], w[1], w[2], 3));
            assert(output@ =~= b64_bytes(input@.take(i + 3)));
        }
        i += 3;
    }
    if i < input_len {
        let a = input[i];
        let b = if i + 1 < input_len {
            input[i + 1]
        } else {
            0
        };
        proof {
            assert((a >> 2) < 64 && (((a & 3) << 4) | (b >> 4)) < 64 && (((b & 15) << 2) | (0u8
                >> 6)) < 64 && ((b & 15) << 2) < 64) by (bit_vector);
        }
        output.push(b64_byte(a >> 2));
        output.push(b64_byte(((a & 3) << 4) | (b >> 4)));
        if i + 1 < input_len {
            output.push(b64_byte((b & 15) << 2));
            output.push(61);
        } else {
            output.push(61);
            output.push(61);
        }
        proof {
            let t = input@.take(i as int);
            let w = input@.subrange(i as int, input_len as int);
            assert(input@.take(input_len as int) =~= t + w);
            lemma_b64_bytes_append(t, w);
            assert(1 <= w.len() <= 2);
            if w.len() == 1 {
                assert(b64_bytes(w) == b64_chunk(w[0], 0, 0, 1));
                assert((((0u8 & 15) << 2) | (0u8 >> 6)) == ((0u8 & 15) << 2)) by (bit_vector);
            } else {
                assert(b64_bytes(w) == b64_chunk(w[0], w[1], 0, 2));
                assert(forall|x: u8| ((x & 15) << 2) == (((x & 15) << 2) | (0u8 >> 6)))
                    by (bit_vector);
            }
            assert(output@ =~= b64_bytes(input@.take(input_len as int)));
        }
    }
    proof {
        assert(input@.take(input_len as int) =~= input@);
        lemma_b64_bytes_ascii(input@);
    }
    ascii_string_from_bytes(output)
}

} // verus!
