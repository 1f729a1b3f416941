//! Where this library's decoder and Rust's `str` meet.
use crate::decode;
use vstd::prelude::*;
use vstd::string::*;

verus! {

proof fn lemma_two(a: u8, b: u8)
    requires
        0xC0 <= a <= 0xDF,
        0x80 <= b <= 0xBF,
    ensures
        vstd::utf8::codepoint_width_2(a, b) == (a - 0xC0) * 64 + (b - 0x80),
{
    assert((((a & 0x1F) as u32) << 6) | ((b & 0x3f) as u32) == (a - 0xC0) * 64 + (b - 0x80)) by (bit_vector)
        requires
            0xC0 <= a <= 0xDF,
            0x80 <= b <= 0xBF,
    ;
}

proof fn lemma_three(a: u8, b: u8, c: u8)
    requires
        0xE0 <= a <= 0xEF,
        0x80 <= b <= 0xBF,
        0x80 <= c <= 0xBF,
    ensures
        vstd::utf8::codepoint_width_3(a, b, c) == ((a - 0xE0) * 64 + (b - 0x80)) * 64 + (c - 0x80),
{
    assert((((a & 0x0F) as u32) << 12) | (((b & 0x3f) as u32) << 6) | ((c & 0x3f) as u32) == ((a - 0xE0) * 64 + (b
        - 0x80)) * 64 + (c - 0x80)) by (bit_vector)
        requires
            0xE0 <= a <= 0xEF,
            0x80 <= b <= 0xBF,
            0x80 <= c <= 0xBF,
    ;
}

proof fn lemma_four(a: u8, b: u8, c: u8, d: u8)
    requires
        0xF0 <= a <= 0xF7,
        0x80 <= b <= 0xBF,
        0x80 <= c <= 0xBF,
        0x80 <= d <= 0xBF,
    ensures
        vstd::utf8::codepoint_width_4(a, b, c, d) == (((a - 0xF0) * 64 + (b - 0x80)) * 64 + (c - 0x80)) * 64 + (d
            - 0x80),
{
    assert((((a & 0x07) as u32) << 18) | (((b & 0x3f) as u32) << 12) | (((c & 0x3f) as u32) << 6) | ((d
        & 0x3f) as u32) == (((a - 0xF0) * 64 + (b - 0x80)) * 64 + (c - 0x80)) * 64 + (d - 0x80)) by (bit_vector)
        requires
            0xF0 <= a <= 0xF7,
            0x80 <= b <= 0xBF,
            0x80 <= c <= 0xBF,
            0x80 <= d <= 0xBF,
    ;
}

/// A scalar value stands at the front of `t` to Rust exactly when the decoder reads one there.
proof fn lemma_first_scalar(t: Seq<u8>)
    requires
        t.len() > 0,
    ensures
        vstd::utf8::valid_first_scalar(t) <==> decode::sequence_at(t, 0) is Some && decode::is_scalar_value(
            (decode::sequence_at(t, 0)->0).1,
        ),
        vstd::utf8::valid_first_scalar(t) ==> vstd::utf8::length_of_first_scalar(t) == (decode::sequence_at(
            t,
            0,
        )->0).0 && vstd::utf8::decode_first_scalar(t) == (decode::sequence_at(t, 0)->0).1,
{
    let a = t[0];
    assert(decode::accumulated(t, 0, 0) == decode::lead_bits(a));
    if a <= 0x7F {
        assert((a & 0x7F) as u32 == a) by (bit_vector)
            requires
                a <= 0x7F,
        ;
        assert(vstd::utf8::decode_first_codepoint(t) == a);
        assert(decode::sequence_at(t, 0) == Some((1nat, a as nat)));
    } else if a <= 0xBF {
    } else if a <= 0xDF {
        if t.len() >= 2 && decode::is_cont(t[1]) {
            lemma_two(a, t[1]);
            assert(decode::accumulated(t, 0, 1) == (a - 0xC0) * 64 + (t[1] - 0x80));
            assert(decode::conts_follow(t, 0, 1));
        } else {
            assert(decode::sequence_at(t, 0) is None);
        }
    } else if a <= 0xEF {
        if t.len() >= 3 && decode::is_cont(t[1]) && decode::is_cont(t[2]) {
            lemma_three(a, t[1], t[2]);
            assert(decode::accumulated(t, 0, 1) == (a - 0xE0) * 64 + (t[1] - 0x80));
            assert(decode::accumulated(t, 0, 2) == ((a - 0xE0) * 64 + (t[1] - 0x80)) * 64 + (t[2] - 0x80));
            assert(decode::conts_follow(t, 0, 2));
        } else {
            assert(decode::sequence_at(t, 0) is None);
        }
    } else if a <= 0xF7 {
        if t.len() >= 4 && decode::is_cont(t[1]) && decode::is_cont(t[2]) && decode::is_cont(t[3]) {
            lemma_four(a, t[1], t[2], t[3]);
            assert(decode::accumulated(t, 0, 1) == (a - 0xF0) * 64 + (t[1] - 0x80));
            assert(decode::accumulated(t, 0, 2) == ((a - 0xF0) * 64 + (t[1] - 0x80)) * 64 + (t[2] - 0x80));
            assert(decode::accumulated(t, 0, 3) == (((a - 0xF0) * 64 + (t[1] - 0x80)) * 64 + (t[2] - 0x80)) * 64 + (t[3]
                - 0x80));
            assert(decode::conts_follow(t, 0, 3));
        } else {
            assert(decode::sequence_at(t, 0) is None);
        }
    }
}

proof fn lemma_valid_utf8_from(s: Seq<u8>, at: int)
    requires
        0 <= at <= s.len(),
    ensures
        vstd::utf8::valid_utf8(s.skip(at)) <==> decode::decodable_from(s, at) && decode::all_scalar(
            decode::code_points_from(s, at),
        ),
        vstd::utf8::valid_utf8(s.skip(at)) ==> vstd::utf8::decode_utf8(s.skip(at)).map_values(|c: char| c as nat)
            == decode::code_points_from(s, at),
    decreases s.len() - at,
{
    let t = s.skip(at);
    let points = decode::code_points_from(s, at);
    if at < s.len() {
        lemma_first_scalar(t);
        assert forall|k: int| at <= k < s.len() implies #[trigger] s[k] == t[k + (-at)] by {}
        assert forall|k: int| 0 <= k < t.len() implies #[trigger] t[k] == s[k + at] by {}
        if decode::sequence_at(t, 0) is Some {
            decode::lemma_sequence_bounds(t, 0);
            decode::lemma_sequence_local(t, s, 0, at);
        } else if decode::sequence_at(s, at) is Some {
            decode::lemma_sequence_bounds(s, at);
            decode::lemma_sequence_local(s, t, at, -at);
        }
        if decode::sequence_at(s, at) is Some {
            let (len, value) = decode::sequence_at(s, at)->0;
            decode::lemma_sequence_bounds(s, at);
            let rest = decode::code_points_from(s, at + len);
            lemma_valid_utf8_from(s, at + len);
            assert(t.subrange(len as int, t.len() as int) =~= s.skip(at + len));
            assert(points[0] == value);
            assert forall|i: int| 0 <= i < rest.len() implies #[trigger] rest[i] == points[i + 1] by {}
            if decode::all_scalar(points) {
                assert forall|i: int| 0 <= i < rest.len() implies decode::is_scalar_value(#[trigger] rest[i]) by {
                    assert(decode::is_scalar_value(points[i + 1]));
                }
            }
            if decode::is_scalar_value(value) && decode::all_scalar(rest) {
                assert forall|i: int| 0 <= i < points.len() implies decode::is_scalar_value(#[trigger] points[i]) by {
                    if i > 0 {
                        assert(points[i] == rest[i - 1]);
                    }
                }
            }
            if vstd::utf8::valid_utf8(t) {
                assert(vstd::utf8::pop_first_scalar(t) =~= s.skip(at + len));
                let first = vstd::utf8::decode_first_scalar(t);
                assert(first as char as nat == value);
                assert(vstd::utf8::decode_utf8(t) == seq![first as char] + vstd::utf8::decode_utf8(s.skip(at + len)));
                assert(vstd::utf8::decode_utf8(t).map_values(|c: char| c as nat) =~= points);
            }
        }
    } else {
        assert(t =~= seq![]);
        assert(vstd::utf8::decode_utf8(t).map_values(|c: char| c as nat) =~= points);
    }
}

/// What Rust calls valid UTF-8 is what the decoder calls Rust-decodable, with the same code points.
pub proof fn law_rust_decodable_is_valid_utf8(s: Seq<u8>)
    ensures
        vstd::utf8::valid_utf8(s) <==> decode::rust_decodable(s),
        vstd::utf8::valid_utf8(s) ==> vstd::utf8::decode_utf8(s).map_values(|c: char| c as nat) == decode::code_points(s),
{
    assert(s.skip(0) =~= s);
    lemma_valid_utf8_from(s, 0);
}

/// The bytes of a `str` are Rust-decodable.
pub proof fn lemma_str_decodable(s: &str)
    ensures
        decode::rust_decodable(s.spec_bytes()),
        vstd::utf8::valid_utf8(s.spec_bytes()),
{
    vstd::utf8::encode_utf8_valid_utf8(s@);
    law_rust_decodable_is_valid_utf8(s.spec_bytes());
}

/// `std::str::from_utf8`: the text of `bytes` where they are valid UTF-8, and nothing where they are not.
#[verifier::external_body]
pub(crate) fn str_of(bytes: &[u8]) -> (r: Option<&str>)
    ensures
        r is Some <==> vstd::utf8::valid_utf8(bytes@),
        r is Some ==> (r->0).spec_bytes() == bytes@,
{
    std::str::from_utf8(bytes).ok()
}

} // verus!
