use vstd::prelude::*;
use vstd::arithmetic::div_mod::{lemma_fundamental_div_mod, lemma_fundamental_div_mod_converse};
use crate::msg::{MAVLinkMessage, MavHeader, MsgView};

verus! {

// ---------------------------------------------------------------------------
// The text form of an envelope.
//
// An envelope maps to one text unit with exactly two keys: the header, with
// its three numeric fields, and the message, whose bytes are the payload's
// own tagged-variant text form and pass through the codec untouched:
//
//   {"header":{"system_id":A,"component_id":B,"sequence":C},"message":M}
// ---------------------------------------------------------------------------
/// The opening of the text unit, up to the first header number.
pub open spec fn lit_header() -> Seq<u8> {
    seq![
        123, 34, 104, 101, 97, 100, 101, 114, 34, 58, 123, 34, 115, 121, 115,
        116, 101, 109, 95, 105, 100, 34, 58,
    ]
}

/// Between the first and the second header number.
pub open spec fn lit_component() -> Seq<u8> {
    seq![44, 34, 99, 111, 109, 112, 111, 110, 101, 110, 116, 95, 105, 100, 34, 58]
}

/// Between the second and the third header number.
pub open spec fn lit_sequence() -> Seq<u8> {
    seq![44, 34, 115, 101, 113, 117, 101, 110, 99, 101, 34, 58]
}

/// Closes the header and opens the message value.
pub open spec fn lit_message() -> Seq<u8> {
    seq![125, 44, 34, 109, 101, 115, 115, 97, 103, 101, 34, 58]
}

fn lit_header_vec() -> (v: Vec<u8>)
    ensures
        v@ == lit_header(),
{
    let mut v: Vec<u8> = Vec::new();
    v.push(123);
    v.push(34);
    v.push(104);
    v.push(101);
    v.push(97);
    v.push(100);
    v.push(101);
    v.push(114);
    v.push(34);
    v.push(58);
    v.push(123);
    v.push(34);
    v.push(115);
    v.push(121);
    v.push(115);
    v.push(116);
    v.push(101);
    v.push(109);
    v.push(95);
    v.push(105);
    v.push(100);
    v.push(34);
    v.push(58);
    proof {
        assert(v@ =~= lit_header());
    }
    v
}

fn lit_component_vec() -> (v: Vec<u8>)
    ensures
        v@ == lit_component(),
{
    let mut v: Vec<u8> = Vec::new();
    v.push(44);
    v.push(34);
    v.push(99);
    v.push(111);
    v.push(109);
    v.push(112);
    v.push(111);
    v.push(110);
    v.push(101);
    v.push(110);
    v.push(116);
    v.push(95);
    v.push(105);
    v.push(100);
    v.push(34);
    v.push(58);
    proof {
        assert(v@ =~= lit_component());
    }
    v
}

fn lit_sequence_vec() -> (v: Vec<u8>)
    ensures
        v@ == lit_sequence(),
{
    let mut v: Vec<u8> = Vec::new();
    v.push(44);
    v.push(34);
    v.push(115);
    v.push(101);
    v.push(113);
    v.push(117);
    v.push(101);
    v.push(110);
    v.push(99);
    v.push(101);
    v.push(34);
    v.push(58);
    proof {
        assert(v@ =~= lit_sequence());
    }
    v
}

fn lit_message_vec() -> (v: Vec<u8>)
    ensures
        v@ == lit_message(),
{
    let mut v: Vec<u8> = Vec::new();
    v.push(125);
    v.push(44);
    v.push(34);
    v.push(109);
    v.push(101);
    v.push(115);
    v.push(115);
    v.push(97);
    v.push(103);
    v.push(101);
    v.push(34);
    v.push(58);
    proof {
        assert(v@ =~= lit_message());
    }
    v
}

// ---------------------------------------------------------------------------
// Decimal numbers: the canonical form has no leading zero and no sign.
// ---------------------------------------------------------------------------
/// The decimal digits of `n`, for 0 <= n <= 255.
pub open spec fn dec_digits(n: int) -> Seq<u8> {
    if n < 10 {
        seq![(48 + n) as u8]
    } else if n < 100 {
        seq![(48 + n / 10) as u8, (48 + n % 10) as u8]
    } else {
        seq![(48 + n / 100) as u8, (48 + (n / 10) % 10) as u8, (48 + n % 10) as u8]
    }
}

pub open spec fn spec_dec_u8(n: u8) -> Seq<u8> {
    dec_digits(n as int)
}

fn push_dec_u8(out: &mut Vec<u8>, n: u8)
    ensures
        final(out)@ == old(out)@ + spec_dec_u8(n),
{
    if n < 10 {
        out.push(48 + n);
    } else if n < 100 {
        out.push(48 + n / 10);
        out.push(48 + n % 10);
    } else {
        out.push(48 + n / 100);
        out.push(48 + (n / 10) % 10);
        out.push(48 + n % 10);
    }
    proof {
        assert(out@ =~= old(out)@ + spec_dec_u8(n));
    }
}

fn push_all(out: &mut Vec<u8>, bytes: &Vec<u8>)
    ensures
        final(out)@ == old(out)@ + bytes@,
{
    let n = bytes.len();
    let mut k: usize = 0;
    while k < n
        invariant
            n == bytes@.len(),
            k <= n,
            out@ == old(out)@ + bytes@.take(k as int),
        decreases n - k,
    {
        out.push(bytes[k]);
        proof {
            assert(out@ =~= old(out)@ + bytes@.take(k + 1));
        }
        k += 1;
    }
    proof {
        assert(bytes@.take(n as int) =~= bytes@);
    }
}

// ---------------------------------------------------------------------------
// Encoding.
// ---------------------------------------------------------------------------
/// The text form of a header.
pub open spec fn spec_encode_header(h: MavHeader) -> Seq<u8> {
    lit_header() + spec_dec_u8(h.system_id) + lit_component() + spec_dec_u8(h.component_id)
        + lit_sequence() + spec_dec_u8(h.sequence)
}

/// The one text form of an envelope: one envelope, one text unit, nothing
/// filtered, compressed or batched.
pub open spec fn spec_encode(e: MsgView) -> Seq<u8> {
    spec_encode_header(e.header) + lit_message() + e.message + seq![125]
}

/// Encodes an envelope for publishing.
pub fn encode(e: &MAVLinkMessage) -> (out: Vec<u8>)
    ensures
        out@ == spec_encode(e@),
{
    let mut out: Vec<u8> = Vec::new();
    let l1 = lit_header_vec();
    push_all(&mut out, &l1);
    push_dec_u8(&mut out, e.header.system_id);
    let l2 = lit_component_vec();
    push_all(&mut out, &l2);
    push_dec_u8(&mut out, e.header.component_id);
    let l3 = lit_sequence_vec();
    push_all(&mut out, &l3);
    push_dec_u8(&mut out, e.header.sequence);
    let l4 = lit_message_vec();
    push_all(&mut out, &l4);
    push_all(&mut out, &e.message);
    out.push(125);
    proof {
        assert(out@ =~= spec_encode(e@));
    }
    out
}

// ---------------------------------------------------------------------------
// Tokens of the text grammar, for reading the structured form back. The
// decoder is tolerant the way the text grammar is: insignificant whitespace
// may stand between tokens and the keys of an object may come in any order.
// ---------------------------------------------------------------------------
/// The quoted key "header".
pub open spec fn key_header() -> Seq<u8> {
    seq![34, 104, 101, 97, 100, 101, 114, 34]
}

/// The quoted key "message".
pub open spec fn key_message() -> Seq<u8> {
    seq![34, 109, 101, 115, 115, 97, 103, 101, 34]
}

/// The quoted key "system_id".
pub open spec fn key_system() -> Seq<u8> {
    seq![34, 115, 121, 115, 116, 101, 109, 95, 105, 100, 34]
}

/// The quoted key "component_id".
pub open spec fn key_component() -> Seq<u8> {
    seq![34, 99, 111, 109, 112, 111, 110, 101, 110, 116, 95, 105, 100, 34]
}

/// The quoted key "sequence".
pub open spec fn key_sequence() -> Seq<u8> {
    seq![34, 115, 101, 113, 117, 101, 110, 99, 101, 34]
}

fn key_header_vec() -> (v: Vec<u8>)
    ensures
        v@ == key_header(),
{
    let mut v: Vec<u8> = Vec::new();
    v.push(34);
    v.push(104);
    v.push(101);
    v.push(97);
    v.push(100);
    v.push(101);
    v.push(114);
    v.push(34);
    proof {
        assert(v@ =~= key_header());
    }
    v
}

fn key_message_vec() -> (v: Vec<u8>)
    ensures
        v@ == key_message(),
{
    let mut v: Vec<u8> = Vec::new();
    v.push(34);
    v.push(109);
    v.push(101);
    v.push(115);
    v.push(115);
    v.push(97);
    v.push(103);
    v.push(101);
    v.push(34);
    proof {
        assert(v@ =~= key_message());
    }
    v
}

fn key_system_vec() -> (v: Vec<u8>)
    ensures
        v@ == key_system(),
{
    let mut v: Vec<u8> = Vec::new();
    v.push(34);
    v.push(115);
    v.push(121);
    v.push(115);
    v.push(116);
    v.push(101);
    v.push(109);
    v.push(95);
    v.push(105);
    v.push(100);
    v.push(34);
    proof {
        assert(v@ =~= key_system());
    }
    v
}

fn key_component_vec() -> (v: Vec<u8>)
    ensures
        v@ == key_component(),
{
    let mut v: Vec<u8> = Vec::new();
    v.push(34);
    v.push(99);
    v.push(111);
    v.push(109);
    v.push(112);
    v.push(111);
    v.push(110);
    v.push(101);
    v.push(110);
    v.push(116);
    v.push(95);
    v.push(105);
    v.push(100);
    v.push(34);
    proof {
        assert(v@ =~= key_component());
    }
    v
}

fn key_sequence_vec() -> (v: Vec<u8>)
    ensures
        v@ == key_sequence(),
{
    let mut v: Vec<u8> = Vec::new();
    v.push(34);
    v.push(115);
    v.push(101);
    v.push(113);
    v.push(117);
    v.push(101);
    v.push(110);
    v.push(99);
    v.push(101);
    v.push(34);
    proof {
        assert(v@ =~= key_sequence());
    }
    v
}

/// The text grammar's insignificant whitespace.
pub open spec fn is_ws(b: u8) -> bool {
    b == 32 || b == 9 || b == 10 || b == 13
}

/// The first position at or after `i` that holds no whitespace.
pub open spec fn spec_skip_ws(s: Seq<u8>, i: int) -> int
    decreases s.len() - i,
{
    if 0 <= i < s.len() && is_ws(s[i]) {
        spec_skip_ws(s, i + 1)
    } else {
        i
    }
}

proof fn lemma_skip_ws_bounds(s: Seq<u8>, i: int)
    requires
        0 <= i <= s.len(),
    ensures
        i <= spec_skip_ws(s, i) <= s.len(),
    decreases s.len() - i,
{
    if i < s.len() && is_ws(s[i]) {
        lemma_skip_ws_bounds(s, i + 1);
    }
}

fn skip_ws(s: &Vec<u8>, i: usize) -> (r: usize)
    requires
        i <= s@.len(),
    ensures
        r as int == spec_skip_ws(s@, i as int),
        i <= r <= s@.len(),
{
    let mut k = i;
    while k < s.len() && (s[k] == 32 || s[k] == 9 || s[k] == 10 || s[k] == 13)
        invariant
            i <= k <= s@.len(),
            spec_skip_ws(s@, i as int) == spec_skip_ws(s@, k as int),
        decreases s@.len() - k,
    {
        k += 1;
    }
    k
}

/// Bytes that may continue an unquoted scalar token: digits, letters, sign,
/// dot — enough to span any number or word the text grammar writes.
pub open spec fn is_scalar_byte(b: u8) -> bool {
    (48 <= b <= 57) || (97 <= b <= 122) || (65 <= b <= 90) || b == 43 || b == 45 || b == 46
}

/// The first position at or after `i` past the scalar token.
pub open spec fn spec_skip_scalar(s: Seq<u8>, i: int) -> int
    decreases s.len() - i,
{
    if 0 <= i < s.len() && is_scalar_byte(s[i]) {
        spec_skip_scalar(s, i + 1)
    } else {
        i
    }
}

proof fn lemma_skip_scalar_bounds(s: Seq<u8>, i: int)
    requires
        0 <= i <= s.len(),
    ensures
        i <= spec_skip_scalar(s, i) <= s.len(),
    decreases s.len() - i,
{
    if i < s.len() && is_scalar_byte(s[i]) {
        lemma_skip_scalar_bounds(s, i + 1);
    }
}

fn is_scalar_b(b: u8) -> (r: bool)
    ensures
        r == is_scalar_byte(b),
{
    (48 <= b && b <= 57) || (97 <= b && b <= 122) || (65 <= b && b <= 90) || b == 43 || b == 45
        || b == 46
}

fn skip_scalar(s: &Vec<u8>, i: usize) -> (r: usize)
    requires
        i <= s@.len(),
    ensures
        r as int == spec_skip_scalar(s@, i as int),
        i <= r <= s@.len(),
{
    let mut k = i;
    while k < s.len() && is_scalar_b(s[k])
        invariant
            i <= k <= s@.len(),
            spec_skip_scalar(s@, i as int) == spec_skip_scalar(s@, k as int),
        decreases s@.len() - k,
    {
        k += 1;
    }
    k
}

/// Scans to the end of a bracketed or quoted structure, counting nesting and
/// honouring string escapes, and yields the position just past its closing
/// byte. It checks no more than it must: what the message value holds is
/// judged by the schema, not here.
pub open spec fn spec_skip_structure(
    s: Seq<u8>,
    i: int,
    depth: int,
    in_str: bool,
    esc: bool,
) -> Option<int>
    decreases s.len() - i,
{
    if !(0 <= i < s.len()) {
        None
    } else {
        let b = s[i];
        if in_str {
            if esc {
                spec_skip_structure(s, i + 1, depth, true, false)
            } else if b == 92 {
                spec_skip_structure(s, i + 1, depth, true, true)
            } else if b == 34 {
                if depth == 0 {
                    Some(i + 1)
                } else {
                    spec_skip_structure(s, i + 1, depth, false, false)
                }
            } else {
                spec_skip_structure(s, i + 1, depth, true, false)
            }
        } else if b == 123 || b == 91 {
            spec_skip_structure(s, i + 1, depth + 1, false, false)
        } else if b == 125 || b == 93 {
            if depth == 1 {
                Some(i + 1)
            } else if depth <= 0 {
                None
            } else {
                spec_skip_structure(s, i + 1, depth - 1, false, false)
            }
        } else if b == 34 {
            spec_skip_structure(s, i + 1, depth, true, false)
        } else {
            spec_skip_structure(s, i + 1, depth, false, false)
        }
    }
}

fn skip_structure(s: &Vec<u8>, i: usize, depth0: usize, in_str0: bool) -> (r: Option<usize>)
    requires
        1 <= i <= s@.len(),
        depth0 <= 1,
    ensures
        match spec_skip_structure(s@, i as int, depth0 as int, in_str0, false) {
            Some(j) => r matches Some(v) && v as int == j && i < v <= s@.len(),
            None => r is None,
        },
{
    let mut k = i;
    let mut depth = depth0;
    let mut in_str = in_str0;
    let mut esc = false;
    while k < s.len()
        invariant
            1 <= i <= k <= s@.len(),
            depth <= 1 + k - i,
            !in_str ==> !esc,
            spec_skip_structure(s@, i as int, depth0 as int, in_str0, false)
                == spec_skip_structure(s@, k as int, depth as int, in_str, esc),
        decreases s@.len() - k,
    {
        let b = s[k];
        let ghost gk = k as int;
        let ghost gd = depth as int;
        let ghost gis = in_str;
        let ghost ges = esc;
        if in_str {
            if esc {
                esc = false;
            } else if b == 92 {
                esc = true;
            } else if b == 34 {
                if depth == 0 {
                    return Some(k + 1);
                } else {
                    in_str = false;
                }
            }
        } else if b == 123 || b == 91 {
            depth += 1;
        } else if b == 125 || b == 93 {
            if depth == 1 {
                return Some(k + 1);
            } else if depth == 0 {
                return None;
            } else {
                depth -= 1;
            }
        } else if b == 34 {
            in_str = true;
        }
        k += 1;
        proof {
            reveal_with_fuel(spec_skip_structure, 2);
            assert(spec_skip_structure(s@, gk, gd, gis, ges) == spec_skip_structure(
                s@,
                k as int,
                depth as int,
                in_str,
                esc,
            ));
        }
    }
    None
}

/// The position just past one whole value of the text grammar standing at
/// `i`: an object, a list, a string, or a scalar.
pub open spec fn spec_skip_value(s: Seq<u8>, i: int) -> Option<int> {
    if !(0 <= i < s.len()) {
        None
    } else if s[i] == 123 || s[i] == 91 {
        spec_skip_structure(s, i + 1, 1, false, false)
    } else if s[i] == 34 {
        spec_skip_structure(s, i + 1, 0, true, false)
    } else if is_scalar_byte(s[i]) {
        Some(spec_skip_scalar(s, i + 1))
    } else {
        None
    }
}

fn skip_value(s: &Vec<u8>, i: usize) -> (r: Option<usize>)
    requires
        i <= s@.len(),
    ensures
        match spec_skip_value(s@, i as int) {
            Some(j) => r matches Some(v) && v as int == j && i < v <= s@.len(),
            None => r is None,
        },
{
    if i >= s.len() {
        return None;
    }
    let b = s[i];
    if b == 123 || b == 91 {
        skip_structure(s, i + 1, 1, false)
    } else if b == 34 {
        skip_structure(s, i + 1, 0, true)
    } else if is_scalar_b(b) {
        proof {
            lemma_skip_scalar_bounds(s@, i + 1);
        }
        Some(skip_scalar(s, i + 1))
    } else {
        None
    }
}

// ---------------------------------------------------------------------------
// The direct decoding path: the structured envelope form, read back.
// ---------------------------------------------------------------------------
pub open spec fn is_digit(b: u8) -> bool {
    48 <= b <= 57
}

/// Whether a digit stands at position `i`.
pub open spec fn digit_at(s: Seq<u8>, i: int) -> bool {
    0 <= i < s.len() && is_digit(s[i])
}

/// Whether `lit` stands at position `i` of `s`.
pub open spec fn match_at(s: Seq<u8>, i: int, lit: Seq<u8>) -> bool {
    0 <= i && i + lit.len() <= s.len() && s.subrange(i, i + lit.len()) == lit
}

/// Reads a canonical decimal number at position `i`: one to three digits, no
/// leading zero, no longer run of digits after it, value at most 255.
pub open spec fn spec_parse_u8(s: Seq<u8>, i: int) -> Option<(u8, int)> {
    if !digit_at(s, i) {
        None
    } else if !digit_at(s, i + 1) {
        Some(((s[i] - 48) as u8, i + 1))
    } else if s[i] == 48 {
        None
    } else if !digit_at(s, i + 2) {
        Some((((s[i] - 48) * 10 + (s[i + 1] - 48)) as u8, i + 2))
    } else if digit_at(s, i + 3) {
        None
    } else {
        let v = (s[i] - 48) * 100 + (s[i + 1] - 48) * 10 + (s[i + 2] - 48);
        if v <= 255 {
            Some((v as u8, i + 3))
        } else {
            None
        }
    }
}

/// Whether the payload bytes span exactly one value of the text grammar —
/// true of the text form of any schema message.
pub open spec fn is_value_text(m: Seq<u8>) -> bool {
    spec_skip_value(m, 0) == Some(m.len() as int)
}

/// One header field: one of the three header keys, a colon, a number, each
/// with whitespace around; yields which key (0 system, 1 component, 2
/// sequence), the value, and the position after trailing whitespace.
pub open spec fn spec_parse_field(s: Seq<u8>, i: int) -> Option<(int, u8, int)> {
    let key: int = if match_at(s, i, key_system()) {
        0
    } else if match_at(s, i, key_component()) {
        1
    } else if match_at(s, i, key_sequence()) {
        2
    } else {
        3
    };
    let klen: int = if key == 0 {
        key_system().len() as int
    } else if key == 1 {
        key_component().len() as int
    } else {
        key_sequence().len() as int
    };
    if key == 3 {
        None
    } else {
        let j = spec_skip_ws(s, i + klen);
        if j < s.len() && s[j] == 58 {
            let k = spec_skip_ws(s, j + 1);
            match spec_parse_u8(s, k) {
                Some((v, k2)) => Some((key, v, spec_skip_ws(s, k2))),
                None => None,
            }
        } else {
            None
        }
    }
}

/// A header object: an opening brace, the three header fields, each exactly
/// once and in any order, and a closing brace; yields the header and the
/// position just past the brace.
pub open spec fn spec_parse_header_obj(s: Seq<u8>, i: int) -> Option<(MavHeader, int)> {
    if !(0 <= i < s.len() && s[i] == 123) {
        None
    } else {
        match spec_parse_field(s, spec_skip_ws(s, i + 1)) {
            Some((k1, v1, i2)) => if i2 < s.len() && s[i2] == 44 {
                match spec_parse_field(s, spec_skip_ws(s, i2 + 1)) {
                    Some((k2, v2, i4)) => if k2 != k1 && i4 < s.len() && s[i4] == 44 {
                        match spec_parse_field(s, spec_skip_ws(s, i4 + 1)) {
                            Some((k3, v3, i6)) => if k3 != k1 && k3 != k2 && i6 < s.len() && s[i6]
                                == 125 {
                                let sys = if k1 == 0 { v1 } else if k2 == 0 { v2 } else { v3 };
                                let comp = if k1 == 1 { v1 } else if k2 == 1 { v2 } else { v3 };
                                let seqn = if k1 == 2 { v1 } else if k2 == 2 { v2 } else { v3 };
                                Some(
                                    (MavHeader {
                                        system_id: sys,
                                        component_id: comp,
                                        sequence: seqn,
                                    }, i6 + 1),
                                )
                            } else {
                                None
                            },
                            None => None,
                        }
                    } else {
                        None
                    },
                    None => None,
                }
            } else {
                None
            },
            None => None,
        }
    }
}

/// After the key "header": a colon, then the header object.
pub open spec fn spec_header_kv(s: Seq<u8>, i: int) -> Option<(MavHeader, int)> {
    let j = spec_skip_ws(s, i + key_header().len());
    if j < s.len() && s[j] == 58 {
        spec_parse_header_obj(s, spec_skip_ws(s, j + 1))
    } else {
        None
    }
}

/// After the key "message": a colon, then one value of the grammar; yields
/// where the value's bytes begin and end.
pub open spec fn spec_message_kv(s: Seq<u8>, i: int) -> Option<(int, int)> {
    let j = spec_skip_ws(s, i + key_message().len());
    if j < s.len() && s[j] == 58 {
        let v0 = spec_skip_ws(s, j + 1);
        match spec_skip_value(s, v0) {
            Some(v1) => Some((v0, v1)),
            None => None,
        }
    } else {
        None
    }
}

/// The closing brace of the envelope, with nothing but whitespace after it.
pub open spec fn spec_finish(s: Seq<u8>, h: MavHeader, v0: int, v1: int, i: int) -> Option<
    MsgView,
> {
    if i < s.len() && s[i] == 125 && spec_skip_ws(s, i + 1) == s.len() {
        Some(MsgView { header: h, message: s.subrange(v0, v1) })
    } else {
        None
    }
}

/// Reads a whole text value as one structured envelope: an object with
/// exactly the keys `header` and `message`, in either order, `header` a
/// header object and `message` any one value of the grammar, whose bytes
/// pass through untouched. Whitespace may stand between any two tokens.
pub open spec fn spec_parse_direct(s: Seq<u8>) -> Option<MsgView> {
    let i0 = spec_skip_ws(s, 0);
    if !(0 <= i0 < s.len() && s[i0] == 123) {
        None
    } else {
        let i1 = spec_skip_ws(s, i0 + 1);
        if match_at(s, i1, key_header()) {
            match spec_header_kv(s, i1) {
                Some((h, hend)) => {
                    let i3 = spec_skip_ws(s, hend);
                    if i3 < s.len() && s[i3] == 44 {
                        let i4 = spec_skip_ws(s, i3 + 1);
                        if match_at(s, i4, key_message()) {
                            match spec_message_kv(s, i4) {
                                Some((v0, v1)) => spec_finish(s, h, v0, v1, spec_skip_ws(s, v1)),
                                None => None,
                            }
                        } else {
                            None
                        }
                    } else {
                        None
                    }
                },
                None => None,
            }
        } else if match_at(s, i1, key_message()) {
            match spec_message_kv(s, i1) {
                Some((v0, v1)) => {
                    let i3 = spec_skip_ws(s, v1);
                    if i3 < s.len() && s[i3] == 44 {
                        let i4 = spec_skip_ws(s, i3 + 1);
                        if match_at(s, i4, key_header()) {
                            match spec_header_kv(s, i4) {
                                Some((h, hend)) => spec_finish(
                                    s,
                                    h,
                                    v0,
                                    v1,
                                    spec_skip_ws(s, hend),
                                ),
                                None => None,
                            }
                        } else {
                            None
                        }
                    } else {
                        None
                    }
                },
                None => None,
            }
        } else {
            None
        }
    }
}

/// Whether `lit` stands at position `i` of `s`.
fn match_lit(s: &Vec<u8>, i: usize, lit: &Vec<u8>) -> (r: bool)
    ensures
        r == match_at(s@, i as int, lit@),
{
    let m = lit.len();
    let n = s.len();
    if m > n || i > n - m {
        return false;
    }
    let mut j: usize = 0;
    while j < m
        invariant
            m == lit@.len(),
            n == s@.len(),
            i + m <= n,
            j <= m,
            forall|t: int| 0 <= t < j ==> s@[i + t] == lit@[t],
        decreases m - j,
    {
        if s[i + j] != lit[j] {
            proof {
                if match_at(s@, i as int, lit@) {
                    assert(s@.subrange(i as int, i + lit@.len())[j as int] == lit@[j as int]);
                }
            }
            return false;
        }
        j += 1;
    }
    proof {
        assert(s@.subrange(i as int, i + lit@.len()) =~= lit@);
    }
    true
}

/// Reads a canonical decimal number at position `i`.
fn parse_u8_at(s: &Vec<u8>, i: usize) -> (r: Option<(u8, usize)>)
    ensures
        match spec_parse_u8(s@, i as int) {
            Some((n, j)) => r matches Some(p) && p.0 == n && p.1 as int == j,
            None => r is None,
        },
{
    let n = s.len();
    if i >= n || s[i] < 48 || s[i] > 57 {
        return None;
    }
    if i + 1 >= n || s[i + 1] < 48 || s[i + 1] > 57 {
        return Some((s[i] - 48, i + 1));
    }
    if s[i] == 48 {
        return None;
    }
    if i + 2 >= n || s[i + 2] < 48 || s[i + 2] > 57 {
        return Some(((s[i] - 48) * 10 + (s[i + 1] - 48), i + 2));
    }
    if i + 3 < n && s[i + 3] >= 48 && s[i + 3] <= 57 {
        return None;
    }
    let v: u32 = (s[i] - 48) as u32 * 100 + (s[i + 1] - 48) as u32 * 10 + (s[i + 2] - 48) as u32;
    if v <= 255 {
        Some((v as u8, i + 3))
    } else {
        None
    }
}

fn parse_field(s: &Vec<u8>, i: usize) -> (r: Option<(u8, u8, usize)>)
    requires
        i <= s@.len(),
    ensures
        match spec_parse_field(s@, i as int) {
            Some((key, v, j)) => r matches Some(p) && p.0 as int == key && p.1 == v && p.2 as int
                == j && j <= s@.len(),
            None => r is None,
        },
{
    let ks = key_system_vec();
    let kc = key_component_vec();
    let kq = key_sequence_vec();
    let (key, klen): (u8, usize) = if match_lit(s, i, &ks) {
        (0, ks.len())
    } else if match_lit(s, i, &kc) {
        (1, kc.len())
    } else if match_lit(s, i, &kq) {
        (2, kq.len())
    } else {
        (3, 0)
    };
    if key == 3 {
        return None;
    }
    let n = s.len();
    proof {
        assert(i + klen <= n);
    }
    let j = skip_ws(s, i + klen);
    if j >= s.len() || s[j] != 58 {
        return None;
    }
    let k = skip_ws(s, j + 1);
    match parse_u8_at(s, k) {
        Some(p) => {
            let (v, k2) = p;
            Some((key, v, skip_ws(s, k2)))
        },
        None => None,
    }
}

fn parse_header_obj(s: &Vec<u8>, i: usize) -> (r: Option<(MavHeader, usize)>)
    requires
        i <= s@.len(),
    ensures
        match spec_parse_header_obj(s@, i as int) {
            Some((h, j)) => r matches Some(p) && p.0 == h && p.1 as int == j && j <= s@.len(),
            None => r is None,
        },
{
    if i >= s.len() || s[i] != 123 {
        return None;
    }
    let f1 = parse_field(s, skip_ws(s, i + 1));
    let (k1, v1, i2) = match f1 {
        Some(p) => p,
        None => {
            return None;
        },
    };
    if i2 >= s.len() || s[i2] != 44 {
        return None;
    }
    let f2 = parse_field(s, skip_ws(s, i2 + 1));
    let (k2, v2, i4) = match f2 {
        Some(p) => p,
        None => {
            return None;
        },
    };
    if k2 == k1 || i4 >= s.len() || s[i4] != 44 {
        return None;
    }
    let f3 = parse_field(s, skip_ws(s, i4 + 1));
    let (k3, v3, i6) = match f3 {
        Some(p) => p,
        None => {
            return None;
        },
    };
    if k3 == k1 || k3 == k2 || i6 >= s.len() || s[i6] != 125 {
        return None;
    }
    let sys = if k1 == 0 { v1 } else if k2 == 0 { v2 } else { v3 };
    let comp = if k1 == 1 { v1 } else if k2 == 1 { v2 } else { v3 };
    let seqn = if k1 == 2 { v1 } else if k2 == 2 { v2 } else { v3 };
    Some((MavHeader { system_id: sys, component_id: comp, sequence: seqn }, i6 + 1))
}

fn header_kv(s: &Vec<u8>, i: usize) -> (r: Option<(MavHeader, usize)>)
    requires
        i + key_header().len() <= s@.len(),
    ensures
        match spec_header_kv(s@, i as int) {
            Some((h, j)) => r matches Some(p) && p.0 == h && p.1 as int == j && j <= s@.len(),
            None => r is None,
        },
{
    let n = s.len();
    proof {
        assert(key_header().len() == 8);
        assert(i + 8 <= n);
    }
    let j = skip_ws(s, i + 8);
    if j >= s.len() || s[j] != 58 {
        return None;
    }
    parse_header_obj(s, skip_ws(s, j + 1))
}

fn message_kv(s: &Vec<u8>, i: usize) -> (r: Option<(usize, usize)>)
    requires
        i + key_message().len() <= s@.len(),
    ensures
        match spec_message_kv(s@, i as int) {
            Some((v0, v1)) => r matches Some(p) && p.0 as int == v0 && p.1 as int == v1 && v0 <= v1
                <= s@.len(),
            None => r is None,
        },
{
    let n = s.len();
    proof {
        assert(key_message().len() == 9);
        assert(i + 9 <= n);
    }
    let j = skip_ws(s, i + 9);
    if j >= s.len() || s[j] != 58 {
        return None;
    }
    let v0 = skip_ws(s, j + 1);
    match skip_value(s, v0) {
        Some(v1) => Some((v0, v1)),
        None => None,
    }
}

fn copy_range(s: &Vec<u8>, from: usize, to: usize) -> (r: Vec<u8>)
    requires
        from <= to <= s@.len(),
    ensures
        r@ == s@.subrange(from as int, to as int),
{
    let mut out: Vec<u8> = Vec::new();
    let mut k = from;
    while k < to
        invariant
            from <= k <= to <= s@.len(),
            out@ == s@.subrange(from as int, k as int),
        decreases to - k,
    {
        out.push(s[k]);
        proof {
            assert(out@ =~= s@.subrange(from as int, k + 1));
        }
        k += 1;
    }
    out
}

/// The direct decoding path as executable code.
pub fn parse_direct(s: &Vec<u8>) -> (r: Option<MAVLinkMessage>)
    ensures
        match spec_parse_direct(s@) {
            Some(ev) => r matches Some(e) && e@ == ev,
            None => r is None,
        },
{
    let i0 = skip_ws(s, 0);
    if i0 >= s.len() || s[i0] != 123 {
        return None;
    }
    let i1 = skip_ws(s, i0 + 1);
    let kh = key_header_vec();
    let km = key_message_vec();
    if match_lit(s, i1, &kh) {
        let (h, hend) = match header_kv(s, i1) {
            Some(p) => p,
            None => {
                return None;
            },
        };
        let i3 = skip_ws(s, hend);
        if i3 >= s.len() || s[i3] != 44 {
            return None;
        }
        let i4 = skip_ws(s, i3 + 1);
        if !match_lit(s, i4, &km) {
            return None;
        }
        let (v0, v1) = match message_kv(s, i4) {
            Some(p) => p,
            None => {
                return None;
            },
        };
        let i5 = skip_ws(s, v1);
        if i5 >= s.len() || s[i5] != 125 {
            return None;
        }
        if skip_ws(s, i5 + 1) != s.len() {
            return None;
        }
        Some(MAVLinkMessage { header: h, message: copy_range(s, v0, v1) })
    } else if match_lit(s, i1, &km) {
        let (v0, v1) = match message_kv(s, i1) {
            Some(p) => p,
            None => {
                return None;
            },
        };
        let i3 = skip_ws(s, v1);
        if i3 >= s.len() || s[i3] != 44 {
            return None;
        }
        let i4 = skip_ws(s, i3 + 1);
        if !match_lit(s, i4, &kh) {
            return None;
        }
        let (h, hend) = match header_kv(s, i4) {
            Some(p) => p,
            None => {
                return None;
            },
        };
        let i5 = skip_ws(s, hend);
        if i5 >= s.len() || s[i5] != 125 {
            return None;
        }
        if skip_ws(s, i5 + 1) != s.len() {
            return None;
        }
        Some(MAVLinkMessage { header: h, message: copy_range(s, v0, v1) })
    } else {
        None
    }
}

// ---------------------------------------------------------------------------
// The fallback decoding path: the whole envelope text wrapped once more as a
// quoted text string, with its quotes and backslashes escaped.
// ---------------------------------------------------------------------------
/// How one byte appears inside a quoted string.
pub open spec fn esc_byte(b: u8) -> Seq<u8> {
    if b == 34 || b == 92 {
        seq![92, b]
    } else {
        seq![b]
    }
}

/// The body of the quoted form of `m`.
pub open spec fn spec_escape(m: Seq<u8>) -> Seq<u8>
    decreases m.len(),
{
    if m.len() == 0 {
        Seq::empty()
    } else {
        esc_byte(m[0]) + spec_escape(m.drop_first())
    }
}

/// The quoted form of `m`: what writing `m` once more as a text string gives.
pub open spec fn spec_quote(m: Seq<u8>) -> Seq<u8> {
    seq![34] + spec_escape(m) + seq![34]
}

/// The value of one hexadecimal digit.
pub open spec fn hex_digit_val(b: u8) -> Option<int> {
    if 48 <= b <= 57 {
        Some((b - 48) as int)
    } else if 97 <= b <= 102 {
        Some((b - 87) as int)
    } else if 65 <= b <= 70 {
        Some((b - 55) as int)
    } else {
        None
    }
}

/// The value of four hexadecimal digits standing at `i`.
pub open spec fn spec_hex4(s: Seq<u8>, i: int) -> Option<int> {
    if 0 <= i && i + 4 <= s.len() {
        match (hex_digit_val(s[i]), hex_digit_val(s[i + 1]), hex_digit_val(s[i + 2]), hex_digit_val(
            s[i + 3],
        )) {
            (Some(a), Some(b), Some(c), Some(d)) => Some(a * 4096 + b * 256 + c * 16 + d),
            _ => None,
        }
    } else {
        None
    }
}

/// The byte encoding of one code point, in the usual one-to-four-byte form.
pub open spec fn utf8_enc(cp: int) -> Seq<u8> {
    if cp < 128 {
        seq![cp as u8]
    } else if cp < 2048 {
        seq![(192 + cp / 64) as u8, (128 + cp % 64) as u8]
    } else if cp < 65536 {
        seq![(224 + cp / 4096) as u8, (128 + (cp / 64) % 64) as u8, (128 + cp % 64) as u8]
    } else {
        seq![
            (240 + cp / 262144) as u8,
            (128 + (cp / 4096) % 64) as u8,
            (128 + (cp / 64) % 64) as u8,
            (128 + cp % 64) as u8,
        ]
    }
}

pub open spec fn body_prepend(p: Seq<u8>, o: Option<(Seq<u8>, int)>) -> Option<(Seq<u8>, int)> {
    match o {
        Some((t, j)) => Some((p + t, j)),
        None => None,
    }
}

/// Reads the rest of a quoted string from position `i` up to its closing
/// quote, undoing the string escapes of the text grammar — the short ones
/// and the four-digit ones, surrogate pairs included; raw control bytes and
/// unknown escapes are refused, as the grammar refuses them. Yields the
/// content and the position just past the closing quote.
pub open spec fn spec_unquote_body(s: Seq<u8>, i: int) -> Option<(Seq<u8>, int)>
    decreases s.len() - i,
{
    if !(0 <= i < s.len()) {
        None
    } else if s[i] == 34 {
        Some((Seq::empty(), i + 1))
    } else if s[i] == 92 {
        if i + 1 < s.len() {
            let e = s[i + 1];
            if e == 34 || e == 92 || e == 47 {
                body_prepend(seq![e], spec_unquote_body(s, i + 2))
            } else if e == 98 {
                body_prepend(seq![8], spec_unquote_body(s, i + 2))
            } else if e == 102 {
                body_prepend(seq![12], spec_unquote_body(s, i + 2))
            } else if e == 110 {
                body_prepend(seq![10], spec_unquote_body(s, i + 2))
            } else if e == 114 {
                body_prepend(seq![13], spec_unquote_body(s, i + 2))
            } else if e == 116 {
                body_prepend(seq![9], spec_unquote_body(s, i + 2))
            } else if e == 117 {
                match spec_hex4(s, i + 2) {
                    Some(hi) => if 55296 <= hi < 56320 {
                        if i + 12 <= s.len() && s[i + 6] == 92 && s[i + 7] == 117 {
                            match spec_hex4(s, i + 8) {
                                Some(lo) => if 56320 <= lo < 57344 {
                                    body_prepend(
                                        utf8_enc(65536 + (hi - 55296) * 1024 + (lo - 56320)),
                                        spec_unquote_body(s, i + 12),
                                    )
                                } else {
                                    None
                                },
                                None => None,
                            }
                        } else {
                            None
                        }
                    } else if 56320 <= hi < 57344 {
                        None
                    } else {
                        body_prepend(utf8_enc(hi), spec_unquote_body(s, i + 6))
                    },
                    None => None,
                }
            } else {
                None
            }
        } else {
            None
        }
    } else if s[i] < 32 {
        None
    } else {
        body_prepend(seq![s[i]], spec_unquote_body(s, i + 1))
    }
}

/// Reads a whole text value as one quoted string, if, up to surrounding
/// whitespace, it is one.
pub open spec fn spec_unquote(s: Seq<u8>) -> Option<Seq<u8>> {
    let i0 = spec_skip_ws(s, 0);
    if 0 <= i0 < s.len() && s[i0] == 34 {
        match spec_unquote_body(s, i0 + 1) {
            Some((t, j)) => if spec_skip_ws(s, j) == s.len() {
                Some(t)
            } else {
                None
            },
            None => None,
        }
    } else {
        None
    }
}

fn hex4(s: &Vec<u8>, i: usize) -> (r: Option<u32>)
    ensures
        match spec_hex4(s@, i as int) {
            Some(v) => r matches Some(x) && x as int == v && 0 <= v < 65536,
            None => r is None,
        },
{
    if s.len() < 4 || i > s.len() - 4 {
        return None;
    }
    let a = match hex_digit(s[i]) {
        Some(d) => d,
        None => {
            return None;
        },
    };
    let b = match hex_digit(s[i + 1]) {
        Some(d) => d,
        None => {
            return None;
        },
    };
    let c = match hex_digit(s[i + 2]) {
        Some(d) => d,
        None => {
            return None;
        },
    };
    let d = match hex_digit(s[i + 3]) {
        Some(d) => d,
        None => {
            return None;
        },
    };
    Some(a as u32 * 4096 + b as u32 * 256 + c as u32 * 16 + d as u32)
}

fn hex_digit(b: u8) -> (r: Option<u8>)
    ensures
        match hex_digit_val(b) {
            Some(v) => r matches Some(x) && x as int == v && 0 <= v < 16,
            None => r is None,
        },
{
    if 48 <= b && b <= 57 {
        Some(b - 48)
    } else if 97 <= b && b <= 102 {
        Some(b - 87)
    } else if 65 <= b && b <= 70 {
        Some(b - 55)
    } else {
        None
    }
}

fn push_utf8(acc: &mut Vec<u8>, cp: u32)
    requires
        cp < 1114112,
    ensures
        final(acc)@ == old(acc)@ + utf8_enc(cp as int),
{
    proof {
        lemma_fundamental_div_mod(cp as int, 64);
        lemma_fundamental_div_mod(cp as int, 4096);
        lemma_fundamental_div_mod(cp as int, 262144);
    }
    if cp < 128 {
        acc.push(cp as u8);
    } else if cp < 2048 {
        acc.push((192 + cp / 64) as u8);
        acc.push((128 + cp % 64) as u8);
    } else if cp < 65536 {
        acc.push((224 + cp / 4096) as u8);
        acc.push((128 + (cp / 64) % 64) as u8);
        acc.push((128 + cp % 64) as u8);
    } else {
        acc.push((240 + cp / 262144) as u8);
        acc.push((128 + (cp / 4096) % 64) as u8);
        acc.push((128 + (cp / 64) % 64) as u8);
        acc.push((128 + cp % 64) as u8);
    }
    proof {
        assert(acc@ =~= old(acc)@ + utf8_enc(cp as int));
    }
}

/// Unwraps a quoted text string, undoing its escapes.
pub fn unquote(s: &Vec<u8>) -> (r: Option<Vec<u8>>)
    ensures
        match spec_unquote(s@) {
            Some(t) => r matches Some(v) && v@ == t,
            None => r is None,
        },
{
    let i0 = skip_ws(s, 0);
    if i0 >= s.len() || s[i0] != 34 {
        return None;
    }
    let ghost start: int = i0 + 1;
    let mut acc: Vec<u8> = Vec::new();
    let mut i: usize = i0 + 1;
    proof {
        match spec_unquote_body(s@, start) {
            Some((t, j)) => {
                assert(Seq::<u8>::empty() + t =~= t);
            },
            None => {},
        }
    }
    while i < s.len()
        invariant
            spec_skip_ws(s@, 0) == i0 as int,
            i0 < s@.len(),
            s@[i0 as int] == 34,
            start == i0 + 1,
            start <= i <= s@.len(),
            body_prepend(acc@, spec_unquote_body(s@, i as int)) == spec_unquote_body(s@, start),
        decreases s@.len() - i,
    {
        let b = s[i];
        if b == 34 {
            proof {
                assert(acc@ + Seq::<u8>::empty() =~= acc@);
            }
            if skip_ws(s, i + 1) == s.len() {
                return Some(acc);
            } else {
                return None;
            }
        } else if b == 92 {
            if i + 1 >= s.len() {
                return None;
            }
            let e = s[i + 1];
            let ghost before = acc@;
            if e == 34 || e == 92 || e == 47 {
                acc.push(e);
                proof {
                    lemma_body_step(before, seq![e], s@, i + 2);
                }
                i += 2;
            } else if e == 98 {
                acc.push(8);
                proof {
                    lemma_body_step(before, seq![8u8], s@, i + 2);
                }
                i += 2;
            } else if e == 102 {
                acc.push(12);
                proof {
                    lemma_body_step(before, seq![12u8], s@, i + 2);
                }
                i += 2;
            } else if e == 110 {
                acc.push(10);
                proof {
                    lemma_body_step(before, seq![10u8], s@, i + 2);
                }
                i += 2;
            } else if e == 114 {
                acc.push(13);
                proof {
                    lemma_body_step(before, seq![13u8], s@, i + 2);
                }
                i += 2;
            } else if e == 116 {
                acc.push(9);
                proof {
                    lemma_body_step(before, seq![9u8], s@, i + 2);
                }
                i += 2;
            } else if e == 117 {
                let hi = match hex4(s, i + 2) {
                    Some(v) => v,
                    None => {
                        return None;
                    },
                };
                if 55296 <= hi && hi < 56320 {
                    if s.len() >= 12 && i <= s.len() - 12 && s[i + 6] == 92 && s[i + 7] == 117 {
                        let lo = match hex4(s, i + 8) {
                            Some(v) => v,
                            None => {
                                return None;
                            },
                        };
                        if 56320 <= lo && lo < 57344 {
                            let cp = 65536 + (hi - 55296) * 1024 + (lo - 56320);
                            push_utf8(&mut acc, cp);
                            proof {
                                lemma_body_step(before, utf8_enc(cp as int), s@, i + 12);
                            }
                            i += 12;
                        } else {
                            return None;
                        }
                    } else {
                        return None;
                    }
                } else if 56320 <= hi && hi < 57344 {
                    return None;
                } else {
                    push_utf8(&mut acc, hi);
                    proof {
                        lemma_body_step(before, utf8_enc(hi as int), s@, i + 6);
                    }
                    i += 6;
                }
            } else {
                return None;
            }
        } else if b < 32 {
            return None;
        } else {
            let ghost before = acc@;
            acc.push(b);
            proof {
                lemma_body_step(before, seq![b], s@, i + 1);
            }
            i += 1;
        }
    }
    None
}

/// Prepending distributes over one more decoded piece.
proof fn lemma_body_step(before: Seq<u8>, piece: Seq<u8>, s: Seq<u8>, next: int)
    ensures
        body_prepend(before + piece, spec_unquote_body(s, next)) == body_prepend(
            before,
            body_prepend(piece, spec_unquote_body(s, next)),
        ),
{
    match spec_unquote_body(s, next) {
        Some((t, j)) => {
            assert((before + piece) + t =~= before + (piece + t));
        },
        None => {},
    }
}

// ---------------------------------------------------------------------------
// The full decoder and its one reliance on the vehicle protocol library.
// ---------------------------------------------------------------------------
/// Whether the vehicle protocol's schema recognizes these bytes as the text
/// form of one of its messages: what the external message parser accepts.
pub uninterp spec fn is_mav_json(bytes: Seq<u8>) -> bool;

/// Relies on serde_json::from_slice for the vehicle dialect's message type:
/// whether the bytes deserialize into a schema message depends on the bytes
/// alone.
#[verifier::external_body]
fn mav_message_parses(bytes: &Vec<u8>) -> (r: bool)
    ensures
        r == is_mav_json(bytes@),
{
    serde_json::from_slice::<mavlink::ardupilotmega::MavMessage>(bytes.as_slice()).is_ok()
}

/// The direct path, with the payload held to the schema: a structured
/// envelope whose message the vehicle protocol recognizes.
pub open spec fn spec_accept(s: Seq<u8>) -> Option<MsgView> {
    match spec_parse_direct(s) {
        Some(ev) => if is_mav_json(ev.message) {
            Some(ev)
        } else {
            None
        },
        None => None,
    }
}

/// The decode protocol, first success wins: the structured envelope form,
/// else that form wrapped once more as a quoted string, else nothing.
pub open spec fn spec_decode(s: Seq<u8>) -> Option<MsgView> {
    match spec_accept(s) {
        Some(ev) => Some(ev),
        None => match spec_unquote(s) {
            Some(inner) => spec_accept(inner),
            None => None,
        },
    }
}

fn accept(s: &Vec<u8>) -> (r: Option<MAVLinkMessage>)
    ensures
        match spec_accept(s@) {
            Some(ev) => r matches Some(e) && e@ == ev,
            None => r is None,
        },
{
    match parse_direct(s) {
        Some(e) => if mav_message_parses(&e.message) {
            Some(e)
        } else {
            None
        },
        None => None,
    }
}

/// Decodes an inbound text value into an envelope, or refuses it. A refused
/// value is dropped by the caller: nothing is sent to the vehicle for it.
pub fn decode(s: &Vec<u8>) -> (r: Option<MAVLinkMessage>)
    ensures
        match spec_decode(s@) {
            Some(ev) => r matches Some(e) && e@ == ev,
            None => r is None,
        },
{
    match accept(s) {
        Some(e) => Some(e),
        None => match unquote(s) {
            Some(inner) => accept(&inner),
            None => None,
        },
    }
}

// ---------------------------------------------------------------------------
// The codec's laws.
// ---------------------------------------------------------------------------
proof fn lemma_dec_digits_bounds(n: int)
    requires
        0 <= n <= 255,
    ensures
        1 <= dec_digits(n).len() <= 3,
        forall|i: int| 0 <= i < dec_digits(n).len() ==> is_digit(#[trigger] dec_digits(n)[i]),
        n >= 10 ==> dec_digits(n)[0] != 48,
{
    if n < 10 {
    } else if n < 100 {
        lemma_fundamental_div_mod(n, 10);
        assert(1 <= n / 10 <= 9);
    } else {
        lemma_fundamental_div_mod(n, 10);
        lemma_fundamental_div_mod(n / 10, 10);
        lemma_fundamental_div_mod_converse(n, 100, (n / 10) / 10, 10 * ((n / 10) % 10) + n % 10);
        assert(1 <= n / 100 <= 2);
    }
}

proof fn lemma_parse_dec_at(s: Seq<u8>, i: int, n: u8)
    requires
        0 <= i,
        i + spec_dec_u8(n).len() < s.len(),
        s.subrange(i, i + spec_dec_u8(n).len() as int) == spec_dec_u8(n),
        !is_digit(s[i + spec_dec_u8(n).len()]),
    ensures
        spec_parse_u8(s, i) == Some((n, i + spec_dec_u8(n).len() as int)),
{
    let d = spec_dec_u8(n);
    let j: int = i + d.len() as int;
    lemma_dec_digits_bounds(n as int);
    assert(s[i] == s.subrange(i, j)[0]);
    if d.len() >= 2 {
        assert(s[i + 1] == s.subrange(i, j)[1]);
    }
    if d.len() == 3 {
        assert(s[i + 2] == s.subrange(i, j)[2]);
    }
    if n < 10 {
        assert(s[i] == 48 + n);
        assert(!digit_at(s, i + 1));
    } else if n < 100 {
        lemma_fundamental_div_mod(n as int, 10);
        assert(1 <= n as int / 10 <= 9);
        assert(s[i] == (48 + n as int / 10) as u8);
        assert(s[i + 1] == (48 + n as int % 10) as u8);
        assert(!digit_at(s, i + 2));
        assert((s[i] - 48) * 10 + (s[i + 1] - 48) == n as int);
    } else {
        lemma_fundamental_div_mod(n as int, 10);
        lemma_fundamental_div_mod(n as int / 10, 10);
        lemma_fundamental_div_mod_converse(
            n as int,
            100,
            (n as int / 10) / 10,
            10 * ((n as int / 10) % 10) + n as int % 10,
        );
        assert(1 <= n as int / 100 <= 2);
        assert(s[i] == (48 + n as int / 100) as u8);
        assert(s[i + 1] == (48 + (n as int / 10) % 10) as u8);
        assert(s[i + 2] == (48 + n as int % 10) as u8);
        assert(!digit_at(s, i + 3));
        assert((s[i] - 48) * 100 + (s[i + 1] - 48) * 10 + (s[i + 2] - 48) == n as int);
    }
}

/// A structure scan that ends exactly at the end of `m` ends at the same
/// place when `m` stands embedded in a longer text.
proof fn lemma_skip_structure_shift(
    m: Seq<u8>,
    s: Seq<u8>,
    off: int,
    i: int,
    depth: int,
    in_str: bool,
    esc: bool,
)
    requires
        0 <= off,
        off + m.len() <= s.len(),
        s.subrange(off, off + m.len()) == m,
        0 <= i <= m.len(),
        spec_skip_structure(m, i, depth, in_str, esc) == Some(m.len() as int),
    ensures
        spec_skip_structure(s, off + i, depth, in_str, esc) == Some(off + m.len()),
    decreases m.len() - i,
{
    assert(i < m.len());
    assert(s[off + i] == s.subrange(off, off + m.len())[i]);
    let b = m[i];
    if in_str {
        if esc {
            lemma_skip_structure_shift(m, s, off, i + 1, depth, true, false);
        } else if b == 92 {
            lemma_skip_structure_shift(m, s, off, i + 1, depth, true, true);
        } else if b == 34 {
            if depth == 0 {
                assert(i + 1 == m.len());
            } else {
                lemma_skip_structure_shift(m, s, off, i + 1, depth, false, false);
            }
        } else {
            lemma_skip_structure_shift(m, s, off, i + 1, depth, true, false);
        }
    } else if b == 123 || b == 91 {
        lemma_skip_structure_shift(m, s, off, i + 1, depth + 1, false, false);
    } else if b == 125 || b == 93 {
        if depth == 1 {
            assert(i + 1 == m.len());
        } else {
            lemma_skip_structure_shift(m, s, off, i + 1, depth - 1, false, false);
        }
    } else if b == 34 {
        lemma_skip_structure_shift(m, s, off, i + 1, depth, true, false);
    } else {
        lemma_skip_structure_shift(m, s, off, i + 1, depth, false, false);
    }
}

/// A scalar scan that ends exactly at the end of `m` ends at the same place
/// when `m` stands embedded in a longer text, as long as the byte after it,
/// if any, cannot continue the scalar.
proof fn lemma_skip_scalar_shift(m: Seq<u8>, s: Seq<u8>, off: int, i: int)
    requires
        0 <= off,
        off + m.len() <= s.len(),
        s.subrange(off, off + m.len()) == m,
        0 <= i <= m.len(),
        spec_skip_scalar(m, i) == m.len(),
        off + m.len() == s.len() || !is_scalar_byte(s[off + m.len()]),
    ensures
        spec_skip_scalar(s, off + i) == off + m.len(),
    decreases m.len() - i,
{
    if i < m.len() {
        assert(s[off + i] == s.subrange(off, off + m.len())[i]);
        if is_scalar_byte(m[i]) {
            lemma_skip_scalar_shift(m, s, off, i + 1);
        } else {
            assert(spec_skip_scalar(m, i) == i);
        }
    }
}

/// A whole value embedded in a longer text ends where the value itself ends.
proof fn lemma_skip_value_shift(m: Seq<u8>, s: Seq<u8>, off: int)
    requires
        0 <= off,
        off + m.len() <= s.len(),
        s.subrange(off, off + m.len()) == m,
        is_value_text(m),
        off + m.len() == s.len() || !is_scalar_byte(s[off + m.len()]),
    ensures
        spec_skip_value(s, off) == Some(off + m.len()),
        m.len() > 0,
        !is_ws(m[0]),
{
    assert(m.len() > 0);
    assert(s[off] == s.subrange(off, off + m.len())[0]);
    if m[0] == 123 || m[0] == 91 {
        lemma_skip_structure_shift(m, s, off, 1, 1, false, false);
    } else if m[0] == 34 {
        lemma_skip_structure_shift(m, s, off, 1, 0, true, false);
    } else {
        assert(is_scalar_byte(m[0]));
        lemma_skip_scalar_shift(m, s, off, 1);
    }
}

#[verifier::rlimit(100)]
proof fn lemma_parse_encode_field1(e: MsgView)
    ensures
        spec_parse_field(spec_encode(e), 11) == Some(
            (0int, e.header.system_id, 23 + spec_dec_u8(e.header.system_id).len() as int),
        ),
{
    let a = e.header.system_id;
    let d1 = spec_dec_u8(a);
    let s = spec_encode(e);
    lemma_dec_digits_bounds(a as int);
    let i1: int = 23 + d1.len() as int;
    assert(s.subrange(11, 22) =~= key_system());
    assert(s[22] == 58);
    assert(s.subrange(23, i1) =~= d1);
    assert(s[i1] == 44);
    assert(s[23] == d1[0] && is_digit(d1[0]));
    lemma_parse_dec_at(s, 23, a);
    assert(spec_skip_ws(s, 22) == 22);
    assert(spec_skip_ws(s, 23) == 23);
    assert(spec_skip_ws(s, i1) == i1);
    assert(match_at(s, 11, key_system()));
}

#[verifier::rlimit(100)]
proof fn lemma_parse_encode_field2(e: MsgView)
    ensures
        spec_parse_field(spec_encode(e), 24 + spec_dec_u8(e.header.system_id).len() as int)
            == Some(
            (1int, e.header.component_id, 39 + spec_dec_u8(e.header.system_id).len() as int
                + spec_dec_u8(e.header.component_id).len() as int),
        ),
{
    let b = e.header.component_id;
    let d1 = spec_dec_u8(e.header.system_id);
    let d2 = spec_dec_u8(b);
    let s = spec_encode(e);
    lemma_dec_digits_bounds(e.header.system_id as int);
    lemma_dec_digits_bounds(b as int);
    let i1: int = 23 + d1.len() as int;
    let j1: int = i1 + 16;
    let i2: int = j1 + d2.len() as int;
    assert(s.subrange(i1 + 1, i1 + 15) =~= key_component());
    assert(s[i1 + 15] == 58);
    assert(s.subrange(j1, i2) =~= d2);
    assert(s[i2] == 44);
    assert(s[j1] == d2[0] && is_digit(d2[0]));
    lemma_parse_dec_at(s, j1, b);
    assert(s[i1 + 2] == key_component()[1]);
    if match_at(s, i1 + 1, key_system()) {
        assert(s.subrange(i1 + 1, i1 + 12)[1] == key_system()[1]);
        assert(false);
    }
    assert(spec_skip_ws(s, i1 + 15) == i1 + 15);
    assert(spec_skip_ws(s, j1) == j1);
    assert(spec_skip_ws(s, i2) == i2);
    assert(match_at(s, i1 + 1, key_component()));
}

#[verifier::rlimit(100)]
proof fn lemma_parse_encode_field3(e: MsgView)
    ensures
        spec_parse_field(
            spec_encode(e),
            40 + spec_dec_u8(e.header.system_id).len() as int + spec_dec_u8(
                e.header.component_id,
            ).len() as int,
        ) == Some(
            (2int, e.header.sequence, 51 + spec_dec_u8(e.header.system_id).len() as int
                + spec_dec_u8(e.header.component_id).len() as int + spec_dec_u8(
                e.header.sequence,
            ).len() as int),
        ),
{
    let c = e.header.sequence;
    let d1 = spec_dec_u8(e.header.system_id);
    let d2 = spec_dec_u8(e.header.component_id);
    let d3 = spec_dec_u8(c);
    let s = spec_encode(e);
    lemma_dec_digits_bounds(e.header.system_id as int);
    lemma_dec_digits_bounds(e.header.component_id as int);
    lemma_dec_digits_bounds(c as int);
    let i2: int = 39 + d1.len() as int + d2.len() as int;
    let j2: int = i2 + 12;
    let i3: int = j2 + d3.len() as int;
    assert(s.subrange(i2 + 1, i2 + 11) =~= key_sequence());
    assert(s[i2 + 11] == 58);
    assert(s.subrange(j2, i3) =~= d3);
    assert(s[i3] == 125);
    assert(s[j2] == d3[0] && is_digit(d3[0]));
    lemma_parse_dec_at(s, j2, c);
    assert(s[i2 + 2] == key_sequence()[1]);
    assert(s[i2 + 3] == key_sequence()[2]);
    if match_at(s, i2 + 1, key_system()) {
        assert(s.subrange(i2 + 1, i2 + 12)[2] == key_system()[2]);
        assert(false);
    }
    if match_at(s, i2 + 1, key_component()) {
        assert(s.subrange(i2 + 1, i2 + 15)[1] == key_component()[1]);
        assert(false);
    }
    assert(spec_skip_ws(s, i2 + 11) == i2 + 11);
    assert(spec_skip_ws(s, j2) == j2);
    assert(spec_skip_ws(s, i3) == i3);
    assert(match_at(s, i2 + 1, key_sequence()));
}

/// The header object of an encoded envelope parses back to its header.
#[verifier::rlimit(100)]
proof fn lemma_parse_encode_header(e: MsgView)
    ensures
        spec_header_kv(spec_encode(e), 1) == Some(
            (e.header, 52 + spec_dec_u8(e.header.system_id).len() as int + spec_dec_u8(
                e.header.component_id,
            ).len() as int + spec_dec_u8(e.header.sequence).len() as int),
        ),
{
    let d1 = spec_dec_u8(e.header.system_id);
    let d2 = spec_dec_u8(e.header.component_id);
    let d3 = spec_dec_u8(e.header.sequence);
    let s = spec_encode(e);
    lemma_dec_digits_bounds(e.header.system_id as int);
    lemma_dec_digits_bounds(e.header.component_id as int);
    lemma_dec_digits_bounds(e.header.sequence as int);
    let i1: int = 23 + d1.len() as int;
    let i2: int = 39 + d1.len() as int + d2.len() as int;
    let i3: int = 51 + d1.len() as int + d2.len() as int + d3.len() as int;
    lemma_parse_encode_field1(e);
    lemma_parse_encode_field2(e);
    lemma_parse_encode_field3(e);
    assert(s[10] == 123);
    assert(s[11] == 34);
    assert(spec_skip_ws(s, 11) == 11);
    assert(s[i1] == 44);
    assert(s[i1 + 1] == 34);
    assert(spec_skip_ws(s, i1 + 1) == i1 + 1);
    assert(s[i2] == 44);
    assert(s[i2 + 1] == 34);
    assert(spec_skip_ws(s, i2 + 1) == i2 + 1);
    assert(s[i3] == 125);
    assert(spec_parse_field(s, 11) == Some((0int, e.header.system_id, i1)));
    assert(spec_parse_field(s, i1 + 1) == Some((1int, e.header.component_id, i2)));
    assert(spec_parse_field(s, i2 + 1) == Some((2int, e.header.sequence, i3)));
    assert(spec_parse_header_obj(s, 10) == Some((e.header, i3 + 1)));
    assert(s[9] == 58);
    assert(spec_skip_ws(s, 9) == 9);
    assert(spec_skip_ws(s, 10) == 10);
}

/// The message member of an encoded envelope hands back exactly the payload
/// bytes.
#[verifier::rlimit(100)]
proof fn lemma_parse_encode_message(e: MsgView)
    requires
        is_value_text(e.message),
    ensures
        ({
            let lens = spec_dec_u8(e.header.system_id).len() as int + spec_dec_u8(
                e.header.component_id,
            ).len() as int + spec_dec_u8(e.header.sequence).len() as int;
            spec_message_kv(spec_encode(e), 53 + lens) == Some(
                (63 + lens, 63 + lens + e.message.len() as int),
            )
        }),
{
    let m = e.message;
    let d1 = spec_dec_u8(e.header.system_id);
    let d2 = spec_dec_u8(e.header.component_id);
    let d3 = spec_dec_u8(e.header.sequence);
    let s = spec_encode(e);
    lemma_dec_digits_bounds(e.header.system_id as int);
    lemma_dec_digits_bounds(e.header.component_id as int);
    lemma_dec_digits_bounds(e.header.sequence as int);
    let i3: int = 51 + d1.len() as int + d2.len() as int + d3.len() as int;
    let m0: int = i3 + 12;
    let v1: int = m0 + m.len() as int;
    assert(s.len() == v1 + 1);
    assert(s.subrange(i3 + 2, i3 + 11) =~= key_message());
    assert(s[i3 + 11] == 58);
    assert(s.subrange(m0, v1) =~= m);
    assert(s[v1] == 125);
    lemma_skip_value_shift(m, s, m0);
    assert(s[m0] == s.subrange(m0, v1)[0]);
    assert(!is_ws(s[m0]));
    assert(spec_skip_ws(s, i3 + 11) == i3 + 11);
    assert(spec_skip_ws(s, m0) == m0);
}

/// Round-trip law, structural half: an encoded envelope, handed to the
/// direct decoding path, parses back to exactly the envelope it came from —
/// for any payload that spans one value of the grammar, which the text form
/// of a schema message always does.
#[verifier::spinoff_prover]
#[verifier::rlimit(100)]
pub proof fn lemma_parse_encode(e: MsgView)
    requires
        is_value_text(e.message),
    ensures
        spec_parse_direct(spec_encode(e)) == Some(e),
{
    let m = e.message;
    let d1 = spec_dec_u8(e.header.system_id);
    let d2 = spec_dec_u8(e.header.component_id);
    let d3 = spec_dec_u8(e.header.sequence);
    let s = spec_encode(e);
    let i3: int = 51 + d1.len() as int + d2.len() as int + d3.len() as int;
    let m0: int = i3 + 12;
    let v1: int = m0 + m.len() as int;
    assert(s.len() == v1 + 1);

    lemma_parse_encode_header(e);
    lemma_parse_encode_message(e);

    assert(s[0] == 123 && s[1] == 34 && s[i3 + 1] == 44 && s[i3 + 2] == 34 && s[v1] == 125) by {}
    assert(match_at(s, 1, key_header())) by {
        assert(s.subrange(1, 9) =~= key_header());
    }
    assert(match_at(s, i3 + 2, key_message())) by {
        assert(s.subrange(i3 + 2, i3 + 11) =~= key_message());
    }
    assert(spec_skip_ws(s, 0) == 0 && spec_skip_ws(s, 1) == 1 && spec_skip_ws(s, i3 + 1) == i3 + 1
        && spec_skip_ws(s, i3 + 2) == i3 + 2 && spec_skip_ws(s, v1) == v1 && spec_skip_ws(
        s,
        v1 + 1,
    ) == s.len() as int) by {}
    assert(spec_finish(s, e.header, m0, v1, v1) == Some(e)) by {
        assert(spec_skip_ws(s, v1 + 1) == s.len() as int);
        assert(s[v1] == 125);
        assert(s.subrange(m0, v1) =~= m);
    }
    assert(spec_parse_direct(s) == Some(e));
}

/// Bytes that may stand unescaped inside a quoted string: everything but the
/// control range.
pub open spec fn no_ctl(s: Seq<u8>) -> bool {
    forall|k: int| 0 <= k < s.len() ==> s[k] >= 32
}

proof fn lemma_unquote_escape(s: Seq<u8>, i: int, m: Seq<u8>)
    requires
        1 <= i,
        i + spec_escape(m).len() + 1 <= s.len(),
        s.subrange(i, i + spec_escape(m).len() + 1) == spec_escape(m) + seq![34u8],
        no_ctl(m),
    ensures
        spec_unquote_body(s, i) == Some((m, i + spec_escape(m).len() + 1)),
    decreases m.len(),
{
    let fin: int = i + spec_escape(m).len() + 1;
    if m.len() == 0 {
        assert(s[i] == (spec_escape(m) + seq![34u8])[0]);
        assert(s[i] == 34);
    } else {
        let b = m[0];
        let tail = m.drop_first();
        assert(spec_escape(m) == esc_byte(b) + spec_escape(tail));
        assert(forall|t: int|
            0 <= t < fin - i ==> s[i + t] == (spec_escape(m) + seq![34u8])[t]);
        if b == 34 || b == 92 {
            assert(spec_escape(m).len() == 2 + spec_escape(tail).len());
            assert((spec_escape(m) + seq![34u8])[0] == esc_byte(b)[0]);
            assert(esc_byte(b)[0] == 92);
            assert(s[i] == (spec_escape(m) + seq![34u8])[0]);
            assert((spec_escape(m) + seq![34u8])[1] == esc_byte(b)[1]);
            assert(esc_byte(b)[1] == b);
            assert(s[i + 1] == (spec_escape(m) + seq![34u8])[1]);
            assert(spec_escape(m) + seq![34u8] =~= esc_byte(b) + (spec_escape(tail) + seq![34u8]));
            assert forall|t: int| 0 <= t < fin - (i + 2) implies s.subrange(i + 2, fin)[t] == (
            spec_escape(tail) + seq![34u8])[t] by {
                assert(s[i + 2 + t] == (spec_escape(m) + seq![34u8])[2 + t]);
                assert((esc_byte(b) + (spec_escape(tail) + seq![34u8]))[2 + t] == (spec_escape(tail)
                    + seq![34u8])[t]);
            }
            assert(s.subrange(i + 2, fin) =~= spec_escape(tail) + seq![34u8]);
            lemma_unquote_escape(s, i + 2, tail);
            assert(seq![s[i + 1]] + tail =~= m);
        } else {
            assert(spec_escape(m).len() == 1 + spec_escape(tail).len());
            assert((spec_escape(m) + seq![34u8])[0] == esc_byte(b)[0]);
            assert(esc_byte(b)[0] == b);
            assert(s[i] == (spec_escape(m) + seq![34u8])[0]);
            assert(b >= 32 && b != 34 && b != 92);
            assert(spec_escape(m) + seq![34u8] =~= esc_byte(b) + (spec_escape(tail) + seq![34u8]));
            assert forall|t: int| 0 <= t < fin - (i + 1) implies s.subrange(i + 1, fin)[t] == (
            spec_escape(tail) + seq![34u8])[t] by {
                assert(s[i + 1 + t] == (spec_escape(m) + seq![34u8])[1 + t]);
                assert((esc_byte(b) + (spec_escape(tail) + seq![34u8]))[1 + t] == (spec_escape(tail)
                    + seq![34u8])[t]);
            }
            assert(s.subrange(i + 1, fin) =~= spec_escape(tail) + seq![34u8]);
            lemma_unquote_escape(s, i + 1, tail);
            assert(seq![s[i]] + tail =~= m);
        }
    }
}

/// Unquoting undoes quoting, for any text free of raw control bytes.
pub proof fn lemma_quote_round(m: Seq<u8>)
    requires
        no_ctl(m),
    ensures
        spec_unquote(spec_quote(m)) == Some(m),
{
    let q = spec_quote(m);
    assert(q[0] == 34);
    assert(spec_skip_ws(q, 0) == 0);
    assert(q.subrange(1, 2 + spec_escape(m).len() as int) =~= spec_escape(m) + seq![34u8]);
    lemma_unquote_escape(q, 1, m);
    assert(spec_skip_ws(q, q.len() as int) == q.len() as int);
}

proof fn lemma_no_ctl_lits()
    ensures
        no_ctl(lit_header()),
        no_ctl(lit_component()),
        no_ctl(lit_sequence()),
        no_ctl(lit_message()),
{
}

/// Every byte of an encoded envelope is outside the control range, as long
/// as the payload text's bytes are; the text form of a schema message never
/// holds a raw control byte.
pub proof fn lemma_encode_no_ctl(e: MsgView)
    requires
        no_ctl(e.message),
    ensures
        no_ctl(spec_encode(e)),
{
    lemma_no_ctl_lits();
    lemma_dec_digits_bounds(e.header.system_id as int);
    lemma_dec_digits_bounds(e.header.component_id as int);
    lemma_dec_digits_bounds(e.header.sequence as int);
    let s = spec_encode(e);
    assert forall|k: int| 0 <= k < s.len() implies s[k] >= 32 by {
        let d1 = spec_dec_u8(e.header.system_id);
        let d2 = spec_dec_u8(e.header.component_id);
        let d3 = spec_dec_u8(e.header.sequence);
        let o1: int = lit_header().len() as int;
        let o2: int = o1 + d1.len();
        let o3: int = o2 + lit_component().len();
        let o4: int = o3 + d2.len();
        let o5: int = o4 + lit_sequence().len();
        let o6: int = o5 + d3.len();
        let o7: int = o6 + lit_message().len();
        let o8: int = o7 + e.message.len();
        if k < o1 {
            assert(s[k] == lit_header()[k]);
        } else if k < o2 {
            assert(s[k] == d1[k - o1]);
            assert(is_digit(d1[k - o1]));
        } else if k < o3 {
            assert(s[k] == lit_component()[k - o2]);
        } else if k < o4 {
            assert(s[k] == d2[k - o3]);
            assert(is_digit(d2[k - o3]));
        } else if k < o5 {
            assert(s[k] == lit_sequence()[k - o4]);
        } else if k < o6 {
            assert(s[k] == d3[k - o5]);
            assert(is_digit(d3[k - o5]));
        } else if k < o7 {
            assert(s[k] == lit_message()[k - o6]);
        } else if k < o8 {
            assert(s[k] == e.message[k - o7]);
        } else {
            assert(s[k] == 125);
        }
    }
}

proof fn lemma_quoted_not_direct(s: Seq<u8>)
    requires
        s.len() > 0,
        s[0] == 34,
    ensures
        spec_parse_direct(s) is None,
{
    assert(spec_skip_ws(s, 0) == 0);
}

/// Round-trip law: for any envelope whose payload spans one value of the
/// text grammar and is one the schema recognizes, encoding and then decoding
/// yields the same envelope, through the direct path alone.
pub proof fn lemma_round_trip(e: MsgView)
    ensures
        is_value_text(e.message) ==> spec_parse_direct(spec_encode(e)) == Some(e),
        is_value_text(e.message) && is_mav_json(e.message) ==> spec_decode(spec_encode(e))
            == Some(e),
{
    if is_value_text(e.message) {
        lemma_parse_encode(e);
    }
}

/// Fallback law: wrapping an encoded envelope once more as a quoted text
/// string decodes, through the fallback path, to the same envelope — for any
/// payload that spans one value of the grammar and holds no raw control
/// byte, which the text form of a schema message never does.
pub proof fn lemma_fallback(e: MsgView)
    requires
        no_ctl(e.message),
        is_value_text(e.message),
    ensures
        is_mav_json(e.message) ==> spec_decode(spec_quote(spec_encode(e))) == Some(e),
{
    let enc = spec_encode(e);
    let q = spec_quote(enc);
    lemma_encode_no_ctl(e);
    lemma_quote_round(enc);
    lemma_parse_encode(e);
    assert(q[0] == 34);
    lemma_quoted_not_direct(q);
}

} // verus!
