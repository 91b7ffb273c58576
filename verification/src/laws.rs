//! The library's laws: what holds of everything the parser returns, and the
//! round trip between the serializer and the parser.

use vstd::prelude::*;
use crate::num::{
    is_digit, is_num_byte, lemma_num_valid_shift, num_valid,
};
use crate::parse::{
    false_lit, find_from, is_ws, lemma_find_from, lemma_num_run_end, lemma_skip_ws,
    lemma_sp_value_advances, match_at, null_lit, num_run_end, skip_ws, sp_array, sp_bool,
    sp_items, sp_lit, sp_members, sp_number, sp_object, sp_parse, sp_string, sp_value, true_lit,
    StrStep, ValStep,
};
use crate::ser::{
    esc_char, esc_chars, false_chars, null_chars, ser_entries, ser_entry, ser_items, ser_val,
    string_chars, true_chars,
};
use crate::text::{ascii_chars, lemma_ascii_decode, lex_lt};
use vstd::utf8::{
    char_is_scalar, char_u32_cast, decode_utf8_encode_utf8, encode_scalar, encode_utf8,
    encode_utf8_decode_utf8, encode_utf8_valid_utf8, has_width_1_encoding, has_width_2_encoding,
    has_width_3_encoding, is_ascii_chars, is_ascii_chars_encode_utf8, last_continuation_byte,
    leading_byte_width_1, leading_byte_width_2, leading_byte_width_3, leading_byte_width_4,
    second_last_continuation_byte, third_last_continuation_byte, valid_utf8,
};
use crate::value::{
    char_byte, chars_bytes, lemma_obj_insert_append, lemma_obj_insert_sorted, lemma_wf_arr, lemma_wf_obj, number_wf,
    obj_insert, obj_sorted, wf_arr, wf_obj, wf_val, JsonVal,
};

verus! {

broadcast use {
    vstd::seq::group_seq_axioms,
    vstd::seq_lib::group_seq_lib_default,
    vstd::utf8::char_is_scalar,
    vstd::utf8::char_u32_cast,
    vstd::utf8::encode_utf8_valid_utf8,
    vstd::utf8::encode_utf8_decode_utf8,
};

/// Whatever value a parse returns is well-formed: its numbers satisfy the
/// numeric grammar and begin the way numbers are dispatched, and its objects
/// hold their entries strictly sorted by key — so no object ever carries a
/// duplicate key, and later values for the same key have overwritten earlier
/// ones.
pub proof fn lemma_parse_wf(s: Seq<u8>)
    ensures
        sp_parse(s) matches ValStep::Good { v, end } ==> wf_val(v),
{
    lemma_skip_ws(s, 0);
    lemma_sp_value_wf(s, skip_ws(s, 0));
}

/// Sorted keys are in particular unique keys: no object the parser returns
/// carries the same key twice.
pub proof fn lemma_sorted_keys_unique(entries: Seq<(Seq<char>, JsonVal)>)
    requires
        obj_sorted(entries),
    ensures
        forall|i: int, j: int|
            0 <= i < j < entries.len() ==> (#[trigger] entries[i]).0 != (#[trigger] entries[j]).0,
{
    assert forall|i: int, j: int|
        0 <= i < j < entries.len() implies (#[trigger] entries[i]).0 != (
    #[trigger] entries[j]).0 by {
        crate::text::lemma_lex_trichotomy(entries[i].0, entries[j].0);
    }
}

pub proof fn lemma_sp_value_wf(s: Seq<u8>, pos: int)
    requires
        0 <= pos,
    ensures
        sp_value(s, pos) matches ValStep::Good { v, end } ==> wf_val(v),
    decreases s.len() - pos, 1int,
{
    if 0 <= pos && pos < s.len() {
        let b = s[pos];
        if b == 91 {
            lemma_sp_array_wf(s, pos);
        } else if b == 123 {
            lemma_sp_object_wf(s, pos);
        } else if is_digit(b) || b == 45 {
            lemma_sp_number_wf(s, pos);
        }
    }
}

/// A number the parser accepts satisfies `number_wf`.
proof fn lemma_sp_number_wf(s: Seq<u8>, pos: int)
    requires
        0 <= pos < s.len(),
        is_digit(s[pos]) || s[pos] == 45,
    ensures
        sp_number(s, pos) matches ValStep::Good { v, end } ==> wf_val(v),
{
    lemma_num_run_end(s, pos);
    let end = num_run_end(s, pos);
    if num_valid(s, pos, end) {
        if end == pos {
            assert(!num_valid(s, pos, pos));
        }
        let sub = s.subrange(pos, end);
        let cs = ascii_chars(sub);
        assert forall|i: int| 0 <= i < cs.len() implies (((#[trigger] cs[i]) as u32) < 128
            && is_num_byte(char_byte(cs[i]))) by {
            assert(sub[i] == s[pos + i]);
            assert(is_num_byte(s[pos + i]));
        }
        assert(cs[0] == '-' || is_digit(char_byte(cs[0]))) by {
            assert(sub[0] == s[pos]);
        }
        assert(chars_bytes(cs) =~= sub);
        lemma_num_valid_shift(s, pos, end);
        assert(number_wf(cs));
    }
}

proof fn lemma_sp_array_wf(s: Seq<u8>, pos: int)
    requires
        0 <= pos < s.len(),
    ensures
        sp_array(s, pos) matches ValStep::Good { v, end } ==> wf_val(v),
    decreases s.len() - pos, 0int,
{
    lemma_skip_ws(s, pos + 1);
    let p1 = skip_ws(s, pos + 1);
    if !(p1 < s.len() && s[p1] == 93) {
        lemma_sp_items_wf(s, p1, Seq::empty());
    }
}

proof fn lemma_sp_object_wf(s: Seq<u8>, pos: int)
    requires
        0 <= pos < s.len(),
    ensures
        sp_object(s, pos) matches ValStep::Good { v, end } ==> wf_val(v),
    decreases s.len() - pos, 0int,
{
    lemma_skip_ws(s, pos + 1);
    let p1 = skip_ws(s, pos + 1);
    if !(p1 < s.len() && s[p1] == 125) {
        lemma_sp_members_wf(s, p1, Seq::empty());
    }
}

proof fn lemma_sp_items_wf(s: Seq<u8>, pos: int, acc: Seq<JsonVal>)
    requires
        0 <= pos <= s.len(),
        wf_arr(acc),
    ensures
        sp_items(s, pos, acc) matches ValStep::Good { v, end } ==> wf_val(v),
    decreases s.len() - pos, 2int,
{
    lemma_sp_value_advances(s, pos);
    lemma_sp_value_wf(s, pos);
    match sp_value(s, pos) {
        ValStep::Bad { .. } => {},
        ValStep::Good { v, end } => {
            let acc2 = acc.push(v);
            assert(wf_arr(acc2)) by {
                assert(acc2.drop_last() =~= acc);
                assert(acc2.last() == v);
            }
            lemma_skip_ws(s, end);
            let p = skip_ws(s, end);
            if p < s.len() && s[p] == 44 {
                lemma_skip_ws(s, p + 1);
                lemma_sp_items_wf(s, skip_ws(s, p + 1), acc2);
            }
        },
    }
}

proof fn lemma_sp_members_wf(s: Seq<u8>, pos: int, acc: Seq<(Seq<char>, JsonVal)>)
    requires
        0 <= pos <= s.len(),
        wf_obj(acc),
        obj_sorted(acc),
    ensures
        sp_members(s, pos, acc) matches ValStep::Good { v, end } ==> wf_val(v),
    decreases s.len() - pos, 2int,
{
    if pos < s.len() && s[pos] == 34 {
        lemma_find_from(s, pos + 1, 34);
        match sp_string(s, pos) {
            StrStep::Bad { .. } => {},
            StrStep::Good { cs: key, end: kend } => {
                lemma_skip_ws(s, kend);
                let p = skip_ws(s, kend);
                if p < s.len() && s[p] == 58 {
                    lemma_skip_ws(s, p + 1);
                    let pv = skip_ws(s, p + 1);
                    lemma_sp_value_advances(s, pv);
                    lemma_sp_value_wf(s, pv);
                    match sp_value(s, pv) {
                        ValStep::Bad { .. } => {},
                        ValStep::Good { v, end: vend } => {
                            let acc2 = obj_insert(acc, key, v);
                            lemma_wf_obj(acc);
                            lemma_obj_insert_sorted(acc, key, v);
                            lemma_wf_obj(acc2);
                            lemma_skip_ws(s, vend);
                            let p2 = skip_ws(s, vend);
                            if p2 < s.len() && s[p2] == 44 {
                                lemma_skip_ws(s, p2 + 1);
                                lemma_sp_members_wf(s, skip_ws(s, p2 + 1), acc2);
                            }
                        },
                    }
                }
            },
        }
    }
}


/// Text that survives the round trip unchanged: no quote (the parser would
/// end the string there), no backslash and no control character (the
/// serializer would escape them, and the parser does no unescaping).
pub open spec fn clean_str(cs: Seq<char>) -> bool {
    forall|i: int|
        0 <= i < cs.len() ==> (cs[i] != '"' && cs[i] != '\\' && ((#[trigger] cs[i]) as u32) >= 32)
}

/// Every piece of text in the value is clean.
pub open spec fn clean_val(v: JsonVal) -> bool
    decreases v,
{
    match v {
        JsonVal::Null => true,
        JsonVal::Bool(_) => true,
        JsonVal::Number(_) => true,
        JsonVal::String(cs) => clean_str(cs),
        JsonVal::Array(items) => clean_arr(items),
        JsonVal::Object(entries) => clean_obj(entries),
    }
}

pub open spec fn clean_arr(items: Seq<JsonVal>) -> bool
    decreases items,
{
    if items.len() == 0 {
        true
    } else {
        clean_arr(items.drop_last()) && clean_val(items.last())
    }
}

pub open spec fn clean_obj(entries: Seq<(Seq<char>, JsonVal)>) -> bool
    decreases entries,
{
    if entries.len() == 0 {
        true
    } else {
        clean_obj(entries.drop_last()) && clean_str(entries.last().0) && clean_val(
            entries.last().1,
        )
    }
}

pub proof fn lemma_clean_arr(items: Seq<JsonVal>)
    ensures
        clean_arr(items) <==> (forall|i: int|
            0 <= i < items.len() ==> clean_val(#[trigger] items[i])),
    decreases items.len(),
{
    if items.len() > 0 {
        lemma_clean_arr(items.drop_last());
        assert(forall|i: int|
            0 <= i < items.len() - 1 ==> items.drop_last()[i] == #[trigger] items[i]);
    }
}

pub proof fn lemma_clean_obj(entries: Seq<(Seq<char>, JsonVal)>)
    ensures
        clean_obj(entries) <==> (forall|i: int|
            0 <= i < entries.len() ==> (clean_str((#[trigger] entries[i]).0) && clean_val(
                entries[i].1,
            ))),
    decreases entries.len(),
{
    if entries.len() > 0 {
        lemma_clean_obj(entries.drop_last());
        assert(forall|i: int|
            0 <= i < entries.len() - 1 ==> entries.drop_last()[i] == #[trigger] entries[i]);
    }
}

/// UTF-8 encoding distributes over concatenation.
pub proof fn lemma_encode_concat(a: Seq<char>, b: Seq<char>)
    ensures
        encode_utf8(a + b) == encode_utf8(a) + encode_utf8(b),
    decreases a.len(),
{
    if a.len() == 0 {
        assert(a + b =~= b);
        assert(encode_utf8(a) + encode_utf8(b) =~= encode_utf8(b));
    } else {
        assert((a + b).drop_first() =~= a.drop_first() + b);
        assert((a + b)[0] == a[0]);
        lemma_encode_concat(a.drop_first(), b);
        assert(encode_utf8(a + b) =~= encode_utf8(a) + encode_utf8(b));
    }
}

/// The bytes of one encoded character: an ASCII character is its own single
/// byte, any other character's bytes are all at least 0x80.
proof fn lemma_scalar_bytes(c: char)
    ensures
        encode_scalar(c as u32).len() >= 1,
        (c as u32) < 128 ==> encode_scalar(c as u32) == seq![char_byte(c)],
        (c as u32) >= 128 ==> forall|j: int|
            0 <= j < encode_scalar(c as u32).len() ==> (#[trigger] encode_scalar(c as u32)[j])
                >= 128,
{
    let v = c as u32;
    if v < 128 {
        let b = leading_byte_width_1(v);
        assert((v & 0x7F) as u8 == v as u8) by (bit_vector)
            requires
                v < 128,
        ;
        assert(encode_scalar(v) =~= seq![char_byte(c)]);
    } else {
        assert((0xC0u8 | (((v >> 6) & 0x1F) as u8)) >= 128) by (bit_vector);
        assert((0xE0u8 | (((v >> 12) & 0x0F) as u8)) >= 128) by (bit_vector);
        assert((0xF0u8 | (((v >> 18) & 0x7) as u8)) >= 128) by (bit_vector);
        assert((0x80u8 | ((v & 0x3F) as u8)) >= 128) by (bit_vector);
        assert((0x80u8 | (((v >> 6) & 0x3F) as u8)) >= 128) by (bit_vector);
        assert((0x80u8 | (((v >> 12) & 0x3F) as u8)) >= 128) by (bit_vector);
    }
}

/// If no character of `cs` has code point `t` (an ASCII code), no byte of
/// the encoding is `t`.
proof fn lemma_encode_no_byte(cs: Seq<char>, t: u8)
    requires
        t < 128,
        forall|i: int| 0 <= i < cs.len() ==> ((#[trigger] cs[i]) as u32) != t as u32,
    ensures
        forall|j: int|
            0 <= j < encode_utf8(cs).len() ==> (#[trigger] encode_utf8(cs)[j]) != t,
    decreases cs.len(),
{
    if cs.len() > 0 {
        lemma_scalar_bytes(cs[0]);
        assert(forall|i: int|
            0 <= i < cs.drop_first().len() ==> ((#[trigger] cs.drop_first()[i]) as u32) != (
            t as u32));
        lemma_encode_no_byte(cs.drop_first(), t);
        let head = encode_scalar(cs[0] as u32);
        let rest = encode_utf8(cs.drop_first());
        assert(encode_utf8(cs) == head + rest);
        assert forall|j: int| 0 <= j < encode_utf8(cs).len() implies (#[trigger] encode_utf8(
            cs,
        )[j]) != t by {
            if j < head.len() {
                assert(encode_utf8(cs)[j] == head[j]);
                if (cs[0] as u32) < 128 {
                    assert(head[j] == char_byte(cs[0]));
                }
            } else {
                assert(encode_utf8(cs)[j] == rest[j - head.len()]);
            }
        }
    }
}

/// A sequence starting with an ASCII character encodes to bytes starting
/// with that character's byte.
proof fn lemma_encode_first(cs: Seq<char>)
    requires
        cs.len() > 0,
        (cs[0] as u32) < 128,
    ensures
        encode_utf8(cs).len() > 0,
        encode_utf8(cs)[0] == char_byte(cs[0]),
{
    lemma_scalar_bytes(cs[0]);
}

/// Escaping changes nothing in clean text.
pub proof fn lemma_esc_clean(cs: Seq<char>)
    requires
        clean_str(cs),
    ensures
        esc_chars(cs) == cs,
    decreases cs.len(),
{
    if cs.len() > 0 {
        assert(esc_char(cs[0]) == seq![cs[0]]);
        assert(clean_str(cs.skip(1)));
        lemma_esc_clean(cs.skip(1));
        assert(esc_chars(cs) =~= cs);
    }
}

/// The greedy numeric run ends exactly where the numeric bytes end.
proof fn lemma_num_run_exact(s: Seq<u8>, pos: int, e: int)
    requires
        0 <= pos <= e <= s.len(),
        forall|j: int| pos <= j < e ==> is_num_byte(#[trigger] s[j]),
        e == s.len() || !is_num_byte(s[e]),
    ensures
        num_run_end(s, pos) == e,
    decreases e - pos,
{
    if pos < e {
        assert(is_num_byte(s[pos]));
        lemma_num_run_exact(s, pos + 1, e);
    }
}

/// The quote search finds exactly the first quote.
proof fn lemma_find_exact(s: Seq<u8>, from: int, q: int)
    requires
        0 <= from <= q < s.len(),
        s[q] == 34,
        forall|j: int| from <= j < q ==> (#[trigger] s[j]) != 34,
    ensures
        find_from(s, from, 34) == Some(q),
    decreases q - from,
{
    if from < q {
        lemma_find_exact(s, from + 1, q);
    }
}

/// The keyword texts encode to the keyword bytes.
proof fn lemma_lit_bytes()
    ensures
        encode_utf8(null_chars()) == null_lit(),
        encode_utf8(true_chars()) == true_lit(),
        encode_utf8(false_chars()) == false_lit(),
{
    assert(is_ascii_chars(null_chars()));
    assert(is_ascii_chars(true_chars()));
    assert(is_ascii_chars(false_chars()));
    is_ascii_chars_encode_utf8(null_chars());
    is_ascii_chars_encode_utf8(true_chars());
    is_ascii_chars_encode_utf8(false_chars());
    assert(encode_utf8(null_chars()) =~= null_lit());
    assert(encode_utf8(true_chars()) =~= true_lit());
    assert(encode_utf8(false_chars()) =~= false_lit());
}

/// The first character of a rendered value: one of the dispatch characters,
/// always ASCII, never whitespace and never a closing bracket.
proof fn lemma_ser_first(v: JsonVal)
    requires
        wf_val(v),
    ensures
        ser_val(v).len() > 0,
        (ser_val(v)[0] as u32) < 128,
        !is_ws(char_byte(ser_val(v)[0])),
        char_byte(ser_val(v)[0]) != 93,
        char_byte(ser_val(v)[0]) != 125,
{
    match v {
        JsonVal::Null => {},
        JsonVal::Bool(b) => {},
        JsonVal::Number(cs) => {
            assert(cs[0] == '-' || is_digit(char_byte(cs[0])));
        },
        JsonVal::String(_) => {},
        JsonVal::Array(_) => {},
        JsonVal::Object(_) => {},
    }
}



/// An all-ASCII character sequence encodes byte for byte.
proof fn lemma_encode_ascii(cs: Seq<char>)
    requires
        forall|i: int| 0 <= i < cs.len() ==> ((#[trigger] cs[i]) as u32) < 128,
    ensures
        encode_utf8(cs) == chars_bytes(cs),
    decreases cs.len(),
{
    if cs.len() == 0 {
        assert(encode_utf8(cs) =~= chars_bytes(cs));
    } else {
        lemma_scalar_bytes(cs[0]);
        lemma_encode_ascii(cs.drop_first());
        assert(encode_utf8(cs) =~= chars_bytes(cs));
    }
}

/// Clean text holds no character with the quote's code point.
proof fn lemma_clean_no_quote(cs: Seq<char>)
    requires
        clean_str(cs),
    ensures
        forall|i: int| 0 <= i < cs.len() ==> ((#[trigger] cs[i]) as u32) != 34,
{
    assert forall|i: int| 0 <= i < cs.len() implies ((#[trigger] cs[i]) as u32) != 34 by {
        if (cs[i] as u32) == 34 {
            char_u32_cast(cs[i], 34u32);
            assert(('"' as u32) == 34);
            char_u32_cast('"', 34u32);
            assert(cs[i] == '"');
        }
    }
}

/// Bytes embedded as a concatenation are embedded chunk by chunk.
proof fn lemma_subrange_split(s: Seq<u8>, pos: int, a: Seq<u8>, b: Seq<u8>)
    requires
        0 <= pos,
        pos + a.len() + b.len() <= s.len(),
        s.subrange(pos, pos + a.len() + b.len()) == a + b,
    ensures
        s.subrange(pos, pos + a.len()) == a,
        s.subrange(pos + a.len(), pos + a.len() + b.len()) == b,
{
    let whole = s.subrange(pos, pos + a.len() + b.len());
    assert forall|m: int| 0 <= m < a.len() implies s.subrange(pos, pos + a.len() as int)[m]
        == a[m] by {
        assert(whole[m] == s[pos + m]);
        assert(s.subrange(pos, pos + a.len() as int)[m] == s[pos + m]);
    }
    assert(s.subrange(pos, pos + a.len() as int) =~= a);
    let alen = a.len() as int;
    assert forall|m: int| 0 <= m < b.len() implies s.subrange(
        pos + alen,
        pos + alen + b.len() as int,
    )[m] == b[m] by {
        assert(whole[alen + m] == s[pos + (alen + m)]);
        assert(s.subrange(pos + alen, pos + alen + b.len() as int)[m] == s[pos + alen + m]);
    }
    assert(s.subrange(pos + alen, pos + alen + b.len() as int) =~= b);
}

/// A one-byte chunk pins down the byte it stands at.
proof fn lemma_single_byte(s: Seq<u8>, at: int, b: u8)
    requires
        0 <= at,
        at + 1 <= s.len(),
        s.subrange(at, at + 1) == seq![b],
    ensures
        s[at] == b,
{
    assert(s.subrange(at, at + 1)[0] == s[at]);
}

/// The embedded text of one serialized value parses back to exactly that
/// value, leaving the cursor one past it. The byte after a serialized
/// number, if any, must not look numeric — in every surrounding context it
/// is a separator, a closing bracket, or absent.
#[verifier::rlimit(100)]
pub proof fn lemma_value_parses(s: Seq<u8>, pos: int, v: JsonVal)
    requires
        wf_val(v),
        clean_val(v),
        0 <= pos,
        pos + encode_utf8(ser_val(v)).len() <= s.len(),
        s.subrange(pos, pos + encode_utf8(ser_val(v)).len() as int) == encode_utf8(ser_val(v)),
        v matches JsonVal::Number(_) ==> (pos + encode_utf8(ser_val(v)).len() == s.len()
            || !is_num_byte(s[pos + encode_utf8(ser_val(v)).len()])),
    ensures
        sp_value(s, pos) == (ValStep::Good { v, end: pos + encode_utf8(ser_val(v)).len() }),
    decreases v,
{
    let cc = ser_val(v);
    let bb = encode_utf8(cc);
    let len = bb.len() as int;
    match v {
        JsonVal::Null => {
            lemma_lit_bytes();
            assert(s.subrange(pos, pos + 4)[0] == s[pos]);
            assert(s[pos] == 110);
            assert(match_at(s, pos, null_lit()));
        },
        JsonVal::Bool(b) => {
            lemma_lit_bytes();
            if b {
                assert(s.subrange(pos, pos + 4)[0] == s[pos]);
                assert(s[pos] == 116);
                assert(match_at(s, pos, true_lit()));
            } else {
                assert(s.subrange(pos, pos + 5)[0] == s[pos]);
                assert(s[pos] == 102);
                assert(match_at(s, pos, false_lit()));
                if match_at(s, pos, true_lit()) {
                    assert(s.subrange(pos, pos + 4)[0] == s[pos]);
                    assert(false);
                }
            }
        },
        JsonVal::Number(cs) => {
            lemma_encode_ascii(cs);
            // bb is the byte image of the digits
            assert(s.subrange(pos, pos + len)[0] == s[pos]);
            assert(s[pos] == char_byte(cs[0]));
            assert(('-' as u32) == 45);
            assert(is_digit(s[pos]) || s[pos] == 45);
            assert forall|j: int| pos <= j < pos + len implies is_num_byte(#[trigger] s[j]) by {
                assert(s.subrange(pos, pos + len)[j - pos] == s[pos + (j - pos)]);
                assert(bb[j - pos] == char_byte(cs[j - pos]));
            }
            lemma_num_run_exact(s, pos, pos + len);
            lemma_num_valid_shift(s, pos, pos + len);
            assert(num_valid(s, pos, pos + len));
            lemma_ascii_decode(chars_bytes(cs));
            assert(vstd::utf8::decode_utf8(chars_bytes(cs)) == cs);
            assert(ascii_chars(s.subrange(pos, pos + len)) == cs);
            assert(sp_value(s, pos) == (ValStep::Good { v, end: pos + len }));
        },
        JsonVal::String(cs) => {
            lemma_esc_clean(cs);
            assert(cc == seq!['"'] + cs + seq!['"']);
            lemma_encode_concat(seq!['"'] + cs, seq!['"']);
            lemma_encode_concat(seq!['"'], cs);
            assert((seq!['"'])[0] == '"');
            assert(('"' as u32) == 34);
            lemma_encode_ascii(seq!['"']);
            assert(chars_bytes(seq!['"']) =~= seq![34u8]);
            let eb = encode_utf8(cs);
            let ebl = eb.len() as int;
            assert(bb == seq![34u8] + (eb + seq![34u8])) by {
                assert(bb =~= seq![34u8] + (eb + seq![34u8]));
            }
            lemma_subrange_split(s, pos, seq![34u8], eb + seq![34u8]);
            lemma_single_byte(s, pos, 34);
            lemma_subrange_split(s, pos + 1, eb, seq![34u8]);
            lemma_single_byte(s, pos + 1 + ebl, 34);
            let q = pos + 1 + ebl;
            lemma_clean_no_quote(cs);
            lemma_encode_no_byte(cs, 34);
            assert forall|j: int| pos + 1 <= j < q implies (#[trigger] s[j]) != 34 by {
                assert(s.subrange(pos + 1, q)[j - pos - 1] == s[pos + 1 + (j - pos - 1)]);
                assert(eb[j - pos - 1] != 34);
            }
            lemma_find_exact(s, pos + 1, q);
            assert(valid_utf8(eb));
            assert(vstd::utf8::decode_utf8(eb) == cs);
            assert(sp_string(s, pos) == (StrStep::Good { cs, end: q + 1 }));
            assert(sp_value(s, pos) == (ValStep::Good { v, end: pos + len }));
        },
        JsonVal::Array(items) => {
            assert(cc == seq!['['] + ser_items(items) + seq![']']);
            lemma_encode_concat(seq!['['] + ser_items(items), seq![']']);
            lemma_encode_concat(seq!['['], ser_items(items));
            assert(('[' as u32) == 91 && (']' as u32) == 93);
            lemma_encode_ascii(seq!['[']);
            lemma_encode_ascii(seq![']']);
            assert(chars_bytes(seq!['[']) =~= seq![91u8]);
            assert(chars_bytes(seq![']']) =~= seq![93u8]);
            let ei = encode_utf8(ser_items(items));
            let eilen = ei.len() as int;
            assert(bb == seq![91u8] + (ei + seq![93u8])) by {
                assert(bb =~= seq![91u8] + (ei + seq![93u8]));
            }
            lemma_subrange_split(s, pos, seq![91u8], ei + seq![93u8]);
            lemma_single_byte(s, pos, 91);
            lemma_subrange_split(s, pos + 1, ei, seq![93u8]);
            lemma_single_byte(s, pos + 1 + eilen, 93);
            if items.len() == 0 {
                assert(ser_items(items) == Seq::<char>::empty());
                assert(ei =~= Seq::<u8>::empty());
                assert(len == 2);
                assert(s[pos + 1] == 93);
                assert(skip_ws(s, pos + 1) == pos + 1);
                assert(v =~= JsonVal::Array(Seq::<JsonVal>::empty()));
                assert(sp_value(s, pos) == (ValStep::Good { v, end: pos + 2 }));
            } else {
                lemma_wf_arr(items);
                lemma_clean_arr(items);
                lemma_ser_first(items[0]);
                assert(ser_items(items)[0] == ser_val(items[0])[0]);
                lemma_encode_first(ser_items(items));
                assert(s.subrange(pos + 1, pos + 1 + eilen)[0] == s[pos + 1]);
                assert(s[pos + 1] == char_byte(ser_items(items)[0]));
                assert(!is_ws(s[pos + 1]));
                assert(skip_ws(s, pos + 1) == pos + 1);
                assert(s[pos + 1] != 93);
                lemma_items_parse(s, pos + 1, items, Seq::empty());
                assert(Seq::<JsonVal>::empty() + items =~= items);
                assert(sp_array(s, pos) == (ValStep::Good { v, end: pos + len }));
                assert(sp_value(s, pos) == (ValStep::Good { v, end: pos + len }));
            }
        },
        JsonVal::Object(ents) => {
            assert(cc == seq!['{'] + ser_entries(ents) + seq!['}']);
            lemma_encode_concat(seq!['{'] + ser_entries(ents), seq!['}']);
            lemma_encode_concat(seq!['{'], ser_entries(ents));
            assert(('{' as u32) == 123 && ('}' as u32) == 125);
            lemma_encode_ascii(seq!['{']);
            lemma_encode_ascii(seq!['}']);
            assert(chars_bytes(seq!['{']) =~= seq![123u8]);
            assert(chars_bytes(seq!['}']) =~= seq![125u8]);
            let em = encode_utf8(ser_entries(ents));
            let emlen = em.len() as int;
            assert(bb == seq![123u8] + (em + seq![125u8])) by {
                assert(bb =~= seq![123u8] + (em + seq![125u8]));
            }
            lemma_subrange_split(s, pos, seq![123u8], em + seq![125u8]);
            lemma_single_byte(s, pos, 123);
            lemma_subrange_split(s, pos + 1, em, seq![125u8]);
            lemma_single_byte(s, pos + 1 + emlen, 125);
            if ents.len() == 0 {
                assert(ser_entries(ents) == Seq::<char>::empty());
                assert(em =~= Seq::<u8>::empty());
                assert(len == 2);
                assert(s[pos + 1] == 125);
                assert(skip_ws(s, pos + 1) == pos + 1);
                assert(ents =~= Seq::<(Seq<char>, JsonVal)>::empty());
                assert(v == JsonVal::Object(Seq::<(Seq<char>, JsonVal)>::empty()));
                assert(sp_value(s, pos) == (ValStep::Good { v, end: pos + 2 }));
            } else {
                lemma_wf_obj(ents);
                lemma_clean_obj(ents);
                assert(ser_entry(ents[0]).len() > 0 && ser_entry(ents[0])[0] == '"');
                assert(ser_entries(ents).len() > 0 && ser_entries(ents)[0] == '"');
                lemma_encode_first(ser_entries(ents));
                assert(('"' as u32) == 34);
                assert(s.subrange(pos + 1, pos + 1 + emlen)[0] == s[pos + 1]);
                assert(s[pos + 1] == 34);
                assert(skip_ws(s, pos + 1) == pos + 1);
                assert(s[pos + 1] != 125);
                assert(obj_sorted(Seq::<(Seq<char>, JsonVal)>::empty() + ents)) by {
                    assert(Seq::<(Seq<char>, JsonVal)>::empty() + ents =~= ents);
                }
                lemma_members_parse(s, pos + 1, ents, Seq::empty());
                assert(Seq::<(Seq<char>, JsonVal)>::empty() + ents =~= ents);
                assert(sp_object(s, pos) == (ValStep::Good { v, end: pos + len }));
                assert(sp_value(s, pos) == (ValStep::Good { v, end: pos + len }));
            }
        },
    }
}

/// The element list of a non-empty array parses element by element,
/// appending in order.
proof fn lemma_items_parse(s: Seq<u8>, pos: int, items: Seq<JsonVal>, acc: Seq<JsonVal>)
    requires
        0 <= pos,
        items.len() > 0,
        forall|i: int|
            0 <= i < items.len() ==> (wf_val(#[trigger] items[i]) && clean_val(items[i])),
        pos + encode_utf8(ser_items(items)).len() < s.len(),
        s.subrange(pos, pos + encode_utf8(ser_items(items)).len() as int) == encode_utf8(
            ser_items(items),
        ),
        s[pos + encode_utf8(ser_items(items)).len()] == 93,
    ensures
        sp_items(s, pos, acc) == (ValStep::Good {
            v: JsonVal::Array(acc + items),
            end: pos + encode_utf8(ser_items(items)).len() + 1,
        }),
    decreases items,
{
    let ei = encode_utf8(ser_items(items));
    let elen = ei.len() as int;
    let head = items[0];
    assert(wf_val(head) && clean_val(head));
    lemma_ser_first(head);
    let hc = ser_val(head);
    let hb = encode_utf8(hc);
    lemma_encode_first(hc);
    let hlen = hb.len() as int;
    if items.len() == 1 {
        assert(ser_items(items) == hc);
        lemma_value_parses(s, pos, head);
        assert(sp_value(s, pos) == (ValStep::Good { v: head, end: pos + hlen }));
        assert(skip_ws(s, pos + hlen) == pos + hlen);
        assert(acc.push(head) =~= acc + items);
        assert(sp_items(s, pos, acc) == (ValStep::Good {
            v: JsonVal::Array(acc + items),
            end: pos + elen + 1,
        }));
    } else {
        let rest = items.skip(1);
        assert(ser_items(items) == hc + seq![','] + ser_items(rest));
        lemma_encode_concat(hc + seq![','], ser_items(rest));
        lemma_encode_concat(hc, seq![',']);
        assert((',' as u32) == 44);
        lemma_encode_ascii(seq![',']);
        assert(chars_bytes(seq![',']) =~= seq![44u8]);
        let rb = encode_utf8(ser_items(rest));
        let rlen = rb.len() as int;
        assert(ei == (hb + seq![44u8]) + rb) by {
            assert(ei =~= (hb + seq![44u8]) + rb);
        }
        lemma_subrange_split(s, pos, hb + seq![44u8], rb);
        lemma_subrange_split(s, pos, hb, seq![44u8]);
        lemma_single_byte(s, pos + hlen, 44);
        lemma_value_parses(s, pos, head);
        assert(sp_value(s, pos) == (ValStep::Good { v: head, end: pos + hlen }));
        assert(skip_ws(s, pos + hlen) == pos + hlen);
        // after the comma stands the next element
        assert(forall|i: int|
            0 <= i < rest.len() ==> (wf_val(#[trigger] rest[i]) && clean_val(rest[i])));
        lemma_ser_first(rest[0]);
        assert(ser_items(rest)[0] == ser_val(rest[0])[0]);
        lemma_encode_first(ser_items(rest));
        let p2 = pos + hlen + 1;
        assert(s.subrange(p2, p2 + rlen)[0] == s[p2]);
        assert(s[p2] == char_byte(ser_items(rest)[0]));
        assert(!is_ws(s[p2]));
        assert(skip_ws(s, p2) == p2);
        assert(s[p2 + rlen] == 93);
        lemma_items_parse(s, p2, rest, acc.push(head));
        assert(acc.push(head) + rest =~= acc + items);
        assert(sp_items(s, pos, acc) == (ValStep::Good {
            v: JsonVal::Array(acc + items),
            end: pos + elen + 1,
        }));
    }
}

/// The member list of a non-empty object parses pair by pair; since the
/// serializer writes keys in strictly increasing order, each insertion
/// appends, and the object comes back entry for entry.
proof fn lemma_members_parse(
    s: Seq<u8>,
    pos: int,
    ents: Seq<(Seq<char>, JsonVal)>,
    acc: Seq<(Seq<char>, JsonVal)>,
)
    requires
        0 <= pos,
        ents.len() > 0,
        forall|i: int|
            0 <= i < ents.len() ==> (clean_str((#[trigger] ents[i]).0) && clean_val(ents[i].1)
                && wf_val(ents[i].1)),
        obj_sorted(acc + ents),
        pos + encode_utf8(ser_entries(ents)).len() < s.len(),
        s.subrange(pos, pos + encode_utf8(ser_entries(ents)).len() as int) == encode_utf8(
            ser_entries(ents),
        ),
        s[pos + encode_utf8(ser_entries(ents)).len()] == 125,
    ensures
        sp_members(s, pos, acc) == (ValStep::Good {
            v: JsonVal::Object(acc + ents),
            end: pos + encode_utf8(ser_entries(ents)).len() + 1,
        }),
    decreases ents,
{
    let em = encode_utf8(ser_entries(ents));
    let mlen = em.len() as int;
    let e0 = ents[0];
    let key = e0.0;
    let val = e0.1;
    assert(clean_str(key) && clean_val(val) && wf_val(val));
    lemma_esc_clean(key);
    assert(ser_entry(e0) == seq!['"'] + esc_chars(key) + seq!['"', ':'] + ser_val(val));
    assert(ser_entry(e0) == ((seq!['"'] + key) + seq!['"', ':']) + ser_val(val));
    let vc = ser_val(val);
    let vb = encode_utf8(vc);
    let kb = encode_utf8(key);
    lemma_encode_concat((seq!['"'] + key) + seq!['"', ':'], vc);
    lemma_encode_concat(seq!['"'] + key, seq!['"', ':']);
    lemma_encode_concat(seq!['"'], key);
    assert(('"' as u32) == 34 && (':' as u32) == 58);
    lemma_encode_ascii(seq!['"']);
    lemma_encode_ascii(seq!['"', ':']);
    assert(chars_bytes(seq!['"']) =~= seq![34u8]);
    assert(chars_bytes(seq!['"', ':']) =~= seq![34u8, 58u8]);
    let eb = encode_utf8(ser_entry(e0));
    let elen = eb.len() as int;
    let klen = kb.len() as int;
    let vlen = vb.len() as int;
    assert(eb == ((seq![34u8] + kb) + seq![34u8, 58u8]) + vb);
    // lay the entry's pieces out in the input
    if ents.len() == 1 {
        assert(ser_entries(ents) == ser_entry(e0));
        assert(em == eb);
    } else {
        assert(ser_entries(ents) == ser_entry(e0) + seq![','] + ser_entries(ents.skip(1)));
        lemma_encode_concat(ser_entry(e0) + seq![','], ser_entries(ents.skip(1)));
        lemma_encode_concat(ser_entry(e0), seq![',']);
        assert((',' as u32) == 44);
        lemma_encode_ascii(seq![',']);
        assert(chars_bytes(seq![',']) =~= seq![44u8]);
        let rb = encode_utf8(ser_entries(ents.skip(1)));
        assert(em == (eb + seq![44u8]) + rb) by {
            assert(em =~= (eb + seq![44u8]) + rb);
        }
        lemma_subrange_split(s, pos, eb + seq![44u8], rb);
        lemma_subrange_split(s, pos, eb, seq![44u8]);
        lemma_single_byte(s, pos + elen, 44);
    }
    assert(s.subrange(pos, pos + elen) == eb);
    lemma_subrange_split(s, pos, (seq![34u8] + kb) + seq![34u8, 58u8], vb);
    lemma_subrange_split(s, pos, seq![34u8] + kb, seq![34u8, 58u8]);
    lemma_subrange_split(s, pos, seq![34u8], kb);
    lemma_single_byte(s, pos, 34);
    let q = pos + 1 + klen;
    assert(s.subrange(q, q + 2) == seq![34u8, 58u8]);
    assert(s[q] == 34 && s[q + 1] == 58) by {
        assert(s.subrange(q, q + 2)[0] == s[q]);
        assert(s.subrange(q, q + 2)[1] == s[q + 1]);
    }
    // key token
    lemma_clean_no_quote(key);
    lemma_encode_no_byte(key, 34);
    assert forall|j: int| pos + 1 <= j < q implies (#[trigger] s[j]) != 34 by {
        assert(s.subrange(pos + 1, q)[j - pos - 1] == s[pos + 1 + (j - pos - 1)]);
        assert(kb[j - pos - 1] != 34);
    }
    lemma_find_exact(s, pos + 1, q);
    assert(valid_utf8(kb));
    assert(vstd::utf8::decode_utf8(kb) == key);
    assert(sp_string(s, pos) == (StrStep::Good { cs: key, end: q + 1 }));
    // colon, then the value
    assert(skip_ws(s, q + 1) == q + 1);
    let pv = q + 2;
    lemma_ser_first(val);
    lemma_encode_first(vc);
    assert(s.subrange(pv, pv + vlen)[0] == s[pv]);
    assert(s[pv] == char_byte(vc[0]));
    assert(!is_ws(s[pv]));
    assert(skip_ws(s, pv) == pv);
    let vend = pv + vlen;
    assert(vend == pos + elen);
    lemma_value_parses(s, pv, val);
    assert(sp_value(s, pv) == (ValStep::Good { v: val, end: vend }));
    // the new key comes after every key already present
    assert forall|i: int| 0 <= i < acc.len() implies lex_lt(#[trigger] acc[i].0, key) by {
        assert((acc + ents)[i] == acc[i]);
        assert((acc + ents)[acc.len() as int] == e0);
    }
    lemma_obj_insert_append(acc, key, val);
    assert(e0 == (key, val));
    assert(obj_insert(acc, key, val) == acc.push(e0));
    assert(skip_ws(s, vend) == vend);
    if ents.len() == 1 {
        assert(s[vend] == 125);
        assert(acc.push(e0) =~= acc + ents);
        assert(sp_members(s, pos, acc) == (ValStep::Good {
            v: JsonVal::Object(acc + ents),
            end: pos + mlen + 1,
        }));
    } else {
        assert(s[vend] == 44);
        let rest = ents.skip(1);
        let rb = encode_utf8(ser_entries(rest));
        let rlen = rb.len() as int;
        let p3 = vend + 1;
        assert(s.subrange(p3, p3 + rlen) == rb);
        assert(ser_entry(rest[0]).len() > 0 && ser_entry(rest[0])[0] == '"');
        assert(ser_entries(rest).len() > 0 && ser_entries(rest)[0] == '"');
        lemma_encode_first(ser_entries(rest));
        assert(s.subrange(p3, p3 + rlen)[0] == s[p3]);
        assert(s[p3] == 34);
        assert(skip_ws(s, p3) == p3);
        assert(s[p3 + rlen] == 125);
        assert(acc.push(e0) + rest =~= acc + ents);
        assert(obj_sorted(acc.push(e0) + rest)) by {
            assert(acc.push(e0) + rest =~= acc + ents);
        }
        lemma_members_parse(s, p3, rest, acc.push(e0));
        assert(sp_members(s, pos, acc) == (ValStep::Good {
            v: JsonVal::Object(acc + ents),
            end: pos + mlen + 1,
        }));
    }
}

/// Round-trip identity: a well-formed value whose strings carry no quote,
/// backslash or control character parses back, from its own serialization,
/// to exactly itself.
pub proof fn lemma_round_trip(v: JsonVal)
    requires
        wf_val(v),
        clean_val(v),
    ensures
        sp_parse(encode_utf8(ser_val(v))) == (ValStep::Good {
            v,
            end: encode_utf8(ser_val(v)).len() as int,
        }),
{
    let s = encode_utf8(ser_val(v));
    lemma_ser_first(v);
    lemma_encode_first(ser_val(v));
    assert(!is_ws(s[0]));
    assert(skip_ws(s, 0) == 0);
    assert(s.subrange(0, s.len() as int) =~= s);
    lemma_value_parses(s, 0, v);
    assert(skip_ws(s, s.len() as int) == s.len());
}

} // verus!
