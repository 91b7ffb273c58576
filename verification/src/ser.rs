//! The serializer: one operation, "render as JSON text", defined per shape.
//! Implementations never fail; what cannot be represented renders as `null`.
//!
//! Strings are escaped uniformly: `"`, `\` and the control characters
//! 0x00–0x1f, the common ones as their two-character escapes and the rest as
//! `\u00..` sequences. Output is compact: no whitespace between tokens.

use vstd::prelude::*;
use std::collections::VecDeque;
use vstd::string::StrSliceExecFns;
use vstd::string::StringExecFns;
use crate::text::push_char;
use crate::value::{JsonVal, JsonValue};

verus! {

broadcast use {
    vstd::std_specs::vec::group_vec_axioms,
    vstd::seq::group_seq_axioms,
    vstd::seq_lib::group_seq_lib_default,
};

/// The digit character for `d` (0 to 9).
pub open spec fn dec_digit(d: int) -> char {
    ((48 + d) as u8) as char
}

/// The decimal text of a nonnegative integer, no sign, no leading zeros.
pub open spec fn dec_rep(n: nat) -> Seq<char>
    decreases n,
{
    if n < 10 {
        seq![dec_digit(n as int)]
    } else {
        dec_rep(n / 10).push(dec_digit((n % 10) as int))
    }
}

/// The decimal text of an integer: a minus sign for negative values.
pub open spec fn dec_int(i: int) -> Seq<char> {
    if i >= 0 {
        dec_rep(i as nat)
    } else {
        seq!['-'] + dec_rep((-i) as nat)
    }
}

/// Appends the decimal text of `n`.
fn push_dec(n: u128, out: &mut String)
    ensures
        final(out)@ == old(out)@ + dec_rep(n as nat),
    decreases n,
{
    if n < 10 {
        push_char(out, (48 + n as u8) as char);
    } else {
        push_dec(n / 10, out);
        push_char(out, (48 + (n % 10) as u8) as char);
        proof {
            assert(old(out)@ + dec_rep((n / 10) as nat) + seq![dec_digit((n as nat % 10) as int)]
                =~= old(out)@ + dec_rep(n as nat));
        }
    }
}

/// The decimal text of an unsigned value.
pub fn dec_string_u(n: u128) -> (r: String)
    ensures
        r@ == dec_rep(n as nat),
{
    let mut out = String::new();
    push_dec(n, &mut out);
    proof {
        assert(Seq::<char>::empty() + dec_rep(n as nat) =~= dec_rep(n as nat));
    }
    out
}

/// The decimal text of a signed value.
pub fn dec_string_i(i: i128) -> (r: String)
    ensures
        r@ == dec_int(i as int),
{
    let mut out = String::new();
    if i >= 0 {
        push_dec(i as u128, &mut out);
    } else {
        push_char(&mut out, '-');
        let m: u128 = (-(i + 1)) as u128 + 1;
        proof {
            assert(m as int == -(i as int));
        }
        push_dec(m, &mut out);
    }
    proof {
        assert(Seq::<char>::empty() + dec_int(i as int) =~= dec_int(i as int));
        if i < 0 {
            assert(Seq::<char>::empty() + seq!['-'] + dec_rep((-(i as int)) as nat) =~= dec_int(
                i as int,
            ));
        }
    }
    out
}

/// The hexadecimal digit character for `d` (0 to 15), lower case.
pub open spec fn hex_digit(d: int) -> char {
    if d < 10 {
        ((48 + d) as u8) as char
    } else {
        ((87 + d) as u8) as char
    }
}

/// How one character stands inside a JSON string: `"`, `\` and the common
/// control characters get two-character escapes, the remaining control
/// characters a `\u00..` sequence, everything else stands as itself.
pub open spec fn esc_char(c: char) -> Seq<char> {
    if c == '"' {
        seq!['\\', '"']
    } else if c == '\\' {
        seq!['\\', '\\']
    } else if c == '\n' {
        seq!['\\', 'n']
    } else if c == '\r' {
        seq!['\\', 'r']
    } else if c == '\t' {
        seq!['\\', 't']
    } else if (c as u32) < 32 {
        seq!['\\', 'u', '0', '0', hex_digit((c as u32) as int / 16), hex_digit(
            (c as u32) as int % 16,
        )]
    } else {
        seq![c]
    }
}

/// The escaped body of a JSON string.
pub open spec fn esc_chars(cs: Seq<char>) -> Seq<char>
    decreases cs.len(),
{
    if cs.len() == 0 {
        Seq::empty()
    } else {
        esc_char(cs[0]) + esc_chars(cs.skip(1))
    }
}

/// Escaping a sequence one character longer appends that character's escape.
pub proof fn lemma_esc_push(prefix: Seq<char>, c: char)
    ensures
        esc_chars(prefix.push(c)) == esc_chars(prefix) + esc_char(c),
    decreases prefix.len(),
{
    if prefix.len() == 0 {
        assert(prefix.push(c).skip(1) =~= Seq::<char>::empty());
        assert(esc_chars(Seq::<char>::empty()) == Seq::<char>::empty());
        assert(prefix.push(c)[0] == c);
        assert(esc_chars(prefix.push(c)) =~= esc_chars(prefix) + esc_char(c));
    } else {
        assert(prefix.push(c).skip(1) =~= prefix.skip(1).push(c));
        lemma_esc_push(prefix.skip(1), c);
        assert(esc_chars(prefix.push(c)) =~= esc_chars(prefix) + esc_char(c));
    }
}

/// Appends the escape of one character.
fn push_escaped(c: char, out: &mut String)
    ensures
        final(out)@ == old(out)@ + esc_char(c),
{
    if c == '"' {
        push_char(out, '\\');
        push_char(out, '"');
    } else if c == '\\' {
        push_char(out, '\\');
        push_char(out, '\\');
    } else if c == '\n' {
        push_char(out, '\\');
        push_char(out, 'n');
    } else if c == '\r' {
        push_char(out, '\\');
        push_char(out, 'r');
    } else if c == '\t' {
        push_char(out, '\\');
        push_char(out, 't');
    } else if (c as u32) < 32 {
        let v = c as u32;
        push_char(out, '\\');
        push_char(out, 'u');
        push_char(out, '0');
        push_char(out, '0');
        let hi = (v / 16) as u8;
        let lo = (v % 16) as u8;
        push_char(out, if hi < 10 {
            (48 + hi) as char
        } else {
            (87 + hi) as char
        });
        push_char(out, if lo < 10 {
            (48 + lo) as char
        } else {
            (87 + lo) as char
        });
        proof {
            assert(old(out)@ + seq!['\\'] + seq!['u'] + seq!['0'] + seq!['0'] + seq![hex_digit(
                v as int / 16,
            )] + seq![hex_digit(v as int % 16)] =~= old(out)@ + esc_char(c));
        }
    } else {
        push_char(out, c);
    }
    proof {
        assert(final(out)@ =~= old(out)@ + esc_char(c));
    }
}

/// Appends the escaped body of `s`.
fn push_escaped_str(s: &str, out: &mut String)
    ensures
        final(out)@ == old(out)@ + esc_chars(s@),
{
    let n = s.unicode_len();
    let mut i: usize = 0;
    proof {
        assert(s@.take(0) =~= Seq::<char>::empty());
        assert(old(out)@ + Seq::<char>::empty() =~= old(out)@);
    }
    while i < n
        invariant
            i <= n == s@.len(),
            out@ == old(out)@ + esc_chars(s@.take(i as int)),
        decreases n - i,
    {
        let c = s.get_char(i);
        push_escaped(c, out);
        proof {
            lemma_esc_push(s@.take(i as int), c);
            assert(s@.take(i as int).push(c) =~= s@.take(i as int + 1));
            assert(out@ =~= old(out)@ + esc_chars(s@.take(i as int + 1)));
        }
        i += 1;
    }
    proof {
        assert(s@.take(n as int) =~= s@);
    }
}

/// The full JSON text of a string value: quoted and escaped.
pub open spec fn string_chars(cs: Seq<char>) -> Seq<char> {
    seq!['"'] + esc_chars(cs) + seq!['"']
}

/// Appends the JSON text of a string value.
pub fn push_json_string(s: &str, out: &mut String)
    ensures
        final(out)@ == old(out)@ + string_chars(s@),
{
    push_char(out, '"');
    push_escaped_str(s, out);
    push_char(out, '"');
    proof {
        assert(final(out)@ =~= old(out)@ + string_chars(s@));
    }
}

/// The JSON text of a string value: quoted, with the body escaped. Also the
/// rendering of a record or variant with no fields, applied to its name.
pub fn json_string_text(s: &str) -> (r: String)
    ensures
        r@ == string_chars(s@),
{
    let mut out = String::new();
    push_json_string(s, &mut out);
    proof {
        assert(Seq::<char>::empty() + string_chars(s@) =~= string_chars(s@));
    }
    out
}

pub open spec fn null_chars() -> Seq<char> {
    seq!['n', 'u', 'l', 'l']
}

pub open spec fn true_chars() -> Seq<char> {
    seq!['t', 'r', 'u', 'e']
}

pub open spec fn false_chars() -> Seq<char> {
    seq!['f', 'a', 'l', 's', 'e']
}

/// The literal `null`.
pub fn null_text() -> (r: String)
    ensures
        r@ == null_chars(),
{
    let r = String::from_str("null");
    proof {
        reveal_strlit("null");
        assert(r@ =~= null_chars());
    }
    r
}

/// Renders a value as a JSON string. Implementations do not fail: every
/// value has a rendering, pinned down by `json_spec`.
pub trait ToJson {
    /// The exact text `to_json_string` returns.
    spec fn json_spec(&self) -> Seq<char>;

    /// Converts self to a JSON string.
    fn to_json_string(&self) -> (r: String)
        ensures
            r@ == self.json_spec(),
    ;
}

impl ToJson for bool {
    open spec fn json_spec(&self) -> Seq<char> {
        if *self {
            true_chars()
        } else {
            false_chars()
        }
    }

    fn to_json_string(&self) -> (r: String) {
        if *self {
            let r = String::from_str("true");
            proof {
                reveal_strlit("true");
                assert(r@ =~= true_chars());
            }
            r
        } else {
            let r = String::from_str("false");
            proof {
                reveal_strlit("false");
                assert(r@ =~= false_chars());
            }
            r
        }
    }
}

impl ToJson for u8 {
    open spec fn json_spec(&self) -> Seq<char> {
        dec_rep(*self as nat)
    }

    fn to_json_string(&self) -> (r: String) {
        dec_string_u(*self as u128)
    }
}

impl ToJson for u16 {
    open spec fn json_spec(&self) -> Seq<char> {
        dec_rep(*self as nat)
    }

    fn to_json_string(&self) -> (r: String) {
        dec_string_u(*self as u128)
    }
}

impl ToJson for u32 {
    open spec fn json_spec(&self) -> Seq<char> {
        dec_rep(*self as nat)
    }

    fn to_json_string(&self) -> (r: String) {
        dec_string_u(*self as u128)
    }
}

impl ToJson for u64 {
    open spec fn json_spec(&self) -> Seq<char> {
        dec_rep(*self as nat)
    }

    fn to_json_string(&self) -> (r: String) {
        dec_string_u(*self as u128)
    }
}

impl ToJson for u128 {
    open spec fn json_spec(&self) -> Seq<char> {
        dec_rep(*self as nat)
    }

    fn to_json_string(&self) -> (r: String) {
        dec_string_u(*self)
    }
}

impl ToJson for usize {
    open spec fn json_spec(&self) -> Seq<char> {
        dec_rep(*self as nat)
    }

    fn to_json_string(&self) -> (r: String) {
        dec_string_u(*self as u128)
    }
}

impl ToJson for i8 {
    open spec fn json_spec(&self) -> Seq<char> {
        dec_int(*self as int)
    }

    fn to_json_string(&self) -> (r: String) {
        dec_string_i(*self as i128)
    }
}

impl ToJson for i16 {
    open spec fn json_spec(&self) -> Seq<char> {
        dec_int(*self as int)
    }

    fn to_json_string(&self) -> (r: String) {
        dec_string_i(*self as i128)
    }
}

impl ToJson for i32 {
    open spec fn json_spec(&self) -> Seq<char> {
        dec_int(*self as int)
    }

    fn to_json_string(&self) -> (r: String) {
        dec_string_i(*self as i128)
    }
}

impl ToJson for i64 {
    open spec fn json_spec(&self) -> Seq<char> {
        dec_int(*self as int)
    }

    fn to_json_string(&self) -> (r: String) {
        dec_string_i(*self as i128)
    }
}

impl ToJson for i128 {
    open spec fn json_spec(&self) -> Seq<char> {
        dec_int(*self as int)
    }

    fn to_json_string(&self) -> (r: String) {
        dec_string_i(*self)
    }
}

impl ToJson for isize {
    open spec fn json_spec(&self) -> Seq<char> {
        dec_int(*self as int)
    }

    fn to_json_string(&self) -> (r: String) {
        dec_string_i(*self as i128)
    }
}

impl ToJson for str {
    open spec fn json_spec(&self) -> Seq<char> {
        string_chars(self@)
    }

    fn to_json_string(&self) -> (r: String) {
        json_string_text(self)
    }
}

impl ToJson for String {
    open spec fn json_spec(&self) -> Seq<char> {
        string_chars(self@)
    }

    fn to_json_string(&self) -> (r: String) {
        json_string_text(self.as_str())
    }
}

impl ToJson for char {
    open spec fn json_spec(&self) -> Seq<char> {
        seq!['"'] + esc_char(*self) + seq!['"']
    }

    fn to_json_string(&self) -> (r: String) {
        let mut out = String::new();
        push_char(&mut out, '"');
        push_escaped(*self, &mut out);
        push_char(&mut out, '"');
        proof {
            assert(out@ =~= seq!['"'] + esc_char(*self) + seq!['"']);
        }
        out
    }
}

impl ToJson for () {
    open spec fn json_spec(&self) -> Seq<char> {
        null_chars()
    }

    fn to_json_string(&self) -> (r: String) {
        null_text()
    }
}

impl<T: ToJson> ToJson for Option<T> {
    /// An absent value renders as `null`; a present one as its payload.
    open spec fn json_spec(&self) -> Seq<char> {
        match self {
            Option::Some(t) => t.json_spec(),
            Option::None => null_chars(),
        }
    }

    fn to_json_string(&self) -> (r: String) {
        match self {
            Option::Some(t) => t.to_json_string(),
            Option::None => null_text(),
        }
    }
}

impl<T: ToJson, E: ToJson> ToJson for Result<T, E> {
    /// Both branches render their payload; success and failure are not
    /// distinguished in the output.
    open spec fn json_spec(&self) -> Seq<char> {
        match self {
            Result::Ok(t) => t.json_spec(),
            Result::Err(e) => e.json_spec(),
        }
    }

    fn to_json_string(&self) -> (r: String) {
        match self {
            Result::Ok(t) => t.to_json_string(),
            Result::Err(e) => e.to_json_string(),
        }
    }
}


/// The elements of a sequence, each rendered by its own serializer, joined
/// by commas.
pub open spec fn join_vals<T: ToJson>(elems: Seq<T>) -> Seq<char>
    decreases elems.len(),
{
    if elems.len() == 0 {
        Seq::empty()
    } else if elems.len() == 1 {
        elems[0].json_spec()
    } else {
        elems[0].json_spec() + seq![','] + join_vals(elems.skip(1))
    }
}

/// Joining one more element appends a comma (unless first) and its text.
pub proof fn lemma_join_vals_push<T: ToJson>(prefix: Seq<T>, x: T)
    ensures
        join_vals(prefix.push(x)) == if prefix.len() == 0 {
            x.json_spec()
        } else {
            join_vals(prefix) + seq![','] + x.json_spec()
        },
    decreases prefix.len(),
{
    let whole = prefix.push(x);
    if prefix.len() == 0 {
        assert(whole.len() == 1 && whole[0] == x);
    } else {
        assert(whole.skip(1) =~= prefix.skip(1).push(x));
        lemma_join_vals_push(prefix.skip(1), x);
        if prefix.len() == 1 {
            assert(join_vals(whole) =~= join_vals(prefix) + seq![','] + x.json_spec());
        } else {
            assert(join_vals(whole) =~= join_vals(prefix) + seq![','] + x.json_spec());
        }
    }
}

impl<T: ToJson> ToJson for [T] {
    /// `[e1,e2,...]`, elements in order.
    open spec fn json_spec(&self) -> Seq<char> {
        seq!['['] + join_vals(self@) + seq![']']
    }

    fn to_json_string(&self) -> (r: String) {
        let mut out = String::new();
        push_char(&mut out, '[');
        let mut i: usize = 0;
        proof {
            assert(self@.take(0) =~= Seq::<T>::empty());
            assert(out@ =~= seq!['['] + join_vals(self@.take(0)));
        }
        while i < self.len()
            invariant
                i <= self@.len(),
                out@ == seq!['['] + join_vals(self@.take(i as int)),
            decreases self@.len() - i,
        {
            if i > 0 {
                push_char(&mut out, ',');
            }
            let s = vstd::slice::slice_index_get(self, i).to_json_string();
            out.append(s.as_str());
            proof {
                lemma_join_vals_push(self@.take(i as int), self@[i as int]);
                assert(self@.take(i as int).push(self@[i as int]) =~= self@.take(i as int + 1));
                assert(out@ =~= seq!['['] + join_vals(self@.take(i as int + 1)));
            }
            i += 1;
        }
        push_char(&mut out, ']');
        proof {
            assert(self@.take(self@.len() as int) =~= self@);
            assert(out@ =~= self.json_spec());
        }
        out
    }
}

impl<T: ToJson, const N: usize> ToJson for [T; N] {
    /// `[e1,e2,...]`, elements in order.
    open spec fn json_spec(&self) -> Seq<char> {
        seq!['['] + join_vals(self@) + seq![']']
    }

    fn to_json_string(&self) -> (r: String) {
        let s = vstd::array::array_as_slice(self);
        s.to_json_string()
    }
}

impl<T: ToJson> ToJson for Vec<T> {
    /// `[e1,e2,...]`, elements in order.
    open spec fn json_spec(&self) -> Seq<char> {
        seq!['['] + join_vals(self@) + seq![']']
    }

    fn to_json_string(&self) -> (r: String) {
        let mut out = String::new();
        push_char(&mut out, '[');
        let mut i: usize = 0;
        proof {
            assert(self@.take(0) =~= Seq::<T>::empty());
            assert(out@ =~= seq!['['] + join_vals(self@.take(0)));
        }
        while i < self.len()
            invariant
                i <= self@.len(),
                out@ == seq!['['] + join_vals(self@.take(i as int)),
            decreases self@.len() - i,
        {
            if i > 0 {
                push_char(&mut out, ',');
            }
            let s = self[i].to_json_string();
            out.append(s.as_str());
            proof {
                lemma_join_vals_push(self@.take(i as int), self@[i as int]);
                assert(self@.take(i as int).push(self@[i as int]) =~= self@.take(i as int + 1));
                assert(out@ =~= seq!['['] + join_vals(self@.take(i as int + 1)));
            }
            i += 1;
        }
        push_char(&mut out, ']');
        proof {
            assert(self@.take(self@.len() as int) =~= self@);
            assert(out@ =~= self.json_spec());
        }
        out
    }
}

impl<T: ToJson> ToJson for VecDeque<T> {
    /// `[e1,e2,...]`, front to back.
    open spec fn json_spec(&self) -> Seq<char> {
        seq!['['] + join_vals(self@) + seq![']']
    }

    fn to_json_string(&self) -> (r: String) {
        let mut out = String::new();
        push_char(&mut out, '[');
        let mut i: usize = 0;
        proof {
            assert(self@.take(0) =~= Seq::<T>::empty());
            assert(out@ =~= seq!['['] + join_vals(self@.take(0)));
        }
        while i < self.len()
            invariant
                i <= self@.len(),
                out@ == seq!['['] + join_vals(self@.take(i as int)),
            decreases self@.len() - i,
        {
            if i > 0 {
                push_char(&mut out, ',');
            }
            let s = self[i].to_json_string();
            out.append(s.as_str());
            proof {
                lemma_join_vals_push(self@.take(i as int), self@[i as int]);
                assert(self@.take(i as int).push(self@[i as int]) =~= self@.take(i as int + 1));
                assert(out@ =~= seq!['['] + join_vals(self@.take(i as int + 1)));
            }
            i += 1;
        }
        push_char(&mut out, ']');
        proof {
            assert(self@.take(self@.len() as int) =~= self@);
            assert(out@ =~= self.json_spec());
        }
        out
    }
}

/// One object entry: the key quoted and escaped, a colon, then the value's
/// already-rendered text.
pub open spec fn entry_chars(k: Seq<char>, vtext: Seq<char>) -> Seq<char> {
    seq!['"'] + esc_chars(k) + seq!['"', ':'] + vtext
}

/// Key/text pairs joined by commas.
pub open spec fn join_entries(pairs: Seq<(String, String)>) -> Seq<char>
    decreases pairs.len(),
{
    if pairs.len() == 0 {
        Seq::empty()
    } else if pairs.len() == 1 {
        entry_chars(pairs[0].0@, pairs[0].1@)
    } else {
        entry_chars(pairs[0].0@, pairs[0].1@) + seq![','] + join_entries(pairs.skip(1))
    }
}

pub proof fn lemma_join_entries_push(prefix: Seq<(String, String)>, x: (String, String))
    ensures
        join_entries(prefix.push(x)) == if prefix.len() == 0 {
            entry_chars(x.0@, x.1@)
        } else {
            join_entries(prefix) + seq![','] + entry_chars(x.0@, x.1@)
        },
    decreases prefix.len(),
{
    let whole = prefix.push(x);
    if prefix.len() == 0 {
        assert(whole.len() == 1 && whole[0] == x);
    } else {
        assert(whole.skip(1) =~= prefix.skip(1).push(x));
        lemma_join_entries_push(prefix.skip(1), x);
        assert(join_entries(whole) =~= join_entries(prefix) + seq![','] + entry_chars(x.0@, x.1@));
    }
}

/// Renders an object from field names and already-serialized field texts:
/// `{"k1":v1,"k2":v2,...}` in the given order. This is the shape of a record
/// with named fields, of a variant with named fields, and of an associative
/// container whose entries the caller lays out.
pub fn json_object_text(pairs: &Vec<(String, String)>) -> (r: String)
    ensures
        r@ == seq!['{'] + join_entries(pairs@) + seq!['}'],
{
    let mut out = String::new();
    push_char(&mut out, '{');
    let mut i: usize = 0;
    proof {
        assert(pairs@.take(0) =~= Seq::<(String, String)>::empty());
        assert(out@ =~= seq!['{'] + join_entries(pairs@.take(0)));
    }
    while i < pairs.len()
        invariant
            i <= pairs@.len(),
            out@ == seq!['{'] + join_entries(pairs@.take(i as int)),
        decreases pairs@.len() - i,
    {
        if i > 0 {
            push_char(&mut out, ',');
        }
        push_char(&mut out, '"');
        push_escaped_str(pairs[i].0.as_str(), &mut out);
        push_char(&mut out, '"');
        push_char(&mut out, ':');
        out.append(pairs[i].1.as_str());
        proof {
            lemma_join_entries_push(pairs@.take(i as int), pairs@[i as int]);
            assert(pairs@.take(i as int).push(pairs@[i as int]) =~= pairs@.take(i as int + 1));
            assert(out@ =~= seq!['{'] + join_entries(pairs@.take(i as int + 1)));
        }
        i += 1;
    }
    push_char(&mut out, '}');
    proof {
        assert(pairs@.take(pairs@.len() as int) =~= pairs@);
        assert(out@ =~= seq!['{'] + join_entries(pairs@) + seq!['}']);
    }
    out
}

/// Already-rendered texts joined by commas.
pub open spec fn join_texts(items: Seq<String>) -> Seq<char>
    decreases items.len(),
{
    if items.len() == 0 {
        Seq::empty()
    } else if items.len() == 1 {
        items[0]@
    } else {
        items[0]@ + seq![','] + join_texts(items.skip(1))
    }
}

pub proof fn lemma_join_texts_push(prefix: Seq<String>, x: String)
    ensures
        join_texts(prefix.push(x)) == if prefix.len() == 0 {
            x@
        } else {
            join_texts(prefix) + seq![','] + x@
        },
    decreases prefix.len(),
{
    let whole = prefix.push(x);
    if prefix.len() == 0 {
        assert(whole.len() == 1 && whole[0] == x);
    } else {
        assert(whole.skip(1) =~= prefix.skip(1).push(x));
        lemma_join_texts_push(prefix.skip(1), x);
        assert(join_texts(whole) =~= join_texts(prefix) + seq![','] + x@);
    }
}

/// Renders an array from already-serialized element texts:
/// `[e1,e2,...]` in the given order. This is the shape of a record or
/// variant with several unnamed fields.
pub fn json_array_text(items: &Vec<String>) -> (r: String)
    ensures
        r@ == seq!['['] + join_texts(items@) + seq![']'],
{
    let mut out = String::new();
    push_char(&mut out, '[');
    let mut i: usize = 0;
    proof {
        assert(items@.take(0) =~= Seq::<String>::empty());
        assert(out@ =~= seq!['['] + join_texts(items@.take(0)));
    }
    while i < items.len()
        invariant
            i <= items@.len(),
            out@ == seq!['['] + join_texts(items@.take(i as int)),
        decreases items@.len() - i,
    {
        if i > 0 {
            push_char(&mut out, ',');
        }
        out.append(items[i].as_str());
        proof {
            lemma_join_texts_push(items@.take(i as int), items@[i as int]);
            assert(items@.take(i as int).push(items@[i as int]) =~= items@.take(i as int + 1));
            assert(out@ =~= seq!['['] + join_texts(items@.take(i as int + 1)));
        }
        i += 1;
    }
    push_char(&mut out, ']');
    proof {
        assert(items@.take(items@.len() as int) =~= items@);
        assert(out@ =~= seq!['['] + join_texts(items@) + seq![']']);
    }
    out
}


impl<A: ToJson, B: ToJson> ToJson for (A, B) {
    open spec fn json_spec(&self) -> Seq<char> {
        seq!['['] + self.0.json_spec() + seq![','] + self.1.json_spec() + seq![']']
    }

    fn to_json_string(&self) -> (r: String) {
        let mut out = String::new();
        push_char(&mut out, '[');
        let s0 = self.0.to_json_string();
        out.append(s0.as_str());
        push_char(&mut out, ',');
        let s1 = self.1.to_json_string();
        out.append(s1.as_str());
        push_char(&mut out, ']');
        proof {
            assert(out@ =~= self.json_spec());
        }
        out
    }
}

impl<A: ToJson, B: ToJson, C: ToJson> ToJson for (A, B, C) {
    open spec fn json_spec(&self) -> Seq<char> {
        seq!['['] + self.0.json_spec() + seq![','] + self.1.json_spec() + seq![','] + self.2.json_spec() + seq![']']
    }

    fn to_json_string(&self) -> (r: String) {
        let mut out = String::new();
        push_char(&mut out, '[');
        let s0 = self.0.to_json_string();
        out.append(s0.as_str());
        push_char(&mut out, ',');
        let s1 = self.1.to_json_string();
        out.append(s1.as_str());
        push_char(&mut out, ',');
        let s2 = self.2.to_json_string();
        out.append(s2.as_str());
        push_char(&mut out, ']');
        proof {
            assert(out@ =~= self.json_spec());
        }
        out
    }
}

impl<A: ToJson, B: ToJson, C: ToJson, D: ToJson> ToJson for (A, B, C, D) {
    open spec fn json_spec(&self) -> Seq<char> {
        seq!['['] + self.0.json_spec() + seq![','] + self.1.json_spec() + seq![','] + self.2.json_spec() + seq![','] + self.3.json_spec() + seq![']']
    }

    fn to_json_string(&self) -> (r: String) {
        let mut out = String::new();
        push_char(&mut out, '[');
        let s0 = self.0.to_json_string();
        out.append(s0.as_str());
        push_char(&mut out, ',');
        let s1 = self.1.to_json_string();
        out.append(s1.as_str());
        push_char(&mut out, ',');
        let s2 = self.2.to_json_string();
        out.append(s2.as_str());
        push_char(&mut out, ',');
        let s3 = self.3.to_json_string();
        out.append(s3.as_str());
        push_char(&mut out, ']');
        proof {
            assert(out@ =~= self.json_spec());
        }
        out
    }
}

impl<A: ToJson, B: ToJson, C: ToJson, D: ToJson, E: ToJson> ToJson for (A, B, C, D, E) {
    open spec fn json_spec(&self) -> Seq<char> {
        seq!['['] + self.0.json_spec() + seq![','] + self.1.json_spec() + seq![','] + self.2.json_spec() + seq![','] + self.3.json_spec() + seq![','] + self.4.json_spec() + seq![']']
    }

    fn to_json_string(&self) -> (r: String) {
        let mut out = String::new();
        push_char(&mut out, '[');
        let s0 = self.0.to_json_string();
        out.append(s0.as_str());
        push_char(&mut out, ',');
        let s1 = self.1.to_json_string();
        out.append(s1.as_str());
        push_char(&mut out, ',');
        let s2 = self.2.to_json_string();
        out.append(s2.as_str());
        push_char(&mut out, ',');
        let s3 = self.3.to_json_string();
        out.append(s3.as_str());
        push_char(&mut out, ',');
        let s4 = self.4.to_json_string();
        out.append(s4.as_str());
        push_char(&mut out, ']');
        proof {
            assert(out@ =~= self.json_spec());
        }
        out
    }
}

impl<A: ToJson, B: ToJson, C: ToJson, D: ToJson, E: ToJson, F: ToJson> ToJson for (A, B, C, D, E, F) {
    open spec fn json_spec(&self) -> Seq<char> {
        seq!['['] + self.0.json_spec() + seq![','] + self.1.json_spec() + seq![','] + self.2.json_spec() + seq![','] + self.3.json_spec() + seq![','] + self.4.json_spec() + seq![','] + self.5.json_spec() + seq![']']
    }

    fn to_json_string(&self) -> (r: String) {
        let mut out = String::new();
        push_char(&mut out, '[');
        let s0 = self.0.to_json_string();
        out.append(s0.as_str());
        push_char(&mut out, ',');
        let s1 = self.1.to_json_string();
        out.append(s1.as_str());
        push_char(&mut out, ',');
        let s2 = self.2.to_json_string();
        out.append(s2.as_str());
        push_char(&mut out, ',');
        let s3 = self.3.to_json_string();
        out.append(s3.as_str());
        push_char(&mut out, ',');
        let s4 = self.4.to_json_string();
        out.append(s4.as_str());
        push_char(&mut out, ',');
        let s5 = self.5.to_json_string();
        out.append(s5.as_str());
        push_char(&mut out, ']');
        proof {
            assert(out@ =~= self.json_spec());
        }
        out
    }
}

impl<A: ToJson, B: ToJson, C: ToJson, D: ToJson, E: ToJson, F: ToJson, G: ToJson> ToJson for (A, B, C, D, E, F, G) {
    open spec fn json_spec(&self) -> Seq<char> {
        seq!['['] + self.0.json_spec() + seq![','] + self.1.json_spec() + seq![','] + self.2.json_spec() + seq![','] + self.3.json_spec() + seq![','] + self.4.json_spec() + seq![','] + self.5.json_spec() + seq![','] + self.6.json_spec() + seq![']']
    }

    fn to_json_string(&self) -> (r: String) {
        let mut out = String::new();
        push_char(&mut out, '[');
        let s0 = self.0.to_json_string();
        out.append(s0.as_str());
        push_char(&mut out, ',');
        let s1 = self.1.to_json_string();
        out.append(s1.as_str());
        push_char(&mut out, ',');
        let s2 = self.2.to_json_string();
        out.append(s2.as_str());
        push_char(&mut out, ',');
        let s3 = self.3.to_json_string();
        out.append(s3.as_str());
        push_char(&mut out, ',');
        let s4 = self.4.to_json_string();
        out.append(s4.as_str());
        push_char(&mut out, ',');
        let s5 = self.5.to_json_string();
        out.append(s5.as_str());
        push_char(&mut out, ',');
        let s6 = self.6.to_json_string();
        out.append(s6.as_str());
        push_char(&mut out, ']');
        proof {
            assert(out@ =~= self.json_spec());
        }
        out
    }
}

impl<A: ToJson, B: ToJson, C: ToJson, D: ToJson, E: ToJson, F: ToJson, G: ToJson, H: ToJson> ToJson for (A, B, C, D, E, F, G, H) {
    open spec fn json_spec(&self) -> Seq<char> {
        seq!['['] + self.0.json_spec() + seq![','] + self.1.json_spec() + seq![','] + self.2.json_spec() + seq![','] + self.3.json_spec() + seq![','] + self.4.json_spec() + seq![','] + self.5.json_spec() + seq![','] + self.6.json_spec() + seq![','] + self.7.json_spec() + seq![']']
    }

    fn to_json_string(&self) -> (r: String) {
        let mut out = String::new();
        push_char(&mut out, '[');
        let s0 = self.0.to_json_string();
        out.append(s0.as_str());
        push_char(&mut out, ',');
        let s1 = self.1.to_json_string();
        out.append(s1.as_str());
        push_char(&mut out, ',');
        let s2 = self.2.to_json_string();
        out.append(s2.as_str());
        push_char(&mut out, ',');
        let s3 = self.3.to_json_string();
        out.append(s3.as_str());
        push_char(&mut out, ',');
        let s4 = self.4.to_json_string();
        out.append(s4.as_str());
        push_char(&mut out, ',');
        let s5 = self.5.to_json_string();
        out.append(s5.as_str());
        push_char(&mut out, ',');
        let s6 = self.6.to_json_string();
        out.append(s6.as_str());
        push_char(&mut out, ',');
        let s7 = self.7.to_json_string();
        out.append(s7.as_str());
        push_char(&mut out, ']');
        proof {
            assert(out@ =~= self.json_spec());
        }
        out
    }
}

impl<A: ToJson, B: ToJson, C: ToJson, D: ToJson, E: ToJson, F: ToJson, G: ToJson, H: ToJson, I: ToJson> ToJson for (A, B, C, D, E, F, G, H, I) {
    open spec fn json_spec(&self) -> Seq<char> {
        seq!['['] + self.0.json_spec() + seq![','] + self.1.json_spec() + seq![','] + self.2.json_spec() + seq![','] + self.3.json_spec() + seq![','] + self.4.json_spec() + seq![','] + self.5.json_spec() + seq![','] + self.6.json_spec() + seq![','] + self.7.json_spec() + seq![','] + self.8.json_spec() + seq![']']
    }

    fn to_json_string(&self) -> (r: String) {
        let mut out = String::new();
        push_char(&mut out, '[');
        let s0 = self.0.to_json_string();
        out.append(s0.as_str());
        push_char(&mut out, ',');
        let s1 = self.1.to_json_string();
        out.append(s1.as_str());
        push_char(&mut out, ',');
        let s2 = self.2.to_json_string();
        out.append(s2.as_str());
        push_char(&mut out, ',');
        let s3 = self.3.to_json_string();
        out.append(s3.as_str());
        push_char(&mut out, ',');
        let s4 = self.4.to_json_string();
        out.append(s4.as_str());
        push_char(&mut out, ',');
        let s5 = self.5.to_json_string();
        out.append(s5.as_str());
        push_char(&mut out, ',');
        let s6 = self.6.to_json_string();
        out.append(s6.as_str());
        push_char(&mut out, ',');
        let s7 = self.7.to_json_string();
        out.append(s7.as_str());
        push_char(&mut out, ',');
        let s8 = self.8.to_json_string();
        out.append(s8.as_str());
        push_char(&mut out, ']');
        proof {
            assert(out@ =~= self.json_spec());
        }
        out
    }
}

impl<A: ToJson, B: ToJson, C: ToJson, D: ToJson, E: ToJson, F: ToJson, G: ToJson, H: ToJson, I: ToJson, J: ToJson> ToJson for (A, B, C, D, E, F, G, H, I, J) {
    open spec fn json_spec(&self) -> Seq<char> {
        seq!['['] + self.0.json_spec() + seq![','] + self.1.json_spec() + seq![','] + self.2.json_spec() + seq![','] + self.3.json_spec() + seq![','] + self.4.json_spec() + seq![','] + self.5.json_spec() + seq![','] + self.6.json_spec() + seq![','] + self.7.json_spec() + seq![','] + self.8.json_spec() + seq![','] + self.9.json_spec() + seq![']']
    }

    fn to_json_string(&self) -> (r: String) {
        let mut out = String::new();
        push_char(&mut out, '[');
        let s0 = self.0.to_json_string();
        out.append(s0.as_str());
        push_char(&mut out, ',');
        let s1 = self.1.to_json_string();
        out.append(s1.as_str());
        push_char(&mut out, ',');
        let s2 = self.2.to_json_string();
        out.append(s2.as_str());
        push_char(&mut out, ',');
        let s3 = self.3.to_json_string();
        out.append(s3.as_str());
        push_char(&mut out, ',');
        let s4 = self.4.to_json_string();
        out.append(s4.as_str());
        push_char(&mut out, ',');
        let s5 = self.5.to_json_string();
        out.append(s5.as_str());
        push_char(&mut out, ',');
        let s6 = self.6.to_json_string();
        out.append(s6.as_str());
        push_char(&mut out, ',');
        let s7 = self.7.to_json_string();
        out.append(s7.as_str());
        push_char(&mut out, ',');
        let s8 = self.8.to_json_string();
        out.append(s8.as_str());
        push_char(&mut out, ',');
        let s9 = self.9.to_json_string();
        out.append(s9.as_str());
        push_char(&mut out, ']');
        proof {
            assert(out@ =~= self.json_spec());
        }
        out
    }
}

impl<A: ToJson, B: ToJson, C: ToJson, D: ToJson, E: ToJson, F: ToJson, G: ToJson, H: ToJson, I: ToJson, J: ToJson, K: ToJson> ToJson for (A, B, C, D, E, F, G, H, I, J, K) {
    open spec fn json_spec(&self) -> Seq<char> {
        seq!['['] + self.0.json_spec() + seq![','] + self.1.json_spec() + seq![','] + self.2.json_spec() + seq![','] + self.3.json_spec() + seq![','] + self.4.json_spec() + seq![','] + self.5.json_spec() + seq![','] + self.6.json_spec() + seq![','] + self.7.json_spec() + seq![','] + self.8.json_spec() + seq![','] + self.9.json_spec() + seq![','] + self.10.json_spec() + seq![']']
    }

    fn to_json_string(&self) -> (r: String) {
        let mut out = String::new();
        push_char(&mut out, '[');
        let s0 = self.0.to_json_string();
        out.append(s0.as_str());
        push_char(&mut out, ',');
        let s1 = self.1.to_json_string();
        out.append(s1.as_str());
        push_char(&mut out, ',');
        let s2 = self.2.to_json_string();
        out.append(s2.as_str());
        push_char(&mut out, ',');
        let s3 = self.3.to_json_string();
        out.append(s3.as_str());
        push_char(&mut out, ',');
        let s4 = self.4.to_json_string();
        out.append(s4.as_str());
        push_char(&mut out, ',');
        let s5 = self.5.to_json_string();
        out.append(s5.as_str());
        push_char(&mut out, ',');
        let s6 = self.6.to_json_string();
        out.append(s6.as_str());
        push_char(&mut out, ',');
        let s7 = self.7.to_json_string();
        out.append(s7.as_str());
        push_char(&mut out, ',');
        let s8 = self.8.to_json_string();
        out.append(s8.as_str());
        push_char(&mut out, ',');
        let s9 = self.9.to_json_string();
        out.append(s9.as_str());
        push_char(&mut out, ',');
        let s10 = self.10.to_json_string();
        out.append(s10.as_str());
        push_char(&mut out, ']');
        proof {
            assert(out@ =~= self.json_spec());
        }
        out
    }
}

impl<A: ToJson, B: ToJson, C: ToJson, D: ToJson, E: ToJson, F: ToJson, G: ToJson, H: ToJson, I: ToJson, J: ToJson, K: ToJson, L: ToJson> ToJson for (A, B, C, D, E, F, G, H, I, J, K, L) {
    open spec fn json_spec(&self) -> Seq<char> {
        seq!['['] + self.0.json_spec() + seq![','] + self.1.json_spec() + seq![','] + self.2.json_spec() + seq![','] + self.3.json_spec() + seq![','] + self.4.json_spec() + seq![','] + self.5.json_spec() + seq![','] + self.6.json_spec() + seq![','] + self.7.json_spec() + seq![','] + self.8.json_spec() + seq![','] + self.9.json_spec() + seq![','] + self.10.json_spec() + seq![','] + self.11.json_spec() + seq![']']
    }

    fn to_json_string(&self) -> (r: String) {
        let mut out = String::new();
        push_char(&mut out, '[');
        let s0 = self.0.to_json_string();
        out.append(s0.as_str());
        push_char(&mut out, ',');
        let s1 = self.1.to_json_string();
        out.append(s1.as_str());
        push_char(&mut out, ',');
        let s2 = self.2.to_json_string();
        out.append(s2.as_str());
        push_char(&mut out, ',');
        let s3 = self.3.to_json_string();
        out.append(s3.as_str());
        push_char(&mut out, ',');
        let s4 = self.4.to_json_string();
        out.append(s4.as_str());
        push_char(&mut out, ',');
        let s5 = self.5.to_json_string();
        out.append(s5.as_str());
        push_char(&mut out, ',');
        let s6 = self.6.to_json_string();
        out.append(s6.as_str());
        push_char(&mut out, ',');
        let s7 = self.7.to_json_string();
        out.append(s7.as_str());
        push_char(&mut out, ',');
        let s8 = self.8.to_json_string();
        out.append(s8.as_str());
        push_char(&mut out, ',');
        let s9 = self.9.to_json_string();
        out.append(s9.as_str());
        push_char(&mut out, ',');
        let s10 = self.10.to_json_string();
        out.append(s10.as_str());
        push_char(&mut out, ',');
        let s11 = self.11.to_json_string();
        out.append(s11.as_str());
        push_char(&mut out, ']');
        proof {
            assert(out@ =~= self.json_spec());
        }
        out
    }
}


/// The compact text of a parsed value: `ser_val` of the value model.
pub open spec fn ser_val(v: JsonVal) -> Seq<char>
    decreases v,
{
    match v {
        JsonVal::Null => null_chars(),
        JsonVal::Bool(b) => if b {
            true_chars()
        } else {
            false_chars()
        },
        JsonVal::Number(cs) => cs,
        JsonVal::String(cs) => string_chars(cs),
        JsonVal::Array(items) => seq!['['] + ser_items(items) + seq![']'],
        JsonVal::Object(ents) => seq!['{'] + ser_entries(ents) + seq!['}'],
    }
}

/// Array elements joined by commas.
pub open spec fn ser_items(items: Seq<JsonVal>) -> Seq<char>
    decreases items,
{
    if items.len() == 0 {
        Seq::empty()
    } else if items.len() == 1 {
        ser_val(items[0])
    } else {
        ser_val(items[0]) + seq![','] + ser_items(items.skip(1))
    }
}

/// One rendered object entry.
pub open spec fn ser_entry(e: (Seq<char>, JsonVal)) -> Seq<char>
    decreases e,
{
    seq!['"'] + esc_chars(e.0) + seq!['"', ':'] + ser_val(e.1)
}

/// Object entries joined by commas, in stored (key) order.
pub open spec fn ser_entries(ents: Seq<(Seq<char>, JsonVal)>) -> Seq<char>
    decreases ents,
{
    if ents.len() == 0 {
        Seq::empty()
    } else if ents.len() == 1 {
        ser_entry(ents[0])
    } else {
        ser_entry(ents[0]) + seq![','] + ser_entries(ents.skip(1))
    }
}

pub proof fn lemma_ser_items_push(prefix: Seq<JsonVal>, x: JsonVal)
    ensures
        ser_items(prefix.push(x)) == if prefix.len() == 0 {
            ser_val(x)
        } else {
            ser_items(prefix) + seq![','] + ser_val(x)
        },
    decreases prefix.len(),
{
    let whole = prefix.push(x);
    if prefix.len() == 0 {
        assert(whole.len() == 1 && whole[0] == x);
    } else {
        assert(whole.skip(1) =~= prefix.skip(1).push(x));
        lemma_ser_items_push(prefix.skip(1), x);
        assert(ser_items(whole) =~= ser_items(prefix) + seq![','] + ser_val(x));
    }
}

pub proof fn lemma_ser_entries_push(prefix: Seq<(Seq<char>, JsonVal)>, x: (Seq<char>, JsonVal))
    ensures
        ser_entries(prefix.push(x)) == if prefix.len() == 0 {
            ser_entry(x)
        } else {
            ser_entries(prefix) + seq![','] + ser_entry(x)
        },
    decreases prefix.len(),
{
    let whole = prefix.push(x);
    if prefix.len() == 0 {
        assert(whole.len() == 1 && whole[0] == x);
    } else {
        assert(whole.skip(1) =~= prefix.skip(1).push(x));
        lemma_ser_entries_push(prefix.skip(1), x);
        assert(ser_entries(whole) =~= ser_entries(prefix) + seq![','] + ser_entry(x));
    }
}

/// Appends the compact text of a value tree.
pub fn write_value(v: &JsonValue, out: &mut String)
    ensures
        final(out)@ == old(out)@ + ser_val(v@),
    decreases v,
{
    match v {
        JsonValue::Null => {
            out.append("null");
            proof {
                reveal_strlit("null");
                assert(final(out)@ =~= old(out)@ + ser_val(v@));
            }
        },
        JsonValue::Bool(b) => {
            if *b {
                out.append("true");
                proof {
                    reveal_strlit("true");
                    assert(final(out)@ =~= old(out)@ + ser_val(v@));
                }
            } else {
                out.append("false");
                proof {
                    reveal_strlit("false");
                    assert(final(out)@ =~= old(out)@ + ser_val(v@));
                }
            }
        },
        JsonValue::Number(text) => {
            out.append(text.as_str());
        },
        JsonValue::String(text) => {
            push_json_string(text.as_str(), out);
        },
        JsonValue::Array(elems) => {
            let ghost items = crate::value::arr_view(elems@);
            proof {
                crate::value::lemma_arr_view(elems@);
            }
            push_char(out, '[');
            let mut i: usize = 0;
            proof {
                assert(items.take(0) =~= Seq::<JsonVal>::empty());
                assert(out@ =~= old(out)@ + seq!['['] + ser_items(items.take(0)));
            }
            while i < elems.len()
                invariant
                    *v == JsonValue::Array(*elems),
                    i <= elems@.len() == items.len(),
                    items == crate::value::arr_view(elems@),
                    forall|m: int| 0 <= m < items.len() ==> #[trigger] items[m] == elems@[m]@,
                    out@ == old(out)@ + seq!['['] + ser_items(items.take(i as int)),
                decreases elems@.len() - i,
            {
                if i > 0 {
                    push_char(out, ',');
                }
                proof {
                    assert(decreases_to!(*v => (*v)->Array_0));
                    assert(decreases_to!(*elems => elems@[i as int]));
                }
                write_value(&elems[i], out);
                proof {
                    lemma_ser_items_push(items.take(i as int), items[i as int]);
                    assert(items.take(i as int).push(items[i as int]) =~= items.take(i as int + 1));
                    assert(out@ =~= old(out)@ + seq!['['] + ser_items(items.take(i as int + 1)));
                }
                i += 1;
            }
            push_char(out, ']');
            proof {
                assert(items.take(items.len() as int) =~= items);
                assert(final(out)@ =~= old(out)@ + ser_val(v@));
            }
        },
        JsonValue::Object(entries) => {
            let ghost ents = crate::value::obj_view(entries@);
            proof {
                crate::value::lemma_obj_view(entries@);
            }
            push_char(out, '{');
            let mut i: usize = 0;
            proof {
                assert(ents.take(0) =~= Seq::<(Seq<char>, JsonVal)>::empty());
                assert(out@ =~= old(out)@ + seq!['{'] + ser_entries(ents.take(0)));
            }
            while i < entries.len()
                invariant
                    *v == JsonValue::Object(*entries),
                    i <= entries@.len() == ents.len(),
                    ents == crate::value::obj_view(entries@),
                    forall|m: int|
                        0 <= m < ents.len() ==> #[trigger] ents[m] == (
                            entries@[m].0@,
                            entries@[m].1@,
                        ),
                    out@ == old(out)@ + seq!['{'] + ser_entries(ents.take(i as int)),
                decreases entries@.len() - i,
            {
                if i > 0 {
                    push_char(out, ',');
                }
                push_char(out, '"');
                push_escaped_str(entries[i].0.as_str(), out);
                push_char(out, '"');
                push_char(out, ':');
                proof {
                    assert(decreases_to!(*v => (*v)->Object_0));
                    assert(decreases_to!(*entries => entries@[i as int]));
                    assert(decreases_to!(entries@[i as int] => entries@[i as int].1));
                }
                write_value(&entries[i].1, out);
                proof {
                    lemma_ser_entries_push(ents.take(i as int), ents[i as int]);
                    assert(ents.take(i as int).push(ents[i as int]) =~= ents.take(i as int + 1));
                    assert(out@ =~= old(out)@ + seq!['{'] + ser_entries(ents.take(i as int + 1)));
                }
                i += 1;
            }
            push_char(out, '}');
            proof {
                assert(ents.take(ents.len() as int) =~= ents);
                assert(final(out)@ =~= old(out)@ + ser_val(v@));
            }
        },
    }
}

impl ToJson for JsonValue {
    /// The value-model serializer: parse and serialize compose to a round
    /// trip (see `crate::laws`).
    open spec fn json_spec(&self) -> Seq<char> {
        ser_val(self@)
    }

    fn to_json_string(&self) -> (r: String) {
        let mut out = String::new();
        write_value(self, &mut out);
        proof {
            assert(Seq::<char>::empty() + ser_val(self@) =~= ser_val(self@));
        }
        out
    }
}

} // verus!
