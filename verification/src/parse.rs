//! The parser. `sp_value` and its companions are the mathematical account of
//! what the recursive-descent parser returns on every input; the executable
//! parser below is proved to return exactly that.
//!
//! The spec functions thread an explicit cursor through the byte sequence.
//! Recursive calls that move the cursor forward are guarded by the bounds
//! that in fact always hold (the cursor advances and stays inside the input);
//! the guards only serve the termination measure, and
//! `lemma_sp_value_advances` shows the guarded branches are never taken.
//!
//! Deliberate limitations, kept as documented behaviour: only the ASCII
//! whitespace bytes space, tab, CR and LF are skipped; strings undergo no
//! escape processing, so a backslash before a quote still ends the string;
//! numbers are validated by the explicit grammar in `crate::num`; object
//! keys must be string literals; a string body that is not valid UTF-8 is a
//! parse failure.

use vstd::prelude::*;
use vstd::pervasive::arbitrary;
use vstd::slice::{slice_subrange, slice_to_vec};
use vstd::string::StringSliceAdditionalSpecFns;
use vstd::utf8::{decode_utf8, encode_utf8, valid_utf8};
use crate::num::{check_number, is_digit, is_num_byte, num_valid};
use crate::text::{ascii_chars, bytes_to_string, lemma_ascii_decode, lemma_decoded_view};
use crate::value::{obj_insert, Error, ErrorKind, JsonVal, JsonValue, Location};

verus! {

broadcast use {
    vstd::seq::group_seq_axioms,
    vstd::seq_lib::group_seq_lib_default,
};

/// An ASCII whitespace byte the parser skips: space, tab, CR, LF.
pub open spec fn is_ws(b: u8) -> bool {
    b == 32 || b == 9 || b == 13 || b == 10
}

/// The first index at or after `pos` holding a non-whitespace byte, or the
/// length of the input.
pub open spec fn skip_ws(s: Seq<u8>, pos: int) -> int
    decreases s.len() - pos,
{
    if 0 <= pos && pos < s.len() && is_ws(s[pos]) {
        skip_ws(s, pos + 1)
    } else {
        pos
    }
}

/// The first index at or after `from` holding `needle`, if any.
pub open spec fn find_from(s: Seq<u8>, from: int, needle: u8) -> Option<int>
    decreases s.len() - from,
{
    if !(0 <= from && from < s.len()) {
        None
    } else if s[from] == needle {
        Some(from)
    } else {
        find_from(s, from + 1, needle)
    }
}

/// The end of the greedy run of numeric-looking bytes starting at `pos`.
pub open spec fn num_run_end(s: Seq<u8>, pos: int) -> int
    decreases s.len() - pos,
{
    if 0 <= pos && pos < s.len() && is_num_byte(s[pos]) {
        num_run_end(s, pos + 1)
    } else {
        pos
    }
}

/// Whether `lit` stands verbatim at `pos`.
pub open spec fn match_at(s: Seq<u8>, pos: int, lit: Seq<u8>) -> bool {
    0 <= pos && pos + lit.len() <= s.len() && s.subrange(pos, pos + lit.len()) == lit
}

pub open spec fn null_lit() -> Seq<u8> {
    seq![110u8, 117u8, 108u8, 108u8]
}

pub open spec fn true_lit() -> Seq<u8> {
    seq![116u8, 114u8, 117u8, 101u8]
}

pub open spec fn false_lit() -> Seq<u8> {
    seq![102u8, 97u8, 108u8, 115u8, 101u8]
}

/// The outcome of parsing one value starting at some cursor: the value and
/// the cursor one past it, or a failure with the byte offset the error is
/// reported at (if the cursor still stood inside the input).
pub enum ValStep {
    Good { v: JsonVal, end: int },
    Bad { kind: ErrorKind, at: Option<int> },
}

/// The outcome of parsing one string token.
pub enum StrStep {
    Good { cs: Seq<char>, end: int },
    Bad { kind: ErrorKind, at: Option<int> },
}

/// One string token at `pos` (which holds the opening quote): the content
/// runs to the next `"` byte — no escape processing at all, a documented
/// limitation — and must be valid UTF-8.
pub open spec fn sp_string(s: Seq<u8>, pos: int) -> StrStep {
    let start = pos + 1;
    match find_from(s, start, 34) {
        Option::None => StrStep::Bad { kind: ErrorKind::UnterminatedString, at: Some(start) },
        Option::Some(q) => if valid_utf8(s.subrange(start, q)) {
            StrStep::Good { cs: decode_utf8(s.subrange(start, q)), end: q + 1 }
        } else {
            StrStep::Bad { kind: ErrorKind::InvalidUtf8, at: Some(start) }
        },
    }
}

/// One number at `pos`: the greedy numeric run, accepted iff it satisfies
/// the numeric grammar.
pub open spec fn sp_number(s: Seq<u8>, pos: int) -> ValStep {
    let end = num_run_end(s, pos);
    if num_valid(s, pos, end) {
        ValStep::Good { v: JsonVal::Number(ascii_chars(s.subrange(pos, end))), end }
    } else {
        ValStep::Bad { kind: ErrorKind::InvalidNumber, at: Some(end) }
    }
}

/// One keyword literal at `pos`.
pub open spec fn sp_lit(s: Seq<u8>, pos: int, lit: Seq<u8>, v: JsonVal) -> ValStep {
    if match_at(s, pos, lit) {
        ValStep::Good { v, end: pos + lit.len() }
    } else {
        ValStep::Bad { kind: ErrorKind::InvalidLiteral, at: Some(pos) }
    }
}

/// `true` or `false` at `pos`.
pub open spec fn sp_bool(s: Seq<u8>, pos: int) -> ValStep {
    if match_at(s, pos, true_lit()) {
        ValStep::Good { v: JsonVal::Bool(true), end: pos + 4 }
    } else if match_at(s, pos, false_lit()) {
        ValStep::Good { v: JsonVal::Bool(false), end: pos + 5 }
    } else {
        ValStep::Bad { kind: ErrorKind::InvalidLiteral, at: Some(pos) }
    }
}

/// One value at `pos`, dispatched on the byte there.
pub open spec fn sp_value(s: Seq<u8>, pos: int) -> ValStep
    decreases s.len() - pos, 1int,
{
    if !(0 <= pos && pos < s.len()) {
        ValStep::Bad { kind: ErrorKind::UnexpectedEof, at: None }
    } else {
        let b = s[pos];
        if b == 110 {  // 'n'
            sp_lit(s, pos, null_lit(), JsonVal::Null)
        } else if b == 116 || b == 102 {  // 't' | 'f'
            sp_bool(s, pos)
        } else if b == 34 {  // '"'
            match sp_string(s, pos) {
                StrStep::Good { cs, end } => ValStep::Good { v: JsonVal::String(cs), end },
                StrStep::Bad { kind, at } => ValStep::Bad { kind, at },
            }
        } else if b == 91 {  // '['
            sp_array(s, pos)
        } else if b == 123 {  // '{'
            sp_object(s, pos)
        } else if is_digit(b) || b == 45 {  // '-'
            sp_number(s, pos)
        } else {
            ValStep::Bad { kind: ErrorKind::UnexpectedChar(b), at: Some(pos) }
        }
    }
}

/// An array at `pos` (which holds `[`).
pub open spec fn sp_array(s: Seq<u8>, pos: int) -> ValStep
    decreases s.len() - pos, 0int,
{
    let p1 = skip_ws(s, pos + 1);
    if p1 < s.len() && s[p1] == 93 {  // ']'
        ValStep::Good { v: JsonVal::Array(Seq::empty()), end: p1 + 1 }
    } else if pos < p1 <= s.len() {
        sp_items(s, p1, Seq::empty())
    } else {
        arbitrary()
    }
}

/// The elements of a non-empty array, one per iteration, separated by commas.
pub open spec fn sp_items(s: Seq<u8>, pos: int, acc: Seq<JsonVal>) -> ValStep
    decreases s.len() - pos, 2int,
{
    match sp_value(s, pos) {
        ValStep::Bad { kind, at } => ValStep::Bad { kind, at },
        ValStep::Good { v, end } => {
            let acc2 = acc.push(v);
            if !(pos < end <= s.len()) {
                arbitrary()
            } else {
                let p = skip_ws(s, end);
                if p >= s.len() {
                    ValStep::Bad { kind: ErrorKind::UnterminatedArray, at: Some(p) }
                } else if s[p] == 44 {  // ','
                    let p2 = skip_ws(s, p + 1);
                    if pos < p2 <= s.len() {
                        sp_items(s, p2, acc2)
                    } else {
                        arbitrary()
                    }
                } else if s[p] == 93 {  // ']'
                    ValStep::Good { v: JsonVal::Array(acc2), end: p + 1 }
                } else {
                    ValStep::Bad { kind: ErrorKind::UnexpectedCharInArray(s[p]), at: Some(p) }
                }
            }
        },
    }
}

/// An object at `pos` (which holds `{`).
pub open spec fn sp_object(s: Seq<u8>, pos: int) -> ValStep
    decreases s.len() - pos, 0int,
{
    let p1 = skip_ws(s, pos + 1);
    if p1 < s.len() && s[p1] == 125 {  // '}'
        ValStep::Good { v: JsonVal::Object(Seq::empty()), end: p1 + 1 }
    } else if pos < p1 <= s.len() {
        sp_members(s, p1, Seq::empty())
    } else {
        arbitrary()
    }
}

/// The members of a non-empty object: a string key, a colon, a value; later
/// entries with an already-present key overwrite the earlier value silently.
pub open spec fn sp_members(s: Seq<u8>, pos: int, acc: Seq<(Seq<char>, JsonVal)>) -> ValStep
    decreases s.len() - pos, 2int,
{
    if pos >= s.len() {
        ValStep::Bad { kind: ErrorKind::UnterminatedObject, at: Some(pos) }
    } else if s[pos] != 34 {
        ValStep::Bad { kind: ErrorKind::InvalidKey, at: Some(pos) }
    } else {
        match sp_string(s, pos) {
            StrStep::Bad { kind, at } => ValStep::Bad { kind, at },
            StrStep::Good { cs: key, end: kend } => {
                let p = skip_ws(s, kend);
                if p >= s.len() || s[p] != 58 {  // ':'
                    // the parser consumes the offending byte before it reports
                    let at = if p < s.len() {
                        p + 1
                    } else {
                        p
                    };
                    ValStep::Bad { kind: ErrorKind::ExpectedColon, at: Some(at) }
                } else {
                    let pv = skip_ws(s, p + 1);
                    if !(pos < pv <= s.len()) {
                        arbitrary()
                    } else {
                        match sp_value(s, pv) {
                            ValStep::Bad { kind, at } => ValStep::Bad { kind, at },
                            ValStep::Good { v, end: vend } => {
                                let acc2 = obj_insert(acc, key, v);
                                if !(pos < vend <= s.len()) {
                                    arbitrary()
                                } else {
                                    let p2 = skip_ws(s, vend);
                                    if p2 >= s.len() {
                                        ValStep::Bad {
                                            kind: ErrorKind::UnterminatedObject,
                                            at: Some(p2),
                                        }
                                    } else if s[p2] == 44 {  // ','
                                        let p3 = skip_ws(s, p2 + 1);
                                        if pos < p3 <= s.len() {
                                            sp_members(s, p3, acc2)
                                        } else {
                                            arbitrary()
                                        }
                                    } else if s[p2] == 125 {  // '}'
                                        ValStep::Good { v: JsonVal::Object(acc2), end: p2 + 1 }
                                    } else {
                                        ValStep::Bad {
                                            kind: ErrorKind::UnexpectedCharInObject(s[p2]),
                                            at: Some(p2),
                                        }
                                    }
                                }
                            },
                        }
                    }
                }
            },
        }
    }
}

/// A whole parse: leading whitespace, exactly one value, trailing whitespace,
/// and nothing else.
pub open spec fn sp_parse(s: Seq<u8>) -> ValStep {
    let p0 = skip_ws(s, 0);
    match sp_value(s, p0) {
        ValStep::Bad { kind, at } => ValStep::Bad { kind, at },
        ValStep::Good { v, end } => {
            let p1 = skip_ws(s, end);
            if p1 == s.len() {
                ValStep::Good { v, end: p1 }
            } else {
                ValStep::Bad { kind: ErrorKind::TrailingChars, at: Some(p1) }
            }
        },
    }
}

/// The 1-based line number of the byte at offset `off`: one more than the
/// number of newline bytes before it.
pub open spec fn line_at(s: Seq<u8>, off: int) -> int
    decreases off,
{
    if off <= 0 {
        1
    } else {
        line_at(s, off - 1) + if s[off - 1] == 10 {
            1int
        } else {
            0int
        }
    }
}

/// The 1-based column of the byte at offset `off`: how far it stands from
/// the last newline.
pub open spec fn col_at(s: Seq<u8>, off: int) -> int
    decreases off,
{
    if off <= 0 {
        1
    } else if s[off - 1] == 10 {
        1
    } else {
        col_at(s, off - 1) + 1
    }
}

/// Counters stored in a `usize` stop at its maximum.
pub open spec fn clamp_usize(i: int) -> int {
    if i > usize::MAX as int {
        usize::MAX as int
    } else {
        i
    }
}

/// `l` is the location of byte offset `off` in `s`.
pub open spec fn loc_is(l: Location, s: Seq<u8>, off: int) -> bool {
    l.line as int == clamp_usize(line_at(s, off)) && l.col as int == clamp_usize(col_at(s, off))
}

/// `e` reports `kind`, located at `at` when the failure has a place.
pub open spec fn err_is(e: Error, s: Seq<u8>, kind: ErrorKind, at: Option<int>) -> bool {
    &&& e.kind == kind
    &&& match at {
        Option::Some(off) => e.loc matches Some(l) && loc_is(l, s, off),
        Option::None => e.loc is None,
    }
}

/// The executable outcome `r`, with the cursor left at `endpos`, realizes the
/// specified step `st`.
pub open spec fn vstep_matches(
    s: Seq<u8>,
    st: ValStep,
    r: Result<JsonValue, Error>,
    endpos: int,
) -> bool {
    match st {
        ValStep::Good { v, end } => r matches Ok(jv) && jv@ == v && endpos == end,
        ValStep::Bad { kind, at } => r matches Err(e) && err_is(e, s, kind, at),
    }
}

/// Relies on `memchr::memchr`: the index of the first occurrence of `needle`
/// in the slice, here searched from `from` on and reported absolutely.
#[verifier::external_body]
fn find_byte_from(haystack: &[u8], from: usize, needle: u8) -> (r: Option<usize>)
    requires
        from <= haystack@.len(),
    ensures
        match r {
            Option::Some(i) => from <= i < haystack@.len() && haystack@[i as int] == needle
                && (forall|j: int| from <= j < i ==> haystack@[j] != needle),
            Option::None => forall|j: int|
                from <= j < haystack@.len() ==> haystack@[j] != needle,
        },
{
    memchr::memchr(needle, &haystack[from..]).map(|i| from + i)
}

/// A single forward-only cursor over the input bytes.
pub struct JsonParser<'a> {
    input: &'a [u8],
    position: usize,
}

impl<'a> JsonParser<'a> {
    /// The cursor never leaves the input.
    pub closed spec fn wf(&self) -> bool {
        self.position <= self.input@.len()
    }

    /// The bytes being parsed.
    pub closed spec fn bytes(&self) -> Seq<u8> {
        self.input@
    }

    /// The current cursor.
    pub closed spec fn pos(&self) -> int {
        self.position as int
    }

    pub fn new(input: &'a str) -> (p: Self)
        ensures
            p.bytes() == input.spec_bytes(),
            p.pos() == 0,
            p.wf(),
    {
        JsonParser { input: input.as_bytes(), position: 0 }
    }

    /// A parser over raw bytes; any byte sequence is legal input.
    pub fn from_bytes(input: &'a [u8]) -> (p: Self)
        ensures
            p.bytes() == input@,
            p.pos() == 0,
            p.wf(),
    {
        JsonParser { input, position: 0 }
    }

    fn peek(&self) -> (r: Option<u8>)
        requires
            self.wf(),
        ensures
            r == if self.pos() < self.bytes().len() {
                Some(self.bytes()[self.pos()])
            } else {
                Option::<u8>::None
            },
    {
        if self.position < self.input.len() {
            Some(self.input[self.position])
        } else {
            None
        }
    }

    fn advance(&mut self) -> (r: Option<u8>)
        requires
            old(self).wf(),
        ensures
            final(self).wf(),
            final(self).bytes() == old(self).bytes(),
            old(self).pos() < old(self).bytes().len() ==> {
                &&& r == Some(old(self).bytes()[old(self).pos()])
                &&& final(self).pos() == old(self).pos() + 1
            },
            old(self).pos() >= old(self).bytes().len() ==> r is None && final(self).pos()
                == old(self).pos(),
    {
        if self.position < self.input.len() {
            let b = self.input[self.position];
            self.position += 1;
            Some(b)
        } else {
            None
        }
    }

    fn skip_whitespace(&mut self)
        requires
            old(self).wf(),
        ensures
            final(self).wf(),
            final(self).bytes() == old(self).bytes(),
            final(self).pos() == skip_ws(old(self).bytes(), old(self).pos()),
    {
        loop
            invariant
                self.wf(),
                self.bytes() == old(self).bytes(),
                old(self).pos() <= self.pos(),
                skip_ws(self.bytes(), old(self).pos()) == skip_ws(self.bytes(), self.pos()),
            decreases self.bytes().len() - self.pos(),
        {
            if self.position < self.input.len() {
                let b = self.input[self.position];
                if b == 32 || b == 9 || b == 13 || b == 10 {
                    self.position += 1;
                } else {
                    return ;
                }
            } else {
                return ;
            }
        }
    }

    /// An error of the given kind located at byte offset `off`.
    fn fail_at(&self, kind: ErrorKind, off: usize) -> (e: Error)
        requires
            off <= self.bytes().len(),
        ensures
            err_is(e, self.bytes(), kind, Some(off as int)),
    {
        Error { kind, loc: Some(self.location_of(off)) }
    }

    /// An error of the given kind located at the cursor.
    fn fail(&self, kind: ErrorKind) -> (e: Error)
        requires
            self.wf(),
        ensures
            err_is(e, self.bytes(), kind, Some(self.pos())),
    {
        let p = self.position;
        self.fail_at(kind, p)
    }

    /// The line/column of the cursor, rescanning the bytes before it.
    pub fn location(&self) -> (l: Location)
        requires
            self.wf(),
        ensures
            loc_is(l, self.bytes(), self.pos()),
    {
        self.location_of(self.position)
    }

    fn location_of(&self, off: usize) -> (l: Location)
        requires
            off <= self.bytes().len(),
        ensures
            loc_is(l, self.bytes(), off as int),
    {
        let mut line: usize = 1;
        let mut col: usize = 1;
        let mut i: usize = 0;
        while i < off
            invariant
                i <= off <= self.bytes().len(),
                line as int == clamp_usize(line_at(self.bytes(), i as int)),
                col as int == clamp_usize(col_at(self.bytes(), i as int)),
            decreases off - i,
        {
            if self.input[i] == 10 {
                if line < usize::MAX {
                    line += 1;
                }
                col = 1;
            } else {
                if col < usize::MAX {
                    col += 1;
                }
            }
            i += 1;
        }
        Location { line, col }
    }

    /// Consumes the expected literal if it stands at the cursor; otherwise
    /// reports the mismatch at the cursor, consuming nothing.
    pub fn expect(&mut self, expected: &[u8]) -> (r: Result<(), Error>)
        requires
            old(self).wf(),
        ensures
            final(self).wf(),
            final(self).bytes() == old(self).bytes(),
            match_at(old(self).bytes(), old(self).pos(), expected@) ==> r is Ok
                && final(self).pos() == old(self).pos() + expected@.len(),
            !match_at(old(self).bytes(), old(self).pos(), expected@) ==> (r matches Err(e)
                && err_is(e, old(self).bytes(), ErrorKind::InvalidLiteral, Some(old(self).pos()))
                && final(self).pos() == old(self).pos()),
    {
        let n = expected.len();
        if n > self.input.len() - self.position {
            return Err(self.fail(ErrorKind::InvalidLiteral));
        }
        let mut i: usize = 0;
        while i < n
            invariant
                self == old(self),
                self.wf(),
                i <= n == expected@.len(),
                n <= self.bytes().len() - self.pos(),
                self.bytes().len() <= usize::MAX,
                forall|j: int|
                    0 <= j < i ==> self.bytes()[self.pos() + j] == #[trigger] expected@[j],
            decreases n - i,
        {
            if self.input[self.position + i] != expected[i] {
                proof {
                    assert(self.bytes().subrange(self.pos(), self.pos() + n as int)[i as int]
                        != expected@[i as int]);
                }
                return Err(self.fail(ErrorKind::InvalidLiteral));
            }
            i += 1;
        }
        proof {
            assert(self.bytes().subrange(self.pos(), self.pos() + n as int) =~= expected@);
        }
        self.position += n;
        Ok(())
    }
}

impl<'a> JsonParser<'a> {
    /// One string token, used for values and for object keys.
    fn parse_string_token(&mut self) -> (r: Result<String, Error>)
        requires
            old(self).wf(),
            old(self).pos() < old(self).bytes().len(),
        ensures
            final(self).wf(),
            final(self).bytes() == old(self).bytes(),
            match sp_string(old(self).bytes(), old(self).pos()) {
                StrStep::Good { cs, end } => r matches Ok(st) && st@ == cs && final(self).pos()
                    == end,
                StrStep::Bad { kind, at } => r matches Err(e) && err_is(
                    e,
                    old(self).bytes(),
                    kind,
                    at,
                ),
            },
    {
        let ghost s = self.input@;
        let n = self.input.len();
        proof {
            assert(s.len() == n);
        }
        self.advance();  // skip the opening quote
        let start = self.position;
        proof {
            lemma_find_from(s, start as int, 34);
        }
        match find_byte_from(self.input, start, 34) {
            Option::None => {
                proof {
                    if let Option::Some(q) = find_from(s, start as int, 34) {
                        assert(s[q] == 34);
                        assert(false);
                    }
                }
                Err(self.fail(ErrorKind::UnterminatedString))
            },
            Option::Some(q) => {
                proof {
                    match find_from(s, start as int, 34) {
                        Option::Some(i) => {
                            if i < q as int {
                                assert(s[i] != 34);
                                assert(false);
                            }
                            if i > q as int {
                                assert(s[q as int] != 34);
                                assert(false);
                            }
                        },
                        Option::None => {
                            assert(s[q as int] != 34);
                            assert(false);
                        },
                    }
                }
                let sub = slice_subrange(self.input, start, q);
                let bytes = slice_to_vec(sub);
                match bytes_to_string(bytes) {
                    Option::Some(st) => {
                        proof {
                            lemma_decoded_view(s.subrange(start as int, q as int), st@);
                        }
                        self.position = q + 1;
                        Ok(st)
                    },
                    Option::None => Err(self.fail_at(ErrorKind::InvalidUtf8, start)),
                }
            },
        }
    }

    fn parse_null(&mut self) -> (r: Result<JsonValue, Error>)
        requires
            old(self).wf(),
        ensures
            final(self).wf(),
            final(self).bytes() == old(self).bytes(),
            vstep_matches(
                old(self).bytes(),
                sp_lit(old(self).bytes(), old(self).pos(), null_lit(), JsonVal::Null),
                r,
                final(self).pos(),
            ),
    {
        let lit = vec![110u8, 117u8, 108u8, 108u8];
        proof {
            assert(lit@ =~= null_lit());
        }
        match self.expect(lit.as_slice()) {
            Ok(()) => Ok(JsonValue::Null),
            Err(e) => Err(e),
        }
    }

    fn parse_bool(&mut self) -> (r: Result<JsonValue, Error>)
        requires
            old(self).wf(),
        ensures
            final(self).wf(),
            final(self).bytes() == old(self).bytes(),
            vstep_matches(
                old(self).bytes(),
                sp_bool(old(self).bytes(), old(self).pos()),
                r,
                final(self).pos(),
            ),
    {
        let tlit = vec![116u8, 114u8, 117u8, 101u8];
        let flit = vec![102u8, 97u8, 108u8, 115u8, 101u8];
        proof {
            assert(tlit@ =~= true_lit());
            assert(flit@ =~= false_lit());
        }
        match self.expect(tlit.as_slice()) {
            Ok(()) => Ok(JsonValue::Bool(true)),
            Err(_) => match self.expect(flit.as_slice()) {
                Ok(()) => Ok(JsonValue::Bool(false)),
                Err(e) => Err(e),
            },
        }
    }

    fn parse_number(&mut self) -> (r: Result<JsonValue, Error>)
        requires
            old(self).wf(),
        ensures
            final(self).wf(),
            final(self).bytes() == old(self).bytes(),
            vstep_matches(
                old(self).bytes(),
                sp_number(old(self).bytes(), old(self).pos()),
                r,
                final(self).pos(),
            ),
    {
        let ghost s = self.input@;
        let start = self.position;
        loop
            invariant
                self.wf(),
                self.bytes() == s,
                start <= self.position,
                num_run_end(s, start as int) == num_run_end(s, self.pos()),
            ensures
                self.wf(),
                self.bytes() == s,
                start <= self.position,
                self.pos() == num_run_end(s, start as int),
            decreases self.bytes().len() - self.pos(),
        {
            if self.position < self.input.len() {
                let b = self.input[self.position];
                if crate::num::num_byte(b) {
                    self.position += 1;
                } else {
                    break ;
                }
            } else {
                break ;
            }
        }
        let end = self.position;
        proof {
            lemma_num_run_end(s, start as int);
        }
        if !check_number(self.input, start, end) {
            return Err(self.fail(ErrorKind::InvalidNumber));
        }
        let sub = slice_subrange(self.input, start, end);
        let bytes = slice_to_vec(sub);
        proof {
            let run = s.subrange(start as int, end as int);
            assert forall|i: int| 0 <= i < run.len() implies (#[trigger] run[i]) < 128 by {
                assert(run[i] == s[start + i]);
                assert(is_num_byte(s[start + i]));
            }
            lemma_ascii_decode(run);
        }
        match bytes_to_string(bytes) {
            Option::Some(st) => {
                proof {
                    lemma_decoded_view(s.subrange(start as int, end as int), st@);
                }
                Ok(JsonValue::Number(st))
            },
            Option::None => {
                proof {
                    assert(false);
                }
                Err(self.fail(ErrorKind::InvalidNumber))
            },
        }
    }

    fn parse_value(&mut self) -> (r: Result<JsonValue, Error>)
        requires
            old(self).wf(),
        ensures
            final(self).wf(),
            final(self).bytes() == old(self).bytes(),
            vstep_matches(
                old(self).bytes(),
                sp_value(old(self).bytes(), old(self).pos()),
                r,
                final(self).pos(),
            ),
        decreases self.bytes().len() - self.pos(), 1int,
    {
        match self.peek() {
            Option::None => Err(Error::new(ErrorKind::UnexpectedEof, None)),
            Option::Some(b) => {
                if b == 110 {
                    self.parse_null()
                } else if b == 116 || b == 102 {
                    self.parse_bool()
                } else if b == 34 {
                    match self.parse_string_token() {
                        Ok(st) => Ok(JsonValue::String(st)),
                        Err(e) => Err(e),
                    }
                } else if b == 91 {
                    self.parse_array()
                } else if b == 123 {
                    self.parse_object()
                } else if (48 <= b && b <= 57) || b == 45 {
                    self.parse_number()
                } else {
                    Err(self.fail(ErrorKind::UnexpectedChar(b)))
                }
            },
        }
    }

    fn parse_array(&mut self) -> (r: Result<JsonValue, Error>)
        requires
            old(self).wf(),
            old(self).pos() < old(self).bytes().len(),
        ensures
            final(self).wf(),
            final(self).bytes() == old(self).bytes(),
            vstep_matches(
                old(self).bytes(),
                sp_array(old(self).bytes(), old(self).pos()),
                r,
                final(self).pos(),
            ),
        decreases self.bytes().len() - self.pos(), 0int,
    {
        let ghost s = self.input@;
        let ghost pos0 = self.pos();
        self.advance();  // skip '['
        self.skip_whitespace();
        proof {
            lemma_skip_ws(s, pos0 + 1);
        }
        match self.peek() {
            Option::Some(b) if b == 93 => {
                self.advance();
                let out = JsonValue::Array(Vec::new());
                proof {
                    assert(out@ == JsonVal::Array(Seq::<JsonVal>::empty()));
                }
                Ok(out)
            },
            _ => {
                let elements: Vec<JsonValue> = Vec::new();
                proof {
                    assert(crate::value::arr_view(elements@) =~= Seq::<JsonVal>::empty());
                }
                self.parse_items(elements)
            },
        }
    }

    /// The element loop of a non-empty array, written as recursion so each
    /// round mirrors one unfolding of `sp_items`.
    fn parse_items(&mut self, elements: Vec<JsonValue>) -> (r: Result<JsonValue, Error>)
        requires
            old(self).wf(),
        ensures
            final(self).wf(),
            final(self).bytes() == old(self).bytes(),
            vstep_matches(
                old(self).bytes(),
                sp_items(old(self).bytes(), old(self).pos(), crate::value::arr_view(elements@)),
                r,
                final(self).pos(),
            ),
        decreases self.bytes().len() - self.pos(), 2int,
    {
        let ghost s = self.input@;
        let ghost pos0 = self.pos();
        let ghost acc0 = crate::value::arr_view(elements@);
        proof {
            lemma_sp_value_advances(s, pos0);
        }
        let mut elements = elements;
        match self.parse_value() {
            Err(e) => Err(e),
            Ok(jv) => {
                let ghost before = elements@;
                elements.push(jv);
                proof {
                    assert(elements@.drop_last() =~= before);
                    assert(crate::value::arr_view(elements@) =~= acc0.push(jv@));
                }
                let ghost end = self.pos();
                self.skip_whitespace();
                proof {
                    lemma_skip_ws(s, end);
                }
                match self.peek() {
                    Option::None => Err(self.fail(ErrorKind::UnterminatedArray)),
                    Option::Some(b) if b == 44 => {
                        self.advance();
                        self.skip_whitespace();
                        proof {
                            lemma_skip_ws(s, skip_ws(s, end) + 1);
                        }
                        self.parse_items(elements)
                    },
                    Option::Some(b) if b == 93 => {
                        self.advance();
                        Ok(JsonValue::Array(elements))
                    },
                    Option::Some(b) => Err(self.fail(ErrorKind::UnexpectedCharInArray(b))),
                }
            },
        }
    }

    fn parse_object(&mut self) -> (r: Result<JsonValue, Error>)
        requires
            old(self).wf(),
            old(self).pos() < old(self).bytes().len(),
        ensures
            final(self).wf(),
            final(self).bytes() == old(self).bytes(),
            vstep_matches(
                old(self).bytes(),
                sp_object(old(self).bytes(), old(self).pos()),
                r,
                final(self).pos(),
            ),
        decreases self.bytes().len() - self.pos(), 0int,
    {
        let ghost s = self.input@;
        let ghost pos0 = self.pos();
        self.advance();  // skip '{'
        self.skip_whitespace();
        proof {
            lemma_skip_ws(s, pos0 + 1);
        }
        match self.peek() {
            Option::Some(b) if b == 125 => {
                self.advance();
                let out = JsonValue::Object(Vec::new());
                proof {
                    assert(out@ == JsonVal::Object(Seq::<(Seq<char>, JsonVal)>::empty()));
                }
                Ok(out)
            },
            _ => {
                let entries: Vec<(String, JsonValue)> = Vec::new();
                proof {
                    assert(crate::value::obj_view(entries@) =~= Seq::<(
                        Seq<char>,
                        JsonVal,
                    )>::empty());
                }
                self.parse_members(entries)
            },
        }
    }

    /// The member loop of a non-empty object, one key/value pair per round,
    /// mirroring one unfolding of `sp_members`.
    fn parse_members(&mut self, entries: Vec<(String, JsonValue)>) -> (r: Result<JsonValue, Error>)
        requires
            old(self).wf(),
        ensures
            final(self).wf(),
            final(self).bytes() == old(self).bytes(),
            vstep_matches(
                old(self).bytes(),
                sp_members(old(self).bytes(), old(self).pos(), crate::value::obj_view(entries@)),
                r,
                final(self).pos(),
            ),
        decreases self.bytes().len() - self.pos(), 2int,
    {
        let ghost s = self.input@;
        let ghost pos0 = self.pos();
        let ghost acc0 = crate::value::obj_view(entries@);
        match self.peek() {
            Option::None => Err(self.fail(ErrorKind::UnterminatedObject)),
            Option::Some(b) if b != 34 => Err(self.fail(ErrorKind::InvalidKey)),
            Option::Some(_) => {
                match self.parse_string_token() {
                    Err(e) => Err(e),
                    Ok(key) => {
                        let ghost kend = self.pos();
                        proof {
                            lemma_find_from(s, pos0 + 1, 34);
                        }
                        self.skip_whitespace();
                        proof {
                            lemma_skip_ws(s, kend);
                        }
                        let colon = self.advance();
                        let got_colon = match colon {
                            Option::Some(c) => c == 58,
                            Option::None => false,
                        };
                        if !got_colon {
                            return Err(self.fail(ErrorKind::ExpectedColon));
                        }
                        self.skip_whitespace();
                        proof {
                            lemma_skip_ws(s, skip_ws(s, kend) + 1);
                            lemma_sp_value_advances(s, self.pos());
                        }
                        match self.parse_value() {
                            Err(e) => Err(e),
                            Ok(jv) => {
                                let ghost vend = self.pos();
                                let mut entries = entries;
                                crate::value::insert_entry(&mut entries, key, jv);
                                self.skip_whitespace();
                                proof {
                                    lemma_skip_ws(s, vend);
                                }
                                match self.peek() {
                                    Option::None => Err(self.fail(ErrorKind::UnterminatedObject)),
                                    Option::Some(b) if b == 44 => {
                                        self.advance();
                                        self.skip_whitespace();
                                        proof {
                                            lemma_skip_ws(s, skip_ws(s, vend) + 1);
                                        }
                                        self.parse_members(entries)
                                    },
                                    Option::Some(b) if b == 125 => {
                                        self.advance();
                                        Ok(JsonValue::Object(entries))
                                    },
                                    Option::Some(b) => Err(
                                        self.fail(ErrorKind::UnexpectedCharInObject(b)),
                                    ),
                                }
                            },
                        }
                    },
                }
            },
        }
    }

    /// Parses the whole input: one value, surrounded by whitespace only.
    pub fn parse(self) -> (r: Result<JsonValue, Error>)
        requires
            self.wf(),
            self.pos() == 0,
        ensures
            match sp_parse(self.bytes()) {
                ValStep::Good { v, end } => r matches Ok(jv) && jv@ == v,
                ValStep::Bad { kind, at } => r matches Err(e) && err_is(e, self.bytes(), kind, at),
            },
    {
        let mut this = self;
        let ghost s = this.input@;
        this.skip_whitespace();
        proof {
            lemma_skip_ws(s, 0);
        }
        match this.parse_value() {
            Err(e) => Err(e),
            Ok(v) => {
                let ghost end = this.pos();
                this.skip_whitespace();
                proof {
                    lemma_skip_ws(s, end);
                }
                if this.position != this.input.len() {
                    Err(this.fail(ErrorKind::TrailingChars))
                } else {
                    Ok(v)
                }
            },
        }
    }
}

/// Parses a text buffer into a value tree. Consumes the entire input but for
/// surrounding whitespace; on failure, the error carries the place the parse
/// stopped at.
pub fn parse(s: &str) -> (r: Result<JsonValue, Error>)
    ensures
        match sp_parse(s.spec_bytes()) {
            ValStep::Good { v, end } => r matches Ok(jv) && jv@ == v,
            ValStep::Bad { kind, at } => r matches Err(e) && err_is(e, s.spec_bytes(), kind, at),
        },
{
    JsonParser::new(s).parse()
}

/// Parses raw bytes; any byte sequence is legal input.
pub fn parse_bytes(input: &[u8]) -> (r: Result<JsonValue, Error>)
    ensures
        match sp_parse(input@) {
            ValStep::Good { v, end } => r matches Ok(jv) && jv@ == v,
            ValStep::Bad { kind, at } => r matches Err(e) && err_is(e, input@, kind, at),
        },
{
    JsonParser::from_bytes(input).parse()
}

/// `skip_ws` stays inside the input and moves only forward, over whitespace
/// only.
pub proof fn lemma_skip_ws(s: Seq<u8>, pos: int)
    requires
        0 <= pos <= s.len(),
    ensures
        pos <= skip_ws(s, pos) <= s.len(),
        skip_ws(s, pos) < s.len() ==> !is_ws(s[skip_ws(s, pos)]),
        forall|j: int| pos <= j < skip_ws(s, pos) ==> is_ws(#[trigger] s[j]),
    decreases s.len() - pos,
{
    if pos < s.len() && is_ws(s[pos]) {
        lemma_skip_ws(s, pos + 1);
    }
}

/// What `find_from` finds is the first occurrence at or after `from`.
pub proof fn lemma_find_from(s: Seq<u8>, from: int, needle: u8)
    requires
        0 <= from <= s.len(),
    ensures
        match find_from(s, from, needle) {
            Option::Some(i) => from <= i < s.len() && s[i] == needle && (forall|j: int|
                from <= j < i ==> s[j] != needle),
            Option::None => forall|j: int| from <= j < s.len() ==> s[j] != needle,
        },
    decreases s.len() - from,
{
    if from < s.len() && s[from] != needle {
        lemma_find_from(s, from + 1, needle);
    }
}

/// A successful parse of a value consumes at least one byte and stops inside
/// the input; so the guarded branches of the spec parser are never taken.
pub proof fn lemma_sp_value_advances(s: Seq<u8>, pos: int)
    requires
        0 <= pos,
    ensures
        sp_value(s, pos) matches ValStep::Good { v, end } ==> pos < end <= s.len(),
    decreases s.len() - pos, 1int,
{
    if 0 <= pos && pos < s.len() {
        let b = s[pos];
        if b == 34 {
            lemma_find_from(s, pos + 1, 34);
        } else if b == 91 {
            lemma_sp_array_advances(s, pos);
        } else if b == 123 {
            lemma_sp_object_advances(s, pos);
        } else if is_digit(b) || b == 45 {
            lemma_num_run_end(s, pos);
            if num_run_end(s, pos) == pos {
                assert(!num_valid(s, pos, pos));
            }
        }
    }
}

pub proof fn lemma_sp_array_advances(s: Seq<u8>, pos: int)
    requires
        0 <= pos < s.len(),
    ensures
        sp_array(s, pos) matches ValStep::Good { v, end } ==> pos < end <= s.len(),
    decreases s.len() - pos, 0int,
{
    lemma_skip_ws(s, pos + 1);
    let p1 = skip_ws(s, pos + 1);
    if !(p1 < s.len() && s[p1] == 93) {
        lemma_sp_items_advances(s, p1, Seq::empty());
    }
}

pub proof fn lemma_sp_object_advances(s: Seq<u8>, pos: int)
    requires
        0 <= pos < s.len(),
    ensures
        sp_object(s, pos) matches ValStep::Good { v, end } ==> pos < end <= s.len(),
    decreases s.len() - pos, 0int,
{
    lemma_skip_ws(s, pos + 1);
    let p1 = skip_ws(s, pos + 1);
    if !(p1 < s.len() && s[p1] == 125) {
        lemma_sp_members_advances(s, p1, Seq::empty());
    }
}

pub proof fn lemma_sp_items_advances(s: Seq<u8>, pos: int, acc: Seq<JsonVal>)
    requires
        0 <= pos <= s.len(),
    ensures
        sp_items(s, pos, acc) matches ValStep::Good { v, end } ==> pos < end <= s.len(),
    decreases s.len() - pos, 2int,
{
    lemma_sp_value_advances(s, pos);
    match sp_value(s, pos) {
        ValStep::Bad { .. } => {},
        ValStep::Good { v, end } => {
            lemma_skip_ws(s, end);
            let p = skip_ws(s, end);
            if p < s.len() && s[p] == 44 {
                lemma_skip_ws(s, p + 1);
                let p2 = skip_ws(s, p + 1);
                lemma_sp_items_advances(s, p2, acc.push(v));
            }
        },
    }
}

pub proof fn lemma_sp_members_advances(s: Seq<u8>, pos: int, acc: Seq<(Seq<char>, JsonVal)>)
    requires
        0 <= pos <= s.len(),
    ensures
        sp_members(s, pos, acc) matches ValStep::Good { v, end } ==> pos < end <= s.len(),
    decreases s.len() - pos, 2int,
{
    if pos < s.len() && s[pos] == 34 {
        lemma_find_from(s, pos + 1, 34);
        match sp_string(s, pos) {
            StrStep::Bad { .. } => {},
            StrStep::Good { cs: key, end: kend } => {
                lemma_skip_ws(s, kend);
                let p = skip_ws(s, kend);
                if p < s.len() && s[p] == 58 {
                    lemma_skip_ws(s, p + 1);
                    let pv = skip_ws(s, p + 1);
                    lemma_sp_value_advances(s, pv);
                    match sp_value(s, pv) {
                        ValStep::Bad { .. } => {},
                        ValStep::Good { v, end: vend } => {
                            lemma_skip_ws(s, vend);
                            let p2 = skip_ws(s, vend);
                            if p2 < s.len() && s[p2] == 44 {
                                lemma_skip_ws(s, p2 + 1);
                                let p3 = skip_ws(s, p2 + 1);
                                lemma_sp_members_advances(s, p3, obj_insert(acc, key, v));
                            }
                        },
                    }
                }
            },
        }
    }
}

/// The numeric run ends at the first non-numeric byte.
pub proof fn lemma_num_run_end(s: Seq<u8>, pos: int)
    requires
        0 <= pos <= s.len(),
    ensures
        pos <= num_run_end(s, pos) <= s.len(),
        num_run_end(s, pos) < s.len() ==> !is_num_byte(s[num_run_end(s, pos)]),
        forall|j: int| pos <= j < num_run_end(s, pos) ==> is_num_byte(#[trigger] s[j]),
    decreases s.len() - pos,
{
    if pos < s.len() && is_num_byte(s[pos]) {
        lemma_num_run_end(s, pos + 1);
    }
}

} // verus!
