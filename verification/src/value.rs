//! The value model: a tagged union for any JSON value, plus the error and
//! location types the parser reports with.
//!
//! A `Number` holds the numeric text exactly as it stood in the input; the
//! text always satisfies the numeric grammar (see `crate::num`), so a consumer
//! can hand it to any floating-point reader. An `Object` holds its entries
//! sorted strictly by key (byte order of the UTF-8 encoding), so keys are
//! unique by construction.

use vstd::prelude::*;
use vstd::string::StringExecFns;
use crate::text::lex_lt;
use crate::num::{is_num_byte, is_digit, num_valid};

verus! {

broadcast use {
    vstd::std_specs::vec::group_vec_axioms,
    vstd::seq::group_seq_axioms,
    vstd::seq_lib::group_seq_lib_default,
};

/// Ghost model of a JSON value: text as character sequences, containers as
/// mathematical sequences. `Object` entries are (key, value) pairs kept
/// strictly sorted by key.
#[verifier::ext_equal]
pub enum JsonVal {
    Null,
    Bool(bool),
    Number(Seq<char>),
    String(Seq<char>),
    Array(Seq<JsonVal>),
    Object(Seq<(Seq<char>, JsonVal)>),
}

/// A parsed JSON value.
#[derive(Debug)]
pub enum JsonValue {
    Null,
    Bool(bool),
    Number(String),
    String(String),
    Array(Vec<JsonValue>),
    Object(Vec<(String, JsonValue)>),
}

impl View for JsonValue {
    type V = JsonVal;

    open spec fn view(&self) -> JsonVal
        decreases self,
    {
        match self {
            JsonValue::Null => JsonVal::Null,
            JsonValue::Bool(b) => JsonVal::Bool(*b),
            JsonValue::Number(s) => JsonVal::Number(s@),
            JsonValue::String(s) => JsonVal::String(s@),
            JsonValue::Array(elems) => JsonVal::Array(arr_view(elems@)),
            JsonValue::Object(entries) => JsonVal::Object(obj_view(entries@)),
        }
    }
}

/// The views of a sequence of values, element by element.
pub open spec fn arr_view(elems: Seq<JsonValue>) -> Seq<JsonVal>
    decreases elems,
{
    if elems.len() == 0 {
        Seq::empty()
    } else {
        arr_view(elems.drop_last()).push(elems.last()@)
    }
}

/// The views of a sequence of object entries, pair by pair.
pub open spec fn obj_view(entries: Seq<(String, JsonValue)>) -> Seq<(Seq<char>, JsonVal)>
    decreases entries,
{
    if entries.len() == 0 {
        Seq::empty()
    } else {
        obj_view(entries.drop_last()).push((entries.last().0@, entries.last().1@))
    }
}

/// `arr_view` is index-wise the element views.
pub proof fn lemma_arr_view(elems: Seq<JsonValue>)
    ensures
        arr_view(elems).len() == elems.len(),
        forall|i: int| 0 <= i < elems.len() ==> #[trigger] arr_view(elems)[i] == elems[i]@,
    decreases elems.len(),
{
    if elems.len() > 0 {
        lemma_arr_view(elems.drop_last());
        assert(arr_view(elems) == arr_view(elems.drop_last()).push(elems.last()@));
        assert forall|i: int| 0 <= i < elems.len() implies #[trigger] arr_view(elems)[i]
            == elems[i]@ by {
            if i < elems.len() - 1 {
                assert(elems.drop_last()[i] == elems[i]);
            }
        }
    }
}

/// `obj_view` is index-wise the pair views.
pub proof fn lemma_obj_view(entries: Seq<(String, JsonValue)>)
    ensures
        obj_view(entries).len() == entries.len(),
        forall|i: int| 0 <= i < entries.len() ==> #[trigger] obj_view(entries)[i] == (
            entries[i].0@,
            entries[i].1@,
        ),
    decreases entries.len(),
{
    if entries.len() > 0 {
        lemma_obj_view(entries.drop_last());
        assert(obj_view(entries) == obj_view(entries.drop_last()).push(
            (entries.last().0@, entries.last().1@),
        ));
        assert forall|i: int| 0 <= i < entries.len() implies #[trigger] obj_view(entries)[i] == (
            entries[i].0@,
            entries[i].1@,
        ) by {
            if i < entries.len() - 1 {
                assert(entries.drop_last()[i] == entries[i]);
            }
        }
    }
}

/// The byte a numeric character stands for.
pub open spec fn char_byte(c: char) -> u8 {
    (c as u32) as u8
}

/// The byte image of an all-ASCII character sequence.
pub open spec fn chars_bytes(cs: Seq<char>) -> Seq<u8> {
    Seq::new(cs.len(), |i: int| char_byte(cs[i]))
}

/// The text a `Number` may hold: a nonempty run of numeric bytes that starts
/// the way the parser dispatches a number (digit or minus) and satisfies the
/// numeric grammar.
pub open spec fn number_wf(cs: Seq<char>) -> bool {
    &&& cs.len() > 0
    &&& forall|i: int|
        0 <= i < cs.len() ==> (((#[trigger] cs[i]) as u32) < 128 && is_num_byte(char_byte(cs[i])))
    &&& (cs[0] == '-' || is_digit(char_byte(cs[0])))
    &&& num_valid(chars_bytes(cs), 0, cs.len() as int)
}

/// Object entries stand in strictly increasing key order; in particular the
/// keys are unique.
pub open spec fn obj_sorted(entries: Seq<(Seq<char>, JsonVal)>) -> bool {
    forall|i: int, j: int|
        0 <= i < j < entries.len() ==> lex_lt(#[trigger] entries[i].0, #[trigger] entries[j].0)
}

/// Well-formedness of a value: every number satisfies the numeric grammar,
/// and every object is sorted by key with unique keys. The parser only
/// produces well-formed values.
pub open spec fn wf_val(v: JsonVal) -> bool
    decreases v,
{
    match v {
        JsonVal::Null => true,
        JsonVal::Bool(_) => true,
        JsonVal::Number(cs) => number_wf(cs),
        JsonVal::String(_) => true,
        JsonVal::Array(items) => wf_arr(items),
        JsonVal::Object(entries) => wf_obj(entries) && obj_sorted(entries),
    }
}

/// Every element of the sequence is well-formed.
pub open spec fn wf_arr(items: Seq<JsonVal>) -> bool
    decreases items,
{
    if items.len() == 0 {
        true
    } else {
        wf_arr(items.drop_last()) && wf_val(items.last())
    }
}

/// Every entry value of the sequence is well-formed.
pub open spec fn wf_obj(entries: Seq<(Seq<char>, JsonVal)>) -> bool
    decreases entries,
{
    if entries.len() == 0 {
        true
    } else {
        wf_obj(entries.drop_last()) && wf_val(entries.last().1)
    }
}

/// `wf_arr` element-wise.
pub proof fn lemma_wf_arr(items: Seq<JsonVal>)
    ensures
        wf_arr(items) <==> (forall|i: int| 0 <= i < items.len() ==> wf_val(#[trigger] items[i])),
    decreases items.len(),
{
    if items.len() > 0 {
        lemma_wf_arr(items.drop_last());
        assert(forall|i: int|
            0 <= i < items.len() - 1 ==> items.drop_last()[i] == #[trigger] items[i]);
    }
}

/// `wf_obj` entry-wise.
pub proof fn lemma_wf_obj(entries: Seq<(Seq<char>, JsonVal)>)
    ensures
        wf_obj(entries) <==> (forall|i: int|
            0 <= i < entries.len() ==> wf_val(#[trigger] entries[i].1)),
    decreases entries.len(),
{
    if entries.len() > 0 {
        lemma_wf_obj(entries.drop_last());
        assert(forall|i: int|
            0 <= i < entries.len() - 1 ==> entries.drop_last()[i] == #[trigger] entries[i]);
    }
}

/// Mapping a key to a value in an entry sequence kept sorted by key: an
/// existing entry with the same key is overwritten, otherwise the pair goes
/// where key order puts it.
pub open spec fn obj_insert(
    entries: Seq<(Seq<char>, JsonVal)>,
    k: Seq<char>,
    v: JsonVal,
) -> Seq<(Seq<char>, JsonVal)>
    decreases entries.len(),
{
    if entries.len() == 0 {
        seq![(k, v)]
    } else if lex_lt(k, entries[0].0) {
        seq![(k, v)] + entries
    } else if k == entries[0].0 {
        seq![(k, v)] + entries.skip(1)
    } else {
        seq![entries[0]] + obj_insert(entries.skip(1), k, v)
    }
}

/// Every entry of an insertion result is the new pair or one of the old
/// entries.
pub proof fn lemma_obj_insert_elts(es: Seq<(Seq<char>, JsonVal)>, k: Seq<char>, v: JsonVal)
    ensures
        1 <= obj_insert(es, k, v).len() <= es.len() + 1,
        forall|i: int|
            0 <= i < obj_insert(es, k, v).len() ==> (obj_insert(es, k, v)[i] == (k, v)
                || exists|j: int| 0 <= j < es.len() && obj_insert(es, k, v)[i] == #[trigger] es[j]),
    decreases es.len(),
{
    let res = obj_insert(es, k, v);
    if es.len() == 0 {
    } else if lex_lt(k, es[0].0) || k == es[0].0 {
        assert forall|i: int| 0 <= i < res.len() implies (res[i] == (k, v) || exists|j: int|
            0 <= j < es.len() && res[i] == #[trigger] es[j]) by {
            if i > 0 {
                if lex_lt(k, es[0].0) {
                    assert(res[i] == es[i - 1]);
                } else {
                    assert(res[i] == es[i]);
                }
            }
        }
    } else {
        lemma_obj_insert_elts(es.skip(1), k, v);
        let sub = obj_insert(es.skip(1), k, v);
        assert forall|i: int| 0 <= i < res.len() implies (res[i] == (k, v) || exists|j: int|
            0 <= j < es.len() && res[i] == #[trigger] es[j]) by {
            if i == 0 {
                assert(res[0] == es[0]);
            } else {
                assert(res[i] == sub[i - 1]);
                if sub[i - 1] != (k, v) {
                    let j = choose|j: int| 0 <= j < es.skip(1).len() && sub[i - 1] == es.skip(
                        1,
                    )[j];
                    assert(res[i] == es[j + 1]);
                }
            }
        }
    }
}

/// Insertion keeps entries sorted by key and keeps every value well-formed.
pub proof fn lemma_obj_insert_sorted(es: Seq<(Seq<char>, JsonVal)>, k: Seq<char>, v: JsonVal)
    requires
        obj_sorted(es),
        forall|i: int| 0 <= i < es.len() ==> wf_val(#[trigger] es[i].1),
        wf_val(v),
    ensures
        obj_sorted(obj_insert(es, k, v)),
        forall|i: int|
            0 <= i < obj_insert(es, k, v).len() ==> wf_val(#[trigger] obj_insert(es, k, v)[i].1),
    decreases es.len(),
{
    let res = obj_insert(es, k, v);
    lemma_obj_insert_elts(es, k, v);
    if es.len() == 0 {
    } else if lex_lt(k, es[0].0) {
        assert forall|i: int, j: int| 0 <= i < j < res.len() implies lex_lt(
            #[trigger] res[i].0,
            #[trigger] res[j].0,
        ) by {
            if i == 0 {
                if j == 1 {
                } else {
                    crate::text::lemma_lex_transitive(k, es[0].0, es[j - 1].0);
                }
            } else {
                assert(res[i] == es[i - 1] && res[j] == es[j - 1]);
            }
        }
    } else if k == es[0].0 {
        assert forall|i: int, j: int| 0 <= i < j < res.len() implies lex_lt(
            #[trigger] res[i].0,
            #[trigger] res[j].0,
        ) by {
            if i == 0 {
                assert(res[j] == es[j]);
            } else {
                assert(res[i] == es[i] && res[j] == es[j]);
            }
        }
    } else {
        crate::text::lemma_lex_trichotomy(k, es[0].0);
        assert(lex_lt(es[0].0, k));
        assert(obj_sorted(es.skip(1))) by {
            assert forall|i: int, j: int| 0 <= i < j < es.skip(1).len() implies lex_lt(
                #[trigger] es.skip(1)[i].0,
                #[trigger] es.skip(1)[j].0,
            ) by {
                assert(es.skip(1)[i] == es[i + 1] && es.skip(1)[j] == es[j + 1]);
            }
        }
        assert(forall|i: int| 0 <= i < es.skip(1).len() ==> wf_val(#[trigger] es.skip(1)[i].1));
        lemma_obj_insert_sorted(es.skip(1), k, v);
        lemma_obj_insert_elts(es.skip(1), k, v);
        let sub = obj_insert(es.skip(1), k, v);
        assert forall|i: int, j: int| 0 <= i < j < res.len() implies lex_lt(
            #[trigger] res[i].0,
            #[trigger] res[j].0,
        ) by {
            if i == 0 {
                assert(res[j] == sub[j - 1]);
                if sub[j - 1] == (k, v) {
                } else {
                    let m = choose|m: int| 0 <= m < es.skip(1).len() && sub[j - 1] == es.skip(
                        1,
                    )[m];
                    assert(sub[j - 1] == es[m + 1]);
                }
            } else {
                assert(res[i] == sub[i - 1] && res[j] == sub[j - 1]);
            }
        }
    }
}

/// Inserting a key greater than every present key appends.
pub proof fn lemma_obj_insert_append(es: Seq<(Seq<char>, JsonVal)>, k: Seq<char>, v: JsonVal)
    requires
        forall|i: int| 0 <= i < es.len() ==> lex_lt(#[trigger] es[i].0, k),
    ensures
        obj_insert(es, k, v) == es.push((k, v)),
    decreases es.len(),
{
    if es.len() == 0 {
        assert(obj_insert(es, k, v) =~= es.push((k, v)));
    } else {
        crate::text::lemma_lex_trichotomy(k, es[0].0);
        assert(forall|i: int|
            0 <= i < es.skip(1).len() ==> lex_lt(#[trigger] es.skip(1)[i].0, k));
        lemma_obj_insert_append(es.skip(1), k, v);
        assert(obj_insert(es, k, v) =~= es.push((k, v)));
    }
}

/// Where the scan for the insertion point stops decides the shape of the
/// result: append at the end, overwrite on an equal key, or splice before
/// the first key not below the new one.
pub proof fn lemma_obj_insert_at(es: Seq<(Seq<char>, JsonVal)>, k: Seq<char>, v: JsonVal, i: int)
    requires
        0 <= i <= es.len(),
        forall|j: int| 0 <= j < i ==> lex_lt(#[trigger] es[j].0, k),
        i < es.len() ==> !lex_lt(es[i].0, k),
    ensures
        i == es.len() ==> obj_insert(es, k, v) == es.push((k, v)),
        i < es.len() && es[i].0 == k ==> obj_insert(es, k, v) == es.update(i, (k, v)),
        i < es.len() && es[i].0 != k ==> obj_insert(es, k, v) == es.take(i) + seq![(k, v)]
            + es.skip(i),
    decreases i,
{
    if i == es.len() {
        lemma_obj_insert_append(es, k, v);
    } else if i == 0 {
        crate::text::lemma_lex_trichotomy(k, es[0].0);
        if es[0].0 == k {
            assert(obj_insert(es, k, v) =~= es.update(0, (k, v)));
        } else {
            assert(lex_lt(k, es[0].0));
            assert(obj_insert(es, k, v) =~= es.take(0) + seq![(k, v)] + es.skip(0));
        }
    } else {
        crate::text::lemma_lex_trichotomy(k, es[0].0);
        assert(lex_lt(es[0].0, k));
        assert(forall|j: int|
            0 <= j < i - 1 ==> lex_lt(#[trigger] es.skip(1)[j].0, k));
        assert(i - 1 < es.skip(1).len() ==> es.skip(1)[i - 1] == es[i]);
        lemma_obj_insert_at(es.skip(1), k, v, i - 1);
        if es[i].0 == k {
            assert(obj_insert(es, k, v) =~= es.update(i, (k, v)));
        } else {
            assert(obj_insert(es, k, v) =~= es.take(i) + seq![(k, v)] + es.skip(i));
        }
    }
}

/// Maps `key` to `value` in an entry list, as `obj_insert` describes: the
/// pair goes where key order puts it, overwriting an entry with an equal key.
#[verifier::rlimit(50)]
pub fn insert_entry(entries: &mut Vec<(String, JsonValue)>, key: String, value: JsonValue)
    ensures
        obj_view(final(entries)@) == obj_insert(obj_view(old(entries)@), key@, value@),
{
    let ghost es = obj_view(old(entries)@);
    proof {
        lemma_obj_view(old(entries)@);
    }
    let mut i: usize = 0;
    loop
        invariant_except_break
            i <= entries@.len(),
            forall|j: int| 0 <= j < i ==> lex_lt(#[trigger] es[j].0, key@),
        invariant
            entries == old(entries),
            es == obj_view(entries@),
            es.len() == entries@.len(),
            forall|m: int|
                0 <= m < entries@.len() ==> #[trigger] obj_view(entries@)[m] == (
                entries@[m].0@,
                entries@[m].1@,
            ),
        ensures
            i <= entries@.len(),
            forall|j: int| 0 <= j < i ==> lex_lt(#[trigger] es[j].0, key@),
            i < entries@.len() ==> !lex_lt(es[i as int].0, key@),
        decreases entries@.len() - i,
    {
        if i == entries.len() {
            break ;
        }
        let below = crate::text::str_lex_lt(entries[i].0.as_str(), key.as_str());
        if !below {
            break ;
        }
        i += 1;
    }
    proof {
        lemma_obj_insert_at(es, key@, value@, i as int);
    }
    if i < entries.len() {
        let same = entries[i].0 == key;
        if same {
            let ghost before = entries@;
            entries.remove(i);
            entries.insert(i, (key, value));
            proof {
                before.remove(i as int).insert_ensures(i as int, (key, value));
                assert(entries@ =~= before.update(i as int, (key, value)));
                lemma_obj_view(entries@);
                lemma_obj_view(before);
                assert forall|m: int| 0 <= m < obj_view(entries@).len() implies obj_view(
                    entries@,
                )[m] == es.update(i as int, (key@, value@))[m] by {
                    if m != i {
                        assert(entries@[m] == before[m]);
                    }
                }
                assert(obj_view(entries@) =~= es.update(i as int, (key@, value@)));
            }
            return ;
        }
    }
    let ghost before = entries@;
    entries.insert(i, (key, value));
    proof {
        before.insert_ensures(i as int, (key, value));
        lemma_obj_view(entries@);
        lemma_obj_view(before);
        if i as int == es.len() {
            assert forall|m: int| 0 <= m < obj_view(entries@).len() implies obj_view(entries@)[m]
                == es.push((key@, value@))[m] by {
                if m < i {
                    assert(entries@[m] == before[m]);
                }
            }
            assert(obj_view(entries@) =~= es.push((key@, value@)));
        } else {
            let spliced = es.take(i as int) + seq![(key@, value@)] + es.skip(i as int);
            assert forall|m: int| 0 <= m < obj_view(entries@).len() implies obj_view(entries@)[m]
                == spliced[m] by {
                if m < i {
                    assert(entries@[m] == before[m]);
                    assert(spliced[m] == es[m]);
                } else if m > i {
                    assert(entries@[m] == before[m - 1]);
                    assert(spliced[m] == es.skip(i as int)[m - (i + 1)]);
                }
            }
            assert(obj_view(entries@) =~= spliced);
        }
    }
}

/// A 1-based line/column pair, reconstructed from a byte offset only when an
/// error is reported.
#[derive(Debug, Clone, Copy, PartialEq, Eq, Structural)]
pub struct Location {
    pub line: usize,
    pub col: usize,
}

/// What went wrong during a parse. The `u8` payloads carry the offending byte.
#[derive(Clone, Copy, PartialEq, Eq, Structural, Debug)]
pub enum ErrorKind {
    UnexpectedChar(u8),
    UnexpectedEof,
    InvalidLiteral,
    UnterminatedString,
    InvalidUtf8,
    InvalidNumber,
    UnexpectedCharInArray(u8),
    UnterminatedArray,
    InvalidKey,
    ExpectedColon,
    UnexpectedCharInObject(u8),
    UnterminatedObject,
    TrailingChars,
}

/// A terminal parse failure: a kind and, when the cursor still stood inside
/// the input, the place it stopped at.
#[derive(Debug)]
pub struct Error {
    pub kind: ErrorKind,
    pub loc: Option<Location>,
}

impl Error {
    pub fn new(kind: ErrorKind, loc: Option<Location>) -> (e: Error)
        ensures
            e.kind == kind,
            e.loc == loc,
    {
        Error { kind, loc }
    }
}


/// Structural equality of two value trees.
pub fn value_eq(a: &JsonValue, b: &JsonValue) -> (r: bool)
    ensures
        r == (a@ == b@),
    decreases a,
{
    match a {
        JsonValue::Null => match b {
            JsonValue::Null => true,
            _ => false,
        },
        JsonValue::Bool(x) => match b {
            JsonValue::Bool(y) => *x == *y,
            _ => false,
        },
        JsonValue::Number(x) => match b {
            JsonValue::Number(y) => *x == *y,
            _ => false,
        },
        JsonValue::String(x) => match b {
            JsonValue::String(y) => *x == *y,
            _ => false,
        },
        JsonValue::Array(xs) => match b {
            JsonValue::Array(ys) => {
                proof {
                    lemma_arr_view(xs@);
                    lemma_arr_view(ys@);
                }
                if xs.len() != ys.len() {
                    return false;
                }
                let mut i: usize = 0;
                loop
                    invariant_except_break
                        i <= xs@.len(),
                        forall|j: int| 0 <= j < i ==> arr_view(xs@)[j] == arr_view(ys@)[j],
                    invariant
                        *a == JsonValue::Array(*xs),
                        *b == JsonValue::Array(*ys),
                        xs@.len() == ys@.len(),
                        arr_view(xs@).len() == xs@.len(),
                        arr_view(ys@).len() == ys@.len(),
                        forall|j: int|
                            0 <= j < xs@.len() ==> #[trigger] arr_view(xs@)[j] == xs@[j]@,
                        forall|j: int|
                            0 <= j < ys@.len() ==> #[trigger] arr_view(ys@)[j] == ys@[j]@,
                    ensures
                        i == xs@.len(),
                        forall|j: int| 0 <= j < i ==> arr_view(xs@)[j] == arr_view(ys@)[j],
                    decreases xs@.len() - i,
                {
                    if i == xs.len() {
                        break ;
                    }
                    proof {
                        assert(decreases_to!(*a => (*a)->Array_0));
                        assert(decreases_to!(*xs => xs@[i as int]));
                    }
                    let same = value_eq(&xs[i], &ys[i]);
                    if !same {
                        proof {
                            assert(arr_view(xs@)[i as int] != arr_view(ys@)[i as int]);
                            assert(a@ != b@);
                        }
                        return false;
                    }
                    i += 1;
                }
                proof {
                    assert(arr_view(xs@) =~= arr_view(ys@));
                }
                true
            },
            _ => false,
        },
        JsonValue::Object(xs) => match b {
            JsonValue::Object(ys) => {
                proof {
                    lemma_obj_view(xs@);
                    lemma_obj_view(ys@);
                }
                if xs.len() != ys.len() {
                    return false;
                }
                let mut i: usize = 0;
                loop
                    invariant_except_break
                        i <= xs@.len(),
                        forall|j: int| 0 <= j < i ==> obj_view(xs@)[j] == obj_view(ys@)[j],
                    invariant
                        *a == JsonValue::Object(*xs),
                        *b == JsonValue::Object(*ys),
                        xs@.len() == ys@.len(),
                        obj_view(xs@).len() == xs@.len(),
                        obj_view(ys@).len() == ys@.len(),
                        forall|j: int|
                            0 <= j < xs@.len() ==> #[trigger] obj_view(xs@)[j] == (
                            xs@[j].0@,
                            xs@[j].1@,
                        ),
                        forall|j: int|
                            0 <= j < ys@.len() ==> #[trigger] obj_view(ys@)[j] == (
                            ys@[j].0@,
                            ys@[j].1@,
                        ),
                    ensures
                        i == xs@.len(),
                        forall|j: int| 0 <= j < i ==> obj_view(xs@)[j] == obj_view(ys@)[j],
                    decreases xs@.len() - i,
                {
                    if i == xs.len() {
                        break ;
                    }
                    let keys_same = xs[i].0 == ys[i].0;
                    if !keys_same {
                        proof {
                            assert(obj_view(xs@)[i as int].0 != obj_view(ys@)[i as int].0);
                            assert(a@ != b@);
                        }
                        return false;
                    }
                    proof {
                        assert(decreases_to!(*a => (*a)->Object_0));
                        assert(decreases_to!(*xs => xs@[i as int]));
                        assert(decreases_to!(xs@[i as int] => xs@[i as int].1));
                    }
                    let same = value_eq(&xs[i].1, &ys[i].1);
                    if !same {
                        proof {
                            assert(obj_view(xs@)[i as int].1 != obj_view(ys@)[i as int].1);
                            assert(a@ != b@);
                        }
                        return false;
                    }
                    i += 1;
                }
                proof {
                    assert(obj_view(xs@) =~= obj_view(ys@));
                }
                true
            },
            _ => false,
        },
    }
}

impl PartialEq for JsonValue {
    fn eq(&self, other: &Self) -> (r: bool) {
        value_eq(self, other)
    }
}

impl vstd::std_specs::cmp::PartialEqSpecImpl for JsonValue {
    open spec fn obeys_eq_spec() -> bool {
        true
    }

    open spec fn eq_spec(&self, other: &Self) -> bool {
        self@ == other@
    }
}

/// The message text of each failure kind; the `u8` payloads name the byte
/// the parser stopped on.
pub open spec fn kind_message(k: ErrorKind) -> Seq<char> {
    match k {
        ErrorKind::UnexpectedChar(b) => "unexpected character "@ + seq![b as char],
        ErrorKind::UnexpectedEof => "unexpected EOF"@,
        ErrorKind::InvalidLiteral => "unexpected tokens"@,
        ErrorKind::UnterminatedString => "unterminated string"@,
        ErrorKind::InvalidUtf8 => "invalid UTF-8 in string"@,
        ErrorKind::InvalidNumber => "invalid number"@,
        ErrorKind::UnexpectedCharInArray(b) => "unexpected character "@ + seq![b as char]
            + " in array"@,
        ErrorKind::UnterminatedArray => "unterminated array"@,
        ErrorKind::InvalidKey => "expected string literal for key in object"@,
        ErrorKind::ExpectedColon => "expected `:`"@,
        ErrorKind::UnexpectedCharInObject(b) => "unexpected character "@ + seq![b as char]
            + " in object"@,
        ErrorKind::UnterminatedObject => "unterminated object"@,
        ErrorKind::TrailingChars => "trailing characters"@,
    }
}

/// The full diagnostic text: the message, then the place if there is one.
pub open spec fn describe_message(e: Error) -> Seq<char> {
    match e.loc {
        Option::Some(l) => kind_message(e.kind) + " at line "@ + crate::ser::dec_rep(
            l.line as nat,
        ) + " column "@ + crate::ser::dec_rep(l.col as nat),
        Option::None => kind_message(e.kind),
    }
}

impl Error {
    /// The message with the location appended, ready to display.
    pub fn describe(&self) -> (m: String)
        ensures
            m@ == describe_message(*self),
    {
        let mut m = self.message();
        match &self.loc {
            Option::Some(l) => {
                m.append(" at line ");
                let line_text = crate::ser::dec_string_u(l.line as u128);
                m.append(line_text.as_str());
                m.append(" column ");
                let col_text = crate::ser::dec_string_u(l.col as u128);
                m.append(col_text.as_str());
                m
            },
            Option::None => m,
        }
    }

    /// A human-readable account of what went wrong.
    pub fn message(&self) -> (m: String)
        ensures
            m@ == kind_message(self.kind),
    {
        match self.kind {
            ErrorKind::UnexpectedChar(b) => {
                let mut m = String::from_str("unexpected character ");
                crate::text::push_char(&mut m, b as char);
                m
            },
            ErrorKind::UnexpectedEof => String::from_str("unexpected EOF"),
            ErrorKind::InvalidLiteral => String::from_str("unexpected tokens"),
            ErrorKind::UnterminatedString => String::from_str("unterminated string"),
            ErrorKind::InvalidUtf8 => String::from_str("invalid UTF-8 in string"),
            ErrorKind::InvalidNumber => String::from_str("invalid number"),
            ErrorKind::UnexpectedCharInArray(b) => {
                let mut m = String::from_str("unexpected character ");
                crate::text::push_char(&mut m, b as char);
                m.append(" in array");
                m
            },
            ErrorKind::UnterminatedArray => String::from_str("unterminated array"),
            ErrorKind::InvalidKey => String::from_str(
                "expected string literal for key in object",
            ),
            ErrorKind::ExpectedColon => String::from_str("expected `:`"),
            ErrorKind::UnexpectedCharInObject(b) => {
                let mut m = String::from_str("unexpected character ");
                crate::text::push_char(&mut m, b as char);
                m.append(" in object");
                m
            },
            ErrorKind::UnterminatedObject => String::from_str("unterminated object"),
            ErrorKind::TrailingChars => String::from_str("trailing characters"),
        }
    }
}

} // verus!
