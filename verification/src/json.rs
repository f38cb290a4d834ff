//! JSON values and an incremental decoder over raw bytes.
//!
//! The decoder distinguishes three outcomes: a complete value (with the
//! number of bytes it occupies), "more bytes needed" (the input ends in the
//! middle of a possible value), and a malformed prefix that no extension of
//! the input can repair.  Scalar tokens (numbers and the literals `true`,
//! `false`, `null`) are only reported complete once a delimiting byte
//! follows them, so a decoded value never changes when more bytes arrive.
//!
//! Number tokens and string contents are kept as raw bytes: numbers are
//! never converted (callers only compare or display them) and string
//! escapes are resolved separately by [`unescape`].

use vstd::prelude::*;

verus! {

broadcast use vstd::seq::axiom_seq_index_decreases, vstd::std_specs::vec::axiom_vec_decreases_to_view;

/// A decoded JSON value.  `Num` holds the raw number token; `Str` and
/// object keys hold the raw bytes between the quotes, escapes unresolved.
pub enum Json {
    Null,
    Bool(bool),
    Num(Vec<u8>),
    Str(Vec<u8>),
    Arr(Vec<Json>),
    Obj(Vec<(Vec<u8>, Json)>),
}

/// The mathematical model of a JSON value, with sequences in place of
/// vectors.  All contracts in this crate speak of this type.
pub enum JsonV {
    Null,
    Bool(bool),
    Num(Seq<u8>),
    Str(Seq<u8>),
    Arr(Seq<JsonV>),
    Obj(Seq<(Seq<u8>, JsonV)>),
}

/// The model of a decoded value.
pub open spec fn jview(j: Json) -> JsonV
    decreases j, 0int,
    via jview_decreases
{
    match j {
        Json::Null => JsonV::Null,
        Json::Bool(b) => JsonV::Bool(b),
        Json::Num(t) => JsonV::Num(t@),
        Json::Str(t) => JsonV::Str(t@),
        Json::Arr(items) => JsonV::Arr(arr_view(items@)),
        Json::Obj(ms) => JsonV::Obj(obj_view(ms@)),
    }
}

/// The models of the elements of an array, in order.
pub open spec fn arr_view(s: Seq<Json>) -> Seq<JsonV>
    decreases s, 1int,
{
    if s.len() == 0 {
        Seq::empty()
    } else {
        seq![jview(s.first())] + arr_view(s.drop_first())
    }
}

/// The models of the members of an object, in order of appearance.
pub open spec fn obj_view(s: Seq<(Vec<u8>, Json)>) -> Seq<(Seq<u8>, JsonV)>
    decreases s, 1int,
{
    if s.len() == 0 {
        Seq::empty()
    } else {
        seq![(s.first().0@, jview(s.first().1))] + obj_view(s.drop_first())
    }
}

#[via_fn]
proof fn jview_decreases(j: Json) {
    match j {
        Json::Arr(items) => {
            assert(decreases_to!(j => items));
            assert(decreases_to!(items => items@));
        }
        Json::Obj(ms) => {
            assert(decreases_to!(j => ms));
            assert(decreases_to!(ms => ms@));
        }
        _ => {}
    }
}

pub(crate) proof fn lemma_arr_view(s: Seq<Json>)
    ensures
        arr_view(s).len() == s.len(),
        forall|i: int| 0 <= i < s.len() ==> arr_view(s)[i] == jview(s[i]),
    decreases s.len(),
{
    if s.len() > 0 {
        lemma_arr_view(s.drop_first());
    }
}

pub(crate) proof fn lemma_obj_view(s: Seq<(Vec<u8>, Json)>)
    ensures
        obj_view(s).len() == s.len(),
        forall|i: int| 0 <= i < s.len() ==> obj_view(s)[i] == (s[i].0@, jview(s[i].1)),
    decreases s.len(),
{
    if s.len() > 0 {
        lemma_obj_view(s.drop_first());
    }
}

/// JSON whitespace: space, tab, line feed, carriage return.
pub open spec fn is_ws(c: u8) -> bool {
    c == 32 || c == 9 || c == 10 || c == 13
}

pub open spec fn is_digit(c: u8) -> bool {
    48 <= c <= 57
}

/// Bytes that may appear inside a number token: digits, `+`, `-`, `.`, `e`, `E`.
pub open spec fn is_num_byte(c: u8) -> bool {
    is_digit(c) || c == 43 || c == 45 || c == 46 || c == 101 || c == 69
}

/// Bytes of a literal-name token (`true`, `false`, `null`): lower-case letters.
pub open spec fn is_name_byte(c: u8) -> bool {
    97 <= c <= 122
}

pub open spec fn lit_true() -> Seq<u8> {
    seq![116u8, 114u8, 117u8, 101u8]
}

pub open spec fn lit_false() -> Seq<u8> {
    seq![102u8, 97u8, 108u8, 115u8, 101u8]
}

pub open spec fn lit_null() -> Seq<u8> {
    seq![110u8, 117u8, 108u8, 108u8]
}

/// First index at or after `i` that does not hold a number byte.
pub open spec fn num_end(s: Seq<u8>, i: int) -> int
    decreases s.len() - i,
{
    if i < s.len() && is_num_byte(s[i]) {
        num_end(s, i + 1)
    } else {
        i
    }
}

/// First index at or after `i` that does not hold a name byte.
pub open spec fn name_end(s: Seq<u8>, i: int) -> int
    decreases s.len() - i,
{
    if i < s.len() && is_name_byte(s[i]) {
        name_end(s, i + 1)
    } else {
        i
    }
}

/// Index of the closing quote of a string whose contents start at `i`, or
/// `None` if the input ends first.  A backslash always consumes the byte
/// after it.
pub open spec fn str_body_end(s: Seq<u8>, i: int) -> Option<int>
    decreases s.len() - i,
{
    if i < 0 || i >= s.len() {
        None
    } else if s[i] == 34 {
        Some(i)
    } else if s[i] == 92 {
        if i + 1 < s.len() {
            str_body_end(s, i + 2)
        } else {
            None
        }
    } else {
        str_body_end(s, i + 1)
    }
}

/// The index at which decoding continues after a sub-value that ended at
/// `end`.  Equal to `end` whenever `i < end <= len` (which every decoded
/// value satisfies); the other arms only keep the definition well-founded.
pub open spec fn next_pos(len: int, i: int, end: int) -> int {
    if i < end <= len {
        end
    } else if i + 1 <= len {
        i + 1
    } else {
        len
    }
}

/// Outcome of decoding one value starting at a given index: the value and
/// the index just past it, or `Pending` (the input may still grow into a
/// value), or `Bad` (no extension of the input can repair the prefix).
pub enum SpParse {
    Val { v: JsonV, end: int },
    Pending,
    Bad,
}

pub enum SpElems {
    Val { vs: Seq<JsonV>, end: int },
    Pending,
    Bad,
}

pub enum SpMembs {
    Val { ms: Seq<(Seq<u8>, JsonV)>, end: int },
    Pending,
    Bad,
}

/// Decode one JSON value starting at index `i`, after any whitespace.
///
/// A number or literal-name token is complete only when a byte that cannot
/// extend the token follows it; at the end of the input such a token stays
/// `Pending`.  Strings, arrays and objects end at their closing delimiter.
pub open spec fn sp_value(s: Seq<u8>, i: int) -> SpParse
    decreases s.len() - i, 1int,
{
    if i < 0 || i >= s.len() {
        SpParse::Pending
    } else if is_ws(s[i]) {
        sp_value(s, i + 1)
    } else if s[i] == 123 {
        match sp_membs(s, i + 1, Seq::empty()) {
            SpMembs::Val { ms, end } => SpParse::Val { v: JsonV::Obj(ms), end },
            SpMembs::Pending => SpParse::Pending,
            SpMembs::Bad => SpParse::Bad,
        }
    } else if s[i] == 91 {
        match sp_elems(s, i + 1, Seq::empty()) {
            SpElems::Val { vs, end } => SpParse::Val { v: JsonV::Arr(vs), end },
            SpElems::Pending => SpParse::Pending,
            SpElems::Bad => SpParse::Bad,
        }
    } else if s[i] == 34 {
        match str_body_end(s, i + 1) {
            Some(q) => SpParse::Val { v: JsonV::Str(s.subrange(i + 1, q)), end: q + 1 },
            None => SpParse::Pending,
        }
    } else if is_name_byte(s[i]) {
        let e = name_end(s, i);
        if e >= s.len() {
            SpParse::Pending
        } else if s.subrange(i, e) == lit_true() {
            SpParse::Val { v: JsonV::Bool(true), end: e }
        } else if s.subrange(i, e) == lit_false() {
            SpParse::Val { v: JsonV::Bool(false), end: e }
        } else if s.subrange(i, e) == lit_null() {
            SpParse::Val { v: JsonV::Null, end: e }
        } else {
            SpParse::Bad
        }
    } else if s[i] == 45 || is_digit(s[i]) {
        let e = num_end(s, i);
        if e >= s.len() {
            SpParse::Pending
        } else {
            SpParse::Val { v: JsonV::Num(s.subrange(i, e)), end: e }
        }
    } else {
        SpParse::Bad
    }
}

/// Decode the remaining elements of an array, `acc` holding those already
/// decoded.  Commas are treated as separators and skipped wherever they
/// appear.
pub open spec fn sp_elems(s: Seq<u8>, i: int, acc: Seq<JsonV>) -> SpElems
    decreases s.len() - i, 2int,
{
    if i < 0 || i >= s.len() {
        SpElems::Pending
    } else if is_ws(s[i]) || s[i] == 44 {
        sp_elems(s, i + 1, acc)
    } else if s[i] == 93 {
        SpElems::Val { vs: acc, end: i + 1 }
    } else {
        match sp_value(s, i) {
            SpParse::Val { v, end } => sp_elems(s, next_pos(s.len() as int, i, end), acc.push(v)),
            SpParse::Pending => SpElems::Pending,
            SpParse::Bad => SpElems::Bad,
        }
    }
}

/// Decode the remaining members of an object, `acc` holding those already
/// decoded.
pub open spec fn sp_membs(s: Seq<u8>, i: int, acc: Seq<(Seq<u8>, JsonV)>) -> SpMembs
    decreases s.len() - i, 2int,
{
    if i < 0 || i >= s.len() {
        SpMembs::Pending
    } else if is_ws(s[i]) || s[i] == 44 {
        sp_membs(s, i + 1, acc)
    } else if s[i] == 125 {
        SpMembs::Val { ms: acc, end: i + 1 }
    } else if s[i] == 34 {
        match str_body_end(s, i + 1) {
            Some(q) => sp_colon(s, next_pos(s.len() as int, i, q + 1), acc, s.subrange(i + 1, q)),
            None => SpMembs::Pending,
        }
    } else {
        SpMembs::Bad
    }
}

/// Decode the colon and value of one object member whose key was `key`.
pub open spec fn sp_colon(s: Seq<u8>, i: int, acc: Seq<(Seq<u8>, JsonV)>, key: Seq<u8>) -> SpMembs
    decreases s.len() - i, 2int,
{
    if i < 0 || i >= s.len() {
        SpMembs::Pending
    } else if is_ws(s[i]) {
        sp_colon(s, i + 1, acc, key)
    } else if s[i] == 58 {
        match sp_value(s, i + 1) {
            SpParse::Val { v, end } => sp_membs(
                s,
                next_pos(s.len() as int, i + 1, end),
                acc.push((key, v)),
            ),
            SpParse::Pending => SpMembs::Pending,
            SpParse::Bad => SpMembs::Bad,
        }
    } else {
        SpMembs::Bad
    }
}

proof fn lemma_num_end(s: Seq<u8>, i: int)
    requires
        0 <= i <= s.len(),
    ensures
        i <= num_end(s, i) <= s.len(),
        forall|k: int| i <= k < num_end(s, i) ==> is_num_byte(s[k]),
        num_end(s, i) < s.len() ==> !is_num_byte(s[num_end(s, i)]),
    decreases s.len() - i,
{
    if i < s.len() && is_num_byte(s[i]) {
        lemma_num_end(s, i + 1);
    }
}

proof fn lemma_name_end(s: Seq<u8>, i: int)
    requires
        0 <= i <= s.len(),
    ensures
        i <= name_end(s, i) <= s.len(),
        forall|k: int| i <= k < name_end(s, i) ==> is_name_byte(s[k]),
        name_end(s, i) < s.len() ==> !is_name_byte(s[name_end(s, i)]),
    decreases s.len() - i,
{
    if i < s.len() && is_name_byte(s[i]) {
        lemma_name_end(s, i + 1);
    }
}

proof fn lemma_str_body_end(s: Seq<u8>, i: int)
    requires
        0 <= i,
    ensures
        str_body_end(s, i) matches Some(q) ==> i <= q < s.len() && s[q] == 34,
    decreases s.len() - i,
{
    if 0 <= i && i < s.len() && s[i] != 34 {
        if s[i] == 92 {
            if i + 1 < s.len() {
                lemma_str_body_end(s, i + 2);
            }
        } else {
            lemma_str_body_end(s, i + 1);
        }
    }
}

/// A decoded value occupies at least one byte and ends within the input.
pub(crate) proof fn lemma_value_consumes(s: Seq<u8>, i: int)
    requires
        0 <= i,
    ensures
        sp_value(s, i) matches SpParse::Val { end, .. } ==> i < end <= s.len(),
    decreases s.len() - i, 1int,
{
    if i < s.len() {
        if is_ws(s[i]) {
            lemma_value_consumes(s, i + 1);
        } else if s[i] == 123 {
            lemma_membs_consume(s, i + 1, Seq::empty());
        } else if s[i] == 91 {
            lemma_elems_consume(s, i + 1, Seq::empty());
        } else if s[i] == 34 {
            lemma_str_body_end(s, i + 1);
        } else if is_name_byte(s[i]) {
            lemma_name_end(s, i);
        } else if s[i] == 45 || is_digit(s[i]) {
            lemma_num_end(s, i);
        }
    }
}

proof fn lemma_elems_consume(s: Seq<u8>, i: int, acc: Seq<JsonV>)
    requires
        0 <= i,
    ensures
        sp_elems(s, i, acc) matches SpElems::Val { end, .. } ==> i < end <= s.len(),
    decreases s.len() - i, 2int,
{
    if i < s.len() {
        if is_ws(s[i]) || s[i] == 44 {
            lemma_elems_consume(s, i + 1, acc);
        } else if s[i] == 93 {
        } else {
            lemma_value_consumes(s, i);
            match sp_value(s, i) {
                SpParse::Val { v, end } => {
                    lemma_elems_consume(s, next_pos(s.len() as int, i, end), acc.push(v));
                }
                _ => {}
            }
        }
    }
}

proof fn lemma_membs_consume(s: Seq<u8>, i: int, acc: Seq<(Seq<u8>, JsonV)>)
    requires
        0 <= i,
    ensures
        sp_membs(s, i, acc) matches SpMembs::Val { end, .. } ==> i < end <= s.len(),
    decreases s.len() - i, 2int,
{
    if i < s.len() {
        if is_ws(s[i]) || s[i] == 44 {
            lemma_membs_consume(s, i + 1, acc);
        } else if s[i] == 125 {
        } else if s[i] == 34 {
            lemma_str_body_end(s, i + 1);
            match str_body_end(s, i + 1) {
                Some(q) => {
                    lemma_colon_consumes(s, next_pos(s.len() as int, i, q + 1), acc, s.subrange(i + 1, q));
                }
                None => {}
            }
        }
    }
}

proof fn lemma_colon_consumes(s: Seq<u8>, i: int, acc: Seq<(Seq<u8>, JsonV)>, key: Seq<u8>)
    requires
        0 <= i,
    ensures
        sp_colon(s, i, acc, key) matches SpMembs::Val { end, .. } ==> i < end <= s.len(),
    decreases s.len() - i, 2int,
{
    if i < s.len() {
        if is_ws(s[i]) {
            lemma_colon_consumes(s, i + 1, acc, key);
        } else if s[i] == 58 {
            lemma_value_consumes(s, i + 1);
            match sp_value(s, i + 1) {
                SpParse::Val { v, end } => {
                    lemma_membs_consume(s, next_pos(s.len() as int, i + 1, end), acc.push((key, v)));
                }
                _ => {}
            }
        }
    }
}

proof fn lemma_arr_view_push(s: Seq<Json>, x: Json)
    ensures
        arr_view(s.push(x)) == arr_view(s).push(jview(x)),
    decreases s.len(),
{
    if s.len() == 0 {
        assert(s.push(x).first() == x);
        assert(s.push(x).drop_first() =~= Seq::<Json>::empty());
        assert(arr_view(s.push(x)) == seq![jview(x)] + arr_view(Seq::<Json>::empty()));
        assert(seq![jview(x)] + Seq::<JsonV>::empty() =~= Seq::<JsonV>::empty().push(jview(x)));
        assert(arr_view(s) == Seq::<JsonV>::empty());
    } else {
        assert(s.push(x).drop_first() =~= s.drop_first().push(x));
        lemma_arr_view_push(s.drop_first(), x);
        assert(seq![jview(s.first())] + arr_view(s.drop_first()).push(jview(x)) =~= (
        seq![jview(s.first())] + arr_view(s.drop_first())).push(jview(x)));
    }
}

proof fn lemma_obj_view_push(s: Seq<(Vec<u8>, Json)>, x: (Vec<u8>, Json))
    ensures
        obj_view(s.push(x)) == obj_view(s).push((x.0@, jview(x.1))),
    decreases s.len(),
{
    if s.len() == 0 {
        assert(s.push(x).first() == x);
        assert(s.push(x).drop_first() =~= Seq::<(Vec<u8>, Json)>::empty());
        assert(obj_view(s.push(x)) == seq![(x.0@, jview(x.1))] + obj_view(
            Seq::<(Vec<u8>, Json)>::empty(),
        ));
        assert(seq![(x.0@, jview(x.1))] + Seq::<(Seq<u8>, JsonV)>::empty() =~= Seq::<(
            Seq<u8>,
            JsonV,
        )>::empty().push((x.0@, jview(x.1))));
        assert(obj_view(s) == Seq::<(Seq<u8>, JsonV)>::empty());
    } else {
        assert(s.push(x).drop_first() =~= s.drop_first().push(x));
        lemma_obj_view_push(s.drop_first(), x);
        assert(seq![(s.first().0@, jview(s.first().1))] + obj_view(s.drop_first()).push(
            (x.0@, jview(x.1)),
        ) =~= (seq![(s.first().0@, jview(s.first().1))] + obj_view(s.drop_first())).push(
            (x.0@, jview(x.1)),
        ));
    }
}

proof fn lemma_num_end_stable(s: Seq<u8>, t: Seq<u8>, i: int)
    requires
        0 <= i <= s.len(),
        num_end(s, i) < s.len(),
    ensures
        num_end(s + t, i) == num_end(s, i),
    decreases s.len() - i,
{
    lemma_num_end(s, i);
    if i < s.len() && is_num_byte(s[i]) {
        lemma_num_end_stable(s, t, i + 1);
    }
}

proof fn lemma_name_end_stable(s: Seq<u8>, t: Seq<u8>, i: int)
    requires
        0 <= i <= s.len(),
        name_end(s, i) < s.len(),
    ensures
        name_end(s + t, i) == name_end(s, i),
    decreases s.len() - i,
{
    lemma_name_end(s, i);
    if i < s.len() && is_name_byte(s[i]) {
        lemma_name_end_stable(s, t, i + 1);
    }
}

proof fn lemma_str_body_end_stable(s: Seq<u8>, t: Seq<u8>, i: int)
    requires
        0 <= i,
        str_body_end(s, i) is Some,
    ensures
        str_body_end(s + t, i) == str_body_end(s, i),
    decreases s.len() - i,
{
    if i < s.len() {
        if s[i] == 34 {
        } else if s[i] == 92 {
            if i + 1 < s.len() {
                lemma_str_body_end_stable(s, t, i + 2);
            }
        } else {
            lemma_str_body_end_stable(s, t, i + 1);
        }
    }
}

/// Only a `Pending` outcome may change when more bytes arrive: a decoded
/// value and a malformed verdict stay as they are.
pub(crate) proof fn lemma_value_stable(s: Seq<u8>, t: Seq<u8>, i: int)
    requires
        0 <= i,
    ensures
        sp_value(s, i) matches SpParse::Val { v, end } ==> sp_value(s + t, i) == (SpParse::Val {
            v,
            end,
        }),
        (sp_value(s, i) is Bad ==> sp_value(s + t, i) is Bad),
    decreases s.len() - i, 1int,
{
    if i < s.len() {
        assert((s + t)[i] == s[i]);
        if is_ws(s[i]) {
            lemma_value_stable(s, t, i + 1);
        } else if s[i] == 123 {
            lemma_membs_stable(s, t, i + 1, Seq::empty());
        } else if s[i] == 91 {
            lemma_elems_stable(s, t, i + 1, Seq::empty());
        } else if s[i] == 34 {
            match str_body_end(s, i + 1) {
                Some(q) => {
                    lemma_str_body_end(s, i + 1);
                    lemma_str_body_end_stable(s, t, i + 1);
                    assert((s + t).subrange(i + 1, q) =~= s.subrange(i + 1, q));
                }
                None => {}
            }
        } else if is_name_byte(s[i]) {
            let e = name_end(s, i);
            lemma_name_end(s, i);
            if e < s.len() {
                lemma_name_end_stable(s, t, i);
                assert((s + t).subrange(i, e) =~= s.subrange(i, e));
            }
        } else if s[i] == 45 || is_digit(s[i]) {
            let e = num_end(s, i);
            lemma_num_end(s, i);
            if e < s.len() {
                lemma_num_end_stable(s, t, i);
                assert((s + t).subrange(i, e) =~= s.subrange(i, e));
            }
        }
    }
}

proof fn lemma_elems_stable(s: Seq<u8>, t: Seq<u8>, i: int, acc: Seq<JsonV>)
    requires
        0 <= i,
    ensures
        sp_elems(s, i, acc) matches SpElems::Val { vs, end } ==> sp_elems(s + t, i, acc) == (
        SpElems::Val { vs, end }),
        (sp_elems(s, i, acc) is Bad ==> sp_elems(s + t, i, acc) is Bad),
    decreases s.len() - i, 2int,
{
    if i < s.len() {
        assert((s + t)[i] == s[i]);
        if is_ws(s[i]) || s[i] == 44 {
            lemma_elems_stable(s, t, i + 1, acc);
        } else if s[i] == 93 {
        } else {
            lemma_value_stable(s, t, i);
            match sp_value(s, i) {
                SpParse::Val { v, end } => {
                    lemma_value_consumes(s, i);
                    assert(next_pos(s.len() as int, i, end) == end);
                    assert(next_pos((s + t).len() as int, i, end) == end);
                    lemma_elems_stable(s, t, end, acc.push(v));
                }
                _ => {}
            }
        }
    }
}

proof fn lemma_membs_stable(s: Seq<u8>, t: Seq<u8>, i: int, acc: Seq<(Seq<u8>, JsonV)>)
    requires
        0 <= i,
    ensures
        sp_membs(s, i, acc) matches SpMembs::Val { ms, end } ==> sp_membs(s + t, i, acc) == (
        SpMembs::Val { ms, end }),
        (sp_membs(s, i, acc) is Bad ==> sp_membs(s + t, i, acc) is Bad),
    decreases s.len() - i, 2int,
{
    if i < s.len() {
        assert((s + t)[i] == s[i]);
        if is_ws(s[i]) || s[i] == 44 {
            lemma_membs_stable(s, t, i + 1, acc);
        } else if s[i] == 125 {
        } else if s[i] == 34 {
            match str_body_end(s, i + 1) {
                Some(q) => {
                    lemma_str_body_end(s, i + 1);
                    lemma_str_body_end_stable(s, t, i + 1);
                    assert((s + t).subrange(i + 1, q) =~= s.subrange(i + 1, q));
                    assert(next_pos(s.len() as int, i, q + 1) == q + 1);
                    assert(next_pos((s + t).len() as int, i, q + 1) == q + 1);
                    lemma_colon_stable(s, t, q + 1, acc, s.subrange(i + 1, q));
                }
                None => {}
            }
        }
    }
}

proof fn lemma_colon_stable(s: Seq<u8>, t: Seq<u8>, i: int, acc: Seq<(Seq<u8>, JsonV)>, key: Seq<u8>)
    requires
        0 <= i,
    ensures
        sp_colon(s, i, acc, key) matches SpMembs::Val { ms, end } ==> sp_colon(s + t, i, acc, key)
            == (SpMembs::Val { ms, end }),
        (sp_colon(s, i, acc, key) is Bad ==> sp_colon(s + t, i, acc, key) is Bad),
    decreases s.len() - i, 2int,
{
    if i < s.len() {
        assert((s + t)[i] == s[i]);
        if is_ws(s[i]) {
            lemma_colon_stable(s, t, i + 1, acc, key);
        } else if s[i] == 58 {
            lemma_value_stable(s, t, i + 1);
            match sp_value(s, i + 1) {
                SpParse::Val { v, end } => {
                    lemma_value_consumes(s, i + 1);
                    assert(next_pos(s.len() as int, i + 1, end) == end);
                    assert(next_pos((s + t).len() as int, i + 1, end) == end);
                    lemma_membs_stable(s, t, end, acc.push((key, v)));
                }
                _ => {}
            }
        }
    }
}

proof fn lemma_num_end_shift(u: Seq<u8>, s: Seq<u8>, i: int)
    requires
        0 <= i,
    ensures
        num_end(u + s, u.len() + i) == u.len() + num_end(s, i),
    decreases s.len() - i,
{
    if i < s.len() {
        assert((u + s)[u.len() + i] == s[i]);
        if is_num_byte(s[i]) {
            lemma_num_end_shift(u, s, i + 1);
        }
    }
}

proof fn lemma_name_end_shift(u: Seq<u8>, s: Seq<u8>, i: int)
    requires
        0 <= i,
    ensures
        name_end(u + s, u.len() + i) == u.len() + name_end(s, i),
    decreases s.len() - i,
{
    if i < s.len() {
        assert((u + s)[u.len() + i] == s[i]);
        if is_name_byte(s[i]) {
            lemma_name_end_shift(u, s, i + 1);
        }
    }
}

proof fn lemma_str_body_end_shift(u: Seq<u8>, s: Seq<u8>, i: int)
    requires
        0 <= i,
    ensures
        str_body_end(u + s, u.len() + i) == (match str_body_end(s, i) {
            Some(q) => Some(u.len() + q),
            None => None::<int>,
        }),
    decreases s.len() - i,
{
    if i < s.len() {
        assert((u + s)[u.len() + i] == s[i]);
        if s[i] == 34 {
        } else if s[i] == 92 {
            if i + 1 < s.len() {
                lemma_str_body_end_shift(u, s, i + 2);
            }
        } else {
            lemma_str_body_end_shift(u, s, i + 1);
        }
    }
}

/// Decoding is position-independent: parsing `s` at `i` and parsing `u + s`
/// at `u.len() + i` give the same outcome, with the end shifted.
pub(crate) proof fn lemma_value_shift(u: Seq<u8>, s: Seq<u8>, i: int)
    requires
        0 <= i,
    ensures
        sp_value(u + s, u.len() + i) == (match sp_value(s, i) {
            SpParse::Val { v, end } => SpParse::Val { v, end: u.len() + end },
            SpParse::Pending => SpParse::Pending,
            SpParse::Bad => SpParse::Bad,
        }),
    decreases s.len() - i, 1int,
{
    if i >= s.len() {
        assert((u + s).len() == u.len() + s.len());
    } else {
        assert((u + s)[u.len() + i] == s[i]);
        if is_ws(s[i]) {
            lemma_value_shift(u, s, i + 1);
        } else if s[i] == 123 {
            lemma_membs_shift(u, s, i + 1, Seq::empty());
        } else if s[i] == 91 {
            lemma_elems_shift(u, s, i + 1, Seq::empty());
        } else if s[i] == 34 {
            lemma_str_body_end_shift(u, s, i + 1);
            match str_body_end(s, i + 1) {
                Some(q) => {
                    lemma_str_body_end(s, i + 1);
                    assert((u + s).subrange(u.len() + i + 1, u.len() + q) =~= s.subrange(
                        i + 1,
                        q,
                    ));
                }
                None => {}
            }
        } else if is_name_byte(s[i]) {
            lemma_name_end_shift(u, s, i);
            lemma_name_end(s, i);
            let e = name_end(s, i);
            if e < s.len() {
                assert((u + s).subrange(u.len() + i, u.len() + e) =~= s.subrange(i, e));
            }
        } else if s[i] == 45 || is_digit(s[i]) {
            lemma_num_end_shift(u, s, i);
            lemma_num_end(s, i);
            let e = num_end(s, i);
            if e < s.len() {
                assert((u + s).subrange(u.len() + i, u.len() + e) =~= s.subrange(i, e));
            }
        }
    }
}

proof fn lemma_elems_shift(u: Seq<u8>, s: Seq<u8>, i: int, acc: Seq<JsonV>)
    requires
        0 <= i,
    ensures
        sp_elems(u + s, u.len() + i, acc) == (match sp_elems(s, i, acc) {
            SpElems::Val { vs, end } => SpElems::Val { vs, end: u.len() + end },
            SpElems::Pending => SpElems::Pending,
            SpElems::Bad => SpElems::Bad,
        }),
    decreases s.len() - i, 2int,
{
    if i >= s.len() {
        assert((u + s).len() == u.len() + s.len());
    } else {
        assert((u + s)[u.len() + i] == s[i]);
        if is_ws(s[i]) || s[i] == 44 {
            lemma_elems_shift(u, s, i + 1, acc);
        } else if s[i] == 93 {
        } else {
            lemma_value_shift(u, s, i);
            match sp_value(s, i) {
                SpParse::Val { v, end } => {
                    lemma_value_consumes(s, i);
                    assert(next_pos(s.len() as int, i, end) == end);
                    assert(next_pos((u + s).len() as int, u.len() + i, u.len() + end) == u.len()
                        + end);
                    lemma_elems_shift(u, s, end, acc.push(v));
                }
                _ => {}
            }
        }
    }
}

proof fn lemma_membs_shift(u: Seq<u8>, s: Seq<u8>, i: int, acc: Seq<(Seq<u8>, JsonV)>)
    requires
        0 <= i,
    ensures
        sp_membs(u + s, u.len() + i, acc) == (match sp_membs(s, i, acc) {
            SpMembs::Val { ms, end } => SpMembs::Val { ms, end: u.len() + end },
            SpMembs::Pending => SpMembs::Pending,
            SpMembs::Bad => SpMembs::Bad,
        }),
    decreases s.len() - i, 2int,
{
    if i >= s.len() {
        assert((u + s).len() == u.len() + s.len());
    } else {
        assert((u + s)[u.len() + i] == s[i]);
        if is_ws(s[i]) || s[i] == 44 {
            lemma_membs_shift(u, s, i + 1, acc);
        } else if s[i] == 125 {
        } else if s[i] == 34 {
            lemma_str_body_end_shift(u, s, i + 1);
            match str_body_end(s, i + 1) {
                Some(q) => {
                    lemma_str_body_end(s, i + 1);
                    assert((u + s).subrange(u.len() + i + 1, u.len() + q) =~= s.subrange(
                        i + 1,
                        q,
                    ));
                    assert(next_pos(s.len() as int, i, q + 1) == q + 1);
                    assert(next_pos((u + s).len() as int, u.len() + i, u.len() + q + 1) == u.len()
                        + q + 1);
                    lemma_colon_shift(u, s, q + 1, acc, s.subrange(i + 1, q));
                }
                None => {}
            }
        }
    }
}

proof fn lemma_colon_shift(u: Seq<u8>, s: Seq<u8>, i: int, acc: Seq<(Seq<u8>, JsonV)>, key: Seq<u8>)
    requires
        0 <= i,
    ensures
        sp_colon(u + s, u.len() + i, acc, key) == (match sp_colon(s, i, acc, key) {
            SpMembs::Val { ms, end } => SpMembs::Val { ms, end: u.len() + end },
            SpMembs::Pending => SpMembs::Pending,
            SpMembs::Bad => SpMembs::Bad,
        }),
    decreases s.len() - i, 2int,
{
    if i >= s.len() {
        assert((u + s).len() == u.len() + s.len());
    } else {
        assert((u + s)[u.len() + i] == s[i]);
        if is_ws(s[i]) {
            lemma_colon_shift(u, s, i + 1, acc, key);
        } else if s[i] == 58 {
            lemma_value_shift(u, s, i + 1);
            match sp_value(s, i + 1) {
                SpParse::Val { v, end } => {
                    lemma_value_consumes(s, i + 1);
                    assert(next_pos(s.len() as int, i + 1, end) == end);
                    assert(next_pos((u + s).len() as int, u.len() + i + 1, u.len() + end) == u.len()
                        + end);
                    lemma_membs_shift(u, s, end, acc.push((key, v)));
                }
                _ => {}
            }
        }
    }
}

fn ws_byte(c: u8) -> (r: bool)
    ensures
        r == is_ws(c),
{
    c == 32 || c == 9 || c == 10 || c == 13
}

fn num_byte(c: u8) -> (r: bool)
    ensures
        r == is_num_byte(c),
{
    (48 <= c && c <= 57) || c == 43 || c == 45 || c == 46 || c == 101 || c == 69
}

fn name_byte(c: u8) -> (r: bool)
    ensures
        r == is_name_byte(c),
{
    97 <= c && c <= 122
}

fn scan_num(s: &Vec<u8>, i: usize) -> (e: usize)
    requires
        i <= s@.len(),
    ensures
        e as int == num_end(s@, i as int),
        i <= e <= s@.len(),
{
    let mut j = i;
    while j < s.len() && num_byte(s[j])
        invariant
            i <= j <= s@.len(),
            num_end(s@, i as int) == num_end(s@, j as int),
        decreases s@.len() - j,
    {
        j = j + 1;
    }
    j
}

fn scan_name(s: &Vec<u8>, i: usize) -> (e: usize)
    requires
        i <= s@.len(),
    ensures
        e as int == name_end(s@, i as int),
        i <= e <= s@.len(),
{
    let mut j = i;
    while j < s.len() && name_byte(s[j])
        invariant
            i <= j <= s@.len(),
            name_end(s@, i as int) == name_end(s@, j as int),
        decreases s@.len() - j,
    {
        j = j + 1;
    }
    j
}

fn scan_str(s: &Vec<u8>, i: usize) -> (r: Option<usize>)
    requires
        i <= s@.len(),
    ensures
        match r {
            Some(q) => str_body_end(s@, i as int) == Some(q as int) && i <= q < s@.len()
                && s@[q as int] == 34,
            None => str_body_end(s@, i as int) is None,
        },
{
    proof {
        lemma_str_body_end(s@, i as int);
    }
    let mut j = i;
    loop
        invariant
            i <= j <= s@.len(),
            str_body_end(s@, i as int) == str_body_end(s@, j as int),
        decreases s@.len() - j,
    {
        if j >= s.len() {
            return None;
        }
        let c = s[j];
        if c == 34 {
            return Some(j);
        }
        if c == 92 {
            if j + 1 < s.len() {
                j = j + 2;
            } else {
                return None;
            }
        } else {
            j = j + 1;
        }
    }
}

/// Copy of the bytes of `s` from `a` (inclusive) to `b` (exclusive).
pub(crate) fn copy_range(s: &Vec<u8>, a: usize, b: usize) -> (v: Vec<u8>)
    requires
        a <= b <= s@.len(),
    ensures
        v@ == s@.subrange(a as int, b as int),
{
    vstd::slice::slice_to_vec(vstd::slice::slice_subrange(s.as_slice(), a, b))
}

/// Outcome of [`parse_value`]: a decoded value and the index just past it,
/// or a request for more bytes, or a malformed prefix.
pub enum Parsed {
    Val(Json, usize),
    Pending,
    Bad,
}

/// Decode one JSON value from `s` starting at index `i`.
///
/// The result agrees exactly with the specification decoder [`sp_value`].
pub fn parse_value(s: &Vec<u8>, i: usize) -> (r: Parsed)
    requires
        i <= s@.len(),
    ensures
        match r {
            Parsed::Val(j, e) => sp_value(s@, i as int) == (SpParse::Val {
                v: jview(j),
                end: e as int,
            }) && i < e <= s@.len(),
            Parsed::Pending => sp_value(s@, i as int) is Pending,
            Parsed::Bad => sp_value(s@, i as int) is Bad,
        },
    decreases s@.len() - i,
{
    let mut p = i;
    while p < s.len() && ws_byte(s[p])
        invariant
            i <= p <= s@.len(),
            sp_value(s@, i as int) == sp_value(s@, p as int),
        decreases s@.len() - p,
    {
        p = p + 1;
    }
    if p >= s.len() {
        return Parsed::Pending;
    }
    let c = s[p];
    if c == 123 {
        // object
        let mut acc: Vec<(Vec<u8>, Json)> = Vec::new();
        let mut q = p + 1;
        proof {
            assert(obj_view(acc@) =~= Seq::<(Seq<u8>, JsonV)>::empty());
        }
        loop
            invariant
                i <= p < s@.len(),
                p < q <= s@.len(),
                s@[p as int] == 123,
                sp_value(s@, i as int) == sp_value(s@, p as int),
                sp_membs(s@, p + 1, Seq::empty()) == sp_membs(s@, q as int, obj_view(acc@)),
            decreases s@.len() - q,
        {
            if q >= s.len() {
                return Parsed::Pending;
            }
            let c2 = s[q];
            if ws_byte(c2) || c2 == 44 {
                q = q + 1;
            } else if c2 == 125 {
                let e = q + 1;
                return Parsed::Val(Json::Obj(acc), e);
            } else if c2 == 34 {
                match scan_str(s, q + 1) {
                    None => {
                        return Parsed::Pending;
                    }
                    Some(qe) => {
                        let key = copy_range(s, q + 1, qe);
                        let ghost keyv = s@.subrange(q + 1, qe as int);
                        let mut t = qe + 1;
                        proof {
                            assert(next_pos(s@.len() as int, q as int, qe + 1) == qe + 1);
                        }
                        while t < s.len() && ws_byte(s[t])
                            invariant
                                q < t <= s@.len(),
                                sp_colon(s@, (qe + 1) as int, obj_view(acc@), keyv) == sp_colon(
                                    s@,
                                    t as int,
                                    obj_view(acc@),
                                    keyv,
                                ),
                            decreases s@.len() - t,
                        {
                            t = t + 1;
                        }
                        if t >= s.len() {
                            return Parsed::Pending;
                        }
                        if s[t] != 58 {
                            return Parsed::Bad;
                        }
                        match parse_value(s, t + 1) {
                            Parsed::Pending => {
                                return Parsed::Pending;
                            }
                            Parsed::Bad => {
                                return Parsed::Bad;
                            }
                            Parsed::Val(v, e) => {
                                proof {
                                    assert(next_pos(s@.len() as int, t + 1, e as int) == e);
                                    lemma_obj_view_push(acc@, (key, v));
                                }
                                let ghost oldacc = acc@;
                                acc.push((key, v));
                                proof {
                                    assert(acc@ == oldacc.push((key, v)));
                                }
                                q = e;
                            }
                        }
                    }
                }
            } else {
                return Parsed::Bad;
            }
        }
    } else if c == 91 {
        // array
        let mut acc: Vec<Json> = Vec::new();
        let mut q = p + 1;
        proof {
            assert(arr_view(acc@) =~= Seq::<JsonV>::empty());
        }
        loop
            invariant
                i <= p < s@.len(),
                p < q <= s@.len(),
                s@[p as int] == 91,
                sp_value(s@, i as int) == sp_value(s@, p as int),
                sp_elems(s@, p + 1, Seq::empty()) == sp_elems(s@, q as int, arr_view(acc@)),
            decreases s@.len() - q,
        {
            if q >= s.len() {
                return Parsed::Pending;
            }
            let c2 = s[q];
            if ws_byte(c2) || c2 == 44 {
                q = q + 1;
            } else if c2 == 93 {
                let e = q + 1;
                return Parsed::Val(Json::Arr(acc), e);
            } else {
                match parse_value(s, q) {
                    Parsed::Pending => {
                        return Parsed::Pending;
                    }
                    Parsed::Bad => {
                        return Parsed::Bad;
                    }
                    Parsed::Val(v, e) => {
                        proof {
                            assert(next_pos(s@.len() as int, q as int, e as int) == e);
                            lemma_arr_view_push(acc@, v);
                        }
                        let ghost oldacc = acc@;
                        acc.push(v);
                        proof {
                            assert(acc@ == oldacc.push(v));
                        }
                        q = e;
                    }
                }
            }
        }
    } else if c == 34 {
        // string
        match scan_str(s, p + 1) {
            None => Parsed::Pending,
            Some(qe) => {
                let body = copy_range(s, p + 1, qe);
                Parsed::Val(Json::Str(body), qe + 1)
            }
        }
    } else if name_byte(c) {
        // literal name
        let e = scan_name(s, p);
        proof {
            lemma_name_end(s@, p as int);
        }
        if e >= s.len() {
            return Parsed::Pending;
        }
        let ghost tok = s@.subrange(p as int, e as int);
        if e - p == 4 && s[p] == 116 && s[p + 1] == 114 && s[p + 2] == 117 && s[p + 3] == 101 {
            proof {
                assert(tok =~= lit_true());
            }
            Parsed::Val(Json::Bool(true), e)
        } else if e - p == 5 && s[p] == 102 && s[p + 1] == 97 && s[p + 2] == 108 && s[p + 3] == 115
            && s[p + 4] == 101 {
            proof {
                assert(tok =~= lit_false());
                assert(tok != lit_true());
            }
            Parsed::Val(Json::Bool(false), e)
        } else if e - p == 4 && s[p] == 110 && s[p + 1] == 117 && s[p + 2] == 108 && s[p + 3]
            == 108 {
            proof {
                assert(tok =~= lit_null());
                assert(tok != lit_true());
                assert(tok != lit_false());
            }
            Parsed::Val(Json::Null, e)
        } else {
            proof {
                lemma_token_mismatch(s@, p as int, e as int);
            }
            Parsed::Bad
        }
    } else if c == 45 || (48 <= c && c <= 57) {
        // number
        let e = scan_num(s, p);
        proof {
            lemma_num_end(s@, p as int);
        }
        if e >= s.len() {
            return Parsed::Pending;
        }
        let body = copy_range(s, p, e);
        Parsed::Val(Json::Num(body), e)
    } else {
        Parsed::Bad
    }
}

/// A token that fails the byte-by-byte comparisons against all three
/// literal names differs from each of them as a sequence.
proof fn lemma_token_mismatch(s: Seq<u8>, p: int, e: int)
    requires
        0 <= p <= e <= s.len(),
        !(e - p == 4 && s[p] == 116 && s[p + 1] == 114 && s[p + 2] == 117 && s[p + 3] == 101),
        !(e - p == 5 && s[p] == 102 && s[p + 1] == 97 && s[p + 2] == 108 && s[p + 3] == 115 && s[p
            + 4] == 101),
        !(e - p == 4 && s[p] == 110 && s[p + 1] == 117 && s[p + 2] == 108 && s[p + 3] == 108),
    ensures
        s.subrange(p, e) != lit_true(),
        s.subrange(p, e) != lit_false(),
        s.subrange(p, e) != lit_null(),
{
    let tok = s.subrange(p, e);
    if tok == lit_true() {
        assert(tok.len() == 4);
        assert(s[p] == tok[0] && s[p + 1] == tok[1] && s[p + 2] == tok[2] && s[p + 3] == tok[3]);
    }
    if tok == lit_false() {
        assert(tok.len() == 5);
        assert(s[p] == tok[0] && s[p + 1] == tok[1] && s[p + 2] == tok[2] && s[p + 3] == tok[3]
            && s[p + 4] == tok[4]);
    }
    if tok == lit_null() {
        assert(tok.len() == 4);
        assert(s[p] == tok[0] && s[p + 1] == tok[1] && s[p + 2] == tok[2] && s[p + 3] == tok[3]);
    }
}


/// The byte a single-character escape stands for, or `None` when the
/// character cannot follow a backslash.
pub open spec fn esc_byte(c: u8) -> Option<u8> {
    if c == 34 {
        Some(34u8)
    } else if c == 92 {
        Some(92u8)
    } else if c == 47 {
        Some(47u8)
    } else if c == 98 {
        Some(8u8)
    } else if c == 102 {
        Some(12u8)
    } else if c == 110 {
        Some(10u8)
    } else if c == 114 {
        Some(13u8)
    } else if c == 116 {
        Some(9u8)
    } else {
        None
    }
}

/// The value of one hex digit, upper or lower case.
pub open spec fn hex_val(c: u8) -> Option<int> {
    if 48 <= c <= 57 {
        Some((c - 48) as int)
    } else if 97 <= c <= 102 {
        Some(c - 97 + 10)
    } else if 65 <= c <= 70 {
        Some(c - 65 + 10)
    } else {
        None
    }
}

/// The UTF-8 encoding of a code point below 0x10000, the range a single
/// `\u` escape can name.
pub open spec fn utf8_bytes(cp: int) -> Seq<u8> {
    if cp < 0x80 {
        seq![cp as u8]
    } else if cp < 0x800 {
        seq![(0xC0 + cp / 0x40) as u8, (0x80 + cp % 0x40) as u8]
    } else {
        seq![
            (0xE0 + cp / 0x1000) as u8,
            (0x80 + (cp / 0x40) % 0x40) as u8,
            (0x80 + cp % 0x40) as u8,
        ]
    }
}

/// The string a raw string body stands for: escapes resolved, every other
/// byte kept.  `None` when a backslash is followed by an invalid escape or
/// the body ends inside one.  Each `\u` escape is encoded on its own, so a
/// surrogate pair becomes two three-byte groups.
pub open spec fn sp_unescape(raw: Seq<u8>) -> Option<Seq<u8>>
    decreases raw.len(),
{
    if raw.len() == 0 {
        Some(Seq::empty())
    } else if raw.first() == 92 {
        if raw.len() < 2 {
            None
        } else if raw[1] == 117 {
            if raw.len() < 6 {
                None
            } else {
                match hex_val(raw[2]) {
                    None => None,
                    Some(h1) => match hex_val(raw[3]) {
                        None => None,
                        Some(h2) => match hex_val(raw[4]) {
                            None => None,
                            Some(h3) => match hex_val(raw[5]) {
                                None => None,
                                Some(h4) => match sp_unescape(raw.skip(6)) {
                                    None => None,
                                    Some(rest) => Some(
                                        utf8_bytes(((h1 * 16 + h2) * 16 + h3) * 16 + h4) + rest,
                                    ),
                                },
                            },
                        },
                    },
                }
            }
        } else {
            match esc_byte(raw[1]) {
                None => None,
                Some(b) => match sp_unescape(raw.skip(2)) {
                    None => None,
                    Some(rest) => Some(seq![b] + rest),
                },
            }
        }
    } else {
        match sp_unescape(raw.skip(1)) {
            None => None,
            Some(rest) => Some(seq![raw.first()] + rest),
        }
    }
}

fn hex_digit(c: u8) -> (r: Option<u8>)
    ensures
        match r {
            Some(v) => hex_val(c) == Some(v as int) && v < 16,
            None => hex_val(c) is None,
        },
{
    if 48 <= c && c <= 57 {
        Some(c - 48)
    } else if 97 <= c && c <= 102 {
        Some(c - 97 + 10)
    } else if 65 <= c && c <= 70 {
        Some(c - 65 + 10)
    } else {
        None
    }
}

fn esc_map(c: u8) -> (r: Option<u8>)
    ensures
        r == esc_byte(c),
{
    if c == 34 {
        Some(34)
    } else if c == 92 {
        Some(92)
    } else if c == 47 {
        Some(47)
    } else if c == 98 {
        Some(8)
    } else if c == 102 {
        Some(12)
    } else if c == 110 {
        Some(10)
    } else if c == 114 {
        Some(13)
    } else if c == 116 {
        Some(9)
    } else {
        None
    }
}

/// Resolve the escapes of a raw string body, exactly as [`sp_unescape`]
/// prescribes; `None` on an invalid or truncated escape.
pub fn unescape(raw: &Vec<u8>) -> (r: Option<Vec<u8>>)
    ensures
        match r {
            Some(out) => sp_unescape(raw@) == Some(out@),
            None => sp_unescape(raw@) is None,
        },
{
    let n = raw.len();
    let mut out: Vec<u8> = Vec::new();
    let mut i: usize = 0;
    proof {
        assert(raw@.skip(0) =~= raw@);
        match sp_unescape(raw@) {
            Some(rest) => {
                assert(Seq::<u8>::empty() + rest =~= rest);
            }
            None => {}
        }
    }
    loop
        invariant
            i <= n,
            n == raw@.len(),
            (match sp_unescape(raw@.skip(i as int)) {
                Some(rest) => sp_unescape(raw@) == Some(out@ + rest),
                None => sp_unescape(raw@) is None,
            }),
        decreases n - i,
    {
        if i >= n {
            proof {
                assert(raw@.skip(i as int) =~= Seq::<u8>::empty());
                assert(out@ + Seq::<u8>::empty() =~= out@);
            }
            return Some(out);
        }
        let ghost suffix = raw@.skip(i as int);
        let ghost out0 = out@;
        proof {
            assert(suffix.first() == raw@[i as int]);
        }
        let c = raw[i];
        if c == 92 {
            if i + 1 >= n {
                return None;
            }
            proof {
                assert(suffix[1] == raw@[i + 1]);
            }
            let e = raw[i + 1];
            if e == 117 {
                if n - i < 6 {
                    return None;
                }
                proof {
                    assert(suffix[2] == raw@[i + 2]);
                    assert(suffix[3] == raw@[i + 3]);
                    assert(suffix[4] == raw@[i + 4]);
                    assert(suffix[5] == raw@[i + 5]);
                }
                let h1 = match hex_digit(raw[i + 2]) {
                    Some(v) => v,
                    None => {
                        return None;
                    }
                };
                let h2 = match hex_digit(raw[i + 3]) {
                    Some(v) => v,
                    None => {
                        return None;
                    }
                };
                let h3 = match hex_digit(raw[i + 4]) {
                    Some(v) => v,
                    None => {
                        return None;
                    }
                };
                let h4 = match hex_digit(raw[i + 5]) {
                    Some(v) => v,
                    None => {
                        return None;
                    }
                };
                let cp: u32 = ((h1 as u32 * 16 + h2 as u32) * 16 + h3 as u32) * 16 + h4 as u32;
                let ghost cpv = cp as int;
                if cp < 0x80 {
                    out.push(cp as u8);
                } else if cp < 0x800 {
                    out.push((0xC0 + cp / 0x40) as u8);
                    out.push((0x80 + cp % 0x40) as u8);
                } else {
                    out.push((0xE0 + cp / 0x1000) as u8);
                    out.push((0x80 + (cp / 0x40) % 0x40) as u8);
                    out.push((0x80 + cp % 0x40) as u8);
                }
                proof {
                    assert(out@ =~= out0 + utf8_bytes(cpv));
                    assert(suffix.skip(6) =~= raw@.skip(i + 6));
                    match sp_unescape(raw@.skip(i + 6)) {
                        Some(rest2) => {
                            assert(sp_unescape(suffix) == Some(utf8_bytes(cpv) + rest2));
                            assert(out0 + (utf8_bytes(cpv) + rest2) =~= out@ + rest2);
                        }
                        None => {}
                    }
                }
                i = i + 6;
            } else {
                let b = match esc_map(e) {
                    Some(b) => b,
                    None => {
                        return None;
                    }
                };
                out.push(b);
                proof {
                    assert(out@ =~= out0 + seq![b]);
                    assert(suffix.skip(2) =~= raw@.skip(i + 2));
                    match sp_unescape(raw@.skip(i + 2)) {
                        Some(rest2) => {
                            assert(sp_unescape(suffix) == Some(seq![b] + rest2));
                            assert(out0 + (seq![b] + rest2) =~= out@ + rest2);
                        }
                        None => {}
                    }
                }
                i = i + 2;
            }
        } else {
            out.push(c);
            proof {
                assert(out@ =~= out0 + seq![c]);
                assert(suffix.skip(1) =~= raw@.skip(i + 1));
                match sp_unescape(raw@.skip(i + 1)) {
                    Some(rest2) => {
                        assert(sp_unescape(suffix) == Some(seq![c] + rest2));
                        assert(out0 + (seq![c] + rest2) =~= out@ + rest2);
                    }
                    None => {}
                }
            }
            i = i + 1;
        }
    }
}

/// Byte-for-byte equality of a vector and a slice.
pub(crate) fn bytes_eq(a: &Vec<u8>, key: &[u8]) -> (r: bool)
    ensures
        r == (a@ == key@),
{
    if a.len() != key.len() {
        proof {
            assert(a@.len() != key@.len());
        }
        return false;
    }
    let n = a.len();
    let mut i: usize = 0;
    while i < n
        invariant
            i <= n,
            n == a@.len() == key@.len(),
            forall|k: int| 0 <= k < i ==> a@[k] == key@[k],
        decreases n - i,
    {
        if a[i] != key[i] {
            return false;
        }
        i = i + 1;
    }
    proof {
        assert(a@ =~= key@);
    }
    true
}


/// The model of a value keeps its constructor: each `Json` variant models
/// as the matching `JsonV` variant and no other.
pub(crate) proof fn lemma_jview_shape(j: Json)
    ensures
        (jview(j) is Null <==> j is Null),
        (jview(j) is Bool <==> j is Bool),
        (jview(j) is Num <==> j is Num),
        (jview(j) is Str <==> j is Str),
        (jview(j) is Arr <==> j is Arr),
        (jview(j) is Obj <==> j is Obj),
{
    match j {
        Json::Null => {}
        Json::Bool(_) => {}
        Json::Num(_) => {}
        Json::Str(_) => {}
        Json::Arr(_) => {}
        Json::Obj(_) => {}
    }
}

} // verus!
