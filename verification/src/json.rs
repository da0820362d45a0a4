//! A generic JSON value restricted to what the document wire format uses:
//! null, booleans, unsigned integers, strings, arrays and objects whose
//! members keep their textual order.

use vstd::prelude::*;

verus! {

broadcast use vstd::seq::axiom_seq_index_decreases, vstd::string::group_string_axioms;

/// Mathematical model of a JSON value.
#[verifier::ext_equal]
pub ghost enum JsonV {
    Null,
    Bool(bool),
    UInt(u64),
    Str(Seq<char>),
    Arr(Seq<JsonV>),
    Obj(Seq<(Seq<char>, JsonV)>),
}

/// A parsed, untyped JSON value. Object members keep the order in which
/// they appeared in the input text.
#[derive(Debug)]
pub enum JsonValue {
    Null,
    Bool(bool),
    UInt(u64),
    Str(String),
    Arr(Vec<JsonValue>),
    Obj(Vec<(String, JsonValue)>),
}

/// Model of one value.
pub open spec fn jv(v: JsonValue) -> JsonV
    decreases v, 1int,
{
    match v {
        JsonValue::Null => JsonV::Null,
        JsonValue::Bool(b) => JsonV::Bool(b),
        JsonValue::UInt(n) => JsonV::UInt(n),
        JsonValue::Str(s) => JsonV::Str(s@),
        JsonValue::Arr(items) => JsonV::Arr(jv_list(items@, 0)),
        JsonValue::Obj(members) => JsonV::Obj(jv_members(members@, 0)),
    }
}

/// Models of the elements of an array, from index `i` on.
pub open spec fn jv_list(items: Seq<JsonValue>, i: int) -> Seq<JsonV>
    decreases items, 0int, items.len() - i,
{
    if i < 0 || i >= items.len() {
        Seq::empty()
    } else {
        seq![jv(items[i])] + jv_list(items, i + 1)
    }
}

/// Models of the members of an object, from index `i` on.
pub open spec fn jv_members(members: Seq<(String, JsonValue)>, i: int) -> Seq<(Seq<char>, JsonV)>
    decreases members, 0int, members.len() - i,
{
    if i < 0 || i >= members.len() {
        Seq::empty()
    } else {
        seq![(members[i].0@, jv(members[i].1))] + jv_members(members, i + 1)
    }
}

impl View for JsonValue {
    type V = JsonV;

    open spec fn view(&self) -> JsonV {
        jv(*self)
    }
}

/// The value of the first member named `key` at or after index `i`, if any.
pub open spec fn lookup_from(ms: Seq<(Seq<char>, JsonV)>, key: Seq<char>, i: int) -> Option<JsonV>
    decreases ms.len() - i,
{
    if i < 0 || i >= ms.len() {
        None
    } else if ms[i].0 == key {
        Some(ms[i].1)
    } else {
        lookup_from(ms, key, i + 1)
    }
}

/// The value of the first member named `key`, if any. Members after the
/// first occurrence of a key are ignored.
pub open spec fn lookup(ms: Seq<(Seq<char>, JsonV)>, key: Seq<char>) -> Option<JsonV> {
    lookup_from(ms, key, 0)
}

pub proof fn lemma_jv_list_pointwise(items: Seq<JsonValue>, i: int)
    requires
        0 <= i <= items.len(),
    ensures
        jv_list(items, i).len() == items.len() - i,
        forall|k: int|
            0 <= k < items.len() - i ==> #[trigger] jv_list(items, i)[k] == jv(items[i + k]),
    decreases items.len() - i,
{
    if i < items.len() {
        lemma_jv_list_pointwise(items, i + 1);
        assert forall|k: int| 0 <= k < items.len() - i implies #[trigger] jv_list(items, i)[k]
            == jv(items[i + k]) by {
            if k > 0 {
                assert(jv_list(items, i)[k] == jv_list(items, i + 1)[k - 1]);
                assert(jv_list(items, i + 1)[k - 1] == jv(items[(i + 1) + (k - 1)]));
            }
        }
    }
}

pub proof fn lemma_jv_members_pointwise(members: Seq<(String, JsonValue)>, i: int)
    requires
        0 <= i <= members.len(),
    ensures
        jv_members(members, i).len() == members.len() - i,
        forall|k: int|
            0 <= k < members.len() - i ==> #[trigger] jv_members(members, i)[k] == (
            members[i + k].0@,
            jv(members[i + k].1),
            ),
    decreases members.len() - i,
{
    if i < members.len() {
        lemma_jv_members_pointwise(members, i + 1);
        assert forall|k: int| 0 <= k < members.len() - i implies #[trigger] jv_members(
            members,
            i,
        )[k] == (members[i + k].0@, jv(members[i + k].1)) by {
            if k > 0 {
                assert(jv_members(members, i)[k] == jv_members(members, i + 1)[k - 1]);
                assert(jv_members(members, i + 1)[k - 1] == (
                    members[(i + 1) + (k - 1)].0@,
                    jv(members[(i + 1) + (k - 1)].1),
                ));
            }
        }
    }
}

/// Relies on `str`'s `PartialEq`: two string slices are equal exactly when
/// their characters are.
#[verifier::external_body]
pub(crate) fn str_eq(a: &str, b: &str) -> (r: bool)
    ensures
        r == (a@ == b@),
{
    a == b
}

/// The value of the first member of `members` named `key`, if any.
pub(crate) fn obj_get<'a>(members: &'a Vec<(String, JsonValue)>, key: &str) -> (r: Option<
    &'a JsonValue,
>)
    ensures
        match r {
            Some(v) => lookup(jv_members(members@, 0), key@) == Some(v@),
            None => lookup(jv_members(members@, 0), key@) is None,
        },
{
    proof {
        lemma_jv_members_pointwise(members@, 0);
    }
    let ghost ms = jv_members(members@, 0);
    let n = members.len();
    let mut i: usize = 0;
    while i < n
        invariant
            i <= n,
            n == members@.len(),
            ms == jv_members(members@, 0),
            ms.len() == n,
            forall|k: int| 0 <= k < n ==> #[trigger] ms[k] == (members@[0 + k].0@, jv(members@[0 + k].1)),
            lookup_from(ms, key@, 0) == lookup_from(ms, key@, i as int),
        decreases n - i,
    {
        if str_eq(members[i].0.as_str(), key) {
            return Some(&members[i].1);
        }
        i = i + 1;
    }
    None
}

/// The decimal digit character for `d` (`0 <= d <= 9`).
pub open spec fn digit_char(d: int) -> char {
    ((48 + d) as u8) as char
}

/// The lowercase hexadecimal digit character for `d` (`0 <= d <= 15`).
pub open spec fn hex_digit(d: int) -> char {
    if d < 10 {
        ((48 + d) as u8) as char
    } else {
        ((87 + d) as u8) as char
    }
}

/// The shortest decimal rendering of `n`, without a sign and without
/// leading zeros.
pub open spec fn dec_digits(n: nat) -> Seq<char>
    decreases n,
{
    if n < 10 {
        seq![digit_char(n as int)]
    } else {
        dec_digits(n / 10).push(digit_char((n % 10) as int))
    }
}

/// How one character is written inside a JSON string literal: quote and
/// backslash get a backslash escape, the common control characters their
/// short escapes, any other control character a `\u00..` escape, and every
/// remaining character stands for itself.
pub open spec fn escape_char(c: char) -> Seq<char> {
    let u = c as u32;
    if u == 34 {
        seq!['\\', '"']
    } else if u == 92 {
        seq!['\\', '\\']
    } else if u == 8 {
        seq!['\\', 'b']
    } else if u == 9 {
        seq!['\\', 't']
    } else if u == 10 {
        seq!['\\', 'n']
    } else if u == 12 {
        seq!['\\', 'f']
    } else if u == 13 {
        seq!['\\', 'r']
    } else if u < 32 {
        seq!['\\', 'u', '0', '0', hex_digit((u / 16) as int), hex_digit((u % 16) as int)]
    } else {
        seq![c]
    }
}

/// A whole string escaped for a JSON string literal, character by character.
pub open spec fn escape_string(s: Seq<char>) -> Seq<char>
    decreases s.len(),
{
    if s.len() == 0 {
        Seq::empty()
    } else {
        escape_char(s[0]) + escape_string(s.drop_first())
    }
}

pub proof fn lemma_escape_push(p: Seq<char>, c: char)
    ensures
        escape_string(p.push(c)) == escape_string(p) + escape_char(c),
    decreases p.len(),
{
    if p.len() == 0 {
        assert(p.push(c).drop_first() =~= p);
        assert(escape_string(p.push(c)) =~= escape_string(p) + escape_char(c));
    } else {
        lemma_escape_push(p.drop_first(), c);
        assert(p.push(c).drop_first() =~= p.drop_first().push(c));
        assert(escape_string(p.push(c)) =~= escape_string(p) + escape_char(c));
    }
}

/// True of JSON insignificant whitespace.
pub open spec fn is_ws(c: char) -> bool {
    c as u32 == 32 || c as u32 == 9 || c as u32 == 10 || c as u32 == 13
}

/// True of an ASCII decimal digit.
pub open spec fn is_digit(c: char) -> bool {
    48 <= c as u32 && c as u32 <= 57
}

pub open spec fn skip_ws(t: Seq<char>, i: int) -> int
    decreases t.len() - i,
{
    if 0 <= i < t.len() && is_ws(t[i]) {
        skip_ws(t, i + 1)
    } else {
        i
    }
}

/// The first position at or after `i` that holds no whitespace; never
/// before `i`.
pub open spec fn ws_end(t: Seq<char>, i: int) -> int {
    let j = skip_ws(t, i);
    if j < i {
        i
    } else {
        j
    }
}

/// The end of the run of digits that starts at `i`; never before `i`.
pub open spec fn digits_end(t: Seq<char>, i: int) -> int
    decreases t.len() - i,
{
    if 0 <= i < t.len() && is_digit(t[i]) {
        let j = digits_end(t, i + 1);
        if j < i + 1 {
            i + 1
        } else {
            j
        }
    } else {
        i
    }
}

/// The numeric value of the digits `t[i .. j]`, read in base ten.
pub open spec fn digits_value(t: Seq<char>, i: int, j: int) -> int
    decreases j - i,
{
    if i >= j {
        0
    } else {
        digits_value(t, i, j - 1) * 10 + (t[j - 1] as u32 - 48)
    }
}

pub proof fn lemma_digits_end_lb(t: Seq<char>, i: int)
    ensures
        digits_end(t, i) >= i,
        i <= t.len() ==> digits_end(t, i) <= t.len(),
        forall|m: int| i <= m < digits_end(t, i) ==> is_digit(#[trigger] t[m]),
    decreases t.len() - i,
{
    if 0 <= i < t.len() && is_digit(t[i]) {
        lemma_digits_end_lb(t, i + 1);
    }
}

pub proof fn lemma_digits_value_mono(t: Seq<char>, i: int, k: int, j: int)
    requires
        i <= k <= j,
        forall|m: int| i <= m < j ==> is_digit(#[trigger] t[m]),
    ensures
        0 <= digits_value(t, i, k),
        digits_value(t, i, k) <= digits_value(t, i, j),
    decreases j - k,
{
    if k == j {
        lemma_digits_value_nonneg(t, i, k);
    } else {
        lemma_digits_value_mono(t, i, k, j - 1);
    }
}

pub proof fn lemma_digits_value_nonneg(t: Seq<char>, i: int, j: int)
    requires
        forall|m: int| i <= m < j ==> is_digit(#[trigger] t[m]),
    ensures
        0 <= digits_value(t, i, j),
    decreases j - i,
{
    if i < j {
        lemma_digits_value_nonneg(t, i, j - 1);
    }
}

/// True when the characters of `w` stand at position `i` of `t`.
pub open spec fn matches_at(t: Seq<char>, i: int, w: Seq<char>) -> bool {
    i >= 0 && i + w.len() <= t.len() && t.subrange(i, i + w.len()) == w
}

/// The value of one hexadecimal digit, or a negative number for any other
/// character.
pub open spec fn hex_val(c: char) -> int {
    let u = c as u32;
    if 48 <= u && u <= 57 {
        u - 48
    } else if 97 <= u && u <= 102 {
        u - 87
    } else if 65 <= u && u <= 70 {
        u - 55
    } else {
        -1
    }
}

/// The value of the four hexadecimal digits at `i`, or a negative number
/// when any of them is no such digit.
pub open spec fn hex_quad(t: Seq<char>, i: int) -> int {
    if hex_val(t[i]) < 0 || hex_val(t[i + 1]) < 0 || hex_val(t[i + 2]) < 0 || hex_val(t[i + 3])
        < 0 {
        -1
    } else {
        hex_val(t[i]) * 4096 + hex_val(t[i + 1]) * 256 + hex_val(t[i + 2]) * 16 + hex_val(
            t[i + 3],
        )
    }
}

/// What one single-character escape code after a backslash stands for;
/// `\u` escapes are handled separately.
pub open spec fn unescape_char(c: char) -> Option<char> {
    let u = c as u32;
    if u == 34 {
        Some('"')
    } else if u == 92 {
        Some('\\')
    } else if u == 47 {
        Some('/')
    } else if u == 98 {
        Some('\u{8}')
    } else if u == 116 {
        Some('\t')
    } else if u == 110 {
        Some('\n')
    } else if u == 102 {
        Some('\u{c}')
    } else if u == 114 {
        Some('\r')
    } else {
        None
    }
}

/// Parses the body of a JSON string literal, starting just after the
/// opening quote; yields the unescaped content and the position after the
/// closing quote.
pub open spec fn spec_parse_string_body(t: Seq<char>, i: int) -> Option<(Seq<char>, int)>
    decreases t.len() - i, 0int,
{
    if i < 0 || i >= t.len() {
        None
    } else if t[i] as u32 == 34 {
        Some((Seq::empty(), i + 1))
    } else if t[i] as u32 == 92 {
        if i + 1 >= t.len() {
            None
        } else if t[i + 1] as u32 == 117 {
            if i + 6 > t.len() {
                None
            } else {
                let v = hex_quad(t, i + 2);
                if v < 0 || (0xd800 <= v && v < 0xe000) {
                    None
                } else {
                    match spec_parse_string_body(t, i + 6) {
                        Some((rest, j)) => Some((seq![((v as u32) as char)] + rest, j)),
                        None => None,
                    }
                }
            }
        } else {
            match unescape_char(t[i + 1]) {
                Some(c) => match spec_parse_string_body(t, i + 2) {
                    Some((rest, j)) => Some((seq![c] + rest, j)),
                    None => None,
                },
                None => None,
            }
        }
    } else if (t[i] as u32) < 32 {
        None
    } else {
        match spec_parse_string_body(t, i + 1) {
            Some((rest, j)) => Some((seq![t[i]] + rest, j)),
            None => None,
        }
    }
}

/// Parses an unsigned decimal integer at `i`: at least one digit, no
/// leading zero, and a value that fits in 64 bits.
pub open spec fn spec_parse_number(t: Seq<char>, i: int) -> Option<(JsonV, int)> {
    let j = digits_end(t, i);
    if j == i {
        None
    } else if j - i >= 2 && t[i] as u32 == 48 {
        None
    } else {
        let n = digits_value(t, i, j);
        if n > u64::MAX {
            None
        } else {
            Some((JsonV::UInt(n as u64), j))
        }
    }
}

/// Parses one JSON value of the subset this format uses, skipping leading
/// whitespace; yields the value and the position just after it.
pub open spec fn spec_parse_value(t: Seq<char>, i0: int) -> Option<(JsonV, int)>
    decreases t.len() - i0, 0int,
{
    let i = ws_end(t, i0);
    if i >= t.len() {
        None
    } else {
        let u = t[i] as u32;
        if u == 123 {
            match spec_parse_obj_body(t, i + 1) {
                Some((ms, j)) => Some((JsonV::Obj(ms), j)),
                None => None,
            }
        } else if u == 91 {
            match spec_parse_arr_body(t, i + 1) {
                Some((vs, j)) => Some((JsonV::Arr(vs), j)),
                None => None,
            }
        } else if u == 34 {
            match spec_parse_string_body(t, i + 1) {
                Some((s, j)) => Some((JsonV::Str(s), j)),
                None => None,
            }
        } else if 48 <= u && u <= 57 {
            spec_parse_number(t, i)
        } else if matches_at(t, i, "null"@) {
            Some((JsonV::Null, i + 4))
        } else if matches_at(t, i, "true"@) {
            Some((JsonV::Bool(true), i + 4))
        } else if matches_at(t, i, "false"@) {
            Some((JsonV::Bool(false), i + 5))
        } else {
            None
        }
    }
}

/// Parses what follows the `{` of an object: either an immediate `}` or a
/// non-empty member list.
pub open spec fn spec_parse_obj_body(t: Seq<char>, i: int) -> Option<
    (Seq<(Seq<char>, JsonV)>, int),
>
    decreases t.len() - i, 2int,
{
    let j = ws_end(t, i);
    if j < t.len() && t[j] as u32 == 125 {
        Some((Seq::empty(), j + 1))
    } else {
        spec_parse_members(t, i)
    }
}

/// Parses a non-empty member list up to and including the closing `}`.
pub open spec fn spec_parse_members(t: Seq<char>, i: int) -> Option<(Seq<(Seq<char>, JsonV)>, int)>
    decreases t.len() - i, 1int,
{
    let j = ws_end(t, i);
    if j >= t.len() || t[j] as u32 != 34 {
        None
    } else {
        match spec_parse_string_body(t, j + 1) {
            Some((key, j2)) => {
                let j2c = if j2 <= j + 1 {
                    j + 2
                } else {
                    j2
                };
                let j3 = ws_end(t, j2c);
                if j3 >= t.len() || t[j3] as u32 != 58 {
                    None
                } else {
                    match spec_parse_value(t, j3 + 1) {
                        Some((v, j4)) => {
                            let j4c = if j4 <= j3 + 1 {
                                j3 + 2
                            } else {
                                j4
                            };
                            let j5 = ws_end(t, j4c);
                            if j5 >= t.len() {
                                None
                            } else if t[j5] as u32 == 44 {
                                match spec_parse_members(t, j5 + 1) {
                                    Some((rest, j6)) => Some((seq![(key, v)] + rest, j6)),
                                    None => None,
                                }
                            } else if t[j5] as u32 == 125 {
                                Some((seq![(key, v)], j5 + 1))
                            } else {
                                None
                            }
                        },
                        None => None,
                    }
                }
            },
            None => None,
        }
    }
}

/// Parses what follows the `[` of an array: either an immediate `]` or a
/// non-empty element list.
pub open spec fn spec_parse_arr_body(t: Seq<char>, i: int) -> Option<(Seq<JsonV>, int)>
    decreases t.len() - i, 2int,
{
    let j = ws_end(t, i);
    if j < t.len() && t[j] as u32 == 93 {
        Some((Seq::empty(), j + 1))
    } else {
        spec_parse_items(t, i)
    }
}

/// Parses a non-empty element list up to and including the closing `]`.
pub open spec fn spec_parse_items(t: Seq<char>, i: int) -> Option<(Seq<JsonV>, int)>
    decreases t.len() - i, 1int,
{
    match spec_parse_value(t, i) {
        Some((v, j)) => {
            let jc = if j <= i {
                i + 1
            } else {
                j
            };
            let j2 = ws_end(t, jc);
            if j2 >= t.len() {
                None
            } else if t[j2] as u32 == 44 {
                match spec_parse_items(t, j2 + 1) {
                    Some((rest, j3)) => Some((seq![v] + rest, j3)),
                    None => None,
                }
            } else if t[j2] as u32 == 93 {
                Some((seq![v], j2 + 1))
            } else {
                None
            }
        },
        None => None,
    }
}

/// The characters of `s` stand at position `i` of `t`.
pub open spec fn seg(t: Seq<char>, i: int, s: Seq<char>) -> bool {
    0 <= i && i + s.len() <= t.len() && t.subrange(i, i + s.len()) == s
}

pub proof fn lemma_seg_split(t: Seq<char>, i: int, a: Seq<char>, b: Seq<char>)
    requires
        seg(t, i, a + b),
    ensures
        seg(t, i, a),
        seg(t, i + a.len(), b),
{
    let ab = a + b;
    assert forall|m: int| 0 <= m < a.len() implies t.subrange(i, i + a.len())[m] == a[m] by {
        assert(t.subrange(i, i + ab.len())[m] == t[i + m]);
        assert(t.subrange(i, i + a.len())[m] == t[i + m]);
    }
    assert(t.subrange(i, i + a.len()) =~= a);
    assert forall|m: int| 0 <= m < b.len() implies t.subrange(
        i + a.len(),
        i + a.len() + b.len(),
    )[m] == b[m] by {
        assert(t.subrange(i, i + ab.len())[a.len() + m] == t[i + (a.len() + m)]);
        assert(t.subrange(i + a.len(), i + a.len() + b.len())[m] == t[(i + a.len()) + m]);
    }
    assert(t.subrange(i + a.len(), i + a.len() + b.len()) =~= b);
}

/// A character cast to its scalar value and back is itself.
pub proof fn proof_char_roundtrip(c: char)
    ensures
        ((c as u32) as char) == c,
{
    vstd::utf8::char_u32_cast(c, c as u32);
}

/// Two characters with one scalar value are one character.
pub proof fn lemma_char_code(a: char, b: char)
    requires
        a as u32 == b as u32,
    ensures
        a == b,
{
    vstd::utf8::char_u32_cast(a, a as u32);
    vstd::utf8::char_u32_cast(b, b as u32);
}

pub proof fn lemma_seg_char(t: Seq<char>, i: int, s: Seq<char>, k: int)
    requires
        seg(t, i, s),
        0 <= k < s.len(),
    ensures
        t[i + k] == s[k],
{
    assert(t.subrange(i, i + s.len())[k] == t[i + k]);
}

pub proof fn lemma_seg_inner(t: Seq<char>, i: int, s: Seq<char>, lo: int, hi: int)
    requires
        seg(t, i, s),
        0 <= lo <= hi <= s.len(),
    ensures
        seg(t, i + lo, s.subrange(lo, hi)),
{
    assert forall|m: int| 0 <= m < hi - lo implies t.subrange(i + lo, i + lo + (hi - lo))[m]
        == s.subrange(lo, hi)[m] by {
        assert(t.subrange(i, i + s.len())[lo + m] == t[i + (lo + m)]);
        assert(t.subrange(i + lo, i + lo + (hi - lo))[m] == t[(i + lo) + m]);
    }
    assert(t.subrange(i + lo, i + lo + (hi - lo)) =~= s.subrange(lo, hi));
}

/// Escaping changes nothing on a string that holds no quote, backslash or
/// control character.
pub proof fn lemma_escape_ordinary(s: Seq<char>)
    requires
        forall|k: int|
            0 <= k < s.len() ==> (#[trigger] (s[k] as u32)) >= 32 && s[k] as u32 != 34 && s[k]
                as u32 != 92,
    ensures
        escape_string(s) == s,
    decreases s.len(),
{
    if s.len() == 0 {
        assert(escape_string(s) =~= s);
    } else {
        lemma_escape_ordinary(s.drop_first());
        assert(escape_char(s[0]) =~= seq![s[0]]);
        assert(escape_string(s) =~= s);
    }
}

/// Parsing reads back what escaping wrote: the string body at `i` made of
/// the escaped characters of `s` and a closing quote parses to `s`.
pub proof fn lemma_parse_escaped_string(t: Seq<char>, i: int, s: Seq<char>)
    requires
        seg(t, i, escape_string(s) + seq!['"']),
    ensures
        spec_parse_string_body(t, i) == Some((s, i + escape_string(s).len() + 1)),
    decreases s.len(),
{
    if s.len() == 0 {
        lemma_seg_char(t, i, escape_string(s) + seq!['"'], 0);
        assert(t[i] == '"');
        assert(s =~= Seq::<char>::empty());
    } else {
        let c = s[0];
        let s2 = s.drop_first();
        let ec = escape_char(c);
        assert(escape_string(s) == ec + escape_string(s2));
        assert((ec + escape_string(s2)) + seq!['"'] =~= ec + (escape_string(s2) + seq!['"']));
        lemma_seg_split(t, i, ec, escape_string(s2) + seq!['"']);
        let i2 = i + ec.len();
        lemma_parse_escaped_string(t, i2, s2);
        assert forall|k: int| 0 <= k < ec.len() implies t[i + k] == ec[k] by {
            lemma_seg_char(t, i, ec, k);
        }
        let u = c as u32;
        if u == 34 || u == 92 || u == 8 || u == 9 || u == 10 || u == 12 || u == 13 {
            assert(ec.len() == 2 && ec[0] == '\\');
            if u == 34 {
                lemma_char_code(c, '"');
            } else if u == 92 {
                lemma_char_code(c, '\\');
            } else if u == 8 {
                lemma_char_code(c, '\u{8}');
            } else if u == 9 {
                lemma_char_code(c, '\t');
            } else if u == 10 {
                lemma_char_code(c, '\n');
            } else if u == 12 {
                lemma_char_code(c, '\u{c}');
            } else {
                lemma_char_code(c, '\r');
            }
            assert(unescape_char(ec[1]) == Some(c));
            assert(t[i] as u32 == 92);
            assert(t[i + 1] as u32 != 117);
            assert(spec_parse_string_body(t, i) == Some(
                (seq![c] + s2, i2 + escape_string(s2).len() + 1),
            ));
            assert(seq![c] + s2 =~= s);
        } else if u < 32 {
            assert(ec.len() == 6 && ec[0] == '\\' && ec[1] == 'u' && ec[2] == '0' && ec[3]
                == '0');
            assert(t[i] as u32 == 92 && t[i + 1] as u32 == 117);
            assert(hex_val('0') == 0);
            assert(hex_val(hex_digit((u / 16) as int)) == u / 16);
            assert(hex_val(hex_digit((u % 16) as int)) == u % 16);
            assert(hex_quad(t, i + 2) == u);
            proof_char_roundtrip(c);
            assert((((u as int) as u32) as char) == c);
            assert(spec_parse_string_body(t, i) == Some(
                (seq![c] + s2, i2 + escape_string(s2).len() + 1),
            ));
            assert(seq![c] + s2 =~= s);
        } else {
            assert(ec.len() == 1 && ec[0] == c);
            assert(t[i] == c);
            assert(spec_parse_string_body(t, i) == Some(
                (seq![c] + s2, i2 + escape_string(s2).len() + 1),
            ));
            assert(seq![c] + s2 =~= s);
        }
    }
}

pub proof fn lemma_dec_digits_are_digits(n: nat)
    ensures
        dec_digits(n).len() >= 1,
        forall|k: int| 0 <= k < dec_digits(n).len() ==> is_digit(#[trigger] dec_digits(n)[k]),
        n >= 10 ==> dec_digits(n).len() >= 2,
        n < 10 ==> dec_digits(n).len() == 1,
        dec_digits(n)[0] as u32 == 48 ==> n == 0,
    decreases n,
{
    if n >= 10 {
        lemma_dec_digits_are_digits(n / 10);
        assert forall|k: int| 0 <= k < dec_digits(n).len() implies is_digit(
            #[trigger] dec_digits(n)[k],
        ) by {
            if k < dec_digits(n / 10).len() {
                assert(dec_digits(n)[k] == dec_digits(n / 10)[k]);
            }
        }
        assert(dec_digits(n)[0] == dec_digits(n / 10)[0]);
    }
}

pub proof fn lemma_digits_end_run(t: Seq<char>, i: int, j: int)
    requires
        0 <= i <= j <= t.len(),
        forall|m: int| i <= m < j ==> is_digit(#[trigger] t[m]),
        j == t.len() || !is_digit(t[j]),
    ensures
        digits_end(t, i) == j,
    decreases j - i,
{
    if i < j {
        lemma_digits_end_run(t, i + 1, j);
    }
}

pub proof fn lemma_digits_value_of_dec(t: Seq<char>, i: int, n: nat)
    requires
        seg(t, i, dec_digits(n)),
    ensures
        digits_value(t, i, i + dec_digits(n).len()) == n,
    decreases n,
{
    if n < 10 {
        lemma_seg_char(t, i, dec_digits(n), 0);
        assert(digits_value(t, i, i) == 0);
        assert(digits_value(t, i, i + 1) == t[i] as u32 - 48);
    } else {
        let a = dec_digits(n / 10);
        let b = seq![digit_char((n % 10) as int)];
        assert(dec_digits(n) =~= a + b);
        lemma_seg_split(t, i, a, b);
        lemma_digits_value_of_dec(t, i, n / 10);
        lemma_seg_char(t, i + a.len(), b, 0);
        let j = i + dec_digits(n).len();
        assert(t[j - 1] == digit_char((n % 10) as int));
        assert(digits_value(t, i, j) == digits_value(t, i, j - 1) * 10 + (t[j - 1] as u32 - 48));
    }
}

/// Parsing reads back what decimal rendering wrote, as long as no digit
/// follows the rendered run.
pub proof fn lemma_parse_number_seg(t: Seq<char>, i: int, n: u64)
    requires
        seg(t, i, dec_digits(n as nat)),
        i + dec_digits(n as nat).len() == t.len() || !is_digit(t[i + dec_digits(n as nat).len()]),
    ensures
        spec_parse_number(t, i) == Some((JsonV::UInt(n), i + dec_digits(n as nat).len())),
{
    let dd = dec_digits(n as nat);
    let j = i + dd.len();
    lemma_dec_digits_are_digits(n as nat);
    assert forall|m: int| i <= m < j implies is_digit(#[trigger] t[m]) by {
        lemma_seg_char(t, i, dd, m - i);
    }
    lemma_digits_end_run(t, i, j);
    lemma_seg_char(t, i, dd, 0);
    if j - i >= 2 {
        assert(t[i] == dd[0]);
        assert(n >= 10);
        assert(t[i] as u32 != 48);
    }
    lemma_digits_value_of_dec(t, i, n as nat);
}

/// Relies on `String::from_iter` over a character iterator: the characters
/// of the resulting string are exactly the characters handed in, in order.
#[verifier::external_body]
pub(crate) fn string_from_chars(v: &Vec<char>) -> (r: String)
    ensures
        r@ == v@,
{
    v.iter().collect()
}

/// The characters of `s`, collected into a vector.
pub(crate) fn chars_of(s: &str) -> (r: Vec<char>)
    ensures
        r@ == s@,
{
    let n = s.unicode_len();
    let mut r: Vec<char> = Vec::new();
    let mut i: usize = 0;
    while i < n
        invariant
            i <= n,
            n == s@.len(),
            r@ == s@.take(i as int),
        decreases n - i,
    {
        r.push(s.get_char(i));
        proof {
            assert(s@.take(i + 1 as int) =~= s@.take(i as int).push(s@[i as int]));
        }
        i = i + 1;
    }
    proof {
        assert(s@.take(n as int) =~= s@);
    }
    r
}

/// Appends the characters of `s` to `out`.
pub(crate) fn push_str(out: &mut Vec<char>, s: &str)
    ensures
        final(out)@ == old(out)@ + s@,
{
    let n = s.unicode_len();
    let mut i: usize = 0;
    while i < n
        invariant
            i <= n,
            n == s@.len(),
            out@ == old(out)@ + s@.take(i as int),
        decreases n - i,
    {
        out.push(s.get_char(i));
        proof {
            assert(s@.take(i + 1 as int) =~= s@.take(i as int).push(s@[i as int]));
            assert(old(out)@ + s@.take(i as int).push(s@[i as int]) =~= (old(out)@ + s@.take(
                i as int,
            )).push(s@[i as int]));
        }
        i = i + 1;
    }
    proof {
        assert(s@.take(n as int) =~= s@);
    }
}

/// Appends the decimal rendering of `n` to `out`.
pub(crate) fn push_u64(out: &mut Vec<char>, n: u64)
    ensures
        final(out)@ == old(out)@ + dec_digits(n as nat),
    decreases n,
{
    if n < 10 {
        out.push(((48 + n) as u8) as char);
        proof {
            assert(out@ =~= old(out)@ + dec_digits(n as nat));
        }
    } else {
        push_u64(out, n / 10);
        out.push(((48 + n % 10) as u8) as char);
        proof {
            assert(out@ =~= old(out)@ + dec_digits(n as nat));
        }
    }
}

fn hex_char(d: u32) -> (c: char)
    requires
        d < 16,
    ensures
        c == hex_digit(d as int),
{
    if d < 10 {
        ((48 + d) as u8) as char
    } else {
        ((87 + d) as u8) as char
    }
}

/// Appends the JSON escape of the one character `c` to `out`.
fn push_escaped_char(out: &mut Vec<char>, c: char)
    ensures
        final(out)@ == old(out)@ + escape_char(c),
{
    let u = c as u32;
    if u == 34 {
        out.push('\\');
        out.push('"');
    } else if u == 92 {
        out.push('\\');
        out.push('\\');
    } else if u == 8 {
        out.push('\\');
        out.push('b');
    } else if u == 9 {
        out.push('\\');
        out.push('t');
    } else if u == 10 {
        out.push('\\');
        out.push('n');
    } else if u == 12 {
        out.push('\\');
        out.push('f');
    } else if u == 13 {
        out.push('\\');
        out.push('r');
    } else if u < 32 {
        out.push('\\');
        out.push('u');
        out.push('0');
        out.push('0');
        out.push(hex_char(u / 16));
        out.push(hex_char(u % 16));
    } else {
        out.push(c);
    }
    proof {
        assert(out@ =~= old(out)@ + escape_char(c));
    }
}

/// The first position at or after `i` holding no whitespace.
pub(crate) fn ws_end_exec(t: &Vec<char>, i: usize) -> (r: usize)
    requires
        i <= t@.len(),
    ensures
        r as int == ws_end(t@, i as int),
        i <= r <= t@.len(),
{
    let n = t.len();
    let mut j = i;
    let mut stop = false;
    while !stop && j < n
        invariant
            i <= j <= n,
            n == t@.len(),
            skip_ws(t@, i as int) == skip_ws(t@, j as int),
            stop ==> !is_ws(t@[j as int]),
        decreases n - j, if stop {
            0int
        } else {
            1int
        },
    {
        let c = t[j];
        let u = c as u32;
        if u == 32 || u == 9 || u == 10 || u == 13 {
            j = j + 1;
        } else {
            stop = true;
        }
    }
    j
}

/// Relies on `char::from_u32`: a code point below 0x110000 that is no
/// surrogate is the character with that value.
#[verifier::external_body]
fn char_from_u32(v: u32) -> (c: char)
    requires
        v < 0xd800 || (0xe000 <= v && v < 0x110000),
    ensures
        c == (v as char),
{
    char::from_u32(v).unwrap()
}

fn hex_val_exec(c: char) -> (r: Option<u32>)
    ensures
        match r {
            Some(v) => hex_val(c) == v as int && v < 16,
            None => hex_val(c) < 0,
        },
{
    let u = c as u32;
    if 48 <= u && u <= 57 {
        Some(u - 48)
    } else if 97 <= u && u <= 102 {
        Some(u - 87)
    } else if 65 <= u && u <= 70 {
        Some(u - 55)
    } else {
        None
    }
}

fn unescape_exec(c: char) -> (r: Option<char>)
    ensures
        r == unescape_char(c),
{
    let u = c as u32;
    if u == 34 {
        Some('"')
    } else if u == 92 {
        Some('\\')
    } else if u == 47 {
        Some('/')
    } else if u == 98 {
        Some('\u{8}')
    } else if u == 116 {
        Some('\t')
    } else if u == 110 {
        Some('\n')
    } else if u == 102 {
        Some('\u{c}')
    } else if u == 114 {
        Some('\r')
    } else {
        None
    }
}

/// Parses the body of a string literal, starting just after the opening
/// quote.
fn parse_string_body_exec(t: &Vec<char>, i: usize) -> (r: Option<(Vec<char>, usize)>)
    requires
        i <= t@.len(),
    ensures
        match r {
            Some(p) => spec_parse_string_body(t@, i as int) == Some((p.0@, p.1 as int)) && i < p.1
                <= t@.len(),
            None => spec_parse_string_body(t@, i as int) is None,
        },
    decreases t@.len() - i, 0int,
{
    let n = t.len();
    if i >= n {
        return None;
    }
    let c = t[i];
    let u = c as u32;
    if u == 34 {
        let empty: Vec<char> = Vec::new();
        return Some((empty, i + 1));
    }
    if u == 92 {
        if i + 1 >= n {
            return None;
        }
        let e = t[i + 1];
        if (e as u32) == 117 {
            if n - i < 6 {
                return None;
            }
            let h0 = hex_val_exec(t[i + 2]);
            let h1 = hex_val_exec(t[i + 3]);
            let h2 = hex_val_exec(t[i + 4]);
            let h3 = hex_val_exec(t[i + 5]);
            let v: u32 = match (h0, h1, h2, h3) {
                (Some(v0), Some(v1), Some(v2), Some(v3)) => v0 * 4096 + v1 * 256 + v2 * 16 + v3,
                _ => {
                    return None;
                },
            };
            if 0xd800 <= v && v < 0xe000 {
                return None;
            }
            let d = char_from_u32(v);
            return match parse_string_body_exec(t, i + 6) {
                Some((rest, j)) => {
                    let mut rest = rest;
                    let ghost prev = rest@;
                    rest.insert(0, d);
                    proof {
                        assert(rest@ =~= seq![d] + prev);
                    }
                    Some((rest, j))
                },
                None => None,
            };
        }
        match unescape_exec(e) {
            Some(d) => match parse_string_body_exec(t, i + 2) {
                Some((rest, j)) => {
                    let mut rest = rest;
                    let ghost prev = rest@;
                    rest.insert(0, d);
                    proof {
                        assert(rest@ =~= seq![d] + prev);
                    }
                    Some((rest, j))
                },
                None => None,
            },
            None => None,
        }
    } else if u < 32 {
        None
    } else {
        match parse_string_body_exec(t, i + 1) {
            Some((rest, j)) => {
                let mut rest = rest;
                let ghost prev = rest@;
                rest.insert(0, c);
                proof {
                    assert(rest@ =~= seq![c] + prev);
                }
                Some((rest, j))
            },
            None => None,
        }
    }
}

/// Parses an unsigned decimal integer at `i`.
fn parse_number_exec(t: &Vec<char>, i: usize) -> (r: Option<(u64, usize)>)
    requires
        i <= t@.len(),
    ensures
        match r {
            Some(p) => spec_parse_number(t@, i as int) == Some((JsonV::UInt(p.0), p.1 as int)) && i
                < p.1 <= t@.len(),
            None => spec_parse_number(t@, i as int) is None,
        },
{
    let n = t.len();
    let mut j = i;
    let mut stop = false;
    while !stop && j < n
        invariant
            i <= j <= n,
            n == t@.len(),
            digits_end(t@, i as int) == digits_end(t@, j as int),
            forall|m: int| i <= m < j ==> is_digit(#[trigger] t@[m]),
            stop ==> !is_digit(t@[j as int]),
        decreases n - j, if stop {
            0int
        } else {
            1int
        },
    {
        let c = t[j];
        let u = c as u32;
        if 48 <= u && u <= 57 {
            proof {
                lemma_digits_end_lb(t@, j as int + 1);
            }
            j = j + 1;
        } else {
            stop = true;
        }
    }
    let end = j;
    proof {
        assert(digits_end(t@, end as int) == end as int);
        assert(digits_end(t@, i as int) == end as int);
    }
    if end == i {
        return None;
    }
    if end - i >= 2 && (t[i] as u32) == 48 {
        return None;
    }
    let mut acc: u64 = 0;
    let mut k = i;
    while k < end
        invariant
            i <= k <= end <= n,
            n == t@.len(),
            digits_end(t@, i as int) == end as int,
            forall|m: int| i <= m < end ==> is_digit(#[trigger] t@[m]),
            acc as int == digits_value(t@, i as int, k as int),
        decreases end - k,
    {
        let d = (t[k] as u32) - 48;
        let wide: u128 = (acc as u128) * 10 + (d as u128);
        if wide > (u64::MAX as u128) {
            proof {
                assert(wide as int == digits_value(t@, i as int, k as int + 1));
                lemma_digits_value_mono(t@, i as int, k as int + 1, end as int);
                assert(digits_value(t@, i as int, end as int) > u64::MAX);
            }
            return None;
        }
        acc = wide as u64;
        k = k + 1;
    }
    Some((acc, end))
}

/// Parses one JSON value, skipping leading whitespace.
#[verifier::rlimit(60)]
#[verifier::spinoff_prover]
pub(crate) fn parse_value_exec(t: &Vec<char>, i0: usize) -> (r: Option<(JsonValue, usize)>)
    requires
        i0 <= t@.len(),
    ensures
        match r {
            Some(p) => spec_parse_value(t@, i0 as int) == Some((p.0@, p.1 as int)) && i0 < p.1
                <= t@.len(),
            None => spec_parse_value(t@, i0 as int) is None,
        },
    decreases t@.len() - i0, 0int,
{
    let n = t.len();
    let i = ws_end_exec(t, i0);
    if i >= n {
        return None;
    }
    let c = t[i];
    let u = c as u32;
    if u == 123 {
        match parse_obj_body_exec(t, i + 1) {
            Some((ms, j)) => Some((JsonValue::Obj(ms), j)),
            None => None,
        }
    } else if u == 91 {
        match parse_arr_body_exec(t, i + 1) {
            Some((vs, j)) => Some((JsonValue::Arr(vs), j)),
            None => None,
        }
    } else if u == 34 {
        match parse_string_body_exec(t, i + 1) {
            Some((s, j)) => Some((JsonValue::Str(string_from_chars(&s)), j)),
            None => None,
        }
    } else if 48 <= u && u <= 57 {
        match parse_number_exec(t, i) {
            Some((v, j)) => Some((JsonValue::UInt(v), j)),
            None => None,
        }
    } else if c == 'n' && n - i >= 4 && t[i + 1] == 'u' && t[i + 2] == 'l' && t[i + 3] == 'l' {
        proof {
            reveal_strlit("null");
            assert(t@.subrange(i as int, i as int + 4) =~= "null"@);
        }
        Some((JsonValue::Null, i + 4))
    } else if c == 't' && n - i >= 4 && t[i + 1] == 'r' && t[i + 2] == 'u' && t[i + 3] == 'e' {
        proof {
            reveal_strlit("null");
            reveal_strlit("true");
            assert("null"@.len() == 4 && "null"@[0] == 'n');
            assert(!matches_at(t@, i as int, "null"@)) by {
                assert(t@.subrange(i as int, i as int + 4)[0] == t@[i as int]);
            }
            assert(t@.subrange(i as int, i as int + 4) =~= "true"@);
        }
        Some((JsonValue::Bool(true), i + 4))
    } else if c == 'f' && n - i >= 5 && t[i + 1] == 'a' && t[i + 2] == 'l' && t[i + 3] == 's' && t[i
        + 4] == 'e' {
        proof {
            reveal_strlit("null");
            reveal_strlit("true");
            reveal_strlit("false");
            assert("null"@.len() == 4 && "null"@[0] == 'n');
            assert("true"@.len() == 4 && "true"@[0] == 't');
            assert(!matches_at(t@, i as int, "null"@) && !matches_at(t@, i as int, "true"@)) by {
                assert(t@.subrange(i as int, i as int + 4)[0] == t@[i as int]);
            }
            assert(t@.subrange(i as int, i as int + 5) =~= "false"@);
        }
        Some((JsonValue::Bool(false), i + 5))
    } else {
        proof {
            reveal_strlit("null");
            reveal_strlit("true");
            reveal_strlit("false");
            assert("null"@.len() == 4 && "true"@.len() == 4 && "false"@.len() == 5);
            if i + 4 <= n {
                let sr4 = t@.subrange(i as int, i as int + 4);
                assert(sr4[0] == t@[i as int]);
                assert(sr4[1] == t@[i as int + 1]);
                assert(sr4[2] == t@[i as int + 2]);
                assert(sr4[3] == t@[i as int + 3]);
            }
            if i + 5 <= n {
                let sr5 = t@.subrange(i as int, i as int + 5);
                assert(sr5[0] == t@[i as int]);
                assert(sr5[1] == t@[i as int + 1]);
                assert(sr5[2] == t@[i as int + 2]);
                assert(sr5[3] == t@[i as int + 3]);
                assert(sr5[4] == t@[i as int + 4]);
            }
            assert(!matches_at(t@, i as int, "null"@));
            assert(!matches_at(t@, i as int, "true"@));
            assert(!matches_at(t@, i as int, "false"@));
        }
        None
    }
}

/// Parses what follows the `{` of an object.
fn parse_obj_body_exec(t: &Vec<char>, i: usize) -> (r: Option<(Vec<(String, JsonValue)>, usize)>)
    requires
        i <= t@.len(),
    ensures
        match r {
            Some(p) => spec_parse_obj_body(t@, i as int) == Some((jv_members(p.0@, 0), p.1 as int))
                && i < p.1 <= t@.len(),
            None => spec_parse_obj_body(t@, i as int) is None,
        },
    decreases t@.len() - i, 2int,
{
    let n = t.len();
    let j = ws_end_exec(t, i);
    if j < n && (t[j] as u32) == 125 {
        let empty: Vec<(String, JsonValue)> = Vec::new();
        proof {
            lemma_jv_members_pointwise(empty@, 0);
            assert(jv_members(empty@, 0) =~= Seq::<(Seq<char>, JsonV)>::empty());
        }
        Some((empty, j + 1))
    } else {
        parse_members_exec(t, i)
    }
}

/// Parses a non-empty member list up to and including the closing `}`.
fn parse_members_exec(t: &Vec<char>, i: usize) -> (r: Option<(Vec<(String, JsonValue)>, usize)>)
    requires
        i <= t@.len(),
    ensures
        match r {
            Some(p) => spec_parse_members(t@, i as int) == Some((jv_members(p.0@, 0), p.1 as int))
                && i < p.1 <= t@.len(),
            None => spec_parse_members(t@, i as int) is None,
        },
    decreases t@.len() - i, 1int,
{
    let n = t.len();
    let j = ws_end_exec(t, i);
    if j >= n || (t[j] as u32) != 34 {
        return None;
    }
    let (key_chars, j2) = match parse_string_body_exec(t, j + 1) {
        Some(p) => p,
        None => {
            return None;
        },
    };
    let key = string_from_chars(&key_chars);
    let j3 = ws_end_exec(t, j2);
    if j3 >= n || (t[j3] as u32) != 58 {
        return None;
    }
    let (v, j4) = match parse_value_exec(t, j3 + 1) {
        Some(p) => p,
        None => {
            return None;
        },
    };
    let j5 = ws_end_exec(t, j4);
    if j5 >= n {
        return None;
    }
    if (t[j5] as u32) == 44 {
        match parse_members_exec(t, j5 + 1) {
            Some((rest, j6)) => {
                let mut rest = rest;
                let ghost prev = rest@;
                rest.insert(0, (key, v));
                proof {
                    lemma_jv_members_pointwise(prev, 0);
                    lemma_jv_members_pointwise(rest@, 0);
                    assert(jv_members(rest@, 0) =~= seq![(key@, jv(v))] + jv_members(prev, 0));
                }
                Some((rest, j6))
            },
            None => None,
        }
    } else if (t[j5] as u32) == 125 {
        let mut one: Vec<(String, JsonValue)> = Vec::new();
        one.push((key, v));
        proof {
            lemma_jv_members_pointwise(one@, 0);
            assert(jv_members(one@, 0) =~= seq![(key@, jv(v))]);
        }
        Some((one, j5 + 1))
    } else {
        None
    }
}

/// Parses what follows the `[` of an array.
fn parse_arr_body_exec(t: &Vec<char>, i: usize) -> (r: Option<(Vec<JsonValue>, usize)>)
    requires
        i <= t@.len(),
    ensures
        match r {
            Some(p) => spec_parse_arr_body(t@, i as int) == Some((jv_list(p.0@, 0), p.1 as int))
                && i < p.1 <= t@.len(),
            None => spec_parse_arr_body(t@, i as int) is None,
        },
    decreases t@.len() - i, 2int,
{
    let n = t.len();
    let j = ws_end_exec(t, i);
    if j < n && (t[j] as u32) == 93 {
        let empty: Vec<JsonValue> = Vec::new();
        proof {
            lemma_jv_list_pointwise(empty@, 0);
            assert(jv_list(empty@, 0) =~= Seq::<JsonV>::empty());
        }
        Some((empty, j + 1))
    } else {
        parse_items_exec(t, i)
    }
}

/// Parses a non-empty element list up to and including the closing `]`.
fn parse_items_exec(t: &Vec<char>, i: usize) -> (r: Option<(Vec<JsonValue>, usize)>)
    requires
        i <= t@.len(),
    ensures
        match r {
            Some(p) => spec_parse_items(t@, i as int) == Some((jv_list(p.0@, 0), p.1 as int)) && i
                < p.1 <= t@.len(),
            None => spec_parse_items(t@, i as int) is None,
        },
    decreases t@.len() - i, 1int,
{
    let n = t.len();
    let (v, j) = match parse_value_exec(t, i) {
        Some(p) => p,
        None => {
            return None;
        },
    };
    let j2 = ws_end_exec(t, j);
    if j2 >= n {
        return None;
    }
    if (t[j2] as u32) == 44 {
        match parse_items_exec(t, j2 + 1) {
            Some((rest, j3)) => {
                let mut rest = rest;
                let ghost prev = rest@;
                rest.insert(0, v);
                proof {
                    lemma_jv_list_pointwise(prev, 0);
                    lemma_jv_list_pointwise(rest@, 0);
                    assert(jv_list(rest@, 0) =~= seq![jv(v)] + jv_list(prev, 0));
                }
                Some((rest, j3))
            },
            None => None,
        }
    } else if (t[j2] as u32) == 93 {
        let mut one: Vec<JsonValue> = Vec::new();
        one.push(v);
        proof {
            lemma_jv_list_pointwise(one@, 0);
            assert(jv_list(one@, 0) =~= seq![jv(v)]);
        }
        Some((one, j2 + 1))
    } else {
        None
    }
}

/// Appends the JSON string-literal escaping of `s` to `out`.
pub(crate) fn push_escaped(out: &mut Vec<char>, s: &str)
    ensures
        final(out)@ == old(out)@ + escape_string(s@),
{
    let n = s.unicode_len();
    let mut i: usize = 0;
    while i < n
        invariant
            i <= n,
            n == s@.len(),
            out@ == old(out)@ + escape_string(s@.take(i as int)),
        decreases n - i,
    {
        push_escaped_char(out, s.get_char(i));
        proof {
            assert(s@.take(i + 1 as int) =~= s@.take(i as int).push(s@[i as int]));
            lemma_escape_push(s@.take(i as int), s@[i as int]);
        }
        i = i + 1;
    }
    proof {
        assert(s@.take(n as int) =~= s@);
    }
}

} // verus!
