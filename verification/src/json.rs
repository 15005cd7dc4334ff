//! A JSON-like value: null, booleans, numbers, strings, arrays and ordered
//! objects, carried over UTF-8 bytes. A number that is a plain digit run
//! within the signed 64-bit range is carried as an integer; any other number
//! token — with a fraction, an exponent or a larger magnitude — is carried
//! verbatim as its lexeme, re-emitted unchanged, so no floating point enters
//! the library. Strings know the standard single-character escapes; unicode
//! escapes (backslash, `u`, four hex digits) are not read and make the text
//! a codec error.

use vstd::prelude::*;
use vstd::string::StringSliceAdditionalSpecFns;

verus! {

broadcast use vstd::std_specs::vec::axiom_vec_decreases_to_view, vstd::seq::axiom_seq_index_decreases, vstd::seq::axiom_seq_subrange_decreases;

/// An executable JSON-like value. Strings and object keys are UTF-8 bytes.
pub enum Json {
    Null,
    Bool(bool),
    Int(i64),
    Num(Vec<u8>),
    Str(Vec<u8>),
    Arr(Vec<Json>),
    Obj(Vec<(Vec<u8>, Json)>),
}

/// The mathematical shape of a [`Json`] value.
pub enum JsonV {
    Null,
    Bool(bool),
    Int(int),
    Num(Seq<u8>),
    Str(Seq<u8>),
    Arr(Seq<JsonV>),
    Obj(Seq<(Seq<u8>, JsonV)>),
}

/// The mathematical value of an executable [`Json`] value.
pub open spec fn json_view(j: Json) -> JsonV
    decreases j,
{
    match j {
        Json::Null => JsonV::Null,
        Json::Bool(b) => JsonV::Bool(b),
        Json::Int(n) => JsonV::Int(n as int),
        Json::Num(b) => JsonV::Num(b@),
        Json::Str(s) => JsonV::Str(s@),
        Json::Arr(a) => JsonV::Arr(views_of_list(a@)),
        Json::Obj(o) => JsonV::Obj(views_of_pairs(o@)),
    }
}

/// The mathematical values of a sequence of array elements.
pub open spec fn views_of_list(s: Seq<Json>) -> Seq<JsonV>
    decreases s,
{
    if s.len() == 0 {
        Seq::empty()
    } else {
        seq![json_view(s[0])] + views_of_list(s.drop_first())
    }
}

/// The mathematical values of a sequence of object members.
pub open spec fn views_of_pairs(s: Seq<(Vec<u8>, Json)>) -> Seq<(Seq<u8>, JsonV)>
    decreases s,
{
    if s.len() == 0 {
        Seq::empty()
    } else {
        seq![(s[0].0@, json_view(s[0].1))] + views_of_pairs(s.drop_first())
    }
}

/// Element-wise reading of [`views_of_list`].
pub proof fn lemma_views_of_list(s: Seq<Json>)
    ensures
        views_of_list(s).len() == s.len(),
        forall|i: int| 0 <= i < s.len() ==> views_of_list(s)[i] == json_view(#[trigger] s[i]),
    decreases s.len(),
{
    if s.len() > 0 {
        lemma_views_of_list(s.drop_first());
        assert forall|i: int| 0 <= i < s.len() implies views_of_list(s)[i] == json_view(
            #[trigger] s[i],
        ) by {
            if i > 0 {
                assert(s.drop_first()[i - 1] == s[i]);
            }
        }
    }
}

/// Element-wise reading of [`views_of_pairs`].
pub proof fn lemma_views_of_pairs(s: Seq<(Vec<u8>, Json)>)
    ensures
        views_of_pairs(s).len() == s.len(),
        forall|i: int| 0 <= i < s.len() ==> views_of_pairs(s)[i] == ((#[trigger] s[i]).0@,
        json_view(s[i].1)),
    decreases s.len(),
{
    if s.len() > 0 {
        lemma_views_of_pairs(s.drop_first());
        assert forall|i: int| 0 <= i < s.len() implies views_of_pairs(s)[i] == ((
        #[trigger] s[i]).0@, json_view(s[i].1)) by {
            if i > 0 {
                assert(s.drop_first()[i - 1] == s[i]);
            }
        }
    }
}

impl View for Json {
    type V = JsonV;

    open spec fn view(&self) -> JsonV {
        json_view(*self)
    }
}

/// Whether a mathematical value is representable by an executable one:
/// every integer fits in `i64`, and every verbatim number lexeme is one
/// whole number token that the parser would carry verbatim in turn.
pub open spec fn json_wf(v: JsonV) -> bool
    decreases v,
{
    match v {
        JsonV::Null => true,
        JsonV::Bool(_) => true,
        JsonV::Int(n) => i64::MIN <= n <= i64::MAX,
        JsonV::Num(lex) => wf_num_lexeme(lex),
        JsonV::Str(_) => true,
        JsonV::Arr(a) => forall|i: int| 0 <= i < a.len() ==> json_wf(#[trigger] a[i]),
        JsonV::Obj(o) => forall|i: int| 0 <= i < o.len() ==> json_wf((#[trigger] o[i]).1),
    }
}

/// The bytes of an ASCII character sequence.
pub open spec fn ascii_of(s: Seq<char>) -> Seq<u8> {
    Seq::new(s.len(), |i: int| s[i] as u8)
}

/// The UTF-8 bytes of an ASCII string, as an owned vector.
pub fn str_bytes(s: &str) -> (r: Vec<u8>)
    requires
        vstd::string::is_ascii(s),
    ensures
        r@ == ascii_of(s@),
{
    proof {
        vstd::string::is_ascii_spec_bytes(s);
        assert(s.spec_bytes() =~= ascii_of(s@));
    }
    vstd::slice::slice_to_vec(s.as_bytes())
}

/// Equality of two byte slices.
pub fn bytes_eq(a: &[u8], b: &[u8]) -> (r: bool)
    ensures
        r == (a@ == b@),
{
    if a.len() != b.len() {
        return false;
    }
    let mut i: usize = 0;
    while i < a.len()
        invariant
            i <= a.len(),
            a.len() == b.len(),
            forall|j: int| 0 <= j < i ==> a@[j] == b@[j],
        decreases a.len() - i,
    {
        if a[i] != b[i] {
            return false;
        }
        i += 1;
    }
    proof {
        assert(a@ =~= b@);
    }
    true
}

/// The first value bound to `key` in a member list, if any.
pub open spec fn spec_obj_get(pairs: Seq<(Vec<u8>, Json)>, key: Seq<u8>) -> Option<Json>
    decreases pairs.len(),
{
    if pairs.len() == 0 {
        None
    } else if pairs[0].0@ == key {
        Some(pairs[0].1)
    } else {
        spec_obj_get(pairs.drop_first(), key)
    }
}

/// The first value bound to `key` when `j` is an object; `None` otherwise.
pub open spec fn spec_get(j: Json, key: Seq<u8>) -> Option<Json> {
    match j {
        Json::Obj(o) => spec_obj_get(o@, key),
        _ => None,
    }
}

impl Json {
    /// The first value bound to `key`, when this value is an object that has one.
    #[verifier::loop_isolation(false)]
    pub fn obj_get(&self, key: &[u8]) -> (r: Option<&Json>)
        ensures
            (r matches Some(v) ==> spec_get(*self, key@) == Some(*v)),
            (r is None ==> spec_get(*self, key@) is None),
    {
        match self {
            Json::Obj(o) => {
                let mut i: usize = 0;
                proof {
                    assert(o@.skip(0) =~= o@);
                }
                while i < o.len()
                    invariant
                        i <= o.len(),
                        spec_obj_get(o@, key@) == spec_obj_get(o@.skip(i as int), key@),
                    decreases o.len() - i,
                {
                    if bytes_eq(o[i].0.as_slice(), key) {
                        proof {
                            assert(o@.skip(i as int)[0] == o@[i as int]);
                            assert(spec_obj_get(o@.skip(i as int), key@) == Some(o@[i as int].1));
                            assert(spec_obj_get(o@, key@) == Some(o@[i as int].1));
                        }
                        let found: &Json = &o[i].1;
                        assert(*found == o@[i as int].1);
                        return Some(found);
                    }
                    proof {
                        assert(o@.skip(i as int).drop_first() =~= o@.skip(i as int + 1));
                        assert(o@.skip(i as int)[0] == o@[i as int]);
                    }
                    i += 1;
                }
                proof {
                    assert(o@.skip(i as int).len() == 0);
                }
                None
            },
            _ => None,
        }
    }

    /// A structural copy with the same mathematical value.
    #[verifier::loop_isolation(false)]
    pub fn duplicate(&self) -> (r: Json)
        ensures
            r@ == self@,
        decreases *self,
    {
        match self {
            Json::Null => Json::Null,
            Json::Bool(b) => Json::Bool(*b),
            Json::Int(n) => Json::Int(*n),
            Json::Num(b) => Json::Num(vstd::slice::slice_to_vec(b.as_slice())),
            Json::Str(s) => Json::Str(vstd::slice::slice_to_vec(s.as_slice())),
            Json::Arr(a) => {
                let mut out: Vec<Json> = Vec::new();
                let mut i: usize = 0;
                while i < a.len()
                    invariant
                        i <= a.len(),
                        out@.len() == i,
                        forall|k: int| 0 <= k < i ==> (#[trigger] out@[k])@ == a@[k]@,
                    decreases a.len() - i,
                {
                    proof {
                        assert(decreases_to!(*self => *a));
                        assert(decreases_to!(*a => a@));
                        assert(decreases_to!(a@ => a@[i as int]));
                    }
                    let d = a[i].duplicate();
                    out.push(d);
                    i += 1;
                }
                proof {
                    lemma_views_of_list(out@);
                    lemma_views_of_list(a@);
                    assert forall|k: int|
                        0 <= k < out@.len() implies views_of_list(out@)[k] == views_of_list(
                        a@,
                    )[k] by {
                        assert((out@[k])@ == (a@[k])@);
                    }
                    assert(views_of_list(out@) =~= views_of_list(a@));
                }
                Json::Arr(out)
            },
            Json::Obj(o) => {
                let mut out: Vec<(Vec<u8>, Json)> = Vec::new();
                let mut i: usize = 0;
                while i < o.len()
                    invariant
                        i <= o.len(),
                        out@.len() == i,
                        forall|k: int|
                            0 <= k < i ==> (#[trigger] out@[k]).0@ == o@[k].0@ && out@[k].1@
                                == o@[k].1@,
                    decreases o.len() - i,
                {
                    proof {
                        assert(decreases_to!(*self => *o));
                        assert(decreases_to!(*o => o@));
                        assert(decreases_to!(o@ => o@[i as int]));
                    }
                    let key = vstd::slice::slice_to_vec(o[i].0.as_slice());
                    let d = o[i].1.duplicate();
                    out.push((key, d));
                    i += 1;
                }
                proof {
                    lemma_views_of_pairs(out@);
                    lemma_views_of_pairs(o@);
                    assert forall|k: int|
                        0 <= k < out@.len() implies views_of_pairs(out@)[k] == views_of_pairs(
                        o@,
                    )[k] by {
                        assert((out@[k]).0@ == (o@[k]).0@ && (out@[k]).1@ == (o@[k]).1@);
                    }
                    assert(views_of_pairs(out@) =~= views_of_pairs(o@));
                }
                Json::Obj(out)
            },
        }
    }

    /// The integer held by this value, when it is a number.
    pub fn as_i64(&self) -> (r: Option<i64>)
        ensures
            match *self {
                Json::Int(n) => r == Some(n),
                _ => r is None,
            },
    {
        match self {
            Json::Int(n) => Some(*n),
            _ => None,
        }
    }

    /// The bytes held by this value, when it is a string.
    pub fn as_str(&self) -> (r: Option<&Vec<u8>>)
        ensures
            match *self {
                Json::Str(_) => r matches Some(s) && *self == Json::Str(*s),
                _ => r is None,
            },
    {
        match self {
            Json::Str(s) => Some(s),
            _ => None,
        }
    }
}

// ------------------------------------------------------------------
// Canonical text encoding
// ------------------------------------------------------------------

/// The canonical digit for `d`.
pub open spec fn digit_of(d: int) -> u8 {
    (48 + d) as u8
}

/// The canonical decimal digits of a non-negative integer.
pub open spec fn enc_nat(n: int) -> Seq<u8>
    decreases n,
{
    if n < 10 {
        seq![digit_of(if n >= 0 { n } else { 0 })]
    } else {
        enc_nat(n / 10) + seq![digit_of(n % 10)]
    }
}

/// The canonical decimal text of an integer.
pub open spec fn enc_int(n: int) -> Seq<u8> {
    if n < 0 {
        seq!['-' as u8] + enc_nat(-n)
    } else {
        enc_nat(n)
    }
}

/// The escape of one string byte: quote, backslash and newline are escaped,
/// every other byte stands for itself.
pub open spec fn esc(b: u8) -> Seq<u8> {
    if b == '"' as u8 {
        seq!['\\' as u8, '"' as u8]
    } else if b == '\\' as u8 {
        seq!['\\' as u8, '\\' as u8]
    } else if b == 10 {
        seq!['\\' as u8, 'n' as u8]
    } else {
        seq![b]
    }
}

/// The escaped body of a string.
pub open spec fn enc_str_body(s: Seq<u8>) -> Seq<u8>
    decreases s.len(),
{
    if s.len() == 0 {
        Seq::empty()
    } else {
        esc(s[0]) + enc_str_body(s.drop_first())
    }
}

/// A string token: quoted escaped body.
pub open spec fn enc_str(s: Seq<u8>) -> Seq<u8> {
    seq!['"' as u8] + enc_str_body(s) + seq!['"' as u8]
}

/// The canonical text of a value: no whitespace, strings escaped.
pub open spec fn enc_value(v: JsonV) -> Seq<u8>
    decreases v, 1int,
{
    match v {
        JsonV::Null => seq!['n' as u8, 'u' as u8, 'l' as u8, 'l' as u8],
        JsonV::Bool(b) => if b {
            seq!['t' as u8, 'r' as u8, 'u' as u8, 'e' as u8]
        } else {
            seq!['f' as u8, 'a' as u8, 'l' as u8, 's' as u8, 'e' as u8]
        },
        JsonV::Int(n) => enc_int(n),
        JsonV::Num(lex) => lex,
        JsonV::Str(s) => enc_str(s),
        JsonV::Arr(a) => seq!['[' as u8] + enc_list(a) + seq![']' as u8],
        JsonV::Obj(o) => seq!['{' as u8] + enc_members(o) + seq!['}' as u8],
    }
}

/// The comma-separated canonical texts of array elements.
pub open spec fn enc_list(a: Seq<JsonV>) -> Seq<u8>
    decreases a, 0int,
{
    if a.len() == 0 {
        Seq::empty()
    } else if a.len() == 1 {
        enc_value(a[0])
    } else {
        enc_value(a[0]) + seq![',' as u8] + enc_list(a.drop_first())
    }
}

/// The comma-separated canonical texts of object members.
pub open spec fn enc_members(o: Seq<(Seq<u8>, JsonV)>) -> Seq<u8>
    decreases o, 0int,
{
    if o.len() == 0 {
        Seq::empty()
    } else if o.len() == 1 {
        enc_str(o[0].0) + seq![':' as u8] + enc_value(o[0].1)
    } else {
        enc_str(o[0].0) + seq![':' as u8] + enc_value(o[0].1) + seq![',' as u8] + enc_members(
            o.drop_first(),
        )
    }
}

// ------------------------------------------------------------------
// Parsing
// ------------------------------------------------------------------

/// Whitespace accepted between tokens.
pub open spec fn is_ws(b: u8) -> bool {
    b == 32 || b == 9 || b == 13 || b == 10
}

/// A decimal digit.
pub open spec fn is_digit(b: u8) -> bool {
    48 <= b <= 57
}

/// The first position at or after `i` that holds no whitespace.
pub open spec fn skip_ws(s: Seq<u8>, i: int) -> int
    decreases s.len() - i,
{
    if 0 <= i < s.len() && is_ws(s[i]) {
        skip_ws(s, i + 1)
    } else {
        i
    }
}

/// Whitespace skipping stays inside the input and moves only forward.
pub proof fn lemma_skip_ws(s: Seq<u8>, i: int)
    requires
        0 <= i <= s.len(),
    ensures
        i <= skip_ws(s, i) <= s.len(),
        skip_ws(s, i) < s.len() ==> !is_ws(s[skip_ws(s, i)]),
    decreases s.len() - i,
{
    if i < s.len() && is_ws(s[i]) {
        lemma_skip_ws(s, i + 1);
    }
}

/// The end of the digit run that starts at `i`.
pub open spec fn digits_end(s: Seq<u8>, i: int) -> int
    decreases s.len() - i,
{
    if 0 <= i < s.len() && is_digit(s[i]) {
        digits_end(s, i + 1)
    } else {
        i
    }
}

/// Digit runs stay inside the input and move only forward.
pub proof fn lemma_digits_end(s: Seq<u8>, i: int)
    requires
        0 <= i <= s.len(),
    ensures
        i <= digits_end(s, i) <= s.len(),
        digits_end(s, i) < s.len() ==> !is_digit(s[digits_end(s, i)]),
        forall|j: int| i <= j < digits_end(s, i) ==> is_digit(s[j]),
    decreases s.len() - i,
{
    if i < s.len() && is_digit(s[i]) {
        lemma_digits_end(s, i + 1);
    }
}

/// A byte that can extend a number token: a digit, the decimal point, an
/// exponent mark or a sign.
pub open spec fn is_num_cont(b: u8) -> bool {
    is_digit(b) || b == '.' as u8 || b == 'e' as u8 || b == 'E' as u8 || b == '+' as u8 || b
        == '-' as u8
}

/// The end of a fraction part starting at `p`: a decimal point followed by
/// at least one digit, or nothing.
pub open spec fn frac_end(s: Seq<u8>, p: int) -> int {
    if 0 <= p < s.len() && s[p] == '.' as u8 && digits_end(s, p + 1) > p + 1 {
        digits_end(s, p + 1)
    } else {
        p
    }
}

/// The end of an exponent part starting at `p`: an exponent mark, an
/// optional sign and at least one digit, or nothing.
pub open spec fn exp_end(s: Seq<u8>, p: int) -> int {
    if 0 <= p < s.len() && (s[p] == 'e' as u8 || s[p] == 'E' as u8) {
        let q = if p + 1 < s.len() && (s[p + 1] == '+' as u8 || s[p + 1] == '-' as u8) {
            p + 2
        } else {
            p + 1
        };
        if digits_end(s, q) > q {
            digits_end(s, q)
        } else {
            p
        }
    } else {
        p
    }
}

/// The end of the number token starting at `i`: an optional minus sign, at
/// least one digit, an optional fraction and an optional exponent; `i` when
/// no token starts there.
pub open spec fn num_token_end(s: Seq<u8>, i: int) -> int {
    let neg = 0 <= i < s.len() && s[i] == '-' as u8;
    let ds: int = if neg {
        i + 1
    } else {
        i
    };
    let de = digits_end(s, ds);
    if de == ds {
        i
    } else {
        exp_end(s, frac_end(s, de))
    }
}

/// Whether a whole lexeme is a plain digit run (with optional sign) whose
/// value fits a signed 64-bit integer: such a token is carried as an integer,
/// not verbatim.
pub open spec fn num_is_plain_i64(lex: Seq<u8>) -> bool {
    let neg = lex.len() > 0 && lex[0] == '-' as u8;
    let ds: int = if neg {
        1
    } else {
        0
    };
    let de = digits_end(lex, ds);
    &&& de == lex.len()
    &&& de - ds <= 19
    &&& (if neg {
        dec_val(lex, ds, de) <= 0x8000_0000_0000_0000
    } else {
        dec_val(lex, ds, de) <= 0x7fff_ffff_ffff_ffff
    })
}

/// Whether a byte sequence is one whole number token that the parser carries
/// verbatim: it lexes to its own end and is not a plain signed-64-bit run.
pub open spec fn wf_num_lexeme(lex: Seq<u8>) -> bool {
    &&& lex.len() > 0
    &&& num_token_end(lex, 0) == lex.len()
    &&& !num_is_plain_i64(lex)
}

/// Number-token ends stay inside the input and move only forward.
pub proof fn lemma_num_token_end_bounds(s: Seq<u8>, i: int)
    requires
        0 <= i <= s.len(),
    ensures
        i <= num_token_end(s, i) <= s.len(),
{
    let neg = i < s.len() && s[i] == '-' as u8;
    let ds: int = if neg {
        i + 1
    } else {
        i
    };
    lemma_digits_end(s, ds);
    let de = digits_end(s, ds);
    if de != ds {
        if de < s.len() && s[de] == '.' as u8 && digits_end(s, de + 1) > de + 1 {
            lemma_digits_end(s, de + 1);
        }
        let f = frac_end(s, de);
        if f < s.len() && (s[f] == 'e' as u8 || s[f] == 'E' as u8) {
            let q = if f + 1 < s.len() && (s[f + 1] == '+' as u8 || s[f + 1] == '-' as u8) {
                f + 2
            } else {
                f + 1
            };
            if q <= s.len() {
                lemma_digits_end(s, q);
            }
        }
    }
}

/// The value of the digit run `s[from..to]`.
pub open spec fn dec_val(s: Seq<u8>, from: int, to: int) -> int
    decreases to - from,
{
    if from >= to {
        0
    } else {
        dec_val(s, from, to - 1) * 10 + (s[to - 1] - 48)
    }
}

/// The unescaped meaning of the byte following a backslash, if any: the
/// standard single-character escapes. Unicode escapes (a backslash, `u` and
/// four hex digits) are not read; a frame holding one is a codec error.
pub open spec fn unesc(b: u8) -> Option<u8> {
    if b == '"' as u8 {
        Some('"' as u8)
    } else if b == '\\' as u8 {
        Some('\\' as u8)
    } else if b == '/' as u8 {
        Some('/' as u8)
    } else if b == 'n' as u8 {
        Some(10u8)
    } else if b == 't' as u8 {
        Some(9u8)
    } else if b == 'r' as u8 {
        Some(13u8)
    } else if b == 'b' as u8 {
        Some(8u8)
    } else if b == 'f' as u8 {
        Some(12u8)
    } else {
        None
    }
}

/// Parses a string body at `i` (after the opening quote) up to its closing
/// quote: the bytes denoted and the position after the closing quote.
pub open spec fn sp_string(s: Seq<u8>, i: int) -> Option<(Seq<u8>, int)>
    decreases s.len() - i,
{
    if 0 <= i < s.len() {
        if s[i] == '"' as u8 {
            Some((Seq::empty(), i + 1))
        } else if s[i] == '\\' as u8 {
            if i + 1 < s.len() {
                match unesc(s[i + 1]) {
                    Some(b) => match sp_string(s, i + 2) {
                        Some((t, e)) => Some((seq![b] + t, e)),
                        None => None,
                    },
                    None => None,
                }
            } else {
                None
            }
        } else {
            match sp_string(s, i + 1) {
                Some((t, e)) => Some((seq![s[i]] + t, e)),
                None => None,
            }
        }
    } else {
        None
    }
}

/// Parses a number token at `i`. A plain digit run (with optional sign)
/// within the signed 64-bit range is an integer; any other token — with a
/// fraction, an exponent, or a larger magnitude — is carried verbatim as a
/// lexeme.
pub open spec fn sp_num(s: Seq<u8>, i: int) -> Option<(JsonV, int)> {
    let neg = 0 <= i < s.len() && s[i] == '-' as u8;
    let ds: int = if neg {
        i + 1
    } else {
        i
    };
    let de = digits_end(s, ds);
    let end = num_token_end(s, i);
    if end == i {
        None
    } else if end == de && de - ds <= 19 && (if neg {
        dec_val(s, ds, de) <= 0x8000_0000_0000_0000
    } else {
        dec_val(s, ds, de) <= 0x7fff_ffff_ffff_ffff
    }) {
        if neg {
            Some((JsonV::Int(-dec_val(s, ds, de)), de))
        } else {
            Some((JsonV::Int(dec_val(s, ds, de)), de))
        }
    } else {
        Some((JsonV::Num(s.subrange(i, end)), end))
    }
}

/// Parses one value whose first token starts at or after `i`; yields the
/// value and the position after it.
pub open spec fn sp_value(s: Seq<u8>, i: int) -> Option<(JsonV, int)>
    decreases s.len() - i, 2int,
{
    if !(0 <= i <= s.len()) {
        None
    } else {
        let j = skip_ws(s, i);
        if j < i || j >= s.len() {
            None
        } else if s[j] == 'n' as u8 {
            if j + 4 <= s.len() && s[j + 1] == 'u' as u8 && s[j + 2] == 'l' as u8 && s[j + 3]
                == 'l' as u8 {
                Some((JsonV::Null, j + 4))
            } else {
                None
            }
        } else if s[j] == 't' as u8 {
            if j + 4 <= s.len() && s[j + 1] == 'r' as u8 && s[j + 2] == 'u' as u8 && s[j + 3]
                == 'e' as u8 {
                Some((JsonV::Bool(true), j + 4))
            } else {
                None
            }
        } else if s[j] == 'f' as u8 {
            if j + 5 <= s.len() && s[j + 1] == 'a' as u8 && s[j + 2] == 'l' as u8 && s[j + 3]
                == 's' as u8 && s[j + 4] == 'e' as u8 {
                Some((JsonV::Bool(false), j + 5))
            } else {
                None
            }
        } else if s[j] == '"' as u8 {
            match sp_string(s, j + 1) {
                Some((t, e)) => Some((JsonV::Str(t), e)),
                None => None,
            }
        } else if s[j] == '-' as u8 || is_digit(s[j]) {
            sp_num(s, j)
        } else if s[j] == '[' as u8 {
            let k = skip_ws(s, j + 1);
            if k < s.len() && s[k] == ']' as u8 {
                Some((JsonV::Arr(Seq::empty()), k + 1))
            } else if j + 1 <= s.len() {
                match sp_list(s, j + 1) {
                    Some((a, e)) => Some((JsonV::Arr(a), e)),
                    None => None,
                }
            } else {
                None
            }
        } else if s[j] == '{' as u8 {
            let k = skip_ws(s, j + 1);
            if k < s.len() && s[k] == '}' as u8 {
                Some((JsonV::Obj(Seq::empty()), k + 1))
            } else if j + 1 <= s.len() {
                match sp_members(s, j + 1) {
                    Some((o, e)) => Some((JsonV::Obj(o), e)),
                    None => None,
                }
            } else {
                None
            }
        } else {
            None
        }
    }
}

/// Parses a non-empty, comma-separated element list starting at or after `i`,
/// up to and including the closing bracket.
pub open spec fn sp_list(s: Seq<u8>, i: int) -> Option<(Seq<JsonV>, int)>
    decreases s.len() - i, 3int,
{
    if !(0 <= i <= s.len()) {
        None
    } else {
        match sp_value(s, i) {
            Some((v, e)) => {
                let k = skip_ws(s, e);
                if e < i || e > s.len() {
                    None
                } else if k < s.len() && s[k] == ']' as u8 {
                    Some((seq![v], k + 1))
                } else if k < s.len() && s[k] == ',' as u8 && k + 1 > i {
                    match sp_list(s, k + 1) {
                        Some((a, e2)) => Some((seq![v] + a, e2)),
                        None => None,
                    }
                } else {
                    None
                }
            },
            None => None,
        }
    }
}

/// Parses a non-empty, comma-separated member list starting at or after `i`,
/// up to and including the closing brace.
pub open spec fn sp_members(s: Seq<u8>, i: int) -> Option<(Seq<(Seq<u8>, JsonV)>, int)>
    decreases s.len() - i, 3int,
{
    if !(0 <= i <= s.len()) {
        None
    } else {
        let j = skip_ws(s, i);
        if j >= i && j < s.len() && s[j] == '"' as u8 {
            match sp_string(s, j + 1) {
                Some((key, e1)) => {
                    let c = skip_ws(s, e1);
                    if e1 > s.len() || c < i || c >= s.len() || s[c] != ':' as u8 {
                        None
                    } else {
                        match sp_value(s, c + 1) {
                            Some((v, e)) => {
                                let k = skip_ws(s, e);
                                if e < i || e > s.len() {
                                    None
                                } else if k < s.len() && s[k] == '}' as u8 {
                                    Some((seq![(key, v)], k + 1))
                                } else if k < s.len() && s[k] == ',' as u8 && k + 1 > i {
                                    match sp_members(s, k + 1) {
                                        Some((o, e2)) => Some((seq![(key, v)] + o, e2)),
                                        None => None,
                                    }
                                } else {
                                    None
                                }
                            },
                            None => None,
                        }
                    }
                },
                None => None,
            }
        } else {
            None
        }
    }
}

/// Parses a whole text as one value: the text is the value's token with
/// whitespace around it and nothing else.
pub open spec fn spec_parse(s: Seq<u8>) -> Option<JsonV> {
    match sp_value(s, 0) {
        Some((v, e)) => if 0 <= e <= s.len() && skip_ws(s, e) == s.len() {
            Some(v)
        } else {
            None
        },
        None => None,
    }
}

// ------------------------------------------------------------------
// Executable encoder
// ------------------------------------------------------------------

/// Appending one byte appends its escape to the encoded body.
pub proof fn lemma_enc_str_body_push(t: Seq<u8>, x: u8)
    ensures
        enc_str_body(t.push(x)) == enc_str_body(t) + esc(x),
    decreases t.len(),
{
    if t.len() == 0 {
        assert(t.push(x)[0] == x);
        assert(t.push(x).drop_first() =~= Seq::<u8>::empty());
        assert(enc_str_body(t.push(x)) == esc(x) + enc_str_body(Seq::<u8>::empty()));
        assert(esc(x) + Seq::<u8>::empty() =~= esc(x));
        assert(enc_str_body(t) + esc(x) =~= esc(x));
    } else {
        assert(t.push(x)[0] == t[0]);
        assert(t.push(x).drop_first() =~= t.drop_first().push(x));
        lemma_enc_str_body_push(t.drop_first(), x);
        assert(enc_str_body(t.push(x)) =~= enc_str_body(t) + esc(x));
    }
}

/// Appends the canonical decimal digits of `n`.
fn write_u64(n: u64, out: &mut Vec<u8>)
    ensures
        final(out)@ == old(out)@ + enc_nat(n as int),
    decreases n,
{
    if n < 10 {
        out.push(48 + (n as u8));
        proof {
            assert(out@ =~= old(out)@ + enc_nat(n as int));
        }
    } else {
        let d = (n % 10) as u8;
        write_u64(n / 10, out);
        out.push(48 + d);
        proof {
            assert(out@ =~= old(out)@ + enc_nat(n as int));
        }
    }
}

/// Appends the canonical decimal text of `n`.
fn write_i64(n: i64, out: &mut Vec<u8>)
    ensures
        final(out)@ == old(out)@ + enc_int(n as int),
{
    if n < 0 {
        out.push('-' as u8);
        let mag: u64 = (-(n as i128)) as u64;
        proof {
            assert(mag as int == -(n as int));
        }
        write_u64(mag, out);
        proof {
            assert(out@ =~= old(out)@ + enc_int(n as int));
        }
    } else {
        write_u64(n as u64, out);
    }
}

/// Appends the quoted, escaped text of a string.
#[verifier::loop_isolation(false)]
fn write_str(s: &Vec<u8>, out: &mut Vec<u8>)
    ensures
        final(out)@ == old(out)@ + enc_str(s@),
{
    out.push('"' as u8);
    let mut i: usize = 0;
    proof {
        assert(s@.subrange(0, 0) =~= Seq::<u8>::empty());
        assert(out@ =~= old(out)@ + seq!['"' as u8] + enc_str_body(s@.subrange(0, 0)));
    }
    while i < s.len()
        invariant
            i <= s.len(),
            out@ == old(out)@ + seq!['"' as u8] + enc_str_body(s@.subrange(0, i as int)),
        decreases s.len() - i,
    {
        let b = s[i];
        if b == '"' as u8 {
            out.push('\\' as u8);
            out.push('"' as u8);
        } else if b == '\\' as u8 {
            out.push('\\' as u8);
            out.push('\\' as u8);
        } else if b == 10 {
            out.push('\\' as u8);
            out.push('n' as u8);
        } else {
            out.push(b);
        }
        proof {
            lemma_enc_str_body_push(s@.subrange(0, i as int), s@[i as int]);
            assert(s@.subrange(0, i as int).push(s@[i as int]) =~= s@.subrange(0, i as int + 1));
            assert(out@ =~= old(out)@ + seq!['"' as u8] + enc_str_body(s@.subrange(0, i as int + 1)));
        }
        i += 1;
    }
    out.push('"' as u8);
    proof {
        assert(s@.subrange(0, s@.len() as int) =~= s@);
        assert(out@ =~= old(out)@ + enc_str(s@));
    }
}

/// Appends bytes verbatim.
#[verifier::loop_isolation(false)]
fn append_bytes(src: &Vec<u8>, out: &mut Vec<u8>)
    ensures
        final(out)@ == old(out)@ + src@,
{
    let mut i: usize = 0;
    proof {
        assert(out@ =~= old(out)@ + src@.subrange(0, 0));
    }
    while i < src.len()
        invariant
            i <= src.len(),
            out@ == old(out)@ + src@.subrange(0, i as int),
        decreases src.len() - i,
    {
        out.push(src[i]);
        proof {
            assert(out@ =~= old(out)@ + src@.subrange(0, i as int + 1));
        }
        i += 1;
    }
    proof {
        assert(src@.subrange(0, src@.len() as int) =~= src@);
    }
}

/// Appends the canonical text of a value.
pub fn write_value(v: &Json, out: &mut Vec<u8>)
    ensures
        final(out)@ == old(out)@ + enc_value(v@),
    decreases *v, 0int,
{
    match v {
        Json::Null => {
            out.push('n' as u8);
            out.push('u' as u8);
            out.push('l' as u8);
            out.push('l' as u8);
            proof {
                assert(out@ =~= old(out)@ + enc_value(v@));
            }
        },
        Json::Bool(b) => {
            if *b {
                out.push('t' as u8);
                out.push('r' as u8);
                out.push('u' as u8);
                out.push('e' as u8);
            } else {
                out.push('f' as u8);
                out.push('a' as u8);
                out.push('l' as u8);
                out.push('s' as u8);
                out.push('e' as u8);
            }
            proof {
                assert(out@ =~= old(out)@ + enc_value(v@));
            }
        },
        Json::Int(n) => {
            write_i64(*n, out);
        },
        Json::Num(lex) => {
            append_bytes(lex, out);
        },
        Json::Str(s) => {
            write_str(s, out);
        },
        Json::Arr(a) => {
            out.push('[' as u8);
            if a.len() == 0 {
                proof {
                    assert(views_of_list(a@) =~= Seq::<JsonV>::empty());
                }
            } else {
                write_elems(a, 0, out);
                proof {
                    assert(views_of_list(a@).skip(0) =~= views_of_list(a@));
                }
            }
            out.push(']' as u8);
            proof {
                assert(out@ =~= old(out)@ + enc_value(v@));
            }
        },
        Json::Obj(o) => {
            out.push('{' as u8);
            if o.len() == 0 {
                proof {
                    assert(views_of_pairs(o@) =~= Seq::<(Seq<u8>, JsonV)>::empty());
                }
            } else {
                write_pairs(o, 0, out);
                proof {
                    assert(views_of_pairs(o@).skip(0) =~= views_of_pairs(o@));
                }
            }
            out.push('}' as u8);
            proof {
                assert(out@ =~= old(out)@ + enc_value(v@));
            }
        },
    }
}

/// Appends the comma-separated texts of the elements from `from` on.
fn write_elems(a: &Vec<Json>, from: usize, out: &mut Vec<u8>)
    requires
        from < a@.len(),
    ensures
        final(out)@ == old(out)@ + enc_list(views_of_list(a@).skip(from as int)),
    decreases a@, a@.len() - from,
{
    proof {
        lemma_views_of_list(a@);
    }
    let n = a.len();
    write_value(&a[from], out);
    if from + 1 < n {
        out.push(',' as u8);
        write_elems(a, from + 1, out);
        proof {
            let vs = views_of_list(a@);
            assert(vs.skip(from as int).drop_first() =~= vs.skip(from as int + 1));
            assert(vs.skip(from as int)[0] == vs[from as int]);
            assert(out@ =~= old(out)@ + enc_list(vs.skip(from as int)));
        }
    } else {
        proof {
            let vs = views_of_list(a@);
            assert(vs.skip(from as int).len() == 1);
            assert(vs.skip(from as int)[0] == vs[from as int]);
            assert(out@ =~= old(out)@ + enc_list(vs.skip(from as int)));
        }
    }
}

/// Appends the comma-separated texts of the members from `from` on.
fn write_pairs(o: &Vec<(Vec<u8>, Json)>, from: usize, out: &mut Vec<u8>)
    requires
        from < o@.len(),
    ensures
        final(out)@ == old(out)@ + enc_members(views_of_pairs(o@).skip(from as int)),
    decreases o@, o@.len() - from,
{
    proof {
        lemma_views_of_pairs(o@);
    }
    let n = o.len();
    write_str(&o[from].0, out);
    out.push(':' as u8);
    write_value(&o[from].1, out);
    if from + 1 < n {
        out.push(',' as u8);
        write_pairs(o, from + 1, out);
        proof {
            let vs = views_of_pairs(o@);
            assert(vs.skip(from as int).drop_first() =~= vs.skip(from as int + 1));
            assert(vs.skip(from as int)[0] == vs[from as int]);
            assert(out@ =~= old(out)@ + enc_members(vs.skip(from as int)));
        }
    } else {
        proof {
            let vs = views_of_pairs(o@);
            assert(vs.skip(from as int).len() == 1);
            assert(vs.skip(from as int)[0] == vs[from as int]);
            assert(out@ =~= old(out)@ + enc_members(vs.skip(from as int)));
        }
    }
}

/// The canonical text of a value.
pub fn json_encode(v: &Json) -> (r: Vec<u8>)
    ensures
        r@ == enc_value(v@),
{
    let mut out: Vec<u8> = Vec::new();
    write_value(v, &mut out);
    proof {
        assert(out@ =~= enc_value(v@));
    }
    out
}

// ------------------------------------------------------------------
// Executable parser
// ------------------------------------------------------------------

/// Ten to the `n`.
pub open spec fn pow10(n: nat) -> int
    decreases n,
{
    if n == 0 {
        1
    } else {
        10 * pow10((n - 1) as nat)
    }
}

pub proof fn lemma_pow10_pos(n: nat)
    ensures
        pow10(n) >= 1,
    decreases n,
{
    if n > 0 {
        lemma_pow10_pos((n - 1) as nat);
    }
}

pub proof fn lemma_pow10_le(a: nat, b: nat)
    requires
        a <= b,
    ensures
        pow10(a) <= pow10(b),
    decreases b,
{
    if a < b {
        lemma_pow10_le(a, (b - 1) as nat);
        lemma_pow10_pos((b - 1) as nat);
    }
}

/// The value of a digit run is bounded by ten to its length.
pub proof fn lemma_dec_val_bound(s: Seq<u8>, from: int, to: int)
    requires
        0 <= from <= to <= s.len(),
        forall|j: int| from <= j < to ==> is_digit(#[trigger] s[j]),
    ensures
        0 <= dec_val(s, from, to) < pow10((to - from) as nat),
    decreases to - from,
{
    if from < to {
        lemma_dec_val_bound(s, from, to - 1);
    }
}

/// The first non-whitespace position, executably.
fn e_skip_ws(s: &[u8], i: usize) -> (r: usize)
    requires
        i <= s@.len(),
    ensures
        r as int == skip_ws(s@, i as int),
        i <= r <= s@.len(),
    decreases s@.len() - i,
{
    if i < s.len() {
        let b = s[i];
        if b == 32 || b == 9 || b == 13 || b == 10 {
            return e_skip_ws(s, i + 1);
        }
    }
    i
}

/// The end of a digit run, executably.
fn e_digits_end(s: &[u8], i: usize) -> (r: usize)
    requires
        i <= s@.len(),
    ensures
        r as int == digits_end(s@, i as int),
        i <= r <= s@.len(),
    decreases s@.len() - i,
{
    if i < s.len() {
        let b = s[i];
        if 48 <= b && b <= 57 {
            return e_digits_end(s, i + 1);
        }
    }
    i
}

/// The unescaped byte, executably.
fn e_unesc(b: u8) -> (r: Option<u8>)
    ensures
        r == unesc(b),
{
    if b == '"' as u8 {
        Some('"' as u8)
    } else if b == '\\' as u8 {
        Some('\\' as u8)
    } else if b == '/' as u8 {
        Some('/' as u8)
    } else if b == 'n' as u8 {
        Some(10u8)
    } else if b == 't' as u8 {
        Some(9u8)
    } else if b == 'r' as u8 {
        Some(13u8)
    } else if b == 'b' as u8 {
        Some(8u8)
    } else if b == 'f' as u8 {
        Some(12u8)
    } else {
        None
    }
}

/// Prepends a prefix to a string-parse result.
pub open spec fn prep(acc: Seq<u8>, r: Option<(Seq<u8>, int)>) -> Option<(Seq<u8>, int)> {
    match r {
        Some((t, e)) => Some((acc + t, e)),
        None => None,
    }
}

/// Parses a string body, executably.
#[verifier::loop_isolation(false)]
fn p_string(s: &[u8], i: usize) -> (r: Option<(Vec<u8>, usize)>)
    requires
        i <= s@.len(),
    ensures
        match r {
            Some((t, e)) => sp_string(s@, i as int) == Some((t@, e as int)) && i <= e <= s@.len(),
            None => sp_string(s@, i as int) is None,
        },
{
    let mut acc: Vec<u8> = Vec::new();
    let mut cur: usize = i;
    proof {
        assert(acc@ =~= Seq::<u8>::empty());
    }
    loop
        invariant
            i <= cur <= s@.len(),
            sp_string(s@, i as int) == prep(acc@, sp_string(s@, cur as int)),
        decreases s@.len() - cur,
    {
        if cur >= s.len() {
            return None;
        }
        let b = s[cur];
        if b == '"' as u8 {
            proof {
                assert(acc@ + Seq::<u8>::empty() =~= acc@);
            }
            return Some((acc, cur + 1));
        } else if b == '\\' as u8 {
            if cur + 1 >= s.len() {
                return None;
            }
            match e_unesc(s[cur + 1]) {
                Some(ub) => {
                    proof {
                        let ghost rest = sp_string(s@, cur as int + 2);
                        assert(sp_string(s@, cur as int) == prep(seq![ub], rest));
                        match rest {
                            Some((t, e)) => {
                                assert(acc@ + (seq![ub] + t) =~= acc@.push(ub) + t);
                            },
                            None => {},
                        }
                    }
                    acc.push(ub);
                    cur = cur + 2;
                },
                None => {
                    return None;
                },
            }
        } else {
            proof {
                let ghost rest = sp_string(s@, cur as int + 1);
                assert(sp_string(s@, cur as int) == prep(seq![b], rest));
                match rest {
                    Some((t, e)) => {
                        assert(acc@ + (seq![b] + t) =~= acc@.push(b) + t);
                    },
                    None => {},
                }
            }
            acc.push(b);
            cur = cur + 1;
        }
    }
}

/// Parses an integer token, executably.
#[verifier::loop_isolation(false)]
fn p_num(s: &[u8], i: usize) -> (r: Option<(Json, usize)>)
    requires
        i <= s@.len(),
    ensures
        match r {
            Some((v, e)) => sp_num(s@, i as int) == Some((v@, e as int)) && i <= e <= s@.len(),
            None => sp_num(s@, i as int) is None,
        },
{
    let neg = i < s.len() && s[i] == '-' as u8;
    let ds: usize = if neg {
        i + 1
    } else {
        i
    };
    let de = e_digits_end(s, ds);
    proof {
        lemma_digits_end(s@, ds as int);
    }
    if de == ds {
        proof {
            assert(num_token_end(s@, i as int) == i as int);
        }
        return None;
    }
    // the fraction part, if any
    let fe: usize = if de < s.len() && s[de] == '.' as u8 {
        let d2 = e_digits_end(s, de + 1);
        if d2 > de + 1 {
            d2
        } else {
            de
        }
    } else {
        de
    };
    proof {
        assert(fe as int == frac_end(s@, de as int));
    }
    // the exponent part, if any
    let end: usize = if fe < s.len() && (s[fe] == 'e' as u8 || s[fe] == 'E' as u8) {
        let q: usize = if fe + 1 < s.len() && (s[fe + 1] == '+' as u8 || s[fe + 1] == '-' as u8) {
            fe + 2
        } else {
            fe + 1
        };
        let d3 = e_digits_end(s, q);
        if d3 > q {
            d3
        } else {
            fe
        }
    } else {
        fe
    };
    proof {
        assert(end as int == exp_end(s@, fe as int));
        assert(num_token_end(s@, i as int) == end as int);
    }
    if end == de && de - ds <= 19 {
        let mut val: u64 = 0;
        let mut k: usize = ds;
        while k < de
            invariant
                ds <= k <= de,
                de - ds <= 19,
                de as int == digits_end(s@, ds as int),
                ds as int == (if i < s@.len() && s@[i as int] == '-' as u8 {
                    i + 1
                } else {
                    i as int
                }),
                i <= ds <= s@.len(),
                val as int == dec_val(s@, ds as int, k as int),
            decreases de - k,
        {
            proof {
                lemma_digits_end(s@, ds as int);
                lemma_dec_val_bound(s@, ds as int, k as int);
                lemma_pow10_le((k - ds) as nat, 18);
                reveal_with_fuel(pow10, 20);
                assert(pow10(18) == 1000000000000000000int);
            }
            let d = s[k] - 48;
            val = val * 10 + (d as u64);
            k += 1;
        }
        if neg && val <= 0x8000_0000_0000_0000 {
            let n: i64 = (-(val as i128)) as i64;
            proof {
                assert(n as int == -(val as int));
            }
            return Some((Json::Int(n), de));
        }
        if !neg && val <= 0x7fff_ffff_ffff_ffff {
            return Some((Json::Int(val as i64), de));
        }
        let lex = vstd::slice::slice_to_vec(vstd::slice::slice_subrange(s, i, end));
        return Some((Json::Num(lex), end));
    }
    let lex = vstd::slice::slice_to_vec(vstd::slice::slice_subrange(s, i, end));
    Some((Json::Num(lex), end))
}

/// Parses one value, executably: the result is exactly what the grammar
/// denotes, and a malformed text yields `None`, never a panic.
pub fn p_value(s: &[u8], i: usize) -> (r: Option<(Json, usize)>)
    requires
        i <= s@.len(),
    ensures
        match r {
            Some((v, e)) => sp_value(s@, i as int) == Some((v@, e as int)) && i <= e <= s@.len(),
            None => sp_value(s@, i as int) is None,
        },
    decreases s@.len() - i, 2int,
{
    let j = e_skip_ws(s, i);
    if j >= s.len() {
        return None;
    }
    let b = s[j];
    if b == 'n' as u8 {
        if s.len() - j >= 4 && s[j + 1] == 'u' as u8 && s[j + 2] == 'l' as u8 && s[j + 3]
            == 'l' as u8 {
            Some((Json::Null, j + 4))
        } else {
            None
        }
    } else if b == 't' as u8 {
        if s.len() - j >= 4 && s[j + 1] == 'r' as u8 && s[j + 2] == 'u' as u8 && s[j + 3]
            == 'e' as u8 {
            Some((Json::Bool(true), j + 4))
        } else {
            None
        }
    } else if b == 'f' as u8 {
        if s.len() - j >= 5 && s[j + 1] == 'a' as u8 && s[j + 2] == 'l' as u8 && s[j + 3]
            == 's' as u8 && s[j + 4] == 'e' as u8 {
            Some((Json::Bool(false), j + 5))
        } else {
            None
        }
    } else if b == '"' as u8 {
        match p_string(s, j + 1) {
            Some((t, e)) => Some((Json::Str(t), e)),
            None => None,
        }
    } else if b == '-' as u8 || (48 <= b && b <= 57) {
        p_num(s, j)
    } else if b == '[' as u8 {
        let k = e_skip_ws(s, j + 1);
        if k < s.len() && s[k] == ']' as u8 {
            let a: Vec<Json> = Vec::new();
            proof {
                assert(views_of_list(a@) =~= Seq::<JsonV>::empty());
            }
            Some((Json::Arr(a), k + 1))
        } else {
            match p_list(s, j + 1) {
                Some((a, e)) => Some((Json::Arr(a), e)),
                None => None,
            }
        }
    } else if b == '{' as u8 {
        let k = e_skip_ws(s, j + 1);
        if k < s.len() && s[k] == '}' as u8 {
            let o: Vec<(Vec<u8>, Json)> = Vec::new();
            proof {
                assert(views_of_pairs(o@) =~= Seq::<(Seq<u8>, JsonV)>::empty());
            }
            Some((Json::Obj(o), k + 1))
        } else {
            match p_members(s, j + 1) {
                Some((o, e)) => Some((Json::Obj(o), e)),
                None => None,
            }
        }
    } else {
        None
    }
}

/// Parses a non-empty element list, executably.
fn p_list(s: &[u8], i: usize) -> (r: Option<(Vec<Json>, usize)>)
    requires
        i <= s@.len(),
    ensures
        match r {
            Some((a, e)) => (sp_list(s@, i as int) matches Some(p) && p.0 == views_of_list(a@)
                && p.1 == e as int) && i <= e <= s@.len(),
            None => sp_list(s@, i as int) is None,
        },
    decreases s@.len() - i, 3int,
{
    match p_value(s, i) {
        Some((v, e)) => {
            let k = e_skip_ws(s, e);
            if k < s.len() && s[k] == ']' as u8 {
                let mut a: Vec<Json> = Vec::new();
                a.push(v);
                proof {
                    assert(a@.drop_first() =~= Seq::<Json>::empty());
                    assert(views_of_list(a@) == seq![json_view(a@[0])] + views_of_list(
                        a@.drop_first(),
                    ));
                    assert(views_of_list(Seq::<Json>::empty()) =~= Seq::<JsonV>::empty());
                    assert(views_of_list(a@) =~= seq![v@]);
                }
                Some((a, k + 1))
            } else if k < s.len() && s[k] == ',' as u8 {
                match p_list(s, k + 1) {
                    Some((rest, e2)) => {
                        let ghost before = rest@;
                        let mut rest = rest;
                        rest.insert(0, v);
                        proof {
                            assert(rest@.drop_first() =~= before);
                            assert(rest@[0] == v);
                            assert(views_of_list(rest@) =~= seq![v@] + views_of_list(before));
                        }
                        Some((rest, e2))
                    },
                    None => None,
                }
            } else {
                None
            }
        },
        None => None,
    }
}

/// Parses a non-empty member list, executably.
fn p_members(s: &[u8], i: usize) -> (r: Option<(Vec<(Vec<u8>, Json)>, usize)>)
    requires
        i <= s@.len(),
    ensures
        match r {
            Some((o, e)) => (sp_members(s@, i as int) matches Some(p) && p.0 == views_of_pairs(o@)
                && p.1 == e as int) && i <= e <= s@.len(),
            None => sp_members(s@, i as int) is None,
        },
    decreases s@.len() - i, 3int,
{
    let j = e_skip_ws(s, i);
    if !(j < s.len() && s[j] == '"' as u8) {
        return None;
    }
    match p_string(s, j + 1) {
        Some((key, e1)) => {
            let c = e_skip_ws(s, e1);
            if !(c < s.len() && s[c] == ':' as u8) {
                return None;
            }
            match p_value(s, c + 1) {
                Some((v, e)) => {
                    let k = e_skip_ws(s, e);
                    if k < s.len() && s[k] == '}' as u8 {
                        let mut o: Vec<(Vec<u8>, Json)> = Vec::new();
                        o.push((key, v));
                        proof {
                            assert(o@.drop_first() =~= Seq::<(Vec<u8>, Json)>::empty());
                            assert(views_of_pairs(o@) == seq![(o@[0].0@, json_view(o@[0].1))]
                                + views_of_pairs(o@.drop_first()));
                            assert(views_of_pairs(Seq::<(Vec<u8>, Json)>::empty())
                                =~= Seq::<(Seq<u8>, JsonV)>::empty());
                            assert(views_of_pairs(o@) =~= seq![(key@, v@)]);
                        }
                        Some((o, k + 1))
                    } else if k < s.len() && s[k] == ',' as u8 {
                        match p_members(s, k + 1) {
                            Some((rest, e2)) => {
                                let ghost before = rest@;
                                let mut rest = rest;
                                let ghost kv = (key@, v@);
                                rest.insert(0, (key, v));
                                proof {
                                    assert(rest@.drop_first() =~= before);
                                    assert(views_of_pairs(rest@) =~= seq![kv] + views_of_pairs(
                                        before,
                                    ));
                                }
                                Some((rest, e2))
                            },
                            None => None,
                        }
                    } else {
                        None
                    }
                },
                None => None,
            }
        },
        None => None,
    }
}

/// Parses a whole text as one value. The parse is exact: a text is accepted
/// with result `v` exactly when the grammar denotes `v` for it, and any other
/// text — truncated, corrupted, trailing garbage — yields `None`.
pub fn json_parse(s: &[u8]) -> (r: Option<Json>)
    ensures
        match r {
            Some(v) => spec_parse(s@) == Some(v@),
            None => spec_parse(s@) is None,
        },
{
    match p_value(s, 0) {
        Some((v, e)) => {
            let k = e_skip_ws(s, e);
            if k == s.len() {
                Some(v)
            } else {
                None
            }
        },
        None => None,
    }
}


// ------------------------------------------------------------------
// Round trip: the parser accepts every canonical text
// ------------------------------------------------------------------

/// Canonical digits are digits.
pub proof fn lemma_enc_nat_digits(n: int)
    requires
        n >= 0,
    ensures
        enc_nat(n).len() >= 1,
        forall|k: int| 0 <= k < enc_nat(n).len() ==> is_digit(#[trigger] enc_nat(n)[k]),
    decreases n,
{
    if n >= 10 {
        lemma_enc_nat_digits(n / 10);
        assert forall|k: int| 0 <= k < enc_nat(n).len() implies is_digit(
            #[trigger] enc_nat(n)[k],
        ) by {
            if k < enc_nat(n / 10).len() {
                assert(enc_nat(n)[k] == enc_nat(n / 10)[k]);
            }
        }
    }
}

/// A number below ten to the `k` has at most `k` canonical digits.
pub proof fn lemma_enc_nat_len(n: int, k: nat)
    requires
        0 <= n < pow10(k),
        k >= 1,
    ensures
        enc_nat(n).len() <= k,
    decreases n,
{
    if n >= 10 {
        assert(pow10(k) == 10 * pow10((k - 1) as nat));
        assert(n / 10 < pow10((k - 1) as nat)) by (nonlinear_arith)
            requires
                n < 10 * pow10((k - 1) as nat),
                n >= 10,
        ;
        lemma_enc_nat_len(n / 10, (k - 1) as nat);
    }
}

/// One byte of a subrange equality.
pub proof fn lemma_sub_index(s: Seq<u8>, i: int, e: Seq<u8>, k: int)
    requires
        0 <= i,
        i + e.len() <= s.len(),
        s.subrange(i, i + e.len() as int) == e,
        0 <= k < e.len(),
    ensures
        s[i + k] == e[k],
{
    assert(s.subrange(i, i + e.len() as int)[k] == e[k]);
}

/// Reading canonical digits back gives the number.
pub proof fn lemma_dec_val_of_enc(s: Seq<u8>, i: int, n: int)
    requires
        n >= 0,
        0 <= i,
        i + enc_nat(n).len() <= s.len(),
        s.subrange(i, i + enc_nat(n).len() as int) == enc_nat(n),
    ensures
        dec_val(s, i, i + enc_nat(n).len() as int) == n,
    decreases n,
{
    let e = enc_nat(n);
    if n < 10 {
        lemma_sub_index(s, i, e, 0);
        assert(e[0] == digit_of(n));
        assert(s[i + 0] == digit_of(n));
        assert(dec_val(s, i, i + 1) == dec_val(s, i, i) * 10 + (s[i + 1 - 1] - 48));
    } else {
        let ep = enc_nat(n / 10);
        assert(e == ep + seq![digit_of(n % 10)]);
        assert forall|k: int| 0 <= k < ep.len() implies s.subrange(i, i + ep.len() as int)[k]
            == ep[k] by {
            lemma_sub_index(s, i, e, k);
        }
        assert(s.subrange(i, i + ep.len() as int) =~= ep);
        lemma_dec_val_of_enc(s, i, n / 10);
        lemma_sub_index(s, i, e, e.len() - 1);
        assert(e[e.len() - 1] == digit_of(n % 10));
        assert(dec_val(s, i, i + e.len() as int) == dec_val(s, i, i + e.len() as int - 1) * 10 + (
        s[i + e.len() as int - 1] - 48));
        assert(n / 10 * 10 + n % 10 == n) by (nonlinear_arith);
    }
}

/// A digit run bounded by a non-digit or the end extends exactly to it.
pub proof fn lemma_digits_end_exact(s: Seq<u8>, a: int, b: int)
    requires
        0 <= a <= b <= s.len(),
        forall|j: int| a <= j < b ==> is_digit(#[trigger] s[j]),
        b == s.len() || !is_digit(s[b]),
    ensures
        digits_end(s, a) == b,
    decreases b - a,
{
    if a < b {
        lemma_digits_end_exact(s, a + 1, b);
    }
}

/// Every canonical text of a representable value starts with a byte that is
/// not whitespace and not a closing token.
pub proof fn lemma_enc_head(v: JsonV)
    requires
        json_wf(v),
    ensures
        enc_value(v).len() >= 1,
        !is_ws(enc_value(v)[0]),
        enc_value(v)[0] != ']' as u8,
        enc_value(v)[0] != '}' as u8,
{
    match v {
        JsonV::Int(n) => {
            if n >= 0 {
                lemma_enc_nat_digits(n);
                assert(enc_value(v)[0] == enc_nat(n)[0]);
            } else {
                lemma_enc_nat_digits(-n);
                assert(enc_value(v)[0] == '-' as u8);
            }
        },
        JsonV::Num(lex) => {
            // a lexeme starts with its sign or its first digit
            assert(num_token_end(lex, 0) == lex.len());
            if !(lex[0] == '-' as u8) {
                lemma_digits_end(lex, 0);
                assert(digits_end(lex, 0) > 0);
                assert(is_digit(lex[0]));
            }
        },
        _ => {},
    }
}

/// Equal bytes give equal digit-run values.
pub proof fn lemma_dec_val_shift(s: Seq<u8>, i: int, lex: Seq<u8>, a: int, b: int)
    requires
        0 <= i,
        i + lex.len() <= s.len(),
        s.subrange(i, i + lex.len() as int) == lex,
        0 <= a <= b <= lex.len(),
    ensures
        dec_val(s, i + a, i + b) == dec_val(lex, a, b),
    decreases b - a,
{
    if a < b {
        lemma_dec_val_shift(s, i, lex, a, b - 1);
        lemma_sub_index(s, i, lex, b - 1);
    }
}

/// Equal bytes give equal digit-run ends, when what follows the copy cannot
/// extend a number token.
pub proof fn lemma_digits_end_shift(s: Seq<u8>, i: int, lex: Seq<u8>, p: int)
    requires
        0 <= i,
        i + lex.len() <= s.len(),
        s.subrange(i, i + lex.len() as int) == lex,
        0 <= p <= lex.len(),
        i + lex.len() == s.len() || !is_num_cont(s[i + lex.len()]),
    ensures
        digits_end(s, i + p) == i + digits_end(lex, p),
{
    lemma_digits_end(lex, p);
    let q = digits_end(lex, p);
    assert forall|j: int| i + p <= j < i + q implies is_digit(#[trigger] s[j]) by {
        lemma_sub_index(s, i, lex, j - i);
    }
    if q < lex.len() {
        lemma_sub_index(s, i, lex, q);
        assert(!is_digit(s[i + q]));
    }
    lemma_digits_end_exact(s, i + p, i + q);
}

/// The parser reads a canonical string body back, up to the closing quote.
pub proof fn lemma_parse_str_body(s: Seq<u8>, i: int, t: Seq<u8>)
    requires
        0 <= i,
        i + enc_str_body(t).len() < s.len(),
        s.subrange(i, i + enc_str_body(t).len() as int) == enc_str_body(t),
        s[i + enc_str_body(t).len()] == '"' as u8,
    ensures
        sp_string(s, i) == Some((t, i + enc_str_body(t).len() + 1)),
    decreases t.len(),
{
    let b = enc_str_body(t);
    let bs: u8 = 92;
    if t.len() == 0 {
        assert(b.len() == 0);
        assert(s[i + 0] == '"' as u8);
    } else {
        let e0 = esc(t[0]);
        let rest = enc_str_body(t.drop_first());
        assert(b == e0 + rest);
        assert forall|j: int|
            0 <= j < rest.len() implies s.subrange(
            i + e0.len() as int,
            i + e0.len() as int + rest.len() as int,
        )[j] == rest[j] by {
            lemma_sub_index(s, i, b, e0.len() + j);
            assert(b[e0.len() + j] == rest[j]);
        }
        assert(s.subrange(i + e0.len() as int, i + e0.len() as int + rest.len() as int)
            =~= rest);
        lemma_parse_str_body(s, i + e0.len(), t.drop_first());
        assert(seq![t[0]] + t.drop_first() =~= t);
        lemma_sub_index(s, i, b, 0);
        assert(b[0] == e0[0]);
        if t[0] == '"' as u8 || t[0] == bs || t[0] == 10 {
            assert(s[i + 0] == bs);
            lemma_sub_index(s, i, b, 1);
            assert(b[1] == e0[1]);
            assert(unesc(s[i + 1]) == Some(t[0]));
        } else {
            assert(s[i + 0] == t[0]);
            assert(s[i + 0] != '"' as u8 && s[i + 0] != bs);
        }
    }
}


/// The parser reads every canonical value text back: parsing at the start
/// of the text of a representable value yields that value and consumes
/// exactly its text, provided no digit follows (a digit would extend a
/// number token).
pub proof fn lemma_parse_encode(s: Seq<u8>, i: int, v: JsonV)
    requires
        json_wf(v),
        0 <= i,
        i + enc_value(v).len() <= s.len(),
        s.subrange(i, i + enc_value(v).len() as int) == enc_value(v),
        i + enc_value(v).len() == s.len() || !is_num_cont(s[i + enc_value(v).len()]),
    ensures
        sp_value(s, i) == Some((v, i + enc_value(v).len())),
    decreases v, 1int,
{
    let e = enc_value(v);
    lemma_enc_head(v);
    lemma_sub_index(s, i, e, 0);
    assert(!is_ws(s[i + 0]));
    assert(skip_ws(s, i) == i);
    match v {
        JsonV::Null => {
            assert(e == seq!['n' as u8, 'u' as u8, 'l' as u8, 'l' as u8]);
            lemma_sub_index(s, i, e, 1);
            lemma_sub_index(s, i, e, 2);
            lemma_sub_index(s, i, e, 3);
            assert(s[i + 0] == 'n' as u8 && s[i + 1] == 'u' as u8 && s[i + 2] == 'l' as u8 && s[i
                + 3] == 'l' as u8);
            assert(sp_value(s, i) == Some((v, i + enc_value(v).len())));
        },
        JsonV::Bool(b) => {
            lemma_sub_index(s, i, e, 1);
            lemma_sub_index(s, i, e, 2);
            lemma_sub_index(s, i, e, 3);
            if !b {
                lemma_sub_index(s, i, e, 4);
            }
            assert(sp_value(s, i) == Some((v, i + enc_value(v).len())));
        },
        JsonV::Int(n) => {
            reveal_with_fuel(pow10, 21);
            assert(pow10(19) == 10000000000000000000int);
            if n >= 0 {
                lemma_enc_nat_digits(n);
                assert forall|j: int| i <= j < i + e.len() implies is_digit(#[trigger] s[j]) by {
                    lemma_sub_index(s, i, e, j - i);
                }
                lemma_digits_end_exact(s, i, i + e.len());
                lemma_enc_nat_len(n, 19);
                lemma_dec_val_of_enc(s, i, n);
                assert(48 <= s[i + 0] <= 57);
                assert(s[i + 0] != '-' as u8);
                assert(digits_end(s, i) == i + e.len());
            } else {
                let m = -n;
                let en = enc_nat(m);
                lemma_enc_nat_digits(m);
                assert(e == seq!['-' as u8] + en);
                assert(s[i + 0] == '-' as u8);
                assert forall|j: int| i + 1 <= j < i + 1 + en.len() implies is_digit(
                    #[trigger] s[j],
                ) by {
                    lemma_sub_index(s, i, e, j - i);
                    assert(e[j - i] == en[j - i - 1]);
                }
                lemma_digits_end_exact(s, i + 1, i + 1 + en.len());
                lemma_enc_nat_len(m, 19);
                assert forall|k: int|
                    0 <= k < en.len() implies s.subrange(i + 1, i + 1 + en.len() as int)[k]
                    == en[k] by {
                    lemma_sub_index(s, i, e, k + 1);
                    assert(e[k + 1] == en[k]);
                }
                assert(s.subrange(i + 1, i + 1 + en.len() as int) =~= en);
                lemma_dec_val_of_enc(s, i + 1, m);
            }
            // nothing after the digits can extend the token
            let de = i + e.len();
            assert(frac_end(s, de) == de);
            assert(exp_end(s, de) == de);
            assert(num_token_end(s, i) == de);
            assert(sp_value(s, i) == Some((v, i + enc_value(v).len())));
        },
        JsonV::Num(lex) => {
            // the lexeme is one whole token; a copy bounded by a
            // non-continuation byte lexes to the same end
            let ln = lex.len() as int;
            let negl = lex[0] == '-' as u8;
            let dsl: int = if negl {
                1
            } else {
                0
            };
            let del = digits_end(lex, dsl);
            lemma_digits_end(lex, dsl);
            assert(num_token_end(lex, 0) == ln);
            assert(del != dsl);
            assert(s[i + 0] == lex[0]);
            if !negl {
                assert(digits_end(lex, 0) > 0);
                assert(is_digit(lex[0]));
            }
            lemma_digits_end_shift(s, i, lex, dsl);
            assert(digits_end(s, i + dsl) == i + del);
            // the fraction part shifts
            let fl = frac_end(lex, del);
            if del < ln {
                lemma_digits_end(lex, del + 1);
            }
            if del < ln && lex[del] == '.' as u8 && digits_end(lex, del + 1) > del + 1 {
                lemma_sub_index(s, i, lex, del);
                lemma_digits_end_shift(s, i, lex, del + 1);
                assert(frac_end(s, i + del) == i + fl);
            } else {
                assert(fl == del);
                if i + del < s.len() {
                    if del < ln {
                        lemma_sub_index(s, i, lex, del);
                        if lex[del] == '.' as u8 {
                            lemma_digits_end_shift(s, i, lex, del + 1);
                        }
                    }
                }
                assert(frac_end(s, i + del) == i + del);
            }
            // the exponent part shifts
            let el = exp_end(lex, fl);
            assert(el == ln);
            if fl < ln && (lex[fl] == 'e' as u8 || lex[fl] == 'E' as u8) {
                lemma_sub_index(s, i, lex, fl);
                let ql: int = if fl + 1 < ln && (lex[fl + 1] == '+' as u8 || lex[fl + 1]
                    == '-' as u8) {
                    fl + 2
                } else {
                    fl + 1
                };
                lemma_digits_end(lex, ql);
                if digits_end(lex, ql) <= ql {
                    // then the token would end at the fraction, not at the end
                    assert(el == fl);
                    assert(false);
                }
                if fl + 1 < ln {
                    lemma_sub_index(s, i, lex, fl + 1);
                } else {
                    // a mark with nothing after it would end the token early
                    assert(ql == ln);
                    assert(digits_end(lex, ql) == ql);
                    assert(false);
                }
                lemma_digits_end_shift(s, i, lex, ql);
                assert(digits_end(s, i + ql) == i + ln);
                assert(exp_end(s, i + fl) == i + ln);
            } else {
                assert(el == fl && fl == ln);
                assert(exp_end(s, i + ln) == i + ln);
            }
            assert(num_token_end(s, i) == i + ln);
            // the signed-64-bit classification fails exactly as it does on
            // the lexeme itself
            if del == ln && del - dsl <= 19 {
                lemma_dec_val_shift(s, i, lex, dsl, del);
                assert(dec_val(s, i + dsl, i + del) == dec_val(lex, dsl, del));
                assert(!num_is_plain_i64(lex));
            }
            assert(s.subrange(i, i + ln) == lex);
            assert(sp_value(s, i) == Some((v, i + enc_value(v).len())));
        },
        JsonV::Str(t) => {
            let body = enc_str_body(t);
            assert(e == seq!['"' as u8] + body + seq!['"' as u8]);
            assert forall|j: int|
                0 <= j < body.len() implies s.subrange(i + 1, i + 1 + body.len() as int)[j]
                == body[j] by {
                lemma_sub_index(s, i, e, j + 1);
                assert(e[j + 1] == body[j]);
            }
            assert(s.subrange(i + 1, i + 1 + body.len() as int) =~= body);
            lemma_sub_index(s, i, e, e.len() - 1);
            assert(e[e.len() - 1] == '"' as u8);
            assert(s[i + 1 + body.len()] == '"' as u8);
            lemma_parse_str_body(s, i + 1, t);
            assert(sp_value(s, i) == Some((v, i + enc_value(v).len())));
        },
        JsonV::Arr(a) => {
            let el = enc_list(a);
            assert(e == seq!['[' as u8] + el + seq![']' as u8]);
            lemma_sub_index(s, i, e, e.len() - 1);
            assert(e[e.len() - 1] == ']' as u8);
            assert(s[i + 1 + el.len()] == ']' as u8);
            if a.len() == 0 {
                assert(el.len() == 0);
                assert(s[i + 1] == ']' as u8);
                assert(skip_ws(s, i + 1) == i + 1);
                assert(a =~= Seq::<JsonV>::empty());
            } else {
                lemma_enc_head(a[0]);
                assert(el[0] == enc_value(a[0])[0]);
                lemma_sub_index(s, i, e, 1);
                assert(e[1] == el[0]);
                assert(!is_ws(s[i + 1]) && s[i + 1] != ']' as u8);
                assert(skip_ws(s, i + 1) == i + 1);
                assert forall|j: int|
                    0 <= j < el.len() implies s.subrange(i + 1, i + 1 + el.len() as int)[j]
                    == el[j] by {
                    lemma_sub_index(s, i, e, j + 1);
                    assert(e[j + 1] == el[j]);
                }
                assert(s.subrange(i + 1, i + 1 + el.len() as int) =~= el);
                lemma_parse_list(s, i + 1, a);
            }
            assert(sp_value(s, i) == Some((v, i + enc_value(v).len())));
        },
        JsonV::Obj(o) => {
            let em = enc_members(o);
            assert(e == seq!['{' as u8] + em + seq!['}' as u8]);
            lemma_sub_index(s, i, e, e.len() - 1);
            assert(e[e.len() - 1] == '}' as u8);
            assert(s[i + 1 + em.len()] == '}' as u8);
            if o.len() == 0 {
                assert(em.len() == 0);
                assert(s[i + 1] == '}' as u8);
                assert(skip_ws(s, i + 1) == i + 1);
                assert(o =~= Seq::<(Seq<u8>, JsonV)>::empty());
            } else {
                assert(em[0] == enc_str(o[0].0)[0]);
                lemma_sub_index(s, i, e, 1);
                assert(e[1] == em[0]);
                assert(s[i + 1] == '"' as u8);
                assert(skip_ws(s, i + 1) == i + 1);
                assert forall|j: int|
                    0 <= j < em.len() implies s.subrange(i + 1, i + 1 + em.len() as int)[j]
                    == em[j] by {
                    lemma_sub_index(s, i, e, j + 1);
                    assert(e[j + 1] == em[j]);
                }
                assert(s.subrange(i + 1, i + 1 + em.len() as int) =~= em);
                lemma_parse_members(s, i + 1, o);
            }
            assert(sp_value(s, i) == Some((v, i + enc_value(v).len())));
        },
    }
}

/// The parser reads a canonical non-empty element list back, up to and
/// including the closing bracket that follows it.
pub proof fn lemma_parse_list(s: Seq<u8>, i: int, a: Seq<JsonV>)
    requires
        a.len() >= 1,
        forall|k: int| 0 <= k < a.len() ==> json_wf(#[trigger] a[k]),
        0 <= i,
        i + enc_list(a).len() < s.len(),
        s.subrange(i, i + enc_list(a).len() as int) == enc_list(a),
        s[i + enc_list(a).len()] == ']' as u8,
    ensures
        sp_list(s, i) == Some((a, i + enc_list(a).len() + 1)),
    decreases a, 0int,
{
    let el = enc_list(a);
    let e0 = enc_value(a[0]);
    lemma_enc_head(a[0]);
    if a.len() == 1 {
        assert(el == e0);
        lemma_parse_encode(s, i, a[0]);
        assert(!is_ws(s[i + e0.len()]));
        assert(skip_ws(s, i + e0.len()) == i + e0.len());
        assert(seq![a[0]] =~= a);
    } else {
        let rest = enc_list(a.drop_first());
        assert(el == e0 + seq![',' as u8] + rest);
        assert forall|k: int| 0 <= k < e0.len() implies s.subrange(i, i + e0.len() as int)[k]
            == e0[k] by {
            lemma_sub_index(s, i, el, k);
            assert(el[k] == e0[k]);
        }
        assert(s.subrange(i, i + e0.len() as int) =~= e0);
        lemma_sub_index(s, i, el, e0.len() as int);
        assert(el[e0.len() as int] == ',' as u8);
        assert(s[i + e0.len()] == ',' as u8);
        lemma_parse_encode(s, i, a[0]);
        assert(skip_ws(s, i + e0.len()) == i + e0.len());
        let i2 = i + e0.len() + 1;
        assert forall|k: int| 0 <= k < rest.len() implies s.subrange(i2, i2 + rest.len() as int)[k]
            == rest[k] by {
            lemma_sub_index(s, i, el, e0.len() + 1 + k);
            assert(el[e0.len() + 1 + k] == rest[k]);
        }
        assert(s.subrange(i2, i2 + rest.len() as int) =~= rest);
        assert forall|k: int| 0 <= k < a.drop_first().len() implies json_wf(
            #[trigger] a.drop_first()[k],
        ) by {
            assert(a.drop_first()[k] == a[k + 1]);
        }
        lemma_parse_list(s, i2, a.drop_first());
        assert(seq![a[0]] + a.drop_first() =~= a);
    }
}

/// The parser reads a canonical non-empty member list back, up to and
/// including the closing brace that follows it.
pub proof fn lemma_parse_members(s: Seq<u8>, i: int, o: Seq<(Seq<u8>, JsonV)>)
    requires
        o.len() >= 1,
        forall|k: int| 0 <= k < o.len() ==> json_wf((#[trigger] o[k]).1),
        0 <= i,
        i + enc_members(o).len() < s.len(),
        s.subrange(i, i + enc_members(o).len() as int) == enc_members(o),
        s[i + enc_members(o).len()] == '}' as u8,
    ensures
        sp_members(s, i) == Some((o, i + enc_members(o).len() + 1)),
    decreases o, 0int,
{
    let em = enc_members(o);
    let ek = enc_str(o[0].0);
    let body = enc_str_body(o[0].0);
    let ev = enc_value(o[0].1);
    lemma_enc_head(o[0].1);
    assert(ek == seq!['"' as u8] + body + seq!['"' as u8]);
    let head = ek + seq![':' as u8] + ev;
    if o.len() == 1 {
        assert(em == head);
    } else {
        assert(em == head + seq![',' as u8] + enc_members(o.drop_first()));
    }
    assert forall|k: int| 0 <= k < head.len() implies s[i + k] == head[k] by {
        lemma_sub_index(s, i, em, k);
        assert(em[k] == head[k]);
    }
    // the key string
    assert(head[0] == ek[0]);
    assert(ek[0] == '"' as u8);
    assert(s[i + 0] == '"' as u8);
    assert(skip_ws(s, i) == i);
    assert forall|j: int|
        0 <= j < body.len() implies s.subrange(i + 1, i + 1 + body.len() as int)[j] == body[j] by {
        assert(s[i + (j + 1)] == head[j + 1]);
        assert(head[j + 1] == body[j]);
    }
    assert(s.subrange(i + 1, i + 1 + body.len() as int) =~= body);
    assert(head[1 + body.len() as int] == '"' as u8);
    assert(s[i + 1 + body.len()] == '"' as u8);
    lemma_parse_str_body(s, i + 1, o[0].0);
    let e1 = i + ek.len();
    // the colon
    assert(head[ek.len() as int] == ':' as u8);
    assert(s[e1] == ':' as u8);
    assert(!is_ws(s[e1]));
    assert(skip_ws(s, e1) == e1);
    // the value
    let iv = e1 + 1;
    assert forall|k: int| 0 <= k < ev.len() implies s.subrange(iv, iv + ev.len() as int)[k]
        == ev[k] by {
        assert(s[i + (ek.len() + 1 + k)] == head[ek.len() + 1 + k]);
        assert(head[ek.len() + 1 + k] == ev[k]);
    }
    assert(s.subrange(iv, iv + ev.len() as int) =~= ev);
    let after = iv + ev.len();
    if o.len() == 1 {
        assert(s[after] == '}' as u8);
        lemma_parse_encode(s, iv, o[0].1);
        assert(skip_ws(s, after) == after);
        assert(seq![(o[0].0, o[0].1)] =~= o);
    } else {
        let rest = enc_members(o.drop_first());
        lemma_sub_index(s, i, em, head.len() as int);
        assert(em[head.len() as int] == ',' as u8);
        assert(s[after] == ',' as u8);
        lemma_parse_encode(s, iv, o[0].1);
        assert(skip_ws(s, after) == after);
        let i2 = after + 1;
        assert forall|k: int| 0 <= k < rest.len() implies s.subrange(i2, i2 + rest.len() as int)[k]
            == rest[k] by {
            lemma_sub_index(s, i, em, head.len() + 1 + k);
            assert(em[head.len() + 1 + k] == rest[k]);
        }
        assert(s.subrange(i2, i2 + rest.len() as int) =~= rest);
        assert forall|k: int| 0 <= k < o.drop_first().len() implies json_wf(
            (#[trigger] o.drop_first()[k]).1,
        ) by {
            assert(o.drop_first()[k] == o[k + 1]);
        }
        lemma_parse_members(s, i2, o.drop_first());
        assert(seq![(o[0].0, o[0].1)] + o.drop_first() =~= o);
    }
}

/// Round trip: decoding the canonical text of any representable value, with
/// any trailing whitespace, yields that value.
pub proof fn lemma_parse_of_encode(v: JsonV, tail: Seq<u8>)
    requires
        json_wf(v),
        forall|k: int| 0 <= k < tail.len() ==> is_ws(#[trigger] tail[k]),
    ensures
        spec_parse(enc_value(v) + tail) == Some(v),
{
    let s = enc_value(v) + tail;
    let e = enc_value(v);
    assert forall|k: int| 0 <= k < e.len() implies s.subrange(0, e.len() as int)[k] == e[k] by {
        assert(s[k] == e[k]);
    }
    assert(s.subrange(0, e.len() as int) =~= e);
    if e.len() < s.len() {
        assert(s[e.len() as int] == tail[0]);
        assert(!is_num_cont(s[e.len() as int]));
    }
    lemma_parse_encode(s, 0, v);
    lemma_ws_tail(s, e.len() as int);
}

/// Skipping whitespace at the head of an all-whitespace tail reaches the end.
pub proof fn lemma_ws_tail(s: Seq<u8>, i: int)
    requires
        0 <= i <= s.len(),
        forall|k: int| i <= k < s.len() ==> is_ws(#[trigger] s[k]),
    ensures
        skip_ws(s, i) == s.len(),
    decreases s.len() - i,
{
    if i < s.len() {
        lemma_ws_tail(s, i + 1);
    }
}

} // verus!
