//! What a run of the property checks reports: the counters it kept, the verdict of a
//! check as a `Result`, the verdicts of the frozen witness inputs, and the one-line JSON
//! record that describes a run.
use vstd::prelude::*;
use vstd::string::StringExecFns;
use crate::digits::nat_digits;
use crate::text::{str_chars, push_char};
use crate::etna::{
    PropertyResult, property_abs_sub_difference, property_checked_div_no_panic,
    property_checked_ln_no_panic, property_from_i128_extremes, property_from_i128_no_panic,
    property_from_scientific_no_panic, property_is_integer_matches_string,
    property_round_dp_preserves_when_dp_exceeds_scale, property_scientific_fmt_roundtrip,
    u128_string,
};

verus! {

/// The counters of a run: the inputs tried and the microseconds spent.
#[derive(Clone, Copy, Debug, Default)]
pub struct Metrics {
    pub inputs: u64,
    pub elapsed_us: u128,
}

impl Metrics {
    /// The two runs' counters added up; the sums must not overflow.
    pub fn combine(self, other: Metrics) -> (m: Metrics)
        requires
            self.inputs + other.inputs <= u64::MAX,
            self.elapsed_us + other.elapsed_us <= u128::MAX,
        ensures
            m.inputs == self.inputs + other.inputs,
            m.elapsed_us == self.elapsed_us + other.elapsed_us,
    {
        Metrics {
            inputs: self.inputs + other.inputs,
            elapsed_us: self.elapsed_us + other.elapsed_us,
        }
    }
}

/// One step of running several checks: the counters add up, and the first failure
/// seen is the one kept.
pub fn accumulate(
    first_err: Result<(), String>,
    total: Metrics,
    result: Result<(), String>,
    metrics: Metrics,
) -> (r: (Result<(), String>, Metrics))
    requires
        total.inputs + metrics.inputs <= u64::MAX,
        total.elapsed_us + metrics.elapsed_us <= u128::MAX,
    ensures
        r.0 == (if first_err is Ok && result is Err { result } else { first_err }),
        r.1.inputs == total.inputs + metrics.inputs,
        r.1.elapsed_us == total.elapsed_us + metrics.elapsed_us,
{
    let combined = total.combine(metrics);
    if first_err.is_ok() && result.is_err() {
        (result, combined)
    } else {
        (first_err, combined)
    }
}

/// A check as a `Result`: a failure is an error carrying its message; a pass and a
/// discard are both `Ok`.
pub fn to_err(r: PropertyResult) -> (o: Result<(), String>)
    ensures
        o == (match r {
            PropertyResult::Fail(m) => Err::<(), String>(m),
            _ => Ok::<(), String>(()),
        }),
{
    match r {
        PropertyResult::Pass => Ok(()),
        PropertyResult::Discard => Ok(()),
        PropertyResult::Fail(m) => Err(m),
    }
}

// ---------------------------------------------------------------------------
// The frozen witness inputs.

/// The names under which the property checks are run.
pub open spec fn is_property_name(s: Seq<char>) -> bool {
    ||| s == "AbsSubDifference"@
    ||| s == "IsIntegerMatchesString"@
    ||| s == "FromI128NoPanic"@
    ||| s == "FromI128Extremes"@
    ||| s == "RoundDpPreserves"@
    ||| s == "CheckedLnNoPanic"@
    ||| s == "ScientificFmtRoundtrip"@
    ||| s == "FromScientificNoPanic"@
    ||| s == "CheckedDivNoPanic"@
}

/// `a` and `b` are the same text.
pub fn same_text(a: &str, b: &str) -> (r: bool)
    ensures
        r == (a@ == b@),
{
    let x = str_chars(a);
    let y = str_chars(b);
    if x.len() != y.len() {
        return false;
    }
    let mut i: usize = 0;
    while i < x.len()
        invariant
            x.len() == y.len(),
            i <= x.len(),
            x@ == a@,
            y@ == b@,
            forall|k: int| 0 <= k < i ==> x@[k] == y@[k],
        decreases x.len() - i,
    {
        if x[i] != y[i] {
            return false;
        }
        i = i + 1;
    }
    proof {
        assert(x@ =~= y@);
    }
    true
}

/// Runs the check of the named property on its frozen witness input: `None` for a name
/// that is not a property's, and otherwise the verdict, which is always `Ok`.
pub fn etna_witness(property: &str) -> (r: Option<Result<(), String>>)
    ensures
        r is Some <==> is_property_name(property@),
        r is Some ==> r == Some(Ok::<(), String>(())),
{
    let verdict = if same_text(property, "AbsSubDifference") {
        to_err(property_abs_sub_difference(123, 0, 122, 0))
    } else if same_text(property, "IsIntegerMatchesString") {
        to_err(property_is_integer_matches_string(4_000_000_000, 10))
    } else if same_text(property, "FromI128NoPanic") {
        to_err(property_from_i128_no_panic(42))
    } else if same_text(property, "FromI128Extremes") {
        to_err(property_from_i128_extremes(0))
    } else if same_text(property, "RoundDpPreserves") {
        to_err(property_round_dp_preserves_when_dp_exceeds_scale(0, 28, 4))
    } else if same_text(property, "CheckedLnNoPanic") {
        to_err(property_checked_ln_no_panic(0, 0))
    } else if same_text(property, "ScientificFmtRoundtrip") {
        to_err(property_scientific_fmt_roundtrip(0, 0))
    } else if same_text(property, "FromScientificNoPanic") {
        to_err(property_from_scientific_no_panic(0, 1, 1))
    } else if same_text(property, "CheckedDivNoPanic") {
        to_err(property_checked_div_no_panic(-79228157791897, 15, 1, 0, 0))
    } else {
        return None;
    };
    Some(verdict)
}

// ---------------------------------------------------------------------------
// The JSON record of a run.

/// The lowercase hexadecimal digit of `n < 16`.
pub open spec fn hex_digit(n: nat) -> char {
    if n < 10 {
        (n + '0' as int) as char
    } else {
        (n - 10 + 'a' as int) as char
    }
}

/// How a character stands inside a JSON string: quote, backslash and the control
/// characters are escaped, the control characters without a short form as `\u00XX`.
pub open spec fn json_escape_char(c: char) -> Seq<char> {
    if c == '"' {
        seq!['\\', '"']
    } else if c == '\\' {
        seq!['\\', '\\']
    } else if c == '\n' {
        seq!['\\', 'n']
    } else if c == '\r' {
        seq!['\\', 'r']
    } else if c == '\t' {
        seq!['\\', 't']
    } else if (c as u32) < 0x20 {
        seq!['\\', 'u', '0', '0', hex_digit((c as u32 / 16) as nat), hex_digit((c as u32 % 16) as nat)]
    } else {
        seq![c]
    }
}

/// The characters of `s`, each escaped.
pub open spec fn json_escaped(s: Seq<char>) -> Seq<char>
    decreases s.len(),
{
    if s.len() == 0 {
        Seq::empty()
    } else {
        json_escaped(s.drop_last()) + json_escape_char(s.last())
    }
}

/// `s` as a JSON string.
pub open spec fn json_quoted(s: Seq<char>) -> Seq<char> {
    seq!['"'] + json_escaped(s) + seq!['"']
}

/// The hexadecimal digit of `n < 16`.
fn hex_char(n: u32) -> (c: char)
    requires
        n < 16,
    ensures
        c == hex_digit(n as nat),
{
    let b = n as u8;
    if b < 10 {
        (b + 48) as char
    } else {
        (b + 87) as char
    }
}

/// Appends `c` as it stands inside a JSON string.
fn push_escaped(out: &mut String, c: char)
    ensures
        final(out)@ == old(out)@ + json_escape_char(c),
{
    if c == '"' {
        push_char(out, '\\');
        push_char(out, '"');
    } else if c == '\\' {
        push_char(out, '\\');
        push_char(out, '\\');
    } else if c == '\n' {
        push_char(out, '\\');
        push_char(out, 'n');
    } else if c == '\r' {
        push_char(out, '\\');
        push_char(out, 'r');
    } else if c == '\t' {
        push_char(out, '\\');
        push_char(out, 't');
    } else if (c as u32) < 0x20 {
        let n = c as u32;
        push_char(out, '\\');
        push_char(out, 'u');
        push_char(out, '0');
        push_char(out, '0');
        push_char(out, hex_char(n / 16));
        push_char(out, hex_char(n % 16));
    } else {
        push_char(out, c);
    }
    proof {
        assert(final(out)@ =~= old(out)@ + json_escape_char(c));
    }
}

/// `s` as a JSON string: in double quotes, with quote, backslash and control characters
/// escaped.
pub fn json_str(s: &str) -> (r: String)
    ensures
        r@ == json_quoted(s@),
        json_decode(r@) == Some(s@),
        forall|i: int| 0 <= i < r@.len() ==> (#[trigger] r@[i] as u32) >= 0x20,
{
    proof {
        lemma_json_str_decodes(s@);
    }
    let chars = str_chars(s);
    let mut out = String::new();
    push_char(&mut out, '"');
    let mut i: usize = 0;
    while i < chars.len()
        invariant
            i <= chars.len(),
            chars@ == s@,
            out@ == seq!['"'] + json_escaped(chars@.take(i as int)),
        decreases chars.len() - i,
    {
        let c = chars[i];
        proof {
            assert(chars@.take(i + 1).drop_last() =~= chars@.take(i as int));
            assert(chars@.take(i + 1).last() == c);
        }
        push_escaped(&mut out, c);
        proof {
            assert(out@ =~= seq!['"'] + json_escaped(chars@.take(i + 1)));
        }
        i = i + 1;
    }
    push_char(&mut out, '"');
    proof {
        assert(chars@.take(chars@.len() as int) =~= chars@);
        assert(out@ =~= json_quoted(s@));
    }
    out
}

/// An optional text as JSON: the string, or `null`.
pub open spec fn json_optional(o: Option<Seq<char>>) -> Seq<char> {
    match o {
        Some(t) => json_quoted(t),
        None => "null"@,
    }
}

/// The text of an optional `&str`.
pub open spec fn optional_text(o: Option<&str>) -> Option<Seq<char>> {
    match o {
        Some(t) => Some(t@),
        None => None,
    }
}

/// The JSON record of a run: its status, the inputs tried, no discards, the time in
/// microseconds, the counterexample and the error (each a string or `null`), the tool
/// and the property.
pub open spec fn json_record(
    tool: Seq<char>,
    property: Seq<char>,
    status: Seq<char>,
    metrics: Metrics,
    counterexample: Option<Seq<char>>,
    error: Option<Seq<char>>,
) -> Seq<char> {
    "{\"status\":"@ + json_quoted(status) + ",\"tests\":"@ + nat_digits(metrics.inputs as nat)
        + ",\"discards\":0,\"time\":"@ + json_quoted(nat_digits(metrics.elapsed_us as nat) + "us"@)
        + ",\"counterexample\":"@ + json_optional(counterexample) + ",\"error\":"@ + json_optional(
        error,
    ) + ",\"tool\":"@ + json_quoted(tool) + ",\"property\":"@ + json_quoted(property) + "}"@
}

/// An optional text as JSON.
fn json_optional_string(o: Option<&str>) -> (r: String)
    ensures
        r@ == json_optional(optional_text(o)),
{
    match o {
        Some(t) => json_str(t),
        None => String::from_str("null"),
    }
}

/// The one-line JSON record of a run.
pub fn json_line(
    tool: &str,
    property: &str,
    status: &str,
    metrics: Metrics,
    counterexample: Option<&str>,
    error: Option<&str>,
) -> (r: String)
    ensures
        r@ == json_record(
            tool@,
            property@,
            status@,
            metrics,
            optional_text(counterexample),
            optional_text(error),
        ),
{
    let mut time = u128_string(metrics.elapsed_us);
    time.append("us");
    let mut line = String::from_str("{\"status\":");
    line.append(json_str(status).as_str());
    line.append(",\"tests\":");
    line.append(u128_string(metrics.inputs as u128).as_str());
    line.append(",\"discards\":0,\"time\":");
    line.append(json_str(time.as_str()).as_str());
    line.append(",\"counterexample\":");
    line.append(json_optional_string(counterexample).as_str());
    line.append(",\"error\":");
    line.append(json_optional_string(error).as_str());
    line.append(",\"tool\":");
    line.append(json_str(tool).as_str());
    line.append(",\"property\":");
    line.append(json_str(property).as_str());
    line.append("}");
    line
}

// ---------------------------------------------------------------------------
// Reading a JSON string back.

/// The value of a hexadecimal digit, in either case.
pub open spec fn hex_value(c: char) -> Option<nat> {
    let v = c as u32;
    if 48 <= v <= 57 {
        Some((v - 48) as nat)
    } else if 97 <= v <= 102 {
        Some((v - 87) as nat)
    } else if 65 <= v <= 70 {
        Some((v - 55) as nat)
    } else {
        None
    }
}

/// The value of four hexadecimal digits.
pub open spec fn hex4(q: Seq<char>) -> Option<nat> {
    if q.len() == 4 && hex_value(q[0]) is Some && hex_value(q[1]) is Some && hex_value(q[2]) is Some
        && hex_value(q[3]) is Some {
        Some(
            4096 * hex_value(q[0])->0 + 256 * hex_value(q[1])->0 + 16 * hex_value(q[2])->0
                + hex_value(q[3])->0,
        )
    } else {
        None
    }
}

/// What the character after a backslash stands for, in the short escapes of JSON.
pub open spec fn short_escape(c: char) -> Option<char> {
    if c == '"' {
        Some('"')
    } else if c == '\\' {
        Some('\\')
    } else if c == '/' {
        Some('/')
    } else if c == 'b' {
        Some('\u{8}')
    } else if c == 'f' {
        Some('\u{c}')
    } else if c == 'n' {
        Some('\n')
    } else if c == 'r' {
        Some('\r')
    } else if c == 't' {
        Some('\t')
    } else {
        None
    }
}

/// A UTF-16 surrogate code unit.
pub open spec fn is_surrogate(v: nat) -> bool {
    0xD800 <= v <= 0xDFFF
}

/// `c` in front of a decoded rest, when the rest decodes.
pub open spec fn prepend(c: char, rest: Option<Seq<char>>) -> Option<Seq<char>> {
    match rest {
        Some(r) => Some(seq![c] + r),
        None => None,
    }
}

/// The characters a JSON string's content (between its quotes) stands for, by the JSON
/// grammar: short escapes, `\uXXXX` (a pair of them for a surrogate pair), and any other
/// character but `"`, `\` and the control characters as itself; `None` when the content
/// is not well formed.
pub open spec fn json_unescape(t: Seq<char>) -> Option<Seq<char>>
    decreases t.len(),
{
    if t.len() == 0 {
        Some(Seq::empty())
    } else if t[0] == '\\' {
        if t.len() >= 2 && short_escape(t[1]) is Some {
            prepend(short_escape(t[1])->0, json_unescape(t.skip(2)))
        } else if t.len() >= 6 && t[1] == 'u' && hex4(t.subrange(2, 6)) is Some && !is_surrogate(
            hex4(t.subrange(2, 6))->0,
        ) {
            prepend((hex4(t.subrange(2, 6))->0) as char, json_unescape(t.skip(6)))
        } else if t.len() >= 12 && t[1] == 'u' && t[6] == '\\' && t[7] == 'u' && hex4(
            t.subrange(2, 6),
        ) is Some && hex4(t.subrange(8, 12)) is Some && 0xD800 <= hex4(t.subrange(2, 6))->0
            <= 0xDBFF && 0xDC00 <= hex4(t.subrange(8, 12))->0 <= 0xDFFF {
            prepend(
                (0x10000 + (hex4(t.subrange(2, 6))->0 - 0xD800) * 1024 + (hex4(t.subrange(8, 12))->0
                    - 0xDC00)) as char,
                json_unescape(t.skip(12)),
            )
        } else {
            None
        }
    } else if t[0] == '"' || (t[0] as u32) < 0x20 {
        None
    } else {
        prepend(t[0], json_unescape(t.skip(1)))
    }
}

/// The text a JSON string literal stands for: its content between the two quotes,
/// unescaped.
pub open spec fn json_decode(q: Seq<char>) -> Option<Seq<char>> {
    if q.len() >= 2 && q[0] == '"' && q[q.len() - 1] == '"' {
        json_unescape(q.subrange(1, q.len() - 1))
    } else {
        None
    }
}

/// Escaping from the front: the first character's escape, then the rest escaped.
proof fn lemma_escaped_front(s: Seq<char>)
    requires
        s.len() > 0,
    ensures
        json_escaped(s) == json_escape_char(s[0]) + json_escaped(s.skip(1)),
    decreases s.len(),
{
    if s.len() == 1 {
        assert(s.drop_last() =~= Seq::<char>::empty());
        assert(s.skip(1) =~= Seq::<char>::empty());
        assert(json_escaped(s) =~= json_escape_char(s[0]) + json_escaped(s.skip(1)));
    } else {
        let d = s.drop_last();
        lemma_escaped_front(d);
        assert(d.skip(1) =~= s.skip(1).drop_last());
        assert(s.skip(1).last() == s.last());
        assert(json_escaped(s) =~= json_escape_char(s[0]) + json_escaped(s.skip(1)));
    }
}

/// The hexadecimal digit of `n < 16` reads back as `n`.
proof fn lemma_hex_digit_value(n: nat)
    requires
        n < 16,
    ensures
        hex_value(hex_digit(n)) == Some(n),
{
}

/// One escaped character in front of a content decodes to that character in front of the
/// content's decoding.
proof fn lemma_unescape_one(c: char, t: Seq<char>)
    ensures
        json_unescape(json_escape_char(c) + t) == prepend(c, json_unescape(t)),
{
    let e = json_escape_char(c);
    let u = e + t;
    if c == '"' || c == '\\' || c == '\n' || c == '\r' || c == '\t' {
        assert(u.skip(2) =~= t);
    } else if (c as u32) < 0x20 {
        let v = c as u32;
        lemma_hex_digit_value((v / 16) as nat);
        lemma_hex_digit_value((v % 16) as nat);
        assert(u.subrange(2, 6) =~= seq!['0', '0', hex_digit((v / 16) as nat), hex_digit((v % 16) as nat)]);
        assert(hex4(u.subrange(2, 6)) == Some(v as nat));
        assert(u.skip(6) =~= t);
    } else {
        assert(u.skip(1) =~= t);
    }
}

/// The escaped characters of `s` decode back to `s`.
proof fn lemma_unescape_escaped(s: Seq<char>)
    ensures
        json_unescape(json_escaped(s)) == Some(s),
    decreases s.len(),
{
    if s.len() == 0 {
        assert(json_escaped(s) =~= Seq::<char>::empty());
    } else {
        lemma_escaped_front(s);
        lemma_unescape_escaped(s.skip(1));
        lemma_unescape_one(s[0], json_escaped(s.skip(1)));
        assert(seq![s[0]] + s.skip(1) =~= s);
    }
}

/// No escaped text holds a control character.
proof fn lemma_escaped_printable(s: Seq<char>)
    ensures
        forall|i: int| 0 <= i < json_escaped(s).len() ==> (#[trigger] json_escaped(s)[i] as u32) >= 0x20,
    decreases s.len(),
{
    if s.len() > 0 {
        lemma_escaped_printable(s.drop_last());
        let a = json_escaped(s.drop_last());
        let b = json_escape_char(s.last());
        let v = s.last() as u32;
        if v < 0x20 && s.last() != '\n' && s.last() != '\r' && s.last() != '\t' {
            lemma_hex_digit_value((v / 16) as nat);
            lemma_hex_digit_value((v % 16) as nat);
        }
        assert forall|i: int| 0 <= i < (a + b).len() implies ((a + b)[i] as u32) >= 0x20 by {
            if i >= a.len() {
                assert((a + b)[i] == b[i - a.len()]);
            } else {
                assert((a + b)[i] == a[i]);
            }
        }
    }
}

/// What `json_str` gives is a JSON string literal, free of control characters, that
/// decodes back to exactly the text it was given.
pub proof fn lemma_json_str_decodes(s: Seq<char>)
    ensures
        json_decode(json_quoted(s)) == Some(s),
        forall|i: int| 0 <= i < json_quoted(s).len() ==> (#[trigger] json_quoted(s)[i] as u32) >= 0x20,
{
    let q = json_quoted(s);
    let e = json_escaped(s);
    assert(q.subrange(1, q.len() - 1) =~= e);
    lemma_unescape_escaped(s);
    lemma_escaped_printable(s);
    assert forall|i: int| 0 <= i < q.len() implies (q[i] as u32) >= 0x20 by {
        if 1 <= i < q.len() - 1 {
            assert(q[i] == e[i - 1]);
        }
    }
}

} // verus!
