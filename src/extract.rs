use vstd::prelude::*;
use crate::text::{occurs_at, chars_of};

verus! {

/// Errors that end a benchmark campaign.
#[derive(Debug, Clone, Copy, PartialEq, Eq, Structural)]
pub enum HarnessError {
    /// The test manifest could not be obtained from the test runner.
    ManifestUnavailable,
    /// A metrics line was found, but one of its counters is not a number that fits.
    MalformedMetrics,
    /// The pass count does not fit in `usize`, or a per-test sum over the measured
    /// passes does not fit in `u64`.
    SumOverflow,
}

pub open spec fn is_ascii_digit(c: char) -> bool {
    '0' <= c && c <= '9'
}

/// A non-empty string of ASCII decimal digits.
pub open spec fn ascii_number(s: Seq<char>) -> bool {
    s.len() > 0 && forall|k: int| 0 <= k < s.len() ==> is_ascii_digit(#[trigger] s[k])
}

/// A non-empty string of characters that `\d` (Unicode `Nd`) may match: ASCII digits,
/// and beyond ASCII only characters from U+0660 on (the first `Nd` digit after `9`).
pub open spec fn digit_class(s: Seq<char>) -> bool {
    s.len() > 0 && forall|k: int|
        0 <= k < s.len() ==> is_ascii_digit(#[trigger] s[k]) || (s[k] as u32) >= 0x660
}

/// The value of a string of decimal digits.
pub open spec fn decimal_value(s: Seq<char>) -> nat
    decreases s.len(),
{
    if s.len() == 0 {
        0
    } else {
        decimal_value(s.drop_last()) * 10 + ((s.last() as u32) - ('0' as u32)) as nat
    }
}

/// A counter as written in a metrics line, if it is a decimal number that fits in `u64`.
pub open spec fn parse_count_spec(s: Seq<char>) -> Option<u64> {
    if ascii_number(s) && decimal_value(s) <= u64::MAX {
        Some(decimal_value(s) as u64)
    } else {
        None
    }
}

/// The metrics line with counter texts `b` and `i`.
pub open spec fn metrics_line(b: Seq<char>, i: Seq<char>) -> Seq<char> {
    "Blocks: "@ + b + ", Instructions: "@ + i
}

/// A metrics line whose counters are ASCII numbers starts at position `p` of `t`.
pub open spec fn ascii_line_at(t: Seq<char>, p: int) -> bool {
    exists|b: Seq<char>, i: Seq<char>|
        ascii_number(b) && ascii_number(i) && #[trigger] occurs_at(t, metrics_line(b, i), p)
}

/// A line that the metrics search could match starts at position `p` of `t`.
pub open spec fn candidate_line_at(t: Seq<char>, p: int) -> bool {
    exists|b: Seq<char>, i: Seq<char>|
        digit_class(b) && digit_class(i) && #[trigger] occurs_at(t, metrics_line(b, i), p)
}

/// The first metrics line of `t` starts at `p` and is well formed, with the counter
/// texts `x` and `y`: ASCII numbers, the last one followed by the end of `t` or by a
/// character that `\d` does not match (below U+0660 and no ASCII digit).
pub open spec fn first_metrics_line(t: Seq<char>, p: int, x: Seq<char>, y: Seq<char>) -> bool {
    &&& ascii_number(x)
    &&& ascii_number(y)
    &&& occurs_at(t, metrics_line(x, y), p)
    &&& (p + metrics_line(x, y).len() == t.len() || ((t[p + metrics_line(x, y).len()] as u32)
        < 0x660 && !is_ascii_digit(t[p + metrics_line(x, y).len()])))
    &&& forall|q: int| 0 <= q < p ==> !candidate_line_at(t, q)
}

/// What a leftmost-first search for `Blocks: (\d+), Instructions: (\d+)` in `t`
/// shows of its outcome `c`. `\d` is Unicode-aware, so only a bound on it is stated:
/// a match has counters in `digit_class`, starts before every line with ASCII-number
/// counters, and its last counter is followed by no ASCII digit; no match means no
/// such line.
pub open spec fn search_facts(t: Seq<char>, c: Option<(Seq<char>, Seq<char>)>) -> bool {
    match c {
        Some((b, i)) => exists|p: int|
            {
                &&& digit_class(b)
                &&& digit_class(i)
                &&& #[trigger] occurs_at(t, metrics_line(b, i), p)
                &&& (p + metrics_line(b, i).len() == t.len() || !is_ascii_digit(
                    t[p + metrics_line(b, i).len()],
                ))
                &&& forall|q: int| 0 <= q < p ==> !ascii_line_at(t, q)
            },
        None => forall|p: int| !ascii_line_at(t, p),
    }
}

/// What the metrics search returns on the text `t`: the two captured counter texts of
/// the first metrics line, or nothing.
pub uninterp spec fn metrics_captures(t: Seq<char>) -> Option<(Seq<char>, Seq<char>)>;

/// The texts of two captured groups.
pub open spec fn captured_view(r: Option<(String, String)>) -> Option<(Seq<char>, Seq<char>)> {
    match r {
        Some((b, i)) => Some((b@, i@)),
        None => None,
    }
}

/// The regular expression that finds a metrics line.
pub const METRICS_PATTERN: &'static str =
    r"Blocks: (?P<block_count>\d+), Instructions: (?P<instruction_count>\d+)";

#[verifier::external_type_specification]
#[verifier::external_body]
pub struct ExRegex(regex::Regex);

/// Relies on `regex::Regex::new`: compiles `pattern`, or fails.
#[verifier::external_body]
fn compile_regex(pattern: &str) -> (r: Option<regex::Regex>) {
    regex::Regex::new(pattern).ok()
}

/// The compiled metrics pattern. Its only constructor compiles `METRICS_PATTERN`.
pub struct MetricsPattern {
    re: regex::Regex,
}

/// Relies on `regex::Regex::captures` on a regex compiled from `METRICS_PATTERN`:
/// the two named groups of the leftmost-first match, which is the leftmost match, with
/// the greedy last group taking every digit that follows. `\d` is `\p{Nd}`, whose
/// characters are the ASCII digits and characters from U+0660 on.
#[verifier::external_body]
fn find_captures(pattern: &MetricsPattern, text: &str) -> (r: Option<(String, String)>)
    ensures
        captured_view(r) == metrics_captures(text@),
        search_facts(text@, captured_view(r)),
{
    pattern.re.captures(text).map(
        |c| (c["block_count"].to_string(), c["instruction_count"].to_string()),
    )
}

impl MetricsPattern {
    /// Compiles the metrics pattern.
    pub fn new() -> (r: Option<MetricsPattern>) {
        match compile_regex(METRICS_PATTERN) {
            Some(re) => Some(MetricsPattern { re }),
            None => None,
        }
    }
}

proof fn lemma_decimal_prefix_le(s: Seq<char>, k: int)
    requires
        0 <= k <= s.len(),
    ensures
        decimal_value(s.take(k)) <= decimal_value(s),
    decreases s.len(),
{
    if k == s.len() {
        assert(s.take(k) =~= s);
    } else {
        lemma_decimal_prefix_le(s.drop_last(), k);
        assert(s.drop_last().take(k) =~= s.take(k));
    }
}

/// A counter of a metrics line: `Some` exactly when `s` is a decimal number that fits
/// in `u64`.
pub fn parse_count(s: &str) -> (r: Option<u64>)
    ensures
        r == parse_count_spec(s@),
{
    let v = chars_of(s);
    if v.len() == 0 {
        return None;
    }
    let mut acc: u64 = 0;
    let mut k: usize = 0;
    assert(v@.take(0) =~= Seq::<char>::empty());
    while k < v.len()
        invariant
            k <= v@.len(),
            v@ == s@,
            forall|m: int| 0 <= m < k ==> is_ascii_digit(#[trigger] v@[m]),
            acc as nat == decimal_value(v@.take(k as int)),
        decreases v@.len() - k,
    {
        let c = v[k];
        if !('0' <= c && c <= '9') {
            assert(!is_ascii_digit(v@[k as int]));
            return None;
        }
        assert(v@.take(k + 1).drop_last() =~= v@.take(k as int));
        assert(v@.take(k + 1).last() == c);
        let d: u64 = (c as u32 - '0' as u32) as u64;
        assert(decimal_value(v@.take(k + 1)) == acc * 10 + d);
        match acc.checked_mul(10) {
            Some(t) => match t.checked_add(d) {
                Some(n) => {
                    acc = n;
                },
                None => {
                    proof {
                        lemma_decimal_prefix_le(v@, k + 1);
                    }
                    return None;
                },
            },
            None => {
                proof {
                    lemma_decimal_prefix_le(v@, k + 1);
                }
                return None;
            },
        }
        k = k + 1;
    }
    assert(v@.take(k as int) =~= v@);
    Some(acc)
}

/// The counters `(blocks, instructions)` from their captured texts.
pub open spec fn counts_outcome(b: Seq<char>, i: Seq<char>) -> Result<(u64, u64), HarnessError> {
    match (parse_count_spec(b), parse_count_spec(i)) {
        (Some(x), Some(y)) => Ok((x, y)),
        _ => Err(HarnessError::MalformedMetrics),
    }
}

/// The outcome of extraction for what the metrics search returned.
pub open spec fn extraction_outcome(c: Option<(Seq<char>, Seq<char>)>) -> Result<
    Option<(u64, u64)>,
    HarnessError,
> {
    match c {
        None => Ok(None),
        Some((b, i)) => match counts_outcome(b, i) {
            Ok(x) => Ok(Some(x)),
            Err(e) => Err(e),
        },
    }
}

/// The counters from the captured texts of a metrics line; a text that is no decimal
/// number fitting in `u64` is a malformed metrics line.
pub fn metrics_from_captures(blocks: &str, instructions: &str) -> (r: Result<(u64, u64), HarnessError>)
    ensures
        r == counts_outcome(blocks@, instructions@),
{
    match (parse_count(blocks), parse_count(instructions)) {
        (Some(x), Some(y)) => Ok((x, y)),
        _ => Err(HarnessError::MalformedMetrics),
    }
}

proof fn lemma_same_counters(t: Seq<char>, p: int, b: Seq<char>, i: Seq<char>, x: Seq<char>, y: Seq<char>)
    requires
        digit_class(b),
        digit_class(i),
        occurs_at(t, metrics_line(b, i), p),
        p + metrics_line(b, i).len() == t.len() || !is_ascii_digit(t[p + metrics_line(b, i).len()]),
        first_metrics_line(t, p, x, y),
    ensures
        b == x,
        i == y,
{
    reveal_strlit("Blocks: ");
    reveal_strlit(", Instructions: ");
    let lb = metrics_line(b, i);
    let lx = metrics_line(x, y);
    assert forall|k: int| 0 <= k < lb.len() implies t[p + k] == lb[k] by {
        assert(t.subrange(p, p + lb.len())[k] == lb[k]);
    }
    assert forall|k: int| 0 <= k < lx.len() implies t[p + k] == lx[k] by {
        assert(t.subrange(p, p + lx.len())[k] == lx[k]);
    }
    if b.len() < x.len() {
        let k: int = 8 + b.len() as int;
        assert(lb[k] == ',');
        assert(lx[k] == x[b.len() as int]);
        assert(is_ascii_digit(x[b.len() as int]));
    }
    if x.len() < b.len() {
        let k: int = 8 + x.len() as int;
        assert(lx[k] == ',');
        assert(lb[k] == b[x.len() as int]);
        assert(!is_ascii_digit(b[x.len() as int]) && (b[x.len() as int] as u32) < 0x660);
    }
    assert(b.len() == x.len());
    assert forall|k: int| 0 <= k < b.len() implies b[k] == x[k] by {
        assert(lb[8 + k] == b[k]);
        assert(lx[8 + k] == x[k]);
    }
    assert(b =~= x);
    let s: int = 8 + b.len() as int + 16;
    if i.len() < y.len() {
        assert(lx[s + i.len() as int] == y[i.len() as int]);
        assert(is_ascii_digit(y[i.len() as int]));
        assert(t[p + lb.len()] == lx[s + i.len() as int]);
    }
    if y.len() < i.len() {
        assert(lb[s + y.len() as int] == i[y.len() as int]);
        assert(t[p + lx.len()] == lb[s + y.len() as int]);
        assert(!is_ascii_digit(i[y.len() as int]) && (i[y.len() as int] as u32) < 0x660);
    }
    assert(i.len() == y.len());
    assert forall|k: int| 0 <= k < i.len() implies i[k] == y[k] by {
        assert(lb[s + k] == i[k]);
        assert(lx[s + k] == y[k]);
    }
    assert(i =~= y);
}

/// The outcome of extraction for the counter texts `x` and `y`.
pub open spec fn outcome_of_counts(x: Seq<char>, y: Seq<char>) -> Result<Option<(u64, u64)>, HarnessError> {
    match counts_outcome(x, y) {
        Ok(v) => Ok(Some(v)),
        Err(e) => Err(e),
    }
}

/// The `(blocks, instructions)` counters of the first metrics line of `output`;
/// `Ok(None)` where there is none. Where the first line that the search could match
/// is a well-formed metrics line, the result is exactly its counters.
pub fn extract_metrics(pattern: &MetricsPattern, output: &str) -> (r: Result<
    Option<(u64, u64)>,
    HarnessError,
>)
    ensures
        r == extraction_outcome(metrics_captures(output@)),
        (forall|p: int| !candidate_line_at(output@, p)) ==> r == Ok::<
            Option<(u64, u64)>,
            HarnessError,
        >(None),
        forall|p: int, x: Seq<char>, y: Seq<char>|
            #[trigger] first_metrics_line(output@, p, x, y) ==> r == outcome_of_counts(x, y),
{
    let found = find_captures(pattern, output);
    proof {
        let t = output@;
        match captured_view(found) {
            Some((b, i)) => {
                let p = choose|p: int|
                    {
                        &&& digit_class(b)
                        &&& digit_class(i)
                        &&& #[trigger] occurs_at(t, metrics_line(b, i), p)
                        &&& (p + metrics_line(b, i).len() == t.len() || !is_ascii_digit(
                            t[p + metrics_line(b, i).len()],
                        ))
                        &&& forall|q: int| 0 <= q < p ==> !ascii_line_at(t, q)
                    };
                assert(candidate_line_at(t, p));
                assert forall|p0: int, x: Seq<char>, y: Seq<char>|
                    #[trigger] first_metrics_line(t, p0, x, y) implies b == x && i == y by {
                    assert(ascii_line_at(t, p0));
                    if p0 < p {
                        assert(!ascii_line_at(t, p0));
                    }
                    if p < p0 {
                        assert(!candidate_line_at(t, p));
                    }
                    lemma_same_counters(t, p, b, i, x, y);
                }
            },
            None => {
                assert forall|p0: int, x: Seq<char>, y: Seq<char>|
                    #[trigger] first_metrics_line(t, p0, x, y) implies false by {
                    assert(ascii_line_at(t, p0));
                }
            },
        }
    }
    match found {
        None => Ok(None),
        Some((b, i)) => match metrics_from_captures(b.as_str(), i.as_str()) {
            Ok(x) => Ok(Some(x)),
            Err(e) => Err(e),
        },
    }
}

} // verus!
