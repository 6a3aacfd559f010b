use vstd::prelude::*;
use crate::text::{ends_with_spec, occurs_at, chars_of, string_of, occurs_at_exec};

verus! {

/// The suffix that marks an instrumented variant: `_` followed by the run marker.
pub open spec fn marker_suffix(marker: Seq<char>) -> Seq<char> {
    seq!['_'] + marker
}

/// `s` with the non-empty suffix `p` removed as long as `s` ends with it and
/// something would be left.
pub open spec fn strip_repeated(s: Seq<char>, p: Seq<char>) -> Seq<char>
    decreases s.len(),
{
    if p.len() > 0 && s.len() > p.len() && ends_with_spec(s, p) {
        strip_repeated(s.take(s.len() - p.len()), p)
    } else {
        s
    }
}

/// Suffix rule: `name` without its trailing `_<marker>` suffixes. A name that is
/// nothing but the suffix is kept, so that no name becomes empty.
pub open spec fn strip_marker_spec(name: Seq<char>, marker: Seq<char>) -> Seq<char> {
    strip_repeated(name, marker_suffix(marker))
}

proof fn lemma_strip_repeated_fixed(s: Seq<char>, p: Seq<char>)
    ensures
        strip_repeated(strip_repeated(s, p), p) == strip_repeated(s, p),
        s.len() > 0 ==> strip_repeated(s, p).len() > 0,
    decreases s.len(),
{
    if p.len() > 0 && s.len() > p.len() && ends_with_spec(s, p) {
        lemma_strip_repeated_fixed(s.take(s.len() - p.len()), p);
    }
}

/// Qualifier rule: what follows the last `::` separator of `s`, as the last item
/// of `str::split("::")` (separators are matched left to right without overlap).
pub open spec fn last_segment(s: Seq<char>) -> Seq<char>
    decreases s.len(),
{
    if s.len() == 0 {
        s
    } else if s.len() >= 2 && s[0] == ':' && s[1] == ':' {
        last_segment(s.skip(2))
    } else {
        let t = last_segment(s.drop_first());
        if t.len() == s.len() - 1 {
            s
        } else {
            t
        }
    }
}

/// `s` holds no `::` separator.
pub open spec fn no_separator(s: Seq<char>) -> bool {
    forall|i: int| 0 <= i < s.len() - 1 ==> !(s[i] == ':' && #[trigger] s[i + 1] == ':')
}

/// Suffix rule: removes the trailing `_<marker>` suffixes from a test identifier,
/// keeping an identifier that is the suffix alone.
pub fn strip_marker(name: &str, marker: &str) -> (r: String)
    ensures
        r@ == strip_marker_spec(name@, marker@),
        name@.len() > 0 ==> r@.len() > 0,
{
    let n = chars_of(name);
    let mut suffix: Vec<char> = Vec::new();
    suffix.push('_');
    let m = chars_of(marker);
    let mut k: usize = 0;
    while k < m.len()
        invariant
            k <= m@.len(),
            suffix@ == seq!['_'] + m@.take(k as int),
        decreases m@.len() - k,
    {
        suffix.push(m[k]);
        assert(seq!['_'] + m@.take(k + 1) =~= (seq!['_'] + m@.take(k as int)).push(m@[k as int]));
        k = k + 1;
    }
    assert(m@.take(k as int) =~= m@);
    let ghost p = suffix@;
    let mut end: usize = n.len();
    assert(n@.take(end as int) =~= n@);
    while end > suffix.len() && occurs_at_exec(&n, &suffix, end - suffix.len())
        invariant
            p == suffix@,
            p.len() > 0,
            end <= n@.len(),
            strip_repeated(n@, p) == strip_repeated(n@.take(end as int), p),
        decreases end,
    {
        let ghost t = n@.take(end as int);
        let ghost i = end - p.len();
        assert(t.subrange(i, i + p.len()) =~= n@.subrange(i, i + p.len()));
        assert(ends_with_spec(t, p));
        assert(t.take(t.len() - p.len()) =~= n@.take(i));
        end = end - suffix.len();
    }
    proof {
        let t = n@.take(end as int);
        if end > p.len() {
            let i = end - p.len();
            assert(t.subrange(i, i + p.len()) =~= n@.subrange(i, i + p.len()));
            assert(!occurs_at(n@, p, i));
        }
        lemma_strip_repeated_fixed(n@, p);
    }
    string_of(vstd::slice::slice_subrange(n.as_slice(), 0, end))
}

/// Start of the last segment of `s[i..]`.
fn segment_start(s: &Vec<char>, i: usize) -> (r: usize)
    requires
        i <= s@.len(),
    ensures
        i <= r <= s@.len(),
        last_segment(s@.skip(i as int)) == s@.skip(r as int),
    decreases s@.len() - i,
{
    if i == s.len() {
        return i;
    }
    if s.len() - i >= 2 && s[i] == ':' && s[i + 1] == ':' {
        assert(s@.skip(i as int).skip(2) =~= s@.skip(i + 2));
        segment_start(s, i + 2)
    } else {
        let r = segment_start(s, i + 1);
        assert(s@.skip(i as int).drop_first() =~= s@.skip(i + 1));
        if r == i + 1 {
            i
        } else {
            r
        }
    }
}

/// Qualifier rule: the display name of a test, the part of `name` after its last `::`.
pub fn display_name(name: &str) -> (r: String)
    ensures
        r@ == last_segment(name@),
{
    let n = chars_of(name);
    assert(n@.skip(0) =~= n@);
    let start = segment_start(&n, 0);
    assert(n@.skip(start as int) =~= n@.subrange(start as int, n@.len() as int));
    string_of(vstd::slice::slice_subrange(n.as_slice(), start, n.len()))
}

proof fn lemma_last_segment_suffix(s: Seq<char>)
    ensures
        last_segment(s).len() <= s.len(),
        last_segment(s) == s.skip(s.len() - last_segment(s).len()),
    decreases s.len(),
{
    if s.len() == 0 {
        assert(s.skip(0) =~= s);
    } else if s.len() >= 2 && s[0] == ':' && s[1] == ':' {
        lemma_last_segment_suffix(s.skip(2));
        assert(s.skip(2).skip(s.len() - 2 - last_segment(s).len()) =~= s.skip(
            s.len() - last_segment(s).len(),
        ));
    } else {
        lemma_last_segment_suffix(s.drop_first());
        let t = last_segment(s.drop_first());
        if t.len() == s.len() - 1 {
            assert(s.skip(0) =~= s);
        } else {
            assert(s.drop_first().skip(s.len() - 1 - t.len()) =~= s.skip(s.len() - t.len()));
        }
    }
}

proof fn lemma_last_segment_no_separator(s: Seq<char>)
    ensures
        no_separator(last_segment(s)),
    decreases s.len(),
{
    if s.len() == 0 {
    } else if s.len() >= 2 && s[0] == ':' && s[1] == ':' {
        lemma_last_segment_no_separator(s.skip(2));
    } else {
        let t = last_segment(s.drop_first());
        lemma_last_segment_no_separator(s.drop_first());
        lemma_last_segment_suffix(s.drop_first());
        if t.len() == s.len() - 1 {
            assert(t =~= s.drop_first());
            assert forall|i: int| 0 <= i < s.len() - 1 implies !(s[i] == ':' && #[trigger] s[i
                + 1] == ':') by {
                if i > 0 {
                    assert(t[i - 1] == s[i]);
                    assert(t[i] == s[i + 1]);
                }
            }
        }
    }
}

proof fn lemma_no_separator_fixed(s: Seq<char>)
    requires
        no_separator(s),
    ensures
        last_segment(s) == s,
    decreases s.len(),
{
    if s.len() > 0 {
        let d = s.drop_first();
        assert forall|i: int| 0 <= i < d.len() - 1 implies !(d[i] == ':' && #[trigger] d[i + 1]
            == ':') by {
            assert(s[i + 1 + 1] == d[i + 1]);
        }
        if s.len() >= 2 {
            assert(!(s[0] == ':' && s[0int + 1] == ':'));
        }
        lemma_no_separator_fixed(d);
    }
}

/// The qualifier rule is idempotent: a display name is its own display name.
pub proof fn lemma_display_name_idempotent(s: Seq<char>)
    ensures
        last_segment(last_segment(s)) == last_segment(s),
{
    lemma_last_segment_no_separator(s);
    lemma_no_separator_fixed(last_segment(s));
}

/// The suffix rule is idempotent: a stripped name has nothing left to strip. It
/// never empties a non-empty name.
pub proof fn lemma_strip_marker_idempotent(s: Seq<char>, marker: Seq<char>)
    ensures
        strip_marker_spec(strip_marker_spec(s, marker), marker) == strip_marker_spec(s, marker),
        s.len() > 0 ==> strip_marker_spec(s, marker).len() > 0,
{
    lemma_strip_repeated_fixed(s, marker_suffix(marker));
}

} // verus!
