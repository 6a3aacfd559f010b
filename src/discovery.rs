use vstd::prelude::*;
use crate::text::{
    white_space, trim_spec, trim_start_spec, contains_spec, ends_with_spec, chars_of, string_of,
    contains_exec, ends_with_exec, trim_start_index, trim_end_index,
};

verus! {

/// The lines of `s`, split at each `'\n'`; the last one is whatever follows the last `'\n'`.
pub open spec fn split_lines(s: Seq<char>) -> Seq<Seq<char>>
    decreases s.len(),
{
    if s.len() == 0 {
        seq![Seq::<char>::empty()]
    } else {
        let prev = split_lines(s.drop_last());
        if s.last() == '\n' {
            prev.push(Seq::<char>::empty())
        } else {
            prev.update(prev.len() - 1, prev.last().push(s.last()))
        }
    }
}

/// The longest prefix of `s` without white space.
pub open spec fn take_until_white(s: Seq<char>) -> Seq<char>
    decreases s.len(),
{
    if s.len() == 0 || white_space(s[0]) {
        Seq::<char>::empty()
    } else {
        seq![s[0]] + take_until_white(s.drop_first())
    }
}

/// The first white-space-delimited token of `s` (empty when there is none).
pub open spec fn first_token(s: Seq<char>) -> Seq<char> {
    take_until_white(trim_start_spec(s))
}

/// `s` without the suffix `p`, or `s` itself where it does not end with `p`.
pub open spec fn strip_suffix_spec(s: Seq<char>, p: Seq<char>) -> Seq<char> {
    if ends_with_spec(s, p) {
        s.take(s.len() - p.len())
    } else {
        s
    }
}

/// The test identifier that one manifest line names, if it is an instrumented test:
/// the line mentions `test`; trimmed and without a trailing `: test` it ends with the
/// run marker; the identifier is its first token.
pub open spec fn entry_of_line(line: Seq<char>, marker: Seq<char>) -> Option<Seq<char>> {
    if !contains_spec(line, "test"@) {
        None
    } else {
        let entry = strip_suffix_spec(trim_spec(line), ": test"@);
        if !ends_with_spec(entry, marker) || first_token(entry).len() == 0 {
            None
        } else {
            Some(first_token(entry))
        }
    }
}

/// The identifiers named by `lines`, in order.
pub open spec fn entries_of(lines: Seq<Seq<char>>, marker: Seq<char>) -> Seq<Seq<char>>
    decreases lines.len(),
{
    if lines.len() == 0 {
        Seq::<Seq<char>>::empty()
    } else {
        let prev = entries_of(lines.drop_last(), marker);
        match entry_of_line(lines.last(), marker) {
            Some(id) => prev.push(id),
            None => prev,
        }
    }
}

/// The instrumented test identifiers that a test manifest lists, in order.
pub open spec fn discovered(manifest: Seq<char>, marker: Seq<char>) -> Seq<Seq<char>> {
    entries_of(split_lines(manifest), marker)
}

/// Every discovered identifier is non-empty.
pub proof fn lemma_discovered_nonempty(lines: Seq<Seq<char>>, marker: Seq<char>)
    ensures
        forall|k: int|
            0 <= k < entries_of(lines, marker).len() ==> #[trigger] entries_of(lines, marker)[k].len()
                > 0,
    decreases lines.len(),
{
    if lines.len() > 0 {
        lemma_discovered_nonempty(lines.drop_last(), marker);
        let prev = entries_of(lines.drop_last(), marker);
        let all = entries_of(lines, marker);
        assert forall|k: int| 0 <= k < all.len() implies #[trigger] all[k].len() > 0 by {
            if k < prev.len() {
                assert(all[k] == prev[k]);
            }
        }
    }
}

proof fn lemma_split_lines_len(s: Seq<char>)
    ensures
        split_lines(s).len() >= 1,
    decreases s.len(),
{
    if s.len() > 0 {
        lemma_split_lines_len(s.drop_last());
    }
}

/// End of the first run of non-white characters of `s` that starts at `lo`.
fn token_end(s: &Vec<char>, lo: usize) -> (r: usize)
    requires
        lo <= s@.len(),
    ensures
        lo <= r <= s@.len(),
        take_until_white(s@.skip(lo as int)) == s@.subrange(lo as int, r as int),
{
    let mut j: usize = lo;
    while j < s.len() && !crate::text::is_white_space(s[j])
        invariant
            lo <= j <= s@.len(),
            take_until_white(s@.skip(lo as int)) == s@.subrange(lo as int, j as int)
                + take_until_white(s@.skip(j as int)),
        decreases s@.len() - j,
    {
        assert(s@.skip(j as int).drop_first() =~= s@.skip(j + 1));
        assert(s@.subrange(lo as int, j as int) + seq![s@[j as int]] =~= s@.subrange(
            lo as int,
            j + 1,
        ));
        assert(s@.subrange(lo as int, j as int) + (seq![s@[j as int]] + take_until_white(
            s@.skip(j + 1),
        )) =~= s@.subrange(lo as int, j + 1) + take_until_white(s@.skip(j + 1)));
        j = j + 1;
    }
    assert(s@.subrange(lo as int, j as int) + Seq::<char>::empty() =~= s@.subrange(
        lo as int,
        j as int,
    ));
    j
}

fn sub_vec(v: &Vec<char>, lo: usize, hi: usize) -> (r: Vec<char>)
    requires
        lo <= hi <= v@.len(),
    ensures
        r@ == v@.subrange(lo as int, hi as int),
{
    vstd::slice::slice_to_vec(vstd::slice::slice_subrange(v.as_slice(), lo, hi))
}

/// The identifier that the manifest line `line` names, if any.
fn entry_of_line_exec(line: Vec<char>, marker: &Vec<char>, test_word: &Vec<char>, qualifier: &Vec<
    char,
>) -> (r: Option<Vec<char>>)
    requires
        test_word@ == "test"@,
        qualifier@ == ": test"@,
    ensures
        r.is_some() == entry_of_line(line@, marker@).is_some(),
        r.is_some() ==> r.unwrap()@ == entry_of_line(line@, marker@).unwrap(),
{
    if !contains_exec(&line, test_word) {
        return None;
    }
    let lo = trim_start_index(&line);
    let hi = trim_end_index(&line, lo, line.len());
    assert(line@.skip(lo as int) =~= line@.subrange(lo as int, line@.len() as int));
    let trimmed = sub_vec(&line, lo, hi);
    let entry = if ends_with_exec(&trimmed, qualifier) {
        sub_vec(&trimmed, 0, trimmed.len() - qualifier.len())
    } else {
        trimmed
    };
    if !ends_with_exec(&entry, marker) {
        return None;
    }
    let start = trim_start_index(&entry);
    let end = token_end(&entry, start);
    if end == start {
        return None;
    }
    Some(sub_vec(&entry, start, end))
}

/// The instrumented test identifiers that `manifest` lists, in order: the lines that
/// mention `test`, trimmed and without a trailing `: test`, that end with `marker`,
/// each reduced to its first token.
pub fn list_instrumented_tests(manifest: &str, marker: &str) -> (r: Vec<String>)
    ensures
        r.deep_view() == discovered(manifest@, marker@),
{
    let v = chars_of(manifest);
    let m = chars_of(marker);
    let test_word = chars_of("test");
    let qualifier = chars_of(": test");
    let mut res: Vec<String> = Vec::new();
    let mut start: usize = 0;
    let mut i: usize = 0;
    assert(v@.take(0) =~= Seq::<char>::empty());
    while i < v.len()
        invariant
            start <= i <= v@.len(),
            test_word@ == "test"@,
            qualifier@ == ": test"@,
            split_lines(v@.take(i as int)).len() >= 1,
            split_lines(v@.take(i as int)).last() == v@.subrange(start as int, i as int),
            res.deep_view() == entries_of(split_lines(v@.take(i as int)).drop_last(), m@),
        decreases v@.len() - i,
    {
        let ghost prev = split_lines(v@.take(i as int));
        assert(v@.take(i + 1).drop_last() =~= v@.take(i as int));
        assert(v@.take(i + 1).last() == v@[i as int]);
        if v[i] == '\n' {
            let line = sub_vec(&v, start, i);
            let e = entry_of_line_exec(line, &m, &test_word, &qualifier);
            assert(split_lines(v@.take(i + 1)).drop_last() =~= prev);
            assert(prev.drop_last().push(prev.last()) =~= prev);
            match e {
                Some(id) => {
                    res.push(string_of(id.as_slice()));
                    assert(res.deep_view() =~= entries_of(prev, m@));
                },
                None => {},
            }
            start = i + 1;
            assert(v@.subrange(start as int, i + 1) =~= Seq::<char>::empty());
        } else {
            assert(split_lines(v@.take(i + 1)).drop_last() =~= prev.drop_last());
            assert(v@.subrange(start as int, i as int).push(v@[i as int]) =~= v@.subrange(
                start as int,
                i + 1,
            ));
        }
        i = i + 1;
    }
    assert(v@.take(i as int) =~= v@);
    let ghost all = split_lines(v@);
    let line = sub_vec(&v, start, i);
    let e = entry_of_line_exec(line, &m, &test_word, &qualifier);
    assert(all.drop_last().push(all.last()) =~= all);
    match e {
        Some(id) => {
            res.push(string_of(id.as_slice()));
            assert(res.deep_view() =~= entries_of(all, m@));
        },
        None => {},
    }
    res
}

} // verus!
