use vstd::prelude::*;

verus! {

/// The measurements of one test in one pass, or their average over a campaign.
/// `duration_nanos` is the wall-clock time of the invocation in nanoseconds.
pub struct MetricRecord {
    pub name: String,
    pub duration_nanos: u64,
    pub blocks: u64,
    pub instructions: u64,
}

/// A record as plain values; sums of records are records too.
pub ghost struct RecordView {
    pub name: Seq<char>,
    pub duration: nat,
    pub blocks: nat,
    pub instructions: nat,
}

impl View for MetricRecord {
    type V = RecordView;

    open spec fn view(&self) -> RecordView {
        RecordView {
            name: self.name@,
            duration: self.duration_nanos as nat,
            blocks: self.blocks as nat,
            instructions: self.instructions as nat,
        }
    }
}

/// The records of a pass as plain values.
pub open spec fn run_view(run: Seq<MetricRecord>) -> Seq<RecordView> {
    run.map_values(|m: MetricRecord| m@)
}

/// The passes of a campaign as plain values.
pub open spec fn runs_view(runs: Seq<Vec<MetricRecord>>) -> Seq<Seq<RecordView>> {
    runs.map_values(|v: Vec<MetricRecord>| run_view(v@))
}

/// The records of all passes, one pass after another.
pub open spec fn all_records(rs: Seq<Seq<RecordView>>) -> Seq<RecordView>
    decreases rs.len(),
{
    if rs.len() == 0 {
        Seq::<RecordView>::empty()
    } else {
        all_records(rs.drop_last()) + rs.last()
    }
}

/// The distinct names of `s`, in the order of their first occurrence.
pub open spec fn first_seen(s: Seq<RecordView>) -> Seq<Seq<char>>
    decreases s.len(),
{
    if s.len() == 0 {
        Seq::<Seq<char>>::empty()
    } else {
        let prev = first_seen(s.drop_last());
        if prev.contains(s.last().name) {
            prev
        } else {
            prev.push(s.last().name)
        }
    }
}

/// The sums of the fields of the records of `s` named `n`.
pub open spec fn totals(s: Seq<RecordView>, n: Seq<char>) -> RecordView
    decreases s.len(),
{
    if s.len() == 0 {
        RecordView { name: n, duration: 0, blocks: 0, instructions: 0 }
    } else {
        let prev = totals(s.drop_last(), n);
        if s.last().name == n {
            RecordView {
                name: n,
                duration: prev.duration + s.last().duration,
                blocks: prev.blocks + s.last().blocks,
                instructions: prev.instructions + s.last().instructions,
            }
        } else {
            prev
        }
    }
}

/// Every field of `t` fits in `u64`.
pub open spec fn fits(t: RecordView) -> bool {
    t.duration <= u64::MAX && t.blocks <= u64::MAX && t.instructions <= u64::MAX
}

/// Each field of `t` divided by `k`, rounded down.
pub open spec fn averaged(t: RecordView, k: nat) -> RecordView {
    RecordView {
        name: t.name,
        duration: t.duration / k,
        blocks: t.blocks / k,
        instructions: t.instructions / k,
    }
}

/// The aggregate of the passes `rs`: one record per distinct name, in order of first
/// occurrence, each field summed over every pass and divided by the number of passes
/// (also where the test is missing from some of them).
pub open spec fn combined(rs: Seq<Seq<RecordView>>) -> Seq<RecordView> {
    first_seen(all_records(rs)).map_values(
        |n: Seq<char>| averaged(totals(all_records(rs), n), rs.len()),
    )
}

/// No per-name sum of the passes `rs` overflows `u64`.
pub open spec fn sums_fit(rs: Seq<Seq<RecordView>>) -> bool {
    forall|n: Seq<char>| #[trigger] fits(totals(all_records(rs), n))
}

proof fn lemma_totals_append(x: Seq<RecordView>, y: Seq<RecordView>, n: Seq<char>)
    ensures
        totals(x + y, n).duration == totals(x, n).duration + totals(y, n).duration,
        totals(x + y, n).blocks == totals(x, n).blocks + totals(y, n).blocks,
        totals(x + y, n).instructions == totals(x, n).instructions + totals(y, n).instructions,
    decreases y.len(),
{
    if y.len() == 0 {
        assert(x + y =~= x);
    } else {
        assert((x + y).drop_last() =~= x + y.drop_last());
        lemma_totals_append(x, y.drop_last(), n);
    }
}

proof fn lemma_all_records_split(rs: Seq<Seq<RecordView>>, i: int)
    requires
        0 <= i <= rs.len(),
    ensures
        all_records(rs) == all_records(rs.take(i)) + all_records(rs.skip(i)),
    decreases rs.len(),
{
    if i == rs.len() {
        assert(rs.take(i) =~= rs);
        assert(rs.skip(i) =~= Seq::<Seq<RecordView>>::empty());
        assert(all_records(rs) + Seq::<RecordView>::empty() =~= all_records(rs));
    } else {
        lemma_all_records_split(rs.drop_last(), i);
        assert(rs.drop_last().take(i) =~= rs.take(i));
        assert(rs.skip(i).drop_last() =~= rs.drop_last().skip(i));
        assert(rs.skip(i).last() == rs.last());
        assert(all_records(rs.take(i)) + all_records(rs.drop_last().skip(i)) + rs.last()
            =~= all_records(rs.take(i)) + (all_records(rs.drop_last().skip(i)) + rs.last()));
    }
}

/// The records seen before the `j`-th record of the `i`-th pass.
pub open spec fn seen_before(rs: Seq<Seq<RecordView>>, i: int, j: int) -> Seq<RecordView> {
    all_records(rs.take(i)) + rs[i].take(j)
}

proof fn lemma_seen_before_bound(rs: Seq<Seq<RecordView>>, i: int, j: int, n: Seq<char>)
    requires
        0 <= i < rs.len(),
        0 <= j <= rs[i].len(),
    ensures
        totals(seen_before(rs, i, j), n).duration <= totals(all_records(rs), n).duration,
        totals(seen_before(rs, i, j), n).blocks <= totals(all_records(rs), n).blocks,
        totals(seen_before(rs, i, j), n).instructions <= totals(all_records(rs), n).instructions,
{
    lemma_all_records_split(rs, i);
    let tail = rs.skip(i);
    lemma_all_records_split(tail, 1);
    assert(tail.take(1).drop_last() =~= Seq::<Seq<RecordView>>::empty());
    assert(all_records(tail.take(1).drop_last()) =~= Seq::<RecordView>::empty());
    assert(tail.take(1).last() == rs[i]);
    assert(Seq::<RecordView>::empty() + rs[i] =~= rs[i]);
    assert(all_records(tail.take(1)) =~= rs[i]);
    let rest = rs[i].skip(j) + all_records(tail.skip(1));
    assert(all_records(rs) =~= seen_before(rs, i, j) + rest);
    lemma_totals_append(seen_before(rs, i, j), rest, n);
}

proof fn lemma_seen_before_next_run(rs: Seq<Seq<RecordView>>, i: int)
    requires
        0 <= i < rs.len(),
    ensures
        seen_before(rs, i, rs[i].len() as int) == all_records(rs.take(i + 1)),
{
    assert(rs.take(i + 1).drop_last() =~= rs.take(i));
    assert(rs[i].take(rs[i].len() as int) =~= rs[i]);
}

/// The records of `acc` hold the sums, per name, of the records of `s`, in order of
/// first occurrence.
pub open spec fn holds_totals(acc: Seq<MetricRecord>, s: Seq<RecordView>) -> bool {
    &&& acc.len() == first_seen(s).len()
    &&& forall|k: int| 0 <= k < acc.len() ==> #[trigger] acc[k]@ == totals(s, first_seen(s)[k])
}

/// Position of the record named `name` in `acc`, if any.
fn position_of(acc: &Vec<MetricRecord>, name: &String) -> (r: Option<usize>)
    ensures
        r.is_some() ==> r.unwrap() < acc@.len() && acc@[r.unwrap() as int].name@ == name@,
        r.is_none() ==> forall|k: int| 0 <= k < acc@.len() ==> acc@[k].name@ != name@,
{
    let mut k: usize = 0;
    while k < acc.len()
        invariant
            k <= acc@.len(),
            forall|m: int| 0 <= m < k ==> acc@[m].name@ != name@,
        decreases acc@.len() - k,
    {
        if acc[k].name == *name {
            return Some(k);
        }
        k = k + 1;
    }
    None
}

proof fn lemma_first_seen_distinct(s: Seq<RecordView>)
    ensures
        forall|a: int, b: int|
            0 <= a < b < first_seen(s).len() ==> first_seen(s)[a] != first_seen(s)[b],
    decreases s.len(),
{
    if s.len() > 0 {
        lemma_first_seen_distinct(s.drop_last());
        let prev = first_seen(s.drop_last());
        if !prev.contains(s.last().name) {
            assert forall|a: int| 0 <= a < prev.len() implies prev[a] != s.last().name by {
                if prev[a] == s.last().name {
                    assert(prev.contains(s.last().name));
                }
            }
        }
    }
}

proof fn lemma_totals_name(s: Seq<RecordView>, n: Seq<char>)
    ensures
        totals(s, n).name == n,
    decreases s.len(),
{
    if s.len() > 0 {
        lemma_totals_name(s.drop_last(), n);
    }
}

/// Adds the record `m` to the sums `acc` of the records seen before it.
/// Returns `false`, and leaves `acc` as a partial result, where a sum would overflow.
fn absorb(acc: &mut Vec<MetricRecord>, m: &MetricRecord, Ghost(seen): Ghost<Seq<RecordView>>) -> (ok: bool)
    requires
        holds_totals(old(acc)@, seen),
    ensures
        ok == fits(totals(seen.push(m@), m@.name)),
        ok ==> holds_totals(final(acc)@, seen.push(m@)),
{
    let ghost s2 = seen.push(m@);
    assert(s2.drop_last() =~= seen);
    proof {
        lemma_first_seen_distinct(seen);
    }
    match position_of(acc, &m.name) {
        Some(k) => {
            let ghost names = first_seen(seen);
            assert(acc@[k as int]@ == totals(seen, names[k as int]));
            proof {
                lemma_totals_name(seen, names[k as int]);
            }
            assert(totals(s2, m@.name).duration == totals(seen, m@.name).duration + m@.duration);
            assert(totals(s2, m@.name).blocks == totals(seen, m@.name).blocks + m@.blocks);
            assert(totals(s2, m@.name).instructions == totals(seen, m@.name).instructions
                + m@.instructions);
            assert(names.contains(m@.name)) by {
                assert(names[k as int] == m@.name);
            }
            let duration_nanos = match acc[k].duration_nanos.checked_add(m.duration_nanos) {
                Some(x) => x,
                None => return false,
            };
            let blocks = match acc[k].blocks.checked_add(m.blocks) {
                Some(x) => x,
                None => return false,
            };
            let instructions = match acc[k].instructions.checked_add(m.instructions) {
                Some(x) => x,
                None => return false,
            };
            let updated = MetricRecord {
                name: acc[k].name.clone(),
                duration_nanos,
                blocks,
                instructions,
            };
            acc.set(k, updated);
            assert forall|q: int| 0 <= q < acc@.len() implies #[trigger] acc@[q]@ == totals(
                s2,
                first_seen(s2)[q],
            ) by {
                if q != k {
                    assert(names[q] != names[k as int]);
                }
            }
        },
        None => {
            let ghost names = first_seen(seen);
            assert(!names.contains(m@.name)) by {
                if names.contains(m@.name) {
                    let q = choose|q: int| 0 <= q < names.len() && names[q] == m@.name;
                    assert(acc@[q]@ == totals(seen, names[q]));
                    lemma_totals_name(seen, names[q]);
                    assert(acc@[q].name@ == m@.name);
                }
            }
            assert(totals(seen, m@.name) == RecordView {
                name: m@.name,
                duration: 0,
                blocks: 0,
                instructions: 0,
            }) by {
                lemma_totals_absent(seen, m@.name);
            }
            acc.push(
                MetricRecord {
                    name: m.name.clone(),
                    duration_nanos: m.duration_nanos,
                    blocks: m.blocks,
                    instructions: m.instructions,
                },
            );
            assert forall|q: int| 0 <= q < acc@.len() implies #[trigger] acc@[q]@ == totals(
                s2,
                first_seen(s2)[q],
            ) by {
                if q < names.len() {
                    assert(names[q] != m@.name);
                }
            }
        },
    }
    true
}

proof fn lemma_totals_absent(s: Seq<RecordView>, n: Seq<char>)
    requires
        !first_seen(s).contains(n),
    ensures
        totals(s, n) == (RecordView { name: n, duration: 0, blocks: 0, instructions: 0 }),
    decreases s.len(),
{
    if s.len() > 0 {
        let prev = first_seen(s.drop_last());
        if prev.contains(n) {
            let q = choose|q: int| 0 <= q < prev.len() && prev[q] == n;
            if !prev.contains(s.last().name) {
                assert(first_seen(s)[q] == n);
            } else {
                assert(first_seen(s)[q] == n);
            }
        }
        if s.last().name == n {
            if !prev.contains(s.last().name) {
                assert(first_seen(s)[prev.len() as int] == n);
            }
        }
        lemma_totals_absent(s.drop_last(), n);
    }
}

/// Combines the measured passes `runs` into one record per distinct test name, in
/// order of first occurrence: each field is summed over every pass in which the name
/// occurs and divided, rounding down, by the total number of passes. `None` where a
/// per-name sum does not fit in `u64`.
pub fn combine(runs: &[Vec<MetricRecord>]) -> (r: Option<Vec<MetricRecord>>)
    ensures
        r.is_some() == sums_fit(runs_view(runs@)),
        r.is_some() ==> run_view(r.unwrap()@) == combined(runs_view(runs@)),
{
    let ghost rs = runs_view(runs@);
    if runs.len() == 0 {
        assert(rs =~= Seq::<Seq<RecordView>>::empty());
        assert(combined(rs) =~= Seq::<RecordView>::empty());
        let r: Vec<MetricRecord> = Vec::new();
        assert(run_view(r@) =~= Seq::<RecordView>::empty());
        assert forall|n: Seq<char>| #[trigger] fits(totals(all_records(rs), n)) by {
            assert(all_records(rs) =~= Seq::<RecordView>::empty());
        }
        return Some(r);
    }
    let mut acc: Vec<MetricRecord> = Vec::new();
    let mut i: usize = 0;
    assert(rs.take(0) =~= Seq::<Seq<RecordView>>::empty());
    while i < runs.len()
        invariant
            i <= runs@.len(),
            rs == runs_view(runs@),
            holds_totals(acc@, all_records(rs.take(i as int))),
        decreases runs@.len() - i,
    {
        let run = &runs[i];
        let mut j: usize = 0;
        assert(rs[i as int] == run_view(run@));
        assert(all_records(rs.take(i as int)) + rs[i as int].take(0) =~= all_records(
            rs.take(i as int),
        ));
        while j < run.len()
            invariant
                i < runs@.len(),
                j <= run@.len(),
                rs == runs_view(runs@),
                rs[i as int] == run_view(run@),
                holds_totals(acc@, seen_before(rs, i as int, j as int)),
            decreases run@.len() - j,
        {
            let ghost seen = seen_before(rs, i as int, j as int);
            assert(rs[i as int].take(j + 1) =~= rs[i as int].take(j as int).push(run@[j as int]@));
            assert(seen_before(rs, i as int, j + 1) =~= seen.push(run@[j as int]@));
            if !absorb(&mut acc, &run[j], Ghost(seen)) {
                proof {
                    lemma_seen_before_bound(rs, i as int, j + 1, run@[j as int]@.name);
                    assert(!fits(totals(all_records(rs), run@[j as int]@.name)));
                }
                return None;
            }
            j = j + 1;
        }
        proof {
            lemma_seen_before_next_run(rs, i as int);
        }
        i = i + 1;
    }
    assert(rs.take(i as int) =~= rs);
    let ghost all = all_records(rs);
    assert forall|n: Seq<char>| #[trigger] fits(totals(all_records(rs), n)) by {
        let names = first_seen(all);
        if names.contains(n) {
            let q = choose|q: int| 0 <= q < names.len() && names[q] == n;
            assert(acc@[q]@ == totals(all, names[q]));
        } else {
            lemma_totals_absent(all, n);
        }
    }
    let count: u64 = runs.len() as u64;
    let mut out: Vec<MetricRecord> = Vec::new();
    let mut k: usize = 0;
    while k < acc.len()
        invariant
            count as nat == rs.len(),
            count > 0,
            holds_totals(acc@, all),
            all == all_records(rs),
            k <= acc@.len(),
            run_view(out@) == combined(rs).take(k as int),
        decreases acc@.len() - k,
    {
        let a = &acc[k];
        let avg = MetricRecord {
            name: a.name.clone(),
            duration_nanos: a.duration_nanos / count,
            blocks: a.blocks / count,
            instructions: a.instructions / count,
        };
        proof {
            lemma_totals_name(all, first_seen(all)[k as int]);
        }
        assert(acc@[k as int]@ == totals(all, first_seen(all)[k as int]));
        assert(combined(rs)[k as int] == averaged(totals(all, first_seen(all)[k as int]), rs.len()));
        assert(avg@ =~= combined(rs)[k as int]);
        let ghost before = out@;
        out.push(avg);
        assert(run_view(out@) =~= run_view(before).push(avg@));
        assert(run_view(out@) =~= combined(rs).take(k + 1));
        k = k + 1;
    }
    assert(combined(rs).take(k as int) =~= combined(rs));
    Some(out)
}

/// No two records of `run` share a name.
pub open spec fn distinct_names(run: Seq<RecordView>) -> bool {
    forall|a: int, b: int| 0 <= a < b < run.len() ==> run[a].name != run[b].name
}

proof fn lemma_distinct_run(run: Seq<RecordView>)
    requires
        distinct_names(run),
    ensures
        first_seen(run) == run.map_values(|m: RecordView| m.name),
        forall|k: int| 0 <= k < run.len() ==> totals(run, #[trigger] run[k].name) == run[k],
    decreases run.len(),
{
    if run.len() > 0 {
        let prev = run.drop_last();
        lemma_distinct_run(prev);
        let names = prev.map_values(|m: RecordView| m.name);
        assert(!names.contains(run.last().name)) by {
            if names.contains(run.last().name) {
                let q = choose|q: int| 0 <= q < names.len() && names[q] == run.last().name;
                assert(run[q].name == run[run.len() - 1].name);
            }
        }
        assert(run.map_values(|m: RecordView| m.name) =~= names.push(run.last().name));
        assert forall|k: int| 0 <= k < run.len() implies totals(run, #[trigger] run[k].name)
            == run[k] by {
            if k < run.len() - 1 {
                assert(prev[k] == run[k]);
                assert(run[k].name != run[run.len() - 1].name);
            } else {
                assert(!first_seen(prev).contains(run.last().name));
                lemma_totals_absent(prev, run.last().name);
            }
        }
    }
}

/// A campaign of one measured pass reports that pass unchanged, where no two of its
/// records share a name; its sums then fit, so `combine` succeeds on it.
pub proof fn lemma_single_pass_unchanged(run: Seq<RecordView>)
    requires
        distinct_names(run),
        forall|k: int| 0 <= k < run.len() ==> fits(#[trigger] run[k]),
    ensures
        combined(seq![run]) == run,
        sums_fit(seq![run]),
{
    let rs = seq![run];
    assert(rs.drop_last() =~= Seq::<Seq<RecordView>>::empty());
    assert(Seq::<RecordView>::empty() + run =~= run);
    assert(all_records(rs) == all_records(rs.drop_last()) + rs.last());
    assert(all_records(rs) =~= run);
    lemma_distinct_run(run);
    assert forall|k: int| 0 <= k < run.len() implies #[trigger] combined(rs)[k] == run[k] by {
        let t = totals(run, run[k].name);
        assert(t == run[k]);
        assert(averaged(t, 1) =~= t);
    }
    assert(combined(rs) =~= run);
    assert forall|n: Seq<char>| #[trigger] fits(totals(all_records(rs), n)) by {
        let names = run.map_values(|m: RecordView| m.name);
        if names.contains(n) {
            let k = choose|k: int| 0 <= k < names.len() && names[k] == n;
            assert(run[k].name == n);
            assert(totals(run, run[k].name) == run[k]);
        } else {
            lemma_totals_absent(run, n);
        }
    }
}

/// Each aggregated record is its name's sums over all passes divided by the number of
/// passes, also where the name is missing from some passes; counters and durations
/// are rounded down.
pub proof fn lemma_average_over_all_passes(rs: Seq<Seq<RecordView>>, k: int)
    requires
        0 <= k < combined(rs).len(),
    ensures
        rs.len() > 0,
        ({
            let n = rs.len() as int;
            let t = totals(all_records(rs), first_seen(all_records(rs))[k]);
            let c = combined(rs)[k];
            &&& c.name == first_seen(all_records(rs))[k]
            &&& c.duration * n <= t.duration < (c.duration + 1) * n
            &&& c.blocks * n <= t.blocks < (c.blocks + 1) * n
            &&& c.instructions * n <= t.instructions < (c.instructions + 1) * n
        }),
{
    if rs.len() == 0 {
        assert(all_records(rs) =~= Seq::<RecordView>::empty());
        assert(first_seen(all_records(rs)) =~= Seq::<Seq<char>>::empty());
    }
    let n = rs.len() as int;
    let a = first_seen(all_records(rs))[k];
    let t = totals(all_records(rs), a);
    lemma_totals_name(all_records(rs), a);
    lemma_floor_bounds(t.duration as int, n);
    lemma_floor_bounds(t.blocks as int, n);
    lemma_floor_bounds(t.instructions as int, n);
}

proof fn lemma_floor_bounds(x: int, n: int)
    requires
        x >= 0,
        n > 0,
    ensures
        (x / n) * n <= x < (x / n + 1) * n,
{
    vstd::arithmetic::div_mod::lemma_fundamental_div_mod(x, n);
    vstd::arithmetic::div_mod::lemma_mod_bound(x, n);
    assert((x / n + 1) * n == (x / n) * n + n) by (nonlinear_arith);
    assert(n * (x / n) == (x / n) * n) by (nonlinear_arith);
}

} // verus!
