use vstd::prelude::*;
use crate::aggregate::{MetricRecord, RecordView, run_view, runs_view, combined, sums_fit, combine};
use crate::discovery::{discovered, list_instrumented_tests};
use crate::extract::{HarnessError, MetricsPattern, metrics_captures, extraction_outcome, extract_metrics};
use crate::normalize::{strip_marker_spec, strip_marker, lemma_strip_marker_idempotent};

verus! {

/// What one invocation of the test `id` contributes to a measured pass: a record named
/// by the suffix rule, with the counters of the first metrics line of `output`;
/// nothing where there is no such line.
pub open spec fn measured_record(id: Seq<char>, marker: Seq<char>, output: Seq<char>, duration: u64) -> Result<
    Option<RecordView>,
    HarnessError,
> {
    match extraction_outcome(metrics_captures(output)) {
        Ok(None) => Ok(None),
        Ok(Some((b, i))) => Ok(
            Some(
                RecordView {
                    name: strip_marker_spec(id, marker),
                    duration: duration as nat,
                    blocks: b as nat,
                    instructions: i as nat,
                },
            ),
        ),
        Err(e) => Err(e),
    }
}

/// The record that one invocation of the test `test_id`, which printed `output` and
/// took `duration_nanos`, contributes to a measured pass.
pub fn measurement(
    pattern: &MetricsPattern,
    test_id: &str,
    marker: &str,
    output: &str,
    duration_nanos: u64,
) -> (r: Result<Option<MetricRecord>, HarnessError>)
    ensures
        match (r, measured_record(test_id@, marker@, output@, duration_nanos)) {
            (Ok(Some(m)), Ok(Some(v))) => m@ == v,
            (Ok(None), Ok(None)) => true,
            (Err(e), Err(f)) => e == f,
            _ => false,
        },
        test_id@.len() > 0 ==> match r {
            Ok(Some(m)) => m.name@.len() > 0,
            _ => true,
        },
{
    proof {
        lemma_strip_marker_idempotent(test_id@, marker@);
    }
    let name = strip_marker(test_id, marker);
    match extract_metrics(pattern, output) {
        Ok(None) => Ok(None),
        Ok(Some((blocks, instructions))) => Ok(
            Some(MetricRecord { name, duration_nanos, blocks, instructions }),
        ),
        Err(e) => Err(e),
    }
}

/// The decisions of a benchmark campaign: `warmup` passes whose results are discarded,
/// then `measured` passes whose records are kept, each pass invoking every discovered
/// test once, in discovery order. The caller invokes `next_test` and reports back
/// through `record`.
pub struct Campaign {
    pub tests: Vec<String>,
    pub marker: String,
    pub warmup: usize,
    pub measured: usize,
    /// Index of the current pass; `warmup + measured` once all are done.
    pub pass: usize,
    /// Index in `tests` of the next test of the current pass.
    pub next: usize,
    /// Records of the current measured pass so far.
    pub current: Vec<MetricRecord>,
    /// Records of the completed measured passes.
    pub runs: Vec<Vec<MetricRecord>>,
    pub pattern: MetricsPattern,
}

/// The number of measured passes completed before pass `pass`.
pub open spec fn measured_done(warmup: nat, pass: nat) -> nat {
    if pass > warmup {
        (pass - warmup) as nat
    } else {
        0
    }
}

impl Campaign {
    /// The campaign's position and collected records are consistent.
    pub open spec fn wf(&self) -> bool {
        &&& self.warmup + self.measured <= usize::MAX
        &&& self.pass <= self.warmup + self.measured
        &&& self.tests@.len() == 0 ==> self.pass == self.warmup + self.measured
        &&& self.pass < self.warmup + self.measured ==> self.next < self.tests@.len()
        &&& self.pass == self.warmup + self.measured ==> self.next == 0
        &&& self.runs@.len() == measured_done(self.warmup as nat, self.pass as nat)
        &&& self.pass < self.warmup ==> self.current@.len() == 0
        &&& self.pass == self.warmup + self.measured ==> self.current@.len() == 0
        &&& forall|k: int| 0 <= k < self.tests@.len() ==> (#[trigger] self.tests@[k])@.len() > 0
    }

    /// All passes are done.
    pub open spec fn done(&self) -> bool {
        self.pass == self.warmup + self.measured
    }

    /// Starts a campaign on the test manifest, if it could be obtained; no test is
    /// invoked before that.
    pub fn start(
        manifest: Option<&str>,
        marker: &str,
        warmup: usize,
        measured: usize,
        pattern: MetricsPattern,
    ) -> (r: Result<Campaign, HarnessError>)
        ensures
            manifest.is_none() ==> r == Err::<Campaign, HarnessError>(
                HarnessError::ManifestUnavailable,
            ),
            manifest.is_some() && warmup + measured <= usize::MAX ==> r.is_ok(),
            manifest.is_some() && warmup + measured > usize::MAX ==> r == Err::<
                Campaign,
                HarnessError,
            >(HarnessError::SumOverflow),
            r.is_ok() ==> {
                let c = r.unwrap();
                &&& c.wf()
                &&& c.tests.deep_view() == discovered(manifest.unwrap()@, marker@)
                &&& c.marker@ == marker@
                &&& c.warmup == warmup
                &&& c.measured == measured
                &&& c.tests@.len() > 0 ==> c.pass == 0 && c.next == 0
                &&& c.tests@.len() > 0 ==> c.runs@.len() == 0 && c.current@.len() == 0
                &&& c.tests@.len() == 0 ==> runs_view(c.runs@) == Seq::new(
                    measured as nat,
                    |k: int| Seq::<RecordView>::empty(),
                )
            },
    {
        let text = match manifest {
            None => return Err(HarnessError::ManifestUnavailable),
            Some(t) => t,
        };
        if warmup > usize::MAX - measured {
            return Err(HarnessError::SumOverflow);
        }
        let tests = list_instrumented_tests(text, marker);
        proof {
            crate::discovery::lemma_discovered_nonempty(
                crate::discovery::split_lines(text@),
                marker@,
            );
            assert forall|k: int| 0 <= k < tests@.len() implies (#[trigger] tests@[k])@.len() > 0 by {
                assert(tests.deep_view()[k] == tests@[k]@);
            }
        }
        let mut runs: Vec<Vec<MetricRecord>> = Vec::new();
        let mut pass: usize = 0;
        if tests.len() == 0 {
            let mut k: usize = 0;
            while k < measured
                invariant
                    k <= measured,
                    runs_view(runs@) == Seq::new(k as nat, |q: int| Seq::<RecordView>::empty()),
                decreases measured - k,
            {
                let ghost before = runs@;
                let empty: Vec<MetricRecord> = Vec::new();
                assert(run_view(empty@) =~= Seq::<RecordView>::empty());
                runs.push(empty);
                assert(runs_view(runs@) =~= runs_view(before).push(Seq::<RecordView>::empty()));
                assert(runs_view(runs@) =~= Seq::new((k + 1) as nat, |q: int| Seq::<RecordView>::empty()));
                k = k + 1;
            }
            pass = warmup + measured;
        }
        Ok(
            Campaign {
                tests,
                marker: crate::text::owned(marker),
                warmup,
                measured,
                pass,
                next: 0,
                current: Vec::new(),
                runs,
                pattern,
            },
        )
    }

    /// The identifier of the test to invoke next, or `None` once every pass is done.
    pub fn next_test(&self) -> (r: Option<String>)
        requires
            self.wf(),
        ensures
            self.done() ==> r.is_none(),
            !self.done() ==> r.is_some() && r.unwrap()@ == self.tests@[self.next as int]@,
    {
        if self.pass == self.warmup + self.measured {
            None
        } else {
            Some(self.tests[self.next].clone())
        }
    }

    /// Takes in what the test named by `next_test` printed and how long its invocation
    /// took, and moves to the next test. In a warmup pass the output is not looked at;
    /// in a measured pass its record, if any, joins the pass, and the pass joins `runs`
    /// when it is complete. A malformed metrics line ends the campaign with an error.
    pub fn record(&mut self, output: &str, duration_nanos: u64) -> (r: Result<(), HarnessError>)
        requires
            old(self).wf(),
            !old(self).done(),
        ensures
            ({
                let o = *old(self);
                let f = *final(self);
                let id = o.tests@[o.next as int]@;
                let outcome = measured_record(id, o.marker@, output@, duration_nanos);
                let in_warmup = o.pass < o.warmup;
                let added = if in_warmup {
                    run_view(o.current@)
                } else {
                    match outcome {
                        Ok(Some(v)) => run_view(o.current@).push(v),
                        _ => run_view(o.current@),
                    }
                };
                let last_of_pass = o.next + 1 == o.tests@.len();
                &&& r.is_err() <==> (!in_warmup && outcome.is_err())
                &&& match outcome {
                    Ok(Some(v)) => v.name.len() > 0,
                    _ => true,
                }
                &&& r.is_err() ==> r == Err::<(), HarnessError>(outcome->Err_0)
                &&& r.is_ok() ==> {
                    &&& f.wf()
                    &&& f.tests == o.tests
                    &&& f.marker == o.marker
                    &&& f.warmup == o.warmup
                    &&& f.measured == o.measured
                    &&& f.pass == if last_of_pass { o.pass + 1 } else { o.pass as int }
                    &&& f.next == if last_of_pass { 0 } else { o.next + 1 }
                    &&& (last_of_pass && !in_warmup) ==> runs_view(f.runs@) == runs_view(o.runs@).push(added)
                        && f.current@.len() == 0
                    &&& !(last_of_pass && !in_warmup) ==> runs_view(f.runs@) == runs_view(o.runs@)
                        && run_view(f.current@) == added
                }
            }),
    {
        proof {
            lemma_strip_marker_idempotent(self.tests@[self.next as int]@, self.marker@);
        }
        let in_warmup = self.pass < self.warmup;
        let last_of_pass = self.next == self.tests.len() - 1;
        if !in_warmup {
            let id = self.tests[self.next].clone();
            match measurement(&self.pattern, id.as_str(), self.marker.as_str(), output, duration_nanos) {
                Ok(Some(m)) => {
                    let ghost before = self.current@;
                    self.current.push(m);
                    assert(run_view(self.current@) =~= run_view(before).push(self.current@.last()@));
                },
                Ok(None) => {},
                Err(e) => return Err(e),
            }
        }
        if last_of_pass {
            self.next = 0;
            self.pass = self.pass + 1;
            if !in_warmup {
                let ghost before = self.runs@;
                let mut finished: Vec<MetricRecord> = Vec::new();
                core::mem::swap(&mut finished, &mut self.current);
                self.runs.push(finished);
                assert(runs_view(self.runs@) =~= runs_view(before).push(run_view(finished@)));
            }
        } else {
            self.next = self.next + 1;
        }
        Ok(())
    }

    /// The aggregated report of the measured passes, once every pass is done.
    pub fn finish(&self) -> (r: Result<Vec<MetricRecord>, HarnessError>)
        requires
            self.wf(),
            self.done(),
        ensures
            self.runs@.len() == self.measured,
            r.is_ok() == sums_fit(runs_view(self.runs@)),
            r.is_ok() ==> run_view(r.unwrap()@) == combined(runs_view(self.runs@)),
            r.is_err() ==> r == Err::<Vec<MetricRecord>, HarnessError>(HarnessError::SumOverflow),
    {
        match combine(self.runs.as_slice()) {
            Some(v) => Ok(v),
            None => Err(HarnessError::SumOverflow),
        }
    }
}

} // verus!
