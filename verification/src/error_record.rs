use vstd::prelude::*;

use crate::error::MicrodeError;
use crate::execution_result::MicrodeExecutionResult;

verus! {

/// How much a lifecycle failure weighs when the final result is reported.
#[derive(Debug, Clone, Copy, PartialEq, Eq, Structural)]
pub enum ErrorPriority {
    Lifecycle,
    Execution,
    Stop,
    StopRequest,
}

/// A recorded failure: its message and its priority.
pub type RecordedView = (Seq<char>, ErrorPriority);

/// The rank of a priority; a higher rank is reported first.
pub open spec fn priority_rank(priority: ErrorPriority) -> int {
    match priority {
        ErrorPriority::Lifecycle => 0,
        ErrorPriority::Execution => 1,
        ErrorPriority::Stop => 2,
        ErrorPriority::StopRequest => 3,
    }
}

/// The recorded failures of one priority, in the order they were recorded.
pub open spec fn with_priority(recorded: Seq<RecordedView>, priority: ErrorPriority) -> Seq<
    RecordedView,
>
    decreases recorded.len(),
{
    if recorded.len() == 0 {
        Seq::empty()
    } else {
        let earlier = with_priority(recorded.drop_last(), priority);
        if recorded.last().1 == priority {
            earlier.push(recorded.last())
        } else {
            earlier
        }
    }
}

/// The recorded failures ordered by priority, highest first, and within one
/// priority by the order in which they were recorded.
pub open spec fn ranked(recorded: Seq<RecordedView>) -> Seq<RecordedView> {
    with_priority(recorded, ErrorPriority::StopRequest) + with_priority(
        recorded,
        ErrorPriority::Stop,
    ) + with_priority(recorded, ErrorPriority::Execution) + with_priority(
        recorded,
        ErrorPriority::Lifecycle,
    )
}

/// The messages of a sequence of errors.
pub open spec fn messages(errors: Seq<MicrodeError>) -> Seq<Seq<char>> {
    errors.map_values(|error: MicrodeError| error@)
}

/// The messages of ranked failures.
pub open spec fn ranked_messages(recorded: Seq<RecordedView>) -> Seq<Seq<char>> {
    ranked(recorded).map_values(|entry: RecordedView| entry.0)
}

/// The result reported for the recorded failures and the exit code that a
/// stop request asked for.
pub open spec fn result_matches(
    result: MicrodeExecutionResult,
    recorded: Seq<RecordedView>,
    exit_code: Option<i32>,
) -> bool {
    if recorded.len() == 0 {
        &&& result.exit_code == (match exit_code {
            Some(code) => code,
            None => 0i32,
        })
        &&& result.error is None
        &&& result.errors is None
    } else {
        &&& result.exit_code == (match exit_code {
            Some(code) => code,
            None => 1i32,
        })
        &&& result.error matches Some(first) && first@ == ranked_messages(recorded)[0]
        &&& if recorded.len() > 1 {
            result.errors matches Some(all) && messages(all@) == ranked_messages(recorded)
        } else {
            result.errors is None
        }
    }
}

/// Collects lifecycle failures with their priority and turns them into the
/// final execution result.
pub struct ErrorRecorder {
    errors: Vec<(MicrodeError, ErrorPriority)>,
}

impl View for ErrorRecorder {
    type V = Seq<RecordedView>;

    closed spec fn view(&self) -> Seq<RecordedView> {
        self.errors@.map_values(|entry: (MicrodeError, ErrorPriority)| (entry.0@, entry.1))
    }
}

proof fn lemma_with_priority_len(recorded: Seq<RecordedView>, priority: ErrorPriority)
    ensures
        with_priority(recorded, priority).len() <= recorded.len(),
    decreases recorded.len(),
{
    if recorded.len() > 0 {
        lemma_with_priority_len(recorded.drop_last(), priority);
    }
}

/// Every entry kept for a priority has that priority.
pub proof fn lemma_with_priority_entries(recorded: Seq<RecordedView>, priority: ErrorPriority)
    ensures
        forall|i: int|
            0 <= i < with_priority(recorded, priority).len() ==> #[trigger] with_priority(
                recorded,
                priority,
            )[i].1 == priority,
    decreases recorded.len(),
{
    if recorded.len() > 0 {
        lemma_with_priority_entries(recorded.drop_last(), priority);
    }
}

proof fn lemma_with_priority_multiset(recorded: Seq<RecordedView>)
    ensures
        ranked(recorded).to_multiset() =~= recorded.to_multiset(),
    decreases recorded.len(),
{
    broadcast use vstd::seq_lib::group_seq_properties;
    broadcast use vstd::multiset::group_multiset_axioms;

    if recorded.len() == 0 {
        assert(ranked(recorded) =~= Seq::<RecordedView>::empty());
    } else {
        let earlier = recorded.drop_last();
        let x = recorded.last();
        lemma_with_priority_multiset(earlier);
        assert(recorded =~= earlier.push(x));
        let a = with_priority(earlier, ErrorPriority::StopRequest);
        let b = with_priority(earlier, ErrorPriority::Stop);
        let c = with_priority(earlier, ErrorPriority::Execution);
        let d = with_priority(earlier, ErrorPriority::Lifecycle);
        vstd::seq_lib::lemma_multiset_commutative(a + b + c, d);
        vstd::seq_lib::lemma_multiset_commutative(a + b, c);
        vstd::seq_lib::lemma_multiset_commutative(a, b);
        let a2 = with_priority(recorded, ErrorPriority::StopRequest);
        let b2 = with_priority(recorded, ErrorPriority::Stop);
        let c2 = with_priority(recorded, ErrorPriority::Execution);
        let d2 = with_priority(recorded, ErrorPriority::Lifecycle);
        vstd::seq_lib::lemma_multiset_commutative(a2 + b2 + c2, d2);
        vstd::seq_lib::lemma_multiset_commutative(a2 + b2, c2);
        vstd::seq_lib::lemma_multiset_commutative(a2, b2);
        assert(ranked(recorded) == a2 + b2 + c2 + d2);
        assert(ranked(earlier) == a + b + c + d);
        vstd::seq_lib::to_multiset_build(earlier, x);
        vstd::seq_lib::to_multiset_build(a, x);
        vstd::seq_lib::to_multiset_build(b, x);
        vstd::seq_lib::to_multiset_build(c, x);
        vstd::seq_lib::to_multiset_build(d, x);
    }
}

/// Ranking keeps every recorded failure exactly once: the ranked failures
/// are a permutation of the recorded ones.
pub proof fn lemma_ranked_is_permutation(recorded: Seq<RecordedView>)
    ensures
        ranked(recorded).to_multiset() == recorded.to_multiset(),
        ranked(recorded).len() == recorded.len(),
{
    lemma_with_priority_multiset(recorded);
    vstd::seq_lib::to_multiset_len(recorded);
    vstd::seq_lib::to_multiset_len(ranked(recorded));
}

impl Default for ErrorRecorder {
    fn default() -> (recorder: Self)
        ensures
            recorder@ == Seq::<RecordedView>::empty(),
    {
        ErrorRecorder::new()
    }
}

/// Ranked failures never put a lower priority before a higher one.
pub proof fn lemma_ranked_priority_order(recorded: Seq<RecordedView>, i: int, j: int)
    requires
        0 <= i < j < ranked(recorded).len(),
    ensures
        priority_rank(ranked(recorded)[i].1) >= priority_rank(ranked(recorded)[j].1),
{
    let a = with_priority(recorded, ErrorPriority::StopRequest);
    let b = with_priority(recorded, ErrorPriority::Stop);
    let c = with_priority(recorded, ErrorPriority::Execution);
    let d = with_priority(recorded, ErrorPriority::Lifecycle);
    lemma_with_priority_entries(recorded, ErrorPriority::StopRequest);
    lemma_with_priority_entries(recorded, ErrorPriority::Stop);
    lemma_with_priority_entries(recorded, ErrorPriority::Execution);
    lemma_with_priority_entries(recorded, ErrorPriority::Lifecycle);
    let r = ranked(recorded);
    assert(r == a + b + c + d);
    let rank_at = |k: int|
        if k < a.len() {
            3int
        } else if k < a.len() + b.len() {
            2int
        } else if k < a.len() + b.len() + c.len() {
            1int
        } else {
            0int
        };
    assert(priority_rank(r[i].1) == rank_at(i)) by {
        if i < a.len() {
            assert(r[i] == a[i]);
        } else if i < a.len() + b.len() {
            assert(r[i] == b[i - a.len()]);
        } else if i < a.len() + b.len() + c.len() {
            assert(r[i] == c[i - a.len() - b.len()]);
        } else {
            assert(r[i] == d[i - a.len() - b.len() - c.len()]);
        }
    }
    assert(priority_rank(r[j].1) == rank_at(j)) by {
        if j < a.len() {
            assert(r[j] == a[j]);
        } else if j < a.len() + b.len() {
            assert(r[j] == b[j - a.len()]);
        } else if j < a.len() + b.len() + c.len() {
            assert(r[j] == c[j - a.len() - b.len()]);
        } else {
            assert(r[j] == d[j - a.len() - b.len() - c.len()]);
        }
    }
}

impl ErrorRecorder {
    /// A recorder that holds no failure.
    pub fn new() -> (recorder: Self)
        ensures
            recorder@ == Seq::<RecordedView>::empty(),
    {
        ErrorRecorder { errors: Vec::new() }
    }

    /// Records `error` with `priority` after every failure recorded so far.
    pub fn record(&mut self, error: MicrodeError, priority: ErrorPriority)
        ensures
            final(self)@ == old(self)@.push((error@, priority)),
    {
        let ghost before = self.errors@;
        self.errors.push((error, priority));
        proof {
            assert(self.errors@ == before.push((error, priority)));
            assert(self@ =~= old(self)@.push((error@, priority)));
        }
    }

    /// Whether no failure has been recorded.
    pub fn is_empty(&self) -> (empty: bool)
        ensures
            empty <==> self@.len() == 0,
    {
        self.errors.len() == 0
    }

    /// Appends, in recording order, the messages of the failures of one
    /// priority to `out`.
    fn collect(&self, priority: ErrorPriority, out: &mut Vec<MicrodeError>)
        ensures
            messages(final(out)@) == messages(old(out)@) + with_priority(self@, priority).map_values(
                |entry: RecordedView| entry.0,
            ),
    {
        let n = self.errors.len();
        let mut i: usize = 0;
        while i < n
            invariant
                n == self.errors@.len(),
                i <= n,
                messages(out@) == messages(old(out)@) + with_priority(
                    self@.take(i as int),
                    priority,
                ).map_values(|entry: RecordedView| entry.0),
            decreases n - i,
        {
            let ghost prefix = self@.take(i as int);
            let ghost before = out@;
            assert(self@.take(i + 1) =~= prefix.push(self@[i as int]));
            assert(self@.take(i + 1).drop_last() =~= prefix);
            if self.errors[i].1 == priority {
                out.push(self.errors[i].0.duplicate());
                assert(messages(out@) =~= messages(before).push(self@[i as int].0));
            }
            i = i + 1;
        }
        assert(self@.take(n as int) =~= self@);
    }

    /// The final execution result.
    ///
    /// Without any failure the exit code is the requested one or `0`. With
    /// failures it is the requested one or `1`, the primary error is the
    /// first ranked failure, and the full ranked list is reported only when
    /// there is more than one failure.
    pub fn into_result(self, exit_code: Option<i32>) -> (result: MicrodeExecutionResult)
        ensures
            result_matches(result, self@, exit_code),
    {
        if self.errors.len() == 0 {
            let code = match exit_code {
                Some(code) => code,
                None => 0,
            };
            return MicrodeExecutionResult { exit_code: code, error: None, errors: None };
        }
        let mut all: Vec<MicrodeError> = Vec::new();
        self.collect(ErrorPriority::StopRequest, &mut all);
        self.collect(ErrorPriority::Stop, &mut all);
        self.collect(ErrorPriority::Execution, &mut all);
        self.collect(ErrorPriority::Lifecycle, &mut all);
        proof {
            let f = |entry: RecordedView| entry.0;
            let r = self@;
            let a = with_priority(r, ErrorPriority::StopRequest);
            let b = with_priority(r, ErrorPriority::Stop);
            let c = with_priority(r, ErrorPriority::Execution);
            let d = with_priority(r, ErrorPriority::Lifecycle);
            assert(messages(Seq::<MicrodeError>::empty()) =~= Seq::<Seq<char>>::empty());
            assert((a + b + c + d).map_values(f) =~= a.map_values(f) + b.map_values(f)
                + c.map_values(f) + d.map_values(f));
            assert(messages(all@) =~= ranked_messages(r));
            lemma_ranked_is_permutation(r);
        }
        let code = match exit_code {
            Some(code) => code,
            None => 1,
        };
        let first = all[0].duplicate();
        if all.len() > 1 {
            MicrodeExecutionResult { exit_code: code, error: Some(first), errors: Some(all) }
        } else {
            MicrodeExecutionResult { exit_code: code, error: Some(first), errors: None }
        }
    }
}

} // verus!
