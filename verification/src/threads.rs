//! Pure Lua background threads: who runs, under which name, and how it ended.
//!
//! Spawning is idempotent by name, so a template can call it per request to keep
//! a worker alive. Names are reusable, run ids are not. Status and results key
//! off the run id, so a caller cannot read the outcome of a later run that took
//! the same name.
//!
//! The registry is plain data. Whoever shares it between threads puts it behind a
//! lock and waits on a condition until [`ThreadRegistry::join`] has an answer.

use std::collections::{HashMap, VecDeque};
use vstd::prelude::*;
use vstd::utf8::*;
use crate::path;
use crate::path::PathBytes;
use crate::text;

verus! {

broadcast use vstd::std_specs::hash::group_hash_axioms;

pub const MAX_THREADS: usize = 64;

pub const MAX_NAME_LEN: usize = 64;

/// Finished runs kept before the oldest is dropped; bounds the registry.
pub const MAX_FINISHED_RUNS: usize = 256;

/// Largest serialized `args` payload accepted when spawning.
pub const MAX_ARGS_BYTES: usize = 1048576;

/// How often a sleeping thread looks up to see whether it has been killed, in
/// microseconds.
pub const KILL_CHECK_INTERVAL_US: u64 = 100_000;

#[derive(Clone, Copy, PartialEq, Eq, Debug, Structural)]
pub enum RunStatus {
    Running,
    Finished,
    Failed,
    /// Ended by a kill; distinct from `Failed`, since a stop is not a fault.
    Cancelled,
}

impl RunStatus {
    pub open spec fn word(self) -> Seq<char> {
        match self {
            RunStatus::Running => "running"@,
            RunStatus::Finished => "finished"@,
            RunStatus::Failed => "failed"@,
            RunStatus::Cancelled => "cancelled"@,
        }
    }

    pub fn as_str(self) -> (s: &'static str)
        ensures
            s@ == self.word(),
    {
        match self {
            RunStatus::Running => "running",
            RunStatus::Finished => "finished",
            RunStatus::Failed => "failed",
            RunStatus::Cancelled => "cancelled",
        }
    }
}

/// One execution of a thread script.
pub struct Run {
    pub name: String,
    pub status: RunStatus,
    /// JSON of the return value. `None` if it returned nothing, or something
    /// unserializable.
    pub result: Option<String>,
    /// Failure text, set only when `status` is [`RunStatus::Failed`].
    pub error: Option<String>,
    /// Raised by a kill; the thread watches it.
    pub cancel: bool,
}

pub struct RunView {
    pub name: Seq<char>,
    pub status: RunStatus,
    pub result: Option<Seq<char>>,
    pub error: Option<Seq<char>>,
    pub cancel: bool,
}

pub open spec fn opt_view(s: Option<String>) -> Option<Seq<char>> {
    match s {
        Some(t) => Some(t@),
        None => None,
    }
}

impl View for Run {
    type V = RunView;

    open spec fn view(&self) -> RunView {
        RunView {
            name: self.name@,
            status: self.status,
            result: opt_view(self.result),
            error: opt_view(self.error),
            cancel: self.cancel,
        }
    }
}

/// Live threads and past runs.
pub struct ThreadRegistry {
    runs: HashMap<u64, Run>,
    /// Name and the run holding it. Live runs only, so names free themselves.
    live: Vec<(String, u64)>,
    /// Finished run ids in completion order, for oldest-first eviction.
    finished: VecDeque<u64>,
    next_id: u64,
}

/// What a registry knows.
#[verifier::ext_equal]
pub struct RegistryView {
    /// Every run that is live or still remembered.
    pub runs: Map<u64, RunView>,
    /// Who holds which name.
    pub live: Seq<(Seq<char>, u64)>,
    /// Runs that ended, oldest first.
    pub finished: Seq<u64>,
    /// The largest id handed out.
    pub next_id: nat,
}

impl View for ThreadRegistry {
    type V = RegistryView;

    closed spec fn view(&self) -> RegistryView {
        RegistryView {
            runs: self.runs@.map_values(|r: Run| r@),
            live: self.live@.map_values(|e: (String, u64)| (e.0@, e.1)),
            finished: self.finished@,
            next_id: self.next_id as nat,
        }
    }
}

/// Position of `name` among the live runs, or -1.
pub open spec fn place(live: Seq<(Seq<char>, u64)>, name: Seq<char>) -> int
    decreases live.len(),
{
    if live.len() == 0 {
        -1
    } else if live.last().0 == name {
        live.len() - 1
    } else {
        place(live.drop_last(), name)
    }
}

/// What a run can say with a status: only a failed one has an error, and only a
/// finished one a result.
pub open spec fn fits(
    status: RunStatus,
    result: Option<Seq<char>>,
    error: Option<Seq<char>>,
) -> bool {
    &&& error is Some ==> status == RunStatus::Failed
    &&& result is Some ==> status == RunStatus::Finished
}

impl RegistryView {
    /// The run that holds `name`.
    pub open spec fn holder(self, name: Seq<char>) -> Option<u64> {
        let i = place(self.live, name);
        if i < 0 {
            None
        } else {
            Some(self.live[i].1)
        }
    }

    pub open spec fn running(self, id: u64) -> bool {
        self.runs.contains_key(id) && self.runs[id].status == RunStatus::Running
    }

    /// What always holds of a registry: a name is held by one live run, the live
    /// runs are those that hold a name, the others ended in the order recorded,
    /// no id is above the last one handed out, and error and result fit the status.
    pub open spec fn valid(self) -> bool {
        &&& self.next_id <= u64::MAX
        &&& self.live.len() <= MAX_THREADS
        &&& self.finished.len() <= MAX_FINISHED_RUNS
        &&& forall|i: int|
            0 <= i < self.live.len() ==> self.running((#[trigger] self.live[i]).1)
                && self.runs[self.live[i].1].name == self.live[i].0
        &&& forall|i: int, j: int|
            0 <= i < j < self.live.len() ==> (#[trigger] self.live[i]).0 != (
            #[trigger] self.live[j]).0
        &&& forall|id: u64| #[trigger]
            self.running(id) ==> self.holder(self.runs[id].name) == Some(id)
        &&& self.finished.no_duplicates()
        &&& forall|i: int|
            0 <= i < self.finished.len() ==> self.runs.contains_key(#[trigger] self.finished[i])
                && self.runs[self.finished[i]].status != RunStatus::Running
        &&& forall|id: u64| #[trigger]
            self.runs.contains_key(id) && self.runs[id].status != RunStatus::Running
                ==> self.finished.contains(id)
        &&& forall|id: u64| #[trigger]
            self.runs.contains_key(id) ==> 1 <= id <= self.next_id && self.told(id)
    }

    /// What run `id` says fits its status.
    pub open spec fn told(self, id: u64) -> bool {
        fits(self.runs[id].status, self.runs[id].result, self.runs[id].error)
    }

    /// A fresh registry.
    pub open spec fn fresh() -> RegistryView {
        RegistryView {
            runs: Map::empty(),
            live: Seq::empty(),
            finished: Seq::empty(),
            next_id: 0,
        }
    }

    /// A name claimed by a new run.
    pub open spec fn claimed(self, name: Seq<char>) -> RegistryView {
        let id = (self.next_id + 1) as u64;
        RegistryView {
            runs: self.runs.insert(
                id,
                (RunView {
                    name,
                    status: RunStatus::Running,
                    result: None,
                    error: None,
                    cancel: false,
                }),
            ),
            live: self.live.push((name, id)),
            finished: self.finished,
            next_id: self.next_id + 1,
        }
    }

    /// A live run ended; with more than the kept number of ended runs, the oldest
    /// of them is forgotten.
    pub open spec fn ended(
        self,
        id: u64,
        status: RunStatus,
        result: Option<Seq<char>>,
        error: Option<Seq<char>>,
    ) -> RegistryView {
        if !self.running(id) {
            self
        } else {
            let run = RunView { status, result, error, ..self.runs[id] };
            let runs = self.runs.insert(id, run);
            let finished = self.finished.push(id);
            let evict = finished.len() > MAX_FINISHED_RUNS;
            RegistryView {
                runs: if evict {
                    runs.remove(finished[0])
                } else {
                    runs
                },
                live: self.live.remove(place(self.live, run.name)),
                finished: if evict {
                    finished.skip(1)
                } else {
                    finished
                },
                next_id: self.next_id,
            }
        }
    }

    /// A live run asked to stop.
    pub open spec fn asked_to_stop(self, id: u64) -> RegistryView {
        if self.running(id) {
            RegistryView {
                runs: self.runs.insert(id, (RunView { cancel: true, ..self.runs[id] })),
                ..self
            }
        } else {
            self
        }
    }
}

pub proof fn lemma_place(live: Seq<(Seq<char>, u64)>, name: Seq<char>)
    ensures
        -1 <= place(live, name) < live.len(),
        place(live, name) >= 0 ==> live[place(live, name)].0 == name,
        forall|i: int| place(live, name) < i < live.len() ==> (#[trigger] live[i]).0 != name,
    decreases live.len(),
{
    if live.len() > 0 && live.last().0 != name {
        lemma_place(live.drop_last(), name);
        assert forall|i: int| place(live, name) < i < live.len() implies (#[trigger] live[i]).0
            != name by {
            if i < live.len() - 1 {
                assert(live.drop_last()[i] == live[i]);
            }
        }
    }
}

proof fn lemma_place_is(live: Seq<(Seq<char>, u64)>, name: Seq<char>, i: int)
    requires
        0 <= i < live.len(),
        live[i].0 == name,
        forall|j: int| i < j < live.len() ==> (#[trigger] live[j]).0 != name,
    ensures
        place(live, name) == i,
{
    lemma_place(live, name);
}

proof fn lemma_place_none(live: Seq<(Seq<char>, u64)>, name: Seq<char>)
    requires
        forall|j: int| 0 <= j < live.len() ==> (#[trigger] live[j]).0 != name,
    ensures
        place(live, name) == -1,
{
    lemma_place(live, name);
}

/// A claim keeps a registry valid.
pub proof fn law_claim_keeps_valid(v: RegistryView, name: Seq<char>)
    requires
        v.valid(),
        v.holder(name) is None,
        v.live.len() < MAX_THREADS,
        v.next_id < u64::MAX,
    ensures
        v.claimed(name).valid(),
        v.claimed(name).holder(name) == Some((v.next_id + 1) as u64),
        v.claimed(name).running((v.next_id + 1) as u64),
        !v.runs.contains_key((v.next_id + 1) as u64),
        forall|k: u64| #[trigger] v.runs.contains_key(k) ==> k < v.next_id + 1,
{
    let w = v.claimed(name);
    let id = (v.next_id + 1) as u64;
    lemma_place(v.live, name);
    assert forall|i: int| 0 <= i < w.live.len() implies w.running((#[trigger] w.live[i]).1)
        && w.runs[w.live[i].1].name == w.live[i].0 by {
        if i < v.live.len() {
            assert(v.running(v.live[i].1));
        }
    }
    assert forall|k: u64| #[trigger] w.running(k) implies w.holder(w.runs[k].name) == Some(k) by {
        if k != id {
            assert(v.running(k));
            let n = v.runs[k].name;
            lemma_place(v.live, n);
            let i = place(v.live, n);
            assert(w.live[i] == v.live[i]);
            assert forall|j: int| i < j < w.live.len() implies (#[trigger] w.live[j]).0 != n by {
                if j < v.live.len() {
                    assert(v.live[j].0 != n);
                }
            }
            lemma_place_is(w.live, n, i);
        } else {
            lemma_place_is(w.live, name, v.live.len() as int);
        }
    }
    lemma_place_is(w.live, name, v.live.len() as int);
    assert forall|k: u64| #[trigger]
        w.runs.contains_key(k) && w.runs[k].status != RunStatus::Running implies w.finished.contains(
        k,
    ) by {
        assert(v.runs.contains_key(k));
    }
    assert forall|i: int| 0 <= i < w.finished.len() implies w.runs.contains_key(
        #[trigger] w.finished[i],
    ) && w.runs[w.finished[i]].status != RunStatus::Running by {
        assert(v.runs.contains_key(v.finished[i]));
    }
    assert forall|k: u64| #[trigger] w.runs.contains_key(k) implies 1 <= k <= w.next_id && w.told(k) by {
        if k != id {
            assert(v.runs.contains_key(k));
        }
    }
}

/// Ending a run keeps a registry valid, and frees the run's name.
pub proof fn law_end_keeps_valid(
    v: RegistryView,
    id: u64,
    status: RunStatus,
    result: Option<Seq<char>>,
    error: Option<Seq<char>>,
)
    requires
        v.valid(),
        v.running(id) ==> status != RunStatus::Running && fits(status, result, error),
    ensures
        v.ended(id, status, result, error).valid(),
        v.running(id) ==> v.ended(id, status, result, error).holder(v.runs[id].name) is None,
{
    let w = v.ended(id, status, result, error);
    if v.running(id) {
        let name = v.runs[id].name;
        let at = place(v.live, name);
        lemma_place(v.live, name);
        assert(v.holder(name) == Some(id));
        let run = RunView { status, result, error, ..v.runs[id] };
        let runs = v.runs.insert(id, run);
        let all = v.finished.push(id);
        let evict = all.len() > MAX_FINISHED_RUNS;
        assert(!v.finished.contains(id));
        // the remembered order
        assert forall|i: int, j: int| 0 <= i < all.len() && 0 <= j < all.len() && i != j implies all[i]
            != all[j] by {
            if i < v.finished.len() {
                assert(v.finished.contains(v.finished[i]));
            }
            if j < v.finished.len() {
                assert(v.finished.contains(v.finished[j]));
            }
        }
        assert(w.finished.no_duplicates());
        if evict {
            assert(all[0] == v.finished[0]);
            assert(v.runs[all[0]].status != RunStatus::Running);
        }
        // what is live
        assert forall|i: int| 0 <= i < w.live.len() implies {
            let e = #[trigger] w.live[i];
            &&& e.0 != name
            &&& e.1 != id
            &&& v.running(e.1)
            &&& v.runs[e.1].name == e.0
            &&& (i < at ==> e == v.live[i])
            &&& (i >= at ==> e == v.live[i + 1])
        } by {
            let k = if i < at {
                i
            } else {
                i + 1
            };
            assert(w.live[i] == v.live[k]);
            assert(v.running(v.live[k].1));
            if k < at {
                assert(v.live[k].0 != v.live[at].0);
            } else {
                assert(v.live[at].0 != v.live[k].0);
            }
        }
        assert forall|i: int| 0 <= i < w.live.len() implies w.running((#[trigger] w.live[i]).1)
            && w.runs[w.live[i].1].name == w.live[i].0 by {
            let e = w.live[i];
            assert(v.running(e.1));
        }
        lemma_place_none(w.live, name);
        assert forall|k: u64| #[trigger] w.running(k) implies w.holder(w.runs[k].name) == Some(
            k,
        ) by {
            assert(k != id);
            assert(v.running(k));
            let n = v.runs[k].name;
            lemma_place(v.live, n);
            let p = place(v.live, n);
            assert(v.live[p].1 == k);
            assert(p != at);
            let q = if p < at {
                p
            } else {
                p - 1
            };
            assert(w.live[q] == v.live[p]);
            assert forall|j: int| q < j < w.live.len() implies (#[trigger] w.live[j]).0 != n by {
                let m = if j < at {
                    j
                } else {
                    j + 1
                };
                assert(w.live[j] == v.live[m]);
                assert(v.live[m].0 != n);
            }
            lemma_place_is(w.live, n, q);
        }
        // what is remembered
        assert forall|i: int| 0 <= i < w.finished.len() implies w.runs.contains_key(
            #[trigger] w.finished[i],
        ) && w.runs[w.finished[i]].status != RunStatus::Running by {
            let m = if evict {
                i + 1
            } else {
                i
            };
            assert(w.finished[i] == all[m]);
            if m < v.finished.len() {
                assert(v.runs.contains_key(v.finished[m]));
            }
        }
        assert forall|k: u64| #[trigger]
            w.runs.contains_key(k) && w.runs[k].status
                != RunStatus::Running implies w.finished.contains(k) by {
            if k == id {
                assert(all[all.len() - 1] == id);
                let m = if evict {
                    all.len() - 2
                } else {
                    all.len() - 1
                };
                assert(w.finished[m] == id);
            } else {
                assert(v.runs.contains_key(k));
                let m = choose|m: int| 0 <= m < v.finished.len() && v.finished[m] == k;
                assert(all[m] == k);
                let q = if evict {
                    m - 1
                } else {
                    m
                };
                assert(w.finished[q] == k);
            }
        }
        assert forall|k: u64| #[trigger] w.runs.contains_key(k) implies 1 <= k <= w.next_id && w.told(k) by {
            assert(v.runs.contains_key(k));
        }
    }
}

/// Asking a run to stop keeps a registry valid.
pub proof fn law_stop_keeps_valid(v: RegistryView, id: u64)
    requires
        v.valid(),
    ensures
        v.asked_to_stop(id).valid(),
{
    let w = v.asked_to_stop(id);
    if v.running(id) {
        assert forall|k: u64| #[trigger] w.running(k) implies w.holder(w.runs[k].name) == Some(
            k,
        ) by {
            assert(v.running(k));
        }
        assert forall|i: int| 0 <= i < w.live.len() implies w.running((#[trigger] w.live[i]).1)
            && w.runs[w.live[i].1].name == w.live[i].0 by {
            assert(v.running(v.live[i].1));
        }
        assert forall|i: int| 0 <= i < w.finished.len() implies w.runs.contains_key(
            #[trigger] w.finished[i],
        ) && w.runs[w.finished[i]].status != RunStatus::Running by {
            assert(v.runs.contains_key(v.finished[i]));
        }
        assert forall|k: u64| #[trigger]
            w.runs.contains_key(k) && w.runs[k].status
                != RunStatus::Running implies w.finished.contains(k) by {
            assert(v.runs.contains_key(k));
        }
        assert forall|k: u64| #[trigger] w.runs.contains_key(k) implies 1 <= k <= w.next_id && w.told(k) by {
            assert(v.runs.contains_key(k));
        }
    }
}

/// A run id never comes back: a claim after any other gets a larger one, even
/// under the same name.
pub proof fn law_run_ids_are_not_reused(v: RegistryView, name: Seq<char>, id: u64)
    requires
        v.valid(),
        v.runs.contains_key(id),
        v.next_id < u64::MAX,
    ensures
        id < v.next_id + 1,
        v.claimed(name).next_id == v.next_id + 1,
        v.claimed(name).runs[id] == v.runs[id],
{
}

/// What ending a live run does: its outcome is there to be read, its name is free,
/// the run that ended first is forgotten if as many as are kept had ended before,
/// and every other run is as it was.
pub proof fn law_ending_a_run(
    v: RegistryView,
    id: u64,
    other: u64,
    status: RunStatus,
    result: Option<Seq<char>>,
    error: Option<Seq<char>>,
)
    requires
        v.valid(),
        v.running(id),
        status != RunStatus::Running,
        fits(status, result, error),
    ensures
        ({
            let w = v.ended(id, status, result, error);
            &&& w.runs.contains_key(id)
            &&& w.runs[id] == (RunView { status, result, error, ..v.runs[id] })
            &&& w.holder(v.runs[id].name) is None
            &&& w.next_id == v.next_id
            &&& other != id ==> (w.runs.contains_key(other) <==> v.runs.contains_key(other) && !(
            v.finished.len() == MAX_FINISHED_RUNS && other == v.finished[0]))
            &&& other != id && w.runs.contains_key(other) ==> w.runs[other] == v.runs[other]
        }),
{
    law_end_keeps_valid(v, id, status, result, error);
    let all = v.finished.push(id);
    if all.len() > MAX_FINISHED_RUNS {
        assert(all[0] == v.finished[0]);
        assert(v.runs[v.finished[0]].status != RunStatus::Running);
    }
}

/// What has ended stays as it is, as does what was never known: whatever outcome
/// comes later, every run and every name is as before.
pub proof fn law_ended_runs_do_not_change(
    v: RegistryView,
    id: u64,
    status: RunStatus,
    result: Option<Seq<char>>,
    error: Option<Seq<char>>,
)
    requires
        !v.running(id),
    ensures
        v.ended(id, status, result, error) == v,
{
}

/// Ending a run twice is ending it once: the first outcome stays, whatever the
/// second is.
pub proof fn law_first_outcome_stays(
    v: RegistryView,
    id: u64,
    first: (RunStatus, Option<Seq<char>>, Option<Seq<char>>),
    second: (RunStatus, Option<Seq<char>>, Option<Seq<char>>),
)
    requires
        v.valid(),
        v.running(id) ==> first.0 != RunStatus::Running && fits(first.0, first.1, first.2),
    ensures
        v.ended(id, first.0, first.1, first.2).ended(id, second.0, second.1, second.2) == v.ended(
            id,
            first.0,
            first.1,
            first.2,
        ),
{
    law_end_keeps_valid(v, id, first.0, first.1, first.2);
}

/// Only a failed run has an error and only a finished one a result; a killed run
/// has neither.
pub proof fn law_outcomes_fit_the_status(v: RegistryView, id: u64)
    requires
        v.valid(),
        v.runs.contains_key(id),
    ensures
        v.runs[id].error is Some ==> v.runs[id].status == RunStatus::Failed,
        v.runs[id].result is Some ==> v.runs[id].status == RunStatus::Finished,
        v.runs[id].status == RunStatus::Cancelled ==> v.runs[id].error is None
            && v.runs[id].result is None,
{
    assert(v.told(id));
}

/// An outcome belongs to its run: ending one run leaves every other run that is
/// still remembered as it was.
pub proof fn law_outcomes_do_not_mix(
    v: RegistryView,
    id: u64,
    other: u64,
    status: RunStatus,
    result: Option<Seq<char>>,
    error: Option<Seq<char>>,
)
    requires
        v.valid(),
        other != id,
        v.ended(id, status, result, error).runs.contains_key(other),
    ensures
        v.runs.contains_key(other),
        v.ended(id, status, result, error).runs[other] == v.runs[other],
{
}

/// Only the oldest ended run is ever forgotten; a live run never is.
pub proof fn law_live_runs_are_remembered(
    v: RegistryView,
    id: u64,
    other: u64,
    status: RunStatus,
    result: Option<Seq<char>>,
    error: Option<Seq<char>>,
)
    requires
        v.valid(),
        v.runs.contains_key(other),
        !v.ended(id, status, result, error).runs.contains_key(other),
    ensures
        v.finished.len() == MAX_FINISHED_RUNS,
        other == v.finished[0],
        !v.running(other),
{
    let all = v.finished.push(id);
    assert(v.running(id));
    if all.len() > MAX_FINISHED_RUNS {
        assert(all[0] == v.finished[0]);
        assert(v.runs[v.finished[0]].status != RunStatus::Running);
    }
}

/// Something that happens to a registry.
pub enum Step {
    Claim(Seq<char>),
    End { id: u64, status: RunStatus, result: Option<Seq<char>>, error: Option<Seq<char>> },
    Stop(u64),
}

impl RegistryView {
    /// The registry after a step.
    pub open spec fn after(self, step: Step) -> RegistryView {
        match step {
            Step::Claim(name) => if self.holder(name) is Some || self.live.len() >= MAX_THREADS {
                self
            } else {
                self.claimed(name)
            },
            Step::End { id, status, result, error } => self.ended(id, status, result, error),
            Step::Stop(id) => self.asked_to_stop(id),
        }
    }

    /// A step that can be taken: ids are left, and an outcome ends the run it is for.
    pub open spec fn allows(self, step: Step) -> bool {
        match step {
            Step::Claim(_) => self.next_id < u64::MAX,
            Step::End { id, status, result, error } => self.running(id) ==> status
                != RunStatus::Running && fits(status, result, error),
            Step::Stop(_) => true,
        }
    }

    /// The id a step hands out, if it starts a run.
    pub open spec fn handed_out(self, step: Step) -> Option<u64> {
        match step {
            Step::Claim(name) => if self.holder(name) is None && self.live.len() < MAX_THREADS {
                Some((self.next_id + 1) as u64)
            } else {
                None
            },
            _ => None,
        }
    }
}

/// The registry that a fresh one has become.
pub open spec fn reached(steps: Seq<Step>) -> RegistryView
    decreases steps.len(),
{
    if steps.len() == 0 {
        RegistryView::fresh()
    } else {
        reached(steps.drop_last()).after(steps.last())
    }
}

/// Each step could be taken when it was.
pub open spec fn possible(steps: Seq<Step>) -> bool {
    forall|i: int|
        0 <= i < steps.len() ==> reached(steps.take(i)).allows(#[trigger] steps[i])
}

/// Whatever a registry has been through, it is valid.
pub proof fn law_reached_registries_are_valid(steps: Seq<Step>)
    requires
        possible(steps),
    ensures
        reached(steps).valid(),
    decreases steps.len(),
{
    if steps.len() > 0 {
        let front = steps.drop_last();
        assert(possible(front)) by {
            assert forall|i: int| 0 <= i < front.len() implies reached(front.take(i)).allows(
                #[trigger] front[i],
            ) by {
                assert(front.take(i) =~= steps.take(i));
                assert(front[i] == steps[i]);
            }
        }
        law_reached_registries_are_valid(front);
        let v = reached(front);
        assert(steps.take(steps.len() - 1) =~= front);
        assert(v.allows(steps[steps.len() - 1]));
        match steps.last() {
            Step::Claim(name) => {
                if v.holder(name) is None && v.live.len() < MAX_THREADS {
                    law_claim_keeps_valid(v, name);
                }
            },
            Step::End { id, status, result, error } => {
                law_end_keeps_valid(v, id, status, result, error);
            },
            Step::Stop(id) => {
                law_stop_keeps_valid(v, id);
            },
        }
    }
}

/// Between two points of its life a registry never forgets how many ids it has
/// handed out.
proof fn lemma_next_id_grows(steps: Seq<Step>, i: int, j: int)
    requires
        0 <= i <= j <= steps.len(),
    ensures
        reached(steps.take(i)).next_id <= reached(steps.take(j)).next_id,
    decreases j - i,
{
    if i < j {
        lemma_next_id_grows(steps, i, j - 1);
        assert(steps.take(j).drop_last() =~= steps.take(j - 1));
    }
}

/// A run id is never handed out twice, whatever happens in between, even once its
/// run has been forgotten: each one is larger than all before it.
pub proof fn law_later_ids_are_larger(steps: Seq<Step>, i: int, j: int)
    requires
        possible(steps),
        0 <= i < j < steps.len(),
        reached(steps.take(i)).handed_out(steps[i]) is Some,
        reached(steps.take(j)).handed_out(steps[j]) is Some,
    ensures
        reached(steps.take(i)).handed_out(steps[i])->0 < reached(steps.take(j)).handed_out(
            steps[j],
        )->0,
{
    assert(reached(steps.take(i)).allows(steps[i]));
    assert(reached(steps.take(j)).allows(steps[j]));
    assert(steps.take(i + 1).drop_last() =~= steps.take(i));
    assert(steps.take(i + 1).last() == steps[i]);
    lemma_next_id_grows(steps, i + 1, j);
}

/// What a wait for a run has come to.
pub enum JoinStep {
    /// The run is live and there is time left: wait until something ends.
    Wait,
    /// `None` for an unknown or forgotten id. A run that outlasted the wait is
    /// still reported as running.
    Done(Option<(RunStatus, Option<String>, Option<String>)>),
}

impl ThreadRegistry {
    pub fn new() -> (registry: ThreadRegistry)
        ensures
            registry@ == RegistryView::fresh(),
            registry@.valid(),
    {
        let registry = ThreadRegistry {
            runs: HashMap::new(),
            live: Vec::new(),
            finished: VecDeque::new(),
            next_id: 0,
        };
        assert(registry@.runs =~= Map::empty());
        assert(registry@.live =~= Seq::empty());
        assert(registry@.finished =~= Seq::empty());
        registry
    }

    /// Position of `name` among the live runs.
    fn find(&self, name: &str) -> (r: Option<usize>)
        ensures
            match r {
                Some(i) => place(self@.live, name@) == i as int && i < self.live@.len(),
                None => place(self@.live, name@) == -1,
            },
    {
        let mut i: usize = self.live.len();
        while i > 0
            invariant
                i <= self.live@.len(),
                forall|j: int| i <= j < self.live@.len() ==> (#[trigger] self@.live[j]).0 != name@,
            decreases i,
        {
            assert(self@.live[i - 1] == (self.live@[i - 1].0@, self.live@[i - 1].1));
            if text::same(self.live[i - 1].0.as_str(), name) {
                proof {
                    lemma_place_is(self@.live, name@, i - 1);
                }
                return Some(i - 1);
            }
            i = i - 1;
        }
        proof {
            lemma_place_none(self@.live, name@);
        }
        None
    }

    pub fn is_running(&self, name: &str) -> (r: bool)
        ensures
            r == (self@.holder(name@) is Some),
    {
        self.find(name).is_some()
    }

    /// Whether every run id has been handed out, so that no name can be claimed.
    pub fn exhausted(&self) -> (r: bool)
        ensures
            r == (self@.next_id == u64::MAX),
            !r ==> self@.next_id < u64::MAX,
    {
        self.next_id == u64::MAX
    }

    /// Claims `name`, or reports the run already holding it. `(id, false)` hands
    /// back the live run's id so a losing racer can watch what the winner started.
    pub fn claim(&mut self, name: &str) -> (r: Result<(u64, bool), String>)
        requires
            old(self)@.valid(),
            old(self)@.next_id < u64::MAX,
        ensures
            final(self)@.valid(),
            match old(self)@.holder(name@) {
                Some(id) => r == Ok::<(u64, bool), String>((id, false)) && final(self)@ == old(
                    self,
                )@,
                None => if old(self)@.live.len() >= MAX_THREADS {
                    &&& r is Err
                    &&& r->Err_0@ == "thread limit (64) reached"@
                    &&& final(self)@ == old(self)@
                } else {
                    &&& r == Ok::<(u64, bool), String>(((old(self)@.next_id + 1) as u64, true))
                    &&& final(self)@ == old(self)@.claimed(name@)
                },
            },
            final(self)@ == old(self)@.after(Step::Claim(name@)),
    {
        match self.find(name) {
            Some(i) => {
                assert(self@.live[i as int].1 == self.live@[i as int].1);
                return Ok((self.live[i].1, false));
            },
            None => {},
        }
        if self.live.len() >= MAX_THREADS {
            return Err("thread limit (64) reached".to_string());
        }
        let ghost before = self@;
        proof {
            law_claim_keeps_valid(before, name@);
        }
        let id: u64 = self.next_id + 1;
        self.next_id = id;
        self.runs.insert(
            id,
            Run {
                name: name.to_string(),
                status: RunStatus::Running,
                result: None,
                error: None,
                cancel: false,
            },
        );
        self.live.push((name.to_string(), id));
        assert(self@.runs =~= before.claimed(name@).runs);
        assert(self@.live =~= before.claimed(name@).live);
        assert(self@ =~= before.claimed(name@));
        Ok((id, true))
    }

    /// Ends a run and frees its name. Idempotent, so a safety net cannot overwrite
    /// a real result: for a run that has ended, or an unknown one, nothing changes,
    /// whatever the outcome given. Returns whether the run ended here, which is when
    /// waiters need waking.
    pub fn finish(
        &mut self,
        id: u64,
        status: RunStatus,
        result: Option<String>,
        error: Option<String>,
    ) -> (ended: bool)
        requires
            old(self)@.valid(),
            old(self)@.running(id) ==> status != RunStatus::Running && fits(
                status,
                opt_view(result),
                opt_view(error),
            ),
        ensures
            final(self)@.valid(),
            final(self)@ == old(self)@.ended(id, status, opt_view(result), opt_view(error)),
            !old(self)@.running(id) ==> final(self)@ == old(self)@,
            ended == old(self)@.running(id),
    {
        let ghost before = self@;
        let ghost after = before.ended(id, status, opt_view(result), opt_view(error));
        proof {
            law_end_keeps_valid(before, id, status, opt_view(result), opt_view(error));
        }
        match self.status(id) {
            Some(RunStatus::Running) => {},
            _ => {
                return false;
            },
        }
        let ghost held = self.runs@;
        match self.runs.remove(&id) {
            None => {
                return false;
            },
            Some(run) => {
                let ghost name = run.name@;
                assert(before.runs[id] == run@);
                assert(before.holder(name) == Some(id));
                match self.find(run.name.as_str()) {
                    Some(i) => {
                        self.live.remove(i);
                    },
                    None => {},
                }
                assert(self@.live =~= after.live);
                self.runs.insert(id, Run { name: run.name, status, result, error, cancel: run.cancel });
            },
        }
        assert(self@.runs =~= before.runs.insert(
            id,
            (RunView {
                status,
                result: opt_view(result),
                error: opt_view(error),
                ..before.runs[id]
            }),
        ));
        self.finished.push_back(id);
        assert(self@.finished == before.finished.push(id));
        if self.finished.len() > MAX_FINISHED_RUNS {
            if let Some(oldest) = self.finished.pop_front() {
                self.runs.remove(&oldest);
            }
            assert(self@.finished =~= before.finished.push(id).skip(1));
        }
        assert(self@.runs =~= after.runs);
        assert(self@ =~= after);
        true
    }

    /// Undoes a claim whose thread never started.
    pub fn abandon(&mut self, id: u64) -> (ended: bool)
        requires
            old(self)@.valid(),
        ensures
            final(self)@.valid(),
            final(self)@ == old(self)@.ended(
                id,
                RunStatus::Failed,
                None,
                Some("thread could not be started"@),
            ),
            ended == old(self)@.running(id),
    {
        self.finish(id, RunStatus::Failed, None, Some("thread could not be started".to_string()))
    }

    /// Marks a run failed if its thread unwound without finishing it.
    pub fn release(&mut self, id: u64) -> (ended: bool)
        requires
            old(self)@.valid(),
        ensures
            final(self)@.valid(),
            final(self)@ == old(self)@.ended(
                id,
                RunStatus::Failed,
                None,
                Some("thread ended unexpectedly"@),
            ),
            ended == old(self)@.running(id),
    {
        self.finish(id, RunStatus::Failed, None, Some("thread ended unexpectedly".to_string()))
    }

    pub fn status(&self, id: u64) -> (r: Option<RunStatus>)
        ensures
            r == (if self@.runs.contains_key(id) {
                Some(self@.runs[id].status)
            } else {
                None
            }),
    {
        match self.runs.get(&id) {
            Some(run) => Some(run.status),
            None => None,
        }
    }

    /// Asks a run to stop; false if it is unknown or already over. Cooperative:
    /// this raises a flag that the run looks at.
    pub fn request_kill(&mut self, id: u64) -> (r: bool)
        requires
            old(self)@.valid(),
        ensures
            final(self)@.valid(),
            r == old(self)@.running(id),
            final(self)@ == old(self)@.asked_to_stop(id),
    {
        let ghost before = self@;
        proof {
            law_stop_keeps_valid(before, id);
        }
        match self.status(id) {
            Some(RunStatus::Running) => {},
            _ => {
                return false;
            },
        }
        match self.runs.remove(&id) {
            None => false,
            Some(run) => {
                self.runs.insert(
                    id,
                    Run {
                        name: run.name,
                        status: run.status,
                        result: run.result,
                        error: run.error,
                        cancel: true,
                    },
                );
                assert(self@.runs =~= before.asked_to_stop(id).runs);
                assert(self@ =~= before.asked_to_stop(id));
                true
            },
        }
    }

    /// Tells a cancellation apart from an error once a script has unwound, and
    /// lets a running script see that it should.
    pub fn was_cancelled(&self, id: u64) -> (r: bool)
        ensures
            r == (self@.runs.contains_key(id) && self@.runs[id].cancel),
    {
        match self.runs.get(&id) {
            Some(run) => run.cancel,
            None => false,
        }
    }

    /// One look at run `id` on behalf of a caller that waits for it to end.
    pub fn join(&self, id: u64, timed_out: bool) -> (step: JoinStep)
        ensures
            match step {
                JoinStep::Wait => self@.running(id) && !timed_out,
                JoinStep::Done(None) => !self@.runs.contains_key(id),
                JoinStep::Done(Some(outcome)) => {
                    &&& self@.runs.contains_key(id)
                    &&& self@.running(id) ==> timed_out
                    &&& outcome.0 == self@.runs[id].status
                    &&& opt_view(outcome.1) == self@.runs[id].result
                    &&& opt_view(outcome.2) == self@.runs[id].error
                    &&& self@.valid() ==> fits(
                        outcome.0,
                        opt_view(outcome.1),
                        opt_view(outcome.2),
                    )
                },
            },
    {
        match self.runs.get(&id) {
            None => JoinStep::Done(None),
            Some(run) => {
                assert(self@.runs[id] == run@);
                if run.status == RunStatus::Running && !timed_out {
                    JoinStep::Wait
                } else {
                    assert(self@.runs.contains_key(id));
                    JoinStep::Done(Some((run.status, run.result.clone(), run.error.clone())))
                }
            },
        }
    }
}

impl Default for ThreadRegistry {
    fn default() -> (registry: ThreadRegistry)
        ensures
            registry@ == RegistryView::fresh(),
            registry@.valid(),
    {
        ThreadRegistry::new()
    }
}

// ---- spawning -----------------------------------------------------------------

/// Where a thread script is looked for.
pub open spec fn script_location(serve_dir: Seq<u8>, rel: Seq<char>) -> Seq<u8> {
    path::joined(serve_dir, encode_utf8(text::without_leading_slashes(rel)))
}

/// The path of a thread script, to be canonicalized.
pub fn script_path(serve_dir: &[u8], rel: &str) -> (p: PathBytes)
    ensures
        p@ == script_location(serve_dir@, rel@),
{
    let tail = text::trim_leading_slashes(rel);
    path::join(serve_dir, tail.as_str().as_bytes())
}

/// Whether a script that was found there may run, and what to say if not:
/// `canonical` is the canonical form of its location, or why there is none, and
/// `is_file` whether a regular file stands there.
pub open spec fn script_verdict(
    serve_dir: Seq<u8>,
    rel: Seq<char>,
    canonical: Result<Seq<u8>, Seq<char>>,
    is_file: bool,
) -> Result<Seq<u8>, Seq<char>> {
    match canonical {
        Err(e) => Err("thread script '"@ + rel + "': not found: "@ + e),
        Ok(p) => if !path::within(p, serve_dir) {
            Err("thread script '"@ + rel + "': escapes the serve directory"@)
        } else if !is_file || !path::lua_file(p) {
            Err("thread script '"@ + rel + "': must be a .lua file"@)
        } else {
            Ok(p)
        },
    }
}

pub open spec fn path_result(r: Result<PathBytes, String>) -> Result<Seq<u8>, Seq<char>> {
    match r {
        Ok(p) => Ok(p@),
        Err(e) => Err(e@),
    }
}

/// Resolves a thread script: relative to the serve directory, must exist and be a
/// `.lua` file. `canonical` is what canonicalizing [`script_path`] gave, and
/// `is_file` whether a regular file stands there.
pub fn resolve_script(
    serve_dir: &[u8],
    rel: &str,
    canonical: Result<PathBytes, String>,
    is_file: bool,
) -> (r: Result<PathBytes, String>)
    ensures
        path_result(r) == script_verdict(serve_dir@, rel@, path_result(canonical), is_file),
{
    let mut message = "thread script '".to_string();
    message.append(rel);
    match canonical {
        Err(e) => {
            message.append("': not found: ");
            message.append(e.as_str());
            Err(message)
        },
        Ok(p) => {
            if !path::starts_with(p.as_slice(), serve_dir) {
                message.append("': escapes the serve directory");
                return Err(message);
            }
            if !is_file || !path::is_lua(p.as_slice()) {
                message.append("': must be a .lua file");
                return Err(message);
            }
            Ok(p)
        },
    }
}

/// What was spawned, or who already runs.
pub struct Spawn {
    pub id: u64,
    /// When false the id belongs to the run already holding the name, and the
    /// arguments are ignored.
    pub spawned: bool,
    /// The script.
    pub path: PathBytes,
}

/// Why a spawn is refused before anything is claimed.
pub open spec fn spawn_refusal(
    name: Seq<char>,
    args: Option<Seq<char>>,
    script: Result<Seq<u8>, Seq<char>>,
) -> Option<Seq<char>> {
    if name.len() == 0 || encode_utf8(name).len() > MAX_NAME_LEN {
        Some("thread name must be 1..=64 characters"@)
    } else if args is Some && encode_utf8(args->0).len() > MAX_ARGS_BYTES {
        Some(
            "thread args are "@ + text::decimal(encode_utf8(args->0).len())
                + " bytes, over the 1048576 byte limit"@,
        )
    } else {
        match script {
            Err(e) => Some(e),
            Ok(_) => None,
        }
    }
}

/// Claims `name` for the script `rel` unless that name is already running. The
/// caller starts the thread when `spawned` is set, and gives the claim back with
/// [`ThreadRegistry::abandon`] if it cannot.
pub fn spawn_named(
    registry: &mut ThreadRegistry,
    serve_dir: &[u8],
    name: &str,
    rel: &str,
    canonical: Result<PathBytes, String>,
    is_file: bool,
    args_json: &Option<String>,
) -> (r: Result<Spawn, String>)
    requires
        old(registry)@.valid(),
        old(registry)@.next_id < u64::MAX,
    ensures
        final(registry)@.valid(),
        ({
            let script = script_verdict(serve_dir@, rel@, path_result(canonical), is_file);
            match spawn_refusal(name@, opt_view(*args_json), script) {
                Some(message) => {
                    &&& r is Err
                    &&& r->Err_0@ == message
                    &&& final(registry)@ == old(registry)@
                },
                None => match old(registry)@.holder(name@) {
                    Some(id) => {
                        &&& r is Ok
                        &&& r->Ok_0.id == id
                        &&& !r->Ok_0.spawned
                        &&& Ok::<Seq<u8>, Seq<char>>(r->Ok_0.path@) == script
                        &&& final(registry)@ == old(registry)@
                    },
                    None => if old(registry)@.live.len() >= MAX_THREADS {
                        &&& r is Err
                        &&& r->Err_0@ == "thread limit (64) reached"@
                        &&& final(registry)@ == old(registry)@
                    } else {
                        &&& r is Ok
                        &&& r->Ok_0.id == old(registry)@.next_id + 1
                        &&& r->Ok_0.spawned
                        &&& Ok::<Seq<u8>, Seq<char>>(r->Ok_0.path@) == script
                        &&& final(registry)@ == old(registry)@.claimed(name@)
                    },
                },
            }
        }),
{
    if name.is_empty() || name.as_bytes().len() > MAX_NAME_LEN {
        return Err("thread name must be 1..=64 characters".to_string());
    }
    if let Some(args) = args_json {
        let size: usize = args.as_str().as_bytes().len();
        if size > MAX_ARGS_BYTES {
            let mut message = "thread args are ".to_string();
            let digits = text::decimal_of(size as u64);
            message.append(digits.as_str());
            message.append(" bytes, over the 1048576 byte limit");
            return Err(message);
        }
    }
    let path = match resolve_script(serve_dir, rel, canonical, is_file) {
        Ok(path) => path,
        Err(e) => {
            return Err(e);
        },
    };
    match registry.claim(name) {
        Ok((id, spawned)) => Ok(Spawn { id, spawned, path }),
        Err(e) => Err(e),
    }
}

// ---- a running thread -----------------------------------------------------------

/// What the calling thread is running: a run of its own, or a request.
pub struct CurrentRun {
    pub id: Option<u64>,
}

/// The run id of the calling thread, or `None` on a request thread.
pub fn current_run_id(current: &CurrentRun) -> (id: Option<u64>)
    ensures
        id == current.id,
{
    current.id
}

/// A run id as a script passes it: nothing negative names a run.
pub fn run_id_of(n: i64) -> (id: u64)
    ensures
        id as int == if n < 0 {
            0
        } else {
            n as int
        },
{
    if n < 0 {
        0
    } else {
        n as u64
    }
}

/// Why a thread may not wait for run `id`, if it may not: a thread that joined
/// itself would only ever wait out its time.
pub fn join_refusal(current: &CurrentRun, id: u64) -> (r: Option<&'static str>)
    ensures
        match r {
            Some(message) => current.id == Some(id) && message@
                == "thread.join: a thread cannot join itself"@,
            None => current.id != Some(id),
        },
{
    match current_run_id(current) {
        Some(own) => if own == id {
            Some("thread.join: a thread cannot join itself")
        } else {
            None
        },
        None => None,
    }
}

/// What a join hands to the script beside the status.
pub enum JoinValue {
    /// The JSON of what a finished run returned.
    Json(String),
    /// Why a failed run failed.
    Error(String),
    Nothing,
}

/// The value a join reports: what a finished run returned, the error of a failed
/// one, and nothing otherwise.
pub fn join_value(status: RunStatus, result: Option<String>, error: Option<String>) -> (v: JoinValue)
    ensures
        match v {
            JoinValue::Json(json) => status == RunStatus::Finished && result == Some(json),
            JoinValue::Error(e) => status == RunStatus::Failed && error == Some(e),
            JoinValue::Nothing => {
                &&& status == RunStatus::Finished ==> result is None
                &&& status == RunStatus::Failed ==> error is None
            },
        },
{
    match status {
        RunStatus::Finished => match result {
            Some(json) => JoinValue::Json(json),
            None => JoinValue::Nothing,
        },
        RunStatus::Failed => match error {
            Some(e) => JoinValue::Error(e),
            None => JoinValue::Nothing,
        },
        _ => JoinValue::Nothing,
    }
}

/// What the instruction hook raises, if anything: a kill first, then a stretch
/// awake past the deadline. Times are microseconds on one clock.
pub fn hook_error(cancelled: bool, deadline: Option<u64>, now: u64) -> (r: Option<&'static str>)
    ensures
        match r {
            Some(message) => {
                ||| cancelled && message@ == "thread was killed"@
                ||| !cancelled && deadline is Some && now >= deadline->0 && message@
                    == "thread ran too long without sleeping (execution time limit)"@
            },
            None => !cancelled && (deadline is Some ==> now < deadline->0),
        },
{
    if cancelled {
        return Some("thread was killed");
    }
    match deadline {
        Some(at) => if now >= at {
            Some("thread ran too long without sleeping (execution time limit)")
        } else {
            None
        },
        None => None,
    }
}

/// When the next awake stretch has to be over.
pub fn next_deadline(now: u64, timeout: Option<u64>) -> (r: Option<u64>)
    requires
        timeout is Some ==> now + timeout->0 <= u64::MAX,
    ensures
        match timeout {
            Some(t) => r == Some((now + t) as u64),
            None => r is None,
        },
{
    match timeout {
        Some(t) => Some(now + t),
        None => None,
    }
}

/// What a sleeping thread does next.
#[derive(Clone, Copy, PartialEq, Eq, Debug, Structural)]
pub enum SleepStep {
    Awake,
    Killed,
    /// Sleep for this long, then look again.
    Nap(u64),
}

/// One look of a sleeping thread: slices rather than one long sleep, so a kill
/// lands promptly instead of after the full nap.
pub fn sleep_step(now: u64, wake_at: u64, cancelled: bool) -> (step: SleepStep)
    ensures
        step == (if now >= wake_at {
            SleepStep::Awake
        } else if cancelled {
            SleepStep::Killed
        } else if wake_at - now < KILL_CHECK_INTERVAL_US {
            SleepStep::Nap((wake_at - now) as u64)
        } else {
            SleepStep::Nap(KILL_CHECK_INTERVAL_US)
        }),
        step matches SleepStep::Nap(us) ==> us <= 100_000 && (us == 100_000 || now + us == wake_at),
{
    if now >= wake_at {
        return SleepStep::Awake;
    }
    if cancelled {
        return SleepStep::Killed;
    }
    let left: u64 = wake_at - now;
    if left < KILL_CHECK_INTERVAL_US {
        SleepStep::Nap(left)
    } else {
        SleepStep::Nap(KILL_CHECK_INTERVAL_US)
    }
}

/// How a run ended, from what its script came to. A killed thread unwinds through
/// the same error path as a broken one; the flag is what separates them, and its
/// error text is dropped, since a stop is not a fault.
pub fn run_outcome(script: Result<Option<String>, String>, cancelled: bool) -> (r: (
    RunStatus,
    Option<String>,
    Option<String>,
))
    ensures
        match script {
            Ok(result) => r == (RunStatus::Finished, result, None::<String>),
            Err(e) => r == (if cancelled {
                (RunStatus::Cancelled, None::<String>, None::<String>)
            } else {
                (RunStatus::Failed, None::<String>, Some(e))
            }),
        },
        r.0 != RunStatus::Running,
        fits(r.0, opt_view(r.1), opt_view(r.2)),
{
    match script {
        Ok(result) => (RunStatus::Finished, result, None),
        Err(e) => if cancelled {
            (RunStatus::Cancelled, None, None)
        } else {
            (RunStatus::Failed, None, Some(e))
        },
    }
}

// ---- what every step does -----------------------------------------------------------

/// A name is held by the run that last took it: one more entry decides its own name and
/// no other.
pub proof fn law_names_are_held_by_their_run(
    v: RegistryView,
    name: Seq<char>,
    id: u64,
    other: Seq<char>,
)
    requires
        other != name,
    ensures
        ({
            let w = RegistryView { live: v.live.push((name, id)), ..v };
            w.holder(name) == Some(id) && w.holder(other) == v.holder(other)
        }),
        RegistryView::fresh().holder(name) is None,
{
    let live = v.live.push((name, id));
    assert(live.drop_last() =~= v.live);
    lemma_place(v.live, other);
    assert(place(live, name) == v.live.len());
    assert(place(live, other) == place(v.live, other));
}

/// What claiming a free name does: one more run, live under that name, with the next
/// id, nothing said and not asked to stop; every other run and name is as it was.
pub proof fn law_claiming_a_name(v: RegistryView, name: Seq<char>, other: u64, other_name: Seq<char>)
    requires
        v.valid(),
        v.holder(name) is None,
        v.live.len() < 64,
        v.next_id < u64::MAX,
        other != v.next_id + 1,
        other_name != name,
    ensures
        ({
            let w = v.after(Step::Claim(name));
            let id = (v.next_id + 1) as u64;
            &&& w.next_id == v.next_id + 1
            &&& w.runs.contains_key(id)
            &&& w.runs[id].name == name
            &&& w.runs[id].status == RunStatus::Running
            &&& w.runs[id].result is None
            &&& w.runs[id].error is None
            &&& !w.runs[id].cancel
            &&& w.holder(name) == Some(id)
            &&& w.holder(other_name) == v.holder(other_name)
            &&& w.runs.contains_key(other) <==> v.runs.contains_key(other)
            &&& w.runs.contains_key(other) ==> w.runs[other] == v.runs[other]
            &&& w.live.len() == v.live.len() + 1
            &&& w.finished == v.finished
            &&& v.handed_out(Step::Claim(name)) == Some(id)
        }),
{
    law_claim_keeps_valid(v, name);
    law_names_are_held_by_their_run(v, name, (v.next_id + 1) as u64, other_name);
    lemma_place(v.live, other_name);
    lemma_place(v.claimed(name).live, other_name);
}

/// Claiming a name that is taken changes nothing, and neither does claiming one where
/// sixty-four runs are live.
pub proof fn law_taken_names_stay(v: RegistryView, name: Seq<char>)
    requires
        v.holder(name) is Some || v.live.len() >= 64,
    ensures
        v.after(Step::Claim(name)) == v,
        v.handed_out(Step::Claim(name)) is None,
{
}

/// Ending a run leaves every other name with the run that holds it.
pub proof fn law_ending_frees_one_name(
    v: RegistryView,
    id: u64,
    status: RunStatus,
    result: Option<Seq<char>>,
    error: Option<Seq<char>>,
    other: u64,
)
    requires
        v.valid(),
        v.running(id),
        v.running(other),
        other != id,
        status != RunStatus::Running,
        fits(status, result, error),
    ensures
        v.ended(id, status, result, error).holder(v.runs[other].name) == Some(other),
        v.ended(id, status, result, error).live.len() == v.live.len() - 1,
        v.ended(id, status, result, error).finished == (if v.finished.len() < 256 {
            v.finished.push(id)
        } else {
            v.finished.push(id).skip(1)
        }),
{
    law_end_keeps_valid(v, id, status, result, error);
    law_ending_a_run(v, id, other, status, result, error);
    let w = v.ended(id, status, result, error);
    lemma_place(v.live, v.runs[id].name);
    assert(v.holder(v.runs[id].name) == Some(id));
    if v.finished.len() == MAX_FINISHED_RUNS {
        assert(v.runs[v.finished[0]].status != RunStatus::Running);
    }
    assert(w.running(other));
}

/// Asking a live run to stop raises its flag and changes nothing else; asking any other
/// changes nothing at all.
pub proof fn law_stopping_raises_one_flag(v: RegistryView, id: u64, other: u64)
    ensures
        ({
            let w = v.asked_to_stop(id);
            &&& v.running(id) ==> w.runs.contains_key(id) && w.runs[id].cancel && w.runs[id].name
                == v.runs[id].name && w.runs[id].status == RunStatus::Running && w.runs[id].result
                == v.runs[id].result && w.runs[id].error == v.runs[id].error
            &&& !v.running(id) ==> w == v
            &&& other != id ==> (w.runs.contains_key(other) <==> v.runs.contains_key(other))
            &&& other != id && w.runs.contains_key(other) ==> w.runs[other] == v.runs[other]
            &&& w.live == v.live && w.finished == v.finished && w.next_id == v.next_id
            &&& v.after(Step::Stop(id)) == w
        }),
{
}

/// A registry never holds more than sixty-four live runs and remembers no more than two
/// hundred and fifty-six ended ones.
pub proof fn law_registries_stay_small(v: RegistryView)
    requires
        v.valid(),
    ensures
        v.live.len() <= 64,
        v.finished.len() <= 256,
{
}

/// The words for what a run is doing.
pub proof fn law_statuses_have_their_words()
    ensures
        RunStatus::Running.word() == seq!['r', 'u', 'n', 'n', 'i', 'n', 'g'],
        RunStatus::Finished.word() == seq!['f', 'i', 'n', 'i', 's', 'h', 'e', 'd'],
        RunStatus::Failed.word() == seq!['f', 'a', 'i', 'l', 'e', 'd'],
        RunStatus::Cancelled.word() == seq!['c', 'a', 'n', 'c', 'e', 'l', 'l', 'e', 'd'],
{
    reveal_strlit("running");
    reveal_strlit("finished");
    reveal_strlit("failed");
    reveal_strlit("cancelled");
    assert("running"@ =~= seq!['r', 'u', 'n', 'n', 'i', 'n', 'g']);
    assert("finished"@ =~= seq!['f', 'i', 'n', 'i', 's', 'h', 'e', 'd']);
    assert("failed"@ =~= seq!['f', 'a', 'i', 'l', 'e', 'd']);
    assert("cancelled"@ =~= seq!['c', 'a', 'n', 'c', 'e', 'l', 'l', 'e', 'd']);
}

/// A script is looked for below the serve directory, with any slashes in front of its
/// name dropped.
pub proof fn law_scripts_are_looked_for_below(serve_dir: Seq<u8>, slashes: nat, rel: Seq<char>)
    requires
        rel.len() == 0 || rel[0] != '/',
    ensures
        script_location(serve_dir, Seq::new(slashes, |i: int| '/') + rel) == path::joined(
            serve_dir,
            encode_utf8(rel),
        ),
{
    text::law_leading_slashes_are_dropped(slashes, rel);
}

/// A script may run exactly when it is a `.lua` file of the serve directory, at any
/// depth, hidden or not.
pub proof fn law_lua_files_of_the_serve_dir_may_run(
    serve_dir: Seq<u8>,
    rel: Seq<char>,
    p: Seq<u8>,
    is_file: bool,
    e: Seq<char>,
)
    ensures
        path::within(p, serve_dir) && is_file && path::lua_file(p) ==> script_verdict(
            serve_dir,
            rel,
            Ok(p),
            is_file,
        ) == Ok::<Seq<u8>, Seq<char>>(p),
        !path::within(p, serve_dir) ==> script_verdict(serve_dir, rel, Ok(p), is_file) == Err::<
            Seq<u8>,
            Seq<char>,
        >("thread script '"@ + rel + "': escapes the serve directory"@),
        path::within(p, serve_dir) && !(is_file && path::lua_file(p)) ==> script_verdict(
            serve_dir,
            rel,
            Ok(p),
            is_file,
        ) == Err::<Seq<u8>, Seq<char>>("thread script '"@ + rel + "': must be a .lua file"@),
        script_verdict(serve_dir, rel, Err(e), is_file) == Err::<Seq<u8>, Seq<char>>(
            "thread script '"@ + rel + "': not found: "@ + e,
        ),
{
}

/// A spawn is refused exactly when its name is empty or over 64 bytes, its arguments
/// are over one mebibyte or its script may not run.
pub proof fn law_spawns_are_refused_for_a_reason(
    name: Seq<char>,
    args: Option<Seq<char>>,
    script: Result<Seq<u8>, Seq<char>>,
)
    ensures
        spawn_refusal(name, args, script) is None <==> name.len() > 0 && encode_utf8(name).len()
            <= 64 && (args is None || encode_utf8(args->0).len() <= 1_048_576) && script is Ok,
        name.len() > 0 && encode_utf8(name).len() <= 64 && (args is None || encode_utf8(
            args->0,
        ).len() <= 1_048_576) && script is Err ==> spawn_refusal(name, args, script) == Some(
            script->Err_0,
        ),
        name.len() == 0 || encode_utf8(name).len() > 64 ==> spawn_refusal(name, args, script)
            == Some("thread name must be 1..=64 characters"@),
        name.len() > 0 && encode_utf8(name).len() <= 64 && args is Some && encode_utf8(
            args->0,
        ).len() > 1_048_576 ==> spawn_refusal(name, args, script) == Some(
            "thread args are "@ + text::decimal(encode_utf8(args->0).len())
                + " bytes, over the 1048576 byte limit"@,
        ),
{
}

/// A run is spoken of as what it is, and so are an optional text and a path.
pub proof fn law_runs_are_seen_as_they_are(run: Run, s: String, p: PathBytes)
    ensures
        run@.name == run.name@,
        run@.status == run.status,
        run@.cancel == run.cancel,
        run.result is Some ==> run@.result == Some(run.result->0@),
        run.result is None ==> run@.result is None,
        run.error is Some ==> run@.error == Some(run.error->0@),
        run.error is None ==> run@.error is None,
        opt_view(Some(s)) == Some(s@),
        opt_view(None) is None,
        path_result(Ok(p)) == Ok::<Seq<u8>, Seq<char>>(p@),
        path_result(Err(s)) == Err::<Seq<u8>, Seq<char>>(s@),
{
}

} // verus!
