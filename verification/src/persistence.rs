//! Saving and restoring state.
//!
//! Every vector can be computed again from texts and a seed, so a snapshot
//! holds neither vectors nor memories: only the shape of a store, its seed,
//! its values in order, and for every shard its keys with the indices of
//! their values.

use crate::adaptive::{self, AdaptiveMemory};
use crate::audit::{self, AuditEvent, AuditTrail};
use crate::extractor::Extractor;
use crate::hlb::{self, HlbError};
use crate::kernel::{self, Kernel};
use crate::personal::{self, PersonalMemory};
use crate::resonator;
use crate::text::{self, copy_texts, decimal_string};
use crate::vocab;
use std::sync::Arc;
use vstd::prelude::*;

verus! {

broadcast use vstd::string::group_string_axioms;

/// The version of the snapshot format.
pub const SCHEMA_VERSION: u32 = 1;

/// Why state could not be saved or restored.
#[derive(Debug)]
pub enum PersistError {
    /// Reading or writing failed.
    Io(String),
    /// The bytes do not hold a snapshot.
    Serde(String),
    /// The store refused.
    Hlb(HlbError),
    /// The snapshot does not fit together.
    Corrupt(String),
}

/// The message for an error.
pub open spec fn error_text(e: PersistError) -> Seq<char> {
    match e {
        PersistError::Io(s) => "io: "@ + s@,
        PersistError::Serde(s) => "serde: "@ + s@,
        PersistError::Hlb(h) => "hlb: "@ + hlb::error_text(h),
        PersistError::Corrupt(s) => "corrupted state: "@ + s@,
    }
}

/// Each message begins with where the failure comes from, and goes on with what it
/// says.
pub proof fn errors_say_where_they_come_from(s: String, h: HlbError)
    ensures
        error_text(PersistError::Io(s)) == "io: "@ + s@,
        error_text(PersistError::Serde(s)) == "serde: "@ + s@,
        error_text(PersistError::Hlb(h)) == "hlb: "@ + hlb::error_text(h),
        error_text(PersistError::Corrupt(s)) == "corrupted state: "@ + s@,
{
}

/// A message on versions names the one that was found before the one that is known.
pub proof fn the_found_version_is_named_first(
    before: Seq<char>,
    found: u32,
    between: Seq<char>,
    known: u32,
)
    ensures
        ({
            let f = text::decimal(found as nat);
            let k = text::decimal(known as nat);
            let t = version_text(before, found, between, known);
            &&& t.len() == before.len() + f.len() + between.len() + k.len()
            &&& t.take(before.len() as int) == before
            &&& t.subrange(before.len() as int, (before.len() + f.len()) as int) == f
            &&& t.skip((before.len() + f.len() + between.len()) as int) == k
        }),
{
    let f = text::decimal(found as nat);
    let k = text::decimal(known as nat);
    let t = version_text(before, found, between, known);
    assert(t.take(before.len() as int) =~= before);
    assert(t.subrange(before.len() as int, (before.len() + f.len()) as int) =~= f);
    assert(t.skip((before.len() + f.len() + between.len()) as int) =~= k);
}

impl PersistError {
    /// The message for this error.
    pub fn message(&self) -> (r: String)
        ensures
            r@ == error_text(*self),
    {
        let mut out = String::new();
        match self {
            PersistError::Io(s) => {
                out.append("io: ");
                out.append(s);
            },
            PersistError::Serde(s) => {
                out.append("serde: ");
                out.append(s);
            },
            PersistError::Hlb(h) => {
                out.append("hlb: ");
                out.append(&h.message());
            },
            PersistError::Corrupt(s) => {
                out.append("corrupted state: ");
                out.append(s);
            },
        }
        assert(out@ =~= error_text(*self));
        out
    }
}

/// What is said of a snapshot of another version: the words before the
/// version, the version, the words between, and the version that is known.
pub open spec fn version_text(
    before: Seq<char>,
    found: u32,
    between: Seq<char>,
    known: u32,
) -> Seq<char> {
    before + text::decimal(found as nat) + between + text::decimal(known as nat)
}

/// Says that a snapshot has another version.
pub fn version_message(before: &str, found: u32, between: &str, known: u32) -> (r: String)
    ensures
        r@ == version_text(before@, found, between@, known),
{
    let mut out = String::new();
    out.append(before);
    out.append(&decimal_string(found as u64));
    out.append(between);
    out.append(&decimal_string(known as u64));
    assert(out@ =~= version_text(before@, found, between@, known));
    out
}

// ---------------------------------------------------------------------
// Stores of facts
// ---------------------------------------------------------------------

/// A store of facts as it is saved.
#[derive(Debug)]
pub struct AdaptiveSnapshot {
    pub schema_version: u32,
    pub dim: usize,
    pub shard_capacity: usize,
    pub vocab_cap: usize,
    pub vocab_seed: u64,
    /// The values in the order of their registration.
    pub vocab_keys: Vec<String>,
    /// The facts of each shard in the order in which they were stored.
    pub shards: Vec<Vec<(String, usize)>>,
}

/// What is saved of a store.
#[verifier::ext_equal]
pub struct SavedStore {
    pub dim: nat,
    pub capacity: nat,
    pub seed: u64,
    pub room: nat,
    pub names: Seq<Seq<char>>,
    pub shards: Seq<Seq<(Seq<char>, int)>>,
}

impl View for AdaptiveSnapshot {
    type V = SavedStore;

    open spec fn view(&self) -> SavedStore {
        SavedStore {
            dim: self.dim as nat,
            capacity: self.shard_capacity as nat,
            seed: self.vocab_seed,
            room: self.vocab_cap as nat,
            names: text::texts(self.vocab_keys@),
            shards: self.shards@.map_values(|v: Vec<(String, usize)>| adaptive::pairs(v@)),
        }
    }
}

/// What is to be saved of a state.
pub open spec fn saved(v: adaptive::StoreState) -> SavedStore {
    SavedStore {
        dim: v.dim,
        capacity: v.capacity,
        seed: v.seed,
        room: v.room,
        names: v.names,
        shards: v.shards.map_values(|s: adaptive::ShardState| s.facts),
    }
}

/// One step of restoring a store.
pub enum Step {
    /// A value is registered.
    Register(Seq<char>),
    /// A shard is opened.
    Open,
    /// A fact is put back: its key and the index of its value.
    Put(Seq<char>, int),
}

/// The steps that register values.
pub open spec fn register_steps(names: Seq<Seq<char>>) -> Seq<Step> {
    names.map_values(|n: Seq<char>| Step::Register(n))
}

/// The steps that put the facts of a shard back.
pub open spec fn put_steps(facts: Seq<(Seq<char>, int)>) -> Seq<Step> {
    facts.map_values(|f: (Seq<char>, int)| Step::Put(f.0, f.1))
}

/// The steps that restore shards.
pub open spec fn shard_steps(shards: Seq<Seq<(Seq<char>, int)>>) -> Seq<Step>
    decreases shards.len(),
{
    if shards.len() == 0 {
        Seq::empty()
    } else {
        shard_steps(shards.drop_last()).push(Step::Open) + put_steps(shards.last())
    }
}

/// All steps: the values in order, then the shards.
pub open spec fn all_steps(s: SavedStore) -> Seq<Step> {
    register_steps(s.names) + shard_steps(s.shards)
}

/// What is said of an index that no value has.
pub open spec fn out_of_range_text(idx: nat) -> Seq<char> {
    "vocab_idx "@ + text::decimal(idx) + " out of range"@
}

/// A saved index that no saved value has is named where a fact is put back.
pub proof fn an_index_out_of_range_is_named<K: Kernel>(
    k: K,
    names: Seq<Seq<char>>,
    v: adaptive::StoreState,
    key: Seq<char>,
    idx: int,
    w: adaptive::StoreState,
    r: Result<(), PersistError>,
)
    requires
        step_gives(k, names, v, Step::Put(key, idx), w, r),
        idx >= names.len(),
    ensures
        w == v,
        r matches Err(PersistError::Corrupt(t)) && t@ == "vocab_idx "@ + text::decimal(idx as nat)
            + " out of range"@,
{
}

/// What registering a value comes to.
pub open spec fn register_gives(
    v: adaptive::StoreState,
    value: Seq<char>,
    w: adaptive::StoreState,
    r: Result<(), PersistError>,
) -> bool {
    exists|s: Result<usize, HlbError>| #[trigger]
        vocab::registered(v.names, v.room, value, w.names, s) && w == (adaptive::StoreState {
            names: w.names,
            ..v
        }) && same_outcome(s, r)
}

/// What putting a fact back comes to.
pub open spec fn put_gives<K: Kernel>(
    k: K,
    v: adaptive::StoreState,
    key: Seq<char>,
    value: Seq<char>,
    w: adaptive::StoreState,
    r: Result<(), PersistError>,
) -> bool {
    exists|s: Result<usize, HlbError>| #[trigger]
        adaptive::put_back_gives(k, v, key, value, w, s) && same_outcome(s, r)
}

/// What one step comes to, where `names` are the saved values.
pub open spec fn step_gives<K: Kernel>(
    k: K,
    names: Seq<Seq<char>>,
    v: adaptive::StoreState,
    step: Step,
    w: adaptive::StoreState,
    r: Result<(), PersistError>,
) -> bool {
    match step {
        Step::Register(value) => register_gives(v, value, w, r),
        Step::Open => w == (adaptive::StoreState {
            shards: v.shards.push(adaptive::empty_shard(v.dim)),
            ..v
        }) && r is Ok,
        Step::Put(key, idx) => if 0 <= idx < names.len() {
            put_gives(k, v, key, names[idx], w, r)
        } else {
            w == v && (r matches Err(PersistError::Corrupt(t)) && t@ == out_of_range_text(
                idx as nat,
            ))
        },
    }
}

/// A store's refusal is passed on.
pub open spec fn same_outcome(s: Result<usize, HlbError>, r: Result<(), PersistError>) -> bool {
    match s {
        Ok(_) => r is Ok,
        Err(e) => r == Err::<(), PersistError>(PersistError::Hlb(e)),
    }
}

/// What a step comes to after earlier steps: nothing once one has failed.
pub open spec fn step_after<K: Kernel>(
    k: K,
    names: Seq<Seq<char>>,
    mid: adaptive::StoreState,
    done: Result<(), PersistError>,
    step: Step,
    w: adaptive::StoreState,
    r: Result<(), PersistError>,
) -> bool {
    if done is Ok {
        step_gives(k, names, mid, step, w, r)
    } else {
        w == mid && r == done
    }
}

/// What steps one after the other come to.
pub open spec fn steps_give<K: Kernel>(
    k: K,
    names: Seq<Seq<char>>,
    v: adaptive::StoreState,
    steps: Seq<Step>,
    w: adaptive::StoreState,
    r: Result<(), PersistError>,
) -> bool
    decreases steps.len(),
{
    if steps.len() == 0 {
        w == v && r is Ok
    } else {
        exists|mid: adaptive::StoreState, done: Result<(), PersistError>|
            steps_give(k, names, v, steps.drop_last(), mid, done) && #[trigger] step_after(
                k,
                names,
                mid,
                done,
                steps.last(),
                w,
                r,
            )
    }
}

/// An empty store with the shape of a saved one.
pub open spec fn blank(s: SavedStore, rows: Seq<Seq<u32>>) -> adaptive::StoreState {
    adaptive::StoreState {
        dim: s.dim,
        capacity: s.capacity,
        seed: s.seed,
        room: s.room,
        names: Seq::empty(),
        rows,
        shards: Seq::empty(),
    }
}

/// One more step.
proof fn steps_then<K: Kernel>(
    k: K,
    names: Seq<Seq<char>>,
    v: adaptive::StoreState,
    steps: Seq<Step>,
    mid: adaptive::StoreState,
    done: Result<(), PersistError>,
    step: Step,
    w: adaptive::StoreState,
    r: Result<(), PersistError>,
)
    requires
        steps_give(k, names, v, steps, mid, done),
        step_after(k, names, mid, done, step, w, r),
    ensures
        steps_give(k, names, v, steps.push(step), w, r),
{
    assert(steps.push(step).drop_last() =~= steps);
    assert(steps.push(step).last() == step);
}

/// Steps behind one that failed are not taken.
proof fn steps_no_further<K: Kernel>(
    k: K,
    names: Seq<Seq<char>>,
    v: adaptive::StoreState,
    steps: Seq<Step>,
    w: adaptive::StoreState,
    r: Result<(), PersistError>,
    more: Seq<Step>,
)
    requires
        steps_give(k, names, v, steps, w, r),
        r is Err,
    ensures
        steps_give(k, names, v, steps + more, w, r),
    decreases more.len(),
{
    if more.len() == 0 {
        assert(steps + more =~= steps);
    } else {
        steps_no_further(k, names, v, steps, w, r, more.drop_last());
        steps_then(k, names, v, steps + more.drop_last(), w, r, more.last(), w, r);
        assert((steps + more.drop_last()).push(more.last()) =~= steps + more);
    }
}

impl<K: Kernel> AdaptiveMemory<K> {
    /// What is to be saved of this store.
    pub fn build_snapshot(&self) -> (r: AdaptiveSnapshot)
        requires
            self.wf(),
        ensures
            r.schema_version == SCHEMA_VERSION,
            r.schema_version == 1,
            r@ == saved(self@),
    {
        let n = self.n_shards();
        let mut shards: Vec<Vec<(String, usize)>> = Vec::with_capacity(n);
        let mut i: usize = 0;
        while i < n
            invariant
                self.wf(),
                i <= n == self@.shards.len(),
                shards@.len() == i,
                forall|j: int|
                    0 <= j < i ==> adaptive::pairs((#[trigger] shards@[j])@)
                        == self@.shards[j].facts,
            decreases n - i,
        {
            shards.push(self.shard_pairs(i));
            i += 1;
        }
        let vocabulary = self.vocab();
        let total = vocabulary.len();
        let mut vocab_keys: Vec<String> = Vec::with_capacity(total);
        let mut j: usize = 0;
        while j < total
            invariant
                j <= total == vocabulary.names().len(),
                vocab_keys@.len() == j,
                forall|a: int|
                    0 <= a < j ==> (#[trigger] vocab_keys@[a])@ == vocabulary.names()[a],
            decreases total - j,
        {
            match vocabulary.key_at(j) {
                Some(value) => vocab_keys.push(value.to_string()),
                None => {
                    assert(false);
                },
            }
            j += 1;
        }
        let r = AdaptiveSnapshot {
            schema_version: SCHEMA_VERSION,
            dim: self.dim(),
            shard_capacity: self.shard_capacity(),
            vocab_cap: vocabulary.cap(),
            vocab_seed: vocabulary.seed(),
            vocab_keys,
            shards,
        };
        assert(r@.names =~= self@.names);
        assert(r@.shards =~= saved(self@).shards);
        r
    }

    /// The store that a snapshot was made of. All vectors are computed again:
    /// those of the vocabulary from the seed, the memories by putting every
    /// fact back into its shard. A snapshot of another version is refused, and
    /// so is one that names a value which it does not list.
    pub fn from_snapshot(kernel: Arc<K>, snap: AdaptiveSnapshot) -> (r: Result<Self, PersistError>)
        requires
            snap.vocab_cap * snap.dim <= usize::MAX,
        ensures
            snap.schema_version != 1 ==> r is Err,
            if snap.schema_version != SCHEMA_VERSION {
                r matches Err(PersistError::Corrupt(s)) && s@ == version_text(
                    "schema "@,
                    snap.schema_version,
                    " != current "@,
                    SCHEMA_VERSION,
                )
            } else {
                match r {
                    Ok(m) => {
                        &&& m.wf()
                        &&& m.arithmetic() == *kernel
                        &&& adaptive::drawn_gives(
                            *kernel,
                            snap@.room,
                            snap@.dim,
                            snap@.seed,
                            m@.rows,
                        )
                        &&& exists|done: Result<(), PersistError>|
                            done is Ok && #[trigger] steps_give(
                                *kernel,
                                snap@.names,
                                blank(snap@, m@.rows),
                                all_steps(snap@),
                                m@,
                                done,
                            )
                    },
                    Err(e) => {
                        ||| e == PersistError::Hlb(HlbError::ZeroNorm)
                            && adaptive::some_row_vanishes(
                            *kernel,
                            snap@.room,
                            snap@.dim,
                            snap@.seed,
                        )
                        ||| exists|rows: Seq<Seq<u32>>, w: adaptive::StoreState| #[trigger]
                            steps_give(
                                *kernel,
                                snap@.names,
                                blank(snap@, rows),
                                all_steps(snap@),
                                w,
                                Err(e),
                            ) && adaptive::drawn_gives(
                                *kernel,
                                snap@.room,
                                snap@.dim,
                                snap@.seed,
                                rows,
                            )
                    },
                }
            },
    {
        if snap.schema_version != SCHEMA_VERSION {
            return Err(
                PersistError::Corrupt(
                    version_message(
                        "schema ",
                        snap.schema_version,
                        " != current ",
                        SCHEMA_VERSION,
                    ),
                ),
            );
        }
        let mut am = match AdaptiveMemory::new(
            kernel.clone(),
            snap.dim,
            snap.vocab_cap,
            Some(snap.shard_capacity),
            snap.vocab_seed,
        ) {
            Ok(m) => m,
            Err(e) => return Err(PersistError::Hlb(e)),
        };
        let ghost k = am.arithmetic();
        let ghost names = snap@.names;
        let ghost start = am@;
        let ghost rows = am@.rows;
        let ghost steps = all_steps(snap@);
        assert(start =~= blank(snap@, rows));
        let ghost mut done: Result<(), PersistError> = Ok(());
        let mut i: usize = 0;
        assert(steps.take(0) =~= Seq::empty());
        while i < snap.vocab_keys.len()
            invariant
                snap.schema_version == SCHEMA_VERSION,
                k == *kernel,
                names == snap@.names,
                steps == all_steps(snap@),
                start == blank(snap@, rows),
                adaptive::drawn_gives(k, snap@.room, snap@.dim, snap@.seed, rows),
                am.wf(),
                am.arithmetic() == k,
                am@.rows == rows,
                i <= snap.vocab_keys@.len(),
                done is Ok,
                steps_give(k, names, start, steps.take(i as int), am@, done),
            decreases snap.vocab_keys@.len() - i,
        {
            let ghost before = am@;
            let outcome = am.register_value(&snap.vocab_keys[i]);
            let ghost step = Step::Register(names[i as int]);
            assert(steps[i as int] == step);
            assert(steps.take(i as int).push(step) =~= steps.take(i + 1));
            if let Err(e) = outcome {
                proof {
                    assert(vocab::registered(
                        before.names,
                        before.room,
                        names[i as int],
                        am@.names,
                        outcome,
                    ));
                    let r: Result<(), PersistError> = Err(PersistError::Hlb(e));
                    assert(outcome == Err::<usize, HlbError>(e));
                    assert(same_outcome(outcome, r));
                    assert(am@ == (adaptive::StoreState { names: am@.names, ..before }));
                    assert(register_gives(before, names[i as int], am@, r));
                    assert(step_gives(k, names, before, step, am@, r));
                    steps_then(k, names, start, steps.take(i as int), before, done, step, am@, r);
                    steps_no_further(
                        k,
                        names,
                        start,
                        steps.take(i + 1),
                        am@,
                        r,
                        steps.skip(i + 1),
                    );
                    assert(steps.take(i + 1) + steps.skip(i + 1) =~= steps);
                }
                return Err(PersistError::Hlb(e));
            }
            proof {
                assert(vocab::registered(
                    before.names,
                    before.room,
                    names[i as int],
                    am@.names,
                    outcome,
                ));
                assert(step_gives(k, names, before, step, am@, done));
                steps_then(k, names, start, steps.take(i as int), before, done, step, am@, done);
            }
            i += 1;
        }
        let ghost base = names.len();
        let mut s: usize = 0;
        assert(snap@.shards.take(0) =~= Seq::empty());
        assert(register_steps(names) + shard_steps(snap@.shards.take(0)) =~= steps.take(
            base as int,
        ));
        while s < snap.shards.len()
            invariant
                snap.schema_version == SCHEMA_VERSION,
                k == *kernel,
                names == snap@.names,
                steps == all_steps(snap@),
                start == blank(snap@, rows),
                adaptive::drawn_gives(k, snap@.room, snap@.dim, snap@.seed, rows),
                am.wf(),
                am.arithmetic() == k,
                am@.rows == rows,
                s <= snap.shards@.len(),
                done is Ok,
                steps_give(
                    k,
                    names,
                    start,
                    register_steps(names) + shard_steps(snap@.shards.take(s as int)),
                    am@,
                    done,
                ),
            decreases snap.shards@.len() - s,
        {
            let ghost before = am@;
            let ghost so_far = register_steps(names) + shard_steps(snap@.shards.take(s as int));
            am.open_shard();
            let ghost opened = so_far.push(Step::Open);
            proof {
                assert(step_gives(k, names, before, Step::Open, am@, done));
                steps_then(k, names, start, so_far, before, done, Step::Open, am@, done);
            }
            let list = &snap.shards[s];
            let ghost facts = adaptive::pairs(list@);
            assert(snap@.shards[s as int] == facts);
            let ghost now = snap@.shards.take(s + 1);
            assert(now.drop_last() =~= snap@.shards.take(s as int));
            assert(now.last() == facts);
            assert(register_steps(names) + shard_steps(now) =~= opened + put_steps(facts));
            let mut i: usize = 0;
            assert(opened + put_steps(facts).take(0) =~= opened);
            while i < list.len()
                invariant
                    snap.schema_version == SCHEMA_VERSION,
                    k == *kernel,
                    names == snap@.names,
                    steps == all_steps(snap@),
                    start == blank(snap@, rows),
                    adaptive::drawn_gives(k, snap@.room, snap@.dim, snap@.seed, rows),
                    am.wf(),
                    am.arithmetic() == k,
                    am@.rows == rows,
                    s < snap.shards@.len(),
                    now == snap@.shards.take(s + 1),
                    register_steps(names) + shard_steps(now) == opened + put_steps(facts),
                    facts == adaptive::pairs(list@),
                    i <= list@.len(),
                    done is Ok,
                    steps_give(
                        k,
                        names,
                        start,
                        opened + put_steps(facts).take(i as int),
                        am@,
                        done,
                    ),
                decreases list@.len() - i,
            {
                let ghost before = am@;
                let ghost so_far = opened + put_steps(facts).take(i as int);
                let ghost step = Step::Put(facts[i as int].0, facts[i as int].1);
                assert(put_steps(facts)[i as int] == step);
                let ghost next = opened + put_steps(facts).take(i + 1);
                assert(so_far.push(step) =~= next);
                assert(facts[i as int] == (list@[i as int].0@, list@[i as int].1 as int));
                let idx = list[i].1;
                if idx >= snap.vocab_keys.len() {
                    let mut message = String::new();
                    message.append("vocab_idx ");
                    message.append(&decimal_string(idx as u64));
                    message.append(" out of range");
                    assert(message@ =~= out_of_range_text(idx as nat));
                    let e = PersistError::Corrupt(message);
                    proof {
                        let r: Result<(), PersistError> = Err(e);
                        assert(step_gives(k, names, before, step, am@, r));
                        steps_then(k, names, start, so_far, before, done, step, am@, r);
                        failed_inside(k, names, start, snap@, s as int, opened, facts, i + 1, am@, r);
                    }
                    return Err(e);
                }
                let outcome = am.put_back(&list[i].0, &snap.vocab_keys[idx]);
                proof {
                    assert(names[idx as int] == snap.vocab_keys@[idx as int]@);
                    assert(adaptive::put_back_gives(
                        k,
                        before,
                        facts[i as int].0,
                        names[idx as int],
                        am@,
                        outcome,
                    ));
                }
                if let Err(e) = outcome {
                    proof {
                        let r: Result<(), PersistError> = Err(PersistError::Hlb(e));
                        assert(same_outcome(outcome, r));
                        assert(step_gives(k, names, before, step, am@, r));
                        steps_then(k, names, start, so_far, before, done, step, am@, r);
                        failed_inside(k, names, start, snap@, s as int, opened, facts, i + 1, am@, r);
                    }
                    return Err(PersistError::Hlb(e));
                }
                proof {
                    assert(same_outcome(outcome, done));
                    assert(step_gives(k, names, before, step, am@, done));
                    steps_then(k, names, start, so_far, before, done, step, am@, done);
                    put_back_keeps_rows(
                        k,
                        before,
                        facts[i as int].0,
                        names[idx as int],
                        am@,
                        outcome,
                    );
                }
                i += 1;
            }
            assert(put_steps(facts).take(i as int) =~= put_steps(facts));
            s += 1;
        }
        assert(snap@.shards.take(s as int) =~= snap@.shards);
        Ok(am)
    }
}

/// Putting a fact back changes no vector of the vocabulary.
proof fn put_back_keeps_rows<K: Kernel>(
    k: K,
    v: adaptive::StoreState,
    key: Seq<char>,
    value: Seq<char>,
    w: adaptive::StoreState,
    r: Result<usize, HlbError>,
)
    requires
        adaptive::put_back_gives(k, v, key, value, w, r),
    ensures
        w.rows == v.rows,
{
}

/// A failure inside a shard is the failure of all steps.
proof fn failed_inside<K: Kernel>(
    k: K,
    names: Seq<Seq<char>>,
    start: adaptive::StoreState,
    snap: SavedStore,
    s: int,
    opened: Seq<Step>,
    facts: Seq<(Seq<char>, int)>,
    n: int,
    w: adaptive::StoreState,
    r: Result<(), PersistError>,
)
    requires
        0 <= s < snap.shards.len(),
        0 <= n <= facts.len(),
        names == snap.names,
        register_steps(names) + shard_steps(snap.shards.take(s + 1)) == opened + put_steps(facts),
        steps_give(k, names, start, opened + put_steps(facts).take(n), w, r),
        r is Err,
    ensures
        steps_give(k, names, start, all_steps(snap), w, r),
{
    let steps = all_steps(snap);
    let done = opened + put_steps(facts).take(n);
    let whole = opened + put_steps(facts);
    shard_steps_extend(snap.shards, s + 1);
    let tail = shard_steps(snap.shards).skip(
        shard_steps(snap.shards.take(s + 1)).len() as int,
    );
    assert(steps =~= whole + tail);
    assert(whole =~= done + put_steps(facts).skip(n));
    steps_no_further(k, names, start, done, w, r, put_steps(facts).skip(n) + tail);
    assert(done + (put_steps(facts).skip(n) + tail) =~= steps);
}

/// The steps for the first shards come first.
proof fn shard_steps_extend(shards: Seq<Seq<(Seq<char>, int)>>, n: int)
    requires
        0 <= n <= shards.len(),
    ensures
        shard_steps(shards.take(n)).len() <= shard_steps(shards).len(),
        shard_steps(shards) == shard_steps(shards.take(n)) + shard_steps(shards).skip(
            shard_steps(shards.take(n)).len() as int,
        ),
    decreases shards.len() - n,
{
    if n == shards.len() {
        assert(shards.take(n) =~= shards);
        assert(shard_steps(shards) =~= shard_steps(shards) + shard_steps(shards).skip(
            shard_steps(shards).len() as int,
        ));
    } else {
        shard_steps_extend(shards, n + 1);
        let a = shard_steps(shards.take(n));
        let b = shard_steps(shards.take(n + 1));
        assert(shards.take(n + 1).drop_last() =~= shards.take(n));
        assert(b == a.push(Step::Open) + put_steps(shards[n]));
        let all = shard_steps(shards);
        assert(all =~= b + all.skip(b.len() as int));
        assert(all =~= a + all.skip(a.len() as int)) by {
            assert forall|i: int| 0 <= i < a.len() implies all[i] == a[i] by {
                assert(b[i] == a[i]);
            }
        }
    }
}

// ---------------------------------------------------------------------
// A store is restored as it was saved
// ---------------------------------------------------------------------

/// What the facts of a shard contribute to its memory.
pub open spec fn shard_parts(
    facts: Seq<(Seq<char>, int)>,
    rows: Seq<Seq<u32>>,
    dim: nat,
) -> Seq<Seq<u32>> {
    facts.map_values(
        |f: (Seq<char>, int)| hlb::signed(resonator::key_role(f.0, dim), rows[f.1]),
    )
}

/// The shard holds the facts, and its memory is the sum of what they
/// contribute, added in order.
pub open spec fn holds<K: Kernel>(
    k: K,
    shard: adaptive::ShardState,
    facts: Seq<(Seq<char>, int)>,
    rows: Seq<Seq<u32>>,
    dim: nat,
) -> bool {
    &&& shard.facts == facts
    &&& shard.memory.len() == dim
    &&& resonator::total_gives(k, dim, shard_parts(facts, rows, dim), shard.memory)
}

/// `w` has the shape and the values of `v`, its first `n` shards hold what
/// those of `v` do, and it has `count` shards.
pub open spec fn replayed<K: Kernel>(
    k: K,
    v: adaptive::StoreState,
    rows: Seq<Seq<u32>>,
    n: nat,
    count: nat,
    w: adaptive::StoreState,
) -> bool {
    &&& w == (adaptive::StoreState { rows, shards: w.shards, ..v })
    &&& w.shards.len() == count
    &&& forall|s: int|
        0 <= s < n ==> holds(k, #[trigger] w.shards[s], v.shards[s].facts, rows, v.dim)
}

proof fn registers_replayed<K: Kernel>(
    k: K,
    v: adaptive::StoreState,
    rows: Seq<Seq<u32>>,
    n: nat,
    w: adaptive::StoreState,
    r: Result<(), PersistError>,
)
    requires
        v.valid(),
        v.room <= usize::MAX,
        n <= v.names.len(),
        steps_give(
            k,
            v.names,
            blank(saved(v), rows),
            register_steps(v.names.take(n as int)),
            w,
            r,
        ),
    ensures
        r is Ok,
        w == (adaptive::StoreState { names: v.names.take(n as int), ..blank(saved(v), rows) }),
    decreases n,
{
    let steps = register_steps(v.names.take(n as int));
    let start = blank(saved(v), rows);
    if n == 0 {
        assert(v.names.take(0) =~= Seq::empty());
    } else {
        let (mid, done) = choose|mid: adaptive::StoreState, done: Result<(), PersistError>|
            steps_give(k, v.names, start, steps.drop_last(), mid, done) && #[trigger] step_after(
                k,
                v.names,
                mid,
                done,
                steps.last(),
                w,
                r,
            );
        assert(steps.drop_last() =~= register_steps(v.names.take(n - 1)));
        registers_replayed(k, v, rows, (n - 1) as nat, mid, done);
        let value = v.names[n - 1];
        assert(steps.last() == Step::Register(value));
        assert(register_gives(mid, value, w, r));
        let before = v.names.take(n - 1);
        if before.contains(value) {
            let i = before.index_of(value);
            assert(v.names[i] == v.names[n - 1]);
        }
        assert(before.push(value) =~= v.names.take(n as int));
    }
}

/// The steps up to `m` facts into shard number `n`.
spec fn steps_into(v: adaptive::StoreState, n: int, m: int) -> Seq<Step> {
    (register_steps(v.names) + shard_steps(saved(v).shards.take(n))).push(Step::Open) + put_steps(
        v.shards[n].facts,
    ).take(m)
}

/// The steps for the first `n` shards.
spec fn steps_for(v: adaptive::StoreState, n: int) -> Seq<Step> {
    register_steps(v.names) + shard_steps(saved(v).shards.take(n))
}

proof fn shards_replayed<K: Kernel>(
    k: K,
    v: adaptive::StoreState,
    rows: Seq<Seq<u32>>,
    n: nat,
    w: adaptive::StoreState,
    r: Result<(), PersistError>,
)
    requires
        v.valid(),
        v.room <= usize::MAX,
        n <= v.shards.len(),
        steps_give(k, v.names, blank(saved(v), rows), steps_for(v, n as int), w, r),
    ensures
        r is Ok,
        replayed(k, v, rows, n, n, w),
    decreases n, 0nat,
{
    let start = blank(saved(v), rows);
    if n == 0 {
        assert(saved(v).shards.take(0) =~= Seq::empty());
        assert(v.names.take(v.names.len() as int) =~= v.names);
        assert(steps_for(v, 0) =~= register_steps(v.names.take(v.names.len() as int)));
        registers_replayed(k, v, rows, v.names.len(), w, r);
        assert(w =~= adaptive::StoreState { rows, shards: w.shards, ..v });
    } else {
        let facts = v.shards[n - 1].facts;
        let all = saved(v).shards.take(n as int);
        assert(all.drop_last() =~= saved(v).shards.take(n - 1));
        assert(all.last() == facts);
        assert(put_steps(facts).take(facts.len() as int) =~= put_steps(facts));
        assert(steps_for(v, n as int) =~= steps_into(v, n - 1, facts.len() as int));
        puts_replayed(k, v, rows, (n - 1) as nat, facts.len(), w, r);
        assert(facts.take(facts.len() as int) =~= facts);
        assert forall|s: int| 0 <= s < n implies holds(
            k,
            #[trigger] w.shards[s],
            v.shards[s].facts,
            rows,
            v.dim,
        ) by {
            if s == n - 1 {
            }
        }
    }
}

proof fn puts_replayed<K: Kernel>(
    k: K,
    v: adaptive::StoreState,
    rows: Seq<Seq<u32>>,
    n: nat,
    m: nat,
    w: adaptive::StoreState,
    r: Result<(), PersistError>,
)
    requires
        v.valid(),
        v.room <= usize::MAX,
        n < v.shards.len(),
        m <= v.shards[n as int].facts.len(),
        steps_give(k, v.names, blank(saved(v), rows), steps_into(v, n as int, m as int), w, r),
    ensures
        r is Ok,
        replayed(k, v, rows, n, n + 1, w),
        holds(k, w.shards[n as int], v.shards[n as int].facts.take(m as int), rows, v.dim),
    decreases n, 1 + m,
{
    let start = blank(saved(v), rows);
    let steps = steps_into(v, n as int, m as int);
    let facts = v.shards[n as int].facts;
    let (mid, done) = choose|mid: adaptive::StoreState, done: Result<(), PersistError>|
        steps_give(k, v.names, start, steps.drop_last(), mid, done) && #[trigger] step_after(
            k,
            v.names,
            mid,
            done,
            steps.last(),
            w,
            r,
        );
    if m == 0 {
        assert(put_steps(facts).take(0) =~= Seq::empty());
        assert(steps.drop_last() =~= steps_for(v, n as int));
        assert(steps.last() == Step::Open);
        shards_replayed(k, v, rows, n, mid, done);
        assert(facts.take(0) =~= Seq::empty());
        assert(shard_parts(facts.take(0), rows, v.dim) =~= Seq::empty());
        assert(w.shards[n as int] == adaptive::empty_shard(v.dim));
        assert forall|s: int| 0 <= s < n implies holds(
            k,
            #[trigger] w.shards[s],
            v.shards[s].facts,
            rows,
            v.dim,
        ) by {
            assert(w.shards[s] == mid.shards[s]);
        }
    } else {
        assert(steps.drop_last() =~= steps_into(v, n as int, m - 1));
        let (key, idx) = facts[m - 1];
        assert(put_steps(facts)[m - 1] == Step::Put(key, idx));
        assert(steps.last() == Step::Put(key, idx));
        puts_replayed(k, v, rows, n, (m - 1) as nat, mid, done);
        assert(0 <= v.shards[n as int].facts[m - 1].1 < v.names.len());
        assert(put_gives(k, mid, key, v.names[idx], w, r));
        let s = choose|s: Result<usize, HlbError>| #[trigger]
            adaptive::put_back_gives(k, mid, key, v.names[idx], w, s) && same_outcome(s, r);
        assert(v.names[idx] == mid.names[idx]);
        assert(mid.names.contains(v.names[idx]));
        let i = s->Ok_0 as int;
        assert(i == idx);
        assert(!mid.knows(key)) by {
            if mid.knows(key) {
                let (a, b) = choose|a: int, b: int| mid.at(key, a, b);
                assert(mid.at(key, a, b));
                if a < n {
                    assert(holds(k, mid.shards[a], v.shards[a].facts, rows, v.dim));
                    assert(v.at(key, a, b));
                } else {
                    assert(mid.shards[a].facts == facts.take(m - 1));
                    assert(v.at(key, n as int, b));
                }
                assert(v.at(key, n as int, m - 1));
            }
        }
        let last = mid.shards.last();
        assert(last.facts.len() == m - 1);
        assert(v.shards[n as int].facts.len() <= v.capacity || v.shards[n as int].facts.len() <= 1);
        assert(adaptive::reopened(mid) == mid.shards);
        let bound = hlb::signed(resonator::key_role(key, v.dim), rows[idx]);
        let memory = choose|memory: Seq<u32>| #[trigger]
            kernel::sum_gives(k, mid.shards[n as int].memory, bound, memory) && w == (
            adaptive::StoreState {
                names: w.names,
                shards: mid.shards.update(
                    n as int,
                    adaptive::ShardState {
                        memory,
                        facts: mid.shards[n as int].facts.push((key, idx)),
                    },
                ),
                ..mid
            });
        let now = facts.take(m as int);
        assert(facts.take(m - 1).push((key, idx)) =~= now);
        let parts = shard_parts(now, rows, v.dim);
        assert(parts.drop_last() =~= shard_parts(facts.take(m - 1), rows, v.dim));
        assert(parts.last() == bound);
        assert(resonator::total_gives(k, v.dim, parts, memory));
        assert forall|t: int| 0 <= t < n implies holds(
            k,
            #[trigger] w.shards[t],
            v.shards[t].facts,
            rows,
            v.dim,
        ) by {
            assert(w.shards[t] == mid.shards[t]);
        }
        assert(w =~= adaptive::StoreState { rows, shards: w.shards, ..v });
    }
}

/// Restoring what was saved of a valid store succeeds. The result has the same
/// values under the same indices, the same facts in the same shards in the
/// same order, and memories that are the sums of what the facts contribute.
pub proof fn restored_as_saved<K: Kernel>(
    k: K,
    v: adaptive::StoreState,
    rows: Seq<Seq<u32>>,
    w: adaptive::StoreState,
    r: Result<(), PersistError>,
)
    requires
        v.valid(),
        v.room <= usize::MAX,
        steps_give(k, v.names, blank(saved(v), rows), all_steps(saved(v)), w, r),
    ensures
        r is Ok,
        saved(w) == saved(v),
        w.rows == rows,
        w.facts() == v.facts(),
        forall|s: int|
            0 <= s < v.shards.len() ==> holds(
                k,
                #[trigger] w.shards[s],
                v.shards[s].facts,
                rows,
                v.dim,
            ),
{
    let n = v.shards.len();
    assert(saved(v).shards.take(n as int) =~= saved(v).shards);
    assert(steps_for(v, n as int) =~= all_steps(saved(v)));
    shards_replayed(k, v, rows, n, w, r);
    assert forall|s: int| 0 <= s < n implies w.shards[s].facts == v.shards[s].facts by {
        assert(holds(k, w.shards[s], v.shards[s].facts, rows, v.dim));
    }
    assert(saved(w).shards =~= saved(v).shards);
    assert forall|x: Seq<char>, a: int, b: int| #[trigger] w.at(x, a, b) <==> v.at(x, a, b) by {}
    assert forall|x: Seq<char>| #[trigger] w.facts().contains_key(x) <==> v.facts().contains_key(
        x,
    ) by {
        if w.knows(x) {
            let (a, b) = choose|a: int, b: int| w.at(x, a, b);
            assert(v.at(x, a, b));
        }
        if v.knows(x) {
            let (a, b) = choose|a: int, b: int| v.at(x, a, b);
            assert(w.at(x, a, b));
        }
    }
    assert forall|x: Seq<char>| w.facts().contains_key(x) implies #[trigger] w.facts()[x]
        == v.facts()[x] by {
        let place = choose|a: int, b: int| w.at(x, a, b);
        assert(w.at(x, place.0, place.1));
        assert(v.at(x, place.0, place.1));
        adaptive::fact_at(v, x, place.0, place.1);
        assert(w.shards[place.0].facts == v.shards[place.0].facts);
    }
    assert(w.facts() =~= v.facts());
}

/// A store that is restored from what was saved of it is the same in all but the
/// vectors: dimension, capacity, seed, room and values, and the facts of each
/// shard.
pub proof fn a_restored_store_is_the_same<K: Kernel>(
    k: K,
    v: adaptive::StoreState,
    rows: Seq<Seq<u32>>,
    w: adaptive::StoreState,
    r: Result<(), PersistError>,
)
    requires
        v.valid(),
        v.room <= usize::MAX,
        steps_give(k, v.names, blank(saved(v), rows), all_steps(saved(v)), w, r),
    ensures
        r is Ok,
        w.dim == v.dim,
        w.capacity == v.capacity,
        w.seed == v.seed,
        w.room == v.room,
        w.names == v.names,
        w.rows == rows,
        w.shards.len() == v.shards.len(),
        forall|s: int|
            0 <= s < v.shards.len() ==> (#[trigger] w.shards[s]).facts == v.shards[s].facts,
{
    let n = v.shards.len();
    assert(saved(v).shards.take(n as int) =~= saved(v).shards);
    assert(steps_for(v, n as int) =~= all_steps(saved(v)));
    shards_replayed(k, v, rows, n, w, r);
    assert forall|s: int| 0 <= s < n implies (#[trigger] w.shards[s]).facts
        == v.shards[s].facts by {
        assert(holds(k, w.shards[s], v.shards[s].facts, rows, v.dim));
    }
}

/// A saved fact whose value is not among the saved values is never restored:
/// restoring fails.
pub proof fn an_unlisted_value_is_refused<K: Kernel>(
    k: K,
    snap: SavedStore,
    rows: Seq<Seq<u32>>,
    w: adaptive::StoreState,
    r: Result<(), PersistError>,
    s: int,
    i: int,
)
    requires
        steps_give(k, snap.names, blank(snap, rows), all_steps(snap), w, r),
        0 <= s < snap.shards.len(),
        0 <= i < snap.shards[s].len(),
        !(0 <= snap.shards[s][i].1 < snap.names.len()),
    ensures
        r is Err,
{
    let steps = all_steps(snap);
    let registers = register_steps(snap.names).len() as int;
    let at = a_fact_is_put_back(snap.shards, s, i);
    assert(steps[registers + at] == shard_steps(snap.shards)[at]);
    unlisted_step_fails(k, snap.names, blank(snap, rows), steps, w, r, registers + at);
}

/// The step that puts a fact back.
proof fn a_fact_is_put_back(shards: Seq<Seq<(Seq<char>, int)>>, s: int, i: int) -> (at: int)
    requires
        0 <= s < shards.len(),
        0 <= i < shards[s].len(),
    ensures
        0 <= at < shard_steps(shards).len(),
        shard_steps(shards)[at] == Step::Put(shards[s][i].0, shards[s][i].1),
    decreases shards.len(),
{
    let init = shards.drop_last();
    let before = shard_steps(init).push(Step::Open);
    if s == shards.len() - 1 {
        assert(put_steps(shards.last())[i] == Step::Put(shards[s][i].0, shards[s][i].1));
        before.len() + i
    } else {
        assert(init[s] == shards[s]);
        let at = a_fact_is_put_back(init, s, i);
        assert(before[at] == shard_steps(init)[at]);
        at
    }
}

/// Steps fail where one names a value that is not listed.
proof fn unlisted_step_fails<K: Kernel>(
    k: K,
    names: Seq<Seq<char>>,
    v: adaptive::StoreState,
    steps: Seq<Step>,
    w: adaptive::StoreState,
    r: Result<(), PersistError>,
    at: int,
)
    requires
        steps_give(k, names, v, steps, w, r),
        0 <= at < steps.len(),
        steps[at] matches Step::Put(_, idx) && !(0 <= idx < names.len()),
    ensures
        r is Err,
    decreases steps.len(),
{
    let (mid, done) = choose|mid: adaptive::StoreState, done: Result<(), PersistError>|
        steps_give(k, names, v, steps.drop_last(), mid, done) && #[trigger] step_after(
            k,
            names,
            mid,
            done,
            steps.last(),
            w,
            r,
        );
    if at < steps.len() - 1 {
        assert(steps.drop_last()[at] == steps[at]);
        unlisted_step_fails(k, names, v, steps.drop_last(), mid, done, at);
    }
}

// ---------------------------------------------------------------------
// Memories of users
// ---------------------------------------------------------------------

/// The memory of a user as it is saved, without its store of facts.
#[derive(Debug)]
pub struct PersonalSnapshot {
    pub schema_version: u32,
    pub user_id: String,
    pub schema: Vec<(String, Vec<String>)>,
}

/// A copy of a schema.
fn copy_schema(v: &Vec<(String, Vec<String>)>) -> (r: Vec<(String, Vec<String>)>)
    ensures
        personal::schema_state(r@) == personal::schema_state(v@),
{
    let mut out: Vec<(String, Vec<String>)> = Vec::with_capacity(v.len());
    let mut i: usize = 0;
    while i < v.len()
        invariant
            i <= v@.len(),
            out@.len() == i,
            forall|j: int|
                0 <= j < i ==> (#[trigger] out@[j]).0@ == v@[j].0@ && text::texts(out@[j].1@)
                    == text::texts(v@[j].1@),
        decreases v@.len() - i,
    {
        out.push((v[i].0.clone(), copy_texts(&v[i].1)));
        i += 1;
    }
    assert(personal::schema_state(out@) =~= personal::schema_state(v@));
    out
}

impl<K: Kernel, X: Extractor> PersonalMemory<K, X> {
    /// What is to be saved of this memory beside its store of facts.
    pub fn build_snapshot(&self) -> (r: PersonalSnapshot)
        ensures
            r.schema_version == SCHEMA_VERSION,
            r.schema_version == 1,
            r.user_id@ == self@.user,
            personal::schema_state(r.schema@) == self@.schema,
    {
        PersonalSnapshot {
            schema_version: SCHEMA_VERSION,
            user_id: self.user_id().to_string(),
            schema: copy_schema(self.schema()),
        }
    }

    /// The memory that a snapshot was made of, over a store of facts. A
    /// snapshot of another version is refused.
    pub fn from_snapshot(snap: PersonalSnapshot, mp: AdaptiveMemory<K>, extractor: Arc<X>) -> (r:
        Result<Self, PersistError>)
        requires
            mp.wf(),
        ensures
            snap.schema_version != 1 ==> r is Err,
            if snap.schema_version != SCHEMA_VERSION {
                r matches Err(PersistError::Corrupt(s)) && s@ == version_text(
                    "personal schema "@,
                    snap.schema_version,
                    " != "@,
                    SCHEMA_VERSION,
                )
            } else {
                r matches Ok(p) && {
                    &&& p.wf()
                    &&& p.arithmetic() == mp.arithmetic()
                    &&& p.reader() == *extractor
                    &&& p@ == (personal::PersonalState {
                        user: snap.user_id@,
                        store: mp@,
                        schema: personal::schema_state(snap.schema@),
                    })
                }
            },
    {
        if snap.schema_version != SCHEMA_VERSION {
            return Err(
                PersistError::Corrupt(
                    version_message(
                        "personal schema ",
                        snap.schema_version,
                        " != ",
                        SCHEMA_VERSION,
                    ),
                ),
            );
        }
        Ok(PersonalMemory::with_schema(snap.user_id, mp, extractor, snap.schema))
    }
}

// ---------------------------------------------------------------------
// Audit logs
// ---------------------------------------------------------------------

/// An audit log as it is saved: its events from the oldest to the newest.
#[derive(Debug)]
pub struct AuditSnapshot {
    pub schema_version: u32,
    pub capacity: usize,
    pub counter: u64,
    pub preview_chars: usize,
    pub events: Vec<AuditEvent>,
}

impl View for AuditSnapshot {
    type V = audit::TrailState;

    open spec fn view(&self) -> audit::TrailState {
        audit::TrailState {
            events: self.events@.map_values(|e: AuditEvent| e@),
            capacity: self.capacity as nat,
            counter: self.counter as nat,
            preview_chars: self.preview_chars as nat,
        }
    }
}

/// What restoring a saved log gives.
pub open spec fn restored_trail(t: audit::TrailState) -> audit::TrailState {
    audit::TrailState {
        events: audit::remembered_all(Seq::empty(), t.capacity, t.events),
        ..t
    }
}

/// A restored log fits its capacity, and a saved log that does is restored as
/// it was.
pub proof fn trail_restored_as_saved(t: audit::TrailState)
    ensures
        restored_trail(t).fits(),
        t.fits() ==> restored_trail(t) == t,
{
    let none = Seq::<audit::EventState>::empty();
    audit::remembering_keeps_the_capacity(none, t.capacity, t.events);
    if t.events.len() <= t.capacity {
        audit::events_that_fit_are_kept(t.capacity, t.events);
    } else if t.events.len() == 1 {
        assert(t.events.drop_last() =~= none);
        assert(audit::remembered_all(none, t.capacity, t.events.drop_last()) =~= none);
        assert(restored_trail(t).events =~= t.events);
    }
}

impl AuditTrail {
    /// What is to be saved of this log.
    pub fn build_snapshot(&self) -> (r: AuditSnapshot)
        ensures
            r.schema_version == SCHEMA_VERSION,
            r.schema_version == 1,
            r@ == self@,
            r@.fits(),
            restored_trail(r@) == self@,
    {
        proof {
            trail_restored_as_saved(self@);
        }
        let total = self.len();
        let newest = self.recent(usize::MAX, None, None);
        let ghost found = newest@.map_values(|e: &AuditEvent| e@);
        proof {
            audit::newest_of_all_is_reverse(self@.events, usize::MAX as nat);
        }
        assert(found.len() == self@.events.len() == total);
        let n = newest.len();
        let mut events: Vec<AuditEvent> = Vec::with_capacity(n);
        let mut i: usize = n;
        while i > 0
            invariant
                i <= n == newest@.len(),
                found == newest@.map_values(|e: &AuditEvent| e@),
                found == self@.events.reverse(),
                n == self@.events.len(),
                events@.len() == n - i,
                forall|j: int| 0 <= j < n - i ==> (#[trigger] events@[j])@ == self@.events[j],
            decreases i,
        {
            let e = newest[i - 1].copy();
            assert(found[i - 1] == e@);
            assert(found[i - 1] == self@.events[n - i]);
            events.push(e);
            i = i - 1;
        }
        let r = AuditSnapshot {
            schema_version: SCHEMA_VERSION,
            capacity: self.capacity(),
            counter: self.counter(),
            preview_chars: self.preview_chars(),
            events,
        };
        assert(r@.events =~= self@.events);
        r
    }

    /// The log that a snapshot was made of. A snapshot of another version is
    /// refused.
    pub fn from_snapshot(snap: AuditSnapshot) -> (r: Result<Self, PersistError>)
        ensures
            snap.schema_version != 1 ==> r is Err,
            if snap.schema_version != SCHEMA_VERSION {
                r matches Err(PersistError::Corrupt(s)) && s@ == version_text(
                    "audit schema "@,
                    snap.schema_version,
                    " != "@,
                    SCHEMA_VERSION,
                )
            } else {
                r matches Ok(t) && t@ == restored_trail(snap@) && t@.fits()
            },
    {
        if snap.schema_version != SCHEMA_VERSION {
            return Err(
                PersistError::Corrupt(
                    version_message("audit schema ", snap.schema_version, " != ", SCHEMA_VERSION),
                ),
            );
        }
        let mut t = AuditTrail::new(snap.capacity, snap.preview_chars);
        t.restore(snap.events, snap.counter);
        assert(t@ =~= restored_trail(snap@));
        Ok(t)
    }
}

} // verus!
