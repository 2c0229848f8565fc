//! The memory of one user.
//!
//! Every key starts with the user's id. Beside the facts, the memory keeps
//! for each relation the values that it has taken.

use crate::adaptive::{self, AdaptiveMemory, RETRIEVE_PASSES};
use crate::extractor::{self, Extractor};
use crate::fact::{self, storage_key, Fact};
use crate::hlb::HlbError;
use crate::kernel::Kernel;
use crate::text::{self, chars_of, same_text, slice_to_string};
use std::sync::Arc;
use vstd::prelude::*;

verus! {

broadcast use vstd::string::group_string_axioms;

/// The subject of a fact about the user.
pub const SELF_SUBJECT: &'static str = "user";

// ---------------------------------------------------------------------
// Model
// ---------------------------------------------------------------------

/// What the memory of a user holds.
#[verifier::ext_equal]
pub struct PersonalState {
    pub user: Seq<char>,
    pub store: adaptive::StoreState,
    /// Each relation once, with the values that it has taken, each once.
    pub schema: Seq<(Seq<char>, Seq<Seq<char>>)>,
}

/// The first position at which a relation is listed, or the length where it
/// is not.
pub open spec fn listing(schema: Seq<(Seq<char>, Seq<Seq<char>>)>, relation: Seq<char>) -> nat
    decreases schema.len(),
{
    if schema.len() == 0 {
        0
    } else if schema[0].0 == relation {
        0
    } else {
        1 + listing(schema.skip(1), relation)
    }
}

/// The values with one more, unless it is among them.
pub open spec fn value_added(values: Seq<Seq<char>>, value: Seq<char>) -> Seq<Seq<char>> {
    if values.contains(value) {
        values
    } else {
        values.push(value)
    }
}

/// The schema after a relation took a value.
pub open spec fn noted(
    schema: Seq<(Seq<char>, Seq<Seq<char>>)>,
    relation: Seq<char>,
    value: Seq<char>,
) -> Seq<(Seq<char>, Seq<Seq<char>>)> {
    let i = listing(schema, relation) as int;
    if i < schema.len() {
        schema.update(i, (relation, value_added(schema[i].1, value)))
    } else {
        schema.push((relation, seq![value]))
    }
}

/// The position is that of the relation, and the first such.
pub proof fn listing_is_first(schema: Seq<(Seq<char>, Seq<Seq<char>>)>, relation: Seq<char>)
    ensures
        listing(schema, relation) <= schema.len(),
        listing(schema, relation) < schema.len() ==> schema[listing(schema, relation) as int].0
            == relation,
        forall|i: int|
            0 <= i < listing(schema, relation) ==> (#[trigger] schema[i]).0 != relation,
    decreases schema.len(),
{
    if schema.len() > 0 && schema[0].0 != relation {
        let rest = schema.skip(1);
        listing_is_first(rest, relation);
        assert forall|i: int| 0 <= i < listing(schema, relation) implies (#[trigger] schema[i]).0
            != relation by {
            if i > 0 {
                assert(rest[i - 1] == schema[i]);
            }
        }
    }
}

/// A relation that took a value is listed with it.
pub proof fn noted_lists_the_value(
    schema: Seq<(Seq<char>, Seq<Seq<char>>)>,
    relation: Seq<char>,
    value: Seq<char>,
)
    ensures
        ({
            let after = noted(schema, relation, value);
            let i = listing(schema, relation) as int;
            i < after.len() && after[i].0 == relation && after[i].1.contains(value)
        }),
{
    listing_is_first(schema, relation);
    let after = noted(schema, relation, value);
    let i = listing(schema, relation) as int;
    if i < schema.len() {
        if !schema[i].1.contains(value) {
            assert(schema[i].1.push(value).last() == value);
        }
    } else {
        assert(seq![value][0] == value);
    }
}

/// Noting a value changes one relation at most. One that is listed keeps its place
/// and its values, in order, with the value behind them where it is new; one that
/// is not comes behind all others, with that value alone. So no relation and no
/// value comes to be listed twice.
pub proof fn noting_keeps_what_is_listed(
    schema: Seq<(Seq<char>, Seq<Seq<char>>)>,
    relation: Seq<char>,
    value: Seq<char>,
    i: int,
)
    requires
        0 <= i < schema.len(),
    ensures
        ({
            let after = noted(schema, relation, value);
            &&& after[i].0 == schema[i].0
            &&& schema[i].0 != relation ==> after[i] == schema[i]
            &&& schema[i].1.no_duplicates() ==> after[i].1.no_duplicates()
            &&& schema[i].1.len() <= after[i].1.len() <= schema[i].1.len() + 1
            &&& after[i].1.take(schema[i].1.len() as int) == schema[i].1
            &&& after[i].1.len() > schema[i].1.len() ==> after[i].1.last() == value
                && !schema[i].1.contains(value)
            &&& schema.len() <= after.len() <= schema.len() + 1
            &&& after.len() > schema.len() ==> after.last() == (relation, seq![value])
            &&& after.len() > schema.len() <==> forall|j: int|
                0 <= j < schema.len() ==> (#[trigger] schema[j]).0 != relation
        }),
{
    listing_is_first(schema, relation);
    let at = listing(schema, relation) as int;
    let after = noted(schema, relation, value);
    let values = schema[i].1;
    assert(values.take(values.len() as int) =~= values);
    if i == at {
        assert(after[i].1.take(values.len() as int) =~= values);
        if !values.contains(value) && values.no_duplicates() {
            let more = values.push(value);
            assert forall|a: int, b: int|
                0 <= a < more.len() && 0 <= b < more.len() && a != b implies more[a] != more[b] by {
                if a == values.len() {
                    assert(values.contains(values[b]));
                }
                if b == values.len() {
                    assert(values.contains(values[a]));
                }
            }
        }
    }
    if after.len() > schema.len() {
        assert forall|j: int| 0 <= j < schema.len() implies (#[trigger] schema[j]).0 != relation by {}
    } else {
        assert(schema[at].0 == relation);
    }
}

/// Whether the schema lists a value under a relation.
pub open spec fn lists(
    schema: Seq<(Seq<char>, Seq<Seq<char>>)>,
    relation: Seq<char>,
    value: Seq<char>,
) -> bool {
    let i = listing(schema, relation) as int;
    i < schema.len() && schema[i].1.contains(value)
}

/// The schema after the values of facts were noted one after the other.
pub open spec fn noted_all(
    schema: Seq<(Seq<char>, Seq<Seq<char>>)>,
    facts: Seq<fact::FactState>,
) -> Seq<(Seq<char>, Seq<Seq<char>>)>
    decreases facts.len(),
{
    if facts.len() == 0 {
        schema
    } else {
        noted(noted_all(schema, facts.drop_last()), facts.last().predicate, facts.last().obj)
    }
}

/// The facts that are new: whose value is not listed under its relation by the
/// time its turn comes.
pub open spec fn new_facts(
    schema: Seq<(Seq<char>, Seq<Seq<char>>)>,
    facts: Seq<fact::FactState>,
) -> Seq<fact::FactState>
    decreases facts.len(),
{
    if facts.len() == 0 {
        Seq::empty()
    } else {
        let before = new_facts(schema, facts.drop_last());
        let f = facts.last();
        if lists(noted_all(schema, facts.drop_last()), f.predicate, f.obj) {
            before
        } else {
            before.push(f)
        }
    }
}

/// Noting a value keeps what is listed, and adds that value and no other.
pub proof fn noting_adds_the_value(
    schema: Seq<(Seq<char>, Seq<Seq<char>>)>,
    relation: Seq<char>,
    value: Seq<char>,
    other: Seq<char>,
    w: Seq<char>,
)
    ensures
        lists(noted(schema, relation, value), other, w) <==> lists(schema, other, w) || (other
            == relation && w == value),
{
    let after = noted(schema, relation, value);
    let i = listing(schema, relation) as int;
    let j = listing(schema, other) as int;
    let b = listing(after, other) as int;
    listing_is_first(schema, relation);
    listing_is_first(schema, other);
    listing_is_first(after, other);
    if i < schema.len() {
        assert(forall|a: int| 0 <= a < schema.len() ==> (#[trigger] after[a]).0 == schema[a].0);
        assert(b == j) by {
            if b < j {
                assert(after[b].0 == schema[b].0);
            }
            if j < b {
                assert(after[j].0 == schema[j].0);
            }
        }
        if j < schema.len() && other == relation {
            assert(j == i) by {
                if j < i {
                    assert(schema[j].0 != relation);
                }
                if i < j {
                    assert(schema[i].0 != other);
                }
            }
            let values = schema[i].1;
            if !values.contains(value) {
                let more = values.push(value);
                assert(more.last() == value);
                if values.contains(w) {
                    let p = values.index_of(w);
                    assert(more[p] == w);
                }
                if more.contains(w) {
                    let p = more.index_of(w);
                    if p < values.len() {
                        assert(values[p] == w);
                    }
                }
            }
        } else if j < schema.len() {
            assert(after[j] == schema[j]);
        }
    } else {
        assert(forall|a: int| 0 <= a < schema.len() ==> (#[trigger] after[a]) == schema[a]);
        assert(after[schema.len() as int] == (relation, seq![value]));
        assert(seq![value][0] == value);
        if other == relation {
            assert(j == schema.len());
            assert(b == schema.len()) by {
                if b < schema.len() {
                    assert(schema[b].0 != other);
                }
            }
        } else {
            if j < schema.len() {
                assert(b == j) by {
                    if b < j {
                        assert(after[b].0 == schema[b].0);
                    }
                    if j < b {
                        assert(after[j].0 == schema[j].0);
                    }
                }
            } else {
                assert(b == after.len()) by {
                    if b < schema.len() {
                        assert(schema[b].0 != other);
                    }
                }
            }
        }
    }
}

/// What was noted stays listed, and so do the values of the facts.
proof fn noted_all_lists(
    schema: Seq<(Seq<char>, Seq<Seq<char>>)>,
    facts: Seq<fact::FactState>,
    relation: Seq<char>,
    value: Seq<char>,
)
    ensures
        lists(noted_all(schema, facts), relation, value) <==> lists(schema, relation, value)
            || exists|i: int|
            0 <= i < facts.len() && (#[trigger] facts[i]).predicate == relation && facts[i].obj
                == value,
    decreases facts.len(),
{
    if facts.len() > 0 {
        let init = facts.drop_last();
        let f = facts.last();
        noted_all_lists(schema, init, relation, value);
        noting_adds_the_value(noted_all(schema, init), f.predicate, f.obj, relation, value);
        assert(forall|i: int| 0 <= i < init.len() ==> (#[trigger] init[i]) == facts[i]);
        if exists|i: int|
            0 <= i < facts.len() && (#[trigger] facts[i]).predicate == relation && facts[i].obj
                == value {
            let i = choose|i: int|
                0 <= i < facts.len() && (#[trigger] facts[i]).predicate == relation
                    && facts[i].obj == value;
            if i < init.len() {
                assert(init[i].predicate == relation);
            }
        }
        if f.predicate == relation && f.obj == value {
            assert(facts[facts.len() - 1].predicate == relation);
        }
        if exists|i: int|
            0 <= i < init.len() && (#[trigger] init[i]).predicate == relation && init[i].obj
                == value {
            let i = choose|i: int|
                0 <= i < init.len() && (#[trigger] init[i]).predicate == relation && init[i].obj
                    == value;
            assert(facts[i].predicate == relation);
        }
    }
}

/// Facts whose values are all listed are not new.
pub proof fn listed_facts_are_not_new(
    schema: Seq<(Seq<char>, Seq<Seq<char>>)>,
    facts: Seq<fact::FactState>,
)
    requires
        forall|i: int|
            0 <= i < facts.len() ==> lists(schema, (#[trigger] facts[i]).predicate, facts[i].obj),
    ensures
        new_facts(schema, facts) == Seq::<fact::FactState>::empty(),
    decreases facts.len(),
{
    if facts.len() > 0 {
        let init = facts.drop_last();
        let f = facts.last();
        assert(forall|i: int| 0 <= i < init.len() ==> (#[trigger] init[i]) == facts[i]);
        listed_facts_are_not_new(schema, init);
        assert(facts[facts.len() - 1] == f);
        noted_all_lists(schema, init, f.predicate, f.obj);
    }
}

/// Facts that were noted once are not new the next time.
pub proof fn facts_are_new_once(
    schema: Seq<(Seq<char>, Seq<Seq<char>>)>,
    facts: Seq<fact::FactState>,
)
    ensures
        new_facts(noted_all(schema, facts), facts) == Seq::<fact::FactState>::empty(),
{
    let after = noted_all(schema, facts);
    assert forall|i: int| 0 <= i < facts.len() implies lists(
        after,
        (#[trigger] facts[i]).predicate,
        facts[i].obj,
    ) by {
        noted_all_lists(schema, facts, facts[i].predicate, facts[i].obj);
    }
    listed_facts_are_not_new(after, facts);
}

/// What storing a fact comes to.
pub open spec fn fact_stored<K: Kernel>(
    k: K,
    v: PersonalState,
    f: fact::FactState,
    w: PersonalState,
    r: Result<(), HlbError>,
) -> bool {
    exists|s: Result<usize, HlbError>| #[trigger]
        adaptive::stored_gives(
            k,
            v.store,
            fact::fact_key(v.user, f.subject, f.predicate),
            f.obj,
            w.store,
            s,
        ) && w.user == v.user && match s {
            Ok(_) => r is Ok && w.schema == noted(v.schema, f.predicate, f.obj),
            Err(e) => r == Err::<(), HlbError>(e) && w.schema == v.schema,
        }
}

/// What storing facts one after the other comes to: it ends at the first that
/// is refused.
pub open spec fn facts_stored<K: Kernel>(
    k: K,
    v: PersonalState,
    facts: Seq<fact::FactState>,
    w: PersonalState,
    r: Result<(), HlbError>,
) -> bool
    decreases facts.len(),
{
    if facts.len() == 0 {
        w == v && r is Ok
    } else {
        exists|mid: PersonalState, step: Result<(), HlbError>| #[trigger]
            fact_stored(k, v, facts[0], mid, step) && match step {
                Ok(_) => facts_stored(k, mid, facts.skip(1), w, r),
                Err(_) => w == mid && r == step,
            }
    }
}

/// What reading facts in comes to: all are stored, and those that are new to
/// the schema are given.
pub open spec fn read_in<K: Kernel>(
    k: K,
    v: PersonalState,
    facts: Seq<fact::FactState>,
    w: PersonalState,
    r: Result<Vec<Fact>, HlbError>,
) -> bool {
    exists|s: Result<(), HlbError>| #[trigger]
        facts_stored(k, v, facts, w, s) && match s {
            Ok(_) => r matches Ok(list) && extractor::fact_states(list@) == new_facts(
                v.schema,
                facts,
            ),
            Err(e) => r == Err::<Vec<Fact>, HlbError>(e),
        }
}

/// Reading facts in tells those that are new and no others: none that was listed
/// before, every one that was not, and none twice.
pub proof fn a_reading_tells_what_is_new<K: Kernel>(
    k: K,
    v: PersonalState,
    facts: Seq<fact::FactState>,
    w: PersonalState,
    r: Result<Vec<Fact>, HlbError>,
)
    requires
        read_in(k, v, facts, w, r),
        r is Ok,
    ensures
        forall|i: int|
            0 <= i < r->Ok_0@.len() ==> !lists(
                v.schema,
                (#[trigger] r->Ok_0@[i]).predicate@,
                r->Ok_0@[i].obj@,
            ) && facts.contains(r->Ok_0@[i]@),
        forall|j: int|
            0 <= j < facts.len() && !lists(v.schema, (#[trigger] facts[j]).predicate, facts[j].obj)
                ==> tells(extractor::fact_states(r->Ok_0@), facts[j].predicate, facts[j].obj),
        forall|i: int, j: int|
            0 <= i < j < r->Ok_0@.len() ==> (#[trigger] r->Ok_0@[i]).predicate@ != (
            #[trigger] r->Ok_0@[j]).predicate@ || r->Ok_0@[i].obj@ != r->Ok_0@[j].obj@,
{
    let list = r->Ok_0@;
    let told = extractor::fact_states(list);
    new_facts_tell_what_was_not_listed(v.schema, facts);
    assert(told == new_facts(v.schema, facts));
    assert forall|i: int| 0 <= i < list.len() implies !lists(
        v.schema,
        (#[trigger] list[i]).predicate@,
        list[i].obj@,
    ) && facts.contains(list[i]@) by {
        assert(told[i] == list[i]@);
    }
    assert forall|i: int, j: int| 0 <= i < j < list.len() implies (#[trigger] list[i]).predicate@
        != (#[trigger] list[j]).predicate@ || list[i].obj@ != list[j].obj@ by {
        assert(told[i] == list[i]@);
        assert(told[j] == list[j]@);
    }
}

/// Noting the values of facts starts with that of the first.
proof fn noted_all_front(
    schema: Seq<(Seq<char>, Seq<Seq<char>>)>,
    facts: Seq<fact::FactState>,
)
    requires
        facts.len() > 0,
    ensures
        noted_all(schema, facts) == noted_all(
            noted(schema, facts[0].predicate, facts[0].obj),
            facts.skip(1),
        ),
    decreases facts.len(),
{
    let rest = facts.skip(1);
    if facts.len() == 1 {
        assert(noted_all(schema, facts.drop_last()) == schema);
        assert(rest.len() == 0);
    } else {
        noted_all_front(schema, facts.drop_last());
        assert(facts.drop_last()[0] == facts[0]);
        assert(facts.drop_last().skip(1) =~= rest.drop_last());
        assert(rest.last() == facts.last());
    }
}

/// Where facts were all stored, the schema lists all their values.
pub proof fn stored_facts_are_noted<K: Kernel>(
    k: K,
    v: PersonalState,
    facts: Seq<fact::FactState>,
    w: PersonalState,
    r: Result<(), HlbError>,
)
    requires
        facts_stored(k, v, facts, w, r),
        r is Ok,
    ensures
        w.schema == noted_all(v.schema, facts),
    decreases facts.len(),
{
    if facts.len() > 0 {
        let (mid, step) = choose|mid: PersonalState, step: Result<(), HlbError>| #[trigger]
            fact_stored(k, v, facts[0], mid, step) && match step {
                Ok(_) => facts_stored(k, mid, facts.skip(1), w, r),
                Err(_) => w == mid && r == step,
            };
        stored_facts_are_noted(k, mid, facts.skip(1), w, r);
        noted_all_front(v.schema, facts);
    }
}

/// Reading the same facts in a second time tells nothing new.
pub proof fn a_second_reading_tells_nothing<K: Kernel>(
    k: K,
    v: PersonalState,
    facts: Seq<fact::FactState>,
    mid: PersonalState,
    first: Result<Vec<Fact>, HlbError>,
    w: PersonalState,
    second: Result<Vec<Fact>, HlbError>,
)
    requires
        read_in(k, v, facts, mid, first),
        first is Ok,
        read_in(k, mid, facts, w, second),
        second is Ok,
    ensures
        second->Ok_0@.len() == 0,
{
    let s = choose|s: Result<(), HlbError>| #[trigger]
        facts_stored(k, v, facts, mid, s) && match s {
            Ok(_) => first matches Ok(list) && extractor::fact_states(list@) == new_facts(
                v.schema,
                facts,
            ),
            Err(e) => first == Err::<Vec<Fact>, HlbError>(e),
        };
    stored_facts_are_noted(k, v, facts, mid, s);
    facts_are_new_once(v.schema, facts);
    assert(extractor::fact_states(second->Ok_0@).len() == second->Ok_0@.len());
}

/// The key of a fact that a user holds.
pub open spec fn own_key(user: Seq<char>, f: fact::FactState) -> Seq<char> {
    user + seq!['|'] + f.subject + seq!['|'] + f.predicate
}

/// Where facts were all stored, each key holds the value of the last fact that
/// has it, and every other key holds what it held.
pub proof fn stored_facts_are_held<K: Kernel>(
    k: K,
    v: PersonalState,
    facts: Seq<fact::FactState>,
    w: PersonalState,
    r: Result<(), HlbError>,
)
    requires
        v.store.valid(),
        v.store.room <= usize::MAX,
        facts_stored(k, v, facts, w, r),
        r is Ok,
    ensures
        w.user == v.user,
        forall|i: int|
            #![trigger facts[i]]
            0 <= i < facts.len() ==> w.store.facts().contains_key(own_key(v.user, facts[i])),
        forall|i: int|
            #![trigger facts[i]]
            0 <= i < facts.len() && (forall|j: int|
                i < j < facts.len() ==> own_key(v.user, #[trigger] facts[j]) != own_key(
                    v.user,
                    facts[i],
                )) ==> w.store.facts()[own_key(v.user, facts[i])] == facts[i].obj,
        forall|key: Seq<char>|
            (forall|i: int|
                0 <= i < facts.len() ==> own_key(v.user, #[trigger] facts[i]) != key) ==> {
                &&& #[trigger] w.store.facts().contains_key(key) <==> v.store.facts().contains_key(
                    key,
                )
                &&& v.store.facts().contains_key(key) ==> w.store.facts()[key]
                    == v.store.facts()[key]
            },
    decreases facts.len(),
{
    if facts.len() > 0 {
        let (mid, step) = choose|mid: PersonalState, step: Result<(), HlbError>| #[trigger]
            fact_stored(k, v, facts[0], mid, step) && match step {
                Ok(_) => facts_stored(k, mid, facts.skip(1), w, r),
                Err(_) => w == mid && r == step,
            };
        let rest = facts.skip(1);
        a_stored_fact_is_held(k, v, facts[0], mid, step);
        let s = choose|s: Result<usize, HlbError>| #[trigger]
            adaptive::stored_gives(
                k,
                v.store,
                fact::fact_key(v.user, facts[0].subject, facts[0].predicate),
                facts[0].obj,
                mid.store,
                s,
            ) && mid.user == v.user && match s {
                Ok(_) => step is Ok && mid.schema == noted(
                    v.schema,
                    facts[0].predicate,
                    facts[0].obj,
                ),
                Err(e) => step == Err::<(), HlbError>(e) && mid.schema == v.schema,
            };
        assert(mid.store.room == v.store.room);
        stored_facts_are_held(k, mid, rest, w, r);
        let first = own_key(v.user, facts[0]);
        assert forall|i: int|
            #![trigger facts[i]]
            0 <= i < facts.len() implies w.store.facts().contains_key(own_key(v.user, facts[i])) by {
            if i > 0 {
                assert(rest[i - 1] == facts[i]);
            } else if exists|j: int| 0 <= j < rest.len() && own_key(v.user, #[trigger] rest[j])
                == first {
                let j = choose|j: int|
                    0 <= j < rest.len() && own_key(v.user, #[trigger] rest[j]) == first;
                assert(w.store.facts().contains_key(own_key(v.user, rest[j])));
            } else {
                assert(mid.store.facts().contains_key(first));
            }
        }
        assert forall|i: int|
            #![trigger facts[i]]
            0 <= i < facts.len() && (forall|j: int|
                i < j < facts.len() ==> own_key(v.user, #[trigger] facts[j]) != own_key(
                    v.user,
                    facts[i],
                )) implies w.store.facts()[own_key(v.user, facts[i])] == facts[i].obj by {
            assert forall|j: int| i - 1 < j < rest.len() implies own_key(
                v.user,
                #[trigger] rest[j],
            ) != own_key(v.user, facts[i]) by {
                assert(rest[j] == facts[j + 1]);
            }
            if i > 0 {
                assert(rest[i - 1] == facts[i]);
            } else {
                assert(mid.store.facts().contains_key(first));
                assert(w.store.facts().contains_key(first));
            }
        }
        assert forall|key: Seq<char>|
            (forall|i: int|
                0 <= i < facts.len() ==> own_key(v.user, #[trigger] facts[i]) != key) implies {
            &&& #[trigger] w.store.facts().contains_key(key) <==> v.store.facts().contains_key(key)
            &&& v.store.facts().contains_key(key) ==> w.store.facts()[key] == v.store.facts()[key]
        } by {
            assert(own_key(v.user, facts[0]) != key);
            assert forall|j: int| 0 <= j < rest.len() implies own_key(v.user, #[trigger] rest[j])
                != key by {
                assert(rest[j] == facts[j + 1]);
            }
        }
    }
}

/// New facts are those that tell a value which was not listed under its relation
/// before: each is one of the facts read and was not listed, each value that was
/// not listed is told, and none is told twice.
pub proof fn new_facts_tell_what_was_not_listed(
    schema: Seq<(Seq<char>, Seq<Seq<char>>)>,
    facts: Seq<fact::FactState>,
)
    ensures
        forall|i: int|
            0 <= i < new_facts(schema, facts).len() ==> facts.contains(
                #[trigger] new_facts(schema, facts)[i],
            ) && !lists(
                schema,
                new_facts(schema, facts)[i].predicate,
                new_facts(schema, facts)[i].obj,
            ),
        forall|j: int|
            0 <= j < facts.len() && !lists(schema, (#[trigger] facts[j]).predicate, facts[j].obj)
                ==> tells(new_facts(schema, facts), facts[j].predicate, facts[j].obj),
        forall|i: int, j: int|
            0 <= i < j < new_facts(schema, facts).len() ==> {
                let a = #[trigger] new_facts(schema, facts)[i];
                let b = #[trigger] new_facts(schema, facts)[j];
                a.predicate != b.predicate || a.obj != b.obj
            },
    decreases facts.len(),
{
    if facts.len() > 0 {
        let init = facts.drop_last();
        let before = new_facts(schema, init);
        let all = new_facts(schema, facts);
        let f = facts.last();
        new_facts_tell_what_was_not_listed(schema, init);
        noted_all_lists(schema, init, f.predicate, f.obj);
        assert forall|i: int| 0 <= i < all.len() implies facts.contains(#[trigger] all[i])
            && !lists(schema, all[i].predicate, all[i].obj) by {
            if i < before.len() {
                assert(all[i] == before[i]);
                let j = init.index_of(before[i]);
                assert(facts[j] == before[i]);
            } else {
                assert(facts[facts.len() - 1] == f);
            }
        }
        assert forall|j: int|
            0 <= j < facts.len() && !lists(
                schema,
                (#[trigger] facts[j]).predicate,
                facts[j].obj,
            ) implies tells(all, facts[j].predicate, facts[j].obj) by {
            if j < init.len() {
                assert(init[j] == facts[j]);
                told_before(before, all, facts[j].predicate, facts[j].obj);
            } else if all.len() == before.len() {
                let i = choose|i: int|
                    0 <= i < init.len() && (#[trigger] init[i]).predicate == f.predicate
                        && init[i].obj == f.obj;
                assert(tells(before, init[i].predicate, init[i].obj));
                told_before(before, all, f.predicate, f.obj);
            } else {
                assert(all[before.len() as int] == f);
            }
        }
        assert forall|i: int, j: int| 0 <= i < j < all.len() implies {
            let a = #[trigger] all[i];
            let b = #[trigger] all[j];
            a.predicate != b.predicate || a.obj != b.obj
        } by {
            assert(all[i] == before[i]);
            if j < before.len() {
                assert(all[j] == before[j]);
            } else {
                let l = init.index_of(before[i]);
                assert(init[l] == before[i]);
            }
        }
    }
}

/// Some fact tells the value of the relation.
pub open spec fn tells(
    facts: Seq<fact::FactState>,
    relation: Seq<char>,
    value: Seq<char>,
) -> bool {
    exists|i: int|
        0 <= i < facts.len() && (#[trigger] facts[i]).predicate == relation && facts[i].obj == value
}

/// What is told stays told.
proof fn told_before(
    before: Seq<fact::FactState>,
    all: Seq<fact::FactState>,
    relation: Seq<char>,
    value: Seq<char>,
)
    requires
        before.len() <= all.len(),
        forall|i: int| 0 <= i < before.len() ==> before[i] == all[i],
        tells(before, relation, value),
    ensures
        tells(all, relation, value),
{
    let i = choose|i: int|
        0 <= i < before.len() && (#[trigger] before[i]).predicate == relation && before[i].obj
            == value;
    assert(all[i] == before[i]);
}

/// What forgetting keys one after the other comes to.
pub open spec fn keys_forgotten<K: Kernel>(
    k: K,
    v: adaptive::StoreState,
    keys: Seq<Seq<char>>,
    w: adaptive::StoreState,
) -> bool
    decreases keys.len(),
{
    if keys.len() == 0 {
        w == v
    } else {
        exists|mid: adaptive::StoreState, step: Result<bool, HlbError>| #[trigger]
            adaptive::forgotten_gives(k, v, keys[0], mid, step) && keys_forgotten(
                k,
                mid,
                keys.skip(1),
                w,
            )
    }
}

/// `key` starts with `prefix`.
pub open spec fn starts_with(key: Seq<char>, prefix: Seq<char>) -> bool {
    prefix.len() <= key.len() && key.take(prefix.len() as int) == prefix
}

/// What every key of a user starts with.
pub open spec fn user_prefix(user: Seq<char>) -> Seq<char> {
    user + seq!['|']
}

/// Every key that a user's facts are stored under starts with the user's
/// prefix.
pub proof fn own_keys_start_with_the_prefix(
    user: Seq<char>,
    subject: Seq<char>,
    predicate: Seq<char>,
)
    ensures
        starts_with(fact::fact_key(user, subject, predicate), user_prefix(user)),
{
    let key = fact::fact_key(user, subject, predicate);
    assert(key.take(user_prefix(user).len() as int) =~= user_prefix(user));
}

/// The keys of a shard that start with a prefix, in order.
pub open spec fn prefixed_keys(facts: Seq<(Seq<char>, int)>, prefix: Seq<char>) -> Seq<Seq<char>>
    decreases facts.len(),
{
    if facts.len() == 0 {
        Seq::empty()
    } else {
        let before = prefixed_keys(facts.drop_last(), prefix);
        if starts_with(facts.last().0, prefix) {
            before.push(facts.last().0)
        } else {
            before
        }
    }
}

/// The keys of all shards that start with a prefix, in order.
pub open spec fn own_keys(shards: Seq<adaptive::ShardState>, prefix: Seq<char>) -> Seq<Seq<char>>
    decreases shards.len(),
{
    if shards.len() == 0 {
        Seq::empty()
    } else {
        own_keys(shards.drop_last(), prefix) + prefixed_keys(shards.last().facts, prefix)
    }
}

/// The facts of a shard under keys with a prefix: what follows the prefix, and
/// the value that was decoded.
pub open spec fn shard_listing(
    v: adaptive::StoreState,
    facts: Seq<(Seq<char>, int)>,
    p: Seq<int>,
    prefix: Seq<char>,
) -> Seq<(Seq<char>, Seq<char>)>
    decreases facts.len(),
{
    if facts.len() == 0 {
        Seq::empty()
    } else {
        let last = facts.len() - 1;
        let before = shard_listing(v, facts.drop_last(), p, prefix);
        let key = facts[last].0;
        if starts_with(key, prefix) {
            before.push((key.skip(prefix.len() as int), v.names[p[last]]))
        } else {
            before
        }
    }
}

/// `p` holds what decoding each of the first `n` shards gives.
pub open spec fn shards_decoded<K: Kernel>(
    k: K,
    v: adaptive::StoreState,
    n: nat,
    p: Seq<Seq<int>>,
) -> bool {
    &&& p.len() == n
    &&& forall|s: int|
        0 <= s < n && v.shards[s].facts.len() > 0 ==> adaptive::shard_decoded(
            k,
            v,
            s,
            RETRIEVE_PASSES as nat,
            #[trigger] p[s],
        )
}

/// The facts of the first `n` shards under keys with a prefix.
pub open spec fn listing_of(
    v: adaptive::StoreState,
    p: Seq<Seq<int>>,
    prefix: Seq<char>,
    n: nat,
) -> Seq<(Seq<char>, Seq<char>)>
    decreases n,
{
    if n == 0 {
        Seq::empty()
    } else {
        listing_of(v, p, prefix, (n - 1) as nat) + shard_listing(
            v,
            v.shards[n - 1].facts,
            p[n - 1],
            prefix,
        )
    }
}

// ---------------------------------------------------------------------
// Laws
// ---------------------------------------------------------------------

/// A fact that was stored is held under its key, beside the facts that were
/// there, and its value is listed in the schema.
pub proof fn a_stored_fact_is_held<K: Kernel>(
    k: K,
    v: PersonalState,
    f: fact::FactState,
    w: PersonalState,
    r: Result<(), HlbError>,
)
    requires
        v.store.valid(),
        v.store.room <= usize::MAX,
        fact_stored(k, v, f, w, r),
        r is Ok,
    ensures
        w.store.valid(),
        w.store.facts() == v.store.facts().insert(
            fact::fact_key(v.user, f.subject, f.predicate),
            f.obj,
        ),
        w.store.knows(fact::fact_key(v.user, f.subject, f.predicate)),
        w.schema == noted(v.schema, f.predicate, f.obj),
{
    let key = fact::fact_key(v.user, f.subject, f.predicate);
    let s = choose|s: Result<usize, HlbError>| #[trigger]
        adaptive::stored_gives(k, v.store, key, f.obj, w.store, s) && w.user == v.user && match s {
            Ok(_) => r is Ok && w.schema == noted(v.schema, f.predicate, f.obj),
            Err(e) => r == Err::<(), HlbError>(e) && w.schema == v.schema,
        };
    adaptive::store_keeps_valid(k, v.store, key, f.obj, w.store, s);
    adaptive::store_inserts_the_fact(k, v.store, key, f.obj, w.store, s);
    assert(w.store.facts().contains_key(key));
}

/// A list of all facts names every key with the prefix, once and in order, and
/// nothing else.
pub proof fn a_listing_names_every_key(
    v: adaptive::StoreState,
    p: Seq<Seq<int>>,
    prefix: Seq<char>,
    n: nat,
)
    requires
        n <= v.shards.len(),
    ensures
        listing_of(v, p, prefix, n).map_values(|e: (Seq<char>, Seq<char>)| prefix + e.0)
            == own_keys(v.shards.take(n as int), prefix),
    decreases n,
{
    let told = |e: (Seq<char>, Seq<char>)| prefix + e.0;
    if n > 0 {
        a_listing_names_every_key(v, p, prefix, (n - 1) as nat);
        let facts = v.shards[n - 1].facts;
        a_shard_listing_names_every_key(v, facts, p[n - 1], prefix);
        assert(v.shards.take(n as int).drop_last() =~= v.shards.take(n - 1));
        assert(v.shards.take(n as int).last() == v.shards[n - 1]);
        let a = listing_of(v, p, prefix, (n - 1) as nat);
        let b = shard_listing(v, facts, p[n - 1], prefix);
        assert((a + b).map_values(told) =~= a.map_values(told) + b.map_values(told));
    } else {
        assert(listing_of(v, p, prefix, n).map_values(told) =~= own_keys(
            v.shards.take(n as int),
            prefix,
        ));
    }
}

proof fn a_shard_listing_names_every_key(
    v: adaptive::StoreState,
    facts: Seq<(Seq<char>, int)>,
    p: Seq<int>,
    prefix: Seq<char>,
)
    ensures
        shard_listing(v, facts, p, prefix).map_values(
            |e: (Seq<char>, Seq<char>)| prefix + e.0,
        ) == prefixed_keys(facts, prefix),
    decreases facts.len(),
{
    let told = |e: (Seq<char>, Seq<char>)| prefix + e.0;
    if facts.len() > 0 {
        let init = facts.drop_last();
        a_shard_listing_names_every_key(v, init, p, prefix);
        let before = shard_listing(v, init, p, prefix);
        let key = facts.last().0;
        if starts_with(key, prefix) {
            let e = (key.skip(prefix.len() as int), v.names[p[facts.len() - 1]]);
            assert(prefix + key.skip(prefix.len() as int) =~= key) by {
                assert(key.take(prefix.len() as int) == prefix);
                assert(key.take(prefix.len() as int) + key.skip(prefix.len() as int) =~= key);
            }
            assert(before.push(e).map_values(told) =~= before.map_values(told).push(told(e)));
        }
    } else {
        assert(shard_listing(v, facts, p, prefix).map_values(told) =~= prefixed_keys(
            facts,
            prefix,
        ));
    }
}

/// Entry number `e` of a list of all facts of a user stands for a fact that is
/// held: the user, a bar and the entry's name make its key. Its value is what a
/// read of the key gives, so it is the one that is held where the noise is low
/// enough. Every key of the user has an entry.
pub proof fn a_listing_tells_the_facts<K: Kernel>(
    k: K,
    v: adaptive::StoreState,
    p: Seq<Seq<int>>,
    user: Seq<char>,
)
    requires
        v.valid(),
        shards_decoded(k, v, v.shards.len(), p),
    ensures
        ({
            let list = listing_of(v, p, user_prefix(user), v.shards.len());
            &&& forall|e: int|
                #![trigger list[e]]
                0 <= e < list.len() ==> {
                    let key = user + seq!['|'] + list[e].0;
                    &&& v.facts().contains_key(key)
                    &&& adaptive::read_gives(k, v, key, list[e].1)
                    &&& adaptive::clear_at(k, v, key) ==> list[e].1 == v.facts()[key]
                }
            &&& forall|rest: Seq<char>|
                v.facts().contains_key(#[trigger] (user + seq!['|'] + rest)) ==> names(list, rest)
        }),
{
    let prefix = user_prefix(user);
    let n = v.shards.len();
    let list = listing_of(v, p, prefix, n);
    assert forall|e: int| #![trigger list[e]] 0 <= e < list.len() implies {
        let key = user + seq!['|'] + list[e].0;
        &&& v.facts().contains_key(key)
        &&& adaptive::read_gives(k, v, key, list[e].1)
        &&& adaptive::clear_at(k, v, key) ==> list[e].1 == v.facts()[key]
    } by {
        let (s, i) = listed_from(v, p, prefix, n, e);
        let key = v.shards[s].facts[i].0;
        assert(user + seq!['|'] + list[e].0 =~= key) by {
            assert(key =~= key.take(prefix.len() as int) + key.skip(prefix.len() as int));
        }
        assert(v.at(key, s, i));
        assert(adaptive::shard_decoded(k, v, s, RETRIEVE_PASSES as nat, p[s]));
        if adaptive::clear_at(k, v, key) {
            adaptive::clear_read_gives_the_fact(k, v, key, list[e].1);
        }
    }
    assert forall|rest: Seq<char>|
        v.facts().contains_key(#[trigger] (user + seq!['|'] + rest)) implies names(list, rest) by {
        let key = user + seq!['|'] + rest;
        assert(key.take(prefix.len() as int) =~= prefix);
        own_keys_are_known(v, prefix, key);
        a_listing_names_every_key(v, p, prefix, n);
        assert(v.shards.take(n as int) =~= v.shards);
        let keys = own_keys(v.shards, prefix);
        let e = keys.index_of(key);
        assert(list.map_values(|e: (Seq<char>, Seq<char>)| prefix + e.0)[e] == key);
        assert(list[e].0 =~= rest) by {
            assert((prefix + list[e].0).skip(prefix.len() as int) =~= list[e].0);
            assert(key.skip(prefix.len() as int) =~= rest);
        }
    }
}

/// An entry has the name.
pub open spec fn names(list: Seq<(Seq<char>, Seq<char>)>, name: Seq<char>) -> bool {
    exists|e: int| 0 <= e < list.len() && (#[trigger] list[e]).0 == name
}

/// The place of the fact that an entry of a list stands for.
proof fn listed_from(
    v: adaptive::StoreState,
    p: Seq<Seq<int>>,
    prefix: Seq<char>,
    n: nat,
    e: int,
) -> (at: (int, int))
    requires
        n <= v.shards.len(),
        0 <= e < listing_of(v, p, prefix, n).len(),
    ensures
        0 <= at.0 < n,
        0 <= at.1 < v.shards[at.0].facts.len(),
        starts_with(v.shards[at.0].facts[at.1].0, prefix),
        listing_of(v, p, prefix, n)[e] == (
            v.shards[at.0].facts[at.1].0.skip(prefix.len() as int),
            v.names[p[at.0][at.1]],
        ),
    decreases n,
{
    let before = listing_of(v, p, prefix, (n - 1) as nat);
    if e < before.len() {
        listed_from(v, p, prefix, (n - 1) as nat, e)
    } else {
        let i = listed_in_shard(v, v.shards[n - 1].facts, p[n - 1], prefix, e - before.len());
        (n - 1, i)
    }
}

proof fn listed_in_shard(
    v: adaptive::StoreState,
    facts: Seq<(Seq<char>, int)>,
    p: Seq<int>,
    prefix: Seq<char>,
    e: int,
) -> (i: int)
    requires
        0 <= e < shard_listing(v, facts, p, prefix).len(),
    ensures
        0 <= i < facts.len(),
        starts_with(facts[i].0, prefix),
        shard_listing(v, facts, p, prefix)[e] == (
            facts[i].0.skip(prefix.len() as int),
            v.names[p[i]],
        ),
    decreases facts.len(),
{
    let init = facts.drop_last();
    let before = shard_listing(v, init, p, prefix);
    if e < before.len() {
        let i = listed_in_shard(v, init, p, prefix, e);
        assert(init[i] == facts[i]);
        i
    } else {
        facts.len() - 1
    }
}

/// The keys with a prefix are exactly the known keys that start with it.
pub proof fn own_keys_are_known(v: adaptive::StoreState, prefix: Seq<char>, key: Seq<char>)
    ensures
        own_keys(v.shards, prefix).contains(key) <==> v.knows(key) && starts_with(key, prefix),
{
    own_keys_where(v.shards, prefix, key);
    if v.knows(key) {
        let (s, i) = choose|s: int, i: int| v.at(key, s, i);
        assert(v.shards[s].facts[i].0 == key);
    }
    if exists|s: int, i: int|
        0 <= s < v.shards.len() && 0 <= i < v.shards[s].facts.len() && (
        #[trigger] v.shards[s].facts[i]).0 == key {
        let (s, i) = choose|s: int, i: int|
            0 <= s < v.shards.len() && 0 <= i < v.shards[s].facts.len() && (
            #[trigger] v.shards[s].facts[i]).0 == key;
        assert(v.at(key, s, i));
    }
}

proof fn own_keys_where(shards: Seq<adaptive::ShardState>, prefix: Seq<char>, key: Seq<char>)
    ensures
        own_keys(shards, prefix).contains(key) <==> starts_with(key, prefix) && exists|
            s: int,
            i: int,
        |
            0 <= s < shards.len() && 0 <= i < shards[s].facts.len() && (
            #[trigger] shards[s].facts[i]).0 == key,
    decreases shards.len(),
{
    if shards.len() > 0 {
        let init = shards.drop_last();
        let last = shards.last();
        own_keys_where(init, prefix, key);
        prefixed_keys_where(last.facts, prefix, key);
        let a = own_keys(init, prefix);
        let b = prefixed_keys(last.facts, prefix);
        let all = own_keys(shards, prefix);
        if all.contains(key) {
            let j = all.index_of(key);
            if j < a.len() {
                assert(a[j] == key);
                assert(a.contains(key));
                let (s, i) = choose|s: int, i: int|
                    0 <= s < init.len() && 0 <= i < init[s].facts.len() && (
                    #[trigger] init[s].facts[i]).0 == key;
                assert(shards[s].facts[i].0 == key);
            } else {
                assert(b[j - a.len()] == key);
                assert(b.contains(key));
                let i = choose|i: int|
                    0 <= i < last.facts.len() && (#[trigger] last.facts[i]).0 == key;
                assert(shards[shards.len() - 1].facts[i].0 == key);
            }
        }
        if starts_with(key, prefix) && exists|s: int, i: int|
            0 <= s < shards.len() && 0 <= i < shards[s].facts.len() && (
            #[trigger] shards[s].facts[i]).0 == key {
            let (s, i) = choose|s: int, i: int|
                0 <= s < shards.len() && 0 <= i < shards[s].facts.len() && (
                #[trigger] shards[s].facts[i]).0 == key;
            if s < init.len() {
                assert(init[s].facts[i].0 == key);
                let j = a.index_of(key);
                assert(all[j] == key);
            } else {
                assert(last.facts[i].0 == key);
                let j = b.index_of(key);
                assert(all[a.len() + j] == key);
            }
        }
    }
}

proof fn prefixed_keys_where(facts: Seq<(Seq<char>, int)>, prefix: Seq<char>, key: Seq<char>)
    ensures
        prefixed_keys(facts, prefix).contains(key) <==> starts_with(key, prefix) && exists|i: int|
            0 <= i < facts.len() && (#[trigger] facts[i]).0 == key,
    decreases facts.len(),
{
    if facts.len() > 0 {
        let init = facts.drop_last();
        prefixed_keys_where(init, prefix, key);
        let before = prefixed_keys(init, prefix);
        let all = prefixed_keys(facts, prefix);
        if all.contains(key) {
            let j = all.index_of(key);
            if j < before.len() {
                assert(before[j] == key);
                assert(before.contains(key));
                let i = choose|i: int| 0 <= i < init.len() && (#[trigger] init[i]).0 == key;
                assert(facts[i].0 == key);
            } else {
                assert(facts[facts.len() - 1].0 == key);
            }
        }
        if starts_with(key, prefix) && exists|i: int|
            0 <= i < facts.len() && (#[trigger] facts[i]).0 == key {
            let i = choose|i: int| 0 <= i < facts.len() && (#[trigger] facts[i]).0 == key;
            if i < init.len() {
                assert(init[i].0 == key);
                let j = before.index_of(key);
                assert(all[j] == key);
            } else {
                assert(all[all.len() - 1] == key);
            }
        }
    }
}

/// Forgetting keys one after the other leaves the facts under all other keys,
/// and none under these.
pub proof fn keys_forgotten_are_gone<K: Kernel>(
    k: K,
    v: adaptive::StoreState,
    keys: Seq<Seq<char>>,
    w: adaptive::StoreState,
)
    requires
        v.valid(),
        keys_forgotten(k, v, keys, w),
    ensures
        w.valid(),
        w.facts() == v.facts().remove_keys(keys.to_set()),
        forall|key: Seq<char>| #[trigger] w.knows(key) <==> v.knows(key) && !keys.contains(key),
    decreases keys.len(),
{
    if keys.len() == 0 {
        assert(keys.to_set() =~= Set::empty());
        assert(v.facts().remove_keys(keys.to_set()) =~= v.facts());
    } else {
        let (mid, step) = choose|mid: adaptive::StoreState, step: Result<bool, HlbError>| #[trigger]
            adaptive::forgotten_gives(k, v, keys[0], mid, step) && keys_forgotten(
                k,
                mid,
                keys.skip(1),
                w,
            );
        adaptive::forget_keeps_valid(k, v, keys[0], mid, step);
        adaptive::forget_removes_the_fact(k, v, keys[0], mid, step);
        keys_forgotten_are_gone(k, mid, keys.skip(1), w);
        let rest = keys.skip(1);
        assert forall|x: Seq<char>| keys.contains(x) <==> x == keys[0] || rest.contains(x) by {
            if keys.contains(x) {
                let i = keys.index_of(x);
                if i > 0 {
                    assert(rest[i - 1] == x);
                }
            }
            if rest.contains(x) {
                let i = rest.index_of(x);
                assert(keys[i + 1] == x);
            }
            assert(keys[0] == keys[0]);
        }
        assert forall|key: Seq<char>| #[trigger] w.knows(key) <==> v.knows(key) && !keys.contains(
            key,
        ) by {
            assert(mid.facts().contains_key(key) <==> mid.knows(key));
            assert(v.facts().contains_key(key) <==> v.knows(key));
        }
        assert(w.facts() =~= v.facts().remove_keys(keys.to_set()));
    }
}

/// Forgetting one more key.
proof fn forgotten_then<K: Kernel>(
    k: K,
    v: adaptive::StoreState,
    keys: Seq<Seq<char>>,
    mid: adaptive::StoreState,
    key: Seq<char>,
    w: adaptive::StoreState,
    step: Result<bool, HlbError>,
)
    requires
        keys_forgotten(k, v, keys, mid),
        adaptive::forgotten_gives(k, mid, key, w, step),
    ensures
        keys_forgotten(k, v, keys.push(key), w),
    decreases keys.len(),
{
    let all = keys.push(key);
    if keys.len() == 0 {
        assert(all.skip(1) =~= Seq::empty());
        assert(keys_forgotten(k, w, all.skip(1), w));
        assert(adaptive::forgotten_gives(k, v, all[0], w, step));
    } else {
        let (m, st) = choose|m: adaptive::StoreState, st: Result<bool, HlbError>| #[trigger]
            adaptive::forgotten_gives(k, v, keys[0], m, st) && keys_forgotten(
                k,
                m,
                keys.skip(1),
                mid,
            );
        forgotten_then(k, m, keys.skip(1), mid, key, w, step);
        assert(all.skip(1) =~= keys.skip(1).push(key));
        assert(adaptive::forgotten_gives(k, v, all[0], m, st));
    }
}

/// Storing one more fact.
proof fn stored_then<K: Kernel>(
    k: K,
    v: PersonalState,
    facts: Seq<fact::FactState>,
    mid: PersonalState,
    done: Result<(), HlbError>,
    f: fact::FactState,
    w: PersonalState,
    step: Result<(), HlbError>,
)
    requires
        facts_stored(k, v, facts, mid, done),
        done is Ok,
        fact_stored(k, mid, f, w, step),
    ensures
        facts_stored(k, v, facts.push(f), w, step),
    decreases facts.len(),
{
    let all = facts.push(f);
    if facts.len() == 0 {
        assert(all.skip(1) =~= Seq::empty());
        if step is Ok {
            assert(facts_stored(k, w, all.skip(1), w, step));
        }
        assert(fact_stored(k, v, all[0], w, step));
    } else {
        let (m, st) = choose|m: PersonalState, st: Result<(), HlbError>| #[trigger]
            fact_stored(k, v, facts[0], m, st) && match st {
                Ok(_) => facts_stored(k, m, facts.skip(1), mid, done),
                Err(_) => mid == m && done == st,
            };
        stored_then(k, m, facts.skip(1), mid, done, f, w, step);
        assert(all.skip(1) =~= facts.skip(1).push(f));
        assert(fact_stored(k, v, all[0], m, st));
    }
}

/// Facts behind one that was refused are not stored.
proof fn stored_no_further<K: Kernel>(
    k: K,
    v: PersonalState,
    facts: Seq<fact::FactState>,
    w: PersonalState,
    r: Result<(), HlbError>,
    more: Seq<fact::FactState>,
)
    requires
        facts_stored(k, v, facts, w, r),
        r is Err,
    ensures
        facts_stored(k, v, facts + more, w, r),
    decreases facts.len(),
{
    if facts.len() > 0 {
        let (m, st) = choose|m: PersonalState, st: Result<(), HlbError>| #[trigger]
            fact_stored(k, v, facts[0], m, st) && match st {
                Ok(_) => facts_stored(k, m, facts.skip(1), w, r),
                Err(_) => w == m && r == st,
            };
        let all = facts + more;
        assert(fact_stored(k, v, all[0], m, st));
        if st is Ok {
            stored_no_further(k, m, facts.skip(1), w, r, more);
            assert(all.skip(1) =~= facts.skip(1) + more);
        }
    }
}

/// No key is listed twice.
proof fn own_keys_distinct(v: adaptive::StoreState, n: nat, prefix: Seq<char>)
    requires
        v.valid(),
        n <= v.shards.len(),
    ensures
        own_keys(v.shards.take(n as int), prefix).no_duplicates(),
    decreases n,
{
    if n > 0 {
        let now = v.shards.take(n as int);
        let init = v.shards.take(n - 1);
        assert(now.drop_last() =~= init);
        assert(now.last() == v.shards[n - 1]);
        own_keys_distinct(v, (n - 1) as nat, prefix);
        prefixed_keys_distinct(v, n - 1, v.shards[n - 1].facts.len(), prefix);
        assert(v.shards[n - 1].facts.take(v.shards[n - 1].facts.len() as int)
            =~= v.shards[n - 1].facts);
        let a = own_keys(init, prefix);
        let b = prefixed_keys(v.shards[n - 1].facts, prefix);
        assert forall|i: int, j: int| 0 <= i < a.len() && 0 <= j < b.len() implies a[i] != b[j] by {
            if a[i] == b[j] {
                own_keys_where(init, prefix, a[i]);
                prefixed_keys_where(v.shards[n - 1].facts, prefix, b[j]);
                assert(a.contains(a[i]));
                assert(b.contains(b[j]));
                let (s, x) = choose|s: int, x: int|
                    0 <= s < init.len() && 0 <= x < init[s].facts.len() && (
                    #[trigger] init[s].facts[x]).0 == a[i];
                let y = choose|y: int|
                    0 <= y < v.shards[n - 1].facts.len() && (
                    #[trigger] v.shards[n - 1].facts[y]).0 == b[j];
                assert(v.at(a[i], s, x));
                assert(v.at(a[i], n - 1, y));
            }
        }
        assert((a + b).no_duplicates()) by {
            assert forall|i: int, j: int| 0 <= i < (a + b).len() && 0 <= j < (a + b).len() && i
                != j implies (a + b)[i] != (a + b)[j] by {
                if i < a.len() && j >= a.len() {
                    assert(a[i] != b[j - a.len()]);
                }
                if j < a.len() && i >= a.len() {
                    assert(a[j] != b[i - a.len()]);
                }
            }
        }
    }
}

proof fn prefixed_keys_distinct(v: adaptive::StoreState, s: int, n: nat, prefix: Seq<char>)
    requires
        v.valid(),
        0 <= s < v.shards.len(),
        n <= v.shards[s].facts.len(),
    ensures
        prefixed_keys(v.shards[s].facts.take(n as int), prefix).no_duplicates(),
    decreases n,
{
    if n > 0 {
        let facts = v.shards[s].facts;
        let now = facts.take(n as int);
        let init = facts.take(n - 1);
        assert(now.drop_last() =~= init);
        assert(now.last() == facts[n - 1]);
        prefixed_keys_distinct(v, s, (n - 1) as nat, prefix);
        let before = prefixed_keys(init, prefix);
        let key = facts[n - 1].0;
        if before.contains(key) {
            prefixed_keys_where(init, prefix, key);
            let x = choose|x: int| 0 <= x < init.len() && (#[trigger] init[x]).0 == key;
            assert(v.at(key, s, x));
            assert(v.at(key, s, n - 1));
        }
        assert(before.push(key).no_duplicates()) by {
            assert forall|i: int, j: int| 0 <= i < before.push(key).len() && 0 <= j < before.push(
                key,
            ).len() && i != j implies before.push(key)[i] != before.push(key)[j] by {
                if i < before.len() {
                    assert(before.contains(before[i]));
                }
                if j < before.len() {
                    assert(before.contains(before[j]));
                }
            }
        }
    }
}

// ---------------------------------------------------------------------
// The memory at work
// ---------------------------------------------------------------------

/// The memory of one user.
pub struct PersonalMemory<K, X> {
    user_id: String,
    mp: AdaptiveMemory<K>,
    extractor: Arc<X>,
    schema: Vec<(String, Vec<String>)>,
}

/// What a schema says.
pub open spec fn schema_state(v: Seq<(String, Vec<String>)>) -> Seq<(Seq<char>, Seq<Seq<char>>)> {
    v.map_values(|e: (String, Vec<String>)| (e.0@, text::texts(e.1@)))
}

impl<K, X> View for PersonalMemory<K, X> {
    type V = PersonalState;

    closed spec fn view(&self) -> PersonalState {
        PersonalState {
            user: self.user_id@,
            store: self.mp@,
            schema: schema_state(self.schema@),
        }
    }
}

/// The subject of a fact, which is the user where none is named.
pub open spec fn subject_or_self(subject: Option<&str>) -> Seq<char> {
    match subject {
        Some(s) => s@,
        None => SELF_SUBJECT@,
    }
}

impl<K: Kernel, X: Extractor> PersonalMemory<K, X> {
    /// The kernel that computes for this memory.
    pub closed spec fn arithmetic(&self) -> K {
        self.mp.arithmetic()
    }

    /// The extractor of this memory.
    pub closed spec fn reader(&self) -> X {
        *self.extractor
    }

    /// The store of facts is well formed.
    pub closed spec fn wf(&self) -> bool {
        self.mp.wf()
    }

    /// A well-formed memory has a valid store whose sizes fit the machine.
    pub proof fn wf_facts(&self)
        requires
            self.wf(),
        ensures
            self@.store.valid(),
            self@.store.room <= usize::MAX,
            self@.store.count() <= usize::MAX,
    {
        self.mp.wf_facts();
    }

    /// The memory of a user over a store of facts.
    pub fn new(user_id: &str, mp: AdaptiveMemory<K>, extractor: Arc<X>) -> (r: Self)
        requires
            mp.wf(),
        ensures
            r.wf(),
            r.arithmetic() == mp.arithmetic(),
            r.reader() == *extractor,
            r@ == (PersonalState { user: user_id@, store: mp@, schema: Seq::empty() }),
    {
        let r = PersonalMemory { user_id: user_id.to_string(), mp, extractor, schema: Vec::new() };
        assert(r@.schema =~= Seq::empty());
        r
    }

    /// The memory of a user over a store of facts and a schema.
    pub fn with_schema(
        user_id: String,
        mp: AdaptiveMemory<K>,
        extractor: Arc<X>,
        schema: Vec<(String, Vec<String>)>,
    ) -> (r: Self)
        requires
            mp.wf(),
        ensures
            r.wf(),
            r.arithmetic() == mp.arithmetic(),
            r.reader() == *extractor,
            r@ == (PersonalState { user: user_id@, store: mp@, schema: schema_state(schema@) }),
    {
        PersonalMemory { user_id, mp, extractor, schema }
    }

    /// The user's id.
    pub fn user_id(&self) -> (r: &str)
        ensures
            r@ == self@.user,
    {
        self.user_id.as_str()
    }

    /// The store of facts.
    pub fn memory(&self) -> (r: &AdaptiveMemory<K>)
        requires
            self.wf(),
        ensures
            r.wf(),
            r@ == self@.store,
            r.arithmetic() == self.arithmetic(),
    {
        &self.mp
    }

    /// The store of facts, to be changed.
    pub fn memory_mut(&mut self) -> (r: &mut AdaptiveMemory<K>)
        requires
            old(self).wf(),
        ensures
            r.wf(),
            r@ == old(self)@.store,
            r.arithmetic() == old(self).arithmetic(),
            final(self)@ == (PersonalState { store: final(r)@, ..old(self)@ }),
            final(self).reader() == old(self).reader(),
            final(r).wf() ==> final(self).wf(),
            final(self).arithmetic() == final(r).arithmetic(),
    {
        &mut self.mp
    }

    /// The schema: each relation with the values that it has taken.
    pub fn schema(&self) -> (r: &Vec<(String, Vec<String>)>)
        ensures
            schema_state(r@) == self@.schema,
    {
        &self.schema
    }

    /// The values that a relation has taken.
    pub fn known_values(&self, predicate: &str) -> (r: Option<&Vec<String>>)
        ensures
            match r {
                Some(v) => listing(self@.schema, predicate@) < self@.schema.len() && text::texts(
                    v@,
                ) == self@.schema[listing(self@.schema, predicate@) as int].1,
                None => listing(self@.schema, predicate@) >= self@.schema.len(),
            },
    {
        let i = self.find_relation(predicate);
        if i < self.schema.len() {
            assert(self@.schema[i as int].1 == text::texts(self.schema@[i as int].1@));
            Some(&self.schema[i].1)
        } else {
            None
        }
    }

    /// The position of a relation in the schema, or the length of the schema.
    fn find_relation(&self, predicate: &str) -> (r: usize)
        ensures
            r == listing(self@.schema, predicate@),
            r <= self.schema@.len(),
    {
        let ghost all = self@.schema;
        let mut i: usize = 0;
        assert(all.skip(0) =~= all);
        while i < self.schema.len()
            invariant
                all == self@.schema,
                i <= self.schema@.len(),
                listing(all, predicate@) == i + listing(all.skip(i as int), predicate@),
            decreases self.schema@.len() - i,
        {
            assert(all.skip(i as int)[0].0 == self.schema@[i as int].0@);
            if same_text(&self.schema[i].0, predicate) {
                return i;
            }
            assert(all.skip(i as int).skip(1) =~= all.skip(i + 1));
            i += 1;
        }
        i
    }

    /// Notes that a relation took a value.
    fn note(&mut self, predicate: &str, value: &str)
        ensures
            final(self)@ == (PersonalState {
                schema: noted(old(self)@.schema, predicate@, value@),
                ..old(self)@
            }),
            final(self).mp == old(self).mp,
            final(self).extractor == old(self).extractor,
    {
        let ghost v = self@;
        let i = self.find_relation(predicate);
        if i < self.schema.len() {
            proof {
                listing_is_first(v.schema, predicate@);
                assert(v.schema[i as int] == (
                    self.schema@[i as int].0@,
                    text::texts(self.schema@[i as int].1@),
                ));
            }
            let mut known = false;
            let mut j: usize = 0;
            let ghost values = self.schema@[i as int].1@;
            while j < self.schema[i].1.len()
                invariant
                    i < self.schema@.len(),
                    values == self.schema@[i as int].1@,
                    j <= values.len(),
                    known == exists|a: int| 0 <= a < j && (#[trigger] values[a])@ == value@,
                decreases values.len() - j,
            {
                if same_text(&self.schema[i].1[j], value) {
                    known = true;
                }
                j += 1;
            }
            proof {
                if known {
                    let a = choose|a: int| 0 <= a < j && (#[trigger] values[a])@ == value@;
                    assert(text::texts(values)[a] == value@);
                } else if text::texts(values).contains(value@) {
                    let a = text::texts(values).index_of(value@);
                    assert(values[a]@ == value@);
                }
            }
            if !known {
                self.schema[i].1.push(value.to_string());
                proof {
                    let now = self.schema@[i as int].1@;
                    assert(text::texts(now) =~= text::texts(values).push(value@));
                    assert(self@.schema =~= v.schema.update(
                        i as int,
                        (predicate@, text::texts(values).push(value@)),
                    ));
                }
            } else {
                assert(self@.schema =~= v.schema.update(
                    i as int,
                    (predicate@, text::texts(values)),
                ));
            }
        } else {
            let mut values: Vec<String> = Vec::new();
            values.push(value.to_string());
            assert(text::texts(values@) =~= seq![value@]);
            self.schema.push((predicate.to_string(), values));
            assert(self@.schema =~= v.schema.push((predicate@, seq![value@])));
        }
        assert(self@ =~= PersonalState { schema: noted(v.schema, predicate@, value@), ..v });
    }

    /// Stores a fact, in place of one with the same subject and relation, and
    /// notes its value in the schema.
    pub fn store_fact(&mut self, fact: &Fact) -> (r: Result<(), HlbError>)
        requires
            old(self).wf(),
        ensures
            final(self).wf(),
            final(self).arithmetic() == old(self).arithmetic(),
            final(self).reader() == old(self).reader(),
            fact_stored(old(self).arithmetic(), old(self)@, fact@, final(self)@, r),
            r is Ok ==> final(self)@.store.facts() == old(self)@.store.facts().insert(
                old(self)@.user + seq!['|'] + fact.subject@ + seq!['|'] + fact.predicate@,
                fact.obj@,
            ),
            r is Err ==> final(self)@ == old(self)@,
    {
        let ghost v = self@;
        let ghost k = self.arithmetic();
        proof {
            self.wf_facts();
        }
        let key = fact.to_key(&self.user_id);
        let outcome = self.mp.store(&key, &fact.obj);
        assert(adaptive::stored_gives(
            k,
            v.store,
            fact::fact_key(v.user, fact@.subject, fact@.predicate),
            fact@.obj,
            self@.store,
            outcome,
        ));
        if let Err(e) = outcome {
            return Err(e);
        }
        let ghost stored = self@;
        assert(stored.schema == v.schema && stored.user == v.user);
        self.note(&fact.predicate, &fact.obj);
        assert(self@.store == stored.store);
        assert(adaptive::stored_gives(
            k,
            v.store,
            fact::fact_key(v.user, fact@.subject, fact@.predicate),
            fact@.obj,
            self@.store,
            outcome,
        ));
        proof {
            assert(fact_stored(k, v, fact@, self@, Ok::<(), HlbError>(())));
            a_stored_fact_is_held(k, v, fact@, self@, Ok::<(), HlbError>(()));
        }
        Ok(())
    }

    /// Whether the schema lists a value under a relation.
    fn is_listed(&self, predicate: &str, value: &str) -> (r: bool)
        ensures
            r == lists(self@.schema, predicate@, value@),
    {
        let i = self.find_relation(predicate);
        if i >= self.schema.len() {
            return false;
        }
        let ghost values = self.schema@[i as int].1@;
        assert(self@.schema[i as int].1 == text::texts(values));
        let mut j: usize = 0;
        while j < self.schema[i].1.len()
            invariant
                i < self.schema@.len(),
                i == listing(self@.schema, predicate@),
                self@.schema.len() == self.schema@.len(),
                self@.schema[i as int].1 == text::texts(values),
                values == self.schema@[i as int].1@,
                j <= values.len(),
                forall|a: int| 0 <= a < j ==> (#[trigger] values[a])@ != value@,
            decreases values.len() - j,
        {
            if same_text(&self.schema[i].1[j], value) {
                assert(text::texts(values)[j as int] == value@);
                return true;
            }
            j += 1;
        }
        proof {
            if text::texts(values).contains(value@) {
                let a = text::texts(values).index_of(value@);
                assert(values[a]@ == value@);
            }
        }
        false
    }

    /// Stores facts one after the other, up to the first that is refused. Gives
    /// those that are new to the schema.
    pub fn store_facts(&mut self, facts: &Vec<Fact>) -> (r: Result<Vec<Fact>, HlbError>)
        requires
            old(self).wf(),
        ensures
            final(self).wf(),
            final(self).arithmetic() == old(self).arithmetic(),
            final(self).reader() == old(self).reader(),
            read_in(
                old(self).arithmetic(),
                old(self)@,
                extractor::fact_states(facts@),
                final(self)@,
                r,
            ),
    {
        let ghost v = self@;
        let ghost k = self.arithmetic();
        let ghost all = extractor::fact_states(facts@);
        let mut out: Vec<Fact> = Vec::new();
        let mut i: usize = 0;
        assert(all.take(0) =~= Seq::empty());
        assert(extractor::fact_states(out@) =~= Seq::empty());
        let ghost mut done: Result<(), HlbError> = Ok(());
        while i < facts.len()
            invariant
                all == extractor::fact_states(facts@),
                k == old(self).arithmetic(),
                v == old(self)@,
                self.wf(),
                self.arithmetic() == k,
                self.reader() == old(self).reader(),
                i <= facts@.len(),
                done is Ok,
                facts_stored(k, v, all.take(i as int), self@, done),
                self@.schema == noted_all(v.schema, all.take(i as int)),
                extractor::fact_states(out@) == new_facts(v.schema, all.take(i as int)),
            decreases facts@.len() - i,
        {
            let ghost before = self@;
            assert(all[i as int] == facts@[i as int]@);
            let known = self.is_listed(&facts[i].predicate, &facts[i].obj);
            let step = self.store_fact(&facts[i]);
            proof {
                stored_then(
                    k,
                    v,
                    all.take(i as int),
                    before,
                    done,
                    all[i as int],
                    self@,
                    step,
                );
                assert(all.take(i as int).push(all[i as int]) =~= all.take(i + 1));
            }
            if let Err(e) = step {
                proof {
                    stored_no_further(
                        k,
                        v,
                        all.take(i + 1),
                        self@,
                        Err(e),
                        all.skip(i + 1),
                    );
                    assert(all.take(i + 1) + all.skip(i + 1) =~= all);
                }
                return Err(e);
            }
            proof {
                done = step;
                assert(all.take(i + 1).drop_last() =~= all.take(i as int));
                assert(all.take(i + 1).last() == facts@[i as int]@);
            }
            if !known {
                let ghost listed = extractor::fact_states(out@);
                out.push(facts[i].copy());
                assert(extractor::fact_states(out@) =~= listed.push(facts@[i as int]@));
            }
            i += 1;
        }
        assert(all.take(i as int) =~= all);
        proof {
            facts_stored_any_ok(k, v, all, self@, done, Ok(()));
        }
        Ok(out)
    }

    /// Reads the facts in a message and stores them. Gives those that are new
    /// to the schema.
    pub fn ingest(&mut self, message: &str) -> (r: Result<Vec<Fact>, HlbError>)
        requires
            old(self).wf(),
        ensures
            final(self).wf(),
            final(self).arithmetic() == old(self).arithmetic(),
            final(self).reader() == old(self).reader(),
            exists|facts: Vec<Fact>|
                #![trigger call_ensures(X::extract, (&old(self).reader(), message), facts)]
                call_ensures(X::extract, (&old(self).reader(), message), facts) && read_in(
                    old(self).arithmetic(),
                    old(self)@,
                    extractor::fact_states(facts@),
                    final(self)@,
                    r,
                ),
    {
        let facts = self.extractor.extract(message);
        assert(call_ensures(X::extract, (&old(self).reader(), message), facts));
        self.store_facts(&facts)
    }

    /// The value of a relation, for the user where no subject is named.
    pub fn recall(&self, predicate: &str, subject: Option<&str>) -> (r: Result<
        Option<String>,
        HlbError,
    >)
        requires
            self.wf(),
        ensures
            ({
                let key = fact::fact_key(self@.user, subject_or_self(subject), predicate@);
                match r {
                    Ok(Some(text)) => self@.store.knows(key) && adaptive::read_gives(
                        self.arithmetic(),
                        self@.store,
                        key,
                        text@,
                    ),
                    Ok(None) => !self@.store.knows(key),
                    Err(_) => false,
                }
            }),
            subject matches Some(s) ==> (r matches Ok(found) && (found is Some
                <==> self@.store.facts().contains_key(
                self@.user + seq!['|'] + s@ + seq!['|'] + predicate@,
            ))),
            subject is None ==> (r matches Ok(found) && (found is Some
                <==> self@.store.facts().contains_key(
                self@.user + seq!['|'] + "user"@ + seq!['|'] + predicate@,
            ))),
    {
        let subj = match subject {
            Some(s) => s,
            None => SELF_SUBJECT,
        };
        let key = storage_key(&self.user_id, subj, predicate);
        self.mp.retrieve(&key)
    }

    /// Forgets the fact of a relation, for the user where no subject is named.
    pub fn forget(&mut self, predicate: &str, subject: Option<&str>) -> (r: Result<bool, HlbError>)
        requires
            old(self).wf(),
        ensures
            final(self).wf(),
            final(self).arithmetic() == old(self).arithmetic(),
            final(self).reader() == old(self).reader(),
            final(self)@ == (PersonalState { store: final(self)@.store, ..old(self)@ }),
            adaptive::forgotten_gives(
                old(self).arithmetic(),
                old(self)@.store,
                fact::fact_key(old(self)@.user, subject_or_self(subject), predicate@),
                final(self)@.store,
                r,
            ),
            subject matches Some(s) ==> {
                let key = old(self)@.user + seq!['|'] + s@ + seq!['|'] + predicate@;
                &&& final(self)@.store.facts() == old(self)@.store.facts().remove(key)
                &&& r == Ok::<bool, HlbError>(old(self)@.store.facts().contains_key(key))
            },
            subject is None ==> {
                let key = old(self)@.user + seq!['|'] + "user"@ + seq!['|'] + predicate@;
                &&& final(self)@.store.facts() == old(self)@.store.facts().remove(key)
                &&& r == Ok::<bool, HlbError>(old(self)@.store.facts().contains_key(key))
            },
    {
        let ghost v = self@.store;
        let ghost k = self.arithmetic();
        proof {
            self.wf_facts();
        }
        let subj = match subject {
            Some(s) => s,
            None => SELF_SUBJECT,
        };
        let key = storage_key(&self.user_id, subj, predicate);
        let r = self.mp.forget(&key);
        proof {
            adaptive::forget_removes_the_fact(k, v, key@, self@.store, r);
        }
        r
    }

    /// What the user's keys start with.
    fn prefix(&self) -> (r: String)
        ensures
            r@ == user_prefix(self@.user),
    {
        let mut p = String::new();
        p.append(&self.user_id);
        p.push('|');
        assert(p@ =~= user_prefix(self@.user));
        p
    }

    /// All facts of the user: for each the subject and relation, joined by a
    /// bar, and the value.
    pub fn all_facts(&self) -> (r: Result<Vec<(String, String)>, HlbError>)
        requires
            self.wf(),
        ensures
            r matches Ok(list) && exists|p: Seq<Seq<int>>| #[trigger]
                shards_decoded(self.arithmetic(), self@.store, self@.store.shards.len(), p)
                    && text::pair_texts(list@) == listing_of(
                    self@.store,
                    p,
                    user_prefix(self@.user),
                    self@.store.shards.len(),
                ),
    {
        let prefix = self.prefix();
        let ghost v = self@.store;
        let ghost k = self.arithmetic();
        proof {
            self.mp.wf_facts();
        }
        let mut out: Vec<(String, String)> = Vec::new();
        let ghost mut p: Seq<Seq<int>> = Seq::empty();
        let n = self.mp.n_shards();
        let mut s: usize = 0;
        assert(text::pair_texts(out@) =~= listing_of(v, p, prefix@, 0));
        while s < n
            invariant
                self.wf(),
                v == self@.store,
                v.valid(),
                k == self.arithmetic(),
                prefix@ == user_prefix(self@.user),
                s <= n == v.shards.len(),
                shards_decoded(k, v, s as nat, p),
                text::pair_texts(out@) == listing_of(v, p, prefix@, s as nat),
            decreases n - s,
        {
            let preds = match self.mp.decode_shard_amp(s, RETRIEVE_PASSES) {
                Ok(x) => x,
                Err(e) => return Err(e),
            };
            let ghost q = adaptive::pairs(preds@).map_values(|x: (Seq<char>, int)| x.1);
            let ghost before = text::pair_texts(out@);
            let ghost facts = v.shards[s as int].facts;
            let mut i: usize = 0;
            assert(before + shard_listing(v, facts.take(0), q, prefix@) =~= before);
            while i < preds.len()
                invariant
                    self.wf(),
                    v == self@.store,
                    prefix@ == user_prefix(self@.user),
                    facts == v.shards[s as int].facts,
                    preds@.len() == facts.len(),
                    q == adaptive::pairs(preds@).map_values(|x: (Seq<char>, int)| x.1),
                    forall|j: int|
                        0 <= j < preds@.len() ==> (#[trigger] adaptive::pairs(preds@)[j]).0
                            == facts[j].0 && 0 <= adaptive::pairs(preds@)[j].1 < v.names.len(),
                    i <= preds@.len(),
                    text::pair_texts(out@) == before + shard_listing(
                        v,
                        facts.take(i as int),
                        q,
                        prefix@,
                    ),
                decreases preds@.len() - i,
            {
                let ghost now = facts.take(i + 1);
                assert(now.drop_last() =~= facts.take(i as int));
                assert(now[i as int] == facts[i as int]);
                assert(adaptive::pairs(preds@)[i as int] == (
                    preds@[i as int].0@,
                    preds@[i as int].1 as int,
                ));
                let key = chars_of(&preds[i].0);
                let pre = chars_of(&prefix);
                if begins_with(&key, &pre) {
                    let rest = slice_to_string(&key, pre.len(), key.len());
                    assert(rest@ =~= preds@[i as int].0@.skip(prefix@.len() as int));
                    match self.mp.vocab().key_at(preds[i].1) {
                        Some(value) => {
                            let ghost old_texts = text::pair_texts(out@);
                            out.push((rest, value.to_string()));
                            assert(text::pair_texts(out@) =~= old_texts.push((rest@, value@)));
                            assert(text::pair_texts(out@) =~= before + shard_listing(
                                v,
                                now,
                                q,
                                prefix@,
                            ));
                        },
                        None => {
                            assert(false);
                        },
                    }
                }
                i += 1;
            }
            assert(facts.take(i as int) =~= facts);
            proof {
                let older = p;
                p = p.push(q);
                listing_agrees(v, older, p, prefix@, s as nat);
                assert(listing_of(v, p, prefix@, (s + 1) as nat) =~= listing_of(
                    v,
                    older,
                    prefix@,
                    s as nat,
                ) + shard_listing(v, facts, q, prefix@));
                assert forall|t: int| 0 <= t < s + 1 && v.shards[t].facts.len() > 0 implies adaptive::shard_decoded(
                k, v, t, RETRIEVE_PASSES as nat, #[trigger] p[t]) by {
                    if t < s {
                        assert(p[t] == older[t]);
                    }
                }
            }
            s += 1;
        }
        Ok(out)
    }

    /// The user's keys.
    fn keys(&self) -> (r: Vec<String>)
        requires
            self.wf(),
        ensures
            text::texts(r@) == own_keys(self@.store.shards, user_prefix(self@.user)),
    {
        let prefix = self.prefix();
        let pre = chars_of(&prefix);
        let ghost v = self@.store;
        let mut out: Vec<String> = Vec::new();
        let n = self.mp.n_shards();
        let mut s: usize = 0;
        assert(v.shards.take(0) =~= Seq::empty());
        assert(text::texts(out@) =~= own_keys(v.shards.take(0), pre@));
        while s < n
            invariant
                self.wf(),
                v == self@.store,
                s <= n == v.shards.len(),
                text::texts(out@) == own_keys(v.shards.take(s as int), pre@),
            decreases n - s,
        {
            let list = self.mp.shard_pairs(s);
            let ghost facts = v.shards[s as int].facts;
            let ghost before = text::texts(out@);
            let mut i: usize = 0;
            assert(before + prefixed_keys(facts.take(0), pre@) =~= before);
            while i < list.len()
                invariant
                    facts == adaptive::pairs(list@),
                    i <= list@.len(),
                    text::texts(out@) == before + prefixed_keys(facts.take(i as int), pre@),
                decreases list@.len() - i,
            {
                let ghost now = facts.take(i + 1);
                assert(now.drop_last() =~= facts.take(i as int));
                assert(now.last() == facts[i as int]);
                assert(facts[i as int].0 == list@[i as int].0@);
                let key = chars_of(&list[i].0);
                if begins_with(&key, &pre) {
                    let ghost old_texts = text::texts(out@);
                    out.push(list[i].0.clone());
                    assert(text::texts(out@) =~= old_texts.push(facts[i as int].0));
                    assert(text::texts(out@) =~= before + prefixed_keys(now, pre@));
                }
                i += 1;
            }
            assert(facts.take(i as int) =~= facts);
            assert(v.shards.take(s + 1).drop_last() =~= v.shards.take(s as int));
            assert(v.shards.take(s + 1).last() == v.shards[s as int]);
            s += 1;
        }
        assert(v.shards.take(s as int) =~= v.shards);
        out
    }

    /// Forgets every fact of the user and gives their number. The schema
    /// stays.
    pub fn forget_all(&mut self) -> (r: Result<usize, HlbError>)
        requires
            old(self).wf(),
        ensures
            final(self).wf(),
            final(self).arithmetic() == old(self).arithmetic(),
            final(self).reader() == old(self).reader(),
            final(self)@ == (PersonalState { store: final(self)@.store, ..old(self)@ }),
            ({
                let keys = own_keys(old(self)@.store.shards, user_prefix(old(self)@.user));
                &&& r == Ok::<usize, HlbError>(keys.len() as usize)
                &&& keys.len() <= usize::MAX
                &&& keys_forgotten(
                    old(self).arithmetic(),
                    old(self)@.store,
                    keys,
                    final(self)@.store,
                )
            }),
            forall|key: Seq<char>| #[trigger]
                final(self)@.store.knows(key) <==> old(self)@.store.knows(key) && !starts_with(
                    key,
                    user_prefix(old(self)@.user),
                ),
            forall|rest: Seq<char>|
                !final(self)@.store.facts().contains_key(
                    #[trigger] (old(self)@.user + seq!['|'] + rest),
                ),
    {
        let ghost v = self@.store;
        let ghost k = self.arithmetic();
        let ghost prefix = user_prefix(self@.user);
        proof {
            self.mp.wf_facts();
            own_keys_distinct(v, v.shards.len(), prefix);
            assert(v.shards.take(v.shards.len() as int) =~= v.shards);
        }
        let list = self.keys();
        let ghost keys = text::texts(list@);
        let mut count: usize = 0;
        let mut i: usize = 0;
        assert(keys.take(0) =~= Seq::empty());
        while i < list.len()
            invariant
                keys == text::texts(list@),
                keys == own_keys(v.shards, prefix),
                keys.no_duplicates(),
                v.valid(),
                self.wf(),
                self.arithmetic() == k,
                self.reader() == old(self).reader(),
                self@ == (PersonalState { store: self@.store, ..old(self)@ }),
                i <= list@.len(),
                count == i,
                keys_forgotten(k, v, keys.take(i as int), self@.store),
            decreases list@.len() - i,
        {
            let ghost before = self@.store;
            proof {
                keys_forgotten_are_gone(k, v, keys.take(i as int), before);
                let key = keys[i as int];
                assert(keys.contains(key));
                own_keys_are_known(v, prefix, key);
                assert(!keys.take(i as int).contains(key)) by {
                    if keys.take(i as int).contains(key) {
                        let j = keys.take(i as int).index_of(key);
                        assert(keys[j] == keys[i as int]);
                    }
                }
                assert(before.knows(key));
            }
            let step = self.mp.forget(&list[i]);
            proof {
                forgotten_then(
                    k,
                    v,
                    keys.take(i as int),
                    before,
                    keys[i as int],
                    self@.store,
                    step,
                );
                assert(keys.take(i as int).push(keys[i as int]) =~= keys.take(i + 1));
            }
            match step {
                Ok(gone) => {
                    if gone {
                        count = count + 1;
                    }
                },
                Err(e) => return Err(e),
            }
            i += 1;
        }
        proof {
            assert(keys.take(i as int) =~= keys);
            keys_forgotten_are_gone(k, v, keys, self@.store);
            assert forall|key: Seq<char>| #[trigger] self@.store.knows(key) <==> v.knows(key)
                && !starts_with(key, prefix) by {
                own_keys_are_known(v, prefix, key);
            }
            assert forall|rest: Seq<char>|
                !self@.store.facts().contains_key(
                    #[trigger] (old(self)@.user + seq!['|'] + rest),
                ) by {
                let key = old(self)@.user + seq!['|'] + rest;
                assert(key.take(prefix.len() as int) =~= prefix);
                assert(starts_with(key, prefix));
                assert(!self@.store.knows(key));
            }
        }
        Ok(count)
    }
}

/// The outcome of a run that succeeds holds nothing else.
proof fn facts_stored_any_ok<K: Kernel>(
    k: K,
    v: PersonalState,
    facts: Seq<fact::FactState>,
    w: PersonalState,
    a: Result<(), HlbError>,
    b: Result<(), HlbError>,
)
    requires
        facts_stored(k, v, facts, w, a),
        a is Ok,
        b is Ok,
    ensures
        facts_stored(k, v, facts, w, b),
    decreases facts.len(),
{
    if facts.len() > 0 {
        let (m, st) = choose|m: PersonalState, st: Result<(), HlbError>| #[trigger]
            fact_stored(k, v, facts[0], m, st) && match st {
                Ok(_) => facts_stored(k, m, facts.skip(1), w, a),
                Err(_) => w == m && a == st,
            };
        facts_stored_any_ok(k, m, facts.skip(1), w, a, b);
    }
}

/// A listing does not depend on what was decoded for later shards.
proof fn listing_agrees(
    v: adaptive::StoreState,
    p: Seq<Seq<int>>,
    q: Seq<Seq<int>>,
    prefix: Seq<char>,
    n: nat,
)
    requires
        n <= p.len() <= q.len(),
        forall|i: int| 0 <= i < n ==> p[i] == q[i],
    ensures
        listing_of(v, p, prefix, n) == listing_of(v, q, prefix, n),
    decreases n,
{
    if n > 0 {
        listing_agrees(v, p, q, prefix, (n - 1) as nat);
    }
}

/// Whether `key` starts with `prefix`.
fn begins_with(key: &Vec<char>, prefix: &Vec<char>) -> (r: bool)
    ensures
        r == starts_with(key@, prefix@),
{
    if prefix.len() > key.len() {
        return false;
    }
    let mut i: usize = 0;
    while i < prefix.len()
        invariant
            prefix@.len() <= key@.len(),
            i <= prefix@.len(),
            forall|j: int| 0 <= j < i ==> key@[j] == prefix@[j],
        decreases prefix@.len() - i,
    {
        if key[i] != prefix[i] {
            assert(key@.take(prefix@.len() as int)[i as int] != prefix@[i as int]);
            return false;
        }
        i += 1;
    }
    assert(key@.take(prefix@.len() as int) =~= prefix@);
    true
}

} // verus!
