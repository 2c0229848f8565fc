//! The memory of one user on a device, as bindings to other languages offer it.

use crate::adaptive;
use crate::extractor::{self, Extractor};
use crate::fact::{self, Fact};
use crate::hlb::{self, HlbError};
use crate::kernel::Kernel;
use crate::personal;
use crate::service::{self, MemoryService};
use crate::text;
use std::sync::Arc;
use vstd::prelude::*;

verus! {

broadcast use vstd::string::group_string_axioms;

/// What the facts that come through bindings name as their source.
pub const SOURCE: &'static str = "uniffi";

/// A fact as bindings hand it over.
#[derive(Debug)]
pub struct FactDto {
    pub subject: String,
    pub predicate: String,
    pub obj: String,
    pub source: String,
}

impl FactDto {
    /// What the fact holds.
    pub open spec fn state(self) -> fact::FactState {
        fact::FactState {
            subject: self.subject@,
            predicate: self.predicate@,
            obj: self.obj@,
            source: self.source@,
        }
    }
}

impl From<Fact> for FactDto {
    fn from(f: Fact) -> (r: Self) {
        FactDto { subject: f.subject, predicate: f.predicate, obj: f.obj, source: f.source }
    }
}

impl vstd::std_specs::convert::FromSpecImpl<Fact> for FactDto {
    open spec fn obeys_from_spec() -> bool {
        true
    }

    open spec fn from_spec(f: Fact) -> Self {
        FactDto { subject: f.subject, predicate: f.predicate, obj: f.obj, source: f.source }
    }
}

/// What the facts in a list hold.
pub open spec fn dto_states(v: Seq<FactDto>) -> Seq<fact::FactState> {
    v.map_values(|f: FactDto| f.state())
}

/// An error as bindings hand it over.
#[derive(Debug)]
pub enum MpError {
    Memory { msg: String },
}

impl MpError {
    /// An error with the message of an error of the store.
    pub fn from_err(e: HlbError) -> (r: Self)
        ensures
            r matches MpError::Memory { msg } && msg@ == hlb::error_text(e),
    {
        MpError::Memory { msg: e.message() }
    }

    /// The message.
    pub fn message(&self) -> (r: &str)
        ensures
            *self matches MpError::Memory { msg } && r@ == msg@,
    {
        match self {
            MpError::Memory { msg } => msg.as_str(),
        }
    }
}

/// The error says what the error of the store says.
pub open spec fn says(e: MpError, cause: HlbError) -> bool {
    e matches MpError::Memory { msg } && msg@ == hlb::error_text(cause)
}

/// The result is a failure with what the error of the store says.
pub open spec fn fails_with<T>(r: Result<T, MpError>, cause: HlbError) -> bool {
    r matches Err(e) && says(e, cause)
}

/// The memory of the user cannot be made, and nothing changes.
pub open spec fn unopened<K: Kernel, T>(
    k: K,
    v: service::ServiceState,
    uid: Seq<char>,
    w: service::ServiceState,
    r: Result<T, MpError>,
) -> bool {
    &&& !service::has_user(v.users, uid)
    &&& adaptive::some_row_vanishes(k, v.vocab_cap, v.dim, service::VOCAB_SEED)
    &&& w == v
    &&& fails_with(r, HlbError::ZeroNorm)
}

/// The fact that a relation and a value state about the user.
pub open spec fn stated_fact(predicate: Seq<char>, value: Seq<char>) -> fact::FactState {
    fact::FactState {
        subject: text::lowered(personal::SELF_SUBJECT@),
        predicate: text::lowered(predicate),
        obj: text::lowered(value),
        source: text::prefix(SOURCE@, fact::SOURCE_CHARS as nat),
    }
}

/// What storing a fact comes to.
pub open spec fn store_gives<K: Kernel>(
    k: K,
    f: fact::FactState,
    uid: Seq<char>,
    v: service::ServiceState,
    w: service::ServiceState,
    r: Result<(), MpError>,
) -> bool {
    ||| unopened(k, v, uid, w, r)
    ||| exists|u: service::UserState, m: personal::PersonalState, step: Result<(), HlbError>|
        #![trigger service::at_hand(k, v, uid, u), personal::fact_stored(k, u.memory, f, m, step)]
        {
            &&& service::at_hand(k, v, uid, u)
            &&& personal::fact_stored(k, u.memory, f, m, step)
            &&& w == service::memory_put(v, u, m)
            &&& match step {
                Ok(_) => r is Ok,
                Err(e) => fails_with(r, e),
            }
        }
}

/// What looking up a fact comes to.
pub open spec fn recall_gives<K: Kernel>(
    k: K,
    predicate: Seq<char>,
    uid: Seq<char>,
    v: service::ServiceState,
    w: service::ServiceState,
    r: Result<Option<String>, MpError>,
) -> bool {
    ||| unopened(k, v, uid, w, r)
    ||| exists|u: service::UserState|
        {
            let key = fact::fact_key(u.memory.user, personal::SELF_SUBJECT@, predicate);
            &&& #[trigger] service::at_hand(k, v, uid, u)
            &&& w == service::memory_put(v, u, u.memory)
            &&& match r {
                Ok(Some(t)) => u.memory.store.knows(key) && adaptive::read_gives(
                    k,
                    u.memory.store,
                    key,
                    t@,
                ),
                Ok(None) => !u.memory.store.knows(key),
                Err(_) => false,
            }
        }
}

/// What reading a message comes to.
pub open spec fn ingest_gives<K: Kernel, X: Extractor, F: Fn() -> Arc<X>>(
    k: K,
    factory: F,
    message: Seq<char>,
    uid: Seq<char>,
    v: service::ServiceState,
    w: service::ServiceState,
    r: Result<Vec<FactDto>, MpError>,
) -> bool {
    ||| unopened(k, v, uid, w, r)
    ||| exists|
        u: service::UserState,
        x: X,
        facts: Seq<fact::FactState>,
        m: personal::PersonalState,
        step: Result<(), HlbError>,
    |
        #![trigger service::at_hand(k, v, uid, u), extractor::extracted(x, message, facts), personal::facts_stored(k, u.memory, facts, m, step)]
        {
            &&& service::at_hand(k, v, uid, u)
            &&& service::is_made(factory, x)
            &&& extractor::extracted(x, message, facts)
            &&& personal::facts_stored(k, u.memory, facts, m, step)
            &&& w == service::memory_put(v, u, m)
            &&& match step {
                Ok(_) => r matches Ok(list) && dto_states(list@) == personal::new_facts(
                    u.memory.schema,
                    facts,
                ),
                Err(e) => fails_with(r, e),
            }
        }
}

/// What forgetting a fact comes to.
pub open spec fn forget_gives<K: Kernel>(
    k: K,
    predicate: Seq<char>,
    uid: Seq<char>,
    v: service::ServiceState,
    w: service::ServiceState,
    r: Result<bool, MpError>,
) -> bool {
    ||| unopened(k, v, uid, w, r)
    ||| exists|u: service::UserState, after: adaptive::StoreState, step: Result<bool, HlbError>|
        #![trigger service::at_hand(k, v, uid, u), adaptive::forgotten_gives(k, u.memory.store, fact::fact_key(u.memory.user, personal::SELF_SUBJECT@, predicate), after, step)]
        {
            &&& service::at_hand(k, v, uid, u)
            &&& adaptive::forgotten_gives(
                k,
                u.memory.store,
                fact::fact_key(u.memory.user, personal::SELF_SUBJECT@, predicate),
                after,
                step,
            )
            &&& w == service::memory_put(
                v,
                u,
                personal::PersonalState { store: after, ..u.memory },
            )
            &&& match step {
                Ok(removed) => r == Ok::<bool, MpError>(removed),
                Err(e) => fails_with(r, e),
            }
        }
}

/// What exporting the user comes to.
pub open spec fn export_gives<K: Kernel>(
    k: K,
    uid: Seq<char>,
    v: service::ServiceState,
    w: service::ServiceState,
    r: Result<Vec<(String, String)>, MpError>,
) -> bool {
    ||| unopened(k, v, uid, w, r)
    ||| exists|u: service::UserState, p: Seq<Seq<int>>|
        #![trigger service::at_hand(k, v, uid, u), personal::shards_decoded(k, u.memory.store, u.memory.store.shards.len(), p)]
        {
            &&& service::at_hand(k, v, uid, u)
            &&& personal::shards_decoded(k, u.memory.store, u.memory.store.shards.len(), p)
            &&& w == service::memory_put(v, u, u.memory)
            &&& r matches Ok(list) && text::pair_texts(list@) == personal::listing_of(
                u.memory.store,
                p,
                personal::user_prefix(u.memory.user),
                u.memory.store.shards.len(),
            )
        }
}

/// A fact that is stated through bindings is about the user and names them as its
/// source.
pub proof fn stated_facts_name_the_bindings(predicate: Seq<char>, value: Seq<char>)
    ensures
        stated_fact(predicate, value).subject == "user"@,
        stated_fact(predicate, value).predicate == text::lowered(predicate),
        stated_fact(predicate, value).obj == text::lowered(value),
        stated_fact(predicate, value).source == "uniffi"@,
{
    reveal_strlit("user");
    reveal_strlit("uniffi");
    text::lowered_is_idempotent("user"@);
}

/// A fact is stored about the user: under the holder's name, `user` and the
/// relation, in lower case, with its value in lower case. Nothing else that is
/// held changes.
pub proof fn a_fact_is_stored_about_the_user<K: Kernel>(
    k: K,
    predicate: Seq<char>,
    value: Seq<char>,
    uid: Seq<char>,
    v: service::ServiceState,
    w: service::ServiceState,
    r: Result<(), MpError>,
)
    requires
        service::sound(v),
        store_gives(k, stated_fact(predicate, value), uid, v, w, r),
        r is Ok,
    ensures
        service::facts_of(w, uid) == service::facts_of(v, uid).insert(
            service::holder(v, uid) + seq!['|'] + "user"@ + seq!['|'] + text::lowered(predicate),
            text::lowered(value),
        ),
        service::holder(w, uid) == service::holder(v, uid),
        forall|other: Seq<char>|
            other != uid ==> #[trigger] service::facts_of(w, other) == service::facts_of(v, other),
{
    let f = stated_fact(predicate, value);
    let (u, m, step) = choose|
        u: service::UserState,
        m: personal::PersonalState,
        step: Result<(), HlbError>,
    |
        #![trigger service::at_hand(k, v, uid, u), personal::fact_stored(k, u.memory, f, m, step)]
        {
            &&& service::at_hand(k, v, uid, u)
            &&& personal::fact_stored(k, u.memory, f, m, step)
            &&& w == service::memory_put(v, u, m)
            &&& match step {
                Ok(_) => r is Ok,
                Err(e) => fails_with(r, e),
            }
        };
    service::at_hand_is_theirs(k, v, uid, u);
    service::a_put_memory_is_theirs(v, u, m);
    personal::a_stored_fact_is_held(k, u.memory, f, m, step);
    reveal_strlit("user");
    text::lowered_is_idempotent("user"@);
}

/// A fact about the user is looked up under the holder's name, `user` and the
/// relation as it is given: something is told exactly when it is held there, and
/// it is what is held where the noise is low enough. Nothing that is held
/// changes.
pub proof fn a_fact_is_recalled_about_the_user<K: Kernel>(
    k: K,
    predicate: Seq<char>,
    uid: Seq<char>,
    v: service::ServiceState,
    w: service::ServiceState,
    r: Result<Option<String>, MpError>,
)
    requires
        service::sound(v),
        recall_gives(k, predicate, uid, v, w, r),
        r is Ok,
    ensures
        ({
            let key = service::holder(v, uid) + seq!['|'] + "user"@ + seq!['|'] + predicate;
            let held = service::facts_of(v, uid);
            &&& r->Ok_0 is Some <==> held.contains_key(key)
            &&& held.contains_key(key) && adaptive::clear_at(
                k,
                v.users[service::seat(v.users, uid) as int].memory.store,
                key,
            ) ==> (r->Ok_0)->0@ == held[key]
        }),
        forall|id: Seq<char>| #[trigger] service::facts_of(w, id) == service::facts_of(v, id),
{
    let u = choose|u: service::UserState|
        {
            let key = fact::fact_key(u.memory.user, personal::SELF_SUBJECT@, predicate);
            &&& #[trigger] service::at_hand(k, v, uid, u)
            &&& w == service::memory_put(v, u, u.memory)
            &&& match r {
                Ok(Some(t)) => u.memory.store.knows(key) && adaptive::read_gives(
                    k,
                    u.memory.store,
                    key,
                    t@,
                ),
                Ok(None) => !u.memory.store.knows(key),
                Err(_) => false,
            }
        };
    service::at_hand_is_theirs(k, v, uid, u);
    service::a_put_memory_is_theirs(v, u, u.memory);
    let key = service::holder(v, uid) + seq!['|'] + "user"@ + seq!['|'] + predicate;
    assert(key == fact::fact_key(u.memory.user, personal::SELF_SUBJECT@, predicate));
    assert(u.memory.store.knows(key) <==> service::facts_of(v, uid).contains_key(key));
    if service::facts_of(v, uid).contains_key(key) && adaptive::clear_at(
        k,
        u.memory.store,
        key,
    ) {
        adaptive::clear_read_gives_the_fact(k, u.memory.store, key, (r->Ok_0)->0@);
    }
    assert forall|id: Seq<char>| #[trigger] service::facts_of(w, id) == service::facts_of(v, id) by {
        if id != uid {
        }
    }
}

/// A fact about the user is forgotten under the holder's name, `user` and the
/// relation as it is given; the answer tells whether it was there. Nothing else
/// that is held changes.
pub proof fn a_fact_is_forgotten_about_the_user<K: Kernel>(
    k: K,
    predicate: Seq<char>,
    uid: Seq<char>,
    v: service::ServiceState,
    w: service::ServiceState,
    r: Result<bool, MpError>,
)
    requires
        service::sound(v),
        forget_gives(k, predicate, uid, v, w, r),
        r is Ok,
    ensures
        ({
            let key = service::holder(v, uid) + seq!['|'] + "user"@ + seq!['|'] + predicate;
            &&& service::facts_of(w, uid) == service::facts_of(v, uid).remove(key)
            &&& r->Ok_0 == service::facts_of(v, uid).contains_key(key)
        }),
        service::holder(w, uid) == service::holder(v, uid),
        forall|other: Seq<char>|
            other != uid ==> #[trigger] service::facts_of(w, other) == service::facts_of(v, other),
{
    let (u, after, step) = choose|
        u: service::UserState,
        after: adaptive::StoreState,
        step: Result<bool, HlbError>,
    |
        #![trigger service::at_hand(k, v, uid, u), adaptive::forgotten_gives(k, u.memory.store, fact::fact_key(u.memory.user, personal::SELF_SUBJECT@, predicate), after, step)]
        {
            &&& service::at_hand(k, v, uid, u)
            &&& adaptive::forgotten_gives(
                k,
                u.memory.store,
                fact::fact_key(u.memory.user, personal::SELF_SUBJECT@, predicate),
                after,
                step,
            )
            &&& w == service::memory_put(
                v,
                u,
                personal::PersonalState { store: after, ..u.memory },
            )
            &&& match step {
                Ok(removed) => r == Ok::<bool, MpError>(removed),
                Err(e) => fails_with(r, e),
            }
        };
    service::at_hand_is_theirs(k, v, uid, u);
    service::a_put_memory_is_theirs(
        v,
        u,
        personal::PersonalState { store: after, ..u.memory },
    );
    let key = service::holder(v, uid) + seq!['|'] + "user"@ + seq!['|'] + predicate;
    assert(u.memory.store.knows(key) <==> service::facts_of(v, uid).contains_key(key));
    adaptive::forget_removes_the_fact(k, u.memory.store, key, after, step);
}

/// A message that was read in is told of by the facts that were not listed for the
/// user before, each of these, and none twice; and each fact that the extractor
/// read in it is held under its subject and relation.
pub proof fn an_ingested_message_is_held<K: Kernel, X: Extractor, F: Fn() -> Arc<X>>(
    k: K,
    factory: F,
    message: Seq<char>,
    uid: Seq<char>,
    v: service::ServiceState,
    w: service::ServiceState,
    r: Result<Vec<FactDto>, MpError>,
) -> (read: (X, Seq<fact::FactState>))
    requires
        service::sound(v),
        ingest_gives(k, factory, message, uid, v, w, r),
        r is Ok,
    ensures
        extractor::extracted(read.0, message, read.1),
        service::is_made(factory, read.0),
        forall|i: int|
            #![trigger read.1[i]]
            0 <= i < read.1.len() ==> service::facts_of(w, uid).contains_key(
                personal::own_key(service::holder(v, uid), read.1[i]),
            ),
        forall|i: int|
            0 <= i < r->Ok_0@.len() ==> !personal::lists(
                service::schema_of(v, uid),
                (#[trigger] r->Ok_0@[i]).predicate@,
                r->Ok_0@[i].obj@,
            ),
        forall|j: int|
            0 <= j < read.1.len() && !personal::lists(
                service::schema_of(v, uid),
                (#[trigger] read.1[j]).predicate,
                read.1[j].obj,
            ) ==> personal::tells(dto_states(r->Ok_0@), read.1[j].predicate, read.1[j].obj),
        forall|other: Seq<char>|
            other != uid ==> #[trigger] service::facts_of(w, other) == service::facts_of(v, other),
{
    let list = r->Ok_0@;
    let (u, x, facts, m, step) = choose|
        u: service::UserState,
        x: X,
        facts: Seq<fact::FactState>,
        m: personal::PersonalState,
        step: Result<(), HlbError>,
    |
        #![trigger service::at_hand(k, v, uid, u), extractor::extracted(x, message, facts), personal::facts_stored(k, u.memory, facts, m, step)]
        {
            &&& service::at_hand(k, v, uid, u)
            &&& service::is_made(factory, x)
            &&& extractor::extracted(x, message, facts)
            &&& personal::facts_stored(k, u.memory, facts, m, step)
            &&& w == service::memory_put(v, u, m)
            &&& match step {
                Ok(_) => r matches Ok(list) && dto_states(list@) == personal::new_facts(
                    u.memory.schema,
                    facts,
                ),
                Err(e) => fails_with(r, e),
            }
        };
    service::at_hand_is_theirs(k, v, uid, u);
    service::a_put_memory_is_theirs(v, u, m);
    personal::stored_facts_are_held(k, u.memory, facts, m, step);
    assert(u.memory.schema =~= service::schema_of(v, uid));
    personal::new_facts_tell_what_was_not_listed(u.memory.schema, facts);
    assert forall|i: int| 0 <= i < list.len() implies !personal::lists(
        service::schema_of(v, uid),
        (#[trigger] list[i]).predicate@,
        list[i].obj@,
    ) by {
        assert(dto_states(list)[i] == list[i].state());
    }
    (x, facts)
}

/// What the user is told stands for facts that are held for them, each with the
/// subject and the relation for a name, and every fact of theirs is told.
pub proof fn an_export_tells_the_facts<K: Kernel>(
    k: K,
    uid: Seq<char>,
    v: service::ServiceState,
    w: service::ServiceState,
    r: Result<Vec<(String, String)>, MpError>,
)
    requires
        service::sound(v),
        export_gives(k, uid, v, w, r),
        r is Ok,
    ensures
        forall|e: int|
            0 <= e < r->Ok_0@.len() ==> service::facts_of(v, uid).contains_key(
                service::holder(v, uid) + seq!['|'] + (#[trigger] r->Ok_0@[e]).0@,
            ),
        forall|rest: Seq<char>|
            service::facts_of(v, uid).contains_key(
                #[trigger] (service::holder(v, uid) + seq!['|'] + rest),
            ) ==> exists|e: int|
                0 <= e < r->Ok_0@.len() && (#[trigger] r->Ok_0@[e]).0@ == rest,
        forall|id: Seq<char>| #[trigger] service::facts_of(w, id) == service::facts_of(v, id),
{
    let list = r->Ok_0@;
    let (u, p) = choose|u: service::UserState, p: Seq<Seq<int>>|
        #![trigger service::at_hand(k, v, uid, u), personal::shards_decoded(k, u.memory.store, u.memory.store.shards.len(), p)]
        {
            &&& service::at_hand(k, v, uid, u)
            &&& personal::shards_decoded(k, u.memory.store, u.memory.store.shards.len(), p)
            &&& w == service::memory_put(v, u, u.memory)
            &&& text::pair_texts(list) == personal::listing_of(
                u.memory.store,
                p,
                personal::user_prefix(u.memory.user),
                u.memory.store.shards.len(),
            )
        };
    service::at_hand_is_theirs(k, v, uid, u);
    service::a_put_memory_is_theirs(v, u, u.memory);
    personal::a_listing_tells_the_facts(k, u.memory.store, p, u.memory.user);
    let facts = text::pair_texts(list);
    assert forall|e: int| 0 <= e < list.len() implies service::facts_of(v, uid).contains_key(
        service::holder(v, uid) + seq!['|'] + (#[trigger] list[e]).0@,
    ) by {
        assert(facts[e].0 == list[e].0@);
    }
    assert forall|rest: Seq<char>|
        service::facts_of(v, uid).contains_key(
            #[trigger] (service::holder(v, uid) + seq!['|'] + rest),
        ) implies exists|e: int| 0 <= e < list.len() && (#[trigger] list[e]).0@ == rest by {
        assert(personal::names(facts, rest));
        let e = choose|e: int| 0 <= e < facts.len() && (#[trigger] facts[e]).0 == rest;
        assert(list[e].0@ == rest);
    }
    assert forall|id: Seq<char>| #[trigger] service::facts_of(w, id) == service::facts_of(v, id) by {
        if id != uid {
        }
    }
}

/// On-device personal memory for a single user.
pub struct MemoryPlant<K, X, F> {
    inner: MemoryService<K, X, F>,
    user: String,
}

impl<K: Kernel, X: Extractor, F: Fn() -> Arc<X>> MemoryPlant<K, X, F> {
    /// The service that holds the memory.
    pub closed spec fn held(&self) -> MemoryService<K, X, F> {
        self.inner
    }

    /// The user.
    pub closed spec fn owner(&self) -> Seq<char> {
        self.user@
    }

    /// The service is well formed.
    pub open spec fn wf(&self) -> bool {
        self.held().wf()
    }

    /// The same user, kernel and extractor factory.
    pub open spec fn same_parts(&self, other: &Self) -> bool {
        &&& self.owner() == other.owner()
        &&& self.held().arithmetic() == other.held().arithmetic()
        &&& self.held().factory() == other.held().factory()
    }

    /// An empty memory.
    pub fn new(
        kernel: Arc<K>,
        extractor_factory: F,
        dim: u32,
        vocab_cap: u32,
        user: String,
    ) -> (r: Self)
        requires
            call_requires(extractor_factory, ()),
            vocab_cap * dim <= usize::MAX,
        ensures
            r.wf(),
            r.owner() == user@,
            r.held().arithmetic() == *kernel,
            r.held().factory() == extractor_factory,
            r.held()@ == (service::ServiceState {
                users: Seq::empty(),
                dim: dim as nat,
                vocab_cap: vocab_cap as nat,
            }),
    {
        MemoryPlant {
            inner: MemoryService::new(kernel, extractor_factory, dim as usize, vocab_cap as usize),
            user,
        }
    }

    /// A memory over a service that was loaded.
    pub fn over(service: MemoryService<K, X, F>, user: String) -> (r: Self)
        requires
            service.wf(),
        ensures
            r.wf(),
            r.owner() == user@,
            r.held() == service,
    {
        MemoryPlant { inner: service, user }
    }

    /// The service, to be read.
    pub fn service(&self) -> (r: &MemoryService<K, X, F>)
        ensures
            *r == self.held(),
    {
        &self.inner
    }

    /// Stores a fact about the user.
    pub fn store_fact(&mut self, predicate: &str, value: &str) -> (r: Result<(), MpError>)
        requires
            old(self).wf(),
        ensures
            final(self).wf(),
            final(self).same_parts(&*old(self)),
            store_gives(
                old(self).held().arithmetic(),
                stated_fact(predicate@, value@),
                old(self).owner(),
                old(self).held()@,
                final(self).held()@,
                r,
            ),
    {
        let fact = Fact::new(personal::SELF_SUBJECT, predicate, value, SOURCE);
        assert(fact@ == stated_fact(predicate@, value@));
        let pm = match self.inner.user(&self.user) {
            Ok(m) => m,
            Err(e) => return Err(MpError::from_err(e)),
        };
        match pm.store_fact(&fact) {
            Ok(_) => Ok(()),
            Err(e) => Err(MpError::from_err(e)),
        }
    }

    /// The value of a relation of the user.
    pub fn recall_fact(&mut self, predicate: &str) -> (r: Result<Option<String>, MpError>)
        requires
            old(self).wf(),
        ensures
            final(self).wf(),
            final(self).same_parts(&*old(self)),
            recall_gives(
                old(self).held().arithmetic(),
                predicate@,
                old(self).owner(),
                old(self).held()@,
                final(self).held()@,
                r,
            ),
    {
        let pm = match self.inner.user(&self.user) {
            Ok(m) => m,
            Err(e) => return Err(MpError::from_err(e)),
        };
        match pm.recall(predicate, None) {
            Ok(v) => Ok(v),
            Err(e) => Err(MpError::from_err(e)),
        }
    }

    /// Reads the facts in a message and stores them.
    pub fn ingest_message(&mut self, message: &str) -> (r: Result<Vec<FactDto>, MpError>)
        requires
            old(self).wf(),
        ensures
            final(self).wf(),
            final(self).same_parts(&*old(self)),
            ingest_gives(
                old(self).held().arithmetic(),
                old(self).held().factory(),
                message@,
                old(self).owner(),
                old(self).held()@,
                final(self).held()@,
                r,
            ),
    {
        let ghost k = self.inner.arithmetic();
        let pm = match self.inner.user(&self.user) {
            Ok(m) => m,
            Err(e) => return Err(MpError::from_err(e)),
        };
        let ghost m = pm@;
        let ghost x = pm.reader();
        let told = pm.ingest(message);
        let ghost after = pm@;
        proof {
            let facts = choose|facts: Vec<Fact>|
                #![trigger call_ensures(X::extract, (&x, message), facts)]
                call_ensures(X::extract, (&x, message), facts) && personal::read_in(
                    k,
                    m,
                    extractor::fact_states(facts@),
                    after,
                    told,
                );
            let step = choose|step: Result<(), HlbError>| #[trigger]
                personal::facts_stored(k, m, extractor::fact_states(facts@), after, step)
                    && match step {
                    Ok(_) => told matches Ok(list) && extractor::fact_states(list@)
                        == personal::new_facts(m.schema, extractor::fact_states(facts@)),
                    Err(e) => told == Err::<Vec<Fact>, HlbError>(e),
                };
            assert(extractor::extracted(x, message@, extractor::fact_states(facts@)));
            assert(personal::facts_stored(k, m, extractor::fact_states(facts@), after, step));
        }
        match told {
            Ok(facts) => Ok(handed_over(facts)),
            Err(e) => Err(MpError::from_err(e)),
        }
    }

    /// Forgets a fact about the user.
    pub fn forget_fact(&mut self, predicate: &str) -> (r: Result<bool, MpError>)
        requires
            old(self).wf(),
        ensures
            final(self).wf(),
            final(self).same_parts(&*old(self)),
            forget_gives(
                old(self).held().arithmetic(),
                predicate@,
                old(self).owner(),
                old(self).held()@,
                final(self).held()@,
                r,
            ),
    {
        let pm = match self.inner.user(&self.user) {
            Ok(m) => m,
            Err(e) => return Err(MpError::from_err(e)),
        };
        match pm.forget(predicate, None) {
            Ok(b) => Ok(b),
            Err(e) => Err(MpError::from_err(e)),
        }
    }

    /// All facts of the user: for each the subject and relation, joined by a
    /// bar, and the value.
    pub fn export_user(&mut self) -> (r: Result<Vec<(String, String)>, MpError>)
        requires
            old(self).wf(),
        ensures
            final(self).wf(),
            final(self).same_parts(&*old(self)),
            export_gives(
                old(self).held().arithmetic(),
                old(self).owner(),
                old(self).held()@,
                final(self).held()@,
                r,
            ),
    {
        let pm = match self.inner.user(&self.user) {
            Ok(m) => m,
            Err(e) => return Err(MpError::from_err(e)),
        };
        match pm.all_facts() {
            Ok(list) => Ok(list),
            Err(e) => Err(MpError::from_err(e)),
        }
    }

    /// Takes the user out with everything that is held for them. Gives whether
    /// there was anything.
    pub fn forget_user(&mut self) -> (r: bool)
        requires
            old(self).wf(),
        ensures
            final(self).wf(),
            final(self).same_parts(&*old(self)),
            r == service::has_user(old(self).held()@.users, old(self).owner()),
            final(self).held()@ == (if r {
                service::ServiceState {
                    users: old(self).held()@.users.remove(
                        service::seat(old(self).held()@.users, old(self).owner()) as int,
                    ),
                    ..old(self).held()@
                }
            } else {
                old(self).held()@
            }),
    {
        self.inner.remove_user(&self.user)
    }

    /// How many facts there are.
    pub fn total_facts(&self) -> (r: u64)
        requires
            self.wf(),
            service::fact_total(self.held()@.users) <= usize::MAX,
        ensures
            r == service::fact_total(self.held()@.users),
    {
        self.inner.total_facts() as u64
    }
}

/// Facts as bindings hand them over.
fn handed_over(facts: Vec<Fact>) -> (r: Vec<FactDto>)
    ensures
        dto_states(r@) == extractor::fact_states(facts@),
{
    let mut out: Vec<FactDto> = Vec::with_capacity(facts.len());
    let mut i: usize = 0;
    while i < facts.len()
        invariant
            i <= facts@.len(),
            out@.len() == i,
            forall|j: int| 0 <= j < i ==> (#[trigger] out@[j]).state() == facts@[j]@,
        decreases facts@.len() - i,
    {
        out.push(FactDto::from(facts[i].copy()));
        i += 1;
    }
    assert(dto_states(out@) =~= extractor::fact_states(facts@));
    out
}

} // verus!
