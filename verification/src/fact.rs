//! Facts: what a subject is said to be, in one relation.

use crate::text::{self, to_lowercase, truncated};
use vstd::prelude::*;

verus! {

broadcast use vstd::string::group_string_axioms;

/// How many characters of the source text a fact keeps.
pub const SOURCE_CHARS: usize = 200;

/// A subject, a relation and a value, with the text they were read from.
///
/// The subject of a fact about the user is `user`. Relations are written in
/// snake case.
#[derive(Debug, Clone, PartialEq, Eq, Hash)]
pub struct Fact {
    pub subject: String,
    pub predicate: String,
    pub obj: String,
    pub source: String,
}

/// The texts of a fact.
#[verifier::ext_equal]
pub struct FactState {
    pub subject: Seq<char>,
    pub predicate: Seq<char>,
    pub obj: Seq<char>,
    pub source: Seq<char>,
}

impl View for Fact {
    type V = FactState;

    open spec fn view(&self) -> FactState {
        FactState {
            subject: self.subject@,
            predicate: self.predicate@,
            obj: self.obj@,
            source: self.source@,
        }
    }
}

/// The key that the value of a fact is stored under.
pub open spec fn fact_key(user: Seq<char>, subject: Seq<char>, predicate: Seq<char>) -> Seq<char> {
    user + seq!['|'] + subject + seq!['|'] + predicate
}

/// Two facts of one user have the same key exactly when they have the same
/// subject and relation, for subjects without a vertical bar.
pub proof fn keys_tell_facts_apart(
    user: Seq<char>,
    s1: Seq<char>,
    p1: Seq<char>,
    s2: Seq<char>,
    p2: Seq<char>,
)
    requires
        !s1.contains('|'),
        !s2.contains('|'),
    ensures
        fact_key(user, s1, p1) == fact_key(user, s2, p2) <==> s1 == s2 && p1 == p2,
{
    let k1 = fact_key(user, s1, p1);
    let k2 = fact_key(user, s2, p2);
    if k1 == k2 {
        let n = user.len() + 1;
        assert forall|i: int| 0 <= i < s1.len() && i < s2.len() implies s1[i] == s2[i] by {
            assert(k1[n + i] == s1[i]);
            assert(k2[n + i] == s2[i]);
        }
        if s1.len() < s2.len() {
            assert(k1[n + s1.len() as int] == '|');
            assert(k2[n + s1.len() as int] == s2[s1.len() as int]);
            assert(s2.contains('|'));
        }
        if s2.len() < s1.len() {
            assert(k2[n + s2.len() as int] == '|');
            assert(k1[n + s2.len() as int] == s1[s2.len() as int]);
            assert(s1.contains('|'));
        }
        assert(s1 =~= s2);
        let m = n + s1.len() + 1;
        assert(k1.len() == m + p1.len());
        assert(k2.len() == m + p2.len());
        assert forall|i: int| 0 <= i < p1.len() implies p1[i] == p2[i] by {
            assert(k1[m + i] == p1[i]);
            assert(k2[m + i] == p2[i]);
        }
        assert(p1 =~= p2);
    }
}

/// Facts of different users never have the same key, for ids without a vertical
/// bar. Where the subjects have none either, two keys are the same exactly when
/// user, subject and relation are.
pub proof fn keys_tell_users_apart(
    u1: Seq<char>,
    s1: Seq<char>,
    p1: Seq<char>,
    u2: Seq<char>,
    s2: Seq<char>,
    p2: Seq<char>,
)
    requires
        !u1.contains('|'),
        !u2.contains('|'),
    ensures
        fact_key(u1, s1, p1) == fact_key(u2, s2, p2) ==> u1 == u2,
        !s1.contains('|') && !s2.contains('|') ==> (fact_key(u1, s1, p1) == fact_key(u2, s2, p2)
            <==> u1 == u2 && s1 == s2 && p1 == p2),
{
    let k1 = fact_key(u1, s1, p1);
    let k2 = fact_key(u2, s2, p2);
    if k1 == k2 {
        assert forall|i: int| 0 <= i < u1.len() && i < u2.len() implies u1[i] == u2[i] by {
            assert(k1[i] == u1[i]);
            assert(k2[i] == u2[i]);
        }
        if u1.len() < u2.len() {
            assert(k1[u1.len() as int] == '|');
            assert(k2[u1.len() as int] == u2[u1.len() as int]);
            assert(u2.contains('|'));
        }
        if u2.len() < u1.len() {
            assert(k2[u2.len() as int] == '|');
            assert(k1[u2.len() as int] == u1[u2.len() as int]);
            assert(u1.contains('|'));
        }
        assert(u1 =~= u2);
    }
    if u1 == u2 && !s1.contains('|') && !s2.contains('|') {
        keys_tell_facts_apart(u1, s1, p1, s2, p2);
    }
}

impl Fact {
    /// A fact from texts that are in lower case already. The source is cut to
    /// its first characters.
    pub fn from_lowercase(subject: String, predicate: String, obj: String, source: &str) -> (r: Self)
        ensures
            r@ == (FactState {
                subject: subject@,
                predicate: predicate@,
                obj: obj@,
                source: text::prefix(source@, SOURCE_CHARS as nat),
            }),
            r.source@.len() == (if source@.len() < 200 {
                source@.len()
            } else {
                200
            }),
            r.source@ == source@.take(r.source@.len() as int),
    {
        assert(source@.take(source@.len() as int) =~= source@);
        Fact { subject, predicate, obj, source: truncated(source, SOURCE_CHARS) }
    }

    /// A fact. Subject, relation and value are put into lower case; the source
    /// is cut to its first characters.
    pub fn new(subject: &str, predicate: &str, obj: &str, source: &str) -> (r: Self)
        ensures
            r@ == (FactState {
                subject: text::lowered(subject@),
                predicate: text::lowered(predicate@),
                obj: text::lowered(obj@),
                source: text::prefix(source@, SOURCE_CHARS as nat),
            }),
            r.source@.len() <= 200,
            r.source@ == source@.take(r.source@.len() as int),
    {
        Self::from_lowercase(
            to_lowercase(subject),
            to_lowercase(predicate),
            to_lowercase(obj),
            source,
        )
    }

    /// The key that the value is stored under.
    pub fn to_key(&self, user_id: &str) -> (r: String)
        ensures
            r@ == fact_key(user_id@, self.subject@, self.predicate@),
    {
        storage_key(user_id, &self.subject, &self.predicate)
    }

    /// A copy that holds the same.
    pub fn copy(&self) -> (r: Self)
        ensures
            r@ == self@,
    {
        Fact {
            subject: self.subject.clone(),
            predicate: self.predicate.clone(),
            obj: self.obj.clone(),
            source: self.source.clone(),
        }
    }
}

/// The key for a subject and a relation of a user.
pub fn storage_key(user_id: &str, subject: &str, predicate: &str) -> (r: String)
    ensures
        r@ == fact_key(user_id@, subject@, predicate@),
{
    let mut out = String::new();
    out.append(user_id);
    out.push('|');
    out.append(subject);
    out.push('|');
    out.append(predicate);
    assert(out@ =~= fact_key(user_id@, subject@, predicate@));
    out
}

} // verus!
