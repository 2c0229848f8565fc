//! The memories of all users of a process.
//!
//! Every user has a memory and an audit log of their own. They are made when
//! the user is first asked for.

use crate::adaptive::{self, AdaptiveMemory};
use crate::audit::{self, AuditTrail};
use crate::extractor::Extractor;
use crate::hlb::HlbError;
use crate::json::{self, Json};
use crate::kernel::Kernel;
use crate::persistence::PersistError;
use crate::personal::{self, PersonalMemory};
use crate::text::{self, chars_of, decimal_string, is_alphanumeric, parse_decimal, parse_digits, same_text};
use std::sync::Arc;
use vstd::prelude::*;

verus! {

broadcast use vstd::string::group_string_axioms;

/// The seed that all vocabularies are drawn from.
pub const VOCAB_SEED: u64 = 42;

/// The dimension of a store unless told otherwise.
pub const DEFAULT_DIM: usize = 512;

/// The room of a vocabulary unless told otherwise.
pub const DEFAULT_VOCAB_CAP: usize = 4096;

// ---------------------------------------------------------------------
// Names and settings
// ---------------------------------------------------------------------

/// Whether a character may stand in a directory name.
pub open spec fn is_safe(c: char) -> bool {
    text::letter_or_digit(c) || c == '_' || c == '-' || c == '.'
}

/// The directory name for a user: every character that may not stand in one is
/// an underscore.
pub open spec fn safe_name(uid: Seq<char>) -> Seq<char> {
    uid.map_values(
        |c: char|
            if is_safe(c) {
                c
            } else {
                '_'
            },
    )
}

/// No directory name holds a character that may not stand in one, such as one
/// that separates directories.
pub proof fn safe_names_are_safe(uid: Seq<char>)
    ensures
        safe_name(uid).len() == uid.len(),
        forall|i: int| 0 <= i < uid.len() ==> is_safe(#[trigger] safe_name(uid)[i]),
        (forall|i: int| 0 <= i < uid.len() ==> is_safe(#[trigger] uid[i])) ==> safe_name(uid)
            == uid,
        !safe_name(uid).contains('/') && !safe_name(uid).contains('\\'),
{
    if forall|i: int| 0 <= i < uid.len() ==> is_safe(#[trigger] uid[i]) {
        assert(safe_name(uid) =~= uid);
    }
}

/// Letters, digits, underscores, hyphens and dots stay in a directory name; every
/// other character of ASCII becomes an underscore.
pub proof fn names_keep_what_is_safe(uid: Seq<char>, i: int)
    requires
        0 <= i < uid.len(),
    ensures
        ({
            let c = uid[i];
            let kept = 'a' <= c <= 'z' || 'A' <= c <= 'Z' || '0' <= c <= '9' || c == '_' || c == '-'
                || c == '.';
            &&& kept ==> safe_name(uid)[i] == c
            &&& !kept && (c as u32) < 128 ==> safe_name(uid)[i] == '_'
            &&& safe_name(uid)[i] == c || safe_name(uid)[i] == '_'
        }),
{
}

/// The directory name for a user.
pub fn safe_id(uid: &str) -> (r: String)
    ensures
        r@ == safe_name(uid@),
{
    let cs = chars_of(uid);
    let mut out = String::new();
    let mut i: usize = 0;
    while i < cs.len()
        invariant
            cs@ == uid@,
            i <= cs@.len(),
            out@ == safe_name(uid@).take(i as int),
        decreases cs@.len() - i,
    {
        let c = cs[i];
        if is_alphanumeric(c) || c == '_' || c == '-' || c == '.' {
            out.push(c);
        } else {
            out.push('_');
        }
        i += 1;
        assert(out@ =~= safe_name(uid@).take(i as int));
    }
    assert(safe_name(uid@).take(i as int) =~= safe_name(uid@));
    out
}

/// Whether a name may name a directory by itself: one that is empty or made of
/// dots does not.
pub open spec fn names_directory(name: Seq<char>) -> bool {
    exists|i: int| 0 <= i < name.len() && (#[trigger] name[i]) != '.'
}

/// An earlier user has the same directory name.
pub open spec fn name_taken(ids: Seq<Seq<char>>, i: int) -> bool {
    exists|j: int| 0 <= j < i && safe_name(#[trigger] ids[j]) == safe_name(ids[i])
}

/// The directory of user number `i` among all users: the user's directory name,
/// with the number behind it where the name alone will not do.
pub open spec fn dir_name(ids: Seq<Seq<char>>, i: int) -> Seq<char> {
    let name = safe_name(ids[i]);
    if names_directory(name) && !name_taken(ids, i) {
        name
    } else {
        name + seq!['~'] + text::decimal(i as nat)
    }
}

/// Every user has a directory of their own, and no directory name separates
/// directories.
pub proof fn users_have_their_own_directories(ids: Seq<Seq<char>>, i: int, j: int)
    requires
        0 <= i < ids.len(),
        0 <= j < ids.len(),
        i != j,
    ensures
        dir_name(ids, i) != dir_name(ids, j),
        !dir_name(ids, i).contains('/') && !dir_name(ids, i).contains('\\'),
{
    let a = safe_name(ids[i]);
    let b = safe_name(ids[j]);
    safe_names_are_safe(ids[i]);
    safe_names_are_safe(ids[j]);
    let da = text::decimal(i as nat);
    let db = text::decimal(j as nat);
    text::decimal_value_of_decimal(i as nat);
    text::decimal_value_of_decimal(j as nat);
    let x = dir_name(ids, i);
    let y = dir_name(ids, j);
    let n = a.len() as int;
    let m = b.len() as int;
    assert forall|p: int| 0 <= p < x.len() implies (#[trigger] x[p]) != '/' && x[p] != '\\' by {
        if p < n {
            assert(is_safe(a[p]));
        } else if p > n {
            assert(x[p] == da[p - n - 1]);
        }
    }
    if x == y {
        if x != a && y != b {
            assert(x[n] == '~' && y[m] == '~');
            if n < m {
                assert(y[n] == b[n]);
            } else if m < n {
                assert(x[m] == a[m]);
            }
            assert(x.skip(n + 1) =~= da);
            assert(y.skip(n + 1) =~= db);
        } else if x != a {
            assert(x[n] == '~');
            assert(is_safe(b[n]));
        } else if y != b {
            assert(y[m] == '~');
            assert(is_safe(a[m]));
        } else if i < j {
            assert(safe_name(ids[i]) == safe_name(ids[j]));
            assert(name_taken(ids, j));
            assert(y.len() == m + 1 + db.len());
        } else {
            assert(safe_name(ids[j]) == safe_name(ids[i]));
            assert(name_taken(ids, i));
            assert(x.len() == n + 1 + da.len());
        }
    }
}

/// The directories of users, in the order of their ids.
pub fn user_dirs(ids: &Vec<String>) -> (r: Vec<String>)
    ensures
        r@.len() == ids@.len(),
        forall|i: int|
            0 <= i < ids@.len() ==> (#[trigger] r@[i])@ == dir_name(text::texts(ids@), i),
{
    let ghost all = text::texts(ids@);
    let mut names: Vec<String> = Vec::with_capacity(ids.len());
    let mut out: Vec<String> = Vec::with_capacity(ids.len());
    let mut i: usize = 0;
    while i < ids.len()
        invariant
            all == text::texts(ids@),
            i <= ids@.len(),
            names@.len() == i,
            out@.len() == i,
            forall|j: int| 0 <= j < i ==> (#[trigger] names@[j])@ == safe_name(all[j]),
            forall|j: int| 0 <= j < i ==> (#[trigger] out@[j])@ == dir_name(all, j),
        decreases ids@.len() - i,
    {
        assert(all[i as int] == ids@[i as int]@);
        let name = safe_id(&ids[i]);
        let mut taken = false;
        let mut j: usize = 0;
        while j < i
            invariant
                j <= i == names@.len(),
                i < ids@.len(),
                all == text::texts(ids@),
                name@ == safe_name(all[i as int]),
                forall|a: int| 0 <= a < i ==> (#[trigger] names@[a])@ == safe_name(all[a]),
                taken == exists|a: int| 0 <= a < j && safe_name(#[trigger] all[a]) == name@,
            decreases i - j,
        {
            if same_text(&names[j], &name) {
                assert(safe_name(all[j as int]) == name@);
                taken = true;
            }
            j += 1;
        }
        let dir = if !taken && has_other_than_dots(&name) {
            name.clone()
        } else {
            let mut d = name.clone();
            d.push('~');
            d.append(&decimal_string(i as u64));
            assert(d@ =~= name@ + seq!['~'] + text::decimal(i as nat));
            d
        };
        assert(dir@ == dir_name(all, i as int));
        names.push(name);
        out.push(dir);
        i += 1;
    }
    out
}

/// Whether a name holds anything but dots.
fn has_other_than_dots(name: &str) -> (r: bool)
    ensures
        r == names_directory(name@),
{
    let cs = chars_of(name);
    let mut i: usize = 0;
    while i < cs.len()
        invariant
            cs@ == name@,
            i <= cs@.len(),
            forall|j: int| 0 <= j < i ==> (#[trigger] name@[j]) == '.',
        decreases cs@.len() - i,
    {
        if cs[i] != '.' {
            assert(name@[i as int] != '.');
            return true;
        }
        i += 1;
    }
    false
}

/// The digits of a setting: a plus sign may stand before them.
pub open spec fn setting_digits(s: Seq<char>) -> Seq<char> {
    if s.len() > 0 && s[0] == '+' {
        s.skip(1)
    } else {
        s
    }
}

/// The number that a setting stands for, or a default where it is missing or
/// is no number that fits.
pub open spec fn setting(s: Option<Seq<char>>, default: usize) -> usize {
    match s {
        Some(t) => match text::read_decimal(setting_digits(t), usize::MAX as nat) {
            Some(n) => n as usize,
            None => default,
        },
        None => default,
    }
}

/// A setting written as a number stands for it, with or without a plus sign; a
/// missing or an empty one, or one that is no number, stands for the default.
pub proof fn a_setting_stands_for_its_number(n: nat, default: usize)
    requires
        n <= usize::MAX,
    ensures
        setting(Some(text::decimal(n)), default) == n,
        setting(Some(seq!['+'] + text::decimal(n)), default) == n,
        setting(None, default) == default,
        setting(Some(Seq::empty()), default) == default,
        forall|s: Seq<char>, i: int|
            0 <= i < s.len() && !('0' <= #[trigger] s[i] <= '9') && (i > 0 || s[i] != '+')
                ==> setting(Some(s), default) == default,
{
    text::decimal_value_of_decimal(n);
    let d = text::decimal(n);
    assert('0' <= d[0] <= '9');
    assert((seq!['+'] + d).skip(1) =~= d);
    assert forall|s: Seq<char>, i: int|
        0 <= i < s.len() && !('0' <= #[trigger] s[i] <= '9') && (i > 0 || s[i]
            != '+') implies setting(Some(s), default) == default by {
        let t = setting_digits(s);
        if s[0] == '+' {
            assert(t[i - 1] == s[i]);
        } else {
            assert(t[i] == s[i]);
        }
    }
}

/// Reads a setting.
pub fn setting_or(s: Option<&str>, default: usize) -> (r: usize)
    ensures
        r == setting(
            match s {
                Some(t) => Some(t@),
                None => None,
            },
            default,
        ),
{
    match s {
        Some(t) => {
            let cs = chars_of(t);
            let from: usize = if cs.len() > 0 && cs[0] == '+' {
                1
            } else {
                0
            };
            assert(cs@.skip(from as int) =~= setting_digits(t@));
            assert(usize::MAX <= u64::MAX);
            let ghost digits = setting_digits(t@);
            match parse_digits(&cs, from) {
                Some(n) => {
                    assert(text::decimal_value(digits) == n as int);
                    if n <= usize::MAX as u64 {
                        assert(text::read_decimal(digits, usize::MAX as nat) == Some(n as nat));
                        n as usize
                    } else {
                        default
                    }
                },
                None => default,
            }
        },
        None => default,
    }
}

// ---------------------------------------------------------------------
// Model
// ---------------------------------------------------------------------

/// What is held for a user.
#[verifier::ext_equal]
pub struct UserState {
    pub id: Seq<char>,
    pub memory: personal::PersonalState,
    pub audit: audit::TrailState,
}

/// What a service holds.
#[verifier::ext_equal]
pub struct ServiceState {
    /// The users, each id once.
    pub users: Seq<UserState>,
    pub dim: nat,
    pub vocab_cap: nat,
}

/// The first position of a user, or the length where there is no such user.
pub open spec fn seat(users: Seq<UserState>, id: Seq<char>) -> nat
    decreases users.len(),
{
    if users.len() == 0 {
        0
    } else if users[0].id == id {
        0
    } else {
        1 + seat(users.skip(1), id)
    }
}

/// There is a user with the id.
pub open spec fn has_user(users: Seq<UserState>, id: Seq<char>) -> bool {
    seat(users, id) < users.len()
}

/// How many facts all users have together.
pub open spec fn fact_total(users: Seq<UserState>) -> nat
    decreases users.len(),
{
    if users.len() == 0 {
        0
    } else {
        fact_total(users.drop_last()) + users.last().memory.store.count()
    }
}

/// No id occurs twice.
pub open spec fn distinct_users(users: Seq<UserState>) -> bool {
    forall|i: int, j: int|
        0 <= i < j < users.len() ==> (#[trigger] users[i]).id != (#[trigger] users[j]).id
}

/// Every user's store is valid, and no vocabulary has more room than can be
/// counted.
pub open spec fn sound(v: ServiceState) -> bool {
    &&& v.vocab_cap <= usize::MAX
    &&& forall|i: int|
        0 <= i < v.users.len() ==> (#[trigger] v.users[i]).memory.store.valid()
            && v.users[i].memory.store.room <= usize::MAX
}

/// The log that a user starts with.
pub open spec fn fresh_trail() -> audit::TrailState {
    audit::TrailState {
        events: Seq::empty(),
        capacity: audit::DEFAULT_CAPACITY as nat,
        counter: 0,
        preview_chars: audit::DEFAULT_PREVIEW as nat,
    }
}

/// `u` is what a user starts with.
pub open spec fn fresh_user<K: Kernel>(k: K, v: ServiceState, id: Seq<char>, u: UserState) -> bool {
    &&& u.id == id
    &&& u.audit == fresh_trail()
    &&& u.memory == (personal::PersonalState {
        user: id,
        store: adaptive::StoreState {
            dim: v.dim,
            capacity: adaptive::safe_capacity(v.dim),
            seed: VOCAB_SEED,
            room: v.vocab_cap,
            names: Seq::empty(),
            rows: u.memory.store.rows,
            shards: Seq::empty(),
        },
        schema: Seq::empty(),
    })
    &&& adaptive::drawn_gives(k, v.vocab_cap, v.dim, VOCAB_SEED, u.memory.store.rows)
}

/// The users with one put in place of one with the same id, or behind the
/// others.
pub open spec fn user_put(users: Seq<UserState>, u: UserState) -> Seq<UserState> {
    if has_user(users, u.id) {
        users.update(seat(users, u.id) as int, u)
    } else {
        users.push(u)
    }
}

/// `u` is what there is for a user to work on: what is held for them, or what
/// they start with.
pub open spec fn at_hand<K: Kernel>(k: K, v: ServiceState, id: Seq<char>, u: UserState) -> bool {
    if has_user(v.users, id) {
        u == v.users[seat(v.users, id) as int]
    } else {
        fresh_user(k, v, id, u)
    }
}

/// The service with a user whose memory has become `m`.
pub open spec fn memory_put(v: ServiceState, u: UserState, m: personal::PersonalState) -> ServiceState {
    ServiceState { users: user_put(v.users, UserState { memory: m, ..u }), ..v }
}

/// The position is that of the user, and the first such.
pub proof fn seat_is_first(users: Seq<UserState>, id: Seq<char>)
    ensures
        seat(users, id) <= users.len(),
        seat(users, id) < users.len() ==> users[seat(users, id) as int].id == id,
        forall|i: int| 0 <= i < seat(users, id) ==> (#[trigger] users[i]).id != id,
    decreases users.len(),
{
    if users.len() > 0 && users[0].id != id {
        let rest = users.skip(1);
        seat_is_first(rest, id);
        assert forall|i: int| 0 <= i < seat(users, id) implies (#[trigger] users[i]).id != id by {
            if i > 0 {
                assert(rest[i - 1] == users[i]);
            }
        }
    }
}

/// Taking a user out leaves nothing of them, and all others as they were.
pub proof fn removed_user_is_gone(users: Seq<UserState>, id: Seq<char>, other: Seq<char>)
    requires
        distinct_users(users),
        has_user(users, id),
        other != id,
    ensures
        !has_user(users.remove(seat(users, id) as int), id),
        has_user(users.remove(seat(users, id) as int), other) <==> has_user(users, other),
        has_user(users, other) ==> users.remove(seat(users, id) as int)[seat(
            users.remove(seat(users, id) as int),
            other,
        ) as int] == users[seat(users, other) as int],
{
    let at = seat(users, id) as int;
    let left = users.remove(at);
    seat_is_first(users, id);
    seat_is_first(users, other);
    seat_is_first(left, id);
    seat_is_first(left, other);
    assert forall|i: int| 0 <= i < left.len() implies (#[trigger] left[i]) == users[if i < at {
        i
    } else {
        i + 1
    }] by {}
    if has_user(left, id) {
        let i = seat(left, id) as int;
        let j = if i < at {
            i
        } else {
            i + 1
        };
        assert(left[i] == users[j]);
        if j < at {
            assert(users[j].id != users[at].id);
        } else {
            assert(users[at].id != users[j].id);
        }
    }
    if has_user(users, other) {
        let j = seat(users, other) as int;
        let i = if j < at {
            j
        } else {
            j - 1
        };
        assert(left[i] == users[j]);
        let f = seat(left, other) as int;
        if f > i {
            assert(left[i].id != other);
        }
        let g = if f < at {
            f
        } else {
            f + 1
        };
        assert(left[f] == users[g]);
        if g < j {
            assert(users[g].id != other);
        }
    }
    if has_user(left, other) {
        let f = seat(left, other) as int;
        let g = if f < at {
            f
        } else {
            f + 1
        };
        assert(left[f] == users[g]);
        if !has_user(users, other) {
            assert(users[g].id != other);
        }
    }
}

/// A user whose memory was put back is there with it.
pub proof fn a_put_user_is_there(v: ServiceState, u: UserState, m: personal::PersonalState)
    ensures
        ({
            let w = memory_put(v, u, m).users;
            has_user(w, u.id) && w[seat(w, u.id) as int] == (UserState { memory: m, ..u })
        }),
{
    let now = UserState { memory: m, ..u };
    let w = user_put(v.users, now);
    seat_is_first(v.users, u.id);
    seat_is_first(w, u.id);
    let at = seat(v.users, u.id) as int;
    assert(w[at] == now);
    let found = seat(w, u.id) as int;
    if found > at {
        assert(w[at].id != u.id);
    }
    if found < at {
        assert(w[found] == v.users[found]);
        assert(v.users[found].id != u.id);
    }
}

/// Putting back one user's memory leaves every other user as they were.
pub proof fn other_users_stay(
    v: ServiceState,
    u: UserState,
    m: personal::PersonalState,
    other: Seq<char>,
)
    requires
        other != u.id,
    ensures
        ({
            let w = memory_put(v, u, m).users;
            &&& has_user(w, other) <==> has_user(v.users, other)
            &&& has_user(v.users, other) ==> w[seat(w, other) as int] == v.users[seat(
                v.users,
                other,
            ) as int]
        }),
{
    let now = UserState { memory: m, ..u };
    let w = user_put(v.users, now);
    seat_is_first(v.users, u.id);
    seat_is_first(v.users, other);
    seat_is_first(w, other);
    let at = seat(v.users, u.id) as int;
    assert(w[at] == now);
    let before = seat(v.users, other) as int;
    let after = seat(w, other) as int;
    if has_user(v.users, other) {
        assert(w[before] == v.users[before]);
        if after > before {
            assert(w[before].id != other);
        }
        if after < before {
            assert(w[after] == v.users[after]);
            assert(v.users[after].id != other);
        }
    } else if has_user(w, other) {
        assert(after != at);
        assert(w[after] == v.users[after]);
        assert(v.users[after].id != other);
    }
}

/// The facts that are held for a user: none for one who is not there.
pub open spec fn facts_of(v: ServiceState, id: Seq<char>) -> Map<Seq<char>, Seq<char>> {
    if has_user(v.users, id) {
        v.users[seat(v.users, id) as int].memory.store.facts()
    } else {
        Map::empty()
    }
}

/// The name under which a user's facts are held: for a new user it is their id.
pub open spec fn holder(v: ServiceState, id: Seq<char>) -> Seq<char> {
    if has_user(v.users, id) {
        v.users[seat(v.users, id) as int].memory.user
    } else {
        id
    }
}

/// The relations and values that are listed for a user: none for one who is not
/// there.
pub open spec fn schema_of(v: ServiceState, id: Seq<char>) -> Seq<(Seq<char>, Seq<Seq<char>>)> {
    if has_user(v.users, id) {
        v.users[seat(v.users, id) as int].memory.schema
    } else {
        Seq::empty()
    }
}

/// What there is for a user to work on is theirs: it holds the facts that are
/// held for them, under their name.
pub proof fn at_hand_is_theirs<K: Kernel>(k: K, v: ServiceState, id: Seq<char>, u: UserState)
    requires
        sound(v),
        at_hand(k, v, id, u),
    ensures
        u.id == id,
        u.memory.user == holder(v, id),
        u.memory.store.facts() == facts_of(v, id),
        u.memory.store.valid(),
        u.memory.store.room <= usize::MAX,
{
    seat_is_first(v.users, id);
    if !has_user(v.users, id) {
        let store = u.memory.store;
        assert forall|key: Seq<char>, s: int, i: int| !store.at(key, s, i) by {}
        assert(store.valid());
        assert(store.facts() =~= Map::<Seq<char>, Seq<char>>::empty());
    }
}

/// A new user starts without facts, relations and events, under their own id, with
/// a store of the service's shape.
pub proof fn a_new_user_starts_empty<K: Kernel>(k: K, v: ServiceState, id: Seq<char>, u: UserState)
    requires
        !has_user(v.users, id),
        at_hand(k, v, id, u),
    ensures
        u.id == id,
        u.memory.user == id,
        u.memory.schema.len() == 0,
        u.memory.store.shards.len() == 0,
        u.memory.store.names.len() == 0,
        u.memory.store.dim == v.dim,
        u.memory.store.room == v.vocab_cap,
        u.memory.store.seed == 42,
        u.memory.store.capacity >= 20,
        u.memory.store.capacity == 20 || u.memory.store.capacity == v.dim / 13,
        v.dim / 13 <= u.memory.store.capacity,
        u.audit.events.len() == 0,
        u.audit.counter == 0,
        u.audit.capacity == 10_000,
        u.audit.preview_chars == 200,
{
}

/// All users together hold as many facts as each of them does: one more user adds
/// their own.
pub proof fn totals_add_up(users: Seq<UserState>, u: UserState)
    ensures
        fact_total(Seq::empty()) == 0,
        fact_total(users.push(u)) == fact_total(users) + u.memory.store.count(),
{
    assert(users.push(u).drop_last() =~= users);
}

/// A user whose memory was put back has its facts, and every other user has
/// the facts they had.
pub proof fn a_put_memory_is_theirs(v: ServiceState, u: UserState, m: personal::PersonalState)
    ensures
        facts_of(memory_put(v, u, m), u.id) == m.store.facts(),
        holder(memory_put(v, u, m), u.id) == m.user,
        forall|other: Seq<char>|
            other != u.id ==> #[trigger] facts_of(memory_put(v, u, m), other) == facts_of(v, other)
                && holder(memory_put(v, u, m), other) == holder(v, other),
{
    a_put_user_is_there(v, u, m);
    assert forall|other: Seq<char>| other != u.id implies #[trigger] facts_of(
        memory_put(v, u, m),
        other,
    ) == facts_of(v, other) && holder(memory_put(v, u, m), other) == holder(v, other) by {
        other_users_stay(v, u, m, other);
    }
}

// ---------------------------------------------------------------------
// The service
// ---------------------------------------------------------------------

/// `x` is an extractor that the factory gives.
pub open spec fn is_made<X, F: Fn() -> Arc<X>>(factory: F, x: X) -> bool {
    exists|a: Arc<X>| #[trigger] call_ensures(factory, (), a) && *a == x
}

/// One user.
struct Seat<K, X> {
    id: String,
    memory: PersonalMemory<K, X>,
    audit: AuditTrail,
}

impl<K, X> Seat<K, X> {
    spec fn state(&self) -> UserState {
        UserState { id: self.id@, memory: self.memory@, audit: self.audit@ }
    }
}

/// The memories of all users of a process. A user's extractor comes from the
/// factory.
pub struct MemoryService<K, X, F> {
    kernel: Arc<K>,
    users: Vec<Seat<K, X>>,
    extractor_factory: F,
    dim: usize,
    vocab_cap: usize,
}

impl<K, X, F> View for MemoryService<K, X, F> {
    type V = ServiceState;

    closed spec fn view(&self) -> ServiceState {
        ServiceState {
            users: self.users@.map_values(|u: Seat<K, X>| u.state()),
            dim: self.dim as nat,
            vocab_cap: self.vocab_cap as nat,
        }
    }
}

impl<K: Kernel, X: Extractor, F: Fn() -> Arc<X>> MemoryService<K, X, F> {
    /// The kernel that computes for this service.
    pub closed spec fn arithmetic(&self) -> K {
        *self.kernel
    }

    /// The factory for extractors.
    pub closed spec fn factory(&self) -> F {
        self.extractor_factory
    }

    /// No id occurs twice, every memory is well formed, computed for by the
    /// service's kernel and read for by an extractor of the factory, the factory
    /// can be called, and the vectors of a vocabulary can be counted.
    pub closed spec fn wf(&self) -> bool {
        &&& forall|i: int, j: int|
            0 <= i < j < self.users@.len() ==> (#[trigger] self.users@[i]).id@ != (
            #[trigger] self.users@[j]).id@
        &&& forall|i: int|
            0 <= i < self.users@.len() ==> (#[trigger] self.users@[i]).memory.wf()
                && self.users@[i].memory.arithmetic() == self.arithmetic() && is_made(
                self.extractor_factory,
                self.users@[i].memory.reader(),
            )
        &&& call_requires(self.extractor_factory, ())
        &&& self.vocab_cap * self.dim <= usize::MAX
    }

    /// What holds of every well-formed service.
    pub proof fn wf_facts(&self)
        requires
            self.wf(),
        ensures
            distinct_users(self@.users),
            sound(self@),
            self@.vocab_cap * self@.dim <= usize::MAX,
    {
        assert forall|i: int, j: int| 0 <= i < j < self@.users.len() implies (
        #[trigger] self@.users[i]).id != (#[trigger] self@.users[j]).id by {
            assert(self.users@[i].id@ != self.users@[j].id@);
        }
        assert forall|i: int| 0 <= i < self@.users.len() implies (
        #[trigger] self@.users[i]).memory.store.valid() && self@.users[i].memory.store.room
            <= usize::MAX by {
            assert(self.users@[i].memory.wf());
            self.users@[i].memory.wf_facts();
        }
    }

    /// A service without users.
    pub fn new(kernel: Arc<K>, extractor_factory: F, dim: usize, vocab_cap: usize) -> (r: Self)
        requires
            call_requires(extractor_factory, ()),
            vocab_cap * dim <= usize::MAX,
        ensures
            r.wf(),
            r.arithmetic() == *kernel,
            r.factory() == extractor_factory,
            r@ == (ServiceState {
                users: Seq::empty(),
                dim: dim as nat,
                vocab_cap: vocab_cap as nat,
            }),
    {
        let r = MemoryService { kernel, users: Vec::new(), extractor_factory, dim, vocab_cap };
        assert(r@.users =~= Seq::empty());
        r
    }

    /// The dimension of the stores.
    pub fn dim(&self) -> (r: usize)
        ensures
            r == self@.dim,
    {
        self.dim
    }

    /// The room of the vocabularies.
    pub fn vocab_cap(&self) -> (r: usize)
        ensures
            r == self@.vocab_cap,
    {
        self.vocab_cap
    }

    /// The seed that the vocabularies are drawn from.
    pub fn vocab_seed(&self) -> (r: u64)
        ensures
            r == VOCAB_SEED,
    {
        VOCAB_SEED
    }

    /// How many users there are.
    pub fn n_users(&self) -> (r: usize)
        ensures
            r == self@.users.len(),
    {
        self.users.len()
    }

    /// The position of a user, or the number of users.
    fn find(&self, uid: &str) -> (r: usize)
        ensures
            r == seat(self@.users, uid@),
            r <= self.users@.len(),
    {
        let ghost all = self@.users;
        let mut i: usize = 0;
        assert(all.skip(0) =~= all);
        while i < self.users.len()
            invariant
                all == self@.users,
                i <= self.users@.len(),
                seat(all, uid@) == i + seat(all.skip(i as int), uid@),
            decreases self.users@.len() - i,
        {
            assert(all.skip(i as int)[0].id == self.users@[i as int].id@);
            if same_text(&self.users[i].id, uid) {
                return i;
            }
            assert(all.skip(i as int).skip(1) =~= all.skip(i + 1));
            i += 1;
        }
        i
    }

    /// An extractor from the factory.
    pub fn make_extractor(&self) -> (r: Arc<X>)
        requires
            self.wf(),
        ensures
            call_ensures(self.factory(), (), r),
    {
        (self.extractor_factory)()
    }

    /// Makes a user who is not there yet.
    fn enrol(&mut self, uid: &str) -> (r: Result<(), HlbError>)
        requires
            old(self).wf(),
            !has_user(old(self)@.users, uid@),
        ensures
            final(self).wf(),
            final(self).arithmetic() == old(self).arithmetic(),
            final(self).factory() == old(self).factory(),
            match r {
                Ok(_) => exists|u: UserState| #[trigger]
                    fresh_user(old(self).arithmetic(), old(self)@, uid@, u) && final(self)@ == (
                    ServiceState { users: old(self)@.users.push(u), ..old(self)@ }),
                Err(e) => e == HlbError::ZeroNorm && adaptive::some_row_vanishes(
                    old(self).arithmetic(),
                    old(self)@.vocab_cap,
                    old(self)@.dim,
                    VOCAB_SEED,
                ) && final(self)@ == old(self)@,
            },
    {
        let ghost v = self@;
        let am = match AdaptiveMemory::new(
            self.kernel.clone(),
            self.dim,
            self.vocab_cap,
            None,
            VOCAB_SEED,
        ) {
            Ok(m) => m,
            Err(e) => return Err(e),
        };
        let extractor = self.make_extractor();
        let memory = PersonalMemory::new(uid, am, extractor);
        assert(is_made(self.factory(), memory.reader()));
        let s = Seat { id: uid.to_string(), memory, audit: AuditTrail::default() };
        let ghost u = s.state();
        assert(fresh_user(self.arithmetic(), v, uid@, u));
        self.users.push(s);
        proof {
            assert(self@.users =~= v.users.push(u));
            seat_is_first(v.users, uid@);
            assert forall|i: int, j: int| 0 <= i < j < self.users@.len() implies (
            #[trigger] self.users@[i]).id@ != (#[trigger] self.users@[j]).id@ by {
                assert(v.users[i].id == self.users@[i].id@);
            }
        }
        Ok(())
    }

    /// The memory of the user at a position.
    fn memory_at(&mut self, i: usize) -> (m: &mut PersonalMemory<K, X>)
        requires
            old(self).wf(),
            i < old(self)@.users.len(),
        ensures
            m.wf(),
            m.arithmetic() == old(self).arithmetic(),
            is_made(old(self).factory(), m.reader()),
            m@ == old(self)@.users[i as int].memory,
            final(self)@.users == old(self)@.users.update(
                i as int,
                UserState { memory: final(m)@, ..old(self)@.users[i as int] },
            ),
            final(self)@.dim == old(self)@.dim,
            final(self)@.vocab_cap == old(self)@.vocab_cap,
            final(self).arithmetic() == old(self).arithmetic(),
            final(self).factory() == old(self).factory(),
            final(m).wf() && final(m).arithmetic() == m.arithmetic() && final(m).reader()
                == m.reader() ==> final(self).wf(),
    {
        &mut self.users[i].memory
    }

    /// The memory of a user, who is made where there is none yet. Another
    /// user's memory is not touched.
    pub fn user(&mut self, uid: &str) -> (r: Result<&mut PersonalMemory<K, X>, HlbError>)
        requires
            old(self).wf(),
        ensures
            match r {
                Ok(m) => {
                    &&& m.wf()
                    &&& m.arithmetic() == old(self).arithmetic()
                    &&& is_made(old(self).factory(), m.reader())
                    &&& exists|u: UserState| #[trigger]
                        at_hand(old(self).arithmetic(), old(self)@, uid@, u) && m@ == u.memory
                            && final(self)@ == memory_put(old(self)@, u, final(m)@)
                    &&& final(self).arithmetic() == old(self).arithmetic()
                    &&& final(self).factory() == old(self).factory()
                    &&& final(m).wf() && final(m).arithmetic() == m.arithmetic() && final(m).reader() == m.reader() ==> final(self).wf()
                },
                Err(e) => {
                    &&& !has_user(old(self)@.users, uid@)
                    &&& e == HlbError::ZeroNorm
                    &&& adaptive::some_row_vanishes(
                        old(self).arithmetic(),
                        old(self)@.vocab_cap,
                        old(self)@.dim,
                        VOCAB_SEED,
                    )
                    &&& final(self).wf()
                    &&& final(self)@ == old(self)@
                    &&& final(self).arithmetic() == old(self).arithmetic()
                    &&& final(self).factory() == old(self).factory()
                },
            },
    {
        let i = self.find(uid);
        proof {
            seat_is_first(self@.users, uid@);
        }
        let ghost v = self@;
        if i >= self.users.len() {
            if let Err(e) = self.enrol(uid) {
                return Err(e);
            }
            let ghost u = choose|u: UserState| #[trigger]
                fresh_user(self.arithmetic(), v, uid@, u) && self@ == (ServiceState {
                    users: v.users.push(u),
                    ..v
                });
            assert(at_hand(self.arithmetic(), v, uid@, u));
            assert forall|w: UserState|
                #![trigger v.users.push(w)]
                v.users.push(u).update(i as int, w) == v.users.push(w) by {
                assert(v.users.push(u).update(i as int, w) =~= v.users.push(w));
            }
        } else {
            assert(at_hand(self.arithmetic(), v, uid@, v.users[i as int]));
        }
        Ok(self.memory_at(i))
    }
}

impl<K: Kernel, X: Extractor, F: Fn() -> Arc<X>> MemoryService<K, X, F> {
    /// The audit log of a user.
    pub fn audit(&mut self, uid: &str) -> (r: Option<&mut AuditTrail>)
        requires
            old(self).wf(),
        ensures
            match r {
                Some(t) => {
                    let v = old(self)@;
                    let w = final(self)@;
                    let at = seat(v.users, uid@) as int;
                    &&& has_user(v.users, uid@)
                    &&& t@ == v.users[at].audit
                    &&& w.users == v.users.update(
                        at,
                        UserState { audit: final(t)@, ..v.users[at] },
                    )
                    &&& w.dim == v.dim
                    &&& w.vocab_cap == v.vocab_cap
                },
                None => !has_user(old(self)@.users, uid@) && final(self)@ == old(self)@,
            },
            final(self).wf(),
            final(self).arithmetic() == old(self).arithmetic(),
            final(self).factory() == old(self).factory(),
    {
        let i = self.find(uid);
        if i < self.users.len() {
            Some(self.audit_at(i))
        } else {
            None
        }
    }

    /// The audit log of the user at a position.
    fn audit_at(&mut self, i: usize) -> (t: &mut AuditTrail)
        requires
            old(self).wf(),
            i < old(self)@.users.len(),
        ensures
            t@ == old(self)@.users[i as int].audit,
            final(self)@.users == old(self)@.users.update(
                i as int,
                UserState { audit: final(t)@, ..old(self)@.users[i as int] },
            ),
            final(self)@.dim == old(self)@.dim,
            final(self)@.vocab_cap == old(self)@.vocab_cap,
            final(self).wf(),
            final(self).arithmetic() == old(self).arithmetic(),
            final(self).factory() == old(self).factory(),
    {
        &mut self.users[i].audit
    }

    /// The memory of a user, to be read.
    pub fn memory_of(&self, uid: &str) -> (r: Option<&PersonalMemory<K, X>>)
        requires
            self.wf(),
        ensures
            match r {
                Some(m) => has_user(self@.users, uid@) && m.wf() && m.arithmetic()
                    == self.arithmetic() && m@ == self@.users[seat(
                    self@.users,
                    uid@,
                ) as int].memory,
                None => !has_user(self@.users, uid@),
            },
    {
        let i = self.find(uid);
        if i < self.users.len() {
            assert(self@.users[i as int] == self.users@[i as int].state());
            Some(&self.users[i].memory)
        } else {
            None
        }
    }

    /// The audit log of a user, to be read.
    pub fn audit_of(&self, uid: &str) -> (r: Option<&AuditTrail>)
        ensures
            match r {
                Some(t) => has_user(self@.users, uid@) && t@ == self@.users[seat(
                    self@.users,
                    uid@,
                ) as int].audit,
                None => !has_user(self@.users, uid@),
            },
    {
        let i = self.find(uid);
        if i < self.users.len() {
            assert(self@.users[i as int] == self.users@[i as int].state());
            Some(&self.users[i].audit)
        } else {
            None
        }
    }

    /// Takes a user out with everything that is held for them. Gives whether
    /// there was such a user.
    pub fn remove_user(&mut self, uid: &str) -> (r: bool)
        requires
            old(self).wf(),
        ensures
            final(self).wf(),
            final(self).arithmetic() == old(self).arithmetic(),
            final(self).factory() == old(self).factory(),
            r == has_user(old(self)@.users, uid@),
            final(self)@ == (if r {
                ServiceState {
                    users: old(self)@.users.remove(seat(old(self)@.users, uid@) as int),
                    ..old(self)@
                }
            } else {
                old(self)@
            }),
    {
        let ghost v = self@;
        let i = self.find(uid);
        if i < self.users.len() {
            let ghost before = self.users@;
            self.users.remove(i);
            proof {
                assert(self@.users =~= v.users.remove(i as int));
                assert forall|a: int, b: int| 0 <= a < b < self.users@.len() implies (
                #[trigger] self.users@[a]).id@ != (#[trigger] self.users@[b]).id@ by {
                    let a0 = if a < i {
                        a
                    } else {
                        a + 1
                    };
                    let b0 = if b < i {
                        b
                    } else {
                        b + 1
                    };
                    assert(before[a0].id@ != before[b0].id@);
                }
                assert forall|a: int| 0 <= a < self.users@.len() implies (
                #[trigger] self.users@[a]).memory.wf() && self.users@[a].memory.arithmetic()
                    == self.arithmetic() && is_made(
                    self.extractor_factory,
                    self.users@[a].memory.reader(),
                ) by {
                    let a0 = if a < i {
                        a
                    } else {
                        a + 1
                    };
                    assert(before[a0].memory.wf());
                }
            }
            true
        } else {
            false
        }
    }

    /// The ids of all users.
    pub fn user_ids(&self) -> (r: Vec<String>)
        ensures
            text::texts(r@) == self@.users.map_values(|u: UserState| u.id),
    {
        let mut out: Vec<String> = Vec::with_capacity(self.users.len());
        let mut i: usize = 0;
        while i < self.users.len()
            invariant
                i <= self.users@.len(),
                out@.len() == i,
                forall|j: int| 0 <= j < i ==> (#[trigger] out@[j])@ == self.users@[j].id@,
            decreases self.users@.len() - i,
        {
            out.push(self.users[i].id.clone());
            i += 1;
        }
        assert(text::texts(out@) =~= self@.users.map_values(|u: UserState| u.id));
        out
    }

    /// How many facts all users have together.
    pub fn total_facts(&self) -> (r: usize)
        requires
            self.wf(),
            fact_total(self@.users) <= usize::MAX,
        ensures
            r == fact_total(self@.users),
    {
        let ghost all = self@.users;
        let mut sum: usize = 0;
        let mut i: usize = 0;
        assert(all.take(0) =~= Seq::empty());
        while i < self.users.len()
            invariant
                self.wf(),
                all == self@.users,
                fact_total(all) <= usize::MAX,
                i <= self.users@.len(),
                sum == fact_total(all.take(i as int)),
            decreases self.users@.len() - i,
        {
            assert(all.take(i + 1).drop_last() =~= all.take(i as int));
            assert(all.take(i + 1).last() == self.users@[i as int].state());
            proof {
                fact_total_grows(all, i + 1);
            }
            assert(self.users@[i as int].memory.wf());
            sum = sum + self.users[i].memory.memory().total_facts();
            i += 1;
        }
        assert(all.take(i as int) =~= all);
        sum
    }

    /// Whether the facts of all users can be counted.
    pub fn countable(&self) -> (r: bool)
        requires
            self.wf(),
        ensures
            r == (fact_total(self@.users) <= usize::MAX),
    {
        let ghost all = self@.users;
        let mut sum: usize = 0;
        let mut i: usize = 0;
        assert(all.take(0) =~= Seq::empty());
        while i < self.users.len()
            invariant
                self.wf(),
                all == self@.users,
                i <= self.users@.len(),
                sum == fact_total(all.take(i as int)),
            decreases self.users@.len() - i,
        {
            assert(all.take(i + 1).drop_last() =~= all.take(i as int));
            assert(all.take(i + 1).last() == self.users@[i as int].state());
            proof {
                fact_total_grows(all, i + 1);
            }
            assert(self.users@[i as int].memory.wf());
            match sum.checked_add(self.users[i].memory.memory().total_facts()) {
                Some(n) => {
                    sum = n;
                },
                None => return false,
            }
            i += 1;
        }
        assert(all.take(i as int) =~= all);
        true
    }

    /// Puts a user in with a memory and a log, in place of one with the same
    /// id.
    pub fn put_user(&mut self, uid: &str, memory: PersonalMemory<K, X>, audit: AuditTrail)
        requires
            old(self).wf(),
            memory.wf(),
            memory.arithmetic() == old(self).arithmetic(),
            is_made(old(self).factory(), memory.reader()),
        ensures
            final(self).wf(),
            final(self).arithmetic() == old(self).arithmetic(),
            final(self).factory() == old(self).factory(),
            final(self)@ == (ServiceState {
                users: user_put(
                    old(self)@.users,
                    UserState { id: uid@, memory: memory@, audit: audit@ },
                ),
                ..old(self)@
            }),
    {
        let ghost v = self@;
        let i = self.find(uid);
        let s = Seat { id: uid.to_string(), memory, audit };
        let ghost u = s.state();
        proof {
            seat_is_first(v.users, uid@);
        }
        if i < self.users.len() {
            assert(v.users[i as int].id == self.users@[i as int].id@);
            self.users.set(i, s);
            assert(self@.users =~= v.users.update(i as int, u));
        } else {
            self.users.push(s);
            assert(self@.users =~= v.users.push(u));
            assert forall|a: int, b: int| 0 <= a < b < self.users@.len() implies (
            #[trigger] self.users@[a]).id@ != (#[trigger] self.users@[b]).id@ by {
                assert(v.users[a].id == self.users@[a].id@);
            }
        }
        assert(self@ =~= ServiceState { users: user_put(v.users, u), ..v });
    }

    /// What is saved of the service itself.
    pub fn metadata(&self) -> (r: Json)
        ensures
            r@ == meta_value(
                self@.dim,
                self@.vocab_cap,
                VOCAB_SEED as nat,
                self@.users.map_values(|u: UserState| u.id),
            ),
    {
        let ids = self.user_ids();
        let ghost names = self@.users.map_values(|u: UserState| u.id);
        let mut members: Vec<(String, Json)> = Vec::new();
        members.push(("dim".to_string(), Json::number(self.dim as u64)));
        members.push(("vocab_cap".to_string(), Json::number(self.vocab_cap as u64)));
        members.push(("vocab_seed".to_string(), Json::number(VOCAB_SEED)));
        members.push(("user_ids".to_string(), Json::text_array(&ids)));
        let r = Json::Object(members);
        proof {
            json::view_of_lists(&r);
            assert(json::members(members@) =~= meta_members(
                self@.dim,
                self@.vocab_cap,
                VOCAB_SEED as nat,
                names,
            ));
        }
        r
    }
}

/// No part of a sum exceeds it.
proof fn fact_total_grows(users: Seq<UserState>, n: int)
    requires
        0 <= n <= users.len(),
    ensures
        fact_total(users.take(n)) <= fact_total(users),
    decreases users.len(),
{
    if n == users.len() {
        assert(users.take(n) =~= users);
    } else {
        fact_total_grows(users.drop_last(), n);
        assert(users.drop_last().take(n) =~= users.take(n));
    }
}

// ---------------------------------------------------------------------
// What is saved of a service
// ---------------------------------------------------------------------

/// The members of what is saved of a service.
pub open spec fn meta_members(dim: nat, cap: nat, seed: nat, ids: Seq<Seq<char>>) -> Seq<
    (Seq<char>, json::Tree),
> {
    seq![
        ("dim"@, json::Tree::Number(text::decimal(dim))),
        ("vocab_cap"@, json::Tree::Number(text::decimal(cap))),
        ("vocab_seed"@, json::Tree::Number(text::decimal(seed))),
        (
            "user_ids"@,
            json::Tree::Array(json::text_values(ids)),
        ),
    ]
}

/// What is saved of a service.
pub open spec fn meta_value(dim: nat, cap: nat, seed: nat, ids: Seq<Seq<char>>) -> json::Tree {
    json::Tree::Object(meta_members(dim, cap, seed, ids))
}

/// The shape of a service and the ids of its users.
#[derive(Debug)]
pub struct ServiceMeta {
    pub dim: usize,
    pub vocab_cap: usize,
    pub user_ids: Vec<String>,
}

/// A member that is a whole number which fits.
pub open spec fn number_field(v: json::Tree, name: Seq<char>) -> Option<nat> {
    match json::field(v, name) {
        Some(json::Tree::Number(s)) => text::read_decimal(s, usize::MAX as nat),
        _ => None,
    }
}

/// The texts among values, in order.
pub open spec fn texts_among(v: Seq<json::Tree>) -> Seq<Seq<char>>
    decreases v.len(),
{
    if v.len() == 0 {
        Seq::empty()
    } else {
        let before = texts_among(v.drop_last());
        match v.last() {
            json::Tree::Text(s) => before.push(s),
            _ => before,
        }
    }
}

/// The texts among values are those that are texts, in order: one more value adds
/// itself where it is a text, and nothing where it is not.
pub proof fn only_texts_are_taken(v: Seq<json::Tree>, x: json::Tree)
    ensures
        texts_among(Seq::empty()).len() == 0,
        x matches json::Tree::Text(s) ==> texts_among(v.push(x)) == texts_among(v).push(s),
        !(x is Text) ==> texts_among(v.push(x)) == texts_among(v),
{
    assert(v.push(x).drop_last() =~= v);
}

/// The ids of the users: those of the listed values that are texts.
pub open spec fn listed_ids(v: json::Tree) -> Seq<Seq<char>> {
    match json::field(v, "user_ids"@) {
        Some(json::Tree::Array(a)) => texts_among(a),
        _ => Seq::empty(),
    }
}

/// Reads a member that is a whole number which fits.
pub(crate) fn read_number(j: &Json, name: &str) -> (r: Option<usize>)
    ensures
        match r {
            Some(n) => number_field(j@, name@) == Some(n as nat),
            None => number_field(j@, name@) is None,
        },
{
    match j.get(name) {
        Some(v) => match v {
            Json::Number(s) => match parse_decimal(s) {
                Some(n) => {
                    assert(usize::MAX <= u64::MAX);
                    if n <= usize::MAX as u64 {
                        Some(n as usize)
                    } else {
                        None
                    }
                },
                None => None,
            },
            _ => None,
        },
        None => None,
    }
}

/// Reads what was saved of a service. The dimension and the room must be
/// there; a missing list of users counts as empty.
pub fn read_metadata(j: &Json) -> (r: Result<ServiceMeta, PersistError>)
    ensures
        match r {
            Ok(m) => {
                &&& number_field(j@, "dim"@) == Some(m.dim as nat)
                &&& number_field(j@, "vocab_cap"@) == Some(m.vocab_cap as nat)
                &&& text::texts(m.user_ids@) == listed_ids(j@)
            },
            Err(e) => if number_field(j@, "dim"@) is None {
                e matches PersistError::Corrupt(s) && s@ == "missing dim"@
            } else {
                number_field(j@, "vocab_cap"@) is None && (e matches PersistError::Corrupt(s) && s@
                    == "missing vocab_cap"@)
            },
        },
{
    let dim = match read_number(j, "dim") {
        Some(n) => n,
        None => return Err(PersistError::Corrupt("missing dim".to_string())),
    };
    let vocab_cap = match read_number(j, "vocab_cap") {
        Some(n) => n,
        None => return Err(PersistError::Corrupt("missing vocab_cap".to_string())),
    };
    let mut user_ids: Vec<String> = Vec::new();
    assert(text::texts(user_ids@) =~= Seq::empty());
    if let Some(v) = j.get("user_ids") {
        proof {
            json::view_of_lists(v);
        }
        if let Json::Array(a) = v {
            let ghost all = json::values(a@);
            let mut i: usize = 0;
            while i < a.len()
                invariant
                    all == json::values(a@),
                    i <= a@.len(),
                    text::texts(user_ids@) == texts_among(all.take(i as int)),
                decreases a@.len() - i,
            {
                assert(all.take(i + 1).drop_last() =~= all.take(i as int));
                assert(all.take(i + 1).last() == a@[i as int]@);
                if let Some(s) = a[i].as_str() {
                    let ghost before = text::texts(user_ids@);
                    user_ids.push(s.to_string());
                    assert(text::texts(user_ids@) =~= before.push(s@));
                }
                i += 1;
            }
            assert(all.take(i as int) =~= all);
        }
    }
    Ok(ServiceMeta { dim, vocab_cap, user_ids })
}

/// What is saved of a service tells its shape and users back.
pub proof fn metadata_is_read_back(dim: nat, cap: nat, seed: nat, ids: Seq<Seq<char>>)
    requires
        dim <= usize::MAX,
        cap <= usize::MAX,
    ensures
        number_field(meta_value(dim, cap, seed, ids), "dim"@) == Some(dim),
        number_field(meta_value(dim, cap, seed, ids), "vocab_cap"@) == Some(cap),
        listed_ids(meta_value(dim, cap, seed, ids)) == ids,
{
    let m = meta_members(dim, cap, seed, ids);
    reveal_strlit("dim");
    reveal_strlit("vocab_cap");
    reveal_strlit("vocab_seed");
    reveal_strlit("user_ids");
    assert("vocab_cap"@.len() == 9 && "dim"@.len() == 3);
    assert("vocab_seed"@.len() == 10 && "user_ids"@.len() == 8);
    assert(m.skip(1).skip(1) =~= m.skip(2));
    assert(m.skip(2).skip(1) =~= m.skip(3));
    reveal_with_fuel(json::member, 5);
    assert(json::member(m, "dim"@) == Some(m[0].1));
    assert(json::member(m, "vocab_cap"@) == Some(m[1].1));
    assert(json::member(m, "user_ids"@) == Some(m[3].1));
    text::decimal_value_of_decimal(dim);
    text::decimal_value_of_decimal(cap);
    all_texts(ids);
}

proof fn all_texts(ids: Seq<Seq<char>>)
    ensures
        texts_among(json::text_values(ids)) == ids,
    decreases ids.len(),
{
    let list = json::text_values(ids);
    if ids.len() > 0 {
        all_texts(ids.drop_last());
        assert(list.drop_last() =~= json::text_values(ids.drop_last()));
        assert(ids.drop_last().push(ids.last()) =~= ids);
    } else {
        assert(texts_among(list) =~= ids);
    }
}

} // verus!
