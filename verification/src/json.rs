//! JSON values.

use crate::text::{self, same_text};
use vstd::prelude::*;

verus! {

broadcast use vstd::string::group_string_axioms;

/// A JSON value. A number is kept as its text. The members of an object stand
/// in order, each name once.
#[derive(Debug)]
pub enum Json {
    Null,
    Bool(bool),
    Number(String),
    Text(String),
    Array(Vec<Json>),
    Object(Vec<(String, Json)>),
}

/// What a JSON value says.
pub enum Tree {
    Null,
    Bool(bool),
    Number(Seq<char>),
    Text(Seq<char>),
    Array(Seq<Tree>),
    Object(Seq<(Seq<char>, Tree)>),
}

impl View for Json {
    type V = Tree;

    open spec fn view(&self) -> Tree
        decreases self,
    {
        match self {
            Json::Null => Tree::Null,
            Json::Bool(b) => Tree::Bool(*b),
            Json::Number(s) => Tree::Number(s@),
            Json::Text(s) => Tree::Text(s@),
            Json::Array(v) => Tree::Array(
                Seq::new(
                    v@.len(),
                    |i: int|
                        if 0 <= i < v@.len() {
                            v@[i]@
                        } else {
                            Tree::Null
                        },
                ),
            ),
            Json::Object(v) => Tree::Object(
                Seq::new(
                    v@.len(),
                    |i: int|
                        (
                            v@[i].0@,
                            if 0 <= i < v@.len() {
                                v@[i].1@
                            } else {
                                Tree::Null
                            },
                        ),
                ),
            ),
        }
    }
}

/// The values of a list.
pub open spec fn values(v: Seq<Json>) -> Seq<Tree> {
    Seq::new(v.len(), |i: int| v[i]@)
}

/// The members of an object.
pub open spec fn members(v: Seq<(String, Json)>) -> Seq<(Seq<char>, Tree)> {
    Seq::new(v.len(), |i: int| (v[i].0@, v[i].1@))
}

/// The first member with a name.
pub open spec fn member(v: Seq<(Seq<char>, Tree)>, name: Seq<char>) -> Option<Tree>
    decreases v.len(),
{
    if v.len() == 0 {
        None
    } else if v[0].0 == name {
        Some(v[0].1)
    } else {
        member(v.skip(1), name)
    }
}

/// An array's value is made of the values of its items, and an object's of
/// those of its members.
pub proof fn view_of_lists(j: &Json)
    ensures
        j matches Json::Array(v) ==> j@ == Tree::Array(values(v@)),
        j matches Json::Object(v) ==> j@ == Tree::Object(members(v@)),
{
    match j {
        Json::Array(v) => {
            assert(j@->Array_0 =~= values(v@));
        },
        Json::Object(v) => {
            assert forall|i: int| 0 <= i < v@.len() implies j@->Object_0[i] == members(v@)[i] by {
                assert(j@->Object_0[i] == (v@[i].0@, v@[i].1@));
            }
            assert(j@->Object_0 =~= members(v@));
        },
        _ => {},
    }
}

/// Member number `i` is the first with its name.
pub open spec fn is_first(v: Seq<(Seq<char>, Tree)>, i: int) -> bool {
    forall|j: int| 0 <= j < i ==> (#[trigger] v[j]).0 != v[i].0
}

/// Two values are equal: the order of an object's members does not matter, nor
/// does how a number is written.
pub open spec fn alike(a: Tree, b: Tree) -> bool
    decreases a,
{
    match (a, b) {
        (Tree::Null, Tree::Null) => true,
        (Tree::Bool(x), Tree::Bool(y)) => x == y,
        (Tree::Number(x), Tree::Number(y)) => x == y || same_number(x, y),
        (Tree::Text(x), Tree::Text(y)) => x == y,
        (Tree::Array(x), Tree::Array(y)) => {
            &&& x.len() == y.len()
            &&& forall|i: int| 0 <= i < x.len() ==> alike(#[trigger] x[i], y[i])
        },
        (Tree::Object(x), Tree::Object(y)) => {
            &&& forall|i: int|
                0 <= i < x.len() && is_first(x, i) ==> member(y, (#[trigger] x[i]).0) is Some
                    && alike(x[i].1, member(y, x[i].0)->0)
            &&& forall|i: int| 0 <= i < y.len() ==> member(x, (#[trigger] y[i]).0) is Some
        },
        _ => false,
    }
}

/// A name has a member exactly when some member has it, and then the first one
/// with it is given.
proof fn member_is_first(v: Seq<(Seq<char>, Tree)>, i: int)
    requires
        0 <= i < v.len(),
    ensures
        member(v, v[i].0) is Some,
        is_first(v, i) ==> member(v, v[i].0) == Some(v[i].1),
    decreases i,
{
    if i > 0 {
        let rest = v.skip(1);
        assert(rest[i - 1] == v[i]);
        member_is_first(rest, i - 1);
        if is_first(v, i) {
            assert(v[0].0 != v[i].0);
            assert forall|j: int| 0 <= j < i - 1 implies (#[trigger] rest[j]).0 != rest[i - 1].0 by {
                assert(rest[j] == v[j + 1]);
            }
        }
    }
}

/// Member number `j` has the name, and none before it has.
pub open spec fn first_named(v: Seq<(Seq<char>, Tree)>, name: Seq<char>, j: int) -> bool {
    &&& 0 <= j < v.len()
    &&& v[j].0 == name
    &&& forall|l: int| 0 <= l < j ==> (#[trigger] v[l]).0 != name
}

/// A name stands for the value of the first member that has it, and for nothing
/// where no member has it.
pub proof fn a_name_stands_for_its_first_member(v: Seq<(Seq<char>, Tree)>, name: Seq<char>)
    ensures
        forall|j: int| #[trigger] first_named(v, name, j) ==> member(v, name) == Some(v[j].1),
        member(v, name) is Some ==> exists|j: int| #[trigger] first_named(v, name, j),
        (forall|j: int| 0 <= j < v.len() ==> (#[trigger] v[j]).0 != name) ==> member(v, name)
            is None,
    decreases v.len(),
{
    if v.len() > 0 {
        let rest = v.skip(1);
        a_name_stands_for_its_first_member(rest, name);
        if v[0].0 == name {
            assert(first_named(v, name, 0));
            assert forall|j: int| #[trigger] first_named(v, name, j) implies member(v, name)
                == Some(v[j].1) by {
                if j > 0 {
                    assert(v[0].0 != name);
                }
            }
        } else {
            assert forall|j: int| #[trigger] first_named(v, name, j) implies member(v, name)
                == Some(v[j].1) by {
                assert(first_named(rest, name, j - 1)) by {
                    assert forall|l: int| 0 <= l < j - 1 implies (#[trigger] rest[l]).0 != name by {
                        assert(v[l + 1].0 != name);
                    }
                }
            }
            if member(v, name) is Some {
                let j = choose|j: int| #[trigger] first_named(rest, name, j);
                assert(first_named(v, name, j + 1)) by {
                    assert forall|l: int| 0 <= l < j + 1 implies (#[trigger] v[l]).0 != name by {
                        if l > 0 {
                            assert(rest[l - 1].0 != name);
                        }
                    }
                }
            }
            if forall|j: int| 0 <= j < v.len() ==> (#[trigger] v[j]).0 != name {
                assert forall|j: int| 0 <= j < rest.len() implies (#[trigger] rest[j]).0 != name by {
                    assert(v[j + 1].0 != name);
                }
            }
        }
    }
}

/// Equal values are of one kind: equal texts have the same characters, equal
/// truth values are both true or both false, equal lists have as many items and
/// equal ones at each place, and equal objects have a value under the same names
/// and equal ones.
pub proof fn equal_values_agree(a: Tree, b: Tree)
    requires
        alike(a, b),
    ensures
        a is Null <==> b is Null,
        a is Number <==> b is Number,
        a is Text || b is Text ==> a == b,
        a is Bool || b is Bool ==> a == b,
        a matches Tree::Array(x) ==> (b matches Tree::Array(y) && x.len() == y.len() && forall|
            i: int,
        |
            0 <= i < x.len() ==> alike(#[trigger] x[i], y[i])),
        a matches Tree::Object(x) ==> (b matches Tree::Object(y) && forall|name: Seq<char>|
            {
                &&& #[trigger] member(x, name) is Some <==> member(y, name) is Some
                &&& member(x, name) is Some ==> alike(member(x, name)->0, member(y, name)->0)
            }),
{
    if let Tree::Object(x) = a {
        let y = b->Object_0;
        assert forall|name: Seq<char>|
            {
                &&& #[trigger] member(x, name) is Some <==> member(y, name) is Some
                &&& member(x, name) is Some ==> alike(member(x, name)->0, member(y, name)->0)
            } by {
            a_name_stands_for_its_first_member(x, name);
            a_name_stands_for_its_first_member(y, name);
            if member(x, name) is Some {
                let j = choose|j: int| #[trigger] first_named(x, name, j);
                assert(is_first(x, j));
                assert(x[j].0 == name);
            }
            if member(y, name) is Some {
                let j = choose|j: int| #[trigger] first_named(y, name, j);
                assert(member(x, y[j].0) is Some);
            }
        }
    }
}

/// Every value is equal to itself.
pub proof fn alike_is_reflexive(a: Tree)
    ensures
        alike(a, a),
    decreases a,
{
    match a {
        Tree::Array(x) => {
            assert forall|i: int| 0 <= i < x.len() implies alike(#[trigger] x[i], x[i]) by {
                assert(decreases_to!(a => x));
                alike_is_reflexive(x[i]);
            }
        },
        Tree::Object(x) => {
            assert forall|i: int| 0 <= i < x.len() implies member(x, (#[trigger] x[i]).0) is Some by {
                member_is_first(x, i);
            }
            assert forall|i: int| 0 <= i < x.len() && is_first(x, i) implies alike(
                (#[trigger] x[i]).1,
                member(x, x[i].0)->0,
            ) by {
                member_is_first(x, i);
                assert(decreases_to!(a => x));
                alike_is_reflexive(x[i].1);
            }
        },
        _ => {},
    }
}

/// Objects that have the same value under every name are equal, in whatever
/// order their members stand.
pub proof fn members_in_any_order(x: Seq<(Seq<char>, Tree)>, y: Seq<(Seq<char>, Tree)>)
    requires
        forall|name: Seq<char>| #[trigger] member(x, name) == member(y, name),
    ensures
        alike(Tree::Object(x), Tree::Object(y)),
{
    assert forall|i: int| 0 <= i < x.len() && is_first(x, i) implies member(
        y,
        (#[trigger] x[i]).0,
    ) is Some && alike(x[i].1, member(y, x[i].0)->0) by {
        member_is_first(x, i);
        assert(member(x, x[i].0) == member(y, x[i].0));
        alike_is_reflexive(x[i].1);
    }
    assert forall|i: int| 0 <= i < y.len() implies member(x, (#[trigger] y[i]).0) is Some by {
        member_is_first(y, i);
        assert(member(x, y[i].0) == member(y, y[i].0));
    }
}

/// Whether a member is the first with its name.
fn is_first_member(v: &Vec<(String, Json)>, i: usize) -> (r: bool)
    requires
        i < v@.len(),
    ensures
        r == is_first(members(v@), i as int),
{
    let mut j: usize = 0;
    while j < i
        invariant
            j <= i < v@.len(),
            forall|a: int|
                0 <= a < j ==> (#[trigger] members(v@)[a]).0 != members(v@)[i as int].0,
        decreases i - j,
    {
        if same_text(&v[j].0, &v[i].0) {
            assert(members(v@)[j as int].0 == members(v@)[i as int].0);
            return false;
        }
        j += 1;
    }
    true
}

/// Whether two values are equal.
pub fn same_json(a: &Json, b: &Json) -> (r: bool)
    ensures
        r == alike(a@, b@),
    decreases a,
{
    proof {
        view_of_lists(a);
        view_of_lists(b);
    }
    match (a, b) {
        (Json::Null, Json::Null) => true,
        (Json::Bool(x), Json::Bool(y)) => *x == *y,
        (Json::Number(x), Json::Number(y)) => same_text(x, y) || numbers_agree(x, y),
        (Json::Text(x), Json::Text(y)) => same_text(x, y),
        (Json::Array(x), Json::Array(y)) => {
            if x.len() != y.len() {
                assert(values(x@).len() != values(y@).len());
                return false;
            }
            let mut i: usize = 0;
            while i < x.len()
                invariant
                    *a == Json::Array(*x),
                    a@ == Tree::Array(values(x@)),
                    b@ == Tree::Array(values(y@)),
                    x@.len() == y@.len(),
                    i <= x@.len(),
                    forall|j: int| 0 <= j < i ==> alike(#[trigger] values(x@)[j], values(y@)[j]),
                decreases x@.len() - i,
            {
                assert(decreases_to!(a => x@[i as int]));
                if !same_json(&x[i], &y[i]) {
                    assert(!alike(values(x@)[i as int], values(y@)[i as int]));
                    return false;
                }
                i += 1;
            }
            true
        },
        (Json::Object(x), Json::Object(y)) => {
            let ghost xs = members(x@);
            let ghost ys = members(y@);
            let mut i: usize = 0;
            while i < x.len()
                invariant
                    *a == Json::Object(*x),
                    xs == members(x@),
                    ys == members(y@),
                    a@ == Tree::Object(xs),
                    b@ == Tree::Object(ys),
                    i <= x@.len(),
                    forall|j: int|
                        0 <= j < i && is_first(xs, j) ==> member(ys, (#[trigger] xs[j]).0) is Some
                            && alike(xs[j].1, member(ys, xs[j].0)->0),
                decreases x@.len() - i,
            {
                assert(xs[i as int] == (x@[i as int].0@, x@[i as int].1@));
                assert(decreases_to!(a => x@[i as int].1));
                if is_first_member(x, i) {
                    match find_member(y, &x[i].0) {
                        Some(v) => if !same_json(&x[i].1, v) {
                            return false;
                        },
                        None => return false,
                    }
                }
                i += 1;
            }
            let mut i: usize = 0;
            while i < y.len()
                invariant
                    xs == members(x@),
                    ys == members(y@),
                    a@ == Tree::Object(xs),
                    b@ == Tree::Object(ys),
                    i <= y@.len(),
                    forall|j: int|
                        0 <= j < i ==> member(xs, (#[trigger] ys[j]).0) is Some,
                decreases y@.len() - i,
            {
                assert(ys[i as int] == (y@[i as int].0@, y@[i as int].1@));
                if find_member(x, &y[i].0).is_none() {
                    return false;
                }
                i += 1;
            }
            true
        },
        _ => false,
    }
}

impl Clone for Json {
    fn clone(&self) -> (r: Self)
        ensures
            r@ == self@,
    {
        copy_json(self)
    }
}

/// A copy that says the same.
pub fn copy_json(a: &Json) -> (r: Json)
    ensures
        r@ == a@,
    decreases a,
{
    proof {
        view_of_lists(a);
    }
    match a {
        Json::Null => Json::Null,
        Json::Bool(b) => Json::Bool(*b),
        Json::Number(s) => Json::Number(s.clone()),
        Json::Text(s) => Json::Text(s.clone()),
        Json::Array(x) => {
            let mut out: Vec<Json> = Vec::with_capacity(x.len());
            let mut i: usize = 0;
            while i < x.len()
                invariant
                    *a == Json::Array(*x),
                    i <= x@.len(),
                    out@.len() == i,
                    forall|j: int| 0 <= j < i ==> (#[trigger] out@[j])@ == x@[j]@,
                decreases x@.len() - i,
            {
                assert(decreases_to!(a => a->Array_0@[i as int]));
                out.push(copy_json(&x[i]));
                i += 1;
            }
            assert(values(out@) =~= values(x@));
            let r = Json::Array(out);
            proof {
                view_of_lists(&r);
            }
            r
        },
        Json::Object(x) => {
            let mut out: Vec<(String, Json)> = Vec::with_capacity(x.len());
            let mut i: usize = 0;
            while i < x.len()
                invariant
                    *a == Json::Object(*x),
                    i <= x@.len(),
                    out@.len() == i,
                    forall|j: int|
                        0 <= j < i ==> (#[trigger] out@[j]).0@ == x@[j].0@ && out@[j].1@
                            == x@[j].1@,
                decreases x@.len() - i,
            {
                assert(decreases_to!(a => a->Object_0@[i as int].1));
                out.push((x[i].0.clone(), copy_json(&x[i].1)));
                i += 1;
            }
            assert(members(out@) =~= members(x@));
            let r = Json::Object(out);
            proof {
                view_of_lists(&r);
            }
            r
        },
    }
}

/// A copy of a list of members.
pub fn copy_members(v: &Vec<(String, Json)>) -> (r: Vec<(String, Json)>)
    ensures
        members(r@) == members(v@),
{
    let mut out: Vec<(String, Json)> = Vec::with_capacity(v.len());
    let mut i: usize = 0;
    while i < v.len()
        invariant
            i <= v@.len(),
            out@.len() == i,
            forall|j: int|
                0 <= j < i ==> (#[trigger] out@[j]).0@ == v@[j].0@ && out@[j].1@ == v@[j].1@,
        decreases v@.len() - i,
    {
        out.push((v[i].0.clone(), copy_json(&v[i].1)));
        i += 1;
    }
    assert(members(out@) =~= members(v@));
    out
}

/// The first member with a name.
pub fn find_member<'a>(v: &'a Vec<(String, Json)>, name: &str) -> (r: Option<&'a Json>)
    ensures
        match r {
            Some(j) => member(members(v@), name@) == Some(j@),
            None => member(members(v@), name@) is None,
        },
{
    let ghost all = members(v@);
    let mut i: usize = 0;
    assert(all.skip(0) =~= all);
    while i < v.len()
        invariant
            all == members(v@),
            i <= v@.len(),
            member(all, name@) == member(all.skip(i as int), name@),
        decreases v@.len() - i,
    {
        assert(all.skip(i as int)[0] == (v@[i as int].0@, v@[i as int].1@));
        if same_text(&v[i].0, name) {
            return Some(&v[i].1);
        }
        assert(all.skip(i as int).skip(1) =~= all.skip(i + 1));
        i += 1;
    }
    None
}

impl Json {
    /// The member of an object with a name. Nothing for other values.
    pub fn get(&self, name: &str) -> (r: Option<&Json>)
        ensures
            match r {
                Some(j) => field(self@, name@) == Some(j@),
                None => field(self@, name@) is None,
            },
    {
        proof {
            view_of_lists(self);
        }
        match self {
            Json::Object(v) => find_member(v, name),
            _ => None,
        }
    }

    /// The text of a text.
    pub fn as_str(&self) -> (r: Option<&str>)
        ensures
            match r {
                Some(s) => self@ == Tree::Text(s@),
                None => !(self@ is Text),
            },
    {
        match self {
            Json::Text(s) => Some(s.as_str()),
            _ => None,
        }
    }

    /// The text of a text member.
    pub fn get_text(&self, name: &str) -> (r: Option<&str>)
        ensures
            match r {
                Some(s) => text_field(self@, name@) == Some(s@),
                None => text_field(self@, name@) is None,
            },
    {
        match self.get(name) {
            Some(j) => j.as_str(),
            None => None,
        }
    }

    /// The whole number in a value that fits 64 bits.
    pub fn as_u64(&self) -> (r: Option<u64>)
        ensures
            match r {
                Some(n) => whole(self@) == Some(n as nat),
                None => whole(self@) is None,
            },
    {
        match self {
            Json::Number(s) => text::parse_decimal(s),
            _ => None,
        }
    }

    /// A member that is a whole number which fits 64 bits.
    pub fn get_u64(&self, name: &str) -> (r: Option<u64>)
        ensures
            match r {
                Some(n) => whole_field(self@, name@) == Some(n as nat),
                None => whole_field(self@, name@) is None,
            },
    {
        match self.get(name) {
            Some(j) => j.as_u64(),
            None => None,
        }
    }

    /// A text value.
    pub fn text(s: &str) -> (r: Json)
        ensures
            r@ == Tree::Text(s@),
    {
        Json::Text(s.to_string())
    }

    /// A number value.
    pub fn number(n: u64) -> (r: Json)
        ensures
            r@ == Tree::Number(text::decimal(n as nat)),
    {
        Json::Number(text::decimal_string(n))
    }

    /// An object with no member.
    pub fn empty() -> (r: Json)
        ensures
            r@ == Tree::Object(Seq::empty()),
    {
        let r = Json::Object(Vec::new());
        proof {
            view_of_lists(&r);
            assert(members(Seq::<(String, Json)>::empty()) =~= Seq::empty());
        }
        r
    }

    /// An object with one member.
    pub fn object1(n1: &str, v1: Json) -> (r: Json)
        ensures
            r@ == Tree::Object(seq![(n1@, v1@)]),
    {
        let mut v: Vec<(String, Json)> = Vec::new();
        v.push((n1.to_string(), v1));
        let r = Json::Object(v);
        proof {
            view_of_lists(&r);
            assert(members(v@) =~= seq![(n1@, v1@)]);
        }
        r
    }

    /// An object with two members.
    pub fn object2(n1: &str, v1: Json, n2: &str, v2: Json) -> (r: Json)
        ensures
            r@ == Tree::Object(seq![(n1@, v1@), (n2@, v2@)]),
    {
        let mut v: Vec<(String, Json)> = Vec::new();
        v.push((n1.to_string(), v1));
        v.push((n2.to_string(), v2));
        let r = Json::Object(v);
        proof {
            view_of_lists(&r);
            assert(members(v@) =~= seq![(n1@, v1@), (n2@, v2@)]);
        }
        r
    }

    /// An object with three members.
    pub fn object3(n1: &str, v1: Json, n2: &str, v2: Json, n3: &str, v3: Json) -> (r: Json)
        ensures
            r@ == Tree::Object(seq![(n1@, v1@), (n2@, v2@), (n3@, v3@)]),
    {
        let mut v: Vec<(String, Json)> = Vec::new();
        v.push((n1.to_string(), v1));
        v.push((n2.to_string(), v2));
        v.push((n3.to_string(), v3));
        let r = Json::Object(v);
        proof {
            view_of_lists(&r);
            assert(members(v@) =~= seq![(n1@, v1@), (n2@, v2@), (n3@, v3@)]);
        }
        r
    }

    /// An object with the given members.
    pub fn object(v: Vec<(String, Json)>) -> (r: Json)
        ensures
            r@ == Tree::Object(members(v@)),
    {
        let r = Json::Object(v);
        proof {
            view_of_lists(&r);
        }
        r
    }

    /// An array of texts.
    pub fn text_array(v: &Vec<String>) -> (r: Json)
        ensures
            r@ == Tree::Array(text_values(text::texts(v@))),
    {
        let mut list: Vec<Json> = Vec::with_capacity(v.len());
        let mut i: usize = 0;
        while i < v.len()
            invariant
                i <= v@.len(),
                list@.len() == i,
                forall|j: int| 0 <= j < i ==> (#[trigger] list@[j])@ == Tree::Text(v@[j]@),
            decreases v@.len() - i,
        {
            list.push(Json::text(&v[i]));
            i += 1;
        }
        assert(values(list@) =~= text_values(text::texts(v@)));
        Json::array(list)
    }

    /// A number value that may be negative.
    pub fn integer(n: i32) -> (r: Json)
        ensures
            r@ == Tree::Number(signed_decimal(n as int)),
    {
        if n < 0 {
            let mut s = String::new();
            s.push('-');
            s.append(&text::decimal_string((-(n as i64)) as u64));
            assert(s@ =~= signed_decimal(n as int));
            Json::Number(s)
        } else {
            Json::number(n as u64)
        }
    }

    /// An array of the given values.
    pub fn array(v: Vec<Json>) -> (r: Json)
        ensures
            r@ == Tree::Array(values(v@)),
    {
        let r = Json::Array(v);
        proof {
            view_of_lists(&r);
        }
        r
    }
}

/// What a value says, if there is one.
pub open spec fn seen(j: Option<&Json>) -> Option<Tree> {
    match j {
        Some(v) => Some(v@),
        None => None,
    }
}

/// Texts as values.
pub open spec fn text_values(v: Seq<Seq<char>>) -> Seq<Tree> {
    v.map_values(|s: Seq<char>| Tree::Text(s))
}

/// The text form of a whole number.
pub open spec fn signed_decimal(n: int) -> Seq<char> {
    if n < 0 {
        seq!['-'] + text::decimal((-n) as nat)
    } else {
        text::decimal(n as nat)
    }
}

/// A negative number is written with a minus sign before its size, and any other
/// as it is.
pub proof fn numbers_are_written_with_their_sign(n: int)
    ensures
        n < 0 ==> signed_decimal(n).len() > 0 && signed_decimal(n)[0] == '-'
            && text::decimal_value(signed_decimal(n).skip(1)) == -n,
        n >= 0 ==> text::decimal_value(signed_decimal(n)) == n,
{
    if n < 0 {
        text::decimal_value_of_decimal((-n) as nat);
        assert(signed_decimal(n).skip(1) =~= text::decimal((-n) as nat));
    } else {
        text::decimal_value_of_decimal(n as nat);
    }
}

/// The text of a text member. Nothing where there is no such member or it is
/// another value.
pub open spec fn text_field(v: Tree, name: Seq<char>) -> Option<Seq<char>> {
    match field(v, name) {
        Some(Tree::Text(s)) => Some(s),
        _ => None,
    }
}

/// The whole number in a value that fits 64 bits.
pub open spec fn whole(v: Tree) -> Option<nat> {
    match v {
        Tree::Number(s) => text::read_decimal(s, u64::MAX as nat),
        _ => None,
    }
}

/// A member that is a whole number which fits 64 bits.
pub open spec fn whole_field(v: Tree, name: Seq<char>) -> Option<nat> {
    match field(v, name) {
        Some(x) => whole(x),
        None => None,
    }
}

/// The member of an object with a name. Nothing for other values.
pub open spec fn field(v: Tree, name: Seq<char>) -> Option<Tree> {
    match v {
        Tree::Object(m) => member(m, name),
        _ => None,
    }
}

// ---------------------------------------------------------------------
// Written JSON
// ---------------------------------------------------------------------

/// `serde_json::Value`, whose text form the crate `serde_json` reads and writes.
#[verifier::external_type_specification]
#[verifier::external_body]
pub struct ExValue(serde_json::Value);

/// The name for whether two texts are read as equal numbers.
pub uninterp spec fn same_number(x: Seq<char>, y: Seq<char>) -> bool;

/// Reads two texts by `serde_json::Number`'s `FromStr` and compares the numbers
/// by its `==`. Texts that cannot be read are not equal. The contract claims
/// only that the answer is a function of the texts.
#[verifier::external_body]
fn numbers_agree(x: &str, y: &str) -> (r: bool)
    ensures
        r == same_number(x@, y@),
{
    match (x.parse::<serde_json::Number>(), y.parse::<serde_json::Number>()) {
        (Ok(a), Ok(b)) => a == b,
        _ => false,
    }
}

/// The name for the `serde_json::Value` that stands for a JSON value.
pub uninterp spec fn foreign(v: Tree) -> serde_json::Value;

/// Builds the `serde_json::Value` for a JSON value, part by part. A number is
/// read from its text by `serde_json::Number`'s `FromStr`, and one that cannot
/// be read gives null. The contract claims only that the result is a function
/// of what the value says.
#[verifier::external_body]
fn to_foreign(j: &Json) -> (r: serde_json::Value)
    ensures
        r == foreign(j@),
{
    match j {
        Json::Null => serde_json::Value::Null,
        Json::Bool(b) => serde_json::Value::Bool(*b),
        Json::Number(s) => s.parse().map(serde_json::Value::Number).unwrap_or_default(),
        Json::Text(s) => serde_json::Value::String(s.clone()),
        Json::Array(v) => serde_json::Value::Array(v.iter().map(to_foreign).collect()),
        Json::Object(v) => serde_json::Value::Object(
            v.iter().map(|m| (m.0.clone(), to_foreign(&m.1))).collect(),
        ),
    }
}

/// The name for the JSON value that a `serde_json::Value` stands for.
pub uninterp spec fn native(v: serde_json::Value) -> Tree;

/// Takes a `serde_json::Value` apart. A number is kept as the text that its
/// `Display` gives. The contract claims only that the result is a function of
/// the value.
#[verifier::external_body]
fn from_foreign(v: &serde_json::Value) -> (r: Json)
    ensures
        r@ == native(*v),
{
    match v {
        serde_json::Value::Null => Json::Null,
        serde_json::Value::Bool(b) => Json::Bool(*b),
        serde_json::Value::Number(n) => Json::Number(n.to_string()),
        serde_json::Value::String(s) => Json::Text(s.clone()),
        serde_json::Value::Array(a) => Json::Array(a.iter().map(from_foreign).collect()),
        serde_json::Value::Object(m) => Json::Object(
            m.iter().map(|e| (e.0.clone(), from_foreign(e.1))).collect(),
        ),
    }
}

/// The name for what `serde_json::from_str` makes of a text: a value, or the
/// message of its error.
pub uninterp spec fn parsed(s: Seq<char>) -> Result<serde_json::Value, Seq<char>>;

/// Calls `serde_json::from_str` for a `serde_json::Value`. The contract claims
/// only that the result is a function of the text.
#[verifier::external_body]
fn read_value(s: &str) -> (r: Result<serde_json::Value, String>)
    ensures
        match r {
            Ok(v) => parsed(s@) == Ok::<serde_json::Value, Seq<char>>(v),
            Err(e) => parsed(s@) == Err::<serde_json::Value, Seq<char>>(e@),
        },
{
    serde_json::from_str(s).map_err(|e| e.to_string())
}

/// The name for what `serde_json::to_string_pretty` writes for a value.
pub uninterp spec fn pretty(v: serde_json::Value) -> Seq<char>;

/// Calls `serde_json::to_string_pretty`. The contract claims only that the text
/// is a function of the value.
#[verifier::external_body]
fn write_pretty(v: &serde_json::Value) -> (r: String)
    ensures
        r@ == pretty(*v),
{
    serde_json::to_string_pretty(v).unwrap_or_default()
}

/// The name for what `serde_json::to_string` writes for a value.
pub uninterp spec fn compact(v: serde_json::Value) -> Seq<char>;

/// Calls `serde_json::to_string`. The contract claims only that the text is a
/// function of the value.
#[verifier::external_body]
fn write_compact(v: &serde_json::Value) -> (r: String)
    ensures
        r@ == compact(*v),
{
    serde_json::to_string(v).unwrap_or_default()
}

/// What a text says as JSON: a value, or why it is none.
pub open spec fn reading(s: Seq<char>) -> Result<Tree, Seq<char>> {
    match parsed(s) {
        Ok(v) => Ok(native(v)),
        Err(e) => Err(e),
    }
}

/// Reads a text as JSON. The error is the parser's message.
pub fn parse(s: &str) -> (r: Result<Json, String>)
    ensures
        match r {
            Ok(j) => reading(s@) == Ok::<Tree, Seq<char>>(j@),
            Err(e) => reading(s@) == Err::<Tree, Seq<char>>(e@),
        },
{
    match read_value(s) {
        Ok(v) => Ok(from_foreign(&v)),
        Err(e) => Err(e),
    }
}

/// A JSON value on several lines, indented.
pub fn pretty_text(j: &Json) -> (r: String)
    ensures
        r@ == pretty(foreign(j@)),
{
    write_pretty(&to_foreign(j))
}

/// A JSON value on one line.
pub fn compact_text(j: &Json) -> (r: String)
    ensures
        r@ == compact(foreign(j@)),
{
    write_compact(&to_foreign(j))
}

} // verus!
