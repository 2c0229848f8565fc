//! Extractors: from free text to facts.

use crate::fact::{self, Fact};
use crate::json::{self, Json};
use crate::text::{self, same_text, to_lowercase};
use regex::Regex;
use vstd::prelude::*;

verus! {

broadcast use vstd::string::group_string_axioms;

/// Reads facts out of free text.
pub trait Extractor {
    fn extract(&self, text: &str) -> Vec<Fact>;
}

// ---------------------------------------------------------------------
// Trusted item
// ---------------------------------------------------------------------

/// The name for what `Regex::captures_iter` gives for a pattern and a text:
/// for each match its whole text and the text of its first group, if that
/// took part. Nothing for a pattern that is not a regular expression.
pub uninterp spec fn matches_of(pattern: Seq<char>, text: Seq<char>) -> Option<
    Seq<(Seq<char>, Option<Seq<char>>)>,
>;

/// What a match holds.
pub open spec fn match_texts(m: (String, Option<String>)) -> (Seq<char>, Option<Seq<char>>) {
    (
        m.0@,
        match m.1 {
            Some(g) => Some(g@),
            None => None,
        },
    )
}

/// What the matches in a list hold.
pub open spec fn all_match_texts(v: Seq<(String, Option<String>)>) -> Seq<
    (Seq<char>, Option<Seq<char>>),
> {
    v.map_values(|m: (String, Option<String>)| match_texts(m))
}

/// The matches stand in the text one behind the other, at `from` or later, each
/// with its group inside it.
pub open spec fn in_order(
    text: Seq<char>,
    from: int,
    found: Seq<(Seq<char>, Option<Seq<char>>)>,
) -> bool
    decreases found.len(),
{
    found.len() > 0 ==> exists|at: int| #[trigger]
        text::occurs_at(text, found[0].0, at) && from <= at && (found[0].1 matches Some(g)
            ==> text::has_part(found[0].0, g)) && in_order(
            text,
            at + found[0].0.len(),
            found.skip(1),
        )
}

/// The matches of a pattern stand in the text one behind the other.
pub open spec fn matched_in_order(text: Seq<char>, pattern: Seq<char>) -> bool {
    matches_of(pattern, text) matches Some(found) ==> in_order(text, 0, found)
}

/// Calls `Regex::new` and `Regex::captures_iter`. The contract claims that the
/// matches are a function of pattern and text, that they stand in the text in
/// order without overlap, and that the group of a match stands in the match.
#[verifier::external_body]
fn find_matches(pattern: &str, text: &str) -> (r: Option<Vec<(String, Option<String>)>>)
    ensures
        match r {
            Some(v) => matches_of(pattern@, text@) == Some(all_match_texts(v@)) && in_order(
                text@,
                0,
                all_match_texts(v@),
            ),
            None => matches_of(pattern@, text@) is None,
        },
{
    let re = Regex::new(pattern).ok()?;
    Some(
        re.captures_iter(text)
            .map(|c| (c[0].to_string(), c.get(1).map(|m| m.as_str().to_string())))
            .collect(),
    )
}

// ---------------------------------------------------------------------
// Patterns
// ---------------------------------------------------------------------

/// Someone says what they work as, in English or Russian.
pub const WORKS_AS: &'static str =
    r"(?i)\b(?:I\s+(?:work\s+as|am)\s+(?:an?\s+)?|я\s+(?:работаю|работаем)\s+(?:как\s+)?)([A-Za-zА-Яа-яёЁ\-]+)";

/// Someone says where they live. In English this may be the second thing said
/// in a sentence, behind an `and`.
pub const LIVES_IN: &'static str =
    r"(?i)\b(?:(?:I|and)\s+(?:live|reside)\s+in\s+|я\s+(?:живу|нахожусь)\s+в\s+)([A-Za-zА-Яа-яёЁ\-]+)";

/// Someone says what they like.
pub const LIKES: &'static str =
    r"(?i)\b(?:I\s+(?:like|love|enjoy|adore)\s+|я\s+(?:люблю|обожаю|нравится)\s+)([A-Za-zА-Яа-яёЁ\-]+)";

/// Someone says what they own.
pub const OWNS: &'static str =
    r"(?i)\b(?:I\s+(?:own|have|drive|bought)\s+(?:an?\s+)?|я\s+(?:купил|владею|имею|езжу\s+на)\s+)([A-Za-zА-Яа-яёЁ0-9\-]+)";

/// Someone says which language they speak.
pub const SPEAKS: &'static str =
    r"(?i)\b(?:I\s+(?:speak|know)\s+|я\s+(?:говорю\s+на|знаю)\s+)([A-Za-zА-Яа-яёЁ\-]+)";

/// Each relation with its pattern.
pub open spec fn relations() -> Seq<(Seq<char>, Seq<char>)> {
    seq![
        ("works_as"@, WORKS_AS@),
        ("lives_in"@, LIVES_IN@),
        ("likes"@, LIKES@),
        ("owns"@, OWNS@),
        ("speaks"@, SPEAKS@),
    ]
}

/// Each relation with its pattern.
pub fn patterns() -> (r: Vec<(&'static str, &'static str)>)
    ensures
        r@.map_values(|p: (&'static str, &'static str)| (p.0@, p.1@)) == relations(),
{
    let mut v: Vec<(&'static str, &'static str)> = Vec::new();
    v.push(("works_as", WORKS_AS));
    v.push(("lives_in", LIVES_IN));
    v.push(("likes", LIKES));
    v.push(("owns", OWNS));
    v.push(("speaks", SPEAKS));
    assert(v@.map_values(|p: (&'static str, &'static str)| (p.0@, p.1@)) =~= relations());
    v
}

// ---------------------------------------------------------------------
// From matches to facts
// ---------------------------------------------------------------------

/// A match that says something: the relation, the whole text and the value.
#[verifier::ext_equal]
pub struct Finding {
    pub relation: Seq<char>,
    pub whole: Seq<char>,
    pub value: Seq<char>,
}

/// The findings for a list of matches: those whose group took part.
pub open spec fn findings(
    relation: Seq<char>,
    found: Seq<(Seq<char>, Option<Seq<char>>)>,
) -> Seq<Finding>
    decreases found.len(),
{
    if found.len() == 0 {
        Seq::empty()
    } else {
        let before = findings(relation, found.drop_last());
        match found.last().1 {
            Some(value) => before.push(Finding { relation, whole: found.last().0, value }),
            None => before,
        }
    }
}

/// The findings in a text for the first `n` relations.
pub open spec fn all_findings(text: Seq<char>, n: nat) -> Seq<Finding>
    decreases n,
{
    if n == 0 || n > relations().len() {
        Seq::empty()
    } else {
        let (relation, pattern) = relations()[n - 1];
        all_findings(text, (n - 1) as nat) + match matches_of(pattern, text) {
            Some(found) => findings(relation, found),
            None => Seq::empty(),
        }
    }
}

/// Two findings say the same, but for the case of the value.
pub open spec fn same_finding(a: Finding, b: Finding) -> bool {
    a.relation == b.relation && text::lowered(a.value) == text::lowered(b.value)
}

/// The fact that a finding stands for.
pub open spec fn finding_fact(f: Finding) -> fact::FactState {
    fact::FactState {
        subject: text::lowered("user"@),
        predicate: text::lowered(f.relation),
        obj: text::lowered(text::lowered(f.value)),
        source: text::prefix(f.whole, fact::SOURCE_CHARS as nat),
    }
}

/// The facts for findings, each said only once: a finding that says the same
/// as an earlier one is left out.
pub open spec fn distinct_facts(f: Seq<Finding>) -> Seq<fact::FactState>
    decreases f.len(),
{
    if f.len() == 0 {
        Seq::empty()
    } else {
        let init = f.drop_last();
        let before = distinct_facts(init);
        if exists|i: int| 0 <= i < init.len() && same_finding(#[trigger] init[i], f.last()) {
            before
        } else {
            before.push(finding_fact(f.last()))
        }
    }
}

/// A fact was read in a text: its source is the beginning of a part of the text,
/// and its value is a part of that part, in lower case. It is about the user.
pub open spec fn stands_in(text: Seq<char>, f: fact::FactState) -> bool {
    &&& f.subject == "user"@
    &&& exists|whole: Seq<char>, value: Seq<char>|
        #![trigger text::has_part(text, whole), text::has_part(whole, value)]
        text::has_part(text, whole) && text::has_part(whole, value) && f.source == text::prefix(
            whole,
            fact::SOURCE_CHARS as nat,
        ) && f.obj == text::lowered(text::lowered(value))
}

/// A finding was made in a text.
spec fn found_in(text: Seq<char>, f: Finding) -> bool {
    text::has_part(text, f.whole) && text::has_part(f.whole, f.value)
}

/// Each match stands in the text, and its group in the match.
proof fn each_in_text(
    text: Seq<char>,
    from: int,
    found: Seq<(Seq<char>, Option<Seq<char>>)>,
    i: int,
)
    requires
        in_order(text, from, found),
        0 <= i < found.len(),
    ensures
        text::has_part(text, found[i].0),
        found[i].1 matches Some(g) ==> text::has_part(found[i].0, g),
    decreases found.len(),
{
    let at = choose|at: int| #[trigger]
        text::occurs_at(text, found[0].0, at) && from <= at && (found[0].1 matches Some(g)
            ==> text::has_part(found[0].0, g)) && in_order(
            text,
            at + found[0].0.len(),
            found.skip(1),
        );
    if i > 0 {
        assert(found.skip(1)[i - 1] == found[i]);
        each_in_text(text, at + found[0].0.len(), found.skip(1), i - 1);
    }
}

/// The findings for matches that stand in the text do so too.
proof fn findings_in_text(
    text: Seq<char>,
    relation: Seq<char>,
    found: Seq<(Seq<char>, Option<Seq<char>>)>,
)
    requires
        forall|i: int|
            0 <= i < found.len() ==> text::has_part(text, (#[trigger] found[i]).0) && (
            found[i].1 matches Some(g) ==> text::has_part(found[i].0, g)),
    ensures
        forall|i: int|
            0 <= i < findings(relation, found).len() ==> found_in(
                text,
                #[trigger] findings(relation, found)[i],
            ),
    decreases found.len(),
{
    if found.len() > 0 {
        let init = found.drop_last();
        assert(forall|i: int| 0 <= i < init.len() ==> (#[trigger] init[i]) == found[i]);
        findings_in_text(text, relation, init);
        assert(found[found.len() - 1] == found.last());
        let before = findings(relation, init);
        let all = findings(relation, found);
        assert forall|i: int| 0 <= i < all.len() implies found_in(text, #[trigger] all[i]) by {
            if i < before.len() {
                assert(all[i] == before[i]);
            }
        }
    }
}

/// The facts for findings in a text were read in it.
proof fn facts_in_message(text: Seq<char>, f: Seq<Finding>)
    requires
        forall|i: int| 0 <= i < f.len() ==> found_in(text, #[trigger] f[i]),
    ensures
        forall|i: int|
            0 <= i < distinct_facts(f).len() ==> stands_in(text, #[trigger] distinct_facts(f)[i]),
    decreases f.len(),
{
    if f.len() > 0 {
        let init = f.drop_last();
        assert(forall|i: int| 0 <= i < init.len() ==> (#[trigger] init[i]) == f[i]);
        facts_in_message(text, init);
        assert(found_in(text, f[f.len() - 1]));
        let last = f.last();
        reveal_strlit("user");
        assert("user"@.len() == 4);
        text::lowered_is_idempotent("user"@);
        assert(text::has_part(text, last.whole) && text::has_part(last.whole, last.value));
        assert(stands_in(text, finding_fact(last)));
        let before = distinct_facts(init);
        let all = distinct_facts(f);
        assert forall|i: int| 0 <= i < all.len() implies stands_in(text, #[trigger] all[i]) by {
            if i < before.len() {
                assert(all[i] == before[i]);
            }
        }
    }
}

/// The relations and the patterns that they are found by, in order.
pub proof fn relations_stand_in_order()
    ensures
        relations().len() == 5,
        relations()[0] == ("works_as"@, WORKS_AS@),
        relations()[1] == ("lives_in"@, LIVES_IN@),
        relations()[2] == ("likes"@, LIKES@),
        relations()[3] == ("owns"@, OWNS@),
        relations()[4] == ("speaks"@, SPEAKS@),
{
}

/// The pattern for what someone owns looks for its own verbs, and so does the one
/// for what they speak.
pub proof fn patterns_look_for_their_verbs()
    ensures
        text::has_part(OWNS@, "own|have|drive|bought"@),
        text::has_part(OWNS@, "купил|владею|имею|езжу"@),
        text::has_part(SPEAKS@, "speak|know"@),
        text::has_part(SPEAKS@, "говорю"@),
        text::has_part(SPEAKS@, "знаю"@),
{
    reveal_strlit(
        r"(?i)\b(?:I\s+(?:own|have|drive|bought)\s+(?:an?\s+)?|я\s+(?:купил|владею|имею|езжу\s+на)\s+)([A-Za-zА-Яа-яёЁ0-9\-]+)",
    );
    reveal_strlit(
        r"(?i)\b(?:I\s+(?:speak|know)\s+|я\s+(?:говорю\s+на|знаю)\s+)([A-Za-zА-Яа-яёЁ\-]+)",
    );
    reveal_strlit("own|have|drive|bought");
    reveal_strlit("купил|владею|имею|езжу");
    reveal_strlit("speak|know");
    reveal_strlit("говорю");
    reveal_strlit("знаю");
    assert(text::occurs_at(OWNS@, "own|have|drive|bought"@, 16)) by {
        assert(OWNS@.subrange(16, 37) =~= "own|have|drive|bought"@);
    }
    assert(text::occurs_at(OWNS@, "купил|владею|имею|езжу"@, 60)) by {
        assert(OWNS@.subrange(60, 82) =~= "купил|владею|имею|езжу"@);
    }
    assert(text::occurs_at(SPEAKS@, "speak|know"@, 16)) by {
        assert(SPEAKS@.subrange(16, 26) =~= "speak|know"@);
    }
    assert(text::occurs_at(SPEAKS@, "говорю"@, 38)) by {
        assert(SPEAKS@.subrange(38, 44) =~= "говорю"@);
    }
    assert(text::occurs_at(SPEAKS@, "знаю"@, 50)) by {
        assert(SPEAKS@.subrange(50, 54) =~= "знаю"@);
    }
}

/// A fact was told by a match of a pattern: its value is the match's group in
/// lower case, and its source is the beginning of the match.
pub open spec fn told_by(text: Seq<char>, pattern: Seq<char>, f: fact::FactState) -> bool {
    matches_of(pattern, text) is Some && exists|j: int|
        0 <= j < matches_of(pattern, text)->0.len() && (#[trigger] matches_of(
            pattern,
            text,
        )->0[j]).1 is Some && f.obj == text::lowered(
            text::lowered(matches_of(pattern, text)->0[j].1->0),
        ) && f.source == text::prefix(matches_of(pattern, text)->0[j].0, 200)
}

/// Every match of a pattern whose group took part tells a fact of the relation.
pub open spec fn all_told(
    text: Seq<char>,
    pattern: Seq<char>,
    relation: Seq<char>,
    facts: Seq<fact::FactState>,
) -> bool {
    matches_of(pattern, text) is Some ==> forall|j: int|
        0 <= j < matches_of(pattern, text)->0.len() && (#[trigger] matches_of(
            pattern,
            text,
        )->0[j]).1 is Some ==> exists|i: int|
            0 <= i < facts.len() && (#[trigger] facts[i]).predicate == relation && facts[i].subject
                == "user"@ && facts[i].obj == text::lowered(
                text::lowered(matches_of(pattern, text)->0[j].1->0),
            )
}

/// Each relation is found by its own pattern and by no other: a fact says that
/// someone works as something exactly where the pattern for that matches, and so
/// for where they live and for what they like, own and speak. Every fact is of one
/// of these relations, is about the user, and the relations come in this order.
pub proof fn each_relation_is_found_by_its_own_pattern(text: Seq<char>)
    ensures
        ({
            let facts = distinct_facts(all_findings(text, relations().len()));
            &&& forall|i: int|
                0 <= i < facts.len() ==> {
                    let f = #[trigger] facts[i];
                    &&& f.subject == "user"@
                    &&& {
                        ||| f.predicate == "works_as"@ && told_by(text, WORKS_AS@, f)
                        ||| f.predicate == "lives_in"@ && told_by(text, LIVES_IN@, f)
                        ||| f.predicate == "likes"@ && told_by(text, LIKES@, f)
                        ||| f.predicate == "owns"@ && told_by(text, OWNS@, f)
                        ||| f.predicate == "speaks"@ && told_by(text, SPEAKS@, f)
                    }
                }
            &&& all_told(text, WORKS_AS@, "works_as"@, facts)
            &&& all_told(text, LIVES_IN@, "lives_in"@, facts)
            &&& all_told(text, LIKES@, "likes"@, facts)
            &&& all_told(text, OWNS@, "owns"@, facts)
            &&& all_told(text, SPEAKS@, "speaks"@, facts)
        }),
{
    let all = all_findings(text, relations().len());
    let facts = distinct_facts(all);
    relation_names_stay();
    assert(relations().len() == 5);
    assert forall|i: int| 0 <= i < facts.len() implies {
        let f = #[trigger] facts[i];
        &&& f.subject == "user"@
        &&& {
            ||| f.predicate == "works_as"@ && told_by(text, WORKS_AS@, f)
            ||| f.predicate == "lives_in"@ && told_by(text, LIVES_IN@, f)
            ||| f.predicate == "likes"@ && told_by(text, LIKES@, f)
            ||| f.predicate == "owns"@ && told_by(text, OWNS@, f)
            ||| f.predicate == "speaks"@ && told_by(text, SPEAKS@, f)
        }
    } by {
        let at = fact_of_a_finding(all, i);
        let (r, j) = finding_of_a_match(text, relations().len(), at);
        let found = matches_of(relations()[r].1, text)->0;
        assert(found[j].1 is Some);
        assert(told_by(text, relations()[r].1, facts[i]));
    }
    told_in_full(text, 0);
    told_in_full(text, 1);
    told_in_full(text, 2);
    told_in_full(text, 3);
    told_in_full(text, 4);
}

/// The names of the relations and of the user are in lower case.
proof fn relation_names_stay()
    ensures
        text::lowered("user"@) == "user"@,
        forall|r: int|
            0 <= r < relations().len() ==> text::lowered((#[trigger] relations()[r]).0)
                == relations()[r].0,
{
    reveal_strlit("user");
    reveal_strlit("works_as");
    reveal_strlit("lives_in");
    reveal_strlit("likes");
    reveal_strlit("owns");
    reveal_strlit("speaks");
    text::lowered_is_idempotent("user"@);
    text::lowered_is_idempotent("works_as"@);
    text::lowered_is_idempotent("lives_in"@);
    text::lowered_is_idempotent("likes"@);
    text::lowered_is_idempotent("owns"@);
    text::lowered_is_idempotent("speaks"@);
}

/// The finding that a fact stands for.
proof fn fact_of_a_finding(f: Seq<Finding>, i: int) -> (at: int)
    requires
        0 <= i < distinct_facts(f).len(),
    ensures
        0 <= at < f.len(),
        distinct_facts(f)[i] == finding_fact(f[at]),
    decreases f.len(),
{
    let init = f.drop_last();
    let before = distinct_facts(init);
    if i < before.len() {
        let at = fact_of_a_finding(init, i);
        assert(init[at] == f[at]);
        at
    } else {
        f.len() - 1
    }
}

/// The match that a finding stands for: its relation and its number.
proof fn finding_of_a_match(text: Seq<char>, n: nat, at: int) -> (r: (int, int))
    requires
        n <= relations().len(),
        0 <= at < all_findings(text, n).len(),
    ensures
        0 <= r.0 < n,
        matches_of(relations()[r.0].1, text) is Some,
        0 <= r.1 < matches_of(relations()[r.0].1, text)->0.len(),
        ({
            let found = matches_of(relations()[r.0].1, text)->0[r.1];
            let f = all_findings(text, n)[at];
            &&& f.relation == relations()[r.0].0
            &&& f.whole == found.0
            &&& found.1 == Some(f.value)
        }),
    decreases n,
{
    let before = all_findings(text, (n - 1) as nat);
    let (relation, pattern) = relations()[n - 1];
    if at < before.len() {
        finding_of_a_match(text, (n - 1) as nat, at)
    } else {
        let found = matches_of(pattern, text)->0;
        let j = match_of_a_finding(relation, found, at - before.len());
        (n - 1, j)
    }
}

proof fn match_of_a_finding(
    relation: Seq<char>,
    found: Seq<(Seq<char>, Option<Seq<char>>)>,
    at: int,
) -> (j: int)
    requires
        0 <= at < findings(relation, found).len(),
    ensures
        0 <= j < found.len(),
        findings(relation, found)[at].relation == relation,
        findings(relation, found)[at].whole == found[j].0,
        found[j].1 == Some(findings(relation, found)[at].value),
    decreases found.len(),
{
    let init = found.drop_last();
    let before = findings(relation, init);
    if at < before.len() {
        let j = match_of_a_finding(relation, init, at);
        assert(init[j] == found[j]);
        j
    } else {
        found.len() - 1
    }
}

/// The finding for a match whose group took part.
proof fn finding_for_a_match(
    relation: Seq<char>,
    found: Seq<(Seq<char>, Option<Seq<char>>)>,
    j: int,
) -> (at: int)
    requires
        0 <= j < found.len(),
        found[j].1 is Some,
    ensures
        0 <= at < findings(relation, found).len(),
        findings(relation, found)[at] == (Finding {
            relation,
            whole: found[j].0,
            value: found[j].1->0,
        }),
    decreases found.len(),
{
    let init = found.drop_last();
    if j == found.len() - 1 {
        findings(relation, init).len() as int
    } else {
        assert(init[j] == found[j]);
        finding_for_a_match(relation, init, j)
    }
}

/// The place of a relation's findings among those of all relations.
proof fn findings_among_all(text: Seq<char>, n: nat, r: int) -> (at: int)
    requires
        0 <= r < n <= relations().len(),
        matches_of(relations()[r].1, text) is Some,
    ensures
        0 <= at,
        at + findings(relations()[r].0, matches_of(relations()[r].1, text)->0).len()
            <= all_findings(text, n).len(),
        forall|i: int|
            0 <= i < findings(relations()[r].0, matches_of(relations()[r].1, text)->0).len()
                ==> all_findings(text, n)[at + i] == #[trigger] findings(
                relations()[r].0,
                matches_of(relations()[r].1, text)->0,
            )[i],
    decreases n,
{
    let before = all_findings(text, (n - 1) as nat);
    if r == n - 1 {
        before.len() as int
    } else {
        findings_among_all(text, (n - 1) as nat, r)
    }
}

/// A finding tells a fact, unless an earlier one told the same.
proof fn fact_for_a_finding(f: Seq<Finding>, at: int) -> (i: int)
    requires
        0 <= at < f.len(),
    ensures
        0 <= i < distinct_facts(f).len(),
        distinct_facts(f)[i].predicate == text::lowered(f[at].relation),
        distinct_facts(f)[i].subject == text::lowered("user"@),
        distinct_facts(f)[i].obj == text::lowered(text::lowered(f[at].value)),
    decreases f.len(),
{
    let init = f.drop_last();
    let before = distinct_facts(init);
    if at < init.len() {
        assert(init[at] == f[at]);
        fact_for_a_finding(init, at)
    } else if exists|i: int| 0 <= i < init.len() && same_finding(#[trigger] init[i], f.last()) {
        let i = choose|i: int| 0 <= i < init.len() && same_finding(#[trigger] init[i], f.last());
        fact_for_a_finding(init, i)
    } else {
        before.len() as int
    }
}

/// All matches of one relation's pattern tell facts of the relation.
proof fn told_in_full(text: Seq<char>, r: int)
    requires
        0 <= r < relations().len(),
    ensures
        all_told(
            text,
            relations()[r].1,
            relations()[r].0,
            distinct_facts(all_findings(text, relations().len())),
        ),
{
    let pattern = relations()[r].1;
    let relation = relations()[r].0;
    let all = all_findings(text, relations().len());
    let facts = distinct_facts(all);
    relation_names_stay();
    if matches_of(pattern, text) is Some {
        let found = matches_of(pattern, text)->0;
        assert forall|j: int| 0 <= j < found.len() && (#[trigger] found[j]).1 is Some implies exists|
            i: int,
        |
            0 <= i < facts.len() && (#[trigger] facts[i]).predicate == relation && facts[i].subject
                == "user"@ && facts[i].obj == text::lowered(text::lowered(found[j].1->0)) by {
            let here = finding_for_a_match(relation, found, j);
            let start = findings_among_all(text, relations().len(), r);
            assert(all[start + here] == findings(relation, found)[here]);
            let i = fact_for_a_finding(all, start + here);
            assert(facts[i].predicate == relation);
        }
    }
}

/// Saying everything again adds no fact.
pub proof fn repetition_adds_nothing(f: Seq<Finding>, g: Seq<Finding>)
    requires
        forall|j: int|
            0 <= j < g.len() ==> exists|i: int|
                0 <= i < f.len() && same_finding(f[i], #[trigger] g[j]),
    ensures
        distinct_facts(f + g) == distinct_facts(f),
    decreases g.len(),
{
    if g.len() == 0 {
        assert(f + g =~= f);
    } else {
        let all = f + g;
        assert(all.drop_last() =~= f + g.drop_last());
        assert(all.last() == g.last());
        assert forall|j: int| 0 <= j < g.drop_last().len() implies exists|i: int|
            0 <= i < f.len() && same_finding(f[i], #[trigger] g.drop_last()[j]) by {
            assert(g.drop_last()[j] == g[j]);
        }
        repetition_adds_nothing(f, g.drop_last());
        let i = choose|i: int| 0 <= i < f.len() && same_finding(f[i], g[g.len() - 1]);
        assert(all.drop_last()[i] == f[i]);
    }
}

/// A match that says something, with its value in lower case for comparison.
struct Seen {
    relation: String,
    value: String,
}

/// Adds the facts for the matches of one relation to what earlier relations
/// gave.
fn add_matches(
    relation: &str,
    found: &Vec<(String, Option<String>)>,
    seen: &mut Vec<Seen>,
    out: &mut Vec<Fact>,
    earlier: Ghost<Seq<Finding>>,
)
    requires
        seen_matches(old(seen)@, earlier@),
        fact_states(old(out)@) == distinct_facts(earlier@),
    ensures
        seen_matches(
            final(seen)@,
            earlier@ + findings(relation@, all_match_texts(found@)),
        ),
        fact_states(final(out)@) == distinct_facts(
            earlier@ + findings(relation@, all_match_texts(found@)),
        ),
{
    let ghost all = all_match_texts(found@);
    let mut i: usize = 0;
    assert(earlier@ + findings(relation@, all.take(0)) =~= earlier@);
    while i < found.len()
        invariant
            all == all_match_texts(found@),
            i <= found@.len(),
            seen_matches(seen@, earlier@ + findings(relation@, all.take(i as int))),
            fact_states(out@) == distinct_facts(
                earlier@ + findings(relation@, all.take(i as int)),
            ),
        decreases found@.len() - i,
    {
        let ghost before = earlier@ + findings(relation@, all.take(i as int));
        let ghost next = all.take(i + 1);
        assert(next.drop_last() =~= all.take(i as int));
        assert(next.last() == match_texts(found@[i as int]));
        if let Some(value) = &found[i].1 {
            let ghost f = Finding { relation: relation@, whole: found@[i as int].0@, value: value@ };
            assert(earlier@ + findings(relation@, next) =~= before.push(f));
            let lower = to_lowercase(value);
            let known = is_known(seen, relation, &lower);
            proof {
                assert(before.push(f).drop_last() =~= before);
                assert(before.push(f).last() == f);
                if known {
                    let j = choose|j: int|
                        0 <= j < seen@.len() && (#[trigger] seen@[j]).relation@ == relation@
                            && seen@[j].value@ == lower@;
                    assert(same_finding(before[j], f));
                } else {
                    assert forall|j: int| 0 <= j < before.len() implies !same_finding(
                        #[trigger] before[j],
                        f,
                    ) by {
                        assert(seen@[j].relation@ == before[j].relation);
                    }
                }
            }
            if !known {
                let fact = Fact::new("user", relation, &lower, &found[i].0);
                assert(fact@ =~= finding_fact(f));
                let ghost old_facts = fact_states(out@);
                out.push(fact);
                assert(fact_states(out@) =~= old_facts.push(fact@));
            }
            seen.push(Seen { relation: relation.to_string(), value: lower });
            assert(seen_matches(seen@, before.push(f)));
        } else {
            assert(findings(relation@, next) == findings(relation@, all.take(i as int)));
        }
        i += 1;
    }
    assert(all.take(i as int) =~= all);
}

/// `seen` lists the findings in order.
spec fn seen_matches(seen: Seq<Seen>, f: Seq<Finding>) -> bool {
    &&& seen.len() == f.len()
    &&& forall|j: int|
        0 <= j < f.len() ==> (#[trigger] seen[j]).relation@ == f[j].relation && seen[j].value@
            == text::lowered(f[j].value)
}

/// Whether a relation with a value was seen.
fn is_known(seen: &Vec<Seen>, relation: &str, value: &str) -> (r: bool)
    ensures
        r == exists|j: int|
            0 <= j < seen@.len() && (#[trigger] seen@[j]).relation@ == relation@ && seen@[j].value@
                == value@,
{
    let mut i: usize = 0;
    while i < seen.len()
        invariant
            i <= seen@.len(),
            forall|j: int|
                0 <= j < i ==> !((#[trigger] seen@[j]).relation@ == relation@ && seen@[j].value@
                    == value@),
        decreases seen@.len() - i,
    {
        if same_text(&seen[i].relation, relation) && same_text(&seen[i].value, value) {
            assert(seen@[i as int].relation@ == relation@);
            return true;
        }
        i += 1;
    }
    false
}

/// What the facts in a list hold.
pub open spec fn fact_states(v: Seq<Fact>) -> Seq<fact::FactState> {
    v.map_values(|f: Fact| f@)
}

/// `facts` is what an extractor gives for a text.
pub open spec fn extracted<X: Extractor>(
    x: X,
    text: Seq<char>,
    facts: Seq<fact::FactState>,
) -> bool {
    exists|t: &str, out: Vec<Fact>| #[trigger]
        call_ensures(X::extract, (&x, t), out) && t@ == text && fact_states(out@) == facts
}

/// Reads facts by patterns, without any service.
#[derive(Debug, Clone, Copy)]
pub struct RegexExtractor;

impl Default for RegexExtractor {
    fn default() -> (r: Self)
        ensures
            r == RegexExtractor,
    {
        RegexExtractor
    }
}

impl RegexExtractor {
    /// An extractor.
    pub fn new() -> (r: Self)
        ensures
            r == RegexExtractor,
    {
        RegexExtractor
    }

    /// The facts for the matches of each relation, given in the order of the
    /// relations.
    pub fn facts_for(found: &Vec<Vec<(String, Option<String>)>>) -> (r: Vec<Fact>)
        requires
            found@.len() == relations().len(),
        ensures
            fact_states(r@) == distinct_facts(given_findings(found@, relations().len())),
    {
        let rels = patterns();
        let ghost names = rels@.map_values(|p: (&'static str, &'static str)| (p.0@, p.1@));
        let mut seen: Vec<Seen> = Vec::new();
        let mut out: Vec<Fact> = Vec::new();
        let mut i: usize = 0;
        assert(fact_states(out@) =~= distinct_facts(given_findings(found@, 0)));
        while i < found.len()
            invariant
                names == relations(),
                names == rels@.map_values(|p: (&'static str, &'static str)| (p.0@, p.1@)),
                found@.len() == relations().len(),
                i <= found@.len(),
                seen_matches(seen@, given_findings(found@, i as nat)),
                fact_states(out@) == distinct_facts(given_findings(found@, i as nat)),
            decreases found@.len() - i,
        {
            assert(names[i as int].0 == rels@[i as int].0@);
            let ghost earlier = given_findings(found@, i as nat);
            add_matches(rels[i].0, &found[i], &mut seen, &mut out, Ghost(earlier));
            i += 1;
        }
        out
    }
}

/// The findings in the matches of the first `n` relations.
pub open spec fn given_findings(found: Seq<Vec<(String, Option<String>)>>, n: nat) -> Seq<Finding>
    decreases n,
{
    if n == 0 || n > relations().len() {
        Seq::empty()
    } else {
        given_findings(found, (n - 1) as nat) + findings(
            relations()[n - 1].0,
            all_match_texts(found[n - 1]@),
        )
    }
}

impl Extractor for RegexExtractor {
    fn extract(&self, text: &str) -> (r: Vec<Fact>)
        ensures
            fact_states(r@) == distinct_facts(all_findings(text@, relations().len())),
            forall|i: int| 0 <= i < r@.len() ==> stands_in(text@, (#[trigger] r@[i])@),
            forall|i: int|
                0 <= i < relations().len() ==> matched_in_order(
                    text@,
                    (#[trigger] relations()[i]).1,
                ),
    {
        let rels = patterns();
        let ghost names = rels@.map_values(|p: (&'static str, &'static str)| (p.0@, p.1@));
        let mut found: Vec<Vec<(String, Option<String>)>> = Vec::new();
        let mut i: usize = 0;
        assert(given_findings(found@, 0) =~= all_findings(text@, 0));
        while i < rels.len()
            invariant
                names == relations(),
                names == rels@.map_values(|p: (&'static str, &'static str)| (p.0@, p.1@)),
                i <= rels@.len(),
                found@.len() == i,
                given_findings(found@, i as nat) == all_findings(text@, i as nat),
                forall|j: int|
                    0 <= j < i ==> matched_in_order(text@, (#[trigger] relations()[j]).1),
                forall|j: int|
                    0 <= j < all_findings(text@, i as nat).len() ==> found_in(
                        text@,
                        #[trigger] all_findings(text@, i as nat)[j],
                    ),
            decreases rels@.len() - i,
        {
            assert(names[i as int] == (rels@[i as int].0@, rels@[i as int].1@));
            let m = match find_matches(rels[i].1, text) {
                Some(v) => v,
                None => Vec::new(),
            };
            let ghost before = found@;
            found.push(m);
            proof {
                given_findings_agree(before, found@, i as nat);
                if matches_of(names[i as int].1, text@) is None {
                    assert(all_match_texts(m@) =~= Seq::empty());
                }
                assert(given_findings(found@, (i + 1) as nat) =~= all_findings(
                    text@,
                    (i + 1) as nat,
                ));
                let texts = all_match_texts(m@);
                assert forall|j: int| 0 <= j < texts.len() implies text::has_part(
                    text@,
                    (#[trigger] texts[j]).0,
                ) && (texts[j].1 matches Some(g) ==> text::has_part(texts[j].0, g)) by {
                    each_in_text(text@, 0, texts, j);
                }
                findings_in_text(text@, names[i as int].0, texts);
                let older = all_findings(text@, i as nat);
                let newer = findings(names[i as int].0, texts);
                assert(all_findings(text@, (i + 1) as nat) =~= older + newer);
            }
            i += 1;
        }
        let facts = Self::facts_for(&found);
        proof {
            facts_in_message(text@, all_findings(text@, relations().len()));
            assert forall|i: int| 0 <= i < facts@.len() implies stands_in(
                text@,
                (#[trigger] facts@[i])@,
            ) by {
                assert(fact_states(facts@)[i] == facts@[i]@);
            }
        }
        facts
    }
}

/// A fact was told by one of the given matches: its value is the match's group in
/// lower case, and its source is the beginning of the match.
pub open spec fn told_in(found: Seq<(String, Option<String>)>, f: fact::FactState) -> bool {
    exists|j: int|
        0 <= j < found.len() && (#[trigger] found[j]).1 is Some && f.obj == text::lowered(
            text::lowered(found[j].1->0@),
        ) && f.source == text::prefix(found[j].0@, 200)
}

/// Matches that are given list by list tell facts of the relation that their list
/// is for: the first list of what someone works as, the next of where they live,
/// then of what they like, own and speak.
pub proof fn each_list_tells_its_own_relation(
    found: Seq<Vec<(String, Option<String>)>>,
    i: int,
)
    requires
        found.len() == 5,
        0 <= i < distinct_facts(given_findings(found, relations().len())).len(),
    ensures
        ({
            let f = distinct_facts(given_findings(found, relations().len()))[i];
            ||| f.predicate == "works_as"@ && told_in(found[0]@, f)
            ||| f.predicate == "lives_in"@ && told_in(found[1]@, f)
            ||| f.predicate == "likes"@ && told_in(found[2]@, f)
            ||| f.predicate == "owns"@ && told_in(found[3]@, f)
            ||| f.predicate == "speaks"@ && told_in(found[4]@, f)
        }),
{
    let all = given_findings(found, relations().len());
    relation_names_stay();
    let at = fact_of_a_finding(all, i);
    let (r, j) = given_match_of_a_finding(found, relations().len(), at);
    let m = found[r]@[j];
    assert(all_match_texts(found[r]@)[j] == match_texts(m));
    assert(m.1 is Some);
    assert(told_in(found[r]@, distinct_facts(all)[i]));
}

/// The given match that a finding stands for: its list and its number.
proof fn given_match_of_a_finding(
    found: Seq<Vec<(String, Option<String>)>>,
    n: nat,
    at: int,
) -> (r: (int, int))
    requires
        n <= relations().len(),
        0 <= at < given_findings(found, n).len(),
    ensures
        0 <= r.0 < n,
        0 <= r.1 < found[r.0]@.len(),
        ({
            let m = all_match_texts(found[r.0]@)[r.1];
            let f = given_findings(found, n)[at];
            &&& f.relation == relations()[r.0].0
            &&& f.whole == m.0
            &&& m.1 == Some(f.value)
        }),
    decreases n,
{
    let before = given_findings(found, (n - 1) as nat);
    if at < before.len() {
        given_match_of_a_finding(found, (n - 1) as nat, at)
    } else {
        let j = match_of_a_finding(
            relations()[n - 1].0,
            all_match_texts(found[n - 1]@),
            at - before.len(),
        );
        (n - 1, j)
    }
}

/// The findings of the first relations do not depend on later matches.
proof fn given_findings_agree(
    a: Seq<Vec<(String, Option<String>)>>,
    b: Seq<Vec<(String, Option<String>)>>,
    n: nat,
)
    requires
        n <= a.len() <= b.len(),
        forall|i: int| 0 <= i < n ==> a[i] == b[i],
    ensures
        given_findings(a, n) == given_findings(b, n),
    decreases n,
{
    if n > 0 {
        given_findings_agree(a, b, (n - 1) as nat);
    }
}

// ---------------------------------------------------------------------
// Facts in a reply
// ---------------------------------------------------------------------

/// The fact that an item of a reply tells: it needs a relation and a value; the
/// subject is the user where none is named.
pub open spec fn told_fact(item: json::Tree, source: Seq<char>) -> Option<fact::FactState> {
    match (json::text_field(item, "predicate"@), json::text_field(item, "object"@)) {
        (Some(predicate), Some(obj)) => Some(
            fact::FactState {
                subject: text::lowered(
                    match json::text_field(item, "subject"@) {
                        Some(s) => s,
                        None => "user"@,
                    },
                ),
                predicate: text::lowered(predicate),
                obj: text::lowered(obj),
                source: text::prefix(source, fact::SOURCE_CHARS as nat),
            },
        ),
        _ => None,
    }
}

/// The facts that the items of a reply tell, in order.
pub open spec fn told_facts(items: Seq<json::Tree>, source: Seq<char>) -> Seq<fact::FactState>
    decreases items.len(),
{
    if items.len() == 0 {
        Seq::empty()
    } else {
        let before = told_facts(items.drop_last(), source);
        match told_fact(items.last(), source) {
            Some(f) => before.push(f),
            None => before,
        }
    }
}

/// The facts that a reply tells: those of its list of facts.
pub open spec fn reply_facts(reply: json::Tree, source: Seq<char>) -> Seq<fact::FactState> {
    match json::field(reply, "facts"@) {
        Some(json::Tree::Array(items)) => told_facts(items, source),
        _ => Seq::empty(),
    }
}

/// An item of a reply that has a text for its relation and one for its value.
pub open spec fn says_something(item: json::Tree) -> bool {
    &&& json::field(item, "predicate"@) matches Some(json::Tree::Text(_))
    &&& json::field(item, "object"@) matches Some(json::Tree::Text(_))
}

/// The items of a reply that have a text for their relation and one for their
/// value tell a fact each, in order, and no others do. The fact has these texts
/// in lower case; its subject is the item's own where that is a text, and the
/// user where not; and its source is the beginning of the text that was read.
pub proof fn items_tell_facts(items: Seq<json::Tree>, source: Seq<char>) -> (at: Seq<int>)
    ensures
        at.len() == told_facts(items, source).len(),
        forall|h: int, g: int| 0 <= h < g < at.len() ==> at[h] < at[g],
        forall|i: int|
            0 <= i < items.len() ==> (says_something(#[trigger] items[i]) <==> at.contains(i)),
        forall|h: int|
            0 <= h < at.len() ==> {
                let item = items[#[trigger] at[h]];
                let f = told_facts(items, source)[h];
                &&& 0 <= at[h] < items.len()
                &&& json::field(item, "predicate"@) matches Some(json::Tree::Text(p))
                    && f.predicate == text::lowered(p)
                &&& json::field(item, "object"@) matches Some(json::Tree::Text(o)) && f.obj
                    == text::lowered(o)
                &&& json::field(item, "subject"@) matches Some(json::Tree::Text(s)) ==> f.subject
                    == text::lowered(s)
                &&& !(json::field(item, "subject"@) matches Some(json::Tree::Text(_)))
                    ==> f.subject == "user"@
                &&& f.source.len() <= 200
                &&& f.source == source.take(f.source.len() as int)
                &&& f.source.len() == 200 || f.source == source
            },
    decreases items.len(),
{
    reveal_strlit("user");
    text::lowered_is_idempotent("user"@);
    if items.len() == 0 {
        Seq::empty()
    } else {
        let init = items.drop_last();
        let last = items.len() - 1;
        let before = items_tell_facts(init, source);
        let at = if says_something(items[last]) {
            before.push(last)
        } else {
            before
        };
        assert forall|i: int| 0 <= i < items.len() implies (says_something(#[trigger] items[i])
            <==> at.contains(i)) by {
            if i < last {
                assert(init[i] == items[i]);
                if before.contains(i) {
                    let h = before.index_of(i);
                    assert(at[h] == i);
                }
                if at.contains(i) {
                    let h = at.index_of(i);
                    assert(before[h] == i);
                }
            } else {
                if says_something(items[last]) {
                    assert(at[before.len() as int] == i);
                } else if at.contains(i) {
                    let h = at.index_of(i);
                    assert(before[h] == last);
                }
            }
        }
        assert forall|h: int| 0 <= h < at.len() implies {
            let item = items[#[trigger] at[h]];
            let f = told_facts(items, source)[h];
            &&& 0 <= at[h] < items.len()
            &&& json::field(item, "predicate"@) matches Some(json::Tree::Text(p)) && f.predicate
                == text::lowered(p)
            &&& json::field(item, "object"@) matches Some(json::Tree::Text(o)) && f.obj
                == text::lowered(o)
            &&& json::field(item, "subject"@) matches Some(json::Tree::Text(s)) ==> f.subject
                == text::lowered(s)
            &&& !(json::field(item, "subject"@) matches Some(json::Tree::Text(_))) ==> f.subject
                == "user"@
            &&& f.source.len() <= 200
            &&& f.source == source.take(f.source.len() as int)
            &&& f.source.len() == 200 || f.source == source
        } by {
            if h < before.len() {
                assert(at[h] == before[h]);
                assert(init[before[h]] == items[before[h]]);
                assert(told_facts(items, source)[h] == told_facts(init, source)[h]);
            } else {
                assert(source.take(source.len() as int) =~= source);
            }
        }
        assert forall|h: int, g: int| 0 <= h < g < at.len() implies at[h] < at[g] by {
            assert(at[h] == before[h]);
            if g < before.len() {
                assert(at[g] == before[g]);
            }
        }
        at
    }
}

/// A text that is no JSON tells no fact, and neither does one without a list of
/// facts; else the facts are those of its list.
pub proof fn a_reply_tells_its_list(raw: Seq<char>, source: Seq<char>)
    ensures
        json::reading(raw) is Err ==> facts_in_text(raw, source).len() == 0,
        json::reading(raw) matches Ok(reply) ==> {
            &&& json::field(reply, "facts"@) matches Some(json::Tree::Array(items))
                ==> facts_in_text(raw, source) == told_facts(items, source)
            &&& !(json::field(reply, "facts"@) matches Some(json::Tree::Array(_)))
                ==> facts_in_text(raw, source).len() == 0
        },
{
}

/// The facts that a text tells: none where it is no JSON.
pub open spec fn facts_in_text(raw: Seq<char>, source: Seq<char>) -> Seq<fact::FactState> {
    match json::reading(raw) {
        Ok(reply) => reply_facts(reply, source),
        Err(_) => Seq::empty(),
    }
}

/// The facts that a reply tells.
pub fn facts_of_reply(reply: &Json, source: &str) -> (r: Vec<Fact>)
    ensures
        fact_states(r@) == reply_facts(reply@, source@),
{
    let mut out: Vec<Fact> = Vec::new();
    assert(fact_states(out@) =~= Seq::empty());
    if let Some(list) = reply.get("facts") {
        proof {
            json::view_of_lists(list);
        }
        if let Json::Array(items) = list {
            let ghost all = json::values(items@);
            let mut i: usize = 0;
            while i < items.len()
                invariant
                    all == json::values(items@),
                    i <= items@.len(),
                    fact_states(out@) == told_facts(all.take(i as int), source@),
                decreases items@.len() - i,
            {
                assert(all.take(i + 1).drop_last() =~= all.take(i as int));
                assert(all.take(i + 1).last() == items@[i as int]@);
                let item = &items[i];
                if let Some(predicate) = item.get_text("predicate") {
                    if let Some(obj) = item.get_text("object") {
                        let subject = match item.get_text("subject") {
                            Some(s) => s,
                            None => "user",
                        };
                        let ghost before = fact_states(out@);
                        let f = Fact::new(subject, predicate, obj, source);
                        assert(Some(f@) == told_fact(items@[i as int]@, source@));
                        out.push(f);
                        assert(fact_states(out@) =~= before.push(f@));
                    }
                }
                i += 1;
            }
            assert(all.take(i as int) =~= all);
        }
    }
    out
}

/// The facts that a text tells which holds a JSON object with a list of facts.
pub fn parse_facts_json(raw: &str, source: &str) -> (r: Vec<Fact>)
    ensures
        fact_states(r@) == facts_in_text(raw@, source@),
{
    match json::parse(raw) {
        Ok(reply) => facts_of_reply(&reply, source),
        Err(_) => {
            let none: Vec<Fact> = Vec::new();
            assert(fact_states(none@) =~= Seq::empty());
            none
        },
    }
}

} // verus!
