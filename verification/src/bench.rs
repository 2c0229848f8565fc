//! Measuring how well a search finds what is relevant.
//!
//! A benchmark is a text in JSON: a corpus of documents with their vectors, and
//! queries with their languages, vectors and relevant documents. Its numbers are
//! handed on as texts.

use crate::audit::Timestamp;
use crate::chunking;
use crate::document::{self, DocumentEntry, DocumentMemory, SearchFilter, SearchHit};
use crate::embedding::{self, Encoder};
use crate::index::VectorIndex;
use crate::json::{self, Json};
use crate::kernel::Kernel;
use crate::service::{self, read_number};
use crate::text::{self, same_text, text_precedes};
use vstd::prelude::*;

verus! {

broadcast use vstd::string::group_string_axioms;

/// The place, counted from one, of the first ranked id that is relevant, or
/// zero where none is.
pub open spec fn first_place(ranked: Seq<Seq<char>>, relevant: Seq<Seq<char>>) -> nat
    decreases ranked.len(),
{
    if ranked.len() == 0 {
        0
    } else if relevant.contains(ranked[0]) {
        1
    } else {
        let rest = first_place(ranked.skip(1), relevant);
        if rest == 0 {
            0
        } else {
            rest + 1
        }
    }
}

/// A place other than zero is that of a relevant id, and no id before it is
/// relevant. With place zero none is.
pub proof fn first_place_is_first(ranked: Seq<Seq<char>>, relevant: Seq<Seq<char>>)
    ensures
        first_place(ranked, relevant) <= ranked.len(),
        first_place(ranked, relevant) > 0 ==> relevant.contains(
            ranked[first_place(ranked, relevant) - 1],
        ),
        forall|i: int|
            0 <= i < ranked.len() && (first_place(ranked, relevant) == 0 || i < first_place(
                ranked,
                relevant,
            ) - 1) ==> !relevant.contains(#[trigger] ranked[i]),
    decreases ranked.len(),
{
    if ranked.len() > 0 && !relevant.contains(ranked[0]) {
        let rest = ranked.skip(1);
        first_place_is_first(rest, relevant);
        assert forall|i: int|
            0 <= i < ranked.len() && (first_place(ranked, relevant) == 0 || i < first_place(
                ranked,
                relevant,
            ) - 1) implies !relevant.contains(#[trigger] ranked[i]) by {
            if i > 0 {
                assert(rest[i - 1] == ranked[i]);
            }
        }
    }
}

/// Whether a text is among texts.
fn is_among(id: &str, list: &Vec<String>) -> (r: bool)
    ensures
        r == text::texts(list@).contains(id@),
{
    let mut i: usize = 0;
    while i < list.len()
        invariant
            i <= list@.len(),
            forall|j: int| 0 <= j < i ==> (#[trigger] list@[j])@ != id@,
        decreases list@.len() - i,
    {
        if same_text(&list[i], id) {
            assert(text::texts(list@)[i as int] == id@);
            return true;
        }
        i += 1;
    }
    assert forall|j: int| 0 <= j < list@.len() implies text::texts(list@)[j] != id@ by {
        assert(list@[j]@ != id@);
    }
    false
}

/// The place, counted from one, of the first ranked id that is relevant, or
/// zero where none is.
pub fn first_relevant_rank(ranked: &Vec<String>, relevant: &Vec<String>) -> (r: usize)
    ensures
        r == first_place(text::texts(ranked@), text::texts(relevant@)),
{
    let ghost all = text::texts(ranked@);
    let ghost wanted = text::texts(relevant@);
    let mut i: usize = 0;
    assert(all.skip(0) =~= all);
    while i < ranked.len()
        invariant
            all == text::texts(ranked@),
            wanted == text::texts(relevant@),
            i <= ranked@.len(),
            first_place(all, wanted) == (if first_place(all.skip(i as int), wanted) == 0 {
                0
            } else {
                i + first_place(all.skip(i as int), wanted)
            }),
        decreases ranked@.len() - i,
    {
        assert(all.skip(i as int)[0] == ranked@[i as int]@);
        if is_among(&ranked[i], relevant) {
            return i + 1;
        }
        assert(all.skip(i as int).skip(1) =~= all.skip(i + 1));
        i += 1;
    }
    0
}

/// How many of the places are among the first `n`.
pub open spec fn within(places: Seq<usize>, n: nat) -> nat
    decreases places.len(),
{
    if places.len() == 0 {
        0
    } else {
        let last = places.last();
        within(places.drop_last(), n) + (if 1 <= last <= n {
            1nat
        } else {
            0nat
        })
    }
}

/// One more place counts where it is among the first `n`, counted from one; place
/// zero, where nothing was found, never counts.
pub proof fn a_place_counts_among_the_first(places: Seq<usize>, place: usize, n: nat)
    ensures
        within(Seq::empty(), n) == 0,
        0 < place <= n ==> within(places.push(place), n) == within(places, n) + 1,
        place == 0 || place > n ==> within(places.push(place), n) == within(places, n),
{
    assert(places.push(place).drop_last() =~= places);
}

/// Whatever is found among the first places is found among more of them, and
/// no more is found than was asked.
pub proof fn more_places_find_more(places: Seq<usize>, few: nat, many: nat)
    requires
        few <= many,
    ensures
        within(places, few) <= within(places, many) <= places.len(),
    decreases places.len(),
{
    if places.len() > 0 {
        more_places_find_more(places.drop_last(), few, many);
    }
}

/// The places that queries found their first relevant id at, with how many of
/// them are the first, among the first three and among the first five.
#[derive(Debug, Clone)]
pub struct Agg {
    places: Vec<usize>,
    r1: usize,
    r3: usize,
    r5: usize,
}

impl View for Agg {
    type V = Seq<usize>;

    closed spec fn view(&self) -> Seq<usize> {
        self.places@
    }
}

impl Default for Agg {
    fn default() -> (r: Self)
        ensures
            r.wf(),
            r@ == Seq::<usize>::empty(),
    {
        Agg { places: Vec::new(), r1: 0, r3: 0, r5: 0 }
    }
}

impl Agg {
    /// The counters count the places.
    pub closed spec fn wf(&self) -> bool {
        &&& self.r1 == within(self.places@, 1)
        &&& self.r3 == within(self.places@, 3)
        &&& self.r5 == within(self.places@, 5)
    }

    /// Counts a query.
    pub fn add(&mut self, rank: usize)
        requires
            old(self).wf(),
        ensures
            final(self).wf(),
            final(self)@ == old(self)@.push(rank),
    {
        let ghost before = self.places@;
        self.places.push(rank);
        proof {
            more_places_find_more(before, 1, 3);
            more_places_find_more(before, 3, 5);
            assert(self.places@.drop_last() =~= before);
            assert(self.places@.last() == rank);
            assert(before.len() + 1 == self.places.len());
        }
        if rank == 1 {
            self.r1 = self.r1 + 1;
        }
        if rank >= 1 && rank <= 3 {
            self.r3 = self.r3 + 1;
        }
        if rank >= 1 && rank <= 5 {
            self.r5 = self.r5 + 1;
        }
    }

    /// How many queries were counted.
    pub fn n(&self) -> (r: usize)
        ensures
            r == self@.len(),
    {
        self.places.len()
    }

    /// The places, in order.
    pub fn places(&self) -> (r: &Vec<usize>)
        ensures
            r@ == self@,
    {
        &self.places
    }

    /// How many queries found a relevant id at the first place.
    pub fn r1(&self) -> (r: usize)
        requires
            self.wf(),
        ensures
            r == within(self@, 1),
    {
        self.r1
    }

    /// How many queries found a relevant id among the first three.
    pub fn r3(&self) -> (r: usize)
        requires
            self.wf(),
        ensures
            r == within(self@, 3),
    {
        self.r3
    }

    /// How many queries found a relevant id among the first five.
    pub fn r5(&self) -> (r: usize)
        requires
            self.wf(),
        ensures
            r == within(self@, 5),
    {
        self.r5
    }
}

// ---------------------------------------------------------------------
// Counting by language
// ---------------------------------------------------------------------

/// What was counted: the places of all queries, and those of each language in
/// the order of the languages.
#[verifier::ext_equal]
pub struct TallyState {
    pub overall: Seq<usize>,
    pub languages: Seq<(Seq<char>, Seq<usize>)>,
}

/// Nothing was counted.
pub open spec fn nothing_counted() -> TallyState {
    TallyState { overall: Seq::empty(), languages: Seq::empty() }
}

/// The languages after a query of one was counted.
pub open spec fn language_counted(
    languages: Seq<(Seq<char>, Seq<usize>)>,
    lang: Seq<char>,
    place: usize,
) -> Seq<(Seq<char>, Seq<usize>)>
    decreases languages.len(),
{
    if languages.len() == 0 || text::precedes(lang, languages[0].0) {
        seq![(lang, seq![place])] + languages
    } else if languages[0].0 == lang {
        languages.update(0, (lang, languages[0].1.push(place)))
    } else {
        seq![languages[0]] + language_counted(languages.skip(1), lang, place)
    }
}

/// What was counted after another query.
pub open spec fn counted(t: TallyState, lang: Seq<char>, place: nat) -> TallyState {
    TallyState {
        overall: t.overall.push(place as usize),
        languages: language_counted(t.languages, lang, place as usize),
    }
}

/// Each language stands before the next.
pub open spec fn in_language_order(languages: Seq<(Seq<char>, Seq<usize>)>) -> bool {
    forall|i: int, j: int|
        0 <= i && j == i + 1 && j < languages.len() ==> text::precedes(
            (#[trigger] languages[i]).0,
            (#[trigger] languages[j]).0,
        )
}

/// The places that were counted for a language.
pub open spec fn places_of(languages: Seq<(Seq<char>, Seq<usize>)>, lang: Seq<char>) -> Seq<usize>
    decreases languages.len(),
{
    if languages.len() == 0 {
        Seq::empty()
    } else if languages[0].0 == lang {
        languages[0].1
    } else {
        places_of(languages.skip(1), lang)
    }
}

/// How many queries were counted over all languages.
pub open spec fn language_total(languages: Seq<(Seq<char>, Seq<usize>)>) -> nat
    decreases languages.len(),
{
    if languages.len() == 0 {
        0
    } else {
        languages[0].1.len() + language_total(languages.skip(1))
    }
}

/// A query is counted for its language and for no other, once, and the languages
/// stay in order.
pub proof fn a_query_counts_for_its_language(
    languages: Seq<(Seq<char>, Seq<usize>)>,
    lang: Seq<char>,
    place: usize,
    other: Seq<char>,
)
    requires
        in_language_order(languages),
    ensures
        in_language_order(language_counted(languages, lang, place)),
        places_of(language_counted(languages, lang, place), lang) == places_of(
            languages,
            lang,
        ).push(place),
        other != lang ==> places_of(language_counted(languages, lang, place), other) == places_of(
            languages,
            other,
        ),
        language_total(language_counted(languages, lang, place)) == language_total(languages) + 1,
    decreases languages.len(),
{
    let after = language_counted(languages, lang, place);
    if languages.len() == 0 || text::precedes(lang, languages[0].0) {
        assert(after.skip(1) =~= languages);
        absent_language(languages, lang);
        assert(places_of(languages, lang).push(place) =~= seq![place]);
    } else if languages[0].0 == lang {
        assert(after.skip(1) =~= languages.skip(1));
    } else {
        let rest = languages.skip(1);
        text::precedes_is_total(lang, languages[0].0);
        assert forall|i: int, j: int| 0 <= i && j == i + 1 && j < rest.len() implies text::precedes(
            (#[trigger] rest[i]).0,
            (#[trigger] rest[j]).0,
        ) by {
            assert(rest[i] == languages[i + 1] && rest[j] == languages[j + 1]);
        }
        a_query_counts_for_its_language(rest, lang, place, other);
        let more = language_counted(rest, lang, place);
        assert(after.skip(1) =~= more);
        first_after_counting(rest, lang, place);
        assert forall|i: int, j: int| 0 <= i && j == i + 1 && j < after.len() implies text::precedes(
            (#[trigger] after[i]).0,
            (#[trigger] after[j]).0,
        ) by {
            if i > 0 {
                assert(after[i] == more[i - 1] && after[j] == more[j - 1]);
            } else {
                assert(after[1] == more[0]);
                if rest.len() > 0 {
                    assert(languages[1] == rest[0]);
                }
            }
        }
    }
}

/// The first language after counting is the one counted or the one that was
/// first.
proof fn first_after_counting(
    languages: Seq<(Seq<char>, Seq<usize>)>,
    lang: Seq<char>,
    place: usize,
)
    ensures
        language_counted(languages, lang, place).len() > 0,
        language_counted(languages, lang, place)[0].0 == lang || (languages.len() > 0
            && language_counted(languages, lang, place)[0].0 == languages[0].0),
{
}

/// A language before the first is not among the languages.
proof fn absent_language(languages: Seq<(Seq<char>, Seq<usize>)>, lang: Seq<char>)
    requires
        in_language_order(languages),
        languages.len() > 0 ==> text::precedes(lang, languages[0].0),
    ensures
        places_of(languages, lang) == Seq::<usize>::empty(),
    decreases languages.len(),
{
    if languages.len() > 0 {
        let rest = languages.skip(1);
        text::precedes_is_total(lang, languages[0].0);
        assert forall|i: int, j: int| 0 <= i && j == i + 1 && j < rest.len() implies text::precedes(
            (#[trigger] rest[i]).0,
            (#[trigger] rest[j]).0,
        ) by {
            assert(rest[i] == languages[i + 1] && rest[j] == languages[j + 1]);
        }
        if rest.len() > 0 {
            assert(rest[0] == languages[1]);
            text::precedes_is_transitive(lang, languages[0].0, languages[1].0);
        }
        absent_language(rest, lang);
    }
}

/// The counts of queries, overall and by language.
#[derive(Debug, Clone)]
pub struct Tally {
    overall: Agg,
    languages: Vec<(String, Agg)>,
}

impl View for Tally {
    type V = TallyState;

    closed spec fn view(&self) -> TallyState {
        TallyState {
            overall: self.overall@,
            languages: self.languages@.map_values(|e: (String, Agg)| (e.0@, e.1@)),
        }
    }
}

impl Default for Tally {
    fn default() -> (r: Self)
        ensures
            r.wf(),
            r@ == nothing_counted(),
    {
        let r = Tally { overall: Agg::default(), languages: Vec::new() };
        assert(r@ =~= nothing_counted());
        r
    }
}

impl Tally {
    /// All counters count, the languages stand in order, and each query was
    /// counted for one language.
    pub closed spec fn wf(&self) -> bool {
        &&& self.overall.wf()
        &&& forall|i: int| 0 <= i < self.languages@.len() ==> (#[trigger] self.languages@[i]).1.wf()
        &&& in_language_order(self@.languages)
        &&& language_total(self@.languages) == self@.overall.len()
    }

    /// What a well-formed tally has.
    pub proof fn wf_facts(&self)
        requires
            self.wf(),
        ensures
            in_language_order(self@.languages),
            language_total(self@.languages) == self@.overall.len(),
    {
    }

    /// The counters over all queries.
    pub fn overall(&self) -> (r: &Agg)
        requires
            self.wf(),
        ensures
            r.wf(),
            r@ == self@.overall,
    {
        &self.overall
    }

    /// How many languages there are.
    pub fn n_languages(&self) -> (r: usize)
        ensures
            r == self@.languages.len(),
    {
        self.languages.len()
    }

    /// A language, in the order of the languages, and its counters.
    pub fn language(&self, i: usize) -> (r: Option<(&str, &Agg)>)
        requires
            self.wf(),
        ensures
            match r {
                Some(e) => i < self@.languages.len() && e.1.wf() && (e.0@, e.1@)
                    == self@.languages[i as int],
                None => i >= self@.languages.len(),
            },
    {
        if i < self.languages.len() {
            let e = &self.languages[i];
            assert(self@.languages[i as int] == (e.0@, e.1@));
            Some((e.0.as_str(), &e.1))
        } else {
            None
        }
    }
}

/// Counting behind the first `n` languages, which the language neither precedes
/// nor is.
proof fn counted_behind(
    languages: Seq<(Seq<char>, Seq<usize>)>,
    n: int,
    lang: Seq<char>,
    place: usize,
)
    requires
        0 <= n <= languages.len(),
        forall|i: int|
            0 <= i < n ==> (#[trigger] languages[i]).0 != lang && !text::precedes(
                lang,
                languages[i].0,
            ),
    ensures
        language_counted(languages, lang, place) == languages.take(n) + language_counted(
            languages.skip(n),
            lang,
            place,
        ),
    decreases n,
{
    if n == 0 {
        assert(languages.skip(0) =~= languages);
        assert(languages.take(0) + language_counted(languages, lang, place)
            =~= language_counted(languages, lang, place));
    } else {
        let rest = languages.skip(1);
        assert(languages[0].0 != lang);
        assert forall|i: int| 0 <= i < n - 1 implies (#[trigger] rest[i]).0 != lang
            && !text::precedes(lang, rest[i].0) by {
            assert(rest[i] == languages[i + 1]);
        }
        counted_behind(rest, n - 1, lang, place);
        assert(rest.skip(n - 1) =~= languages.skip(n));
        assert(seq![languages[0]] + rest.take(n - 1) =~= languages.take(n));
        assert(language_counted(languages, lang, place) =~= languages.take(n) + language_counted(
            languages.skip(n),
            lang,
            place,
        ));
    }
}

/// Counts a query of a language, whose ranking is given, with what is relevant to
/// it.
pub fn count_query(tally: &mut Tally, lang: &str, ranked: &Vec<String>, relevant: &Vec<String>)
    requires
        old(tally).wf(),
    ensures
        final(tally).wf(),
        final(tally)@ == counted(
            old(tally)@,
            lang@,
            first_place(text::texts(ranked@), text::texts(relevant@)),
        ),
{
    let place = first_relevant_rank(ranked, relevant);
    let ghost before = tally@;
    let ghost start = *tally;
    let n = tally.languages.len();
    let mut i: usize = 0;
    while i < n && !same_text(&tally.languages[i].0, lang) && !text_precedes(
        lang,
        &tally.languages[i].0,
    )
        invariant
            *tally == start,
            before == tally@,
            i <= n == tally.languages@.len(),
            forall|j: int|
                0 <= j < i ==> (#[trigger] before.languages[j]).0 != lang@ && !text::precedes(
                    lang@,
                    before.languages[j].0,
                ),
        decreases n - i,
    {
        assert(before.languages[i as int].0 == tally.languages@[i as int].0@);
        i += 1;
    }
    proof {
        counted_behind(before.languages, i as int, lang@, place);
        a_query_counts_for_its_language(before.languages, lang@, place, lang@);
        assert(before.languages.len() == n);
        if i < n {
            assert(before.languages[i as int].0 == tally.languages@[i as int].0@);
            assert(before.languages.skip(i as int)[0] == before.languages[i as int]);
        }
    }
    tally.overall.add(place);
    if i < n && same_text(&tally.languages[i].0, lang) {
        proof {
            text::precedes_is_total(lang@, lang@);
        }
        tally.languages[i].1.add(place);
        proof {
            let tail = before.languages.skip(i as int);
            assert(tally@.languages =~= before.languages.take(i as int) + tail.update(
                0,
                (lang@, tail[0].1.push(place)),
            ));
        }
    } else {
        let mut fresh = Agg::default();
        fresh.add(place);
        assert(fresh@ =~= seq![place]);
        tally.languages.insert(i, (lang.to_string(), fresh));
        assert(tally@.languages =~= before.languages.take(i as int) + (seq![
            (lang@, seq![place]),
        ] + before.languages.skip(i as int)));
    }
    assert(tally@ =~= counted(
        before,
        lang@,
        first_place(text::texts(ranked@), text::texts(relevant@)),
    ));
}

// ---------------------------------------------------------------------
// Reading a benchmark
// ---------------------------------------------------------------------

/// A document of the corpus.
#[derive(Debug, Clone)]
pub struct BenchDoc {
    pub id: String,
    pub text: String,
    /// The texts of the numbers of its vector.
    pub emb: Vec<String>,
}

/// A query.
#[derive(Debug, Clone)]
pub struct BenchQuery {
    pub lang: String,
    pub text: String,
    /// The ids of the documents that it ought to find.
    pub relevant: Vec<String>,
    /// The texts of the numbers of its vector.
    pub emb: Vec<String>,
}

/// A corpus with queries.
#[derive(Debug, Clone)]
pub struct BenchSet {
    /// The model that the vectors come from, if it is named.
    pub model: Option<String>,
    pub dim: usize,
    pub docs: Vec<BenchDoc>,
    pub queries: Vec<BenchQuery>,
}

/// What a document of the corpus holds.
#[verifier::ext_equal]
pub struct DocState {
    pub id: Seq<char>,
    pub text: Seq<char>,
    pub emb: Seq<Seq<char>>,
}

/// What a query holds.
#[verifier::ext_equal]
pub struct QueryState {
    pub lang: Seq<char>,
    pub text: Seq<char>,
    pub relevant: Seq<Seq<char>>,
    pub emb: Seq<Seq<char>>,
}

/// What a benchmark holds.
#[verifier::ext_equal]
pub struct SetState {
    pub model: Option<Seq<char>>,
    pub dim: nat,
    pub docs: Seq<DocState>,
    pub queries: Seq<QueryState>,
}

impl View for BenchDoc {
    type V = DocState;

    open spec fn view(&self) -> DocState {
        DocState { id: self.id@, text: self.text@, emb: text::texts(self.emb@) }
    }
}

impl View for BenchQuery {
    type V = QueryState;

    open spec fn view(&self) -> QueryState {
        QueryState {
            lang: self.lang@,
            text: self.text@,
            relevant: text::texts(self.relevant@),
            emb: text::texts(self.emb@),
        }
    }
}

/// What the documents in a list hold.
pub open spec fn doc_states(v: Seq<BenchDoc>) -> Seq<DocState> {
    v.map_values(|d: BenchDoc| d@)
}

/// What the queries in a list hold.
pub open spec fn query_states(v: Seq<BenchQuery>) -> Seq<QueryState> {
    v.map_values(|q: BenchQuery| q@)
}

impl View for BenchSet {
    type V = SetState;

    open spec fn view(&self) -> SetState {
        SetState {
            model: match self.model {
                Some(m) => Some(m@),
                None => None,
            },
            dim: self.dim as nat,
            docs: doc_states(self.docs@),
            queries: query_states(self.queries@),
        }
    }
}

/// The items of a member that is an array.
pub open spec fn list_field(v: json::Tree, name: Seq<char>) -> Option<Seq<json::Tree>> {
    match json::field(v, name) {
        Some(json::Tree::Array(items)) => Some(items),
        _ => None,
    }
}

/// The texts of values that are all numbers.
pub open spec fn numbers_in(items: Seq<json::Tree>) -> Option<Seq<Seq<char>>>
    decreases items.len(),
{
    if items.len() == 0 {
        Some(Seq::empty())
    } else {
        match (numbers_in(items.drop_last()), items.last()) {
            (Some(before), json::Tree::Number(n)) => Some(before.push(n)),
            _ => None,
        }
    }
}

/// The texts of values that are all texts.
pub open spec fn texts_in(items: Seq<json::Tree>) -> Option<Seq<Seq<char>>>
    decreases items.len(),
{
    if items.len() == 0 {
        Some(Seq::empty())
    } else {
        match (texts_in(items.drop_last()), items.last()) {
            (Some(before), json::Tree::Text(t)) => Some(before.push(t)),
            _ => None,
        }
    }
}

/// The numbers of a member that is an array of numbers.
pub open spec fn vector_field(v: json::Tree, name: Seq<char>) -> Option<Seq<Seq<char>>> {
    match list_field(v, name) {
        Some(items) => numbers_in(items),
        None => None,
    }
}

/// The texts of a member that is an array of texts.
pub open spec fn texts_field(v: json::Tree, name: Seq<char>) -> Option<Seq<Seq<char>>> {
    match list_field(v, name) {
        Some(items) => texts_in(items),
        None => None,
    }
}

/// The document that a value stands for.
pub open spec fn doc_in(v: json::Tree) -> Option<DocState> {
    match (json::text_field(v, "id"@), json::text_field(v, "text"@), vector_field(v, "emb"@)) {
        (Some(id), Some(text), Some(emb)) => Some(DocState { id, text, emb }),
        _ => None,
    }
}

/// The query that a value stands for.
pub open spec fn query_in(v: json::Tree) -> Option<QueryState> {
    match (
        json::text_field(v, "lang"@),
        json::text_field(v, "text"@),
        texts_field(v, "relevant"@),
        vector_field(v, "emb"@),
    ) {
        (Some(lang), Some(text), Some(relevant), Some(emb)) => Some(
            QueryState { lang, text, relevant, emb },
        ),
        _ => None,
    }
}

/// The documents that values stand for, where all do.
pub open spec fn docs_in(items: Seq<json::Tree>) -> Option<Seq<DocState>>
    decreases items.len(),
{
    if items.len() == 0 {
        Some(Seq::empty())
    } else {
        match (docs_in(items.drop_last()), doc_in(items.last())) {
            (Some(before), Some(d)) => Some(before.push(d)),
            _ => None,
        }
    }
}

/// The queries that values stand for, where all do.
pub open spec fn queries_in(items: Seq<json::Tree>) -> Option<Seq<QueryState>>
    decreases items.len(),
{
    if items.len() == 0 {
        Some(Seq::empty())
    } else {
        match (queries_in(items.drop_last()), query_in(items.last())) {
            (Some(before), Some(q)) => Some(before.push(q)),
            _ => None,
        }
    }
}

/// The documents in a member.
pub open spec fn corpus_in(v: json::Tree) -> Option<Seq<DocState>> {
    match list_field(v, "corpus"@) {
        Some(items) => docs_in(items),
        None => None,
    }
}

/// The queries in a member.
pub open spec fn asked_in(v: json::Tree) -> Option<Seq<QueryState>> {
    match list_field(v, "queries"@) {
        Some(items) => queries_in(items),
        None => None,
    }
}

/// The benchmark that a value stands for. The model need not be named.
pub open spec fn set_in(v: json::Tree) -> Option<SetState> {
    match (service::number_field(v, "dim"@), corpus_in(v), asked_in(v)) {
        (Some(dim), Some(docs), Some(queries)) => Some(
            SetState { model: json::text_field(v, "model"@), dim, docs, queries },
        ),
        _ => None,
    }
}

/// A list is read whole: there is an item for each, and none is another kind.
proof fn numbers_are_read_whole(items: Seq<json::Tree>)
    ensures
        numbers_in(items) matches Some(r) ==> r.len() == items.len() && forall|j: int|
            0 <= j < items.len() ==> #[trigger] items[j] == json::Tree::Number(r[j]),
        numbers_in(items) is None ==> exists|j: int|
            0 <= j < items.len() && !((#[trigger] items[j]) is Number),
    decreases items.len(),
{
    if items.len() > 0 {
        let init = items.drop_last();
        numbers_are_read_whole(init);
        if let Some(r) = numbers_in(items) {
            assert forall|j: int| 0 <= j < items.len() implies #[trigger] items[j]
                == json::Tree::Number(r[j]) by {
                if j < init.len() {
                    assert(init[j] == items[j]);
                }
            }
        } else if numbers_in(init) is None {
            let j = choose|j: int| 0 <= j < init.len() && !((#[trigger] init[j]) is Number);
            assert(items[j] == init[j]);
        } else {
            assert(!(items[items.len() - 1] is Number));
        }
    }
}

proof fn texts_are_read_whole(items: Seq<json::Tree>)
    ensures
        texts_in(items) matches Some(r) ==> r.len() == items.len() && forall|j: int|
            0 <= j < items.len() ==> #[trigger] items[j] == json::Tree::Text(r[j]),
        texts_in(items) is None ==> exists|j: int|
            0 <= j < items.len() && !((#[trigger] items[j]) is Text),
    decreases items.len(),
{
    if items.len() > 0 {
        let init = items.drop_last();
        texts_are_read_whole(init);
        if let Some(r) = texts_in(items) {
            assert forall|j: int| 0 <= j < items.len() implies #[trigger] items[j]
                == json::Tree::Text(r[j]) by {
                if j < init.len() {
                    assert(init[j] == items[j]);
                }
            }
        } else if texts_in(init) is None {
            let j = choose|j: int| 0 <= j < init.len() && !((#[trigger] init[j]) is Text);
            assert(items[j] == init[j]);
        } else {
            assert(!(items[items.len() - 1] is Text));
        }
    }
}

/// The member is a list of numbers with these texts.
pub open spec fn lists_numbers(v: json::Tree, name: Seq<char>, r: Seq<Seq<char>>) -> bool {
    json::field(v, name) matches Some(json::Tree::Array(items)) && items.len() == r.len() && forall|
        j: int,
    |
        0 <= j < r.len() ==> #[trigger] items[j] == json::Tree::Number(r[j])
}

/// The member is a list of these texts.
pub open spec fn lists_texts(v: json::Tree, name: Seq<char>, r: Seq<Seq<char>>) -> bool {
    json::field(v, name) matches Some(json::Tree::Array(items)) && items.len() == r.len() && forall|
        j: int,
    |
        0 <= j < r.len() ==> #[trigger] items[j] == json::Tree::Text(r[j])
}

/// A document has what its members say: id, text and vector.
pub proof fn a_document_is_read_by_its_members(v: json::Tree)
    ensures
        doc_in(v) matches Some(d) ==> {
            &&& json::field(v, "id"@) == Some(json::Tree::Text(d.id))
            &&& json::field(v, "text"@) == Some(json::Tree::Text(d.text))
            &&& lists_numbers(v, "emb"@, d.emb)
        },
{
    if let Some(json::Tree::Array(items)) = json::field(v, "emb"@) {
        numbers_are_read_whole(items);
    }
}

/// A query has what its members say: language, text, relevant ids and vector.
pub proof fn a_query_is_read_by_its_members(v: json::Tree)
    ensures
        query_in(v) matches Some(q) ==> {
            &&& json::field(v, "lang"@) == Some(json::Tree::Text(q.lang))
            &&& json::field(v, "text"@) == Some(json::Tree::Text(q.text))
            &&& lists_texts(v, "relevant"@, q.relevant)
            &&& lists_numbers(v, "emb"@, q.emb)
        },
{
    if let Some(json::Tree::Array(items)) = json::field(v, "emb"@) {
        numbers_are_read_whole(items);
    }
    if let Some(json::Tree::Array(items)) = json::field(v, "relevant"@) {
        texts_are_read_whole(items);
    }
}

/// Every item of a corpus is a document, and every item of a list of queries a
/// query, in order.
proof fn items_are_read_whole(items: Seq<json::Tree>)
    ensures
        docs_in(items) matches Some(r) ==> r.len() == items.len() && forall|j: int|
            0 <= j < items.len() ==> doc_in(#[trigger] items[j]) == Some(r[j]),
        queries_in(items) matches Some(r) ==> r.len() == items.len() && forall|j: int|
            0 <= j < items.len() ==> query_in(#[trigger] items[j]) == Some(r[j]),
    decreases items.len(),
{
    if items.len() > 0 {
        let init = items.drop_last();
        items_are_read_whole(init);
        if let Some(r) = docs_in(items) {
            assert forall|j: int| 0 <= j < items.len() implies doc_in(#[trigger] items[j]) == Some(
                r[j],
            ) by {
                if j < init.len() {
                    assert(init[j] == items[j]);
                }
            }
        }
        if let Some(r) = queries_in(items) {
            assert forall|j: int| 0 <= j < items.len() implies query_in(#[trigger] items[j])
                == Some(r[j]) by {
                if j < init.len() {
                    assert(init[j] == items[j]);
                }
            }
        }
    }
}

/// A benchmark has what its members say: the dimension, a document for each item
/// of the corpus and a query for each item of the queries, in order, and the model
/// where it is named by a text.
pub proof fn a_benchmark_is_read_by_its_members(v: json::Tree, s: SetState)
    requires
        set_in(v) == Some(s),
    ensures
        json::field(v, "dim"@) matches Some(json::Tree::Number(n)) && text::read_decimal(
            n,
            usize::MAX as nat,
        ) == Some(s.dim),
        json::field(v, "corpus"@) matches Some(json::Tree::Array(items)) && items.len()
            == s.docs.len() && forall|i: int|
            0 <= i < items.len() ==> {
                let item = #[trigger] items[i];
                &&& json::field(item, "id"@) == Some(json::Tree::Text(s.docs[i].id))
                &&& json::field(item, "text"@) == Some(json::Tree::Text(s.docs[i].text))
                &&& lists_numbers(item, "emb"@, s.docs[i].emb)
            },
        json::field(v, "queries"@) matches Some(json::Tree::Array(items)) && items.len()
            == s.queries.len() && forall|i: int|
            0 <= i < items.len() ==> {
                let item = #[trigger] items[i];
                &&& json::field(item, "lang"@) == Some(json::Tree::Text(s.queries[i].lang))
                &&& json::field(item, "text"@) == Some(json::Tree::Text(s.queries[i].text))
                &&& lists_texts(item, "relevant"@, s.queries[i].relevant)
                &&& lists_numbers(item, "emb"@, s.queries[i].emb)
            },
        json::field(v, "model"@) matches Some(json::Tree::Text(m)) ==> s.model == Some(m),
        !(json::field(v, "model"@) matches Some(json::Tree::Text(_))) ==> s.model is None,
{
    if let Some(json::Tree::Array(items)) = json::field(v, "corpus"@) {
        items_are_read_whole(items);
        assert forall|i: int| 0 <= i < items.len() implies {
            let item = #[trigger] items[i];
            &&& json::field(item, "id"@) == Some(json::Tree::Text(s.docs[i].id))
            &&& json::field(item, "text"@) == Some(json::Tree::Text(s.docs[i].text))
            &&& lists_numbers(item, "emb"@, s.docs[i].emb)
        } by {
            a_document_is_read_by_its_members(items[i]);
        }
    }
    if let Some(json::Tree::Array(items)) = json::field(v, "queries"@) {
        items_are_read_whole(items);
        assert forall|i: int| 0 <= i < items.len() implies {
            let item = #[trigger] items[i];
            &&& json::field(item, "lang"@) == Some(json::Tree::Text(s.queries[i].lang))
            &&& json::field(item, "text"@) == Some(json::Tree::Text(s.queries[i].text))
            &&& lists_texts(item, "relevant"@, s.queries[i].relevant)
            &&& lists_numbers(item, "emb"@, s.queries[i].emb)
        } by {
            a_query_is_read_by_its_members(items[i]);
        }
    }
}

/// What is said of JSON that is no benchmark.
pub const NO_BENCHMARK: &'static str = "no benchmark: a dimension, a corpus and queries are needed";

/// Among the first items one spoils the whole, so all items do not stand for
/// numbers.
proof fn numbers_spoilt(items: Seq<json::Tree>, n: int)
    requires
        0 <= n <= items.len(),
        numbers_in(items.take(n)) is None,
    ensures
        numbers_in(items) is None,
    decreases items.len() - n,
{
    if n == items.len() {
        assert(items.take(n) =~= items);
    } else {
        assert(items.take(n + 1).drop_last() =~= items.take(n));
        numbers_spoilt(items, n + 1);
    }
}

proof fn texts_spoilt(items: Seq<json::Tree>, n: int)
    requires
        0 <= n <= items.len(),
        texts_in(items.take(n)) is None,
    ensures
        texts_in(items) is None,
    decreases items.len() - n,
{
    if n == items.len() {
        assert(items.take(n) =~= items);
    } else {
        assert(items.take(n + 1).drop_last() =~= items.take(n));
        texts_spoilt(items, n + 1);
    }
}

proof fn docs_spoilt(items: Seq<json::Tree>, n: int)
    requires
        0 <= n <= items.len(),
        docs_in(items.take(n)) is None,
    ensures
        docs_in(items) is None,
    decreases items.len() - n,
{
    if n == items.len() {
        assert(items.take(n) =~= items);
    } else {
        assert(items.take(n + 1).drop_last() =~= items.take(n));
        docs_spoilt(items, n + 1);
    }
}

proof fn queries_spoilt(items: Seq<json::Tree>, n: int)
    requires
        0 <= n <= items.len(),
        queries_in(items.take(n)) is None,
    ensures
        queries_in(items) is None,
    decreases items.len() - n,
{
    if n == items.len() {
        assert(items.take(n) =~= items);
    } else {
        assert(items.take(n + 1).drop_last() =~= items.take(n));
        queries_spoilt(items, n + 1);
    }
}

/// The items of a member that is an array.
fn read_list<'a>(j: &'a Json, name: &str) -> (r: Option<&'a Vec<Json>>)
    ensures
        match r {
            Some(v) => list_field(j@, name@) == Some(json::values(v@)),
            None => list_field(j@, name@) is None,
        },
{
    match j.get(name) {
        Some(x) => {
            proof {
                json::view_of_lists(x);
            }
            match x {
                Json::Array(v) => Some(v),
                _ => None,
            }
        },
        None => None,
    }
}

/// The numbers of a member that is an array of numbers.
fn read_vector(j: &Json, name: &str) -> (r: Option<Vec<String>>)
    ensures
        match r {
            Some(v) => vector_field(j@, name@) == Some(text::texts(v@)),
            None => vector_field(j@, name@) is None,
        },
{
    let list = match read_list(j, name) {
        Some(v) => v,
        None => return None,
    };
    let ghost items = json::values(list@);
    let mut out: Vec<String> = Vec::with_capacity(list.len());
    let mut i: usize = 0;
    assert(text::texts(out@) =~= Seq::empty());
    while i < list.len()
        invariant
            items == json::values(list@),
            vector_field(j@, name@) == numbers_in(items),
            i <= list@.len(),
            numbers_in(items.take(i as int)) == Some(text::texts(out@)),
        decreases list@.len() - i,
    {
        let ghost next = items.take(i + 1);
        let ghost before = text::texts(out@);
        assert(next.drop_last() =~= items.take(i as int));
        assert(next.last() == list@[i as int]@);
        match &list[i] {
            Json::Number(n) => {
                out.push(n.clone());
                assert(text::texts(out@) =~= before.push(n@));
            },
            _ => {
                proof {
                    numbers_spoilt(items, i + 1);
                }
                return None;
            },
        }
        i += 1;
    }
    assert(items.take(i as int) =~= items);
    Some(out)
}

/// The texts of a member that is an array of texts.
fn read_texts(j: &Json, name: &str) -> (r: Option<Vec<String>>)
    ensures
        match r {
            Some(v) => texts_field(j@, name@) == Some(text::texts(v@)),
            None => texts_field(j@, name@) is None,
        },
{
    let list = match read_list(j, name) {
        Some(v) => v,
        None => return None,
    };
    let ghost items = json::values(list@);
    let mut out: Vec<String> = Vec::with_capacity(list.len());
    let mut i: usize = 0;
    assert(text::texts(out@) =~= Seq::empty());
    while i < list.len()
        invariant
            items == json::values(list@),
            texts_field(j@, name@) == texts_in(items),
            i <= list@.len(),
            texts_in(items.take(i as int)) == Some(text::texts(out@)),
        decreases list@.len() - i,
    {
        let ghost next = items.take(i + 1);
        let ghost before = text::texts(out@);
        assert(next.drop_last() =~= items.take(i as int));
        assert(next.last() == list@[i as int]@);
        match &list[i] {
            Json::Text(t) => {
                out.push(t.clone());
                assert(text::texts(out@) =~= before.push(t@));
            },
            _ => {
                proof {
                    texts_spoilt(items, i + 1);
                }
                return None;
            },
        }
        i += 1;
    }
    assert(items.take(i as int) =~= items);
    Some(out)
}

/// The document that a value stands for.
fn read_doc(j: &Json) -> (r: Option<BenchDoc>)
    ensures
        match r {
            Some(d) => doc_in(j@) == Some(d@),
            None => doc_in(j@) is None,
        },
{
    match (j.get_text("id"), j.get_text("text"), read_vector(j, "emb")) {
        (Some(id), Some(text), Some(emb)) => Some(
            BenchDoc { id: id.to_string(), text: text.to_string(), emb },
        ),
        _ => None,
    }
}

/// The query that a value stands for.
fn read_query(j: &Json) -> (r: Option<BenchQuery>)
    ensures
        match r {
            Some(q) => query_in(j@) == Some(q@),
            None => query_in(j@) is None,
        },
{
    match (
        j.get_text("lang"),
        j.get_text("text"),
        read_texts(j, "relevant"),
        read_vector(j, "emb"),
    ) {
        (Some(lang), Some(text), Some(relevant), Some(emb)) => Some(
            BenchQuery { lang: lang.to_string(), text: text.to_string(), relevant, emb },
        ),
        _ => None,
    }
}

/// The documents in a member.
fn read_corpus(j: &Json) -> (r: Option<Vec<BenchDoc>>)
    ensures
        match r {
            Some(v) => corpus_in(j@) == Some(doc_states(v@)),
            None => corpus_in(j@) is None,
        },
{
    let list = match read_list(j, "corpus") {
        Some(v) => v,
        None => return None,
    };
    let ghost items = json::values(list@);
    let mut out: Vec<BenchDoc> = Vec::with_capacity(list.len());
    let mut i: usize = 0;
    assert(doc_states(out@) =~= Seq::empty());
    while i < list.len()
        invariant
            items == json::values(list@),
            corpus_in(j@) == docs_in(items),
            i <= list@.len(),
            docs_in(items.take(i as int)) == Some(doc_states(out@)),
        decreases list@.len() - i,
    {
        let ghost next = items.take(i + 1);
        let ghost before = doc_states(out@);
        assert(next.drop_last() =~= items.take(i as int));
        assert(next.last() == list@[i as int]@);
        match read_doc(&list[i]) {
            Some(d) => {
                out.push(d);
                assert(doc_states(out@) =~= before.push(d@));
            },
            None => {
                proof {
                    docs_spoilt(items, i + 1);
                }
                return None;
            },
        }
        i += 1;
    }
    assert(items.take(i as int) =~= items);
    Some(out)
}

/// The queries in a member.
fn read_queries(j: &Json) -> (r: Option<Vec<BenchQuery>>)
    ensures
        match r {
            Some(v) => asked_in(j@) == Some(query_states(v@)),
            None => asked_in(j@) is None,
        },
{
    let list = match read_list(j, "queries") {
        Some(v) => v,
        None => return None,
    };
    let ghost items = json::values(list@);
    let mut out: Vec<BenchQuery> = Vec::with_capacity(list.len());
    let mut i: usize = 0;
    assert(query_states(out@) =~= Seq::empty());
    while i < list.len()
        invariant
            items == json::values(list@),
            asked_in(j@) == queries_in(items),
            i <= list@.len(),
            queries_in(items.take(i as int)) == Some(query_states(out@)),
        decreases list@.len() - i,
    {
        let ghost next = items.take(i + 1);
        let ghost before = query_states(out@);
        assert(next.drop_last() =~= items.take(i as int));
        assert(next.last() == list@[i as int]@);
        match read_query(&list[i]) {
            Some(q) => {
                out.push(q);
                assert(query_states(out@) =~= before.push(q@));
            },
            None => {
                proof {
                    queries_spoilt(items, i + 1);
                }
                return None;
            },
        }
        i += 1;
    }
    assert(items.take(i as int) =~= items);
    Some(out)
}

/// The benchmark that a JSON value stands for.
pub fn bench_of(j: &Json) -> (r: Result<BenchSet, String>)
    ensures
        match set_in(j@) {
            Some(s) => r matches Ok(b) && b@ == s,
            None => r matches Err(m) && m@ == NO_BENCHMARK@,
        },
{
    let model = match j.get_text("model") {
        Some(m) => Some(m.to_string()),
        None => None,
    };
    match (read_number(j, "dim"), read_corpus(j), read_queries(j)) {
        (Some(dim), Some(docs), Some(queries)) => Ok(BenchSet { model, dim, docs, queries }),
        _ => Err(NO_BENCHMARK.to_string()),
    }
}

/// Reads a benchmark. The error is the parser's message where the text is no
/// JSON.
pub fn read_bench(raw: &str) -> (r: Result<BenchSet, String>)
    ensures
        match json::reading(raw@) {
            Err(e) => r matches Err(m) && m@ == e,
            Ok(t) => match set_in(t) {
                Some(s) => r matches Ok(b) && b@ == s,
                None => r matches Err(m) && m@ == NO_BENCHMARK@,
            },
        },
{
    match json::parse(raw) {
        Ok(j) => bench_of(&j),
        Err(e) => Err(e),
    }
}

// ---------------------------------------------------------------------
// Running a benchmark
// ---------------------------------------------------------------------

/// How many hits a query is given.
pub const TOP: usize = 10;

/// A filter that lets everything in.
pub open spec fn open_filter() -> document::FilterState {
    document::FilterState {
        metadata: Seq::empty(),
        contains_text: None,
        min_score: None,
        doc_ids: None,
    }
}

/// The documents that hits belong to, in the order of the hits.
pub open spec fn ranked_ids(hits: Seq<document::HitState>) -> Seq<Seq<char>> {
    hits.map_values(|h: document::HitState| h.doc_id)
}

/// The documents that hits belong to.
fn ids_of(hits: &Vec<SearchHit>) -> (r: Vec<String>)
    ensures
        text::texts(r@) == ranked_ids(document::hits(hits@)),
{
    let mut out: Vec<String> = Vec::with_capacity(hits.len());
    let mut i: usize = 0;
    while i < hits.len()
        invariant
            i <= hits@.len(),
            out@.len() == i,
            forall|j: int| 0 <= j < i ==> (#[trigger] out@[j])@ == hits@[j].doc_id@,
        decreases hits@.len() - i,
    {
        out.push(hits[i].doc_id.clone());
        i += 1;
    }
    assert(text::texts(out@) =~= ranked_ids(document::hits(hits@)));
    out
}

/// The state of a store after the corpus was taken in with its vectors, each
/// document as one chunk.
pub open spec fn with_vectors(
    v: document::LibraryState,
    docs: Seq<DocState>,
    vectors: Seq<Seq<u32>>,
    now: Timestamp,
) -> document::LibraryState
    decreases docs.len(),
{
    if docs.len() == 0 {
        v
    } else {
        with_vectors(v, docs.drop_last(), vectors, now).with(
            docs.last().id,
            seq![docs.last().text],
            seq![vectors[docs.len() - 1]],
            Seq::empty(),
            now,
        )
    }
}

/// A corpus is taken in whole: each document, where no later one has its id, is
/// held as one chunk with its own vector and the beginning of its text, five
/// hundred characters at most.
pub proof fn a_corpus_is_taken_in_whole(
    v: document::LibraryState,
    docs: Seq<DocState>,
    vectors: Seq<Seq<u32>>,
    now: Timestamp,
    i: int,
)
    requires
        0 <= i < docs.len() == vectors.len(),
        forall|j: int| i < j < docs.len() ==> (#[trigger] docs[j]).id != docs[i].id,
    ensures
        ({
            let w = with_vectors(v, docs, vectors, now);
            &&& document::has_document(w.documents, docs[i].id)
            &&& w.chunks.contains(
                document::ChunkState {
                    id: docs[i].id + "#chunk_"@ + text::decimal(0),
                    doc_id: docs[i].id,
                    idx: 0,
                    text: text::prefix(docs[i].text, 500),
                    embedding: vectors[i],
                },
            )
        }),
    decreases docs.len(),
{
    let init = docs.drop_last();
    let last = docs.last();
    let mid = with_vectors(v, init, vectors, now);
    let w = with_vectors(v, docs, vectors, now);
    let base = mid.cleared(last.id);
    let fresh = document::new_chunks(last.id, seq![last.text], seq![vectors[docs.len() - 1]]);
    let held = document::ChunkState {
        id: docs[i].id + "#chunk_"@ + text::decimal(0),
        doc_id: docs[i].id,
        idx: 0,
        text: text::prefix(docs[i].text, 500),
        embedding: vectors[i],
    };
    assert(w.chunks == base.chunks + fresh);
    if i == docs.len() - 1 {
        assert(fresh[0] == held);
        assert(w.chunks[base.chunks.len() as int] == held);
        assert(w.documents[base.documents.len() as int].doc_id == docs[i].id);
    } else {
        let shown = vectors.drop_last();
        same_vectors(v, init, vectors, shown, now);
        assert forall|j: int| i < j < init.len() implies (#[trigger] init[j]).id != init[i].id by {
            assert(init[j] == docs[j]);
        }
        assert(init[i] == docs[i] && shown[i] == vectors[i]);
        a_corpus_is_taken_in_whole(v, init, shown, now, i);
        assert(docs[docs.len() - 1].id != docs[i].id);
        document::others_stay(mid, last.id, held, docs[i].id);
        let c = base.chunks.index_of(held);
        assert(w.chunks[c] == held);
        let e = choose|e: int|
            0 <= e < base.documents.len() && (#[trigger] base.documents[e]).doc_id == docs[i].id;
        assert(w.documents[e].doc_id == docs[i].id);
    }
}

/// Only the vectors of the documents matter.
proof fn same_vectors(
    v: document::LibraryState,
    docs: Seq<DocState>,
    a: Seq<Seq<u32>>,
    b: Seq<Seq<u32>>,
    now: Timestamp,
)
    requires
        docs.len() <= a.len(),
        docs.len() <= b.len(),
        forall|i: int| 0 <= i < docs.len() ==> a[i] == b[i],
    ensures
        with_vectors(v, docs, a, now) == with_vectors(v, docs, b, now),
    decreases docs.len(),
{
    if docs.len() > 0 {
        same_vectors(v, docs.drop_last(), a, b, now);
    }
}

/// Takes the corpus in with given vectors.
pub fn take_vectors<K: Kernel, E: Encoder, I: VectorIndex>(
    store: &mut DocumentMemory<K, E, I>,
    docs: &Vec<BenchDoc>,
    vectors: &Vec<Vec<u32>>,
    now: Timestamp,
)
    requires
        old(store).wf(),
        docs@.len() == vectors@.len(),
    ensures
        final(store).wf(),
        final(store).same_parts(&*old(store)),
        final(store)@ == with_vectors(
            old(store)@,
            doc_states(docs@),
            embedding::vectors(vectors@),
            now,
        ),
{
    let ghost v = store@;
    let ghost all = doc_states(docs@);
    let ghost vecs = embedding::vectors(vectors@);
    let mut i: usize = 0;
    assert(all.take(0).len() == 0);
    while i < docs.len()
        invariant
            v == old(store)@,
            all == doc_states(docs@),
            vecs == embedding::vectors(vectors@),
            docs@.len() == vectors@.len(),
            store.wf(),
            store.same_parts(&*old(store)),
            i <= docs@.len(),
            store@ == with_vectors(v, all.take(i as int), vecs, now),
        decreases docs@.len() - i,
    {
        let d = &docs[i];
        let mut texts: Vec<String> = Vec::new();
        texts.push(d.text.clone());
        let mut vector: Vec<Vec<u32>> = Vec::new();
        vector.push(vectors[i].clone());
        let none: Vec<(String, Json)> = Vec::new();
        proof {
            assert(all.take(i + 1).drop_last() =~= all.take(i as int));
            assert(all.take(i + 1).last() == d@);
            assert(text::texts(texts@) =~= seq![d.text@]);
            assert(embedding::vectors(vector@) =~= seq![vecs[i as int]]);
            assert(json::members(none@) =~= Seq::empty());
        }
        store.add_document_with_embeddings(&d.id, texts, vector, none, now);
        i += 1;
    }
    assert(all.take(i as int) =~= all);
}

/// `w` is a state of a store after the corpus was taken in with the vectors that
/// the encoder gives.
pub open spec fn texts_taken<E: Encoder>(
    coder: E,
    v: document::LibraryState,
    docs: Seq<DocState>,
    now: Timestamp,
    w: document::LibraryState,
) -> bool
    decreases docs.len(),
{
    if docs.len() == 0 {
        w == v
    } else {
        exists|mid: document::LibraryState, n: nat|
            texts_taken(coder, v, docs.drop_last(), now, mid) && #[trigger] document::add_gives(
                coder,
                mid,
                docs.last().id,
                docs.last().text,
                Seq::empty(),
                now,
                w,
                n,
            )
    }
}

/// Taking texts in keeps how they are cut.
proof fn texts_taken_keeps_the_cut<E: Encoder>(
    coder: E,
    v: document::LibraryState,
    docs: Seq<DocState>,
    now: Timestamp,
    w: document::LibraryState,
)
    requires
        texts_taken(coder, v, docs, now, w),
    ensures
        w.chunk_size == v.chunk_size,
        w.chunk_overlap == v.chunk_overlap,
    decreases docs.len(),
{
    if docs.len() > 0 {
        let (mid, n) = choose|mid: document::LibraryState, n: nat|
            texts_taken(coder, v, docs.drop_last(), now, mid) && #[trigger] document::add_gives(
                coder,
                mid,
                docs.last().id,
                docs.last().text,
                Seq::empty(),
                now,
                w,
                n,
            );
        texts_taken_keeps_the_cut(coder, v, docs.drop_last(), now, mid);
    }
}

/// Every document of a corpus that has words is held after the corpus was taken
/// in, where no later one has its id.
pub proof fn every_text_with_words_is_taken_in<E: Encoder>(
    coder: E,
    v: document::LibraryState,
    docs: Seq<DocState>,
    now: Timestamp,
    w: document::LibraryState,
    i: int,
)
    requires
        texts_taken(coder, v, docs, now, w),
        0 <= i < docs.len(),
        chunking::chunks_of(
            chunking::blocks(docs[i].text),
            v.chunk_size,
            v.chunk_overlap,
        ).len() > 0,
        forall|j: int| i < j < docs.len() ==> (#[trigger] docs[j]).id != docs[i].id,
    ensures
        document::has_document(w.documents, docs[i].id),
    decreases docs.len(),
{
    let init = docs.drop_last();
    let last = docs.last();
    let (mid, n) = choose|mid: document::LibraryState, n: nat|
        texts_taken(coder, v, init, now, mid) && #[trigger] document::add_gives(
            coder,
            mid,
            last.id,
            last.text,
            Seq::empty(),
            now,
            w,
            n,
        );
    texts_taken_keeps_the_cut(coder, v, init, now, mid);
    let base = mid.cleared(last.id);
    if i == docs.len() - 1 {
        assert(w.documents[base.documents.len() as int].doc_id == docs[i].id);
    } else {
        assert(init[i] == docs[i]);
        assert forall|j: int| i < j < init.len() implies (#[trigger] init[j]).id != init[i].id by {
            assert(init[j] == docs[j]);
        }
        every_text_with_words_is_taken_in(coder, v, init, now, mid, i);
        assert(docs[docs.len() - 1].id != docs[i].id);
        let any = document::ChunkState {
            id: docs[i].id,
            doc_id: docs[i].id,
            idx: 0,
            text: docs[i].text,
            embedding: Seq::empty(),
        };
        document::others_stay(mid, last.id, any, docs[i].id);
        let e = choose|e: int|
            0 <= e < base.documents.len() && (#[trigger] base.documents[e]).doc_id == docs[i].id;
        assert(w.documents[e].doc_id == docs[i].id);
    }
}

/// Takes the corpus in with the vectors that the encoder gives.
pub fn take_texts<K: Kernel, E: Encoder, I: VectorIndex>(
    store: &mut DocumentMemory<K, E, I>,
    docs: &Vec<BenchDoc>,
    now: Timestamp,
)
    requires
        old(store).wf(),
    ensures
        final(store).wf(),
        final(store).same_parts(&*old(store)),
        texts_taken(old(store).coder(), old(store)@, doc_states(docs@), now, final(store)@),
{
    let ghost v = store@;
    let ghost coder = store.coder();
    let ghost all = doc_states(docs@);
    let mut i: usize = 0;
    assert(all.take(0).len() == 0);
    while i < docs.len()
        invariant
            v == old(store)@,
            coder == old(store).coder(),
            all == doc_states(docs@),
            store.wf(),
            store.same_parts(&*old(store)),
            i <= docs@.len(),
            texts_taken(coder, v, all.take(i as int), now, store@),
        decreases docs@.len() - i,
    {
        let d = &docs[i];
        let none: Vec<(String, Json)> = Vec::new();
        let ghost mid = store@;
        proof {
            assert(all.take(i + 1).drop_last() =~= all.take(i as int));
            assert(all.take(i + 1).last() == d@);
            assert(json::members(none@) =~= Seq::empty());
        }
        let n = store.add_document(&d.id, &d.text, none, now);
        assert(texts_taken(coder, v, all.take(i + 1), now, store@)) by {
            let docs = all.take(i + 1);
            assert(texts_taken(coder, v, docs.drop_last(), now, mid));
            assert(document::add_gives(
                coder,
                mid,
                docs.last().id,
                docs.last().text,
                Seq::empty(),
                now,
                store@,
                n as nat,
            ));
        }
        i += 1;
    }
    assert(all.take(i as int) =~= all);
}

/// `t` counts what searches by the vectors of queries find.
pub open spec fn vectors_measured<K: Kernel, I: VectorIndex>(
    k: K,
    ix: Option<I>,
    v: document::LibraryState,
    queries: Seq<QueryState>,
    vectors: Seq<Seq<u32>>,
    t: TallyState,
) -> bool
    decreases queries.len(),
{
    if queries.len() == 0 {
        t == nothing_counted()
    } else {
        let q = queries.last();
        exists|before: TallyState, hits: Seq<document::HitState>|
            vectors_measured(k, ix, v, queries.drop_last(), vectors, before)
                && #[trigger] document::search_gives(
                k,
                ix,
                v,
                vectors[queries.len() - 1],
                TOP,
                open_filter(),
                hits,
            ) && t == #[trigger] counted(before, q.lang, first_place(ranked_ids(hits), q.relevant))
    }
}

/// Every query is measured, in order: what is counted for query number `i` is the
/// place of the first of its relevant documents among the ten hits of a search by
/// its own vector, under no condition.
pub proof fn every_query_is_measured<K: Kernel, I: VectorIndex>(
    k: K,
    ix: Option<I>,
    v: document::LibraryState,
    queries: Seq<QueryState>,
    vectors: Seq<Seq<u32>>,
    t: TallyState,
    i: int,
) -> (hits: Seq<document::HitState>)
    requires
        vectors_measured(k, ix, v, queries, vectors, t),
        0 <= i < queries.len(),
        queries.len() <= vectors.len(),
    ensures
        t.overall.len() == queries.len(),
        document::search_gives(
            k,
            ix,
            v,
            vectors[i],
            10,
            (document::FilterState {
                metadata: Seq::empty(),
                contains_text: None,
                min_score: None,
                doc_ids: None,
            }),
            hits,
        ),
        hits.len() <= usize::MAX ==> ({
            let place = t.overall[i] as int;
            &&& place <= hits.len()
            &&& place > 0 ==> queries[i].relevant.contains(hits[place - 1].doc_id)
            &&& forall|j: int|
                0 <= j < hits.len() && (place == 0 || j < place - 1)
                    ==> !queries[i].relevant.contains((#[trigger] hits[j]).doc_id)
        }),
    decreases queries.len(),
{
    let q = queries.last();
    let init = queries.drop_last();
    let (before, found) = choose|before: TallyState, hits: Seq<document::HitState>|
        vectors_measured(k, ix, v, init, vectors, before) && #[trigger] document::search_gives(
            k,
            ix,
            v,
            vectors[queries.len() - 1],
            TOP,
            open_filter(),
            hits,
        ) && t == #[trigger] counted(before, q.lang, first_place(ranked_ids(hits), q.relevant));
    measured_all(k, ix, v, init, vectors, before);
    if i == queries.len() - 1 {
        let ids = ranked_ids(found);
        first_place_is_first(ids, q.relevant);
        assert(t.overall[i] == first_place(ids, q.relevant) as usize);
        if found.len() <= usize::MAX {
            let place = t.overall[i] as int;
            assert(place == first_place(ids, q.relevant));
            assert forall|j: int|
                0 <= j < found.len() && (place == 0 || j < place - 1) implies !q.relevant.contains(
                (#[trigger] found[j]).doc_id,
            ) by {
                assert(ids[j] == found[j].doc_id);
            }
        }
        found
    } else {
        assert(init[i] == queries[i]);
        assert(t.overall[i] == before.overall[i]);
        every_query_is_measured(k, ix, v, init, vectors, before, i)
    }
}

/// As many queries are counted as were asked.
proof fn measured_all<K: Kernel, I: VectorIndex>(
    k: K,
    ix: Option<I>,
    v: document::LibraryState,
    queries: Seq<QueryState>,
    vectors: Seq<Seq<u32>>,
    t: TallyState,
)
    requires
        vectors_measured(k, ix, v, queries, vectors, t),
    ensures
        t.overall.len() == queries.len(),
    decreases queries.len(),
{
    if queries.len() > 0 {
        let q = queries.last();
        let (before, found) = choose|before: TallyState, hits: Seq<document::HitState>|
            vectors_measured(k, ix, v, queries.drop_last(), vectors, before)
                && #[trigger] document::search_gives(
                k,
                ix,
                v,
                vectors[queries.len() - 1],
                TOP,
                open_filter(),
                hits,
            ) && t == #[trigger] counted(
                before,
                q.lang,
                first_place(ranked_ids(hits), q.relevant),
            );
        measured_all(k, ix, v, queries.drop_last(), vectors, before);
    }
}

/// Searches by the vectors of queries and counts what is found.
pub fn measure_vectors<K: Kernel, E: Encoder, I: VectorIndex>(
    store: &DocumentMemory<K, E, I>,
    queries: &Vec<BenchQuery>,
    vectors: &Vec<Vec<u32>>,
) -> (r: Tally)
    requires
        store.wf(),
        queries@.len() == vectors@.len(),
    ensures
        r.wf(),
        vectors_measured(
            store.arithmetic(),
            store.finder(),
            store@,
            query_states(queries@),
            embedding::vectors(vectors@),
            r@,
        ),
{
    let ghost all = query_states(queries@);
    let ghost vecs = embedding::vectors(vectors@);
    let mut tally = Tally::default();
    let filter = SearchFilter::default();
    assert(filter@ =~= open_filter());
    let mut i: usize = 0;
    assert(all.take(0).len() == 0);
    while i < queries.len()
        invariant
            all == query_states(queries@),
            vecs == embedding::vectors(vectors@),
            queries@.len() == vectors@.len(),
            store.wf(),
            filter@ == open_filter(),
            tally.wf(),
            i <= queries@.len(),
            vectors_measured(
                store.arithmetic(),
                store.finder(),
                store@,
                all.take(i as int),
                vecs,
                tally@,
            ),
        decreases queries@.len() - i,
    {
        let q = &queries[i];
        let hits = store.search(&vectors[i], TOP, &filter);
        let ghost before = tally@;
        proof {
            assert(all.take(i + 1).drop_last() =~= all.take(i as int));
            assert(all.take(i + 1).last() == q@);
            assert(vecs[i as int] == vectors@[i as int]@);
            assert(document::search_gives(
                store.arithmetic(),
                store.finder(),
                store@,
                vecs[i as int],
                TOP,
                open_filter(),
                document::hits(hits@),
            ));
        }
        count_query(&mut tally, &q.lang, &ids_of(&hits), &q.relevant);
        assert(tally@ == counted(
            before,
            q@.lang,
            first_place(ranked_ids(document::hits(hits@)), q@.relevant),
        ));
        i += 1;
    }
    assert(all.take(i as int) =~= all);
    tally
}

/// `t` counts what searches by the texts of queries find.
pub open spec fn texts_measured<
    K: Kernel,
    E: Encoder,
    I: VectorIndex,
    F: Fn(&DocumentEntry) -> bool,
>(
    k: K,
    coder: E,
    ix: Option<I>,
    v: document::LibraryState,
    queries: Seq<QueryState>,
    filter: Option<F>,
    t: TallyState,
) -> bool
    decreases queries.len(),
{
    if queries.len() == 0 {
        t == nothing_counted()
    } else {
        let q = queries.last();
        exists|before: TallyState, hits: Seq<document::HitState>|
            texts_measured(k, coder, ix, v, queries.drop_last(), filter, before)
                && #[trigger] document::semantic_gives(k, coder, ix, v, q.text, TOP, filter, hits)
                && t == #[trigger] counted(
                before,
                q.lang,
                first_place(ranked_ids(hits), q.relevant),
            )
    }
}

/// Every query is measured, in order: what is counted for query number `i` is the
/// place of the first of its relevant documents among the ten hits of a search by
/// its own text.
pub proof fn every_text_is_measured<
    K: Kernel,
    E: Encoder,
    I: VectorIndex,
    F: Fn(&DocumentEntry) -> bool,
>(
    k: K,
    coder: E,
    ix: Option<I>,
    v: document::LibraryState,
    queries: Seq<QueryState>,
    filter: Option<F>,
    t: TallyState,
    i: int,
) -> (hits: Seq<document::HitState>)
    requires
        texts_measured(k, coder, ix, v, queries, filter, t),
        0 <= i < queries.len(),
    ensures
        t.overall.len() == queries.len(),
        document::semantic_gives(k, coder, ix, v, queries[i].text, 10, filter, hits),
        hits.len() <= usize::MAX ==> ({
            let place = t.overall[i] as int;
            &&& place <= hits.len()
            &&& place > 0 ==> queries[i].relevant.contains(hits[place - 1].doc_id)
            &&& forall|j: int|
                0 <= j < hits.len() && (place == 0 || j < place - 1)
                    ==> !queries[i].relevant.contains((#[trigger] hits[j]).doc_id)
        }),
    decreases queries.len(),
{
    let q = queries.last();
    let init = queries.drop_last();
    let (before, found) = choose|before: TallyState, hits: Seq<document::HitState>|
        texts_measured(k, coder, ix, v, init, filter, before) && #[trigger] document::semantic_gives(
            k,
            coder,
            ix,
            v,
            q.text,
            TOP,
            filter,
            hits,
        ) && t == #[trigger] counted(before, q.lang, first_place(ranked_ids(hits), q.relevant));
    if init.len() == 0 {
        assert(before.overall.len() == 0);
    }
    if i == queries.len() - 1 {
        if init.len() > 0 {
            every_text_is_measured(k, coder, ix, v, init, filter, before, 0);
        }
        let ids = ranked_ids(found);
        first_place_is_first(ids, q.relevant);
        assert(t.overall[i] == first_place(ids, q.relevant) as usize);
        if found.len() <= usize::MAX {
            let place = t.overall[i] as int;
            assert(place == first_place(ids, q.relevant));
            assert forall|j: int|
                0 <= j < found.len() && (place == 0 || j < place - 1) implies !q.relevant.contains(
                (#[trigger] found[j]).doc_id,
            ) by {
                assert(ids[j] == found[j].doc_id);
            }
        }
        found
    } else {
        assert(init[i] == queries[i]);
        let hits = every_text_is_measured(k, coder, ix, v, init, filter, before, i);
        assert(t.overall[i] == before.overall[i]);
        hits
    }
}

/// Searches by the texts of queries, without a condition on the documents, and
/// counts what is found.
pub fn measure_texts<K: Kernel, E: Encoder, I: VectorIndex, F: Fn(&DocumentEntry) -> bool>(
    store: &DocumentMemory<K, E, I>,
    queries: &Vec<BenchQuery>,
) -> (r: Tally)
    requires
        store.wf(),
    ensures
        r.wf(),
        texts_measured(
            store.arithmetic(),
            store.coder(),
            store.finder(),
            store@,
            query_states(queries@),
            None::<F>,
            r@,
        ),
{
    let ghost all = query_states(queries@);
    let mut tally = Tally::default();
    let mut i: usize = 0;
    assert(all.take(0).len() == 0);
    while i < queries.len()
        invariant
            all == query_states(queries@),
            store.wf(),
            tally.wf(),
            i <= queries@.len(),
            texts_measured(
                store.arithmetic(),
                store.coder(),
                store.finder(),
                store@,
                all.take(i as int),
                None::<F>,
                tally@,
            ),
        decreases queries@.len() - i,
    {
        let q = &queries[i];
        let hits = store.semantic_search(&q.text, TOP, None::<F>);
        let ghost before = tally@;
        proof {
            assert(all.take(i + 1).drop_last() =~= all.take(i as int));
            assert(all.take(i + 1).last() == q@);
            assert(document::semantic_gives(
                store.arithmetic(),
                store.coder(),
                store.finder(),
                store@,
                q@.text,
                TOP,
                None::<F>,
                document::hits(hits@),
            ));
        }
        count_query(&mut tally, &q.lang, &ids_of(&hits), &q.relevant);
        assert(tally@ == counted(
            before,
            q@.lang,
            first_place(ranked_ids(document::hits(hits@)), q@.relevant),
        ));
        i += 1;
    }
    assert(all.take(i as int) =~= all);
    tally
}

} // verus!
