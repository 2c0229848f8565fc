//! Text operations on sequences of `char`, with their specifications.

use vstd::prelude::*;

verus! {

broadcast use vstd::string::group_string_axioms;

// ---------------------------------------------------------------------
// Trusted items for the standard library's string functions
// ---------------------------------------------------------------------

/// `String::push` appends one character.
pub assume_specification[ String::push ](s: &mut String, c: char)
    ensures
        final(s)@ == old(s)@.push(c),
;

/// Every character is an ASCII character.
pub open spec fn all_ascii(s: Seq<char>) -> bool {
    forall|i: int| 0 <= i < s.len() ==> (#[trigger] s[i] as u32) < 128
}

/// An ASCII letter in lower case. Other characters stay.
pub open spec fn ascii_lower(c: char) -> char {
    if 'A' <= c && c <= 'Z' {
        ((c as u32) + 32) as char
    } else {
        c
    }
}

/// An ASCII letter in upper case. Other characters stay.
pub open spec fn ascii_upper(c: char) -> char {
    if 'a' <= c && c <= 'z' {
        ((c as u32) - 32) as char
    } else {
        c
    }
}

/// The name for what `str::to_lowercase` returns for a text that is not all
/// ASCII. Unicode's lower-case mapping is fixed by tables, so the result has a
/// name and no formula.
pub uninterp spec fn lowercase(s: Seq<char>) -> Seq<char>;

/// A text in lower case.
pub open spec fn lowered(s: Seq<char>) -> Seq<char> {
    if all_ascii(s) {
        s.map_values(|c: char| ascii_lower(c))
    } else {
        lowercase(s)
    }
}

/// Calls `str::to_lowercase`. The contract claims that in a text of ASCII
/// characters the letters `A` to `Z` become `a` to `z` and all else stays, and
/// that for any other text the result is a function of the characters; which
/// one is left unsaid.
#[verifier::external_body]
pub(crate) fn to_lowercase(s: &str) -> (r: String)
    ensures
        all_ascii(s@) ==> r@ == s@.map_values(|c: char| ascii_lower(c)),
        !all_ascii(s@) ==> r@ == lowercase(s@),
{
    s.to_lowercase()
}

/// The name for what `char::is_alphanumeric` returns for a character outside
/// ASCII: Unicode's `Alphabetic` property or a numeric general category,
/// decided by tables.
pub uninterp spec fn alphanumeric(c: char) -> bool;

/// Whether a character is a letter or a digit.
pub open spec fn letter_or_digit(c: char) -> bool {
    if (c as u32) < 128 {
        ('a' <= c && c <= 'z') || ('A' <= c && c <= 'Z') || ('0' <= c && c <= '9')
    } else {
        alphanumeric(c)
    }
}

/// Calls `char::is_alphanumeric`. The contract claims that of the ASCII
/// characters it holds for the letters and digits, and that elsewhere the
/// answer is a function of the character.
#[verifier::external_body]
pub(crate) fn is_alphanumeric(c: char) -> (r: bool)
    ensures
        (c as u32) < 128 ==> r == (('a' <= c && c <= 'z') || ('A' <= c && c <= 'Z') || ('0' <= c
            && c <= '9')),
        (c as u32) >= 128 ==> r == alphanumeric(c),
{
    c.is_alphanumeric()
}

/// A text and its ASCII letters in upper case are the same in lower case, where
/// the text is all ASCII.
pub proof fn lowered_ignores_ascii_case(s: Seq<char>)
    requires
        all_ascii(s),
    ensures
        lowered(s.map_values(|c: char| ascii_upper(c))) == lowered(s),
{
    let up = s.map_values(|c: char| ascii_upper(c));
    assert forall|i: int| 0 <= i < s.len() implies (#[trigger] up[i] as u32) < 128 && ascii_lower(
        up[i],
    ) == ascii_lower(s[i]) by {
        assert((s[i] as u32) < 128);
    }
    assert(lowered(up) =~= lowered(s));
}

/// In a text that is all ASCII, each letter from `A` to `Z` becomes the one that
/// stands thirty-two places behind it, and every other character stays.
pub proof fn letters_are_lowered_one_by_one(s: Seq<char>, i: int)
    requires
        all_ascii(s),
        0 <= i < s.len(),
    ensures
        lowered(s).len() == s.len(),
        65 <= (s[i] as u32) <= 90 ==> lowered(s)[i] as u32 == s[i] as u32 + 32,
        !(65 <= (s[i] as u32) <= 90) ==> lowered(s)[i] == s[i],
{
    assert('A' as u32 == 65 && 'Z' as u32 == 90);
    assert(lowered(s)[i] == ascii_lower(s[i]));
}

/// Lowering twice is lowering once, for a text that is all ASCII; and one
/// without capital letters stays as it is.
pub proof fn lowered_is_idempotent(s: Seq<char>)
    requires
        all_ascii(s),
    ensures
        all_ascii(lowered(s)),
        lowered(lowered(s)) == lowered(s),
        (forall|i: int| 0 <= i < s.len() ==> !('A' <= #[trigger] s[i] && s[i] <= 'Z'))
            ==> lowered(s) == s,
{
    let low = lowered(s);
    assert forall|i: int| 0 <= i < s.len() implies (#[trigger] low[i] as u32) < 128 && ascii_lower(
        low[i],
    ) == low[i] by {
        assert((s[i] as u32) < 128);
    }
    assert(lowered(low) =~= low);
    if forall|i: int| 0 <= i < s.len() ==> !('A' <= #[trigger] s[i] && s[i] <= 'Z') {
        assert(low =~= s);
    }
}

/// The name for what `format!("{:?}", s)` returns: the text in double quotes
/// with its special characters escaped.
pub uninterp spec fn quoted(s: Seq<char>) -> Seq<char>;

/// Calls the `Debug` formatting of `str`. The contract claims only that the
/// result is a function of the characters.
#[verifier::external_body]
pub(crate) fn quote(s: &str) -> (r: String)
    ensures
        r@ == quoted(s@),
{
    format!("{:?}", s)
}

// ---------------------------------------------------------------------
// Characters and strings
// ---------------------------------------------------------------------

/// The characters of a string.
pub fn chars_of(s: &str) -> (r: Vec<char>)
    ensures
        r@ == s@,
{
    let mut out: Vec<char> = Vec::new();
    for c in it: s.chars()
        invariant
            out@ == it.seq().take(it.index() as int),
            it.seq() == s@,
    {
        out.push(c);
    }
    out
}

/// The string made of the given characters.
pub fn string_of(cs: &Vec<char>) -> (r: String)
    ensures
        r@ == cs@,
{
    slice_to_string(cs, 0, cs.len())
}

/// The string made of `cs[from..to]`.
pub fn slice_to_string(cs: &Vec<char>, from: usize, to: usize) -> (r: String)
    requires
        from <= to <= cs@.len(),
    ensures
        r@ == cs@.subrange(from as int, to as int),
{
    let mut out = String::new();
    let mut i: usize = from;
    while i < to
        invariant
            from <= i <= to <= cs@.len(),
            out@ == cs@.subrange(from as int, i as int),
        decreases to - i,
    {
        out.push(cs[i]);
        i += 1;
    }
    out
}

/// Whether two strings hold the same characters.
pub fn same_text(a: &str, b: &str) -> (r: bool)
    ensures
        r == (a@ == b@),
{
    let x = chars_of(a);
    let y = chars_of(b);
    if x.len() != y.len() {
        return false;
    }
    let mut i: usize = 0;
    while i < x.len()
        invariant
            x@ == a@,
            y@ == b@,
            x@.len() == y@.len(),
            i <= x@.len(),
            forall|j: int| 0 <= j < i ==> x@[j] == y@[j],
        decreases x@.len() - i,
    {
        if x[i] != y[i] {
            assert(a@[i as int] != b@[i as int]);
            return false;
        }
        i += 1;
    }
    assert(a@ =~= b@);
    true
}

/// The first `n` characters of `s`, or all of them when there are fewer.
pub open spec fn prefix(s: Seq<char>, n: nat) -> Seq<char> {
    if s.len() > n {
        s.take(n as int)
    } else {
        s
    }
}

/// A cut text is the beginning of the text: all of it where it is no longer than
/// the bound, and as many characters as the bound where it is.
pub proof fn a_cut_text_is_the_beginning(s: Seq<char>, n: nat)
    ensures
        prefix(s, n).len() == (if s.len() < n {
            s.len()
        } else {
            n
        }),
        forall|i: int| 0 <= i < prefix(s, n).len() ==> (#[trigger] prefix(s, n)[i]) == s[i],
{
}

/// Cuts `s` to its first `n` characters.
pub fn truncated(s: &str, n: usize) -> (r: String)
    ensures
        r@ == prefix(s@, n as nat),
{
    let cs = chars_of(s);
    if cs.len() > n {
        slice_to_string(&cs, 0, n)
    } else {
        string_of(&cs)
    }
}

// ---------------------------------------------------------------------
// Decimal numbers
// ---------------------------------------------------------------------

/// The decimal digit for a value below ten.
pub open spec fn digit(d: nat) -> char {
    (48 + d) as char
}

/// The decimal representation of `n`, without leading zeros.
pub open spec fn decimal(n: nat) -> Seq<char>
    decreases n,
{
    if n < 10 {
        seq![digit(n)]
    } else {
        decimal(n / 10).push(digit(n % 10))
    }
}

/// `s` with zeros put in front until it has at least `width` characters.
pub open spec fn zero_padded(s: Seq<char>, width: nat) -> Seq<char> {
    if s.len() >= width {
        s
    } else {
        Seq::new((width - s.len()) as nat, |i: int| '0') + s
    }
}

fn digit_char(d: u64) -> (c: char)
    requires
        d < 10,
    ensures
        c == digit(d as nat),
{
    match d {
        0 => '0',
        1 => '1',
        2 => '2',
        3 => '3',
        4 => '4',
        5 => '5',
        6 => '6',
        7 => '7',
        8 => '8',
        _ => '9',
    }
}

/// Writes `n` in decimal.
pub fn decimal_string(n: u64) -> (r: String)
    ensures
        r@ == decimal(n as nat),
    decreases n,
{
    if n < 10 {
        let mut out = String::new();
        out.push(digit_char(n));
        assert(out@ =~= seq![digit(n as nat)]);
        out
    } else {
        let mut out = decimal_string(n / 10);
        out.push(digit_char(n % 10));
        out
    }
}

/// Writes `n` in decimal with at least `width` digits.
pub fn padded_decimal(n: u64, width: usize) -> (r: String)
    ensures
        r@ == zero_padded(decimal(n as nat), width as nat),
{
    let digits = decimal_string(n);
    let cs = chars_of(&digits);
    let mut out = String::new();
    if cs.len() < width {
        let missing: usize = width - cs.len();
        let mut i: usize = 0;
        while i < missing
            invariant
                i <= missing,
                out@ == Seq::new(i as nat, |j: int| '0'),
            decreases missing - i,
        {
            out.push('0');
            i += 1;
            assert(out@ =~= Seq::new(i as nat, |j: int| '0'));
        }
    }
    out.append(&digits);
    assert(out@ =~= zero_padded(decimal(n as nat), width as nat));
    out
}

// ---------------------------------------------------------------------
// Decimal numbers tell numbers apart
// ---------------------------------------------------------------------

/// The number that decimal digits stand for.
pub open spec fn decimal_value(s: Seq<char>) -> int
    decreases s.len(),
{
    if s.len() == 0 {
        0
    } else {
        10 * decimal_value(s.drop_last()) + (s.last() as int - 48)
    }
}

/// A number's decimal representation stands for the number.
pub proof fn decimal_value_of_decimal(n: nat)
    ensures
        decimal_value(decimal(n)) == n,
        decimal(n).len() > 0,
        forall|i: int| 0 <= i < decimal(n).len() ==> '0' <= #[trigger] decimal(n)[i] <= '9',
    decreases n,
{
    if n < 10 {
        assert(decimal(n).drop_last() =~= Seq::<char>::empty());
        assert(decimal(n).last() == digit(n));
        assert(decimal_value(Seq::<char>::empty()) == 0);
    } else {
        decimal_value_of_decimal(n / 10);
        assert(decimal(n).drop_last() =~= decimal(n / 10));
        assert(decimal(n).last() == digit(n % 10));
    }
}

/// Zeros in front do not change what digits stand for.
pub proof fn decimal_value_of_padded(s: Seq<char>, width: nat)
    requires
        forall|i: int| 0 <= i < s.len() ==> '0' <= #[trigger] s[i] <= '9',
    ensures
        decimal_value(zero_padded(s, width)) == decimal_value(s),
        forall|i: int|
            0 <= i < zero_padded(s, width).len() ==> '0' <= #[trigger] zero_padded(s, width)[i]
                <= '9',
    decreases s.len(),
{
    if s.len() < width {
        zeros_in_front((width - s.len()) as nat, s);
    }
}

proof fn zeros_in_front(n: nat, s: Seq<char>)
    ensures
        decimal_value(Seq::new(n, |i: int| '0') + s) == decimal_value(s),
    decreases s.len(), n,
{
    let z = Seq::new(n, |i: int| '0');
    let t = z + s;
    if s.len() == 0 {
        assert(t =~= z);
        if n > 0 {
            assert(z.drop_last() =~= Seq::new((n - 1) as nat, |i: int| '0'));
            assert(Seq::new((n - 1) as nat, |i: int| '0') + s =~= z.drop_last());
            zeros_in_front((n - 1) as nat, s);
        }
    } else {
        assert(t.drop_last() =~= z + s.drop_last());
        assert(t.last() == s.last());
        zeros_in_front(n, s.drop_last());
    }
}

// ---------------------------------------------------------------------
// Substrings
// ---------------------------------------------------------------------

/// `needle` occurs in `hay` at position `i`.
pub open spec fn occurs_at(hay: Seq<char>, needle: Seq<char>, i: int) -> bool {
    &&& 0 <= i
    &&& i + needle.len() <= hay.len()
    &&& hay.subrange(i, i + needle.len()) == needle
}

/// `needle` occurs in `hay`.
pub open spec fn has_part(hay: Seq<char>, needle: Seq<char>) -> bool {
    exists|i: int| occurs_at(hay, needle, i)
}

/// Whether `a` stands before `b` in the order of texts: by the first characters
/// that differ, and a text before those that continue it.
pub open spec fn precedes(a: Seq<char>, b: Seq<char>) -> bool
    decreases a.len(),
{
    if b.len() == 0 {
        false
    } else if a.len() == 0 {
        true
    } else if a[0] != b[0] {
        a[0] < b[0]
    } else {
        precedes(a.skip(1), b.skip(1))
    }
}

/// Of two texts one precedes the other, unless they are the same, and never
/// both.
pub proof fn precedes_is_total(a: Seq<char>, b: Seq<char>)
    ensures
        a == b || precedes(a, b) || precedes(b, a),
        !(precedes(a, b) && precedes(b, a)),
        precedes(a, b) ==> a != b,
    decreases a.len(),
{
    if a.len() > 0 && b.len() > 0 && a[0] == b[0] {
        precedes_is_total(a.skip(1), b.skip(1));
        if a.skip(1) == b.skip(1) {
            assert(a =~= seq![a[0]] + a.skip(1));
            assert(b =~= seq![b[0]] + b.skip(1));
        }
    } else if a.len() == 0 && b.len() == 0 {
        assert(a =~= b);
    }
}

/// What precedes a text precedes what follows it.
pub proof fn precedes_is_transitive(a: Seq<char>, b: Seq<char>, c: Seq<char>)
    requires
        precedes(a, b),
        precedes(b, c),
    ensures
        precedes(a, c),
    decreases a.len(),
{
    if a.len() > 0 && a[0] == b[0] && b[0] == c[0] {
        precedes_is_transitive(a.skip(1), b.skip(1), c.skip(1));
    }
}

/// Texts are ordered by the first characters that differ: the one with the lesser
/// character comes first. A text comes before every longer one that begins with
/// it.
pub proof fn texts_are_ordered_by_their_first_difference(a: Seq<char>, b: Seq<char>, i: int)
    requires
        0 <= i <= a.len(),
        i < b.len(),
        a.take(i) == b.take(i),
    ensures
        i < a.len() && a[i] < b[i] ==> precedes(a, b),
        i < a.len() && a[i] > b[i] ==> precedes(b, a),
        i == a.len() ==> precedes(a, b),
    decreases i,
{
    if i == 0 {
        if a.len() > 0 && a[0] == b[0] {
            assert(!(a[0] < b[0]));
        }
    } else {
        assert(a[0] == a.take(i)[0]);
        assert(b[0] == b.take(i)[0]);
        assert(a[0] == b[0]);
        assert(precedes(a, b) == precedes(a.skip(1), b.skip(1)));
        assert(precedes(b, a) == precedes(b.skip(1), a.skip(1)));
        assert(a.skip(1).take(i - 1) =~= a.take(i).skip(1));
        assert(b.skip(1).take(i - 1) =~= b.take(i).skip(1));
        texts_are_ordered_by_their_first_difference(a.skip(1), b.skip(1), i - 1);
        assert(i < a.len() ==> a.skip(1)[i - 1] == a[i]);
        assert(b.skip(1)[i - 1] == b[i]);
    }
}

/// Whether one text stands before another.
pub fn text_precedes(a: &str, b: &str) -> (r: bool)
    ensures
        r == precedes(a@, b@),
{
    let x = chars_of(a);
    let y = chars_of(b);
    let mut i: usize = 0;
    assert(x@.skip(0) =~= x@ && y@.skip(0) =~= y@);
    while i < x.len() && i < y.len()
        invariant
            x@ == a@,
            y@ == b@,
            i <= x@.len(),
            i <= y@.len(),
            precedes(a@, b@) == precedes(x@.skip(i as int), y@.skip(i as int)),
        decreases x@.len() - i,
    {
        let ghost u = x@.skip(i as int);
        let ghost w = y@.skip(i as int);
        assert(u[0] == x@[i as int] && w[0] == y@[i as int]);
        if x[i] != y[i] {
            return x[i] < y[i];
        }
        assert(u.skip(1) =~= x@.skip(i + 1));
        assert(w.skip(1) =~= y@.skip(i + 1));
        i += 1;
    }
    i < y.len()
}

/// Whether `needle` occurs in `hay`.
pub fn contains_text(hay: &str, needle: &str) -> (r: bool)
    ensures
        r == has_part(hay@, needle@),
{
    let h = chars_of(hay);
    let p = chars_of(needle);
    if p.len() > h.len() {
        return false;
    }
    let total = h.len();
    let last: usize = total - p.len();
    let mut i: usize = 0;
    while i <= last
        invariant
            total == h@.len(),
            h@ == hay@,
            p@ == needle@,
            last == h@.len() - p@.len(),
            i <= last + 1,
            forall|a: int| 0 <= a < i ==> !occurs_at(hay@, needle@, a),
        decreases last + 1 - i,
    {
        let mut j: usize = 0;
        let mut same = true;
        while j < p.len() && same
            invariant
                total == h@.len(),
                last == h@.len() - p@.len(),
                i <= last,
                j <= p@.len(),
                same ==> forall|a: int| 0 <= a < j ==> h@[i + a] == #[trigger] p@[a],
                !same ==> exists|a: int| 0 <= a < p@.len() && h@[i + a] != #[trigger] p@[a],
            decreases p@.len() - j,
        {
            if h[i + j] != p[j] {
                same = false;
            }
            j += 1;
        }
        if same {
            assert(hay@.subrange(i as int, i + needle@.len()) =~= needle@);
            assert(occurs_at(hay@, needle@, i as int));
            return true;
        }
        proof {
            let a = choose|a: int| 0 <= a < p@.len() && h@[i + a] != #[trigger] p@[a];
            assert(hay@.subrange(i as int, i + needle@.len())[a] != needle@[a]);
        }
        if i == last {
            assert forall|a: int| !occurs_at(hay@, needle@, a) by {
                if 0 <= a < i {
                }
            }
            return false;
        }
        i += 1;
    }
    false
}

/// The texts of a list of pairs.
pub open spec fn pair_texts(v: Seq<(String, String)>) -> Seq<(Seq<char>, Seq<char>)> {
    v.map_values(|p: (String, String)| (p.0@, p.1@))
}

/// A copy of a list of pairs of texts.
pub fn copy_pairs(v: &Vec<(String, String)>) -> (r: Vec<(String, String)>)
    ensures
        pair_texts(r@) == pair_texts(v@),
{
    let mut out: Vec<(String, String)> = Vec::with_capacity(v.len());
    let mut i: usize = 0;
    while i < v.len()
        invariant
            i <= v@.len(),
            out@.len() == i,
            forall|j: int| 0 <= j < i ==> (#[trigger] out@[j]).0@ == v@[j].0@ && out@[j].1@ == v@[j].1@,
        decreases v@.len() - i,
    {
        out.push((v[i].0.clone(), v[i].1.clone()));
        i += 1;
    }
    assert(pair_texts(out@) =~= pair_texts(v@));
    out
}

/// The texts of a list of strings.
pub open spec fn texts(v: Seq<String>) -> Seq<Seq<char>> {
    v.map_values(|s: String| s@)
}

/// A copy of a list of texts.
pub fn copy_texts(v: &Vec<String>) -> (r: Vec<String>)
    ensures
        texts(r@) == texts(v@),
{
    let mut out: Vec<String> = Vec::with_capacity(v.len());
    let mut i: usize = 0;
    while i < v.len()
        invariant
            i <= v@.len(),
            out@.len() == i,
            forall|j: int| 0 <= j < i ==> (#[trigger] out@[j])@ == v@[j]@,
        decreases v@.len() - i,
    {
        out.push(v[i].clone());
        i += 1;
    }
    assert(texts(out@) =~= texts(v@));
    out
}

// ---------------------------------------------------------------------
// Reading decimal numbers
// ---------------------------------------------------------------------

/// Every character is a decimal digit, and there is one.
pub open spec fn all_digits(s: Seq<char>) -> bool {
    s.len() > 0 && forall|i: int| 0 <= i < s.len() ==> '0' <= #[trigger] s[i] <= '9'
}

/// The number that a text of digits stands for, if it is at most `most`.
pub open spec fn read_decimal(s: Seq<char>, most: nat) -> Option<nat> {
    if all_digits(s) && 0 <= decimal_value(s) <= most {
        Some(decimal_value(s) as nat)
    } else {
        None
    }
}

/// A number that was written is read back where it is within the bound, and is not
/// read where it is above it. A text that is empty or holds anything but digits is
/// not read.
pub proof fn a_written_number_is_read_back(n: nat, most: nat)
    ensures
        n <= most ==> read_decimal(decimal(n), most) == Some(n),
        n > most ==> read_decimal(decimal(n), most) is None,
        read_decimal(Seq::empty(), most) is None,
        forall|s: Seq<char>, i: int|
            0 <= i < s.len() && !('0' <= #[trigger] s[i] <= '9') ==> read_decimal(s, most) is None,
{
    decimal_value_of_decimal(n);
}

/// The value of digits is not negative, and grows with every digit.
proof fn decimal_value_grows(s: Seq<char>, n: int)
    requires
        all_digits(s),
        0 <= n <= s.len(),
    ensures
        0 <= decimal_value(s.take(n)) <= decimal_value(s),
    decreases s.len(), n,
{
    if n == s.len() {
        assert(s.take(n) =~= s);
        if n > 1 {
            decimal_value_grows(s.drop_last(), n - 1);
            assert(s.drop_last().take(n - 1) =~= s.drop_last());
        } else {
            assert(decimal_value(s.drop_last()) == 0);
        }
        assert('0' <= s[n - 1] <= '9');
    } else {
        assert(s.drop_last().take(n) =~= s.take(n));
        if s.len() > 1 {
            decimal_value_grows(s.drop_last(), n);
        } else {
            assert(s.take(0).len() == 0);
        }
        assert('0' <= s[s.len() - 1] <= '9');
        assert(decimal_value(s.drop_last()) >= 0);
        if s.len() == 1 {
            assert(decimal_value(s.drop_last()) == 0);
        }
    }
}

/// Reads a decimal number that fits a word.
pub fn parse_decimal(s: &str) -> (r: Option<u64>)
    ensures
        match r {
            Some(n) => read_decimal(s@, u64::MAX as nat) == Some(n as nat),
            None => read_decimal(s@, u64::MAX as nat) is None,
        },
{
    let cs = chars_of(s);
    assert(cs@.skip(0) =~= s@);
    parse_digits(&cs, 0)
}

/// Reads the decimal number that starts at a position.
pub fn parse_digits(cs: &Vec<char>, from: usize) -> (r: Option<u64>)
    requires
        from <= cs@.len(),
    ensures
        match r {
            Some(n) => read_decimal(cs@.skip(from as int), u64::MAX as nat) == Some(n as nat),
            None => read_decimal(cs@.skip(from as int), u64::MAX as nat) is None,
        },
{
    let ghost s = cs@.skip(from as int);
    if cs.len() == from {
        return None;
    }
    let mut i: usize = from;
    while i < cs.len()
        invariant
            s == cs@.skip(from as int),
            from <= i <= cs@.len(),
            forall|j: int| 0 <= j < i - from ==> '0' <= #[trigger] s[j] <= '9',
        decreases cs@.len() - i,
    {
        assert(s[i - from] == cs@[i as int]);
        if cs[i] < '0' || cs[i] > '9' {
            return None;
        }
        i += 1;
    }
    assert(all_digits(s));
    let mut value: u64 = 0;
    i = from;
    assert(decimal_value(s.take(0)) == 0);
    while i < cs.len()
        invariant
            s == cs@.skip(from as int),
            all_digits(s),
            from <= i <= cs@.len(),
            value == decimal_value(s.take(i - from)),
        decreases cs@.len() - i,
    {
        assert(s[i - from] == cs@[i as int]);
        assert('0' <= s[i - from] <= '9');
        let d: u64 = cs[i] as u64 - 48;
        proof {
            let now = s.take(i - from + 1);
            assert(now.drop_last() =~= s.take(i - from));
            assert(now.last() == s[i - from]);
            decimal_value_grows(s, i - from + 1);
        }
        if value > (u64::MAX - d) / 10 {
            assert(10 * value + d > u64::MAX);
            return None;
        }
        value = 10 * value + d;
        i += 1;
    }
    assert(s.take(i - from) =~= s);
    Some(value)
}

} // verus!
