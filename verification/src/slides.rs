use vstd::prelude::*;
use vstd::string::StrSliceExecFns;
use vstd::string::StringExecFns;
use crate::geo::{join_path, join_text, lemma_join_plain, plain_base, plain_component, is_sep};

verus! {

/// Identifier of a slide deck: the name of its asset directory.
#[derive(Clone, Copy, Debug, PartialEq, Eq, Hash)]
pub struct DeckId(pub &'static str);

/// A slide deck, or a window onto part of one.
pub struct SlideDeck {
    pub id: DeckId,
    /// Half-open absolute slide indices into the source deck (0-based).
    pub range: std::ops::Range<usize>,
    /// Current slide, relative to `range.start`: below `self.len()` when the
    /// shown range is not empty; the constructors set it to 0.
    pub current: usize,
}

impl Clone for SlideDeck {
    fn clone(&self) -> (res: Self)
        ensures
            res == *self,
    {
        SlideDeck { id: self.id, range: self.range.start..self.range.end, current: self.current }
    }
}

/// Name of the primer deck on in-orbit computing.
pub open spec fn primer_name() -> Seq<char> {
    seq!['s', 'p', 'a', 'c', 'e', 'c', 'o', 'm', 'p', '-', 'p', 'r', 'i', 'm', 'e', 'r']
}

/// The primer deck on in-orbit computing.
pub fn spacecomp_primer() -> (id: DeckId)
    ensures
        id.0@ == primer_name(),
{
    proof {
        reveal_strlit("spacecomp-primer");
    }
    let id = DeckId("spacecomp-primer");
    assert(id.0@ =~= primer_name());
    id
}

pub const SPACECOMP_PRIMER_SLIDE_COUNT: usize = 76;

/// The known decks: each name with its number of slides.
pub open spec fn deck_table() -> Seq<(Seq<char>, nat)> {
    seq![(primer_name(), 76nat)]
}

/// Slide count of the first deck of `t` named `name`, if any.
pub open spec fn table_lookup(t: Seq<(Seq<char>, nat)>, name: Seq<char>) -> Option<nat>
    decreases t.len(),
{
    if t.len() == 0 {
        None
    } else if t[0].0 == name {
        Some(t[0].1)
    } else {
        table_lookup(t.drop_first(), name)
    }
}

/// Sum of the slide counts of the decks of `t`.
pub open spec fn table_sum(t: Seq<(Seq<char>, nat)>) -> nat
    decreases t.len(),
{
    if t.len() == 0 { 0 } else { t[0].1 + table_sum(t.drop_first()) }
}

/// Number of slides of the deck named `name`, if that deck is known.
pub open spec fn deck_count(name: Seq<char>) -> Option<nat> {
    table_lookup(deck_table(), name)
}

/// Sum of the slide counts of all known decks.
pub open spec fn total_count() -> nat {
    table_sum(deck_table())
}

/// The two strings hold the same characters.
fn str_eq(a: &str, b: &str) -> (res: bool)
    ensures
        res == (a@ == b@),
{
    let la = a.unicode_len();
    let lb = b.unicode_len();
    if la != lb {
        return false;
    }
    let mut i: usize = 0;
    while i < la
        invariant
            la == a@.len(),
            lb == b@.len(),
            la == lb,
            i <= la,
            forall|j: int| 0 <= j < i ==> a@[j] == b@[j],
        decreases la - i,
    {
        if a.get_char(i) != b.get_char(i) {
            return false;
        }
        i = i + 1;
    }
    assert(a@ =~= b@);
    true
}

/// A known deck and its number of slides.
#[derive(Clone, Copy)]
pub struct DeckInfo {
    pub id: DeckId,
    pub count: usize,
}

/// The table of known decks.
fn all_decks() -> (v: Vec<DeckInfo>)
    ensures
        v@.len() == deck_table().len(),
        forall|i: int| 0 <= i < v@.len() ==> (#[trigger] v@[i]).id.0@ == deck_table()[i].0 && v@[i].count == deck_table()[i].1,
{
    let mut v: Vec<DeckInfo> = Vec::new();
    v.push(DeckInfo { id: spacecomp_primer(), count: SPACECOMP_PRIMER_SLIDE_COUNT });
    v
}

proof fn lemma_table_step(t: Seq<(Seq<char>, nat)>, i: int, name: Seq<char>)
    requires
        0 <= i < t.len(),
    ensures
        table_lookup(t.subrange(i, t.len() as int), name)
            == if t[i].0 == name { Some(t[i].1) } else { table_lookup(t.subrange(i + 1, t.len() as int), name) },
        table_sum(t.subrange(i, t.len() as int)) == t[i].1 + table_sum(t.subrange(i + 1, t.len() as int)),
{
    assert(t.subrange(i, t.len() as int).drop_first() =~= t.subrange(i + 1, t.len() as int));
}

/// The known deck with the same name as `id`, if any (the first such in the
/// table).
pub fn deck(id: DeckId) -> (res: Option<DeckInfo>)
    ensures
        match deck_count(id.0@) {
            Some(c) => res matches Some(info) && info.id.0@ == id.0@ && info.count == c,
            None => res is None,
        },
{
    let decks = all_decks();
    let ghost t = deck_table();
    proof {
        assert(t.subrange(0, t.len() as int) =~= t);
    }
    let mut i: usize = 0;
    while i < decks.len()
        invariant
            t == deck_table(),
            decks@.len() == t.len(),
            forall|j: int| 0 <= j < decks@.len() ==> (#[trigger] decks@[j]).id.0@ == t[j].0 && decks@[j].count == t[j].1,
            i <= decks@.len(),
            table_lookup(t, id.0@) == table_lookup(t.subrange(i as int, t.len() as int), id.0@),
        decreases decks@.len() - i,
    {
        proof {
            lemma_table_step(t, i as int, id.0@);
        }
        if str_eq(id.0, decks[i].id.0) {
            return Some(decks[i]);
        }
        i = i + 1;
    }
    proof {
        assert(t.subrange(i as int, t.len() as int) =~= Seq::<(Seq<char>, nat)>::empty());
    }
    None
}

impl SlideDeck {
    /// The whole deck `id`, at its first slide.
    pub fn new(id: DeckId) -> (res: Self)
        requires
            deck_count(id.0@) is Some,
        ensures
            res.id == id,
            res.range.start == 0,
            res.range.end == deck_count(id.0@).unwrap(),
            res.current == 0,
    {
        let total = match deck(id) {
            Some(info) => info.count,
            None => {
                assert(false);
                0
            },
        };
        SlideDeck { id, range: 0..total, current: 0 }
    }

    /// Show only `range` of the source deck (0-based, half-open). Out-of-bounds
    /// endpoints are clamped to the deck size.
    pub fn range(id: DeckId, range: std::ops::Range<usize>) -> (res: Self)
        requires
            deck_count(id.0@) is Some,
        ensures
            ({
                let total = deck_count(id.0@).unwrap() as int;
                let start = if range.start <= total { range.start as int } else { total };
                let end0 = if range.end <= total { range.end as int } else { total };
                let end = if end0 >= start { end0 } else { start };
                &&& res.id == id
                &&& res.range.start == start
                &&& res.range.end == end
                &&& res.current == 0
            }),
    {
        let total = match deck(id) {
            Some(info) => info.count,
            None => {
                assert(false);
                0
            },
        };
        let start = if range.start <= total { range.start } else { total };
        let end0 = if range.end <= total { range.end } else { total };
        let end = if end0 >= start { end0 } else { start };
        SlideDeck { id, range: start..end, current: 0 }
    }

    /// Number of slides shown.
    pub fn len(&self) -> (res: usize)
        ensures
            res == if self.range.start < self.range.end { self.range.end - self.range.start } else { 0 },
    {
        if self.range.start < self.range.end {
            self.range.end - self.range.start
        } else {
            0
        }
    }

    /// URI of slide `idx` (relative to the shown range), given the base URI
    /// of this deck's assets.
    pub fn uri(&self, base_uri: &str, idx: usize) -> (res: String)
        requires
            self.range.start + idx < usize::MAX,
        ensures
            res@ == slide_uri_spec(base_uri@, (self.range.start + idx) as nat),
    {
        let absolute = self.range.start + idx;
        slide_uri(base_uri, absolute)
    }
}

/// Total number of slides over all decks.
pub fn total_slide_count() -> (res: usize)
    ensures
        res == total_count(),
{
    let decks = all_decks();
    let ghost t = deck_table();
    proof {
        assert(t.subrange(0, t.len() as int) =~= t);
        assert(table_sum(t) == 76) by {
            assert(t.drop_first() =~= Seq::<(Seq<char>, nat)>::empty());
            assert(table_sum(t.drop_first()) == 0);
            assert(t[0].1 == 76);
        }
    }
    let mut sum: usize = 0;
    let mut i: usize = 0;
    while i < decks.len()
        invariant
            t == deck_table(),
            table_sum(t) == 76,
            decks@.len() == t.len(),
            forall|j: int| 0 <= j < decks@.len() ==> (#[trigger] decks@[j]).id.0@ == t[j].0 && decks@[j].count == t[j].1,
            i <= decks@.len(),
            sum + table_sum(t.subrange(i as int, t.len() as int)) == table_sum(t),
        decreases decks@.len() - i,
    {
        proof {
            lemma_table_step(t, i as int, seq![]);
        }
        sum = sum + decks[i].count;
        i = i + 1;
    }
    proof {
        assert(t.subrange(i as int, t.len() as int) =~= Seq::<(Seq<char>, nat)>::empty());
    }
    sum
}

/// The decimal digit character for `d < 10`.
pub open spec fn digit_char(d: nat) -> char {
    if d == 0 { '0' } else if d == 1 { '1' } else if d == 2 { '2' } else if d == 3 { '3' } else if d == 4 { '4' }
    else if d == 5 { '5' } else if d == 6 { '6' } else if d == 7 { '7' } else if d == 8 { '8' } else { '9' }
}

/// Decimal notation of `n`, without leading zeros.
pub open spec fn decimal(n: nat) -> Seq<char>
    decreases n,
{
    if n < 10 {
        seq![digit_char(n)]
    } else {
        decimal(n / 10).push(digit_char(n % 10))
    }
}

/// The number that a string of decimal digits denotes in base 10 (the empty
/// string denotes 0).
pub open spec fn decimal_value(s: Seq<char>) -> int
    decreases s.len(),
{
    if s.len() == 0 {
        0
    } else {
        decimal_value(s.drop_last()) * 10 + ((s.last() as u32) as int - 48)
    }
}

/// Each character is a decimal digit, `'0'` to `'9'`.
pub open spec fn all_digits(s: Seq<char>) -> bool {
    forall|i: int| 0 <= i < s.len() ==> 48 <= (#[trigger] s[i] as u32) <= 57
}

/// The digit character for `d` has the code of `'0'` plus `d`.
pub proof fn lemma_digit_char_code(d: nat)
    requires
        d < 10,
    ensures
        digit_char(d) as u32 == 48 + d,
{
}

/// The decimal notation of `n` is made of digits, has no leading zero, and
/// reads back in base 10 as `n`.
pub proof fn lemma_decimal_reads_back(n: nat)
    ensures
        all_digits(decimal(n)),
        decimal(n).len() >= 1,
        n >= 10 ==> decimal(n)[0] != '0',
        decimal_value(decimal(n)) == n,
    decreases n,
{
    lemma_digit_char_code(n % 10);
    if n >= 10 {
        lemma_decimal_reads_back(n / 10);
        let d = decimal(n);
        assert(d.drop_last() =~= decimal(n / 10));
        assert forall|i: int| 0 <= i < d.len() implies 48 <= (#[trigger] d[i] as u32) <= 57 by {
            if i < d.len() - 1 {
                assert(d[i] == decimal(n / 10)[i]);
            }
        }
        if n / 10 < 10 {
            lemma_digit_char_code(n / 10);
        }
        assert(d.last() == digit_char(n % 10));
        assert((n / 10) * 10 + n % 10 == n);
        assert(decimal_value(d) == decimal_value(decimal(n / 10)) * 10 + ((d.last() as u32) as int - 48));
    } else {
        let d = decimal(n);
        assert(d.drop_last() =~= Seq::<char>::empty());
        assert(decimal_value(d.drop_last()) == 0);
        assert(d.last() == digit_char(n));
    }
}

/// A leading `'0'` does not change the value of a decimal string.
pub proof fn lemma_leading_zero_value(s: Seq<char>)
    ensures
        decimal_value(seq!['0'] + s) == decimal_value(s),
    decreases s.len(),
{
    let t = seq!['0'] + s;
    if s.len() == 0 {
        assert(t.drop_last() =~= Seq::<char>::empty());
        assert(decimal_value(t.drop_last()) == 0);
        assert(t.last() == '0');
        assert(('0' as u32) as int == 48);
        assert(decimal_value(t) == 0);
    } else {
        assert(t.drop_last() =~= seq!['0'] + s.drop_last());
        assert(t.last() == s.last());
        lemma_leading_zero_value(s.drop_last());
    }
}

/// Decimal notation of `n`, zero-padded to at least two digits.
pub open spec fn decimal_pad2(n: nat) -> Seq<char> {
    if n < 10 { seq!['0'] + decimal(n) } else { decimal(n) }
}

/// `{base}/{idx + 1:02}.svg`
pub open spec fn slide_uri_spec(base: Seq<char>, idx: nat) -> Seq<char> {
    base + seq!['/'] + decimal_pad2(idx + 1) + seq!['.', 's', 'v', 'g']
}

fn digit_str(d: usize) -> (s: &'static str)
    requires
        d < 10,
    ensures
        s@ == seq![digit_char(d as nat)],
{
    proof {
        reveal_strlit("0");
        reveal_strlit("1");
        reveal_strlit("2");
        reveal_strlit("3");
        reveal_strlit("4");
        reveal_strlit("5");
        reveal_strlit("6");
        reveal_strlit("7");
        reveal_strlit("8");
        reveal_strlit("9");
    }
    if d == 0 {
        "0"
    } else if d == 1 {
        "1"
    } else if d == 2 {
        "2"
    } else if d == 3 {
        "3"
    } else if d == 4 {
        "4"
    } else if d == 5 {
        "5"
    } else if d == 6 {
        "6"
    } else if d == 7 {
        "7"
    } else if d == 8 {
        "8"
    } else {
        "9"
    }
}

/// Appends the decimal notation of `n` to `s`.
fn push_decimal(s: &mut String, n: usize)
    ensures
        final(s)@ == old(s)@ + decimal(n as nat),
    decreases n,
{
    if n < 10 {
        s.append(digit_str(n));
    } else {
        push_decimal(s, n / 10);
        s.append(digit_str(n % 10));
    }
}

/// Numbers of two or more digits have a decimal notation of two or more
/// characters.
proof fn lemma_decimal_len_two(n: nat)
    requires
        n >= 10,
    ensures
        decimal(n).len() >= 2,
{
    lemma_decimal_reads_back(n / 10);
}

/// URI of slide `idx` (0-based) of the deck whose assets live at `base_uri`:
/// `{base_uri}/{idx + 1}.svg`, the number zero-padded to two digits.
pub fn slide_uri(base_uri: &str, idx: usize) -> (res: String)
    requires
        idx < usize::MAX,
    ensures
        res@ == slide_uri_spec(base_uri@, idx as nat),
        ({
            let digits = res@.subrange(base_uri@.len() as int + 1, res@.len() - 4);
            &&& res@.len() == base_uri@.len() + 1 + digits.len() + 4
            &&& res@.subrange(0, base_uri@.len() as int) == base_uri@
            &&& res@[base_uri@.len() as int] == '/'
            &&& res@.subrange(res@.len() - 4, res@.len() as int) == seq!['.', 's', 'v', 'g']
            &&& all_digits(digits)
            &&& digits.len() >= 2
            &&& (digits.len() == 2 || digits[0] != '0')
            &&& decimal_value(digits) == idx + 1
        }),
{
    let mut s = String::from_str(base_uri);
    proof {
        reveal_strlit("/");
        reveal_strlit("0");
        reveal_strlit(".svg");
    }
    s.append("/");
    let n = idx + 1;
    if n < 10 {
        s.append("0");
    }
    push_decimal(&mut s, n);
    s.append(".svg");
    proof {
        let d = decimal(n as nat);
        let p = decimal_pad2(n as nat);
        lemma_decimal_reads_back(n as nat);
        if n < 10 {
            assert(s@ =~= base_uri@ + seq!['/'] + (seq!['0'] + d) + seq!['.', 's', 'v', 'g']);
            lemma_leading_zero_value(d);
            assert(d.len() == 1);
            assert forall|i: int| 0 <= i < p.len() implies 48 <= (#[trigger] p[i] as u32) <= 57 by {
                if i > 0 {
                    assert(p[i] == d[i - 1]);
                }
            }
        } else {
            assert(s@ =~= base_uri@ + seq!['/'] + d + seq!['.', 's', 'v', 'g']);
            lemma_decimal_len_two(n as nat);
        }
        let digits = s@.subrange(base_uri@.len() as int + 1, s@.len() - 4);
        assert(digits =~= p);
        assert(s@.subrange(0, base_uri@.len() as int) =~= base_uri@);
        assert(s@.subrange(s@.len() - 4, s@.len() as int) =~= seq!['.', 's', 'v', 'g']);
    }
    s
}


/// Working directory the deck assets are looked up under: `cwd`, or `.` when
/// it is unknown.
pub open spec fn work_dir(cwd: Option<&str>) -> Seq<char> {
    match cwd {
        Some(c) => c@,
        None => "."@,
    }
}

/// Base URI of a deck's slide images: the `file://` URI of
/// `assets/presentations/<deck>` under the working directory `cwd` (`.` when
/// it is unknown). The URI always starts with `file://` and, for a deck name
/// that is one plain path component, ends with that name; under a
/// [`plain_base`] working directory it is exactly the three joins, with the
/// platform's separator.
pub fn deck_base_uri(cwd: Option<&str>, id: DeckId) -> (res: String)
    ensures
        res@.len() >= 7,
        res@.subrange(0, 7) == "file://"@,
        plain_component(id.0@) ==> res@.len() >= 7 + id.0@.len(),
        plain_component(id.0@) ==> res@.subrange(res@.len() - id.0@.len(), res@.len() as int) == id.0@,
        plain_base(work_dir(cwd)) && plain_component(id.0@) ==> exists|s1: char, s2: char, s3: char| {
            &&& (work_dir(cwd).len() > 0 && work_dir(cwd).last() != '/' ==> is_sep(s1))
            &&& is_sep(s2)
            &&& is_sep(s3)
            &&& res@ == "file://"@ + join_text(join_text(join_text(work_dir(cwd), s1, "assets"@), s2, "presentations"@), s3, id.0@)
        },
{
    proof {
        reveal_strlit(".");
        reveal_strlit("assets");
        reveal_strlit("presentations");
        reveal_strlit("file://");
        assert(plain_component("assets"@));
        assert(plain_component("presentations"@));
    }
    let base: &str = match cwd {
        Some(c) => c,
        None => ".",
    };
    assert(base@ == work_dir(cwd));
    let p1 = join_path(base, "assets");
    let p2 = join_path(p1.as_str(), "presentations");
    let p3 = join_path(p2.as_str(), id.0);
    let mut out = String::from_str("file://");
    out.append(p3.as_str());
    proof {
        let b = work_dir(cwd);
        if plain_base(b) && plain_component(id.0@) {
            let s1 = p1@[b.len() as int];
            lemma_join_plain(b, s1, "assets"@);
            let s2 = p2@[p1@.len() as int];
            lemma_join_plain(p1@, s2, "presentations"@);
            let s3 = p3@[p2@.len() as int];
            assert(out@ == "file://"@ + join_text(join_text(join_text(b, s1, "assets"@), s2, "presentations"@), s3, id.0@));
        }
        if plain_component(id.0@) {
            assert(out@.subrange(out@.len() - id.0@.len(), out@.len() as int) =~= p3@.subrange(p3@.len() - id.0@.len(), p3@.len() as int));
        }
        assert(out@.subrange(0, 7) =~= "file://"@);
    }
    out
}

} // verus!
