//! Text as a sequence of characters: the predicates that names, paths and messages
//! are described with, and the executable functions that decide them.
use vstd::prelude::*;

verus! {

/// `String::push` appends one character.
pub assume_specification[ String::push ](s: &mut String, c: char)
    ensures
        final(s)@ == old(s)@.push(c),
;

/// `s` begins with `p`.
pub open spec fn starts_with(s: Seq<char>, p: Seq<char>) -> bool {
    occurs_at(s, p, 0)
}

/// `s` ends with `p`.
pub open spec fn ends_with(s: Seq<char>, p: Seq<char>) -> bool {
    occurs_at(s, p, s.len() - p.len())
}

/// `p` stands in `s` at position `i`.
pub open spec fn occurs_at(s: Seq<char>, p: Seq<char>, i: int) -> bool {
    &&& 0 <= i
    &&& i + p.len() <= s.len()
    &&& s.subrange(i, i + p.len()) =~= p
}

/// `p` stands somewhere in `s`.
pub open spec fn contains_text(s: Seq<char>, p: Seq<char>) -> bool {
    exists|i: int| occurs_at(s, p, i)
}

/// The lowest position at or after `from` at which `p` stands in `s`.
pub open spec fn find_from(s: Seq<char>, p: Seq<char>, from: int) -> Option<int>
    decreases s.len() - from,
{
    if from < 0 || from + p.len() > s.len() {
        None
    } else if occurs_at(s, p, from) {
        Some(from)
    } else {
        find_from(s, p, from + 1)
    }
}

/// Every backslash turned into a slash.
pub open spec fn slashed(s: Seq<char>) -> Seq<char> {
    Seq::new(s.len(), |i: int| if s[i] == '\\' { '/' } else { s[i] })
}

/// The characters of `s`, in order.
pub fn chars_of(s: &str) -> (v: Vec<char>)
    ensures
        v@ == s@,
{
    let mut v: Vec<char> = Vec::new();
    for c in it: s.chars()
        invariant
            it.seq() == s@,
            v@ == s@.take(it.index() as int),
    {
        v.push(c);
    }
    v
}

/// The string that the characters spell.
pub fn string_of(v: &[char]) -> (s: String)
    ensures
        s@ == v@,
{
    let mut s = String::new();
    let mut i: usize = 0;
    while i < v.len()
        invariant
            i <= v@.len(),
            s@ == v@.take(i as int),
        decreases v@.len() - i,
    {
        s.push(v[i]);
        i += 1;
    }
    s
}

/// Whether `p` stands in `s` at position `i`.
pub fn text_at(s: &[char], p: &[char], i: usize) -> (b: bool)
    ensures
        b == occurs_at(s@, p@, i as int),
{
    let n: usize = s.len();
    if i > n || p.len() > n - i {
        return false;
    }
    let mut j: usize = 0;
    while j < p.len()
        invariant
            n == s@.len(),
            i + p@.len() <= n,
            j <= p@.len(),
            forall|k: int| 0 <= k < j ==> s@[i + k] == p@[k],
        decreases p@.len() - j,
    {
        if s[i + j] != p[j] {
            assert(s@.subrange(i as int, i + p@.len())[j as int] != p@[j as int]);
            return false;
        }
        j += 1;
    }
    true
}

/// Whether `s` begins with `p`.
pub fn has_prefix(s: &[char], p: &str) -> (b: bool)
    ensures
        b == starts_with(s@, p@),
{
    let p = chars_of(p);
    text_at(s, p.as_slice(), 0)
}

/// Whether `s` ends with `p`.
pub fn has_suffix(s: &[char], p: &str) -> (b: bool)
    ensures
        b == ends_with(s@, p@),
{
    let p = chars_of(p);
    if p.len() > s.len() {
        return false;
    }
    text_at(s, p.as_slice(), s.len() - p.len())
}

/// Whether the string `s` ends with `p`.
pub fn str_ends_with(s: &str, p: &str) -> (b: bool)
    ensures
        b == ends_with(s@, p@),
{
    let s = chars_of(s);
    has_suffix(s.as_slice(), p)
}

/// The lowest position at which `p` stands in `s`.
pub fn find_text(s: &[char], p: &str) -> (r: Option<usize>)
    ensures
        match r {
            Some(i) => find_from(s@, p@, 0) == Some(i as int),
            None => find_from(s@, p@, 0) is None,
        },
{
    let q = chars_of(p);
    let n: usize = s.len();
    let m: usize = q.len();
    if m > n {
        return None;
    }
    let mut i: usize = 0;
    while i <= n - m
        invariant
            n == s@.len(),
            m == q@.len(),
            m <= n,
            q@ == p@,
            i <= n - m + 1,
            find_from(s@, p@, 0) == find_from(s@, p@, i as int),
        decreases n + 1 - i,
    {
        if text_at(s, q.as_slice(), i) {
            return Some(i);
        }
        if i == n - m {
            assert(find_from(s@, p@, i + 1) is None);
            return None;
        }
        i += 1;
    }
    None
}

/// What `find_from` finds is an occurrence, and no earlier position is one; where it
/// finds nothing, no position is one.
pub proof fn lemma_find_from(s: Seq<char>, p: Seq<char>, from: int)
    requires
        0 <= from,
    ensures
        find_from(s, p, from) matches Some(i) ==> from <= i && occurs_at(s, p, i) && forall|j: int|
            from <= j < i ==> !occurs_at(s, p, j),
        find_from(s, p, from) is None ==> forall|j: int| from <= j ==> !occurs_at(s, p, j),
    decreases s.len() - from,
{
    if from + p.len() > s.len() || occurs_at(s, p, from) {
    } else {
        lemma_find_from(s, p, from + 1);
    }
}

/// Whether `p` stands somewhere in `s`.
pub fn has_text(s: &[char], p: &str) -> (b: bool)
    ensures
        b == contains_text(s@, p@),
{
    proof {
        lemma_find_from(s@, p@, 0);
    }
    find_text(s, p).is_some()
}

/// The characters of `s` with every backslash turned into a slash.
pub fn slashed_chars(s: &str) -> (v: Vec<char>)
    ensures
        v@ == slashed(s@),
{
    let mut v: Vec<char> = Vec::new();
    for c in it: s.chars()
        invariant
            it.seq() == s@,
            v@ == slashed(s@).take(it.index() as int),
    {
        v.push(if c == '\\' { '/' } else { c });
    }
    v
}

/// The part of `v` from `from` up to `to`.
pub fn part(v: &[char], from: usize, to: usize) -> (r: Vec<char>)
    requires
        from <= to <= v@.len(),
    ensures
        r@ == v@.subrange(from as int, to as int),
{
    let mut r: Vec<char> = Vec::new();
    let mut i: usize = from;
    while i < to
        invariant
            from <= i <= to <= v@.len(),
            r@ == v@.subrange(from as int, i as int),
        decreases to - i,
    {
        r.push(v[i]);
        i += 1;
    }
    r
}

/// What stands before the first `p` in `s`, and what stands behind it.
pub open spec fn cut(s: Seq<char>, p: Seq<char>) -> Option<(Seq<char>, Seq<char>)> {
    match find_from(s, p, 0) {
        Some(i) => Some((s.take(i), s.skip(i + p.len()))),
        None => None,
    }
}

/// Cut `s` at the first `p`.
pub fn split_once(s: &[char], p: &str) -> (r: Option<(Vec<char>, Vec<char>)>)
    ensures
        match r {
            Some(parts) => cut(s@, p@) == Some((parts.0@, parts.1@)),
            None => cut(s@, p@) is None,
        },
{
    match find_text(s, p) {
        Some(i) => {
            proof {
                lemma_find_from(s@, p@, 0);
            }
            let m: usize = chars_of(p).len();
            let n: usize = s.len();
            assert(i + m <= n);
            let before = part(s, 0, i);
            let behind = part(s, i + m, n);
            assert(before@ =~= s@.take(i as int));
            assert(behind@ =~= s@.skip(i + p@.len()));
            Some((before, behind))
        },
        None => None,
    }
}

/// Two strings spell the same text.
pub fn same_text(a: &str, b: &str) -> (r: bool)
    ensures
        r == (a@ == b@),
{
    let a = chars_of(a);
    let b = chars_of(b);
    if a.len() != b.len() {
        return false;
    }
    let r = text_at(a.as_slice(), b.as_slice(), 0);
    assert(a@.subrange(0, a@.len() as int) == a@);
    r
}

/// The decimal digit for a number below ten.
pub open spec fn digit(n: nat) -> char {
    (('0' as nat) + n) as char
}

/// A number written in decimal, without leading zeros.
pub open spec fn decimal(n: nat) -> Seq<char>
    decreases n,
{
    if n < 10 {
        seq![digit(n)]
    } else {
        decimal(n / 10).push(digit(n % 10))
    }
}

/// An integer written in decimal, with a minus sign where it is negative.
pub open spec fn decimal_int(n: int) -> Seq<char> {
    if n < 0 {
        seq!['-'] + decimal((-n) as nat)
    } else {
        decimal(n as nat)
    }
}

fn digit_char(n: u64) -> (c: char)
    requires
        n < 10,
    ensures
        c == digit(n as nat),
{
    ((48 + n) as u8) as char
}

fn push_decimal(out: &mut String, n: u64)
    ensures
        final(out)@ == old(out)@ + decimal(n as nat),
    decreases n,
{
    if n >= 10 {
        push_decimal(out, n / 10);
    }
    out.push(digit_char(n % 10));
    assert(out@ =~= old(out)@ + decimal(n as nat));
}

/// A number written in decimal.
pub fn decimal_of(n: u64) -> (s: String)
    ensures
        s@ == decimal(n as nat),
{
    let mut s = String::new();
    push_decimal(&mut s, n);
    s
}

/// An integer written in decimal.
pub fn decimal_of_signed(n: i64) -> (s: String)
    ensures
        s@ == decimal_int(n as int),
{
    let mut s = String::new();
    if n < 0 {
        s.push('-');
        let m: u64 = if n == i64::MIN { 9223372036854775808 } else { (-n) as u64 };
        push_decimal(&mut s, m);
    } else {
        push_decimal(&mut s, n as u64);
    }
    s
}

/// A text begins with another exactly where it is that text followed by something.
pub proof fn prefix_is_what_comes_first(s: Seq<char>, p: Seq<char>, rest: Seq<char>)
    ensures
        starts_with(p + rest, p),
        starts_with(s, p) ==> s == p + s.skip(p.len() as int),
        starts_with(s, p) ==> p.len() <= s.len(),
{
    assert((p + rest).subrange(0, p.len() as int) =~= p);
    if starts_with(s, p) {
        assert(s =~= s.subrange(0, p.len() as int) + s.skip(p.len() as int));
    }
}

/// A text ends with another exactly where it is something followed by that text.
pub proof fn suffix_is_what_comes_last(s: Seq<char>, p: Seq<char>, before: Seq<char>)
    ensures
        ends_with(before + p, p),
        ends_with(s, p) ==> p.len() <= s.len() && s == s.take(s.len() - p.len()) + p,
{
    let whole = before + p;
    assert(whole.subrange(whole.len() - p.len(), whole.len() as int) =~= p);
    if ends_with(s, p) {
        let n = s.len() - p.len();
        assert(s =~= s.take(n) + s.subrange(n, n + p.len()));
    }
}

/// A text stands in another exactly where that is something, the text, and something.
pub proof fn inner_text_is_what_stands_between(
    s: Seq<char>,
    before: Seq<char>,
    p: Seq<char>,
    behind: Seq<char>,
)
    ensures
        contains_text(before + p + behind, p),
        contains_text(s, p) ==> exists|a: Seq<char>, c: Seq<char>| s == #[trigger] (a + p + c),
{
    let whole = before + p + behind;
    assert(whole.subrange(before.len() as int, (before.len() + p.len()) as int) =~= p);
    assert(occurs_at(whole, p, before.len() as int));
    if contains_text(s, p) {
        let i = choose|i: int| occurs_at(s, p, i);
        let a = s.take(i);
        let c = s.skip(i + p.len());
        assert(s =~= a + s.subrange(i, i + p.len()) + c);
        assert(s == a + p + c);
    }
}

/// Cutting gives back the text: what stands before, what was cut at, and what stands behind;
/// and there is no earlier place to cut. It fails only where there is no place.
pub proof fn cut_parts_make_the_text(s: Seq<char>, p: Seq<char>)
    ensures
        match cut(s, p) {
            Some((before, behind)) => {
                &&& s == before + p + behind
                &&& forall|a: Seq<char>, c: Seq<char>|
                    s == #[trigger] (a + p + c) ==> before.len() <= a.len()
            },
            None => forall|a: Seq<char>, c: Seq<char>| s != #[trigger] (a + p + c),
        },
{
    lemma_find_from(s, p, 0);
    assert forall|a: Seq<char>, c: Seq<char>| s == #[trigger] (a + p + c) implies occurs_at(
        s,
        p,
        a.len() as int,
    ) by {
        assert(s.subrange(a.len() as int, (a.len() + p.len()) as int) =~= p);
    }
    if let Some(i) = find_from(s, p, 0) {
        assert(s =~= s.take(i) + s.subrange(i, i + p.len()) + s.skip(i + p.len()));
        assert forall|a: Seq<char>, c: Seq<char>| s == #[trigger] (a + p + c) implies i
            <= a.len() by {
            assert(occurs_at(s, p, a.len() as int));
        }
    }
}

/// Turning backslashes into slashes changes them and nothing else.
pub proof fn only_backslashes_turn(s: Seq<char>)
    ensures
        slashed(s).len() == s.len(),
        forall|i: int|
            0 <= i < s.len() ==> #[trigger] slashed(s)[i] == (if s[i] == '\\' {
                '/'
            } else {
                s[i]
            }),
{
}

/// The number that decimal digits denote, read from the left.
pub open spec fn number_of(digits: Seq<char>) -> int
    decreases digits.len(),
{
    if digits.len() == 0 {
        0
    } else {
        10 * number_of(digits.drop_last()) + (digits.last() as int - '0' as int)
    }
}

/// What is written in decimal reads back: digits only, that denote the number, and no zero
/// in front of others.
pub proof fn decimal_reads_back(n: nat)
    ensures
        decimal(n).len() > 0,
        forall|i: int| 0 <= i < decimal(n).len() ==> '0' <= #[trigger] decimal(n)[i] <= '9',
        number_of(decimal(n)) == n,
        decimal(n).len() > 1 ==> decimal(n)[0] != '0',
        n > 0 ==> decimal(n)[0] != '0',
    decreases n,
{
    assert(number_of(Seq::empty()) == 0);
    if n < 10 {
        assert(decimal(n).drop_last() =~= Seq::empty());
    } else {
        decimal_reads_back(n / 10);
        assert(decimal(n).drop_last() =~= decimal(n / 10));
    }
}

/// An integer is written as its size in decimal, with a minus sign exactly where it is
/// negative.
pub proof fn only_negative_integers_have_a_sign(n: nat)
    ensures
        decimal_int(n as int) == decimal(n),
        n > 0 ==> decimal_int(-n) == "-"@ + decimal(n),
{
    reveal_strlit("-");
    assert("-"@ =~= seq!['-']);
}

/// A text is cut at the first place where the mark stands.
pub proof fn cut_is_made_at_the_first_place(before: Seq<char>, p: Seq<char>, behind: Seq<char>)
    requires
        forall|j: int|
            0 <= j < before.len() ==> !#[trigger] occurs_at(before + p + behind, p, j),
    ensures
        cut(before + p + behind, p) == Some((before, behind)),
{
    let s = before + p + behind;
    let at = before.len() as int;
    assert(s.subrange(at, at + p.len()) =~= p);
    assert(occurs_at(s, p, at));
    lemma_find_from(s, p, 0);
    let i = find_from(s, p, 0)->0;
    if i < at {
        assert(!occurs_at(s, p, i));
    }
    assert(i == at);
    assert(s.take(at) =~= before);
    assert(s.skip(at + p.len()) =~= behind);
}

/// What does not even hold the first character of the mark is not cut before it.
pub proof fn cut_needs_the_mark(before: Seq<char>, p: Seq<char>, behind: Seq<char>)
    requires
        p.len() > 0,
        !before.contains(p[0]),
    ensures
        cut(before + p + behind, p) == Some((before, behind)),
        cut(before, p) is None,
        !contains_text(before, p),
{
    let s = before + p + behind;
    assert forall|j: int| 0 <= j < before.len() implies !#[trigger] occurs_at(s, p, j) by {
        if occurs_at(s, p, j) {
            assert(s.subrange(j, j + p.len())[0] == p[0]);
            assert(before[j] == p[0]);
        }
    }
    cut_is_made_at_the_first_place(before, p, behind);
    assert forall|j: int| !#[trigger] occurs_at(before, p, j) by {
        if occurs_at(before, p, j) {
            assert(before.subrange(j, j + p.len())[0] == p[0]);
            assert(before[j] == p[0]);
        }
    }
    lemma_find_from(before, p, 0);
    if let Some(i) = find_from(before, p, 0) {
        assert(occurs_at(before, p, i));
    }
}

} // verus!
