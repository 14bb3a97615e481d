//! Character-level text handling: the string operations that the wpctl
//! and pactl parsers are built from, each stated over `Seq<char>`.
use vstd::prelude::*;

verus! {

/// The Unicode `White_Space` property, which is what `char::is_whitespace`
/// (and therefore `str::trim` and `str::split_whitespace`) tests.
pub open spec fn is_ws(c: char) -> bool {
    let n = c as u32;
    ||| 0x09 <= n <= 0x0D
    ||| n == 0x20
    ||| n == 0x85
    ||| n == 0xA0
    ||| n == 0x1680
    ||| 0x2000 <= n <= 0x200A
    ||| n == 0x2028
    ||| n == 0x2029
    ||| n == 0x202F
    ||| n == 0x205F
    ||| n == 0x3000
}

/// Box-drawing characters that `wpctl status` uses to draw its tree.
pub open spec fn is_tree_char(c: char) -> bool {
    c == '│' || c == '├' || c == '└' || c == '─'
}

pub open spec fn is_digit(c: char) -> bool {
    '0' <= c && c <= '9'
}

/// A set of characters that a trimming operation removes.
#[derive(Clone, Copy, Debug, PartialEq, Eq, Structural)]
pub enum CharClass {
    Whitespace,
    Exactly(char),
}

impl CharClass {
    pub open spec fn has(self, c: char) -> bool {
        match self {
            CharClass::Whitespace => is_ws(c),
            CharClass::Exactly(x) => c == x,
        }
    }

    pub fn contains(self, c: char) -> (r: bool)
        ensures
            r == self.has(c),
    {
        match self {
            CharClass::Whitespace => is_whitespace(c),
            CharClass::Exactly(x) => c == x,
        }
    }
}

pub fn is_whitespace(c: char) -> (r: bool)
    ensures
        r == is_ws(c),
{
    let n = c as u32;
    (0x09 <= n && n <= 0x0D) || n == 0x20 || n == 0x85 || n == 0xA0 || n == 0x1680 || (0x2000
        <= n && n <= 0x200A) || n == 0x2028 || n == 0x2029 || n == 0x202F || n == 0x205F || n
        == 0x3000
}

/// Number of leading characters of `s` that lie in `cl`.
#[verifier::opaque]
pub open spec fn leading_len(s: Seq<char>, cl: CharClass) -> int {
    if exists|i: int| 0 <= i < s.len() && !cl.has(#[trigger] s[i]) {
        choose|i: int|
            0 <= i < s.len() && !cl.has(#[trigger] s[i]) && forall|j: int|
                0 <= j < i ==> cl.has(#[trigger] s[j])
    } else {
        s.len() as int
    }
}

/// Length of what is left of `s` once its trailing characters in `cl` are dropped.
#[verifier::opaque]
pub open spec fn kept_len(s: Seq<char>, cl: CharClass) -> int {
    if exists|i: int| 0 <= i < s.len() && !cl.has(#[trigger] s[i]) {
        1 + choose|i: int|
            0 <= i < s.len() && !cl.has(#[trigger] s[i]) && forall|j: int|
                i < j < s.len() ==> cl.has(#[trigger] s[j])
    } else {
        0
    }
}

/// `s` without its leading characters in `cl` (`str::trim_start_matches`).
pub open spec fn trim_start_class(s: Seq<char>, cl: CharClass) -> Seq<char> {
    s.skip(leading_len(s, cl))
}

/// `s` without its trailing characters in `cl` (`str::trim_end_matches`).
pub open spec fn trim_end_class(s: Seq<char>, cl: CharClass) -> Seq<char> {
    s.take(kept_len(s, cl))
}

/// `s` without leading and trailing characters in `cl` (`str::trim_matches`).
pub open spec fn trim_class(s: Seq<char>, cl: CharClass) -> Seq<char> {
    trim_end_class(trim_start_class(s, cl), cl)
}

/// `str::trim`.
pub open spec fn trim(s: Seq<char>) -> Seq<char> {
    trim_class(s, CharClass::Whitespace)
}

/// `str::trim_start_matches(c)`.
pub open spec fn trim_start_char(s: Seq<char>, c: char) -> Seq<char> {
    trim_start_class(s, CharClass::Exactly(c))
}

/// The index of the first occurrence of `c` in `s` (`str::find` with a char).
#[verifier::opaque]
pub open spec fn index_of(s: Seq<char>, c: char) -> Option<int> {
    if exists|i: int| 0 <= i < s.len() && s[i] == c {
        Some(
            choose|i: int|
                0 <= i < s.len() && s[i] == c && forall|j: int| 0 <= j < i ==> s[j] != c,
        )
    } else {
        None
    }
}

/// What `index_of` returns: the first position of `c`, or nothing when `c`
/// does not occur.
pub proof fn lemma_index_of(s: Seq<char>, c: char)
    ensures
        match index_of(s, c) {
            Some(i) => 0 <= i < s.len() && s[i] == c && forall|j: int| 0 <= j < i ==> s[j] != c,
            None => forall|j: int| 0 <= j < s.len() ==> s[j] != c,
        },
{
    reveal(index_of);
    if exists|i: int| 0 <= i < s.len() && s[i] == c {
        let i = choose|i: int| 0 <= i < s.len() && s[i] == c;
        lemma_first_char(s, c, i);
    }
}

/// If `c` occurs at `i`, it has a first occurrence.
pub proof fn lemma_first_char(s: Seq<char>, c: char, i: int)
    requires
        0 <= i < s.len(),
        s[i] == c,
    ensures
        exists|k: int| 0 <= k < s.len() && s[k] == c && forall|j: int| 0 <= j < k ==> s[j] != c,
    decreases i,
{
    if exists|j: int| 0 <= j < i && s[j] == c {
        let j = choose|j: int| 0 <= j < i && s[j] == c;
        lemma_first_char(s, c, j);
    }
}

/// If `p` occurs at `i`, it has a first occurrence.
pub proof fn lemma_first_occurrence(s: Seq<char>, p: Seq<char>, i: int)
    requires
        occurs_at(s, p, i),
    ensures
        exists|k: int| occurs_at(s, p, k) && forall|j: int| 0 <= j < k ==> !occurs_at(s, p, j),
    decreases i,
{
    if exists|j: int| 0 <= j < i && occurs_at(s, p, j) {
        let j = choose|j: int| 0 <= j < i && occurs_at(s, p, j);
        lemma_first_occurrence(s, p, j);
    }
}

#[verifier::opaque]
pub open spec fn has_char(s: Seq<char>, c: char) -> bool {
    exists|i: int| 0 <= i < s.len() && s[i] == c
}

/// `p` occurs in `s` starting at index `i`.
pub open spec fn occurs_at(s: Seq<char>, p: Seq<char>, i: int) -> bool {
    0 <= i && i + p.len() <= s.len() && s.subrange(i, i + p.len()) == p
}

/// `str::contains` with a string pattern.
#[verifier::opaque]
pub open spec fn contains(s: Seq<char>, p: Seq<char>) -> bool {
    exists|i: int| occurs_at(s, p, i)
}

/// The index of the first occurrence of `p` in `s` (`str::find` with a string).
#[verifier::opaque]
pub open spec fn find(s: Seq<char>, p: Seq<char>) -> Option<int> {
    if exists|i: int| occurs_at(s, p, i) {
        Some(choose|i: int| occurs_at(s, p, i) && forall|j: int| 0 <= j < i ==> !occurs_at(s, p, j))
    } else {
        None
    }
}

/// What `find` returns: the first position of `p`, or nothing when `p` does
/// not occur.
pub proof fn lemma_find(s: Seq<char>, p: Seq<char>)
    ensures
        match find(s, p) {
            Some(i) => occurs_at(s, p, i) && forall|j: int| 0 <= j < i ==> !occurs_at(s, p, j),
            None => forall|j: int| !occurs_at(s, p, j),
        },
{
    reveal(find);
    if exists|i: int| occurs_at(s, p, i) {
        let i = choose|i: int| occurs_at(s, p, i);
        lemma_first_occurrence(s, p, i);
    }
}

pub open spec fn starts_with(s: Seq<char>, p: Seq<char>) -> bool {
    p.len() <= s.len() && s.take(p.len() as int) == p
}

pub open spec fn ends_with_char(s: Seq<char>, c: char) -> bool {
    s.len() > 0 && s.last() == c
}

pub open spec fn starts_with_char(s: Seq<char>, c: char) -> bool {
    s.len() > 0 && s[0] == c
}

/// `str::strip_prefix`.
pub open spec fn strip_prefix(s: Seq<char>, p: Seq<char>) -> Option<Seq<char>> {
    if starts_with(s, p) {
        Some(s.skip(p.len() as int))
    } else {
        None
    }
}

/// `s` with every box-drawing character removed
/// (`str::replace(['│', '├', '└', '─'], "")`).
pub open spec fn remove_tree_chars(s: Seq<char>) -> Seq<char>
    decreases s.len(),
{
    if s.len() == 0 {
        s
    } else {
        let rest = remove_tree_chars(s.drop_last());
        if is_tree_char(s.last()) {
            rest
        } else {
            rest.push(s.last())
        }
    }
}

/// The first whitespace-separated word of `s` (`s.split_whitespace().next()`).
pub open spec fn first_word(s: Seq<char>) -> Option<Seq<char>> {
    let t = trim_start_class(s, CharClass::Whitespace);
    if t.len() == 0 {
        None
    } else {
        Some(t.take(word_len(t)))
    }
}

/// Length of the leading run of non-whitespace characters of `s`.
#[verifier::opaque]
pub open spec fn word_len(s: Seq<char>) -> int {
    if exists|i: int| 0 <= i < s.len() && is_ws(#[trigger] s[i]) {
        choose|i: int|
            0 <= i < s.len() && is_ws(#[trigger] s[i]) && forall|j: int|
                0 <= j < i ==> !is_ws(#[trigger] s[j])
    } else {
        s.len() as int
    }
}

/// The second `'='`-separated field of `s` (`s.split('=').nth(1)`).
pub open spec fn second_field(s: Seq<char>) -> Option<Seq<char>> {
    match index_of(s, '=') {
        None => None,
        Some(i) => {
            let r = s.skip(i + 1);
            match index_of(r, '=') {
                Some(j) => Some(r.take(j)),
                None => Some(r),
            }
        },
    }
}

/// A line without the `'\r'` that ends it, if any.
pub open spec fn strip_cr(l: Seq<char>) -> Seq<char> {
    if l.len() > 0 && l.last() == '\r' {
        l.drop_last()
    } else {
        l
    }
}

/// The lines of `s`, as `str::lines` yields them: split at `'\n'`, each line
/// without a `'\r'` before its `'\n'`, and no empty line after a final `'\n'`.
#[verifier::opaque]
pub open spec fn lines(s: Seq<char>) -> Seq<Seq<char>>
    decreases s.len(),
{
    if s.len() == 0 {
        Seq::empty()
    } else {
        match index_of(s, '\n') {
            Some(i) => {
                proof {
                    lemma_index_of(s, '\n');
                }
                seq![strip_cr(s.take(i))] + lines(s.skip(i + 1))
            },
            None => seq![s],
        }
    }
}

/// Numeric value of a string of decimal digits.
pub open spec fn digits_value(s: Seq<char>) -> nat
    decreases s.len(),
{
    if s.len() == 0 {
        0
    } else {
        digits_value(s.drop_last()) * 10 + digit_value(s.last())
    }
}

pub open spec fn digit_value(c: char) -> nat {
    ((c as u32) - ('0' as u32)) as nat
}

pub open spec fn all_digits(s: Seq<char>) -> bool {
    forall|i: int| 0 <= i < s.len() ==> is_digit(#[trigger] s[i])
}

/// What `str::parse::<u32>` accepts and returns: an optional `'+'`, then one
/// or more ASCII digits whose value fits in a `u32`.
pub open spec fn parse_u32(s: Seq<char>) -> Option<u32> {
    let d = if s.len() > 0 && s[0] == '+' {
        s.drop_first()
    } else {
        s
    };
    if d.len() > 0 && all_digits(d) && digits_value(d) <= u32::MAX {
        Some(digits_value(d) as u32)
    } else {
        None
    }
}

pub open spec fn digit_char(d: nat) -> char {
    if d == 0 {
        '0'
    } else if d == 1 {
        '1'
    } else if d == 2 {
        '2'
    } else if d == 3 {
        '3'
    } else if d == 4 {
        '4'
    } else if d == 5 {
        '5'
    } else if d == 6 {
        '6'
    } else if d == 7 {
        '7'
    } else if d == 8 {
        '8'
    } else {
        '9'
    }
}

/// The decimal representation of `n`, without leading zeros.
pub open spec fn decimal(n: nat) -> Seq<char>
    decreases n,
{
    if n < 10 {
        seq![digit_char(n)]
    } else {
        decimal(n / 10).push(digit_char(n % 10))
    }
}

// ---------------------------------------------------------------------------
// Executable counterparts.
// ---------------------------------------------------------------------------

/// The characters of a string slice.
pub fn chars_of(s: &str) -> (v: Vec<char>)
    ensures
        v@ == s@,
{
    let mut v: Vec<char> = Vec::new();
    for c in it: s.chars()
        invariant
            v@ == it.seq().take(it.index() as int),
            it.seq() == s@,
    {
        v.push(c);
    }
    v
}

/// Collects characters into a `String` (`String::from_iter`).
#[verifier::external_body]
pub fn string_from_chars(v: Vec<char>) -> (s: String)
    ensures
        s@ == v@,
{
    String::from_iter(v)
}

/// Appends the characters of `s` to `out`.
pub fn push_str(out: &mut Vec<char>, s: &str)
    ensures
        final(out)@ == old(out)@ + s@,
{
    let v = chars_of(s);
    push_all(out, &v);
}

/// Appends the characters of `v` to `out`.
pub fn push_all(out: &mut Vec<char>, v: &Vec<char>)
    ensures
        final(out)@ == old(out)@ + v@,
{
    let ghost start = out@;
    let mut i: usize = 0;
    while i < v.len()
        invariant
            i <= v.len(),
            out@ == start + v@.take(i as int),
        decreases v.len() - i,
    {
        out.push(v[i]);
        i += 1;
        assert(v@.take(i as int) =~= v@.take((i - 1) as int).push(v@[i - 1]));
    }
    assert(v@.take(v.len() as int) =~= v@);
}

/// A copy of `v[a..b]`.
pub fn slice(v: &Vec<char>, a: usize, b: usize) -> (r: Vec<char>)
    requires
        a <= b <= v.len(),
    ensures
        r@ == v@.subrange(a as int, b as int),
{
    let mut r: Vec<char> = Vec::new();
    let mut i = a;
    while i < b
        invariant
            a <= i <= b <= v.len(),
            r@ == v@.subrange(a as int, i as int),
        decreases b - i,
    {
        r.push(v[i]);
        i += 1;
        assert(r@ =~= v@.subrange(a as int, i as int));
    }
    r
}

/// `trim_start_class` on a vector.
pub fn trim_start_of(v: &Vec<char>, cl: CharClass) -> (r: Vec<char>)
    ensures
        r@ == trim_start_class(v@, cl),
{
    let mut i: usize = 0;
    while i < v.len() && cl.contains(v[i])
        invariant
            i <= v.len(),
            forall|j: int| 0 <= j < i ==> cl.has(#[trigger] v@[j]),
        decreases v.len() - i,
    {
        i += 1;
    }
    proof {
        reveal(leading_len);
        if i < v.len() {
            assert(!cl.has(v@[i as int]));
            let k = leading_len(v@, cl);
            assert(0 <= k < v@.len() && !cl.has(v@[k]));
        } else {
            assert(!exists|j: int| 0 <= j < v@.len() && !cl.has(#[trigger] v@[j]));
        }
    }
    slice(v, i, v.len())
}

/// `trim_end_class` on a vector.
pub fn trim_end_of(v: &Vec<char>, cl: CharClass) -> (r: Vec<char>)
    ensures
        r@ == trim_end_class(v@, cl),
{
    let mut k: usize = v.len();
    while k > 0 && cl.contains(v[k - 1])
        invariant
            k <= v.len(),
            forall|j: int| k <= j < v.len() ==> cl.has(#[trigger] v@[j]),
        decreases k,
    {
        k -= 1;
    }
    proof {
        reveal(kept_len);
        if k > 0 {
            assert(!cl.has(v@[k - 1]));
            let m = kept_len(v@, cl) - 1;
            assert(0 <= m < v@.len() && !cl.has(v@[m]));
        } else {
            assert(!exists|j: int| 0 <= j < v@.len() && !cl.has(#[trigger] v@[j]));
        }
    }
    slice(v, 0, k)
}

/// `trim_class` on a vector.
pub fn trim_of(v: &Vec<char>, cl: CharClass) -> (r: Vec<char>)
    ensures
        r@ == trim_class(v@, cl),
{
    let s = trim_start_of(v, cl);
    trim_end_of(&s, cl)
}

/// `str::trim` on a vector.
pub fn trim_ws(v: &Vec<char>) -> (r: Vec<char>)
    ensures
        r@ == trim(v@),
{
    trim_of(v, CharClass::Whitespace)
}

/// The first index `i >= start` with `v[i] == c`.
pub fn find_char_from(v: &Vec<char>, c: char, start: usize) -> (r: Option<usize>)
    requires
        start <= v.len(),
    ensures
        match r {
            Some(k) => start <= k < v.len() && index_of(v@.skip(start as int), c) == Some(
                (k - start) as int,
            ),
            None => index_of(v@.skip(start as int), c) is None,
        },
{
    let ghost s = v@.skip(start as int);
    let mut i = start;
    while i < v.len()
        invariant
            start <= i <= v.len(),
            s == v@.skip(start as int),
            forall|j: int| start <= j < i ==> v@[j] != c,
        decreases v.len() - i,
    {
        if v[i] == c {
            proof {
                let k = (i - start) as int;
                assert(s[k] == c);
                assert forall|j: int| 0 <= j < k implies s[j] != c by {
                    assert(s[j] == v@[start + j]);
                }
                lemma_index_of(s, c);
                let m = index_of(s, c)->0;
                assert(0 <= m < s.len() && s[m] == c);
                if m < k {
                    assert(s[m] == v@[start + m]);
                }
            }
            return Some(i);
        }
        i += 1;
    }
    proof {
        assert forall|j: int| 0 <= j < s.len() implies s[j] != c by {
            assert(s[j] == v@[start + j]);
        }
        lemma_index_of(s, c);
        if index_of(s, c) is Some {
            let m = index_of(s, c)->0;
            assert(s[m] == c);
        }
    }
    None
}

/// `index_of` on a vector.
pub fn find_char(v: &Vec<char>, c: char) -> (r: Option<usize>)
    ensures
        match r {
            Some(k) => k < v.len() && index_of(v@, c) == Some(k as int),
            None => index_of(v@, c) is None,
        },
{
    assert(v@.skip(0) =~= v@);
    find_char_from(v, c, 0)
}

/// Whether `c` occurs in `v`.
pub fn has_char_exec(v: &Vec<char>, c: char) -> (r: bool)
    ensures
        r == has_char(v@, c),
{
    proof {
        lemma_index_of(v@, c);
        reveal(has_char);
    }
    match find_char(v, c) {
        Some(k) => {
            assert(v@[k as int] == c);
            true
        },
        None => false,
    }
}

/// Whether `p` occurs in `v` at index `i`.
pub fn occurs_at_exec(v: &Vec<char>, p: &Vec<char>, i: usize) -> (r: bool)
    ensures
        r == occurs_at(v@, p@, i as int),
{
    if i > v.len() || p.len() > v.len() - i {
        return false;
    }
    let mut j: usize = 0;
    while j < p.len()
        invariant
            i + p.len() <= v.len(),
            j <= p.len(),
            forall|k: int| 0 <= k < j ==> v@[i + k] == p@[k],
        decreases p.len() - j,
    {
        if v[i + j] != p[j] {
            assert(v@.subrange(i as int, i + p.len())[j as int] != p@[j as int]);
            return false;
        }
        j += 1;
    }
    assert(v@.subrange(i as int, i + p.len()) =~= p@);
    true
}

/// `find` on vectors.
pub fn find_seq(v: &Vec<char>, p: &Vec<char>) -> (r: Option<usize>)
    ensures
        match r {
            Some(k) => find(v@, p@) == Some(k as int) && k + p.len() <= v.len(),
            None => find(v@, p@) is None,
        },
{
    let mut i: usize = 0;
    loop
        invariant
            i <= v.len(),
            forall|j: int| 0 <= j < i ==> !occurs_at(v@, p@, j),
        decreases v.len() - i,
    {
        if occurs_at_exec(v, p, i) {
            proof {
                lemma_find(v@, p@);
                let m = find(v@, p@)->0;
                if m < i {
                    assert(!occurs_at(v@, p@, m));
                }
            }
            return Some(i);
        }
        if i == v.len() {
            proof {
                lemma_find(v@, p@);
                assert forall|j: int| !occurs_at(v@, p@, j) by {
                    if 0 <= j < i {
                    }
                }
            }
            return None;
        }
        i += 1;
    }
}

/// `contains` on vectors.
pub fn contains_exec(v: &Vec<char>, p: &Vec<char>) -> (r: bool)
    ensures
        r == contains(v@, p@),
{
    proof {
        lemma_find(v@, p@);
        reveal(contains);
    }
    match find_seq(v, p) {
        Some(k) => true,
        None => false,
    }
}

/// `contains` with a string-literal pattern.
pub fn contains_str(v: &Vec<char>, p: &str) -> (r: bool)
    ensures
        r == contains(v@, p@),
{
    let pv = chars_of(p);
    contains_exec(v, &pv)
}

/// Whether `v` equals the string `p`.
pub fn equals_str(v: &Vec<char>, p: &str) -> (r: bool)
    ensures
        r == (v@ == p@),
{
    let pv = chars_of(p);
    if v.len() != pv.len() {
        return false;
    }
    let mut j: usize = 0;
    while j < v.len()
        invariant
            v.len() == pv.len(),
            pv@ == p@,
            j <= v.len(),
            forall|k: int| 0 <= k < j ==> v@[k] == pv@[k],
        decreases v.len() - j,
    {
        if v[j] != pv[j] {
            assert(v@[j as int] != pv@[j as int]);
            return false;
        }
        j += 1;
    }
    assert(v@ =~= pv@);
    true
}

/// `strip_prefix` with a string-literal prefix.
pub fn strip_prefix_str(v: &Vec<char>, p: &str) -> (r: Option<Vec<char>>)
    ensures
        match r {
            Some(x) => strip_prefix(v@, p@) == Some(x@),
            None => strip_prefix(v@, p@) is None,
        },
{
    let pv = chars_of(p);
    if occurs_at_exec(v, &pv, 0) {
        assert(v@.take(pv.len() as int) =~= v@.subrange(0, pv.len() as int));
        Some(slice(v, pv.len(), v.len()))
    } else {
        proof {
            if starts_with(v@, p@) {
                assert(v@.take(pv.len() as int) =~= v@.subrange(0, pv.len() as int));
            }
        }
        None
    }
}

/// `starts_with` with a string-literal prefix.
pub fn starts_with_str(v: &Vec<char>, p: &str) -> (r: bool)
    ensures
        r == starts_with(v@, p@),
{
    match strip_prefix_str(v, p) {
        Some(_) => true,
        None => false,
    }
}

/// `s` with every box-drawing character removed.
pub fn remove_tree(v: &Vec<char>) -> (r: Vec<char>)
    ensures
        r@ == remove_tree_chars(v@),
{
    let mut r: Vec<char> = Vec::new();
    let mut i: usize = 0;
    while i < v.len()
        invariant
            i <= v.len(),
            r@ == remove_tree_chars(v@.take(i as int)),
        decreases v.len() - i,
    {
        let c = v[i];
        assert(v@.take(i + 1).drop_last() =~= v@.take(i as int));
        if !(c == '│' || c == '├' || c == '└' || c == '─') {
            r.push(c);
        }
        i += 1;
    }
    assert(v@.take(v.len() as int) =~= v@);
    r
}

/// `first_word` on a vector.
pub fn first_word_of(v: &Vec<char>) -> (r: Option<Vec<char>>)
    ensures
        match r {
            Some(w) => first_word(v@) == Some(w@),
            None => first_word(v@) is None,
        },
{
    let t = trim_start_of(v, CharClass::Whitespace);
    if t.len() == 0 {
        return None;
    }
    let mut i: usize = 0;
    while i < t.len() && !is_whitespace(t[i])
        invariant
            i <= t.len(),
            forall|j: int| 0 <= j < i ==> !is_ws(#[trigger] t@[j]),
        decreases t.len() - i,
    {
        i += 1;
    }
    proof {
        reveal(word_len);
        if i < t.len() {
            assert(is_ws(t@[i as int]));
            let k = word_len(t@);
            assert(0 <= k < t@.len() && is_ws(t@[k]));
        } else {
            assert(!exists|j: int| 0 <= j < t@.len() && is_ws(#[trigger] t@[j]));
        }
    }
    let w = slice(&t, 0, i);
    assert(w@ =~= t@.take(i as int));
    Some(w)
}

/// `parse_u32` on a vector.
pub fn parse_u32_of(v: &Vec<char>) -> (r: Option<u32>)
    ensures
        r == parse_u32(v@),
{
    let start: usize = if v.len() > 0 && v[0] == '+' {
        1
    } else {
        0
    };
    let ghost d = if v@.len() > 0 && v@[0] == '+' {
        v@.drop_first()
    } else {
        v@
    };
    assert(d =~= v@.skip(start as int));
    if start >= v.len() {
        return None;
    }
    let mut acc: u64 = 0;
    let mut i = start;
    while i < v.len()
        invariant
            start <= i <= v.len(),
            start < v.len(),
            d == v@.skip(start as int),
            d == (if v@.len() > 0 && v@[0] == '+' {
                v@.drop_first()
            } else {
                v@
            }),
            all_digits(d.take(i - start)),
            acc == digits_value(d.take(i - start)),
            acc <= u32::MAX,
        decreases v.len() - i,
    {
        let c = v[i];
        if !('0' <= c && c <= '9') {
            assert(d[i - start] == v@[i as int]);
            assert(!is_digit(d[i - start]));
            return None;
        }
        let dv = (c as u32 - '0' as u32) as u64;
        let ghost pre = d.take(i - start);
        assert(d.take(i + 1 - start).drop_last() =~= pre);
        assert(d.take(i + 1 - start).last() == c);
        let next = acc * 10 + dv;
        i += 1;
        assert(all_digits(d.take(i - start))) by {
            assert forall|j: int| 0 <= j < d.take(i - start).len() implies is_digit(
                #[trigger] d.take(i - start)[j],
            ) by {
                if j < pre.len() {
                    assert(d.take(i - start)[j] == pre[j]);
                }
            }
        }
        assert(digits_value(d.take(i - start)) == next);
        if next > u32::MAX as u64 {
            proof {
                lemma_digits_value_prefix(d, i - start);
            }
            return None;
        }
        acc = next;
    }
    assert(d.take(i - start) =~= d);
    Some(acc as u32)
}

/// The value of a prefix of a digit string is at most the value of the whole.
pub proof fn lemma_digits_value_prefix(s: Seq<char>, k: int)
    requires
        0 <= k <= s.len(),
    ensures
        digits_value(s.take(k)) <= digits_value(s),
    decreases s.len(),
{
    if k < s.len() {
        lemma_digits_value_prefix(s.drop_last(), k);
        assert(s.drop_last().take(k) =~= s.take(k));
    } else {
        assert(s.take(k) =~= s);
    }
}

/// Digit character of a value below ten.
pub fn digit_char_of(d: u64) -> (c: char)
    requires
        d < 10,
    ensures
        c == digit_char(d as nat),
{
    if d == 0 {
        '0'
    } else if d == 1 {
        '1'
    } else if d == 2 {
        '2'
    } else if d == 3 {
        '3'
    } else if d == 4 {
        '4'
    } else if d == 5 {
        '5'
    } else if d == 6 {
        '6'
    } else if d == 7 {
        '7'
    } else if d == 8 {
        '8'
    } else {
        '9'
    }
}

/// The decimal representation of `n`.
pub fn decimal_of(n: u64) -> (r: Vec<char>)
    ensures
        r@ == decimal(n as nat),
    decreases n,
{
    if n < 10 {
        let mut r = Vec::new();
        r.push(digit_char_of(n));
        assert(r@ =~= seq![digit_char(n as nat)]);
        r
    } else {
        let mut r = decimal_of(n / 10);
        r.push(digit_char_of(n % 10));
        r
    }
}

/// The views of a sequence of character vectors.
pub open spec fn line_views(r: Seq<Vec<char>>) -> Seq<Seq<char>> {
    r.map_values(|l: Vec<char>| l@)
}

/// One step of `lines`: the first line, then the lines of the rest.
pub proof fn lemma_lines_step(s: Seq<char>)
    requires
        s.len() > 0,
    ensures
        match index_of(s, '\n') {
            Some(i) => 0 <= i < s.len() && lines(s) == seq![strip_cr(s.take(i))] + lines(
                s.skip(i + 1),
            ),
            None => lines(s) == seq![s],
        },
{
    lemma_index_of(s, '\n');
    reveal(lines);
}

/// `lines` of the empty string.
pub proof fn lemma_lines_empty(s: Seq<char>)
    requires
        s.len() == 0,
    ensures
        lines(s) == Seq::<Seq<char>>::empty(),
{
    reveal(lines);
}

proof fn lemma_line_views_push(r: Seq<Vec<char>>, l: Vec<char>)
    ensures
        line_views(r.push(l)) == line_views(r).push(l@),
{
    assert(line_views(r.push(l)) =~= line_views(r).push(l@));
}

/// The lines of `v` (`str::lines`).
pub fn split_lines(v: &Vec<char>) -> (r: Vec<Vec<char>>)
    ensures
        line_views(r@) == lines(v@),
{
    let mut r: Vec<Vec<char>> = Vec::new();
    let mut pos: usize = 0;
    assert(v@.skip(0) =~= v@);
    assert(line_views(r@) =~= Seq::<Seq<char>>::empty());
    while pos < v.len()
        invariant
            pos <= v.len(),
            line_views(r@) + lines(v@.skip(pos as int)) == lines(v@),
        decreases v.len() - pos,
    {
        let ghost rest = v@.skip(pos as int);
        let ghost before = line_views(r@);
        proof {
            lemma_lines_step(rest);
        }
        let line: Vec<char>;
        let next: usize;
        match find_char_from(v, '\n', pos) {
            Some(k) => {
                let mut l = slice(v, pos, k);
                assert(l@ =~= rest.take(k - pos));
                if l.len() > 0 && l[l.len() - 1] == '\r' {
                    l.pop();
                    assert(l@ =~= rest.take(k - pos).drop_last());
                }
                assert(rest.skip(k - pos + 1) =~= v@.skip(k + 1));
                line = l;
                next = k + 1;
            },
            None => {
                line = slice(v, pos, v.len());
                assert(line@ =~= rest);
                next = v.len();
                proof {
                    lemma_lines_empty(v@.skip(next as int));
                }
            },
        }
        assert(lines(rest) == seq![line@] + lines(v@.skip(next as int)));
        proof {
            lemma_line_views_push(r@, line);
        }
        r.push(line);
        pos = next;
        assert(line_views(r@) + lines(v@.skip(pos as int)) =~= before + lines(rest));
    }
    proof {
        lemma_lines_empty(v@.skip(pos as int));
    }
    assert(line_views(r@) + lines(v@.skip(pos as int)) =~= line_views(r@));
    r
}

/// `second_field` on a vector.
pub fn second_field_of(v: &Vec<char>) -> (r: Option<Vec<char>>)
    ensures
        match r {
            Some(f) => second_field(v@) == Some(f@),
            None => second_field(v@) is None,
        },
{
    proof {
        lemma_index_of(v@, '=');
    }
    match find_char(v, '=') {
        None => None,
        Some(i) => {
            let r = slice(v, i + 1, v.len());
            assert(r@ =~= v@.skip(i + 1));
            proof {
                lemma_index_of(r@, '=');
            }
            match find_char(&r, '=') {
                Some(j) => {
                    let f = slice(&r, 0, j);
                    assert(f@ =~= r@.take(j as int));
                    Some(f)
                },
                None => Some(r),
            }
        },
    }
}

/// The decimal representation of an integer, with a leading `'-'` when it
/// is negative (how `i32` displays).
pub open spec fn int_decimal(n: int) -> Seq<char> {
    if n < 0 {
        seq!['-'] + decimal((-n) as nat)
    } else {
        decimal(n as nat)
    }
}

/// `int_decimal` of an `i32`.
pub fn i32_decimal(n: i32) -> (r: Vec<char>)
    ensures
        r@ == int_decimal(n as int),
{
    if n < 0 {
        let m = (0i64 - n as i64) as u64;
        let mut r: Vec<char> = Vec::new();
        r.push('-');
        let d = decimal_of(m);
        push_all(&mut r, &d);
        assert(r@ =~= seq!['-'] + decimal((-n) as nat));
        r
    } else {
        decimal_of(n as u64)
    }
}

/// The pieces of `parts` with `sep` between each two (`[T]::join`).
pub open spec fn join(parts: Seq<Seq<char>>, sep: Seq<char>) -> Seq<char>
    decreases parts.len(),
{
    if parts.len() == 0 {
        Seq::empty()
    } else if parts.len() == 1 {
        parts[0]
    } else {
        join(parts.drop_last(), sep) + sep + parts.last()
    }
}

/// The views of a sequence of strings.
pub open spec fn string_views(v: Seq<String>) -> Seq<Seq<char>> {
    v.map_values(|s: String| s@)
}

/// `join` of strings, appended to `out`.
pub fn push_joined(out: &mut Vec<char>, parts: &Vec<String>, sep: &str)
    ensures
        final(out)@ == old(out)@ + join(string_views(parts@), sep@),
{
    let ghost start = out@;
    let ghost views = string_views(parts@);
    let mut i: usize = 0;
    assert(views.take(0) =~= Seq::<Seq<char>>::empty());
    while i < parts.len()
        invariant
            i <= parts.len(),
            views == string_views(parts@),
            out@ == start + join(views.take(i as int), sep@),
        decreases parts.len() - i,
    {
        assert(views.take(i + 1).drop_last() =~= views.take(i as int));
        assert(views.take(i + 1).last() == parts@[i as int]@);
        if i > 0 {
            push_str(out, sep);
        } else {
            assert(views.take(1) =~= seq![parts@[0]@]);
        }
        let v = chars_of(parts[i].as_str());
        push_all(out, &v);
        i += 1;
        assert(out@ =~= start + join(views.take(i as int), sep@));
    }
    assert(views.take(parts.len() as int) =~= views);
}

proof fn lemma_digit_char(k: nat)
    requires
        k < 10,
    ensures
        is_digit(digit_char(k)),
        digit_value(digit_char(k)) == k,
{
}

proof fn lemma_decimal_digits(n: nat)
    ensures
        decimal(n).len() > 0,
        all_digits(decimal(n)),
        digits_value(decimal(n)) == n,
    decreases n,
{
    lemma_digit_char(n % 10);
    if n < 10 {
        assert(decimal(n).drop_last() =~= Seq::<char>::empty());
        assert(digits_value(Seq::<char>::empty()) == 0);
        assert(digits_value(decimal(n)) == digits_value(decimal(n).drop_last()) * 10
            + digit_value(decimal(n).last()));
    } else {
        lemma_decimal_digits(n / 10);
        let d = decimal(n / 10);
        let e = decimal(n);
        assert(e == d.push(digit_char(n % 10)));
        assert(e.drop_last() =~= d);
        assert forall|i: int| 0 <= i < e.len() implies is_digit(#[trigger] e[i]) by {
            if i < d.len() {
                assert(e[i] == d[i]);
            }
        }
        assert(digits_value(e) == digits_value(d) * 10 + digit_value(digit_char(n % 10)));
        assert((n / 10) * 10 + n % 10 == n);
    }
}

/// Writing a `u32` in decimal and parsing it back gives the same number:
/// the ids that the library writes into wpctl arguments are the ids that
/// it reads from wpctl's listings.
pub proof fn law_u32_decimal_round_trip(n: u32)
    ensures
        parse_u32(decimal(n as nat)) == Some(n),
{
    lemma_decimal_digits(n as nat);
    assert(is_digit(decimal(n as nat)[0]));
}

} // verus!
