//! Character-level text utilities: whitespace trimming, newline stripping,
//! substring search and decimal rendering, with their mathematical models.
use vstd::prelude::*;
use vstd::string::StrSliceExecFns;
use vstd::string::StringExecFns;

verus! {

/// A character with the Unicode `White_Space` property, the set that
/// `str::trim` removes at either end of a string.
pub open spec fn is_space(c: char) -> bool {
    ||| c == '\u{0009}'
    ||| c == '\u{000A}'
    ||| c == '\u{000B}'
    ||| c == '\u{000C}'
    ||| c == '\u{000D}'
    ||| c == ' '
    ||| c == '\u{0085}'
    ||| c == '\u{00A0}'
    ||| c == '\u{1680}'
    ||| c == '\u{2000}'
    ||| c == '\u{2001}'
    ||| c == '\u{2002}'
    ||| c == '\u{2003}'
    ||| c == '\u{2004}'
    ||| c == '\u{2005}'
    ||| c == '\u{2006}'
    ||| c == '\u{2007}'
    ||| c == '\u{2008}'
    ||| c == '\u{2009}'
    ||| c == '\u{200A}'
    ||| c == '\u{2028}'
    ||| c == '\u{2029}'
    ||| c == '\u{202F}'
    ||| c == '\u{205F}'
    ||| c == '\u{3000}'
}

pub fn is_space_char(c: char) -> (r: bool)
    ensures
        r == is_space(c),
{
    c == '\u{0009}' || c == '\u{000A}' || c == '\u{000B}' || c == '\u{000C}' || c == '\u{000D}'
        || c == ' ' || c == '\u{0085}' || c == '\u{00A0}' || c == '\u{1680}' || c == '\u{2000}'
        || c == '\u{2001}' || c == '\u{2002}' || c == '\u{2003}' || c == '\u{2004}'
        || c == '\u{2005}' || c == '\u{2006}' || c == '\u{2007}' || c == '\u{2008}'
        || c == '\u{2009}' || c == '\u{200A}' || c == '\u{2028}' || c == '\u{2029}'
        || c == '\u{202F}' || c == '\u{205F}' || c == '\u{3000}'
}

/// The sequence with leading whitespace removed.
pub open spec fn trim_front(s: Seq<char>) -> Seq<char>
    decreases s.len(),
{
    if s.len() > 0 && is_space(s.first()) {
        trim_front(s.drop_first())
    } else {
        s
    }
}

/// The sequence with trailing whitespace removed.
pub open spec fn trim_back(s: Seq<char>) -> Seq<char>
    decreases s.len(),
{
    if s.len() > 0 && is_space(s.last()) {
        trim_back(s.drop_last())
    } else {
        s
    }
}

/// The sequence with whitespace removed at both ends, as `str::trim` does.
pub open spec fn trim_spec(s: Seq<char>) -> Seq<char> {
    trim_back(trim_front(s))
}

/// The sequence with every embedded newline removed.
pub open spec fn strip_newlines(s: Seq<char>) -> Seq<char> {
    s.filter(|c: char| c != '\n')
}

/// One raw transcript line normalised: trimmed at both ends, then with any
/// remaining newline characters removed.
pub open spec fn clean(s: Seq<char>) -> Seq<char> {
    strip_newlines(trim_spec(s))
}

/// Relies on `String::push`: appends a single character at the end.
#[verifier::external_body]
pub fn push_char(s: &mut String, c: char)
    ensures
        final(s)@ == old(s)@.push(c),
{
    s.push(c);
}

/// The characters of a string slice, as a vector.
pub fn chars_vec(s: &str) -> (r: Vec<char>)
    ensures
        r@ == s@,
{
    let n = s.unicode_len();
    let mut r: Vec<char> = Vec::new();
    let mut i: usize = 0;
    while i < n
        invariant
            i <= n,
            n == s@.len(),
            r@ == s@.subrange(0, i as int),
        decreases n - i,
    {
        let c = s.get_char(i);
        r.push(c);
        proof {
            assert(s@.subrange(0, i as int).push(s@[i as int]) =~= s@.subrange(0, i + 1 as int));
        }
        i = i + 1;
    }
    proof {
        assert(s@.subrange(0, n as int) =~= s@);
    }
    r
}

/// A freshly allocated string holding exactly the given characters.
pub fn string_of(cs: &Vec<char>) -> (r: String)
    ensures
        r@ == cs@,
{
    let mut r = String::new();
    let mut i: usize = 0;
    while i < cs.len()
        invariant
            i <= cs@.len(),
            r@ == cs@.subrange(0, i as int),
        decreases cs@.len() - i,
    {
        push_char(&mut r, cs[i]);
        proof {
            assert(cs@.subrange(0, i as int).push(cs@[i as int]) =~= cs@.subrange(0, i + 1 as int));
        }
        i = i + 1;
    }
    proof {
        assert(cs@.subrange(0, cs@.len() as int) =~= cs@);
    }
    r
}

/// The characters of one normalised line: `clean` made executable.
pub fn clean_chars(cs: &Vec<char>) -> (r: Vec<char>)
    ensures
        r@ == clean(cs@),
{
    let n = cs.len();
    proof {
        assert(cs@.subrange(0, n as int) =~= cs@);
    }
    let mut a: usize = 0;
    while a < n && is_space_char(cs[a])
        invariant
            a <= n,
            n == cs@.len(),
            trim_front(cs@) == trim_front(cs@.subrange(a as int, n as int)),
        decreases n - a,
    {
        proof {
            let rest = cs@.subrange(a as int, n as int);
            assert(rest.first() == cs@[a as int]);
            assert(rest.drop_first() =~= cs@.subrange(a + 1 as int, n as int));
        }
        a = a + 1;
    }
    proof {
        let rest = cs@.subrange(a as int, n as int);
        if a < n {
            assert(!is_space(rest.first()));
        }
        assert(trim_front(cs@) == rest);
    }
    let mut b: usize = n;
    while b > a && is_space_char(cs[b - 1])
        invariant
            a <= b <= n,
            n == cs@.len(),
            trim_front(cs@) == cs@.subrange(a as int, n as int),
            trim_back(cs@.subrange(a as int, n as int)) == trim_back(
                cs@.subrange(a as int, b as int),
            ),
        decreases b,
    {
        proof {
            let part = cs@.subrange(a as int, b as int);
            assert(part.last() == cs@[b - 1 as int]);
            assert(part.drop_last() =~= cs@.subrange(a as int, b - 1 as int));
        }
        b = b - 1;
    }
    proof {
        let part = cs@.subrange(a as int, b as int);
        if b > a {
            assert(!is_space(part.last()));
        } else {
            assert(part =~= Seq::<char>::empty());
        }
        assert(trim_spec(cs@) == part);
    }
    proof {
        reveal(Seq::filter);
        assert(cs@.subrange(a as int, a as int) =~= Seq::<char>::empty());
    }
    let mut r: Vec<char> = Vec::new();
    let mut i: usize = a;
    while i < b
        invariant
            a <= i <= b <= n,
            n == cs@.len(),
            trim_spec(cs@) == cs@.subrange(a as int, b as int),
            r@ == cs@.subrange(a as int, i as int).filter(|c: char| c != '\n'),
        decreases b - i,
    {
        let c = cs[i];
        if c != '\n' {
            r.push(c);
        }
        proof {
            reveal(Seq::filter);
            let pre = cs@.subrange(a as int, i as int);
            let ext = cs@.subrange(a as int, i + 1 as int);
            assert(ext.drop_last() =~= pre);
            assert(ext.last() == cs@[i as int]);
            assert(ext.filter(|c: char| c != '\n') == if cs@[i as int] != '\n' {
                pre.filter(|c: char| c != '\n').push(cs@[i as int])
            } else {
                pre.filter(|c: char| c != '\n')
            });
        }
        i = i + 1;
    }
    r
}

/// One raw line normalised into a fresh string: trim both ends, then strip
/// embedded newlines.
pub fn clean_string(s: &str) -> (r: String)
    ensures
        r@ == clean(s@),
{
    let cs = chars_vec(s);
    let t = clean_chars(&cs);
    string_of(&t)
}

/// `pat` occurs as a contiguous subsequence of `hay`.
pub open spec fn contains_sub(hay: Seq<char>, pat: Seq<char>) -> bool {
    exists|i: int|
        0 <= i && i + pat.len() <= hay.len() && #[trigger] hay.subrange(i, i + pat.len()) == pat
}

/// `pat` occurs in `hay` starting exactly at position `i`.
fn matches_at(hay: &Vec<char>, pat: &Vec<char>, i: usize) -> (r: bool)
    requires
        i + pat@.len() <= hay@.len(),
    ensures
        r == (hay@.subrange(i as int, i + pat@.len()) == pat@),
{
    let n = hay.len();
    let m = pat.len();
    let mut j: usize = 0;
    while j < m
        invariant
            j <= m,
            n == hay@.len(),
            m == pat@.len(),
            i + m <= n,
            forall|k: int| 0 <= k < j ==> hay@[i + k] == pat@[k],
        decreases m - j,
    {
        if hay[i + j] != pat[j] {
            proof {
                assert(hay@.subrange(i as int, i + pat@.len())[j as int] == hay@[i + j]);
            }
            return false;
        }
        j = j + 1;
    }
    proof {
        assert(hay@.subrange(i as int, i + pat@.len()) =~= pat@);
    }
    true
}

/// Substring search over character vectors.
pub fn contains_chars(hay: &Vec<char>, pat: &Vec<char>) -> (r: bool)
    ensures
        r == contains_sub(hay@, pat@),
{
    let n = hay.len();
    let m = pat.len();
    if m == 0 {
        proof {
            assert(hay@.subrange(0, 0 + pat@.len() as int) =~= pat@);
        }
        return true;
    }
    if m > n {
        return false;
    }
    let mut i: usize = 0;
    while i <= n - m
        invariant
            1 <= m <= n,
            n == hay@.len(),
            m == pat@.len(),
            i <= n - m + 1,
            forall|k: int| 0 <= k < i ==> #[trigger] hay@.subrange(k, k + pat@.len()) != pat@,
        decreases n - m + 1 - i,
    {
        if matches_at(hay, pat, i) {
            return true;
        }
        i = i + 1;
    }
    false
}

/// Substring search on string slices.
pub fn contains_str(hay: &str, pat: &str) -> (r: bool)
    ensures
        r == contains_sub(hay@, pat@),
{
    let h = chars_vec(hay);
    let p = chars_vec(pat);
    contains_chars(&h, &p)
}

/// The full-width delimiter that separates a roll's label from its outcome
/// tail in a transcript line.
pub open spec fn skill_delim() -> char {
    '＞'
}

/// Position `i` holds the first delimiter of `s`.
pub open spec fn is_first_delim(s: Seq<char>, i: int) -> bool {
    0 <= i < s.len() && s[i] == skill_delim() && (forall|k: int|
        0 <= k < i ==> s[k] != skill_delim())
}

/// Some position of `s` holds the delimiter.
pub open spec fn has_delim(s: Seq<char>) -> bool {
    exists|i: int| 0 <= i < s.len() && s[i] == skill_delim()
}

/// The position of the first delimiter of `s`.
pub open spec fn first_delim(s: Seq<char>) -> int {
    choose|i: int| is_first_delim(s, i)
}

/// The skill token of one line: everything strictly before the first
/// delimiter, with trailing whitespace removed; no delimiter, no token.
pub open spec fn token_of(line: Seq<char>) -> Option<Seq<char>> {
    if has_delim(line) {
        Some(trim_back(line.subrange(0, first_delim(line))))
    } else {
        None
    }
}

proof fn lemma_first_delim_unique(s: Seq<char>, i: int, j: int)
    requires
        is_first_delim(s, i),
        is_first_delim(s, j),
    ensures
        i == j,
{
    if i < j {
        assert(s[i] != skill_delim());
    } else if j < i {
        assert(s[j] != skill_delim());
    }
}

/// The index of the first delimiter of `cs`, if any.
pub fn find_delim(cs: &Vec<char>) -> (r: Option<usize>)
    ensures
        match r {
            Some(i) => has_delim(cs@) && is_first_delim(cs@, i as int) && first_delim(cs@)
                == i as int,
            None => !has_delim(cs@),
        },
{
    let n = cs.len();
    let mut i: usize = 0;
    while i < n
        invariant
            i <= n,
            n == cs@.len(),
            forall|k: int| 0 <= k < i ==> cs@[k] != skill_delim(),
        decreases n - i,
    {
        if cs[i] == '＞' {
            proof {
                assert(is_first_delim(cs@, i as int));
                lemma_first_delim_unique(cs@, first_delim(cs@), i as int);
            }
            return Some(i);
        }
        i = i + 1;
    }
    None
}

/// The decimal digit character for `d`, which must lie in `0 ..= 9`.
pub open spec fn dec_digit(d: int) -> char {
    if d == 0 {
        '0'
    } else if d == 1 {
        '1'
    } else if d == 2 {
        '2'
    } else if d == 3 {
        '3'
    } else if d == 4 {
        '4'
    } else if d == 5 {
        '5'
    } else if d == 6 {
        '6'
    } else if d == 7 {
        '7'
    } else if d == 8 {
        '8'
    } else {
        '9'
    }
}

/// The decimal rendering of a non-negative integer, without leading zeros.
pub open spec fn dec_str(n: int) -> Seq<char>
    decreases n,
{
    if n < 10 {
        seq![dec_digit(n)]
    } else {
        dec_str(n / 10).push(dec_digit(n % 10))
    }
}

fn dec_digit_char(d: usize) -> (r: char)
    requires
        d < 10,
    ensures
        r == dec_digit(d as int),
{
    if d == 0 {
        '0'
    } else if d == 1 {
        '1'
    } else if d == 2 {
        '2'
    } else if d == 3 {
        '3'
    } else if d == 4 {
        '4'
    } else if d == 5 {
        '5'
    } else if d == 6 {
        '6'
    } else if d == 7 {
        '7'
    } else if d == 8 {
        '8'
    } else {
        '9'
    }
}

/// The prefix of `cs` before `end`, with trailing whitespace removed.
pub fn prefix_trimmed(cs: &Vec<char>, end: usize) -> (r: Vec<char>)
    requires
        end <= cs@.len(),
    ensures
        r@ == trim_back(cs@.subrange(0, end as int)),
{
    let mut b: usize = end;
    while b > 0 && is_space_char(cs[b - 1])
        invariant
            b <= end <= cs@.len(),
            trim_back(cs@.subrange(0, end as int)) == trim_back(cs@.subrange(0, b as int)),
        decreases b,
    {
        proof {
            let part = cs@.subrange(0, b as int);
            assert(part.last() == cs@[b - 1 as int]);
            assert(part.drop_last() =~= cs@.subrange(0, b - 1 as int));
        }
        b = b - 1;
    }
    proof {
        let part = cs@.subrange(0, b as int);
        if b > 0 {
            assert(!is_space(part.last()));
        } else {
            assert(part =~= Seq::<char>::empty());
        }
        assert(trim_back(part) == part);
    }
    let mut r: Vec<char> = Vec::new();
    let mut i: usize = 0;
    while i < b
        invariant
            i <= b <= cs@.len(),
            r@ == cs@.subrange(0, i as int),
        decreases b - i,
    {
        r.push(cs[i]);
        proof {
            assert(cs@.subrange(0, i as int).push(cs@[i as int]) =~= cs@.subrange(0, i + 1 as int));
        }
        i = i + 1;
    }
    r
}

/// Lexicographic order on character sequences by code point, the order in
/// which `str` values sort.
pub open spec fn lex_leq(a: Seq<char>, b: Seq<char>) -> bool
    decreases a.len(),
{
    if a.len() == 0 {
        true
    } else if b.len() == 0 {
        false
    } else if a.first() == b.first() {
        lex_leq(a.drop_first(), b.drop_first())
    } else {
        (a.first() as u32) < (b.first() as u32)
    }
}

proof fn lemma_lex_skip(a: Seq<char>, b: Seq<char>, j: int)
    requires
        0 <= j <= a.len(),
        j <= b.len(),
        forall|k: int| 0 <= k < j ==> a[k] == b[k],
    ensures
        lex_leq(a, b) == lex_leq(a.skip(j), b.skip(j)),
    decreases j,
{
    if j == 0 {
        assert(a.skip(0) =~= a);
        assert(b.skip(0) =~= b);
    } else {
        assert(a.first() == b.first());
        lemma_lex_skip(a.drop_first(), b.drop_first(), j - 1);
        assert(a.drop_first().skip(j - 1) =~= a.skip(j));
        assert(b.drop_first().skip(j - 1) =~= b.skip(j));
    }
}

/// Lexicographic comparison of two strings.
pub fn lex_leq_str(a: &str, b: &str) -> (r: bool)
    ensures
        r == lex_leq(a@, b@),
{
    let av = chars_vec(a);
    let bv = chars_vec(b);
    let na = av.len();
    let nb = bv.len();
    let mut j: usize = 0;
    while j < na && j < nb && av[j] == bv[j]
        invariant
            j <= na,
            j <= nb,
            na == a@.len(),
            nb == b@.len(),
            av@ == a@,
            bv@ == b@,
            forall|k: int| 0 <= k < j ==> a@[k] == b@[k],
        decreases na - j,
    {
        j = j + 1;
    }
    proof {
        lemma_lex_skip(a@, b@, j as int);
    }
    if j == na {
        true
    } else if j == nb {
        proof {
            assert(a@.skip(j as int).len() > 0);
        }
        false
    } else {
        proof {
            assert(a@.skip(j as int).first() == a@[j as int]);
            assert(b@.skip(j as int).first() == b@[j as int]);
        }
        (av[j] as u32) < (bv[j] as u32)
    }
}

/// `x` inserted into `s` before the first element not below it; on a sorted
/// sequence this keeps the sort.
pub open spec fn insert_lex(s: Seq<Seq<char>>, x: Seq<char>) -> Seq<Seq<char>>
    decreases s.len(),
{
    if s.len() == 0 {
        seq![x]
    } else if lex_leq(x, s.first()) {
        seq![x] + s
    } else {
        seq![s.first()] + insert_lex(s.drop_first(), x)
    }
}

/// The sequence sorted lexicographically by repeated insertion.
pub open spec fn sort_lex(s: Seq<Seq<char>>) -> Seq<Seq<char>>
    decreases s.len(),
{
    if s.len() == 0 {
        s
    } else {
        insert_lex(sort_lex(s.drop_last()), s.last())
    }
}

proof fn lemma_insert_lex_at(s: Seq<Seq<char>>, x: Seq<char>, k: int)
    requires
        0 <= k <= s.len(),
        forall|j: int| 0 <= j < k ==> !lex_leq(x, s[j]),
        k < s.len() ==> lex_leq(x, s[k]),
    ensures
        insert_lex(s, x) == s.subrange(0, k) + seq![x] + s.subrange(k, s.len() as int),
    decreases k,
{
    if k == 0 {
        if s.len() == 0 {
            assert(insert_lex(s, x) =~= s.subrange(0, 0) + seq![x] + s.subrange(0, 0));
        } else {
            assert(insert_lex(s, x) =~= s.subrange(0, 0) + seq![x] + s.subrange(0, s.len() as int));
        }
    } else {
        let t = s.drop_first();
        assert(!lex_leq(x, s[0]));
        assert(forall|j: int| 0 <= j < k - 1 ==> t[j] == s[j + 1] && !lex_leq(x, t[j]));
        lemma_insert_lex_at(t, x, k - 1);
        assert(seq![s[0]] + (t.subrange(0, k - 1) + seq![x] + t.subrange(k - 1, t.len() as int))
            =~= s.subrange(0, k) + seq![x] + s.subrange(k, s.len() as int));
    }
}

/// Inserts `x` into the vector at its lexicographic position.
fn insert_sorted(v: &mut Vec<String>, x: String)
    ensures
        final(v).deep_view() == insert_lex(old(v).deep_view(), x@),
{
    let n = v.len();
    let mut k: usize = 0;
    while k < n && !lex_leq_str(x.as_str(), v[k].as_str())
        invariant
            k <= n,
            n == v@.len(),
            *v == *old(v),
            forall|j: int| 0 <= j < k ==> !lex_leq(x@, v.deep_view()[j]),
        decreases n - k,
    {
        k = k + 1;
    }
    proof {
        lemma_insert_lex_at(old(v).deep_view(), x@, k as int);
    }
    v.insert(k, x);
    proof {
        assert(v.deep_view() =~= old(v).deep_view().subrange(0, k as int) + seq![x@] + old(
            v,
        ).deep_view().subrange(k as int, old(v).deep_view().len() as int));
    }
}

/// A lexicographically sorted copy of the given strings.
pub fn sort_strings(v: &Vec<String>) -> (r: Vec<String>)
    ensures
        r.deep_view() == sort_lex(v.deep_view()),
{
    let mut out: Vec<String> = Vec::new();
    let mut i: usize = 0;
    proof {
        assert(out.deep_view() =~= sort_lex(v.deep_view().subrange(0, 0)));
    }
    while i < v.len()
        invariant
            i <= v@.len(),
            out.deep_view() == sort_lex(v.deep_view().subrange(0, i as int)),
        decreases v@.len() - i,
    {
        let x = v[i].clone();
        insert_sorted(&mut out, x);
        proof {
            let dv = v.deep_view();
            assert(dv.subrange(0, i + 1 as int).drop_last() =~= dv.subrange(0, i as int));
            assert(dv.subrange(0, i + 1 as int).last() == dv[i as int]);
        }
        i = i + 1;
    }
    proof {
        assert(v.deep_view().subrange(0, v.deep_view().len() as int) =~= v.deep_view());
    }
    out
}

/// `lex_leq` is total: any two strings compare one way or the other.
pub proof fn lemma_lex_total(a: Seq<char>, b: Seq<char>)
    ensures
        lex_leq(a, b) || lex_leq(b, a),
    decreases a.len(),
{
    if a.len() > 0 && b.len() > 0 {
        if a.first() == b.first() {
            lemma_lex_total(a.drop_first(), b.drop_first());
        } else {
            assert((a.first() as u32) != (b.first() as u32)) by {
                vstd::utf8::char_u32_cast(a.first(), a.first() as u32);
                vstd::utf8::char_u32_cast(b.first(), b.first() as u32);
            }
        }
    }
}

/// `lex_leq` is transitive.
pub proof fn lemma_lex_trans(a: Seq<char>, b: Seq<char>, c: Seq<char>)
    requires
        lex_leq(a, b),
        lex_leq(b, c),
    ensures
        lex_leq(a, c),
    decreases a.len(),
{
    if a.len() > 0 {
        if a.first() == b.first() && b.first() == c.first() {
            lemma_lex_trans(a.drop_first(), b.drop_first(), c.drop_first());
        }
    }
}

/// The strings stand in lexicographically non-decreasing order.
pub open spec fn lex_sorted(s: Seq<Seq<char>>) -> bool {
    forall|i: int, j: int|
        #![all_triggers]
        0 <= i < j < s.len() ==> lex_leq(s[i], s[j])
}

proof fn lemma_insert_lex_ensures(s: Seq<Seq<char>>, x: Seq<char>)
    requires
        lex_sorted(s),
    ensures
        lex_sorted(insert_lex(s, x)),
        insert_lex(s, x).to_multiset() == s.to_multiset().insert(x),
    decreases s.len(),
{
    broadcast use vstd::seq_lib::group_to_multiset_ensures;
    broadcast use vstd::multiset::group_multiset_axioms;

    let r = insert_lex(s, x);
    if s.len() == 0 {
        assert(seq![x] =~= Seq::<Seq<char>>::empty().push(x));
        assert(s =~= Seq::<Seq<char>>::empty());
        assert(r.to_multiset() =~= s.to_multiset().insert(x));
    } else if lex_leq(x, s.first()) {
        assert forall|i: int, j: int| 0 <= i < j < r.len() implies lex_leq(r[i], r[j]) by {
            if i == 0 {
                assert(r[j] == s[j - 1]);
                if j - 1 > 0 {
                    lemma_lex_trans(x, s[0], s[j - 1]);
                }
            } else {
                assert(r[i] == s[i - 1] && r[j] == s[j - 1]);
            }
        }
        vstd::seq_lib::lemma_multiset_commutative(seq![x], s);
        assert(seq![x] =~= Seq::<Seq<char>>::empty().push(x));
        assert(r.to_multiset() =~= s.to_multiset().insert(x));
    } else {
        let t = s.drop_first();
        assert(forall|i: int, j: int|
            #![all_triggers]
            0 <= i < j < t.len() ==> t[i] == s[i + 1] && t[j] == s[j + 1]);
        lemma_insert_lex_ensures(t, x);
        let it = insert_lex(t, x);
        assert(r =~= seq![s[0]] + it);
        assert forall|i: int, j: int| 0 <= i < j < r.len() implies lex_leq(r[i], r[j]) by {
            if i == 0 {
                let e = it[j - 1];
                assert(it.contains(e));
                assert(it.to_multiset().count(e) > 0);
                if e == x {
                    lemma_lex_total(x, s[0]);
                } else {
                    assert(t.to_multiset().count(e) > 0);
                    assert(t.contains(e));
                    let k = choose|k: int| 0 <= k < t.len() && t[k] == e;
                    assert(lex_leq(s[0], s[k + 1]));
                }
            } else {
                assert(r[i] == it[i - 1] && r[j] == it[j - 1]);
            }
        }
        vstd::seq_lib::lemma_multiset_commutative(seq![s[0]], t);
        vstd::seq_lib::lemma_multiset_commutative(seq![s[0]], it);
        assert(seq![s[0]] =~= Seq::<Seq<char>>::empty().push(s[0]));
        assert(s =~= seq![s[0]] + t);
        assert(r.to_multiset() =~= s.to_multiset().insert(x));
    }
}

/// `sort_lex` really sorts: its result is lexicographically ordered and holds
/// exactly the input strings, multiplicities included.
pub proof fn lemma_sort_lex_ensures(s: Seq<Seq<char>>)
    ensures
        lex_sorted(sort_lex(s)),
        sort_lex(s).to_multiset() == s.to_multiset(),
    decreases s.len(),
{
    broadcast use vstd::seq_lib::group_to_multiset_ensures;

    if s.len() > 0 {
        lemma_sort_lex_ensures(s.drop_last());
        lemma_insert_lex_ensures(sort_lex(s.drop_last()), s.last());
        assert(s =~= s.drop_last().push(s.last()));
    }
}

/// The parts joined with the separator between neighbours.
pub open spec fn join_sep(parts: Seq<Seq<char>>, sep: Seq<char>) -> Seq<char>
    decreases parts.len(),
{
    if parts.len() == 0 {
        Seq::empty()
    } else if parts.len() == 1 {
        parts[0]
    } else {
        join_sep(parts.drop_last(), sep) + sep + parts.last()
    }
}

/// Joins the strings with the separator between neighbours.
pub fn join_strings(parts: &Vec<String>, sep: &str) -> (r: String)
    ensures
        r@ == join_sep(parts.deep_view(), sep@),
{
    let mut r = String::new();
    let mut i: usize = 0;
    proof {
        assert(r@ =~= join_sep(parts.deep_view().subrange(0, 0), sep@));
    }
    while i < parts.len()
        invariant
            i <= parts@.len(),
            parts@.len() == parts.deep_view().len(),
            r@ == join_sep(parts.deep_view().subrange(0, i as int), sep@),
        decreases parts@.len() - i,
    {
        if i > 0 {
            r.append(sep);
        }
        r.append(parts[i].as_str());
        proof {
            let dv = parts.deep_view();
            let ext = dv.subrange(0, i + 1 as int);
            assert(ext.drop_last() =~= dv.subrange(0, i as int));
            assert(ext.last() == dv[i as int]);
            if i == 0 {
                assert(r@ =~= join_sep(ext, sep@));
            } else {
                assert(r@ =~= join_sep(ext, sep@));
            }
        }
        i = i + 1;
    }
    proof {
        assert(parts.deep_view().subrange(0, parts.deep_view().len() as int) =~= parts.deep_view());
    }
    r
}

/// Appends the decimal rendering of `n` to `out`.
pub fn push_decimal(out: &mut String, n: usize)
    ensures
        final(out)@ == old(out)@ + dec_str(n as int),
    decreases n,
{
    if n >= 10 {
        push_decimal(out, n / 10);
        push_char(out, dec_digit_char(n % 10));
        proof {
            assert(old(out)@ + dec_str(n as int / 10).push(dec_digit(n as int % 10)) =~= (old(
                out,
            )@ + dec_str(n as int / 10)).push(dec_digit(n as int % 10)));
        }
    } else {
        push_char(out, dec_digit_char(n));
        proof {
            assert(old(out)@ + seq![dec_digit(n as int)] =~= old(out)@.push(dec_digit(n as int)));
        }
    }
}

} // verus!
