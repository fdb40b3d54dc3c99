//! Character-level string helpers: trimming, splitting, word counting,
//! joining and decimal formatting, each specified over `Seq<char>`.

use vstd::prelude::*;

verus! {

/// The characters Rust's `char::is_whitespace` accepts: the Unicode
/// `White_Space` set.
pub open spec fn is_space_char(c: char) -> bool {
    c == ' ' || c == '\t' || c == '\n' || c == '\u{b}' || c == '\u{c}' || c == '\r' || c
        == '\u{85}' || c == '\u{a0}' || c == '\u{1680}' || c == '\u{2000}' || c == '\u{2001}' || c
        == '\u{2002}' || c == '\u{2003}' || c == '\u{2004}' || c == '\u{2005}' || c == '\u{2006}'
        || c == '\u{2007}' || c == '\u{2008}' || c == '\u{2009}' || c == '\u{200a}' || c
        == '\u{2028}' || c == '\u{2029}' || c == '\u{202f}' || c == '\u{205f}' || c == '\u{3000}'
}

/// Whitespace test on one character, written out over the Unicode
/// `White_Space` set.
pub fn is_space(c: char) -> (r: bool)
    ensures
        r == is_space_char(c),
{
    c == ' ' || c == '\t' || c == '\n' || c == '\u{b}' || c == '\u{c}' || c == '\r' || c
        == '\u{85}' || c == '\u{a0}' || c == '\u{1680}' || c == '\u{2000}' || c == '\u{2001}' || c
        == '\u{2002}' || c == '\u{2003}' || c == '\u{2004}' || c == '\u{2005}' || c == '\u{2006}'
        || c == '\u{2007}' || c == '\u{2008}' || c == '\u{2009}' || c == '\u{200a}' || c
        == '\u{2028}' || c == '\u{2029}' || c == '\u{202f}' || c == '\u{205f}' || c == '\u{3000}'
}

/// The sequence without its leading whitespace.
pub open spec fn trim_front(s: Seq<char>) -> Seq<char>
    decreases s.len(),
{
    if s.len() > 0 && is_space_char(s[0]) {
        trim_front(s.drop_first())
    } else {
        s
    }
}

/// The sequence without its trailing whitespace.
pub open spec fn trim_back(s: Seq<char>) -> Seq<char>
    decreases s.len(),
{
    if s.len() > 0 && is_space_char(s.last()) {
        trim_back(s.drop_last())
    } else {
        s
    }
}

/// The sequence without leading and trailing whitespace.
pub open spec fn trim_spec(s: Seq<char>) -> Seq<char> {
    trim_back(trim_front(s))
}

proof fn lemma_trim_front_at(s: Seq<char>, a: int)
    requires
        0 <= a <= s.len(),
        forall|k: int| 0 <= k < a ==> is_space_char(#[trigger] s[k]),
        a < s.len() ==> !is_space_char(s[a]),
    ensures
        trim_front(s) == s.subrange(a, s.len() as int),
    decreases a,
{
    if a == 0 {
        if s.len() > 0 && is_space_char(s[0]) {
            assert(false);
        }
        assert(s.subrange(0, s.len() as int) =~= s);
    } else {
        assert(is_space_char(s[0]));
        let t = s.drop_first();
        assert(forall|k: int| 0 <= k < a - 1 ==> is_space_char(#[trigger] t[k]));
        lemma_trim_front_at(t, a - 1);
        assert(t.subrange(a - 1, t.len() as int) =~= s.subrange(a, s.len() as int));
    }
}

proof fn lemma_trim_back_at(s: Seq<char>, b: int)
    requires
        0 <= b <= s.len(),
        forall|k: int| b <= k < s.len() ==> is_space_char(#[trigger] s[k]),
        b > 0 ==> !is_space_char(s[b - 1]),
    ensures
        trim_back(s) == s.subrange(0, b),
    decreases s.len() - b,
{
    if b == s.len() {
        if s.len() > 0 && is_space_char(s.last()) {
            assert(false);
        }
        assert(s.subrange(0, s.len() as int) =~= s);
    } else {
        assert(is_space_char(s.last()));
        let t = s.drop_last();
        assert(forall|k: int| b <= k < t.len() ==> is_space_char(#[trigger] t[k]));
        lemma_trim_back_at(t, b);
        assert(t.subrange(0, b) =~= s.subrange(0, b));
    }
}

/// The slice without leading and trailing whitespace.
pub fn trim(s: &str) -> (r: &str)
    ensures
        r@ == trim_spec(s@),
{
    let n = s.unicode_len();
    let mut a: usize = 0;
    while a < n && is_space(s.get_char(a))
        invariant
            n == s@.len(),
            0 <= a <= n,
            forall|k: int| 0 <= k < a ==> is_space_char(#[trigger] s@[k]),
        decreases n - a,
    {
        a += 1;
    }
    let mut b: usize = n;
    while b > a && is_space(s.get_char(b - 1))
        invariant
            n == s@.len(),
            0 <= a <= b <= n,
            forall|k: int| 0 <= k < a ==> is_space_char(#[trigger] s@[k]),
            a < n ==> !is_space_char(s@[a as int]),
            forall|k: int| b <= k < n ==> is_space_char(#[trigger] s@[k]),
        decreases b,
    {
        b -= 1;
    }
    let r = s.substring_char(a, b);
    proof {
        lemma_trim_front_at(s@, a as int);
        let f = trim_front(s@);
        assert(f == s@.subrange(a as int, n as int));
        if b == a {
            // All of the remainder is whitespace.
            lemma_trim_back_at(f, 0);
        } else {
            assert(!is_space_char(s@[b - 1]));
            assert(forall|k: int| b - a <= k < f.len() ==> is_space_char(#[trigger] f[k]));
            lemma_trim_back_at(f, b - a);
        }
        assert(f.subrange(0, b - a) =~= s@.subrange(a as int, b as int));
    }
    r
}

/// Count of maximal nonblank runs from position `i` on, given whether a
/// run is already open.
pub open spec fn word_count_from(s: Seq<char>, i: int, in_word: bool) -> int
    decreases s.len() - i,
{
    if i < 0 || i >= s.len() {
        0
    } else {
        let sp = is_space_char(s[i]);
        (if !sp && !in_word {
            1int
        } else {
            0int
        }) + word_count_from(s, i + 1, !sp)
    }
}

/// How many whitespace-separated words the sequence holds.
pub open spec fn word_count(s: Seq<char>) -> int {
    word_count_from(s, 0, false)
}

/// How many whitespace-separated words the slice holds.
pub fn count_words(s: &str) -> (r: usize)
    ensures
        r == word_count(s@),
        r <= s@.len(),
    decreases s@.len(),
{
    let n = s.unicode_len();
    let mut count: usize = 0;
    let mut in_word = false;
    let mut i: usize = 0;
    proof {
        lemma_word_count_bound(s@, 0, false);
    }
    while i < n
        invariant
            n == s@.len(),
            0 <= i <= n,
            count + word_count_from(s@, i as int, in_word) == word_count(s@),
            word_count(s@) <= s@.len(),
            count <= i,
        decreases n - i,
    {
        let sp = is_space(s.get_char(i));
        if !sp && !in_word {
            count += 1;
        }
        in_word = !sp;
        i += 1;
    }
    count
}

proof fn lemma_word_count_bound(s: Seq<char>, i: int, in_word: bool)
    ensures
        word_count_from(s, i, in_word) <= s.len() - i || word_count_from(s, i, in_word) == 0,
        word_count_from(s, i, in_word) >= 0,
    decreases s.len() - i,
{
    if 0 <= i < s.len() {
        lemma_word_count_bound(s, i + 1, !is_space_char(s[i]));
    }
}

/// True exactly when the two slices hold the same characters.
pub fn str_eq(a: &str, b: &str) -> (r: bool)
    ensures
        r == (a@ == b@),
{
    let x = a.to_owned();
    let y = b.to_owned();
    x == y
}

/// Parts joined with the given separator between them.
pub open spec fn join_sep(parts: Seq<Seq<char>>, sep: char) -> Seq<char>
    decreases parts.len(),
{
    if parts.len() == 0 {
        Seq::empty()
    } else if parts.len() == 1 {
        parts[0]
    } else {
        join_sep(parts.drop_last(), sep) + seq![sep] + parts.last()
    }
}

/// Join the words with single commas, as the seed echo check compares
/// against.
pub fn join_comma(parts: &Vec<String>) -> (r: String)
    ensures
        r@ == join_sep(parts.deep_view(), ','),
{
    let ghost pv = parts.deep_view();
    let mut out = String::new();
    let n = parts.len();
    assert(join_sep(pv.take(0), ',') == Seq::<char>::empty()) by {
        assert(pv.take(0) =~= Seq::<Seq<char>>::empty());
    }
    for i in 0..n
        invariant
            n == pv.len(),
            parts.deep_view() == pv,
            out@ == join_sep(pv.take(i as int), ','),
    {
        if i > 0 {
            out.append(",");
            proof {
                reveal_strlit(",");
            }
        }
        out.append(parts[i].as_str());
        proof {
            assert(pv.take(i + 1).drop_last() =~= pv.take(i as int));
            assert(pv[i as int] == parts@[i as int]@);
            if i == 0 {
                assert(join_sep(pv.take(1), ',') == pv[0]);
                assert(out@ =~= pv[0]);
            } else {
                assert(","@ == seq![',']) by {
                    reveal_strlit(",");
                }
                assert(out@ =~= join_sep(pv.take(i as int), ',') + seq![','] + pv[i as int]);
            }
        }
    }
    proof {
        assert(pv.take(n as int) =~= pv);
    }
    out
}

/// Join the words with single spaces.
pub fn join_space(parts: &Vec<String>) -> (r: String)
    ensures
        r@ == join_sep(parts.deep_view(), ' '),
{
    let ghost pv = parts.deep_view();
    let mut out = String::new();
    let n = parts.len();
    assert(join_sep(pv.take(0), ' ') == Seq::<char>::empty()) by {
        assert(pv.take(0) =~= Seq::<Seq<char>>::empty());
    }
    for i in 0..n
        invariant
            n == pv.len(),
            parts.deep_view() == pv,
            out@ == join_sep(pv.take(i as int), ' '),
    {
        if i > 0 {
            out.append(" ");
            proof {
                reveal_strlit(" ");
            }
        }
        out.append(parts[i].as_str());
        proof {
            assert(pv.take(i + 1).drop_last() =~= pv.take(i as int));
            assert(pv[i as int] == parts@[i as int]@);
            if i == 0 {
                assert(join_sep(pv.take(1), ' ') == pv[0]);
                assert(out@ =~= pv[0]);
            } else {
                assert(" "@ == seq![' ']) by {
                    reveal_strlit(" ");
                }
                assert(out@ =~= join_sep(pv.take(i as int), ' ') + seq![' '] + pv[i as int]);
            }
        }
    }
    proof {
        assert(pv.take(n as int) =~= pv);
    }
    out
}

/// The decimal digits of a number, most significant first.
pub open spec fn dec_str(n: nat) -> Seq<char>
    decreases n,
{
    if n < 10 {
        seq![dec_digit(n)]
    } else {
        dec_str(n / 10).push(dec_digit(n % 10))
    }
}

pub open spec fn dec_digit(n: nat) -> char {
    if n == 0 {
        '0'
    } else if n == 1 {
        '1'
    } else if n == 2 {
        '2'
    } else if n == 3 {
        '3'
    } else if n == 4 {
        '4'
    } else if n == 5 {
        '5'
    } else if n == 6 {
        '6'
    } else if n == 7 {
        '7'
    } else if n == 8 {
        '8'
    } else {
        '9'
    }
}

fn digit_str(n: u64) -> (r: &'static str)
    requires
        n < 10,
    ensures
        r@ == seq![dec_digit(n as nat)],
{
    proof {
        reveal_strlit("0");
        reveal_strlit("1");
        reveal_strlit("2");
        reveal_strlit("3");
        reveal_strlit("4");
        reveal_strlit("5");
        reveal_strlit("6");
        reveal_strlit("7");
        reveal_strlit("8");
        reveal_strlit("9");
    }
    if n == 0 {
        "0"
    } else if n == 1 {
        "1"
    } else if n == 2 {
        "2"
    } else if n == 3 {
        "3"
    } else if n == 4 {
        "4"
    } else if n == 5 {
        "5"
    } else if n == 6 {
        "6"
    } else if n == 7 {
        "7"
    } else if n == 8 {
        "8"
    } else {
        "9"
    }
}

/// The number written in decimal.
pub fn u64_to_string(n: u64) -> (r: String)
    ensures
        r@ == dec_str(n as nat),
    decreases n,
{
    if n < 10 {
        digit_str(n).to_owned()
    } else {
        let head = u64_to_string(n / 10);
        let r = head.concat(digit_str(n % 10));
        proof {
            assert(r@ =~= dec_str((n / 10) as nat).push(dec_digit((n % 10) as nat)));
        }
        r
    }
}

/// A signed number written in decimal, with a leading minus sign when
/// negative.
pub open spec fn int_str(n: int) -> Seq<char> {
    if n >= 0 {
        dec_str(n as nat)
    } else {
        seq!['-'] + dec_str((-n) as nat)
    }
}

/// The signed number written in decimal.
pub fn i32_to_string(n: i32) -> (r: String)
    ensures
        r@ == int_str(n as int),
{
    if n >= 0 {
        u64_to_string(n as u64)
    } else {
        let mag = (-(n as i64)) as u64;
        let mut s = "-".to_owned();
        proof {
            reveal_strlit("-");
        }
        let digits = u64_to_string(mag);
        s.append(digits.as_str());
        proof {
            assert(s@ =~= seq!['-'] + dec_str((-(n as int)) as nat));
        }
        s
    }
}

/// The first position at or after `i` holding `sep`, or the end.
pub open spec fn first_at(s: Seq<char>, i: int, sep: char) -> int
    decreases s.len() - i,
{
    if i < 0 || i >= s.len() {
        s.len() as int
    } else if s[i] == sep {
        i
    } else {
        first_at(s, i + 1, sep)
    }
}

proof fn lemma_first_at_ge(s: Seq<char>, i: int, sep: char)
    requires
        0 <= i <= s.len(),
    ensures
        i <= first_at(s, i, sep) <= s.len(),
    decreases s.len() - i,
{
    if i < s.len() && s[i] != sep {
        lemma_first_at_ge(s, i + 1, sep);
    }
}

/// The pieces of `s` from position `i` on, cut at every `sep`.
pub open spec fn split_from(s: Seq<char>, i: int, sep: char) -> Seq<Seq<char>>
    decreases s.len() - i,
    via split_from_dec
{
    let j = first_at(s, i, sep);
    if j >= s.len() {
        seq![s.subrange(i, s.len() as int)]
    } else {
        seq![s.subrange(i, j)] + split_from(s, j + 1, sep)
    }
}

#[via_fn]
proof fn split_from_dec(s: Seq<char>, i: int, sep: char) {
    if 0 <= i <= s.len() {
        lemma_first_at_ge(s, i, sep);
    }
}

/// The pieces of `s` cut at every `sep`; like the pieces, the
/// separators between them are kept even when empty.
pub open spec fn split_spec(s: Seq<char>, sep: char) -> Seq<Seq<char>> {
    split_from(s, 0, sep)
}

pub proof fn lemma_first_at(s: Seq<char>, i: int, j: int, sep: char)
    requires
        0 <= i <= j <= s.len(),
        forall|k: int| i <= k < j ==> s[k] != sep,
        j < s.len() ==> s[j] == sep,
    ensures
        first_at(s, i, sep) == if j < s.len() {
            j
        } else {
            s.len() as int
        },
    decreases j - i,
{
    if i < j {
        lemma_first_at(s, i + 1, j, sep);
    }
}

/// Cut the slice at every separator, keeping empty pieces.
pub fn split_char(s: &str, sep: char) -> (r: Vec<String>)
    ensures
        r.deep_view() == split_spec(s@, sep),
{
    let n = s.unicode_len();
    let mut parts: Vec<String> = Vec::new();
    let mut start: usize = 0;
    let mut i: usize = 0;
    while i < n
        invariant
            n == s@.len(),
            0 <= start <= i <= n,
            forall|k: int| start <= k < i ==> s@[k] != sep,
            split_spec(s@, sep) == parts.deep_view() + split_from(s@, start as int, sep),
        decreases n - i,
    {
        if s.get_char(i) == sep {
            let ghost parts0 = parts.deep_view();
            let piece = s.substring_char(start, i).to_owned();
            parts.push(piece);
            proof {
                lemma_first_at(s@, start as int, i as int, sep);
                assert(split_from(s@, start as int, sep) == seq![
                    s@.subrange(start as int, i as int),
                ] + split_from(s@, i + 1, sep));
                assert(parts.deep_view() =~= parts0.push(s@.subrange(start as int, i as int)));
                assert(parts.deep_view() + split_from(s@, i + 1, sep) =~= parts0 + split_from(
                    s@,
                    start as int,
                    sep,
                ));
            }
            start = i + 1;
        }
        i += 1;
    }
    let ghost parts0 = parts.deep_view();
    let piece = s.substring_char(start, n).to_owned();
    parts.push(piece);
    proof {
        lemma_first_at(s@, start as int, n as int, sep);
        assert(split_from(s@, start as int, sep) == seq![s@.subrange(start as int, n as int)]);
        assert(parts.deep_view() =~= parts0.push(s@.subrange(start as int, n as int)));
        assert(parts.deep_view() =~= parts0 + split_from(s@, start as int, sep));
    }
    parts
}

/// True when `needle` occurs contiguously inside `hay`.
pub open spec fn has_substring(hay: Seq<char>, needle: Seq<char>) -> bool {
    exists|i: int|
        0 <= i <= hay.len() - needle.len() && #[trigger] hay.subrange(i, i + needle.len())
            == needle
}

/// Substring search by direct comparison at every position.
pub fn contains_str(hay: &str, needle: &str) -> (r: bool)
    ensures
        r == has_substring(hay@, needle@),
{
    let n = hay.unicode_len();
    let m = needle.unicode_len();
    if m > n {
        proof {
            assert(!has_substring(hay@, needle@));
        }
        return false;
    }
    let mut i: usize = 0;
    while i <= n - m
        invariant
            n == hay@.len(),
            m == needle@.len(),
            m <= n,
            0 <= i <= n - m + 1,
            forall|k: int|
                0 <= k < i ==> #[trigger] hay@.subrange(k, k + needle@.len() as int)
                    != needle@,
        decreases n - i,
    {
        let mut j: usize = 0;
        let mut same = true;
        while j < m
            invariant
                n == hay@.len(),
                m == needle@.len(),
                i + m <= n,
                0 <= j <= m,
                same ==> forall|k: int| 0 <= k < j ==> hay@[i + k] == needle@[k],
                !same ==> hay@.subrange(i as int, i + needle@.len() as int) != needle@,
            decreases m - j,
        {
            if hay.get_char(i + j) != needle.get_char(j) {
                proof {
                    assert(hay@.subrange(i as int, i + needle@.len() as int)[j as int] == hay@[
                        i + j]);
                }
                same = false;
            }
            j += 1;
        }
        if same {
            proof {
                assert(hay@.subrange(i as int, i + needle@.len() as int) =~= needle@);
            }
            return true;
        }
        proof {
            if m == 0 {
                assert(hay@.subrange(i as int, i as int) =~= needle@);
            }
        }
        i += 1;
    }
    proof {
        assert(!has_substring(hay@, needle@));
    }
    false
}

} // verus!
