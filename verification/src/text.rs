//! Character-level helpers shared by the library: converting between strings and
//! character vectors, searching, trimming and formatting integers.
use vstd::prelude::*;

verus! {

broadcast use vstd::string::group_string_axioms;

/// Appends one character to a string (`String::push`).
#[verifier::external_body]
pub(crate) fn push_char(s: &mut String, c: char)
    ensures
        final(s)@ == old(s)@.push(c),
{
    s.push(c);
}

/// The characters of a string slice, in order.
pub fn chars_of(s: &str) -> (r: Vec<char>)
    ensures
        r@ == s@,
{
    let mut r: Vec<char> = Vec::new();
    for c in it: s.chars()
        invariant
            r@ == it.seq().take(it.index()),
            it.seq() == s@,
    {
        r.push(c);
        assert(it.seq().take(it.index() + 1) == it.seq().take(it.index()).push(c));
    }
    assert(r@ == s@);
    r
}

/// Appends a run of characters to a string.
pub fn push_chars(s: &mut String, cs: &[char])
    ensures
        final(s)@ == old(s)@ + cs@,
{
    let n = cs.len();
    for i in 0..n
        invariant
            n == cs@.len(),
            s@ == old(s)@ + cs@.take(i as int),
    {
        push_char(s, cs[i]);
        assert(cs@.take(i + 1) == cs@.take(i as int).push(cs@[i as int]));
    }
    assert(cs@.take(n as int) == cs@);
}

/// The string holding exactly the given characters.
pub fn string_of(cs: &[char]) -> (r: String)
    ensures
        r@ == cs@,
{
    let mut s = String::new();
    push_chars(&mut s, cs);
    s
}

/// The characters `cs[from..to]` as a string.
pub fn string_of_range(cs: &[char], from: usize, to: usize) -> (r: String)
    requires
        from <= to <= cs@.len(),
    ensures
        r@ == cs@.subrange(from as int, to as int),
{
    let mut s = String::new();
    let mut i = from;
    while i < to
        invariant
            from <= i <= to <= cs@.len(),
            s@ == cs@.subrange(from as int, i as int),
        decreases to - i,
    {
        push_char(&mut s, cs[i]);
        assert(cs@.subrange(from as int, i + 1) == cs@.subrange(from as int, i as int).push(
            cs@[i as int],
        ));
        i = i + 1;
    }
    s
}

/// Appends a string slice to a string.
pub fn push_str(s: &mut String, t: &str)
    ensures
        final(s)@ == old(s)@ + t@,
{
    s.append(t);
}

/// Whether two strings hold the same characters.
pub fn str_eq(a: &str, b: &str) -> (r: bool)
    ensures
        r == (a@ == b@),
{
    let x = a.to_string();
    let y = b.to_string();
    x == y
}

/// Whether `s` starts at position `i` with the pattern `p`.
pub open spec fn occurs_at(s: Seq<char>, p: Seq<char>, i: int) -> bool {
    0 <= i && i + p.len() <= s.len() && s.subrange(i, i + p.len()) == p
}

/// The index of the last occurrence of `p` in `s`, if any.
pub open spec fn last_occurrence(s: Seq<char>, p: Seq<char>) -> Option<int> {
    if exists|i: int| #[trigger] occurs_at(s, p, i) {
        Some(choose|i: int| occurs_at(s, p, i) && forall|j: int| #[trigger] occurs_at(s, p, j) ==> j <= i)
    } else {
        None
    }
}

/// Exec-side check that `s[i..]` starts with `p`.
pub fn matches_at(s: &[char], p: &[char], i: usize) -> (r: bool)
    ensures
        r == occurs_at(s@, p@, i as int),
{
    if i > s.len() || p.len() > s.len() - i {
        return false;
    }
    let n = p.len();
    for k in 0..n
        invariant
            n == p@.len(),
            s@.len() == s.len(),
            i + n <= s.len(),
            forall|j: int| 0 <= j < k ==> s@[i + j] == p@[j],
    {
        if s[i + k] != p[k] {
            assert(s@.subrange(i as int, i + n)[k as int] != p@[k as int]);
            return false;
        }
    }
    assert(s@.subrange(i as int, i + n) =~= p@);
    true
}

/// The index of the last occurrence of `p` in `s` (`str::rfind`).
pub fn rfind(s: &[char], p: &[char]) -> (r: Option<usize>)
    ensures
        r matches Some(i) ==> occurs_at(s@, p@, i as int) && forall|j: int|
            #[trigger] occurs_at(s@, p@, j) ==> j <= i,
        r is None ==> forall|j: int| !#[trigger] occurs_at(s@, p@, j),
        r matches Some(i) ==> last_occurrence(s@, p@) == Some(i as int),
        r is None ==> last_occurrence(s@, p@) is None,
{
    let mut i = s.len();
    loop
        invariant
            i <= s@.len(),
            forall|j: int| i < j ==> !#[trigger] occurs_at(s@, p@, j),
        ensures
            forall|j: int| 0 <= j ==> !#[trigger] occurs_at(s@, p@, j),
        decreases i,
    {
        if matches_at(s, p, i) {
            let ghost w = choose|k: int| occurs_at(s@, p@, k) && forall|j: int| #[trigger] occurs_at(s@, p@, j) ==> j <= k;
            assert(occurs_at(s@, p@, w) ==> w <= i as int);
            assert(forall|j: int| #[trigger] occurs_at(s@, p@, j) ==> j <= i);
            return Some(i);
        }
        if i == 0 {
            break;
        }
        i = i - 1;
    }
    assert forall|j: int| !#[trigger] occurs_at(s@, p@, j) by {
        if j < 0 {
        }
    }
    None
}

/// Unicode `White_Space` characters, as `char::is_whitespace` defines them.
pub open spec fn is_white_space(c: char) -> bool {
    ||| c == '\t' || c == '\n' || c == '\u{0B}' || c == '\u{0C}' || c == '\r' || c == ' '
    ||| c == '\u{85}' || c == '\u{A0}' || c == '\u{1680}'
    ||| ('\u{2000}' <= c && c <= '\u{200A}')
    ||| c == '\u{2028}' || c == '\u{2029}' || c == '\u{202F}' || c == '\u{205F}' || c == '\u{3000}'
}

pub fn is_white_space_exec(c: char) -> (r: bool)
    ensures
        r == is_white_space(c),
{
    c == '\t' || c == '\n' || c == '\u{0B}' || c == '\u{0C}' || c == '\r' || c == ' ' || c
        == '\u{85}' || c == '\u{A0}' || c == '\u{1680}' || ('\u{2000}' <= c && c <= '\u{200A}')
        || c == '\u{2028}' || c == '\u{2029}' || c == '\u{202F}' || c == '\u{205F}' || c
        == '\u{3000}'
}

/// Number of leading white-space characters.
pub open spec fn leading_ws(s: Seq<char>) -> nat
    decreases s.len(),
{
    if s.len() > 0 && is_white_space(s[0]) {
        1 + leading_ws(s.drop_first())
    } else {
        0
    }
}

/// Number of trailing white-space characters.
pub open spec fn trailing_ws(s: Seq<char>) -> nat
    decreases s.len(),
{
    if s.len() > 0 && is_white_space(s.last()) {
        1 + trailing_ws(s.drop_last())
    } else {
        0
    }
}

/// `str::trim`: the string without leading and trailing white space.
pub open spec fn trim_spec(s: Seq<char>) -> Seq<char> {
    let l = leading_ws(s);
    if l == s.len() {
        Seq::empty()
    } else {
        s.subrange(l as int, s.len() - trailing_ws(s))
    }
}

proof fn lemma_leading_ws(s: Seq<char>, i: int)
    requires
        0 <= i <= s.len(),
        forall|j: int| 0 <= j < i ==> is_white_space(#[trigger] s[j]),
    ensures
        leading_ws(s) >= i,
        leading_ws(s) <= s.len(),
        leading_ws(s) < s.len() ==> !is_white_space(s[leading_ws(s) as int]),
        forall|j: int| 0 <= j < leading_ws(s) ==> is_white_space(#[trigger] s[j]),
    decreases s.len(),
{
    if s.len() > 0 && is_white_space(s[0]) {
        let t = s.drop_first();
        assert forall|j: int| 0 <= j < (if i > 0 { i - 1 } else { 0 }) implies is_white_space(#[trigger] t[j]) by {
            assert(t[j] == s[j + 1]);
        }
        lemma_leading_ws(t, if i > 0 { i - 1 } else { 0 });
        assert forall|j: int| 0 <= j < leading_ws(s) implies is_white_space(#[trigger] s[j]) by {
            if j > 0 {
                assert(s[j] == t[j - 1]);
            }
        }
    }
}

proof fn lemma_trailing_ws(s: Seq<char>, i: int)
    requires
        0 <= i <= s.len(),
        forall|j: int| s.len() - i <= j < s.len() ==> is_white_space(#[trigger] s[j]),
    ensures
        trailing_ws(s) >= i,
        trailing_ws(s) <= s.len(),
        trailing_ws(s) < s.len() ==> !is_white_space(s[s.len() - trailing_ws(s) - 1]),
        forall|j: int| s.len() - trailing_ws(s) <= j < s.len() ==> is_white_space(#[trigger] s[j]),
    decreases s.len(),
{
    if s.len() > 0 && is_white_space(s.last()) {
        let t = s.drop_last();
        assert forall|j: int| t.len() - (if i > 0 { i - 1 } else { 0 }) <= j < t.len() implies is_white_space(#[trigger] t[j]) by {
            assert(t[j] == s[j]);
        }
        lemma_trailing_ws(t, if i > 0 { i - 1 } else { 0 });
        assert forall|j: int| s.len() - trailing_ws(s) <= j < s.len() implies is_white_space(#[trigger] s[j]) by {
            if j < s.len() - 1 {
                assert(s[j] == t[j]);
            }
        }
    }
}

/// Trimming a trimmed text leaves it unchanged.
pub proof fn lemma_trim_idempotent(s: Seq<char>)
    ensures
        trim_spec(trim_spec(s)) == trim_spec(s),
{
    let t = trim_spec(s);
    lemma_leading_ws(s, 0);
    lemma_trailing_ws(s, 0);
    let l = leading_ws(s);
    if l == s.len() {
        assert(t.len() == 0);
        assert(leading_ws(t) == 0);
    } else {
        let tr = trailing_ws(s);
        assert(!is_white_space(s[l as int]));
        if tr > s.len() - l - 1 {
            assert(is_white_space(s[l as int]));
        }
        assert(t =~= s.subrange(l as int, s.len() - tr));
        assert(t.len() > 0);
        assert(t[0] == s[l as int]);
        assert(t.last() == s[s.len() - tr - 1]);
        assert(leading_ws(t) == 0);
        assert(trailing_ws(t) == 0);
        assert(t.subrange(0, t.len() as int) =~= t);
    }
}

/// `str::trim` on a character vector.
pub fn trim_chars(s: &[char]) -> (r: Vec<char>)
    ensures
        r@ == trim_spec(s@),
{
    let n = s.len();
    let mut l: usize = 0;
    while l < n && !is_white_space_exec(s[l])
        == false
        invariant
            l <= n == s@.len(),
            forall|j: int| 0 <= j < l ==> is_white_space(#[trigger] s@[j]),
        decreases n - l,
    {
        l = l + 1;
    }
    proof {
        lemma_leading_ws(s@, l as int);
    }
    assert(leading_ws(s@) == l);
    if l == n {
        return Vec::new();
    }
    let mut t: usize = 0;
    while t < n && is_white_space_exec(s[n - 1 - t])
        invariant
            t <= n == s@.len(),
            l < n,
            forall|j: int| n - t <= j < n ==> is_white_space(#[trigger] s@[j]),
        decreases n - t,
    {
        t = t + 1;
    }
    proof {
        lemma_trailing_ws(s@, t as int);
    }
    assert(trailing_ws(s@) == t);
    let mut r: Vec<char> = Vec::new();
    let mut i = l;
    while i < n - t
        invariant
            l <= i <= n - t,
            t <= n == s@.len(),
            r@ == s@.subrange(l as int, i as int),
        decreases n - t - i,
    {
        r.push(s[i]);
        assert(s@.subrange(l as int, i + 1) == s@.subrange(l as int, i as int).push(s@[i as int]));
        i = i + 1;
    }
    r
}

/// The decimal digit for `d < 10`.
pub open spec fn digit_char(d: nat) -> char {
    if d == 0 { '0' } else if d == 1 { '1' } else if d == 2 { '2' } else if d == 3 { '3' }
    else if d == 4 { '4' } else if d == 5 { '5' } else if d == 6 { '6' } else if d == 7 { '7' }
    else if d == 8 { '8' } else if d == 9 { '9' } else if d == 10 { 'a' } else if d == 11 { 'b' }
    else if d == 12 { 'c' } else if d == 13 { 'd' } else if d == 14 { 'e' } else { 'f' }
}

fn digit_char_exec(d: u64) -> (c: char)
    requires
        d < 16,
    ensures
        c == digit_char(d as nat),
{
    if d == 0 { '0' } else if d == 1 { '1' } else if d == 2 { '2' } else if d == 3 { '3' }
    else if d == 4 { '4' } else if d == 5 { '5' } else if d == 6 { '6' } else if d == 7 { '7' }
    else if d == 8 { '8' } else if d == 9 { '9' } else if d == 10 { 'a' } else if d == 11 { 'b' }
    else if d == 12 { 'c' } else if d == 13 { 'd' } else if d == 14 { 'e' } else { 'f' }
}

/// The digits of `n` in base `b` (2..=16), most significant first, without leading zeros.
pub open spec fn digits(n: nat, b: nat) -> Seq<char>
    decreases n,
{
    if b < 2 || n < b {
        seq![digit_char(n)]
    } else {
        proof {
            assert(n / b < n) by (nonlinear_arith)
                requires
                    b >= 2,
                    n >= b,
            ;
        }
        digits(n / b, b).push(digit_char(n % b))
    }
}

/// Formats `n` in base `b` (10 for `{}`, 16 for `{:x}`).
pub fn format_u64(n: u64, b: u64) -> (r: String)
    requires
        2 <= b <= 16,
    ensures
        r@ == digits(n as nat, b as nat),
{
    let mut rev: Vec<char> = Vec::new();
    let mut m = n;
    let ghost mut tail: Seq<char> = Seq::empty();
    while m >= b
        invariant
            2 <= b <= 16,
            digits(n as nat, b as nat) == digits(m as nat, b as nat) + tail,
            rev@ == tail.reverse(),
        decreases m,
    {
        let d = m % b;
        proof {
            assert(digits(m as nat, b as nat) == digits((m / b) as nat, b as nat).push(digit_char((m % b) as nat)));
            assert(digits(n as nat, b as nat) == digits((m / b) as nat, b as nat) + (seq![digit_char(d as nat)] + tail));
            tail = seq![digit_char(d as nat)] + tail;
            assert(tail.reverse() =~= rev@.push(digit_char(d as nat)));
        }
        rev.push(digit_char_exec(d));
        m = m / b;
    }
    rev.push(digit_char_exec(m));
    proof {
        tail = seq![digit_char(m as nat)] + tail;
        assert(tail.reverse() =~= rev@);
    }
    let mut out: Vec<char> = Vec::new();
    let len = rev.len();
    for i in 0..len
        invariant
            len == rev@.len(),
            out@ == rev@.reverse().take(i as int),
    {
        out.push(rev[len - 1 - i]);
        assert(rev@.reverse().take(i + 1) =~= rev@.reverse().take(i as int).push(rev@[len - 1 - i]));
    }
    assert(rev@.reverse().take(len as int) == rev@.reverse());
    assert(tail.reverse().reverse() =~= tail);
    string_of(&out)
}

} // verus!
