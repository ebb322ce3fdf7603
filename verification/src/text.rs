//! Character-level string functions with mathematical specifications.
//!
//! Strings are modelled by their character sequences (`s@: Seq<char>`).
use vstd::prelude::*;

verus! {

broadcast use vstd::string::group_string_axioms;

// ---------------------------------------------------------------------------
// Specifications
// ---------------------------------------------------------------------------

/// The Unicode `White_Space` property, which `char::is_whitespace` tests.
pub open spec fn is_whitespace(c: char) -> bool {
    let u = c as u32;
    ||| (9 <= u <= 13)
    ||| u == 32
    ||| u == 0x85
    ||| u == 0xA0
    ||| u == 0x1680
    ||| (0x2000 <= u <= 0x200A)
    ||| u == 0x2028
    ||| u == 0x2029
    ||| u == 0x202F
    ||| u == 0x205F
    ||| u == 0x3000
}

/// `s` with its leading whitespace removed (`str::trim_start`).
pub open spec fn trim_start(s: Seq<char>) -> Seq<char>
    decreases s.len(),
{
    if s.len() > 0 && is_whitespace(s[0]) {
        trim_start(s.drop_first())
    } else {
        s
    }
}

/// `s` with its trailing whitespace removed (`str::trim_end`).
pub open spec fn trim_end(s: Seq<char>) -> Seq<char>
    decreases s.len(),
{
    if s.len() > 0 && is_whitespace(s.last()) {
        trim_end(s.drop_last())
    } else {
        s
    }
}

/// `s` with leading and trailing whitespace removed (`str::trim`).
pub open spec fn trim(s: Seq<char>) -> Seq<char> {
    trim_end(trim_start(s))
}

/// `p` is a prefix of `s`.
pub open spec fn starts_with(s: Seq<char>, p: Seq<char>) -> bool {
    p.len() <= s.len() && s.subrange(0, p.len() as int) == p
}

/// `p` occurs in `s` at position `i`.
pub open spec fn occurs_at(s: Seq<char>, p: Seq<char>, i: int) -> bool {
    0 <= i && i + p.len() <= s.len() && s.subrange(i, i + p.len()) == p
}

/// `p` occurs somewhere in `s` (`str::contains`).
pub open spec fn contains(s: Seq<char>, p: Seq<char>) -> bool {
    exists|i: int| occurs_at(s, p, i)
}

/// Every non-overlapping occurrence of `pat` in `s`, taken from the left,
/// replaced by `rep` (`str::replace`, for a non-empty pattern).
pub open spec fn replace_all(s: Seq<char>, pat: Seq<char>, rep: Seq<char>) -> Seq<char>
    decreases s.len(),
{
    if s.len() == 0 {
        s
    } else if pat.len() > 0 && starts_with(s, pat) {
        rep + replace_all(s.skip(pat.len() as int), pat, rep)
    } else {
        seq![s[0]] + replace_all(s.skip(1), pat, rep)
    }
}

/// ASCII upper-case letters mapped to lower case, other characters kept.
pub open spec fn lower_char(c: char) -> char {
    if 'A' <= c && c <= 'Z' {
        ((c as u32) + 32) as char
    } else {
        c
    }
}

/// `str::to_ascii_lowercase`.
pub open spec fn to_ascii_lowercase(s: Seq<char>) -> Seq<char> {
    Seq::new(s.len(), |i: int| lower_char(s[i]))
}

/// Lexicographic order on character sequences, by code point. This is the
/// order of `String`'s `Ord`, since UTF-8 keeps the order of code points.
pub open spec fn lex_le(a: Seq<char>, b: Seq<char>) -> bool
    decreases a.len(),
{
    if a.len() == 0 {
        true
    } else if b.len() == 0 {
        false
    } else if a[0] != b[0] {
        a[0] < b[0]
    } else {
        lex_le(a.drop_first(), b.drop_first())
    }
}

/// The first index of `c` in `s`, if any.
pub open spec fn find_char(s: Seq<char>, c: char) -> Option<int>
    decreases s.len(),
{
    if s.len() == 0 {
        None
    } else if s[0] == c {
        Some(0)
    } else {
        match find_char(s.drop_first(), c) {
            Some(i) => Some(i + 1),
            None => None,
        }
    }
}

/// What `find_char` returns: the first position of `c`, or `None` when `c`
/// does not occur.
pub proof fn lemma_find_char(s: Seq<char>, c: char)
    ensures
        match find_char(s, c) {
            Some(i) => 0 <= i < s.len() && s[i] == c && forall|j: int| 0 <= j < i ==> s[j] != c,
            None => forall|j: int| 0 <= j < s.len() ==> s[j] != c,
        },
    decreases s.len(),
{
    if s.len() > 0 && s[0] != c {
        lemma_find_char(s.drop_first(), c);
        match find_char(s.drop_first(), c) {
            Some(i) => {
                assert forall|j: int| 0 <= j < i + 1 implies s[j] != c by {
                    if j > 0 {
                        assert(s[j] == s.drop_first()[j - 1]);
                    }
                }
            },
            None => {
                assert forall|j: int| 0 <= j < s.len() implies s[j] != c by {
                    if j > 0 {
                        assert(s[j] == s.drop_first()[j - 1]);
                    }
                }
            },
        }
    }
}

/// `line` without one trailing carriage return.
pub open spec fn strip_cr(line: Seq<char>) -> Seq<char> {
    if line.len() > 0 && line.last() == '\r' {
        line.drop_last()
    } else {
        line
    }
}

/// The lines of `s` (`str::lines`): split at `\n`, a `\r` right before the
/// `\n` dropped, and no empty line after a final `\n`.
pub open spec fn lines(s: Seq<char>) -> Seq<Seq<char>>
    decreases s.len(),
{
    if s.len() == 0 {
        seq![]
    } else {
        proof {
            lemma_find_char(s, '\n');
        }
        match find_char(s, '\n') {
            Some(i) => seq![strip_cr(s.take(i))] + lines(s.skip(i + 1)),
            None => seq![s],
        }
    }
}

/// The pieces of `s` between occurrences of `c` (`str::split` with a
/// one-character pattern).
pub open spec fn split_char(s: Seq<char>, c: char) -> Seq<Seq<char>>
    decreases s.len(),
{
    proof {
        lemma_find_char(s, c);
    }
    match find_char(s, c) {
        Some(i) => seq![s.take(i)] + split_char(s.skip(i + 1), c),
        None => seq![s],
    }
}

/// `s` without leading occurrences of `c`.
pub open spec fn trim_start_char(s: Seq<char>, c: char) -> Seq<char>
    decreases s.len(),
{
    if s.len() > 0 && s[0] == c {
        trim_start_char(s.drop_first(), c)
    } else {
        s
    }
}

/// `s` without trailing occurrences of `c` (`str::trim_end_matches`).
pub open spec fn trim_end_char(s: Seq<char>, c: char) -> Seq<char>
    decreases s.len(),
{
    if s.len() > 0 && s.last() == c {
        trim_end_char(s.drop_last(), c)
    } else {
        s
    }
}

/// `s` without leading and trailing occurrences of `c` (`str::trim_matches`).
pub open spec fn trim_char(s: Seq<char>, c: char) -> Seq<char> {
    trim_end_char(trim_start_char(s, c), c)
}

/// The decimal digit for `d < 10`.
pub open spec fn digit(d: nat) -> char {
    (('0' as u32) + d) as char
}

/// The decimal representation of `n`, without leading zeros.
pub open spec fn decimal(n: nat) -> Seq<char>
    decreases n,
{
    if n < 10 {
        seq![digit(n)]
    } else {
        decimal(n / 10).push(digit(n % 10))
    }
}

/// The decimal representation of `i`, with a `-` for a negative number.
pub open spec fn int_decimal(i: int) -> Seq<char> {
    if i < 0 {
        seq!['-'] + decimal((-i) as nat)
    } else {
        decimal(i as nat)
    }
}

/// The pieces of `parts` with `sep` between each two (`[T]::join`).
pub open spec fn join(parts: Seq<Seq<char>>, sep: Seq<char>) -> Seq<char>
    decreases parts.len(),
{
    if parts.len() == 0 {
        seq![]
    } else if parts.len() == 1 {
        parts[0]
    } else {
        join(parts.drop_last(), sep) + sep + parts.last()
    }
}

/// A sequence of `usize` as integers.
pub open spec fn ints(v: Seq<usize>) -> Seq<int> {
    Seq::new(v.len(), |i: int| v[i] as int)
}

/// The views of a sequence of strings.
pub open spec fn views(v: Seq<String>) -> Seq<Seq<char>> {
    Seq::new(v.len(), |i: int| v[i]@)
}

// ---------------------------------------------------------------------------
// Conversions
// ---------------------------------------------------------------------------

/// Appends one character to a string with std's `String::push`. The
/// contract claims what std documents of it: the string afterwards is the old
/// one with `c` at its end.
#[verifier::external_body]
fn push_char(s: &mut String, c: char)
    ensures
        final(s)@ == old(s)@.push(c),
{
    s.push(c);
}

/// The characters of `s`, in order.
pub fn to_chars(s: &str) -> (v: Vec<char>)
    ensures
        v@ == s@,
{
    let mut v: Vec<char> = Vec::new();
    for c in it: s.chars()
        invariant
            v@ == it.seq().take(it.index() as int),
            it.seq() == s@,
    {
        v.push(c);
    }
    v
}

/// A string holding the characters of `v`.
pub fn from_chars(v: &[char]) -> (s: String)
    ensures
        s@ == v@,
{
    let mut s = String::new();
    let mut i: usize = 0;
    while i < v.len()
        invariant
            i <= v@.len(),
            s@ == v@.take(i as int),
        decreases v@.len() - i,
    {
        push_char(&mut s, v[i]);
        i = i + 1;
        assert(v@.take(i as int) =~= v@.take(i - 1 as int).push(v@[i - 1 as int]));
    }
    assert(v@.take(v@.len() as int) =~= v@);
    s
}

/// An owned copy of `s`.
pub fn owned(s: &str) -> (r: String)
    ensures
        r@ == s@,
{
    s.to_string()
}

/// `a` followed by `b`.
pub fn concat(a: &str, b: &str) -> (r: String)
    ensures
        r@ == a@ + b@,
{
    let mut r = a.to_string();
    r.append(b);
    r
}

/// Appends `b` to `a`.
pub fn push_str(a: &mut String, b: &str)
    ensures
        final(a)@ == old(a)@ + b@,
{
    a.append(b);
}

/// A copy of each string of `v`.
pub fn clone_strings(v: &[String]) -> (r: Vec<String>)
    ensures
        views(r@) == views(v@),
{
    let mut r: Vec<String> = Vec::new();
    let mut i: usize = 0;
    while i < v.len()
        invariant
            i <= v@.len(),
            r@.len() == i,
            forall|j: int| 0 <= j < i ==> #[trigger] r@[j]@ == v@[j]@,
        decreases v@.len() - i,
    {
        r.push(v[i].clone());
        i = i + 1;
    }
    assert(views(r@) =~= views(v@));
    r
}


// ---------------------------------------------------------------------------
// Whitespace, prefixes, occurrences
// ---------------------------------------------------------------------------

/// `char::is_whitespace`.
pub fn char_is_whitespace(c: char) -> (b: bool)
    ensures
        b == is_whitespace(c),
{
    let u = c as u32;
    (9 <= u && u <= 13) || u == 32 || u == 0x85 || u == 0xA0 || u == 0x1680 || (0x2000 <= u && u
        <= 0x200A) || u == 0x2028 || u == 0x2029 || u == 0x202F || u == 0x205F || u == 0x3000
}

/// The number of leading whitespace characters of `v`: `trim_start` drops
/// exactly these.
pub fn leading_whitespace(v: &[char]) -> (k: usize)
    ensures
        k <= v@.len(),
        trim_start(v@) == v@.skip(k as int),
{
    let mut i: usize = 0;
    assert(v@.skip(0) =~= v@);
    while i < v.len() && char_is_whitespace(v[i])
        invariant
            i <= v@.len(),
            trim_start(v@) == trim_start(v@.skip(i as int)),
        decreases v@.len() - i,
    {
        assert(v@.skip(i as int).drop_first() =~= v@.skip(i + 1));
        i = i + 1;
    }
    proof {
        lemma_trim_start_stops(v@, i as int);
    }
    i
}

/// Trimming stops at the first character that is not whitespace.
pub proof fn lemma_trim_start_stops(s: Seq<char>, i: int)
    requires
        0 <= i <= s.len(),
        i < s.len() ==> !is_whitespace(s[i]),
    ensures
        trim_start(s.skip(i)) == s.skip(i),
{
    if i < s.len() {
        assert(s.skip(i)[0] == s[i]);
    }
}

/// The length of `v` without its trailing whitespace: `trim_end` keeps
/// exactly the characters before it.
pub fn end_without_whitespace(v: &[char], lo: usize) -> (k: usize)
    requires
        lo <= v@.len(),
    ensures
        lo <= k <= v@.len(),
        trim_end(v@.subrange(lo as int, v@.len() as int)) == v@.subrange(lo as int, k as int),
{
    let mut j: usize = v.len();
    while j > lo && char_is_whitespace(v[j - 1])
        invariant
            lo <= j <= v@.len(),
            trim_end(v@.subrange(lo as int, v@.len() as int)) == trim_end(
                v@.subrange(lo as int, j as int),
            ),
        decreases j,
    {
        assert(v@.subrange(lo as int, j as int).drop_last() =~= v@.subrange(lo as int, j - 1));
        j = j - 1;
    }
    if j > lo {
        assert(v@.subrange(lo as int, j as int).last() == v@[j - 1]);
    }
    j
}

/// `str::trim_start`.
pub fn trim_start_str(s: &str) -> (r: String)
    ensures
        r@ == trim_start(s@),
{
    let v = to_chars(s);
    let k = leading_whitespace(&v);
    let n = v.len();
    let mut out: Vec<char> = Vec::new();
    let mut i = k;
    while i < n
        invariant
            k <= i <= n,
            n == v@.len(),
            out@ == v@.subrange(k as int, i as int),
        decreases n - i,
    {
        out.push(v[i]);
        i = i + 1;
        assert(out@ =~= v@.subrange(k as int, i as int));
    }
    assert(v@.skip(k as int) =~= v@.subrange(k as int, n as int));
    from_chars(&out)
}

/// The characters `v[lo..hi]` as a string.
pub fn slice_string(v: &[char], lo: usize, hi: usize) -> (r: String)
    requires
        lo <= hi <= v@.len(),
    ensures
        r@ == v@.subrange(lo as int, hi as int),
{
    let mut out: Vec<char> = Vec::new();
    let mut i = lo;
    while i < hi
        invariant
            lo <= i <= hi,
            hi <= v@.len(),
            out@ == v@.subrange(lo as int, i as int),
        decreases hi - i,
    {
        out.push(v[i]);
        i = i + 1;
        assert(out@ =~= v@.subrange(lo as int, i as int));
    }
    from_chars(&out)
}

/// `str::trim`.
pub fn trim_str(s: &str) -> (r: String)
    ensures
        r@ == trim(s@),
{
    let v = to_chars(s);
    let k = leading_whitespace(&v);
    let j = end_without_whitespace(&v, k);
    assert(v@.skip(k as int) =~= v@.subrange(k as int, v@.len() as int));
    slice_string(&v, k, j)
}

/// `p` occurs in `s` at `i`, tested character by character.
pub fn occurs_at_chars(s: &[char], p: &[char], i: usize) -> (b: bool)
    ensures
        b == occurs_at(s@, p@, i as int),
{
    if i > s.len() || p.len() > s.len() - i {
        return false;
    }
    let mut k: usize = 0;
    while k < p.len()
        invariant
            k <= p@.len(),
            i + p@.len() <= s@.len(),
            i + p.len() <= s.len(),
            forall|m: int| 0 <= m < k ==> s@[i + m] == p@[m],
        decreases p@.len() - k,
    {
        assert(i + k < s@.len());
        if s[i + k] != p[k] {
            assert(s@.subrange(i as int, i + p@.len())[k as int] != p@[k as int]);
            return false;
        }
        k = k + 1;
    }
    assert(s@.subrange(i as int, i + p@.len()) =~= p@);
    true
}

/// `str::starts_with`.
pub fn starts_with_str(s: &str, p: &str) -> (b: bool)
    ensures
        b == starts_with(s@, p@),
{
    let sv = to_chars(s);
    let pv = to_chars(p);
    occurs_at_chars(&sv, &pv, 0)
}

/// `str::contains`.
pub fn contains_str(s: &str, p: &str) -> (b: bool)
    ensures
        b == contains(s@, p@),
{
    let sv = to_chars(s);
    let pv = to_chars(p);
    if pv.len() > sv.len() {
        assert forall|i: int| !occurs_at(s@, p@, i) by {}
        return false;
    }
    let last = sv.len() - pv.len();
    let mut i: usize = 0;
    while i < last
        invariant
            i <= last,
            last == sv@.len() - pv@.len(),
            sv@ == s@,
            pv@ == p@,
            forall|m: int| 0 <= m < i ==> !occurs_at(s@, p@, m),
        decreases last - i,
    {
        if occurs_at_chars(&sv, &pv, i) {
            return true;
        }
        i = i + 1;
    }
    if occurs_at_chars(&sv, &pv, last) {
        return true;
    }
    assert forall|m: int| !occurs_at(s@, p@, m) by {}
    false
}

/// `str::replace` for a non-empty pattern.
pub fn replace_str(s: &str, pat: &str, rep: &str) -> (r: String)
    requires
        pat@.len() > 0,
    ensures
        r@ == replace_all(s@, pat@, rep@),
{
    let sv = to_chars(s);
    let pv = to_chars(pat);
    let rv = to_chars(rep);
    let n = sv.len();
    let mut out: Vec<char> = Vec::new();
    let mut i: usize = 0;
    assert(sv@.skip(0) =~= sv@);
    assert(out@ + replace_all(sv@, pv@, rv@) =~= replace_all(sv@, pv@, rv@));
    while i < n
        invariant
            i <= n,
            n == sv@.len(),
            sv@ == s@,
            pv@ == pat@,
            rv@ == rep@,
            pv@.len() > 0,
            out@ + replace_all(sv@.skip(i as int), pv@, rv@) == replace_all(sv@, pv@, rv@),
        decreases n - i,
    {
        let ghost rest = sv@.skip(i as int);
        if occurs_at_chars(&sv, &pv, i) {
            assert(rest.subrange(0, pv@.len() as int) =~= sv@.subrange(i as int, i + pv@.len()));
            assert(rest.skip(pv@.len() as int) =~= sv@.skip(i + pv@.len()));
            let mut k: usize = 0;
            let ghost before = out@;
            while k < rv.len()
                invariant
                    k <= rv@.len(),
                    out@ == before + rv@.take(k as int),
                decreases rv@.len() - k,
            {
                out.push(rv[k]);
                k = k + 1;
                assert(out@ =~= before + rv@.take(k as int));
            }
            assert(rv@.take(rv@.len() as int) =~= rv@);
            assert(out@ + replace_all(sv@.skip(i + pv@.len()), pv@, rv@) =~= before + (rv@
                + replace_all(sv@.skip(i + pv@.len()), pv@, rv@)));
            i = i + pv.len();
        } else {
            assert(!starts_with(rest, pv@)) by {
                if starts_with(rest, pv@) {
                    assert(rest.subrange(0, pv@.len() as int) =~= sv@.subrange(
                        i as int,
                        i + pv@.len(),
                    ));
                }
            }
            assert(rest.skip(1) =~= sv@.skip(i + 1));
            let ghost before = out@;
            out.push(sv[i]);
            assert(out@ + replace_all(sv@.skip(i + 1), pv@, rv@) =~= before + (seq![rest[0]]
                + replace_all(rest.skip(1), pv@, rv@)));
            i = i + 1;
        }
    }
    assert(sv@.skip(n as int) =~= Seq::<char>::empty());
    assert(out@ =~= out@ + replace_all(sv@.skip(n as int), pv@, rv@));
    from_chars(&out)
}


// ---------------------------------------------------------------------------
// Case, order
// ---------------------------------------------------------------------------

/// `char::to_ascii_lowercase`.
pub fn char_to_ascii_lowercase(c: char) -> (r: char)
    ensures
        r == lower_char(c),
{
    if 'A' <= c && c <= 'Z' {
        let b = c as u8;
        ((b + 32) as u8) as char
    } else {
        c
    }
}

/// The characters of `str::to_ascii_lowercase(s)`.
pub fn ascii_lowercase_chars(s: &str) -> (r: Vec<char>)
    ensures
        r@ == to_ascii_lowercase(s@),
{
    let v = to_chars(s);
    let mut out: Vec<char> = Vec::new();
    let mut i: usize = 0;
    while i < v.len()
        invariant
            i <= v@.len(),
            v@ == s@,
            out@ == to_ascii_lowercase(v@.take(i as int)),
        decreases v@.len() - i,
    {
        out.push(char_to_ascii_lowercase(v[i]));
        i = i + 1;
        assert(out@ =~= to_ascii_lowercase(v@.take(i as int)));
    }
    assert(v@.take(v@.len() as int) =~= v@);
    out
}

/// `str::to_ascii_lowercase`.
pub fn ascii_lowercase_str(s: &str) -> (r: String)
    ensures
        r@ == to_ascii_lowercase(s@),
{
    let v = ascii_lowercase_chars(s);
    from_chars(&v)
}

/// `a <= b` in the order of `lex_le`.
pub fn lex_le_chars(a: &[char], b: &[char]) -> (r: bool)
    ensures
        r == lex_le(a@, b@),
{
    let mut i: usize = 0;
    assert(a@.skip(0) =~= a@);
    assert(b@.skip(0) =~= b@);
    while i < a.len() && i < b.len() && a[i] == b[i]
        invariant
            i <= a@.len(),
            i <= b@.len(),
            lex_le(a@, b@) == lex_le(a@.skip(i as int), b@.skip(i as int)),
        decreases a@.len() - i,
    {
        assert(a@.skip(i as int).drop_first() =~= a@.skip(i + 1));
        assert(b@.skip(i as int).drop_first() =~= b@.skip(i + 1));
        i = i + 1;
    }
    if i == a.len() {
        true
    } else if i == b.len() {
        false
    } else {
        assert(a@.skip(i as int)[0] == a@[i as int]);
        assert(b@.skip(i as int)[0] == b@[i as int]);
        a[i] < b[i]
    }
}

/// `lex_le` is a total order.
pub proof fn lemma_lex_le_total(a: Seq<char>, b: Seq<char>)
    ensures
        lex_le(a, b) || lex_le(b, a),
    decreases a.len(),
{
    if a.len() > 0 && b.len() > 0 && a[0] == b[0] {
        lemma_lex_le_total(a.drop_first(), b.drop_first());
    }
}

/// `lex_le` is transitive.
pub proof fn lemma_lex_le_transitive(a: Seq<char>, b: Seq<char>, c: Seq<char>)
    requires
        lex_le(a, b),
        lex_le(b, c),
    ensures
        lex_le(a, c),
    decreases a.len(),
{
    if a.len() > 0 && b.len() > 0 && c.len() > 0 && a[0] == b[0] && b[0] == c[0] {
        lemma_lex_le_transitive(a.drop_first(), b.drop_first(), c.drop_first());
    }
}

/// `lex_le` is antisymmetric.
pub proof fn lemma_lex_le_antisymmetric(a: Seq<char>, b: Seq<char>)
    requires
        lex_le(a, b),
        lex_le(b, a),
    ensures
        a == b,
    decreases a.len(),
{
    if a.len() > 0 && b.len() > 0 {
        lemma_lex_le_antisymmetric(a.drop_first(), b.drop_first());
        assert(a =~= seq![a[0]] + a.drop_first());
        assert(b =~= seq![b[0]] + b.drop_first());
    }
}

/// `lex_le` is reflexive.
pub proof fn lemma_lex_le_reflexive(a: Seq<char>)
    ensures
        lex_le(a, a),
    decreases a.len(),
{
    if a.len() > 0 {
        lemma_lex_le_reflexive(a.drop_first());
    }
}

// ---------------------------------------------------------------------------
// Lines and pieces
// ---------------------------------------------------------------------------

/// `find_char` is the first position of `c`.
pub proof fn lemma_find_char_is(s: Seq<char>, c: char, k: int)
    requires
        0 <= k < s.len(),
        s[k] == c,
        forall|j: int| 0 <= j < k ==> s[j] != c,
    ensures
        find_char(s, c) == Some(k),
{
    lemma_find_char(s, c);
}

/// The first position of `c` in `v[from..]`, counted from the start of `v`.
pub fn find_char_from(v: &[char], from: usize, c: char) -> (r: Option<usize>)
    requires
        from <= v@.len(),
    ensures
        r matches Some(j) ==> from <= j < v@.len() && v@[j as int] == c && find_char(
            v@.skip(from as int),
            c,
        ) == Some(j - from),
        r is None ==> find_char(v@.skip(from as int), c) is None,
{
    let mut j = from;
    while j < v.len() && v[j] != c
        invariant
            from <= j <= v@.len(),
            forall|m: int| from <= m < j ==> v@[m] != c,
        decreases v@.len() - j,
    {
        j = j + 1;
    }
    let ghost rest = v@.skip(from as int);
    proof {
        lemma_find_char(rest, c);
    }
    if j < v.len() {
        proof {
            assert forall|m: int| 0 <= m < j - from implies rest[m] != c by {
                assert(rest[m] == v@[from + m]);
            }
            lemma_find_char_is(rest, c, j - from);
        }
        Some(j)
    } else {
        proof {
            if find_char(rest, c) is Some {
                let i = find_char(rest, c)->0;
                assert(rest[i] == v@[from + i]);
            }
        }
        None
    }
}

/// `str::lines`.
pub fn lines_of(s: &str) -> (r: Vec<String>)
    ensures
        views(r@) == lines(s@),
{
    let v = to_chars(s);
    let n = v.len();
    let mut out: Vec<String> = Vec::new();
    let mut start: usize = 0;
    assert(v@.skip(0) =~= v@);
    assert(views(out@) + lines(v@) =~= lines(v@));
    while start < n
        invariant
            start <= n,
            n == v@.len(),
            v@ == s@,
            views(out@) + lines(v@.skip(start as int)) == lines(v@),
        decreases n - start,
    {
        let ghost rest = v@.skip(start as int);
        let ghost before = views(out@);
        match find_char_from(&v, start, '\n') {
            Some(j) => {
                let mut end = j;
                if end > start && v[end - 1] == '\r' {
                    end = end - 1;
                }
                let line = slice_string(&v, start, end);
                proof {
                    assert(rest.take(j - start) =~= v@.subrange(start as int, j as int));
                    assert(rest.skip(j - start + 1) =~= v@.skip(j + 1));
                    if j > start && v@[j - 1] == '\r' {
                        assert(v@.subrange(start as int, j as int).drop_last() =~= v@.subrange(
                            start as int,
                            j - 1,
                        ));
                    }
                    assert(line@ == strip_cr(rest.take(j - start)));
                    assert(lines(rest) == seq![line@] + lines(v@.skip(j + 1)));
                }
                out.push(line);
                proof {
                    assert(views(out@) =~= before.push(line@));
                    assert(views(out@) + lines(v@.skip(j + 1)) =~= before + (seq![line@] + lines(
                        v@.skip(j + 1),
                    )));
                }
                start = j + 1;
            },
            None => {
                let line = slice_string(&v, start, n);
                proof {
                    assert(rest =~= v@.subrange(start as int, n as int));
                    assert(lines(rest) == seq![rest]);
                }
                out.push(line);
                proof {
                    assert(views(out@) =~= before.push(line@));
                    assert(v@.skip(n as int) =~= Seq::<char>::empty());
                    assert(views(out@) + lines(v@.skip(n as int)) =~= before + seq![rest]);
                }
                start = n;
            },
        }
    }
    assert(v@.skip(n as int) =~= Seq::<char>::empty());
    assert(views(out@) =~= views(out@) + lines(v@.skip(n as int)));
    out
}

/// `str::split` with a one-character pattern.
pub fn split_char_str(s: &str, c: char) -> (r: Vec<String>)
    ensures
        views(r@) == split_char(s@, c),
{
    let v = to_chars(s);
    let n = v.len();
    let mut out: Vec<String> = Vec::new();
    let mut start: usize = 0;
    assert(v@.skip(0) =~= v@);
    assert(views(out@) + split_char(v@, c) =~= split_char(v@, c));
    loop
        invariant_except_break
            start <= n,
            n == v@.len(),
            v@ == s@,
            views(out@) + split_char(v@.skip(start as int), c) == split_char(v@, c),
        ensures
            views(out@) == split_char(v@, c),
        decreases n - start,
    {
        let ghost rest = v@.skip(start as int);
        let ghost before = views(out@);
        match find_char_from(&v, start, c) {
            Some(j) => {
                let piece = slice_string(&v, start, j);
                proof {
                    assert(rest.take(j - start) =~= v@.subrange(start as int, j as int));
                    assert(rest.skip(j - start + 1) =~= v@.skip(j + 1));
                    assert(split_char(rest, c) == seq![piece@] + split_char(v@.skip(j + 1), c));
                }
                out.push(piece);
                proof {
                    assert(views(out@) =~= before.push(piece@));
                    assert(views(out@) + split_char(v@.skip(j + 1), c) =~= before + (seq![piece@]
                        + split_char(v@.skip(j + 1), c)));
                }
                start = j + 1;
            },
            None => {
                let piece = slice_string(&v, start, n);
                proof {
                    assert(rest =~= v@.subrange(start as int, n as int));
                    assert(split_char(rest, c) == seq![rest]);
                }
                out.push(piece);
                proof {
                    assert(views(out@) =~= before + seq![rest]);
                }
                break ;
            },
        }
    }
    out
}

/// `str::trim_matches` with one character.
pub fn trim_char_str(s: &str, c: char) -> (r: String)
    ensures
        r@ == trim_char(s@, c),
{
    let v = to_chars(s);
    let mut i: usize = 0;
    assert(v@.skip(0) =~= v@);
    while i < v.len() && v[i] == c
        invariant
            i <= v@.len(),
            v@ == s@,
            trim_start_char(v@, c) == trim_start_char(v@.skip(i as int), c),
        decreases v@.len() - i,
    {
        assert(v@.skip(i as int).drop_first() =~= v@.skip(i + 1));
        i = i + 1;
    }
    if i < v.len() {
        assert(v@.skip(i as int)[0] == v@[i as int]);
    }
    let mut j: usize = v.len();
    assert(v@.skip(i as int) =~= v@.subrange(i as int, v@.len() as int));
    while j > i && v[j - 1] == c
        invariant
            i <= j <= v@.len(),
            trim_end_char(v@.subrange(i as int, v@.len() as int), c) == trim_end_char(
                v@.subrange(i as int, j as int),
                c,
            ),
        decreases j,
    {
        assert(v@.subrange(i as int, j as int).drop_last() =~= v@.subrange(i as int, j - 1));
        j = j - 1;
    }
    if j > i {
        assert(v@.subrange(i as int, j as int).last() == v@[j - 1]);
    }
    slice_string(&v, i, j)
}

/// `str::trim_end_matches` with one character.
pub fn trim_end_char_str(s: &str, c: char) -> (r: String)
    ensures
        r@ == trim_end_char(s@, c),
{
    let v = to_chars(s);
    let mut j: usize = v.len();
    assert(v@.subrange(0, v@.len() as int) =~= v@);
    while j > 0 && v[j - 1] == c
        invariant
            j <= v@.len(),
            v@ == s@,
            trim_end_char(v@, c) == trim_end_char(v@.subrange(0, j as int), c),
        decreases j,
    {
        assert(v@.subrange(0, j as int).drop_last() =~= v@.subrange(0, j - 1));
        j = j - 1;
    }
    if j > 0 {
        assert(v@.subrange(0, j as int).last() == v@[j - 1]);
    }
    slice_string(&v, 0, j)
}

// ---------------------------------------------------------------------------
// Numbers and joins
// ---------------------------------------------------------------------------

fn push_decimal(out: &mut Vec<char>, n: u128)
    ensures
        final(out)@ == old(out)@ + decimal(n as nat),
    decreases n,
{
    if n >= 10 {
        push_decimal(out, n / 10);
    }
    let d = (n % 10) as u8;
    let c = (d + 48u8) as char;
    assert(c == digit((n % 10) as nat));
    out.push(c);
}

/// The decimal representation of `n` (`usize::to_string`).
pub fn usize_decimal(n: usize) -> (r: String)
    ensures
        r@ == decimal(n as nat),
{
    let mut out: Vec<char> = Vec::new();
    push_decimal(&mut out, n as u128);
    assert(out@ =~= decimal(n as nat));
    from_chars(&out)
}

/// The decimal representation of `n` (`isize::to_string`).
pub fn isize_decimal(n: isize) -> (r: String)
    ensures
        r@ == int_decimal(n as int),
{
    let mut out: Vec<char> = Vec::new();
    if n < 0 {
        out.push('-');
        let m: i128 = -(n as i128);
        push_decimal(&mut out, m as u128);
    } else {
        push_decimal(&mut out, n as u128);
        assert(out@ =~= decimal(n as nat));
    }
    from_chars(&out)
}

/// The strings of `parts` with `sep` between each two (`[String]::join`).
pub fn join_strings(parts: &[String], sep: &str) -> (r: String)
    ensures
        r@ == join(views(parts@), sep@),
{
    let mut r = String::new();
    let mut i: usize = 0;
    while i < parts.len()
        invariant
            i <= parts@.len(),
            r@ == join(views(parts@).take(i as int), sep@),
        decreases parts@.len() - i,
    {
        let ghost prev = views(parts@).take(i as int);
        if i > 0 {
            r.append(sep);
        }
        r.append(parts[i].as_str());
        i = i + 1;
        assert(views(parts@).take(i as int).drop_last() =~= prev);
        assert(views(parts@).take(i as int).last() == parts@[i - 1]@);
    }
    assert(views(parts@).take(parts@.len() as int) =~= views(parts@));
    r
}


/// `a` and `b` hold the same characters.
pub fn chars_eq(a: &[char], b: &[char]) -> (r: bool)
    ensures
        r == (a@ == b@),
{
    if a.len() != b.len() {
        return false;
    }
    let r = occurs_at_chars(a, b, 0);
    assert(a@.subrange(0, b@.len() as int) =~= a@);
    r
}


/// A copy of the strings `v[lo..hi]`.
pub fn clone_range(v: &[String], lo: usize, hi: usize) -> (r: Vec<String>)
    requires
        lo <= hi <= v@.len(),
    ensures
        views(r@) == views(v@).subrange(lo as int, hi as int),
{
    let mut r: Vec<String> = Vec::new();
    let mut i: usize = lo;
    while i < hi
        invariant
            lo <= i <= hi,
            hi <= v@.len(),
            r@.len() == i - lo,
            forall|j: int| 0 <= j < i - lo ==> #[trigger] r@[j]@ == v@[lo + j]@,
        decreases hi - i,
    {
        r.push(v[i].clone());
        i = i + 1;
    }
    assert(views(r@) =~= views(v@).subrange(lo as int, hi as int));
    r
}

} // verus!
