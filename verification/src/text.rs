//! Character-level text model shared by the whole library.
//!
//! Text is handled as sequences of `char`; every helper here is stated over
//! `Seq<char>` so that the contracts of the higher-level modules can speak of
//! lines, trimming and searching directly.
use vstd::prelude::*;

verus! {

/// Unicode `White_Space`, which is exactly what `char::is_whitespace` tests.
pub open spec fn is_ws(c: char) -> bool {
    let u = c as u32;
    (0x09 <= u && u <= 0x0D) || u == 0x20 || u == 0x85 || u == 0xA0 || u == 0x1680 || (0x2000
        <= u && u <= 0x200A) || u == 0x2028 || u == 0x2029 || u == 0x202F || u == 0x205F || u
        == 0x3000
}

/// ASCII whitespace as `u8::is_ascii_whitespace` / `char::is_ascii_whitespace` see it.
pub open spec fn is_ascii_ws(c: char) -> bool {
    c == ' ' || c == '\t' || c == '\n' || c == '\r' || c == '\x0C'
}

pub open spec fn is_digit(c: char) -> bool {
    '0' <= c && c <= '9'
}

pub open spec fn is_lower(c: char) -> bool {
    'a' <= c && c <= 'z'
}

pub open spec fn is_upper(c: char) -> bool {
    'A' <= c && c <= 'Z'
}

pub open spec fn is_alpha(c: char) -> bool {
    is_lower(c) || is_upper(c)
}

pub open spec fn is_alnum(c: char) -> bool {
    is_alpha(c) || is_digit(c)
}

/// `s` with leading whitespace removed (`str::trim_start`).
pub open spec fn trim_start(s: Seq<char>) -> Seq<char>
    decreases s.len(),
{
    if s.len() > 0 && is_ws(s[0]) {
        trim_start(s.drop_first())
    } else {
        s
    }
}

/// `s` with trailing whitespace removed (`str::trim_end`).
pub open spec fn trim_end(s: Seq<char>) -> Seq<char>
    decreases s.len(),
{
    if s.len() > 0 && is_ws(s.last()) {
        trim_end(s.drop_last())
    } else {
        s
    }
}

/// `str::trim`.
pub open spec fn trim(s: Seq<char>) -> Seq<char> {
    trim_end(trim_start(s))
}

/// Index of the first occurrence of `c` in `s`.
pub open spec fn find_char(s: Seq<char>, c: char) -> Option<int>
    decreases s.len(),
{
    if s.len() == 0 {
        None
    } else if s[0] == c {
        Some(0)
    } else {
        match find_char(s.drop_first(), c) {
            Some(i) => Some(i + 1),
            None => None,
        }
    }
}

/// Index of the last occurrence of `c` in `s`.
pub open spec fn rfind_char(s: Seq<char>, c: char) -> Option<int>
    decreases s.len(),
{
    if s.len() == 0 {
        None
    } else if s.last() == c {
        Some(s.len() - 1)
    } else {
        rfind_char(s.drop_last(), c)
    }
}

/// `pat` occurs in `s` at position `i`.
pub open spec fn occurs_at(s: Seq<char>, pat: Seq<char>, i: int) -> bool {
    0 <= i && i + pat.len() <= s.len() && s.subrange(i, i + pat.len()) == pat
}

/// First position at or after `i` where `pat` occurs (`str::find` from `i`).
pub open spec fn find_from(s: Seq<char>, pat: Seq<char>, i: int) -> Option<int>
    decreases s.len() + 1 - i,
{
    if i < 0 || i + pat.len() > s.len() {
        None
    } else if occurs_at(s, pat, i) {
        Some(i)
    } else {
        find_from(s, pat, i + 1)
    }
}

/// `str::find` with a string pattern.
pub open spec fn find(s: Seq<char>, pat: Seq<char>) -> Option<int> {
    find_from(s, pat, 0)
}

/// Last position at or before `i` where `pat` occurs (`str::rfind` below `i`).
pub open spec fn rfind_upto(s: Seq<char>, pat: Seq<char>, i: int) -> Option<int>
    decreases i + 1,
{
    if i < 0 {
        None
    } else if occurs_at(s, pat, i) {
        Some(i)
    } else {
        rfind_upto(s, pat, i - 1)
    }
}

/// `str::rfind` with a string pattern.
pub open spec fn rfind(s: Seq<char>, pat: Seq<char>) -> Option<int> {
    rfind_upto(s, pat, s.len() - pat.len())
}

/// `pat` occurs somewhere in `s` (`str::contains`).
pub open spec fn contains(s: Seq<char>, pat: Seq<char>) -> bool {
    find(s, pat) is Some
}

/// `pat` is a prefix of `s` (`str::starts_with`).
pub open spec fn starts_with(s: Seq<char>, pat: Seq<char>) -> bool {
    pat.len() <= s.len() && s.take(pat.len() as int) == pat
}

/// `pat` is a suffix of `s` (`str::ends_with`).
pub open spec fn ends_with(s: Seq<char>, pat: Seq<char>) -> bool {
    pat.len() <= s.len() && s.skip(s.len() - pat.len()) == pat
}

/// One line as `str::lines` yields it: the `\n` is dropped, and so is a `\r` before it.
pub open spec fn strip_cr(s: Seq<char>) -> Seq<char> {
    if s.len() > 0 && s.last() == '\r' {
        s.drop_last()
    } else {
        s
    }
}

/// `str::lines`: split at `\n` (dropping a `\r` before it); a final line
/// ending does not start another line.
pub open spec fn lines(s: Seq<char>) -> Seq<Seq<char>>
    decreases s.len(),
{
    if s.len() == 0 {
        seq![]
    } else {
        proof {
            lemma_find_char_range(s, '\n');
        }
        match find_char(s, '\n') {
            None => seq![s],
            Some(i) => seq![strip_cr(s.take(i))] + lines(s.skip(i + 1)),
        }
    }
}

/// A character missing from a text is missing from each of its lines.
pub proof fn lemma_lines_lack(s: Seq<char>, c: char)
    requires
        !s.contains(c),
    ensures
        forall|i: int| 0 <= i < lines(s).len() ==> !(#[trigger] lines(s)[i]).contains(c),
    decreases s.len(),
{
    if s.len() > 0 {
        lemma_find_char_range(s, '\n');
        match find_char(s, '\n') {
            None => {
                assert(lines(s) == seq![s]);
            },
            Some(k) => {
                let tail = s.skip(k + 1);
                assert(!tail.contains(c)) by {
                    assert forall|j: int| 0 <= j < tail.len() implies tail[j] != c by {
                        assert(tail[j] == s[k + 1 + j]);
                    }
                }
                lemma_lines_lack(tail, c);
                let h = strip_cr(s.take(k));
                assert(!h.contains(c)) by {
                    assert forall|j: int| 0 <= j < h.len() implies h[j] != c by {
                        assert(h[j] == s[j]);
                    }
                }
                let rest = lines(tail);
                assert(lines(s) == seq![h] + rest);
                assert forall|i: int| 0 <= i < lines(s).len() implies !(#[trigger] lines(s)[i]).contains(c) by {
                    if i > 0 {
                        assert(lines(s)[i] == rest[i - 1]);
                    }
                }
            },
        }
    }
}

/// No line holds a line break.
pub proof fn lemma_lines_no_newline(s: Seq<char>)
    ensures
        forall|i: int| 0 <= i < lines(s).len() ==> !(#[trigger] lines(s)[i]).contains('\n'),
    decreases s.len(),
{
    if s.len() > 0 {
        lemma_find_char_range(s, '\n');
        match find_char(s, '\n') {
            None => {
                assert(lines(s) == seq![s]);
                assert(!s.contains('\n'));
            },
            Some(k) => {
                lemma_lines_no_newline(s.skip(k + 1));
                let h = strip_cr(s.take(k));
                assert(!h.contains('\n')) by {
                    assert forall|j: int| 0 <= j < h.len() implies h[j] != '\n' by {
                        assert(h[j] == s[j]);
                    }
                }
                let rest = lines(s.skip(k + 1));
                assert(lines(s) == seq![h] + rest);
                assert forall|i: int| 0 <= i < lines(s).len() implies !(#[trigger] lines(s)[i]).contains('\n') by {
                    if i > 0 {
                        assert(lines(s)[i] == rest[i - 1]);
                    }
                }
            },
        }
    }
}

/// A found character lies inside the sequence and is the first of its kind.
pub proof fn lemma_find_char_range(s: Seq<char>, c: char)
    ensures
        find_char(s, c) matches Some(i) ==> 0 <= i < s.len() && s[i] == c && forall|j: int|
            0 <= j < i ==> s[j] != c,
        find_char(s, c) is None ==> forall|j: int| 0 <= j < s.len() ==> s[j] != c,
    decreases s.len(),
{
    if s.len() > 0 {
        lemma_find_char_range(s.drop_first(), c);
        if s[0] != c {
            assert forall|j: int| 0 < j < s.len() implies s[j] == s.drop_first()[j - 1] by {}
        }
    }
}

/// `str::split` at a character: the pieces between occurrences of `c`;
/// there is always at least one piece.
pub open spec fn split_char(s: Seq<char>, c: char) -> Seq<Seq<char>>
    decreases s.len(),
{
    proof {
        lemma_find_char_range(s, c);
    }
    match find_char(s, c) {
        None => seq![s],
        Some(i) => seq![s.take(i)] + split_char(s.skip(i + 1), c),
    }
}

/// The lines joined with `sep` between them (`[T]::join`).
pub open spec fn join(ls: Seq<Seq<char>>, sep: Seq<char>) -> Seq<char>
    decreases ls.len(),
{
    if ls.len() == 0 {
        seq![]
    } else if ls.len() == 1 {
        ls[0]
    } else {
        join(ls.drop_last(), sep) + sep + ls.last()
    }
}

/// Concatenation of all pieces.
pub open spec fn concat(ls: Seq<Seq<char>>) -> Seq<char>
    decreases ls.len(),
{
    if ls.len() == 0 {
        seq![]
    } else {
        concat(ls.drop_last()) + ls.last()
    }
}

/// A character missing from a concatenation is missing from every piece.
pub proof fn lemma_concat_lacks(ls: Seq<Seq<char>>, c: char)
    requires
        !concat(ls).contains(c),
    ensures
        forall|i: int| 0 <= i < ls.len() ==> !(#[trigger] ls[i]).contains(c),
    decreases ls.len(),
{
    if ls.len() > 0 {
        let a = concat(ls.drop_last());
        let b = ls.last();
        assert(!a.contains(c)) by {
            assert forall|j: int| 0 <= j < a.len() implies a[j] != c by {
                assert((a + b)[j] == a[j]);
            }
        }
        assert(!b.contains(c)) by {
            assert forall|j: int| 0 <= j < b.len() implies b[j] != c by {
                assert((a + b)[a.len() + j] == b[j]);
            }
        }
        lemma_concat_lacks(ls.drop_last(), c);
        assert forall|i: int| 0 <= i < ls.len() implies !(#[trigger] ls[i]).contains(c) by {
            if i < ls.len() - 1 {
                assert(ls[i] == ls.drop_last()[i]);
            }
        }
    }
}

/// Concatenating two lists of pieces concatenates their concatenations.
pub proof fn lemma_concat_append(a: Seq<Seq<char>>, b: Seq<Seq<char>>)
    ensures
        concat(a + b) == concat(a) + concat(b),
    decreases b.len(),
{
    if b.len() == 0 {
        assert(a + b =~= a);
        assert(concat(a) + Seq::<char>::empty() =~= concat(a));
    } else {
        lemma_concat_append(a, b.drop_last());
        assert((a + b).drop_last() =~= a + b.drop_last());
        assert((a + b).last() == b.last());
        assert(concat(a + b) =~= concat(a) + concat(b));
    }
}

/// The concatenation of one piece and more.
pub proof fn lemma_concat_front(x: Seq<char>, rest: Seq<Seq<char>>)
    ensures
        concat(seq![x] + rest) == x + concat(rest),
{
    lemma_concat_append(seq![x], rest);
    assert(seq![x].drop_last() =~= Seq::<Seq<char>>::empty());
    assert(concat(seq![x].drop_last()) == Seq::<char>::empty());
    assert(seq![x].last() == x);
    assert(concat(seq![x]) =~= x);
}

/// Joining one piece and more.
pub proof fn lemma_join_front(x: Seq<char>, rest: Seq<Seq<char>>, sep: Seq<char>)
    requires
        rest.len() > 0,
    ensures
        join(seq![x] + rest, sep) == x + sep + join(rest, sep),
    decreases rest.len(),
{
    let ls = seq![x] + rest;
    if rest.len() == 1 {
        assert(ls.drop_last() =~= seq![x]);
        assert(ls.last() == rest[0]);
        assert(join(seq![x], sep) == x);
        assert(join(ls, sep) =~= x + sep + join(rest, sep));
    } else {
        lemma_join_front(x, rest.drop_last(), sep);
        assert(ls.drop_last() =~= seq![x] + rest.drop_last());
        assert(ls.last() == rest.last());
        assert(join(ls, sep) =~= x + sep + join(rest, sep));
    }
}

/// Splitting at a character and joining with it gives the text back.
pub proof fn lemma_join_split(s: Seq<char>, c: char)
    ensures
        join(split_char(s, c), seq![c]) == s,
    decreases s.len(),
{
    lemma_find_char_range(s, c);
    match find_char(s, c) {
        None => {},
        Some(i) => {
            let rest = s.skip(i + 1);
            lemma_join_split(rest, c);
            if find_char(rest, c) is None {
                assert(split_char(rest, c) =~= seq![rest]);
            }
            assert(split_char(rest, c).len() > 0);
            lemma_join_front(s.take(i), split_char(rest, c), seq![c]);
            assert(s.take(i) + seq![c] + rest =~= s);
        },
    }
}

/// View of a vector of character vectors.
pub open spec fn views(v: Seq<Vec<char>>) -> Seq<Seq<char>> {
    v.map_values(|x: Vec<char>| x@)
}

/// View of a vector of strings.
pub open spec fn opt_string_view(o: Option<String>) -> Option<Seq<char>> {
    match o {
        Some(s) => Some(s@),
        None => None,
    }
}

pub open spec fn string_views(v: Seq<String>) -> Seq<Seq<char>> {
    v.map_values(|x: String| x@)
}

/// Decimal digits of `n`, most significant first, without leading zeros.
pub open spec fn decimal(n: nat) -> Seq<char>
    decreases n,
{
    if n < 10 {
        seq![digit_char(n)]
    } else {
        proof {
            assert(n / 10 < n) by (nonlinear_arith)
                requires
                    n >= 10,
            ;
        }
        decimal(n / 10).push(digit_char(n % 10))
    }
}

pub open spec fn digit_char(d: nat) -> char {
    if d == 0 { '0' }
    else if d == 1 { '1' }
    else if d == 2 { '2' }
    else if d == 3 { '3' }
    else if d == 4 { '4' }
    else if d == 5 { '5' }
    else if d == 6 { '6' }
    else if d == 7 { '7' }
    else if d == 8 { '8' }
    else { '9' }
}

/// Reading back a number written in decimal gives the number.
pub proof fn lemma_decimal_reads_back(n: nat)
    ensures
        decimal(n).len() > 0,
        all_digits(decimal(n)),
        digits_value(decimal(n)) == n,
        decimal(n)[0] != '+',
    decreases n,
{
    if n >= 10 {
        assert(n / 10 < n) by (nonlinear_arith)
            requires
                n >= 10,
        ;
        lemma_decimal_reads_back(n / 10);
        let d = decimal(n / 10);
        let s = d.push(digit_char(n % 10));
        assert(s.drop_last() =~= d);
        assert(s[0] == d[0]);
        assert forall|i: int| 0 <= i < s.len() implies is_digit(#[trigger] s[i]) by {
            if i < d.len() {
                assert(s[i] == d[i]);
            }
        }
        assert((digit_char(n % 10) as u32) - ('0' as u32) == n % 10);
        assert(s.last() == digit_char(n % 10));
        assert(digits_value(s) == digits_value(d) * 10 + n % 10);
        assert(n == (n / 10) * 10 + n % 10) by (nonlinear_arith);
    } else {
        let s = decimal(n);
        assert(s.drop_last() =~= Seq::<char>::empty());
        assert(digits_value(s.drop_last()) == 0);
        assert((digit_char(n) as u32) - ('0' as u32) == n);
    }
}

/// Value of a run of decimal digits.
pub open spec fn digits_value(s: Seq<char>) -> nat
    decreases s.len(),
{
    if s.len() == 0 {
        0
    } else {
        digits_value(s.drop_last()) * 10 + ((s.last() as u32) - ('0' as u32)) as nat
    }
}

pub open spec fn all_digits(s: Seq<char>) -> bool {
    forall|i: int| 0 <= i < s.len() ==> is_digit(#[trigger] s[i])
}

/// `str::parse::<usize>`: an optional `+`, then at least one digit, and the
/// value must fit in a `usize`.
pub open spec fn parse_usize_spec(s: Seq<char>) -> Option<usize> {
    if unsigned_part(s).len() > 0 && all_digits(unsigned_part(s)) && digits_value(
        unsigned_part(s),
    ) <= usize::MAX {
        Some(digits_value(unsigned_part(s)) as usize)
    } else {
        None
    }
}

/// The text after an optional leading `+`.
pub open spec fn unsigned_part(s: Seq<char>) -> Seq<char> {
    if s.len() > 0 && s[0] == '+' {
        s.drop_first()
    } else {
        s
    }
}


/// `s` without the prefix `p` where it has it (`strip_prefix(p).unwrap_or(s)`).
pub open spec fn strip_prefix_or(s: Seq<char>, p: Seq<char>) -> Seq<char> {
    if starts_with(s, p) {
        s.skip(p.len() as int)
    } else {
        s
    }
}

/// `s` without the suffix `p` where it has it (`strip_suffix(p).unwrap_or(s)`).
pub open spec fn strip_suffix_or(s: Seq<char>, p: Seq<char>) -> Seq<char> {
    if ends_with(s, p) {
        s.take(s.len() - p.len())
    } else {
        s
    }
}

/// The part of `s` before the first `c`, or all of `s` (`split(c).next()`).
pub open spec fn before_char(s: Seq<char>, c: char) -> Seq<char> {
    match find_char(s, c) {
        Some(i) => s.take(i),
        None => s,
    }
}


/// A found pattern lies inside the text, at or after the search start.
pub proof fn lemma_find_from_range(s: Seq<char>, pat: Seq<char>, i: int)
    ensures
        find_from(s, pat, i) matches Some(k) ==> i <= k && k + pat.len() <= s.len()
            && occurs_at(s, pat, k),
    decreases s.len() + 1 - i,
{
    if !(i < 0 || i + pat.len() > s.len()) && !occurs_at(s, pat, i) {
        lemma_find_from_range(s, pat, i + 1);
    }
}

/// Trimming is idempotent: a trimmed text has nothing left to trim.
pub proof fn lemma_trim_idempotent(s: Seq<char>)
    ensures
        trim(trim(s)) == trim(s),
        trim_start(trim(s)) == trim(s),
        trim_end(trim(s)) == trim(s),
{
    lemma_trim_start_fixed(s);
    lemma_trim_end_keeps_start(trim_start(s));
    lemma_trim_end_fixed(trim_start(s));
}

/// A trimmed text that is not empty starts and ends with a non-space.
pub proof fn lemma_trimmed_ends(s: Seq<char>)
    ensures
        trim(s).len() > 0 ==> !is_ws(trim(s)[0]) && !is_ws(trim(s).last()),
{
    lemma_trim_start_fixed(s);
    lemma_trim_end_keeps_start(trim_start(s));
    lemma_trim_end_fixed(trim_start(s));
}

/// A text that starts and ends with a non-space is its own trim.
pub proof fn lemma_solid_is_trimmed(s: Seq<char>)
    requires
        s.len() > 0,
        !is_ws(s[0]),
        !is_ws(s.last()),
    ensures
        trim(s) == s,
        trim_start(s) == s,
        trim_end(s) == s,
{
}

/// Trimming keeps a stretch of the text: `trim(s)` is `s[a..b]`.
pub proof fn lemma_trim_piece(s: Seq<char>) -> (ab: (int, int))
    ensures
        0 <= ab.0 <= ab.1 <= s.len(),
        trim(s) == s.subrange(ab.0, ab.1),
{
    let a = lemma_trim_start_at(s);
    let u = s.skip(a);
    let b = lemma_trim_end_at(u);
    assert(u.take(b) =~= s.subrange(a, a + b));
    (a, a + b)
}

pub proof fn lemma_trim_start_at(s: Seq<char>) -> (a: int)
    ensures
        0 <= a <= s.len(),
        trim_start(s) == s.skip(a),
        forall|j: int| 0 <= j < a ==> is_ws(#[trigger] s[j]),
    decreases s.len(),
{
    if s.len() > 0 && is_ws(s[0]) {
        let a = lemma_trim_start_at(s.drop_first());
        assert(s.drop_first().skip(a) =~= s.skip(a + 1));
        assert forall|j: int| 0 <= j < a + 1 implies is_ws(#[trigger] s[j]) by {
            if j > 0 {
                assert(s[j] == s.drop_first()[j - 1]);
            }
        }
        a + 1
    } else {
        assert(s.skip(0) =~= s);
        0
    }
}

pub proof fn lemma_trim_end_at(s: Seq<char>) -> (b: int)
    ensures
        0 <= b <= s.len(),
        trim_end(s) == s.take(b),
        forall|j: int| b <= j < s.len() ==> is_ws(#[trigger] s[j]),
    decreases s.len(),
{
    if s.len() > 0 && is_ws(s.last()) {
        let b = lemma_trim_end_at(s.drop_last());
        assert(s.drop_last().take(b) =~= s.take(b));
        assert forall|j: int| b <= j < s.len() implies is_ws(#[trigger] s[j]) by {
            if j < s.len() - 1 {
                assert(s[j] == s.drop_last()[j]);
            }
        }
        b
    } else {
        assert(s.take(s.len() as int) =~= s);
        s.len() as int
    }
}

/// Leading spaces make no difference to `trim_start`.
pub proof fn lemma_trim_start_after_spaces(w: Seq<char>, s: Seq<char>)
    requires
        forall|j: int| 0 <= j < w.len() ==> is_ws(#[trigger] w[j]),
    ensures
        trim_start(w + s) == trim_start(s),
{
    let x = w + s;
    assert forall|j: int| 0 <= j < w.len() implies is_ws(#[trigger] x[j]) by {
        assert(x[j] == w[j]);
    }
    lemma_trim_start_skip(x, w.len() as int);
    assert(x.skip(w.len() as int) =~= s);
}

/// Trailing spaces make no difference to `trim_end`.
pub proof fn lemma_trim_end_before_spaces(s: Seq<char>, w: Seq<char>)
    requires
        forall|j: int| 0 <= j < w.len() ==> is_ws(#[trigger] w[j]),
    ensures
        trim_end(s + w) == trim_end(s),
{
    let x = s + w;
    assert forall|j: int| s.len() <= j < x.len() implies is_ws(#[trigger] x[j]) by {
        assert(x[j] == w[j - s.len()]);
    }
    lemma_trim_end_take(x, s.len() as int);
    assert(x.take(s.len() as int) =~= s);
}

proof fn lemma_trim_start_fixed(s: Seq<char>)
    ensures
        trim_start(trim_start(s)) == trim_start(s),
        trim_start(s).len() > 0 ==> !is_ws(trim_start(s)[0]),
    decreases s.len(),
{
    if s.len() > 0 && is_ws(s[0]) {
        lemma_trim_start_fixed(s.drop_first());
    }
}

proof fn lemma_trim_end_fixed(s: Seq<char>)
    ensures
        trim_end(trim_end(s)) == trim_end(s),
        trim_end(s).len() > 0 ==> !is_ws(trim_end(s).last()),
    decreases s.len(),
{
    if s.len() > 0 && is_ws(s.last()) {
        lemma_trim_end_fixed(s.drop_last());
    }
}

/// Trimming the end of a text that starts with a non-space keeps that start.
proof fn lemma_trim_end_keeps_start(s: Seq<char>)
    requires
        s.len() > 0 ==> !is_ws(s[0]),
    ensures
        trim_start(trim_end(s)) == trim_end(s),
        trim_end(s).len() > 0 ==> trim_end(s)[0] == s[0],
        trim_end(s).len() <= s.len(),
    decreases s.len(),
{
    if s.len() > 0 && is_ws(s.last()) {
        let d = s.drop_last();
        if d.len() > 0 {
            assert(d[0] == s[0]);
        }
        lemma_trim_end_keeps_start(d);
    }
}

// ---------------------------------------------------------------------------
// Executable helpers
// ---------------------------------------------------------------------------

/// The characters of `s`, in order.
pub fn chars_of(s: &str) -> (v: Vec<char>)
    ensures
        v@ == s@,
{
    let mut v: Vec<char> = Vec::new();
    for c in it: s.chars()
        invariant
            v@ == it.seq().take(it.index() as int),
            it.seq() == s@,
    {
        v.push(c);
    }
    v
}

/// Appends one character to a string (`String::push`).
#[verifier::external_body]
pub(crate) fn push_char(s: &mut String, c: char)
    ensures
        final(s)@ == old(s)@.push(c),
{
    s.push(c);
}

/// Appends the characters `v[lo..hi]` to `out`.
pub fn push_chars(out: &mut String, v: &Vec<char>, lo: usize, hi: usize)
    requires
        lo <= hi <= v@.len(),
    ensures
        final(out)@ == old(out)@ + v@.subrange(lo as int, hi as int),
{
    let mut i = lo;
    while i < hi
        invariant
            lo <= i <= hi <= v@.len(),
            out@ == old(out)@ + v@.subrange(lo as int, i as int),
        decreases hi - i,
    {
        push_char(out, v[i]);
        i = i + 1;
        assert(v@.subrange(lo as int, i as int) == v@.subrange(lo as int, i - 1).push(v@[i - 1]));
    }
}

/// A string holding exactly the characters of `v`.
pub fn string_of(v: &Vec<char>) -> (s: String)
    ensures
        s@ == v@,
{
    let mut s = String::new();
    push_chars(&mut s, v, 0, v.len());
    assert(v@.subrange(0, v@.len() as int) == v@);
    s
}

/// The characters `v[lo..hi]`.
pub fn slice(v: &Vec<char>, lo: usize, hi: usize) -> (r: Vec<char>)
    requires
        lo <= hi <= v@.len(),
    ensures
        r@ == v@.subrange(lo as int, hi as int),
{
    let mut r: Vec<char> = Vec::new();
    let mut i = lo;
    while i < hi
        invariant
            lo <= i <= hi <= v@.len(),
            r@ == v@.subrange(lo as int, i as int),
        decreases hi - i,
    {
        r.push(v[i]);
        i = i + 1;
    }
    r
}

/// `a` followed by `b`.
pub fn cat(a: &Vec<char>, b: &Vec<char>) -> (r: Vec<char>)
    ensures
        r@ == a@ + b@,
{
    let mut r = a.clone();
    let mut i: usize = 0;
    while i < b.len()
        invariant
            0 <= i <= b@.len(),
            r@ == a@ + b@.take(i as int),
        decreases b.len() - i,
    {
        r.push(b[i]);
        i = i + 1;
    }
    assert(b@.take(b@.len() as int) == b@);
    r
}

/// Appends `b` to `a`.
pub fn extend(a: &mut Vec<char>, b: &Vec<char>)
    ensures
        final(a)@ == old(a)@ + b@,
{
    let mut i: usize = 0;
    while i < b.len()
        invariant
            0 <= i <= b@.len(),
            a@ == old(a)@ + b@.take(i as int),
        decreases b.len() - i,
    {
        a.push(b[i]);
        i = i + 1;
    }
    assert(b@.take(b@.len() as int) == b@);
}

/// Appends the characters of the literal `s` to `a`.
pub fn extend_str(a: &mut Vec<char>, s: &str)
    ensures
        final(a)@ == old(a)@ + s@,
{
    let b = chars_of(s);
    extend(a, &b);
}

/// `char::is_whitespace`.
pub fn is_ws_exec(c: char) -> (r: bool)
    ensures
        r == is_ws(c),
{
    let u = c as u32;
    (0x09 <= u && u <= 0x0D) || u == 0x20 || u == 0x85 || u == 0xA0 || u == 0x1680 || (0x2000
        <= u && u <= 0x200A) || u == 0x2028 || u == 0x2029 || u == 0x202F || u == 0x205F || u
        == 0x3000
}

pub fn is_ascii_ws_exec(c: char) -> (r: bool)
    ensures
        r == is_ascii_ws(c),
{
    c == ' ' || c == '\t' || c == '\n' || c == '\r' || c == '\x0C'
}

pub fn is_digit_exec(c: char) -> (r: bool)
    ensures
        r == is_digit(c),
{
    '0' <= c && c <= '9'
}

pub fn is_alnum_exec(c: char) -> (r: bool)
    ensures
        r == is_alnum(c),
{
    ('a' <= c && c <= 'z') || ('A' <= c && c <= 'Z') || ('0' <= c && c <= '9')
}

proof fn lemma_trim_start_skip(s: Seq<char>, i: int)
    requires
        0 <= i <= s.len(),
        forall|j: int| 0 <= j < i ==> is_ws(#[trigger] s[j]),
    ensures
        trim_start(s) == trim_start(s.skip(i)),
    decreases i,
{
    if i > 0 {
        assert(s.drop_first().skip(i - 1) == s.skip(i));
        lemma_trim_start_skip(s.drop_first(), i - 1);
    } else {
        assert(s.skip(0) == s);
    }
}

proof fn lemma_trim_end_take(s: Seq<char>, i: int)
    requires
        0 <= i <= s.len(),
        forall|j: int| i <= j < s.len() ==> is_ws(#[trigger] s[j]),
    ensures
        trim_end(s) == trim_end(s.take(i)),
    decreases s.len() - i,
{
    if i < s.len() {
        assert(s.drop_last().take(i) == s.take(i));
        lemma_trim_end_take(s.drop_last(), i);
    } else {
        assert(s.take(i) == s);
    }
}

/// `str::trim_start`.
pub fn trim_start_v(v: &Vec<char>) -> (r: Vec<char>)
    ensures
        r@ == trim_start(v@),
{
    let mut i: usize = 0;
    while i < v.len() && is_ws_exec(v[i])
        invariant
            0 <= i <= v@.len(),
            forall|j: int| 0 <= j < i ==> is_ws(#[trigger] v@[j]),
        decreases v.len() - i,
    {
        i = i + 1;
    }
    proof {
        lemma_trim_start_skip(v@, i as int);
    }
    slice(v, i, v.len())
}

/// `str::trim_end`.
pub fn trim_end_v(v: &Vec<char>) -> (r: Vec<char>)
    ensures
        r@ == trim_end(v@),
{
    let mut i = v.len();
    while i > 0 && is_ws_exec(v[i - 1])
        invariant
            0 <= i <= v@.len(),
            forall|j: int| i <= j < v@.len() ==> is_ws(#[trigger] v@[j]),
        decreases i,
    {
        i = i - 1;
    }
    proof {
        lemma_trim_end_take(v@, i as int);
        assert(v@.subrange(0, i as int) == v@.take(i as int));
    }
    slice(v, 0, i)
}

/// `str::trim`.
pub fn trim_v(v: &Vec<char>) -> (r: Vec<char>)
    ensures
        r@ == trim(v@),
{
    let a = trim_start_v(v);
    trim_end_v(&a)
}

/// Whether `pat` occurs in `v` at position `i`.
pub fn occurs_at_exec(v: &Vec<char>, pat: &Vec<char>, i: usize) -> (r: bool)
    ensures
        r == occurs_at(v@, pat@, i as int),
{
    let vl = v.len();
    if i > vl || pat.len() > vl - i {
        return false;
    }
    let mut k: usize = 0;
    while k < pat.len()
        invariant
            vl == v@.len(),
            i + pat@.len() <= v@.len(),
            0 <= k <= pat@.len(),
            forall|j: int| 0 <= j < k ==> v@[i + j] == pat@[j],
        decreases pat.len() - k,
    {
        assert(i + k < v@.len());
        if v[i + k] != pat[k] {
            assert(v@.subrange(i as int, i + pat@.len())[k as int] != pat@[k as int]);
            return false;
        }
        k = k + 1;
    }
    assert(v@.subrange(i as int, i + pat@.len()) == pat@);
    true
}

/// `starts_with` on character vectors.
pub fn starts_with_v(v: &Vec<char>, pat: &Vec<char>) -> (r: bool)
    ensures
        r == starts_with(v@, pat@),
{
    let r = occurs_at_exec(v, pat, 0);
    proof {
        assert(v@.subrange(0, pat@.len() as int) == v@.take(pat@.len() as int));
    }
    r
}

/// `starts_with` with a string pattern.
pub fn starts_with_str(v: &Vec<char>, pat: &str) -> (r: bool)
    ensures
        r == starts_with(v@, pat@),
{
    let p = chars_of(pat);
    starts_with_v(v, &p)
}

/// `ends_with` on character vectors.
pub fn ends_with_v(v: &Vec<char>, pat: &Vec<char>) -> (r: bool)
    ensures
        r == ends_with(v@, pat@),
{
    if pat.len() > v.len() {
        return false;
    }
    let r = occurs_at_exec(v, pat, v.len() - pat.len());
    proof {
        assert(v@.subrange(v@.len() - pat@.len(), v@.len() as int) == v@.skip(
            v@.len() - pat@.len(),
        ));
    }
    r
}

/// `ends_with` with a string pattern.
pub fn ends_with_str(v: &Vec<char>, pat: &str) -> (r: bool)
    ensures
        r == ends_with(v@, pat@),
{
    let p = chars_of(pat);
    ends_with_v(v, &p)
}

/// Equality of character vectors.
pub fn eq_v(a: &Vec<char>, b: &Vec<char>) -> (r: bool)
    ensures
        r == (a@ == b@),
{
    if a.len() != b.len() {
        return false;
    }
    let r = starts_with_v(a, b);
    proof {
        assert(a@.take(b@.len() as int) == a@);
    }
    r
}

/// Equality with a string literal.
pub fn eq_str(a: &Vec<char>, b: &str) -> (r: bool)
    ensures
        r == (a@ == b@),
{
    let p = chars_of(b);
    eq_v(a, &p)
}

proof fn lemma_find_from_none(s: Seq<char>, pat: Seq<char>, i: int)
    requires
        0 <= i,
        forall|j: int| i <= j && j + pat.len() <= s.len() ==> !occurs_at(s, pat, j),
    ensures
        find_from(s, pat, i) is None,
    decreases s.len() + 1 - i,
{
    if i + pat.len() <= s.len() {
        lemma_find_from_none(s, pat, i + 1);
    }
}

proof fn lemma_find_from_skip(s: Seq<char>, pat: Seq<char>, i: int, k: int)
    requires
        0 <= i <= k,
        forall|j: int| i <= j < k ==> !occurs_at(s, pat, j),
    ensures
        find_from(s, pat, i) == find_from(s, pat, k),
    decreases k - i,
{
    if i < k {
        lemma_find_from_skip(s, pat, i + 1, k);
    }
}

/// `str::find` from position `from`.
pub fn find_from_v(v: &Vec<char>, pat: &Vec<char>, from: usize) -> (r: Option<usize>)
    ensures
        r matches Some(i) ==> find_from(v@, pat@, from as int) == Some(i as int),
        r matches Some(i) ==> from <= i && i + pat@.len() <= v.len() && occurs_at(v@, pat@, i as int),
        r is None ==> find_from(v@, pat@, from as int) is None,
{
    if pat.len() > v.len() || from > v.len() - pat.len() {
        proof {
            lemma_find_from_none(v@, pat@, from as int);
        }
        return None;
    }
    let last = v.len() - pat.len();
    let mut i = from;
    loop
        invariant
            from <= i <= last,
            last == v@.len() - pat@.len(),
            forall|j: int| from <= j < i ==> !occurs_at(v@, pat@, j),
        decreases last - i,
    {
        if occurs_at_exec(v, pat, i) {
            proof {
                lemma_find_from_skip(v@, pat@, from as int, i as int);
            }
            return Some(i);
        }
        if i == last {
            proof {
                lemma_find_from_none(v@, pat@, from as int);
            }
            return None;
        }
        i = i + 1;
    }
}

/// `str::find`.
pub fn find_v(v: &Vec<char>, pat: &Vec<char>) -> (r: Option<usize>)
    ensures
        r matches Some(i) ==> find(v@, pat@) == Some(i as int),
        r matches Some(i) ==> i + pat@.len() <= v.len() && occurs_at(v@, pat@, i as int),
        r is None ==> find(v@, pat@) is None,
{
    find_from_v(v, pat, 0)
}

/// `str::find` with a string pattern.
pub fn find_str(v: &Vec<char>, pat: &str) -> (r: Option<usize>)
    ensures
        r matches Some(i) ==> find(v@, pat@) == Some(i as int),
        r matches Some(i) ==> i + pat@.len() <= v.len() && occurs_at(v@, pat@, i as int),
        r is None ==> find(v@, pat@) is None,
{
    let p = chars_of(pat);
    find_v(v, &p)
}

/// `str::contains` with a string pattern.
pub fn contains_str(v: &Vec<char>, pat: &str) -> (r: bool)
    ensures
        r == contains(v@, pat@),
{
    find_str(v, pat).is_some()
}

/// A position that `rfind_upto` gives is one where the pattern occurs.
pub proof fn lemma_rfind_upto_occurs(s: Seq<char>, pat: Seq<char>, i: int)
    ensures
        rfind_upto(s, pat, i) matches Some(k) ==> occurs_at(s, pat, k),
    decreases i + 1,
{
    if i >= 0 && !occurs_at(s, pat, i) {
        lemma_rfind_upto_occurs(s, pat, i - 1);
    }
}

proof fn lemma_rfind_none(s: Seq<char>, pat: Seq<char>, i: int)
    requires
        forall|j: int| 0 <= j <= i ==> !occurs_at(s, pat, j),
    ensures
        rfind_upto(s, pat, i) is None,
    decreases i + 1,
{
    if i >= 0 {
        lemma_rfind_none(s, pat, i - 1);
    }
}

proof fn lemma_rfind_skip(s: Seq<char>, pat: Seq<char>, i: int, k: int)
    requires
        k <= i,
        forall|j: int| k < j <= i ==> !occurs_at(s, pat, j),
    ensures
        rfind_upto(s, pat, i) == rfind_upto(s, pat, k),
    decreases i - k,
{
    if k < i {
        lemma_rfind_skip(s, pat, i - 1, k);
    }
}

/// `str::rfind`.
pub fn rfind_v(v: &Vec<char>, pat: &Vec<char>) -> (r: Option<usize>)
    ensures
        r matches Some(i) ==> rfind(v@, pat@) == Some(i as int),
        r is None ==> rfind(v@, pat@) is None,
{
    if pat.len() > v.len() {
        proof {
            lemma_rfind_none(v@, pat@, v@.len() - pat@.len());
        }
        return None;
    }
    let top = v.len() - pat.len();
    let mut i = top;
    loop
        invariant
            i <= top,
            top == v@.len() - pat@.len(),
            forall|j: int| i < j <= top ==> !occurs_at(v@, pat@, j),
        decreases i,
    {
        if occurs_at_exec(v, pat, i) {
            proof {
                lemma_rfind_skip(v@, pat@, top as int, i as int);
            }
            return Some(i);
        }
        if i == 0 {
            proof {
                lemma_rfind_none(v@, pat@, top as int);
            }
            return None;
        }
        i = i - 1;
    }
}

/// `str::rfind` with a string pattern.
pub fn rfind_str(v: &Vec<char>, pat: &str) -> (r: Option<usize>)
    ensures
        r matches Some(i) ==> rfind(v@, pat@) == Some(i as int),
        r is None ==> rfind(v@, pat@) is None,
{
    let p = chars_of(pat);
    rfind_v(v, &p)
}

proof fn lemma_find_char_none(s: Seq<char>, c: char)
    requires
        forall|j: int| 0 <= j < s.len() ==> s[j] != c,
    ensures
        find_char(s, c) is None,
    decreases s.len(),
{
    if s.len() > 0 {
        lemma_find_char_none(s.drop_first(), c);
    }
}

proof fn lemma_find_char_at(s: Seq<char>, c: char, i: int)
    requires
        0 <= i < s.len(),
        s[i] == c,
        forall|j: int| 0 <= j < i ==> s[j] != c,
    ensures
        find_char(s, c) == Some(i),
    decreases i,
{
    if i > 0 {
        lemma_find_char_at(s.drop_first(), c, i - 1);
    }
}

/// Position of the first `c` in `v[from..]`, as an index into `v`.
pub fn find_char_from(v: &Vec<char>, c: char, from: usize) -> (r: Option<usize>)
    requires
        from <= v@.len(),
    ensures
        r matches Some(i) ==> from <= i < v.len() && v@[i as int] == c && find_char(v@.skip(from as int), c) == Some(
            i - from,
        ),
        r is None ==> find_char(v@.skip(from as int), c) is None,
{
    let mut i = from;
    while i < v.len()
        invariant
            from <= i <= v@.len(),
            forall|j: int| from <= j < i ==> v@[j] != c,
        decreases v.len() - i,
    {
        if v[i] == c {
            proof {
                lemma_find_char_at(v@.skip(from as int), c, i - from);
            }
            return Some(i);
        }
        i = i + 1;
    }
    proof {
        lemma_find_char_none(v@.skip(from as int), c);
    }
    None
}

/// `str::lines`.
pub fn lines_v(v: &Vec<char>) -> (r: Vec<Vec<char>>)
    ensures
        views(r@) == lines(v@),
{
    let mut r: Vec<Vec<char>> = Vec::new();
    let mut start: usize = 0;
    assert(v@.skip(0) == v@);
    while start < v.len()
        invariant
            0 <= start <= v@.len(),
            views(r@) + lines(v@.skip(start as int)) == lines(v@),
        decreases v.len() - start,
    {
        let ghost rest = v@.skip(start as int);
        match find_char_from(v, '\n', start) {
            None => {
                let piece = slice(v, start, v.len());
                assert(piece@ == rest);
                let ghost r0 = r@;
                r.push(piece);
                assert(views(r@) =~= views(r0).push(rest));
                proof {
                    assert(lines(rest) == seq![rest]);
                    assert(v@.skip(v@.len() as int) == Seq::<char>::empty());
                }
                start = v.len();
            },
            Some(i) => {
                let mut piece = slice(v, start, i);
                if piece.len() > 0 && piece[piece.len() - 1] == '\r' {
                    piece.pop();
                }
                assert(piece@ == strip_cr(rest.take(i - start)));
                let ghost r0 = r@;
                let ghost pv = piece@;
                r.push(piece);
                assert(views(r@) =~= views(r0).push(pv));
                proof {
                    assert(rest.skip(i - start + 1) == v@.skip(i + 1));
                    assert(lines(rest) == seq![strip_cr(rest.take(i - start))] + lines(
                        rest.skip(i - start + 1),
                    ));
                }
                start = i + 1;
            },
        }
    }
    proof {
        assert(v@.skip(start as int) == Seq::<char>::empty());
        assert(views(r@) + Seq::<Seq<char>>::empty() == views(r@));
    }
    r
}

/// `str::split` at a character.
pub fn split_char_v(v: &Vec<char>, c: char) -> (r: Vec<Vec<char>>)
    ensures
        views(r@) == split_char(v@, c),
{
    let mut r: Vec<Vec<char>> = Vec::new();
    let mut start: usize = 0;
    assert(v@.skip(0) == v@);
    loop
        invariant
            0 <= start <= v@.len(),
            views(r@) + split_char(v@.skip(start as int), c) == split_char(v@, c),
        decreases v.len() - start,
    {
        let ghost rest = v@.skip(start as int);
        match find_char_from(v, c, start) {
            None => {
                let piece = slice(v, start, v.len());
                assert(piece@ == rest);
                let ghost r0 = r@;
                r.push(piece);
                assert(views(r@) =~= views(r0).push(rest));
                assert(split_char(rest, c) == seq![rest]);
                return r;
            },
            Some(i) => {
                let piece = slice(v, start, i);
                assert(piece@ == rest.take(i - start));
                let ghost r0 = r@;
                let ghost pv = piece@;
                r.push(piece);
                assert(views(r@) =~= views(r0).push(pv));
                assert(rest.skip(i - start + 1) == v@.skip(i + 1));
                assert(split_char(rest, c) == seq![pv] + split_char(rest.skip(i - start + 1), c));
                start = i + 1;
            },
        }
    }
}

/// Joins the pieces with `sep` between them.
pub fn join_v(ls: &Vec<Vec<char>>, sep: &Vec<char>) -> (r: Vec<char>)
    ensures
        r@ == join(views(ls@), sep@),
{
    let mut r: Vec<char> = Vec::new();
    let mut i: usize = 0;
    while i < ls.len()
        invariant
            0 <= i <= ls@.len(),
            r@ == join(views(ls@).take(i as int), sep@),
        decreases ls.len() - i,
    {
        proof {
            assert(views(ls@).take(i + 1).drop_last() == views(ls@).take(i as int));
        }
        if i > 0 {
            extend(&mut r, sep);
        }
        extend(&mut r, &ls[i]);
        i = i + 1;
    }
    assert(views(ls@).take(ls@.len() as int) == views(ls@));
    r
}

/// Decimal text of `n` (`usize`'s `Display`).
pub fn decimal_v(n: usize) -> (r: Vec<char>)
    ensures
        r@ == decimal(n as nat),
    decreases n,
{
    if n < 10 {
        let mut r = Vec::new();
        r.push(digit_exec(n));
        r
    } else {
        let mut r = decimal_v(n / 10);
        r.push(digit_exec(n % 10));
        r
    }
}

fn digit_exec(d: usize) -> (c: char)
    requires
        d < 10,
    ensures
        c == digit_char(d as nat),
{
    if d == 0 { '0' }
    else if d == 1 { '1' }
    else if d == 2 { '2' }
    else if d == 3 { '3' }
    else if d == 4 { '4' }
    else if d == 5 { '5' }
    else if d == 6 { '6' }
    else if d == 7 { '7' }
    else if d == 8 { '8' }
    else { '9' }
}

/// `str::parse::<usize>`.
pub fn parse_usize(v: &Vec<char>) -> (r: Option<usize>)
    ensures
        r == parse_usize_spec(v@),
{
    let start: usize = if v.len() > 0 && v[0] == '+' { 1 } else { 0 };
    let ghost d = unsigned_part(v@);
    assert(d == v@.skip(start as int));
    if start >= v.len() {
        return None;
    }
    let mut acc: usize = 0;
    let mut i = start;
    while i < v.len()
        invariant
            start <= i <= v@.len(),
            d == v@.skip(start as int),
            d == unsigned_part(v@),
            all_digits(d.take(i - start)),
            acc == digits_value(d.take(i - start)),
        decreases v.len() - i,
    {
        assert(d.take(i - start + 1).drop_last() == d.take(i - start));
        if !is_digit_exec(v[i]) {
            assert(d[i - start] == v@[i as int]);
            assert(!is_digit(d[i - start]));
            assert(!all_digits(d));
            assert(parse_usize_spec(v@) is None);
            return None;
        }
        let dv = ((v[i] as u32) - ('0' as u32)) as usize;
        assert(d.take(i - start + 1).last() == v@[i as int]);
        assert(dv <= 9);
        assert(digits_value(d.take(i - start + 1)) == acc * 10 + dv);
        if acc > (usize::MAX - dv) / 10 {
            assert(acc * 10 + dv > usize::MAX) by (nonlinear_arith)
                requires
                    acc > (usize::MAX - dv) / 10,
                    dv <= 9,
            ;
            proof {
                if all_digits(d) {
                    lemma_digits_prefix_bound(d, (i - start + 1) as int);
                    assert(digits_value(d) > usize::MAX);
                }
                assert(parse_usize_spec(v@) is None);
            }
            return None;
        }
        assert(acc * 10 + dv <= usize::MAX) by (nonlinear_arith)
            requires
                acc <= (usize::MAX - dv) / 10,
                dv <= 9,
        ;
        acc = acc * 10 + dv;
        i = i + 1;
        assert(all_digits(d.take(i - start))) by {
            assert forall|j: int| 0 <= j < i - start implies is_digit(#[trigger] d.take(i - start)[j]) by {
                if j < i - start - 1 {
                    assert(d.take(i - start)[j] == d.take(i - start - 1)[j]);
                }
            }
        }
    }
    assert(d.take(i - start) == d);
    Some(acc)
}

proof fn lemma_digits_prefix_bound(d: Seq<char>, k: int)
    requires
        0 <= k <= d.len(),
        all_digits(d),
    ensures
        digits_value(d.take(k)) <= digits_value(d),
    decreases d.len() - k,
{
    if k < d.len() {
        let dl = d.drop_last();
        assert(all_digits(dl)) by {
            assert forall|i: int| 0 <= i < dl.len() implies is_digit(#[trigger] dl[i]) by {
                assert(dl[i] == d[i]);
            }
        }
        lemma_digits_prefix_bound(dl, k);
        assert(dl.take(k) == d.take(k));
    } else {
        assert(d.take(k) == d);
    }
}


/// `v` without the prefix `p` where it has it.
pub fn strip_prefix_str(v: &Vec<char>, p: &str) -> (r: Vec<char>)
    ensures
        r@ == strip_prefix_or(v@, p@),
{
    let pv = chars_of(p);
    if starts_with_v(v, &pv) {
        slice(v, pv.len(), v.len())
    } else {
        v.clone()
    }
}

/// `v` without the suffix `p` where it has it.
pub fn strip_suffix_str(v: &Vec<char>, p: &str) -> (r: Vec<char>)
    ensures
        r@ == strip_suffix_or(v@, p@),
{
    let pv = chars_of(p);
    if ends_with_v(v, &pv) {
        slice(v, 0, v.len() - pv.len())
    } else {
        v.clone()
    }
}

/// The part of `v` before the first `c`, or all of `v`.
pub fn before_char_v(v: &Vec<char>, c: char) -> (r: Vec<char>)
    ensures
        r@ == before_char(v@, c),
{
    match find_char_from(v, c, 0) {
        Some(i) => {
            assert(v@.skip(0) == v@);
            slice(v, 0, i)
        },
        None => {
            assert(v@.skip(0) == v@);
            v.clone()
        },
    }
}

/// Index of the last `c` in `v`.
pub fn rfind_char_v(v: &Vec<char>, c: char) -> (r: Option<usize>)
    ensures
        r matches Some(i) ==> rfind_char(v@, c) == Some(i as int) && i < v@.len(),
        r is None ==> rfind_char(v@, c) is None,
{
    let n = v.len();
    let mut i: usize = n;
    assert(v@.take(n as int) =~= v@);
    while i > 0
        invariant
            i <= n,
            n == v@.len(),
            rfind_char(v@, c) == rfind_char(v@.take(i as int), c),
        decreases i,
    {
        assert(v@.take(i as int).drop_last() =~= v@.take(i - 1));
        assert(v@.take(i as int).last() == v@[i - 1]);
        if v[i - 1] == c {
            return Some(i - 1);
        }
        i = i - 1;
    }
    None
}

/// What `char::is_alphanumeric` says of a character.
pub uninterp spec fn alphanumeric(c: char) -> bool;

/// `char::is_alphanumeric`: the Unicode `Alphabetic` or `Numeric`
/// property. Of ASCII characters exactly the letters and digits have it;
/// beyond ASCII the answer is left to the name `alphanumeric`.
#[verifier::external_body]
pub(crate) fn is_alphanumeric(c: char) -> (r: bool)
    ensures
        r == alphanumeric(c),
        (c as u32) < 0x80 ==> (r <==> is_alnum(c)),
{
    c.is_alphanumeric()
}

/// The leading run of `s` up to whitespace.
pub open spec fn word_run(s: Seq<char>) -> Seq<char>
    decreases s.len(),
{
    if s.len() == 0 || is_ws(s[0]) {
        seq![]
    } else {
        seq![s[0]] + word_run(s.drop_first())
    }
}

/// A word run is a prefix of the text.
pub proof fn lemma_word_run_prefix(s: Seq<char>)
    ensures
        word_run(s).len() <= s.len(),
        word_run(s) == s.take(word_run(s).len() as int),
    decreases s.len(),
{
    if s.len() > 0 && !is_ws(s[0]) {
        lemma_word_run_prefix(s.drop_first());
        assert(word_run(s) =~= s.take(word_run(s).len() as int));
    } else {
        assert(s.take(0) =~= Seq::<char>::empty());
    }
}

/// Trimming the start drops a prefix.
pub proof fn lemma_trim_start_suffix(s: Seq<char>)
    ensures
        trim_start(s).len() <= s.len(),
        trim_start(s) == s.skip(s.len() - trim_start(s).len()),
    decreases s.len(),
{
    if s.len() > 0 && is_ws(s[0]) {
        lemma_trim_start_suffix(s.drop_first());
        assert(s.drop_first().skip(s.drop_first().len() - trim_start(s).len()) =~= s.skip(
            s.len() - trim_start(s).len(),
        ));
    } else {
        assert(s.skip(0) =~= s);
    }
}

/// The first whitespace-separated word of `s`, or nothing
/// (`split_whitespace().next().unwrap_or("")`).
pub open spec fn first_word(s: Seq<char>) -> Seq<char> {
    word_run(trim_start(s))
}

proof fn lemma_word_run(s: Seq<char>, k: int)
    requires
        0 <= k <= s.len(),
        forall|j: int| 0 <= j < k ==> !is_ws(#[trigger] s[j]),
        k == s.len() || is_ws(s[k]),
    ensures
        word_run(s) == s.take(k),
    decreases k,
{
    if k > 0 {
        let d = s.drop_first();
        assert forall|j: int| 0 <= j < k - 1 implies !is_ws(#[trigger] d[j]) by {
            assert(d[j] == s[j + 1]);
        }
        lemma_word_run(d, k - 1);
        assert(s.take(k) =~= seq![s[0]] + d.take(k - 1));
    } else {
        assert(s.take(0) =~= Seq::<char>::empty());
    }
}

/// The leading run of `v` up to whitespace.
pub fn word_run_v(v: &Vec<char>) -> (r: Vec<char>)
    ensures
        r@ == word_run(v@),
{
    let n = v.len();
    let mut k: usize = 0;
    while k < n && !is_ws_exec(v[k])
        invariant
            k <= n,
            n == v@.len(),
            forall|j: int| 0 <= j < k ==> !is_ws(#[trigger] v@[j]),
        decreases n - k,
    {
        k = k + 1;
    }
    proof {
        lemma_word_run(v@, k as int);
    }
    slice(v, 0, k)
}

/// The first whitespace-separated word of `v`.
pub fn first_word_v(v: &Vec<char>) -> (r: Vec<char>)
    ensures
        r@ == first_word(v@),
{
    let t = trim_start_v(v);
    word_run_v(&t)
}

/// Decimal digits of a `u64`.
pub fn decimal_u64_v(n: u64) -> (r: Vec<char>)
    ensures
        r@ == decimal(n as nat),
    decreases n,
{
    if n < 10 {
        let mut r = Vec::new();
        r.push(digit_exec(n as usize));
        r
    } else {
        let mut r = decimal_u64_v(n / 10);
        r.push(digit_exec((n % 10) as usize));
        r
    }
}

} // verus!
