//! Character-level string utilities: first-line extraction, ASCII case
//! folding, pattern matching, lexicographic order and decimal rendering.
//!
//! Commit messages are examined through these helpers so that every
//! classification rule is stated over a `Seq<char>` view.
use vstd::prelude::*;

verus! {

/// An ASCII uppercase letter.
pub open spec fn is_upper(c: char) -> bool {
    65 <= c as u32 <= 90
}

/// An ASCII lowercase letter.
pub open spec fn is_lower(c: char) -> bool {
    97 <= c as u32 <= 122
}

/// An ASCII decimal digit.
pub open spec fn is_digit(c: char) -> bool {
    48 <= c as u32 <= 57
}

/// A Unicode whitespace character (the `White_Space` set).
pub open spec fn is_space(c: char) -> bool {
    let u = c as u32;
    (9 <= u <= 13) || u == 32 || u == 0x85 || u == 0xA0 || u == 0x1680 || (0x2000 <= u
        <= 0x200A) || u == 0x2028 || u == 0x2029 || u == 0x202F || u == 0x205F || u == 0x3000
}

/// Whitespace test used by the conventional-prefix boundary.
pub fn space_char(c: char) -> (r: bool)
    ensures
        r == is_space(c),
{
    let u = c as u32;
    (9 <= u && u <= 13) || u == 32 || u == 0x85 || u == 0xA0 || u == 0x1680 || (0x2000 <= u && u
        <= 0x200A) || u == 0x2028 || u == 0x2029 || u == 0x202F || u == 0x205F || u == 0x3000
}

/// An ASCII letter or digit.
pub open spec fn is_alnum(c: char) -> bool {
    is_upper(c) || is_lower(c) || is_digit(c)
}

/// ASCII case folding of one character; everything else is unchanged.
pub open spec fn lower(c: char) -> char {
    if is_upper(c) {
        (c as u32 + 32) as char
    } else {
        c
    }
}

/// ASCII case folding of a whole sequence.
pub open spec fn fold_lower(s: Seq<char>) -> Seq<char> {
    s.map_values(|c: char| lower(c))
}

/// The position of the first `'\n'` in `s`, or `s.len()` if there is none.
pub open spec fn line_end(s: Seq<char>) -> int {
    if exists|k: int| 0 <= k < s.len() && s[k] == '\n' {
        choose|k: int|
            0 <= k < s.len() && s[k] == '\n' && forall|j: int| 0 <= j < k ==> s[j] != '\n'
    } else {
        s.len() as int
    }
}

/// `line_end` is pinned down by the usual characterisation of a first
/// occurrence.
pub proof fn lemma_line_end(s: Seq<char>, i: int)
    requires
        0 <= i <= s.len(),
        forall|j: int| 0 <= j < i ==> s[j] != '\n',
        i < s.len() ==> s[i] == '\n',
    ensures
        line_end(s) == i,
{
    if i < s.len() {
        assert(0 <= i < s.len() && s[i] == '\n' && forall|j: int| 0 <= j < i ==> s[j] != '\n');
        let k = choose|k: int|
            0 <= k < s.len() && s[k] == '\n' && forall|j: int| 0 <= j < k ==> s[j] != '\n';
        if k < i {
            assert(s[k] != '\n');
        }
        if k > i {
            assert(s[i] != '\n');
        }
    }
}

/// The first line of a message: everything before the first `'\n'`,
/// with a trailing `'\r'` removed.
pub open spec fn first_line(s: Seq<char>) -> Seq<char> {
    let line = s.take(line_end(s));
    if line.len() > 0 && line.last() == '\r' {
        line.drop_last()
    } else {
        line
    }
}

/// `p` occurs in `h` starting at position `i`.
pub open spec fn matches_at(h: Seq<char>, p: Seq<char>, i: int) -> bool {
    0 <= i && i + p.len() <= h.len() && h.subrange(i, i + p.len() as int) == p
}

/// `p` is a prefix of `h`.
pub open spec fn is_prefix(h: Seq<char>, p: Seq<char>) -> bool {
    matches_at(h, p, 0)
}

/// `p` occurs somewhere in `h`.
pub open spec fn contains_seq(h: Seq<char>, p: Seq<char>) -> bool {
    exists|i: int| matches_at(h, p, i)
}

/// Lexicographic order on character sequences, by code point.
pub open spec fn lex_le(a: Seq<char>, b: Seq<char>) -> bool
    decreases a.len(),
{
    if a.len() == 0 {
        true
    } else if b.len() == 0 {
        false
    } else if (a[0] as u32) < (b[0] as u32) {
        true
    } else if a[0] == b[0] {
        lex_le(a.drop_first(), b.drop_first())
    } else {
        false
    }
}

/// The lexicographic order is total.
pub proof fn lemma_lex_total(a: Seq<char>, b: Seq<char>)
    ensures
        lex_le(a, b) || lex_le(b, a),
    decreases a.len(),
{
    if a.len() > 0 && b.len() > 0 {
        if (a[0] as u32) == (b[0] as u32) {
            vstd::utf8::char_u32_cast(a[0], a[0] as u32);
            vstd::utf8::char_u32_cast(b[0], b[0] as u32);
            assert(a[0] == b[0]);
            lemma_lex_total(a.drop_first(), b.drop_first());
        }
    }
}

/// The lexicographic order is transitive.
pub proof fn lemma_lex_trans(a: Seq<char>, b: Seq<char>, c: Seq<char>)
    requires
        lex_le(a, b),
        lex_le(b, c),
    ensures
        lex_le(a, c),
    decreases a.len(),
{
    if a.len() > 0 && b.len() > 0 && c.len() > 0 && a[0] == b[0] && b[0] == c[0] {
        lemma_lex_trans(a.drop_first(), b.drop_first(), c.drop_first());
    }
}

/// The decimal rendering of a natural number.
pub open spec fn dec_str(n: nat) -> Seq<char>
    decreases n,
{
    if n < 10 {
        seq![(48 + n) as char]
    } else {
        dec_str(n / 10).push((48 + n % 10) as char)
    }
}

/// The decimal rendering of a signed number: a `'-'` before the digits
/// of the magnitude when negative.
pub open spec fn dec_str_i64(n: int) -> Seq<char> {
    if n >= 0 {
        dec_str(n as nat)
    } else {
        seq!['-'] + dec_str((-n) as nat)
    }
}

/// Exec check for an ASCII uppercase letter.
pub fn upper_char(c: char) -> (r: bool)
    ensures
        r == is_upper(c),
{
    let u = c as u32;
    65 <= u && u <= 90
}

/// Exec check for an ASCII digit.
pub fn digit_char(c: char) -> (r: bool)
    ensures
        r == is_digit(c),
{
    let u = c as u32;
    48 <= u && u <= 57
}

/// Exec check for an ASCII letter or digit.
pub fn alnum_char(c: char) -> (r: bool)
    ensures
        r == is_alnum(c),
{
    let u = c as u32;
    (65 <= u && u <= 90) || (97 <= u && u <= 122) || (48 <= u && u <= 57)
}

/// Exec ASCII case folding of one character.
pub fn lower_char(c: char) -> (r: char)
    ensures
        r == lower(c),
{
    let u = c as u32;
    if 65 <= u && u <= 90 {
        ((c as u8) + 32) as char
    } else {
        c
    }
}

/// The first line of a message as an indexable vector of characters.
pub fn first_line_chars(s: &str) -> (v: Vec<char>)
    ensures
        v@ == first_line(s@),
{
    let len = s.unicode_len();
    let mut v: Vec<char> = Vec::new();
    let mut i: usize = 0;
    let mut stopped = false;
    while i < len && !stopped
        invariant
            0 <= i <= len,
            !stopped ==> v@ == s@.take(i as int),
            !stopped ==> forall|j: int| 0 <= j < i ==> s@[j] != '\n',
            stopped ==> i < len && s@[i as int] == '\n' && v@ == s@.take(i as int)
                && forall|j: int| 0 <= j < i ==> s@[j] != '\n',
        decreases len - i + (if stopped { 0int } else { 1int }),
    {
        let c = s.get_char(i);
        if c == '\n' {
            stopped = true;
        } else {
            v.push(c);
            i = i + 1;
        }
    }
    proof {
        lemma_line_end(s@, i as int);
        if !stopped {
            assert(v@ =~= s@.take(line_end(s@)));
        }
    }
    if v.len() > 0 && v[v.len() - 1] == '\r' {
        v.pop();
    }
    v
}

/// ASCII case folding of a vector of characters.
pub fn lower_chars(v: &Vec<char>) -> (r: Vec<char>)
    ensures
        r@ == fold_lower(v@),
{
    let mut r: Vec<char> = Vec::new();
    let mut i: usize = 0;
    while i < v.len()
        invariant
            0 <= i <= v@.len(),
            r@ == v@.take(i as int).map_values(|c: char| lower(c)),
        decreases v@.len() - i,
    {
        r.push(lower_char(v[i]));
        proof {
            assert(v@.take(i + 1 as int).drop_last() =~= v@.take(i as int));
            assert(v@.take(i + 1 as int).map_values(|c: char| lower(c)) =~= v@.take(
                i as int,
            ).map_values(|c: char| lower(c)).push(lower(v@[i as int])));
        }
        i = i + 1;
    }
    proof {
        assert(v@.take(v@.len() as int) =~= v@);
    }
    r
}

/// Does `p` occur in `h` starting at position `at`?
pub fn match_at(h: &Vec<char>, p: &str, at: usize) -> (r: bool)
    ensures
        r == matches_at(h@, p@, at as int),
{
    let plen = p.unicode_len();
    if at > h.len() || plen > h.len() - at {
        return false;
    }
    let mut j: usize = 0;
    while j < plen
        invariant
            0 <= j <= plen,
            at + plen <= h@.len(),
            plen == p@.len(),
            forall|k: int| 0 <= k < j ==> h@[at + k] == p@[k],
        decreases plen - j,
    {
        if h[at + j] != p.get_char(j) {
            proof {
                assert(h@.subrange(at as int, at + p@.len() as int)[j as int] == h@[at + j]);
            }
            return false;
        }
        j = j + 1;
    }
    proof {
        assert(h@.subrange(at as int, at + p@.len() as int) =~= p@);
    }
    true
}

/// Does `h` start with `p`?
pub fn has_prefix(h: &Vec<char>, p: &str) -> (r: bool)
    ensures
        r == is_prefix(h@, p@),
{
    match_at(h, p, 0)
}

/// Does `p` occur anywhere in `h`?
pub fn contains_pat(h: &Vec<char>, p: &str) -> (r: bool)
    ensures
        r == contains_seq(h@, p@),
{
    let plen = p.unicode_len();
    if plen == 0 {
        proof {
            assert(h@.subrange(0, 0) =~= p@);
            assert(matches_at(h@, p@, 0));
        }
        return true;
    }
    if plen > h.len() {
        proof {
            assert(forall|i: int| !matches_at(h@, p@, i));
        }
        return false;
    }
    let mut i: usize = 0;
    while i <= h.len() - plen
        invariant
            plen == p@.len(),
            plen <= h@.len(),
            0 <= i <= h@.len() - plen + 1,
            forall|k: int| 0 <= k < i ==> !matches_at(h@, p@, k),
        decreases h@.len() - plen - i + 1,
    {
        if match_at(h, p, i) {
            return true;
        }
        i = i + 1;
    }
    proof {
        assert(forall|k: int| !matches_at(h@, p@, k));
    }
    false
}

/// Exec lexicographic comparison of two strings.
pub fn str_lex_le(a: &str, b: &str) -> (r: bool)
    ensures
        r == lex_le(a@, b@),
{
    let alen = a.unicode_len();
    let blen = b.unicode_len();
    let mut i: usize = 0;
    proof {
        assert(a@.skip(0) =~= a@);
        assert(b@.skip(0) =~= b@);
    }
    loop
        invariant
            alen == a@.len(),
            blen == b@.len(),
            0 <= i <= alen,
            i <= blen,
            lex_le(a@, b@) == lex_le(a@.skip(i as int), b@.skip(i as int)),
        decreases alen - i,
    {
        if i == alen {
            return true;
        }
        if i == blen {
            return false;
        }
        let ca = a.get_char(i);
        let cb = b.get_char(i);
        proof {
            assert(a@.skip(i as int)[0] == ca);
            assert(b@.skip(i as int)[0] == cb);
        }
        if (ca as u32) < (cb as u32) {
            return true;
        }
        if ca != cb {
            return false;
        }
        proof {
            assert(a@.skip(i as int).drop_first() =~= a@.skip(i + 1));
            assert(b@.skip(i as int).drop_first() =~= b@.skip(i + 1));
        }
        i = i + 1;
    }
}

/// One decimal digit as a string slice.
fn digit_lit(d: u64) -> (r: &'static str)
    requires
        d < 10,
    ensures
        r@ =~= seq![(48 + d) as char],
{
    proof {
        reveal_strlit("0");
        reveal_strlit("1");
        reveal_strlit("2");
        reveal_strlit("3");
        reveal_strlit("4");
        reveal_strlit("5");
        reveal_strlit("6");
        reveal_strlit("7");
        reveal_strlit("8");
        reveal_strlit("9");
    }
    match d {
        0 => "0",
        1 => "1",
        2 => "2",
        3 => "3",
        4 => "4",
        5 => "5",
        6 => "6",
        7 => "7",
        8 => "8",
        _ => "9",
    }
}

/// Decimal rendering of an unsigned number.
pub fn u64_to_string(n: u64) -> (s: String)
    ensures
        s@ == dec_str(n as nat),
    decreases n,
{
    let d = n % 10;
    let ds = digit_lit(d);
    if n < 10 {
        String::from_str(ds)
    } else {
        let mut s = u64_to_string(n / 10);
        s.append(ds);
        proof {
            assert(dec_str((n / 10) as nat) + ds@ =~= dec_str(n as nat));
        }
        s
    }
}

/// Decimal rendering of a signed number.
pub fn i64_to_string(n: i64) -> (s: String)
    ensures
        s@ == dec_str_i64(n as int),
{
    if n >= 0 {
        u64_to_string(n as u64)
    } else {
        let mag: u64 = ((-(n + 1)) as u64) + 1;
        let mut s = String::from_str("-");
        let digits = u64_to_string(mag);
        s.append(digits.as_str());
        proof {
            reveal_strlit("-");
            assert(mag == -(n as int));
            assert(seq!['-'] + dec_str(mag as nat) =~= dec_str_i64(n as int));
        }
        s
    }
}

/// The end of the run of ASCII uppercase letters starting at `from`:
/// the first position at or after `from` holding something else, or the
/// length of `s`.
pub open spec fn upper_end(s: Seq<char>, from: int) -> int {
    if exists|k: int| from <= k < s.len() && !is_upper(s[k]) {
        choose|k: int|
            from <= k < s.len() && !is_upper(s[k]) && forall|j: int|
                from <= j < k ==> is_upper(s[j])
    } else {
        s.len() as int
    }
}

/// `upper_end` is pinned down by the first-position characterisation.
pub proof fn lemma_upper_end(s: Seq<char>, from: int, i: int)
    requires
        0 <= from <= i <= s.len(),
        forall|j: int| from <= j < i ==> is_upper(s[j]),
        i < s.len() ==> !is_upper(s[i]),
    ensures
        upper_end(s, from) == i,
{
    if i < s.len() {
        assert(from <= i < s.len() && !is_upper(s[i]) && forall|j: int|
            from <= j < i ==> is_upper(s[j]));
        let k = choose|k: int|
            from <= k < s.len() && !is_upper(s[k]) && forall|j: int|
                from <= j < k ==> is_upper(s[j]);
        if k < i {
            assert(is_upper(s[k]));
        }
        if k > i {
            assert(is_upper(s[i]));
        }
    }
}

/// The end of the run of ASCII digits starting at `from`.
pub open spec fn digit_end(s: Seq<char>, from: int) -> int {
    if exists|k: int| from <= k < s.len() && !is_digit(s[k]) {
        choose|k: int|
            from <= k < s.len() && !is_digit(s[k]) && forall|j: int|
                from <= j < k ==> is_digit(s[j])
    } else {
        s.len() as int
    }
}

/// `digit_end` is pinned down by the first-position characterisation.
pub proof fn lemma_digit_end(s: Seq<char>, from: int, i: int)
    requires
        0 <= from <= i <= s.len(),
        forall|j: int| from <= j < i ==> is_digit(s[j]),
        i < s.len() ==> !is_digit(s[i]),
    ensures
        digit_end(s, from) == i,
{
    if i < s.len() {
        assert(from <= i < s.len() && !is_digit(s[i]) && forall|j: int|
            from <= j < i ==> is_digit(s[j]));
        let k = choose|k: int|
            from <= k < s.len() && !is_digit(s[k]) && forall|j: int|
                from <= j < k ==> is_digit(s[j]);
        if k < i {
            assert(is_digit(s[k]));
        }
        if k > i {
            assert(is_digit(s[i]));
        }
    }
}

/// The position of the first occurrence of `c` at or after `from`, or the
/// length of `s` when `c` does not occur there.
#[verifier::opaque]
pub open spec fn char_pos(s: Seq<char>, from: int, c: char) -> int {
    if exists|k: int| from <= k < s.len() && s[k] == c {
        choose|k: int|
            from <= k < s.len() && s[k] == c && forall|j: int| from <= j < k ==> s[j] != c
    } else {
        s.len() as int
    }
}

/// `char_pos` is pinned down by the first-position characterisation.
pub proof fn lemma_char_pos(s: Seq<char>, from: int, c: char, i: int)
    requires
        0 <= from <= i <= s.len(),
        forall|j: int| from <= j < i ==> s[j] != c,
        i < s.len() ==> s[i] == c,
    ensures
        char_pos(s, from, c) == i,
{
    reveal(char_pos);
    if i < s.len() {
        assert(from <= i < s.len() && s[i] == c && forall|j: int| from <= j < i ==> s[j] != c);
        let k = choose|k: int|
            from <= k < s.len() && s[k] == c && forall|j: int| from <= j < k ==> s[j] != c;
        if k < i {
            assert(s[k] != c);
        }
        if k > i {
            assert(s[i] != c);
        }
    }
}

/// The position of the first occurrence of pattern `p` in `h`, or the
/// length of `h` when `p` does not occur.
pub open spec fn pat_pos(h: Seq<char>, p: Seq<char>) -> int {
    if contains_seq(h, p) {
        choose|i: int|
            matches_at(h, p, i) && forall|j: int| 0 <= j < i ==> !matches_at(h, p, j)
    } else {
        h.len() as int
    }
}

/// `pat_pos` is pinned down by the first-occurrence characterisation.
pub proof fn lemma_pat_pos(h: Seq<char>, p: Seq<char>, i: int)
    requires
        matches_at(h, p, i),
        forall|j: int| 0 <= j < i ==> !matches_at(h, p, j),
    ensures
        contains_seq(h, p),
        pat_pos(h, p) == i,
{
    assert(contains_seq(h, p));
    assert(matches_at(h, p, i) && forall|j: int| 0 <= j < i ==> !matches_at(h, p, j));
    let k = choose|k: int|
        matches_at(h, p, k) && forall|j: int| 0 <= j < k ==> !matches_at(h, p, j);
    if k < i {
        assert(!matches_at(h, p, k));
    }
    if k > i {
        assert(!matches_at(h, p, i));
    }
}

/// Exec scan of an uppercase run.
pub fn scan_upper(v: &Vec<char>, from: usize) -> (r: usize)
    requires
        from <= v@.len(),
    ensures
        from <= r <= v@.len(),
        r == upper_end(v@, from as int),
        forall|j: int| from <= j < r ==> is_upper(v@[j]),
        r < v@.len() ==> !is_upper(v@[r as int]),
{
    let mut i = from;
    while i < v.len()
        invariant
            from <= i <= v@.len(),
            forall|j: int| from <= j < i ==> is_upper(v@[j]),
        decreases v@.len() - i,
    {
        if !upper_char(v[i]) {
            proof {
                lemma_upper_end(v@, from as int, i as int);
            }
            return i;
        }
        i = i + 1;
    }
    proof {
        lemma_upper_end(v@, from as int, i as int);
    }
    i
}

/// Exec scan of a digit run.
pub fn scan_digits(v: &Vec<char>, from: usize) -> (r: usize)
    requires
        from <= v@.len(),
    ensures
        from <= r <= v@.len(),
        r == digit_end(v@, from as int),
        forall|j: int| from <= j < r ==> is_digit(v@[j]),
        r < v@.len() ==> !is_digit(v@[r as int]),
{
    let mut i = from;
    while i < v.len()
        invariant
            from <= i <= v@.len(),
            forall|j: int| from <= j < i ==> is_digit(v@[j]),
        decreases v@.len() - i,
    {
        if !digit_char(v[i]) {
            proof {
                lemma_digit_end(v@, from as int, i as int);
            }
            return i;
        }
        i = i + 1;
    }
    proof {
        lemma_digit_end(v@, from as int, i as int);
    }
    i
}

/// Exec search for the first occurrence of a character.
pub fn find_char(v: &Vec<char>, from: usize, c: char) -> (r: usize)
    requires
        from <= v@.len(),
    ensures
        from <= r <= v@.len(),
        r == char_pos(v@, from as int, c),
        forall|j: int| from <= j < r ==> v@[j] != c,
        r < v@.len() ==> v@[r as int] == c,
{
    let mut i = from;
    while i < v.len()
        invariant
            from <= i <= v@.len(),
            forall|j: int| from <= j < i ==> v@[j] != c,
        decreases v@.len() - i,
    {
        if v[i] == c {
            proof {
                lemma_char_pos(v@, from as int, c, i as int);
            }
            return i;
        }
        i = i + 1;
    }
    proof {
        lemma_char_pos(v@, from as int, c, i as int);
    }
    i
}

/// Exec search for the first occurrence of a pattern.
pub fn find_pat(h: &Vec<char>, p: &str) -> (r: Option<usize>)
    ensures
        r is Some <==> contains_seq(h@, p@),
        r is Some ==> r->0 == pat_pos(h@, p@) && matches_at(h@, p@, r->0 as int),
{
    let plen = p.unicode_len();
    if plen == 0 {
        proof {
            assert(h@.subrange(0, 0) =~= p@);
            assert(matches_at(h@, p@, 0));
            lemma_pat_pos(h@, p@, 0);
        }
        return Some(0);
    }
    if plen > h.len() {
        proof {
            assert(forall|i: int| !matches_at(h@, p@, i));
        }
        return None;
    }
    let mut i: usize = 0;
    while i <= h.len() - plen
        invariant
            plen == p@.len(),
            0 < plen <= h@.len(),
            0 <= i <= h@.len() - plen + 1,
            forall|k: int| 0 <= k < i ==> !matches_at(h@, p@, k),
        decreases h@.len() - plen - i + 1,
    {
        if match_at(h, p, i) {
            proof {
                lemma_pat_pos(h@, p@, i as int);
            }
            return Some(i);
        }
        i = i + 1;
    }
    proof {
        assert(forall|k: int| !matches_at(h@, p@, k));
    }
    None
}

/// All characters of a string as an indexable vector.
pub fn str_chars(s: &str) -> (v: Vec<char>)
    ensures
        v@ == s@,
{
    let len = s.unicode_len();
    let mut v: Vec<char> = Vec::new();
    let mut i: usize = 0;
    while i < len
        invariant
            0 <= i <= len,
            len == s@.len(),
            v@ == s@.take(i as int),
        decreases len - i,
    {
        v.push(s.get_char(i));
        proof {
            assert(v@ =~= s@.take(i + 1));
        }
        i = i + 1;
    }
    proof {
        assert(v@ =~= s@);
    }
    v
}

/// The first line of a message as a borrowed slice of the original.
pub fn first_line_str(s: &str) -> (r: &str)
    ensures
        r@ == first_line(s@),
{
    let len = s.unicode_len();
    let mut i: usize = 0;
    while i < len
        invariant
            0 <= i <= len,
            len == s@.len(),
            forall|j: int| 0 <= j < i ==> s@[j] != '\n',
        decreases len - i,
    {
        if s.get_char(i) == '\n' {
            proof {
                lemma_line_end(s@, i as int);
            }
            let end = if i > 0 && s.get_char(i - 1) == '\r' {
                i - 1
            } else {
                i
            };
            let r = s.substring_char(0, end);
            proof {
                if end < i {
                    assert(s@.take(i as int).drop_last() =~= s@.subrange(0, i - 1));
                } else {
                    assert(s@.take(i as int) =~= s@.subrange(0, i as int));
                }
                assert(r@ =~= first_line(s@));
            }
            return r;
        }
        i = i + 1;
    }
    proof {
        lemma_line_end(s@, len as int);
    }
    let end = if len > 0 && s.get_char(len - 1) == '\r' {
        len - 1
    } else {
        len
    };
    let r = s.substring_char(0, end);
    proof {
        assert(s@.take(len as int) =~= s@);
        if end < len {
            assert(s@.take(len as int).drop_last() =~= s@.subrange(0, len - 1));
        } else {
            assert(s@.take(len as int) =~= s@.subrange(0, len as int));
        }
        assert(r@ =~= first_line(s@));
    }
    r
}

/// The position of the first non-whitespace character, or `s.len()`.
pub open spec fn lspace_end(s: Seq<char>) -> int {
    if exists|k: int| 0 <= k < s.len() && !is_space(s[k]) {
        choose|k: int|
            0 <= k < s.len() && !is_space(s[k]) && forall|j: int| 0 <= j < k ==> is_space(s[j])
    } else {
        s.len() as int
    }
}

/// `lspace_end` is pinned down by the first-position characterisation.
pub proof fn lemma_lspace_end(s: Seq<char>, i: int)
    requires
        0 <= i <= s.len(),
        forall|j: int| 0 <= j < i ==> is_space(s[j]),
        i < s.len() ==> !is_space(s[i]),
    ensures
        lspace_end(s) == i,
{
    if i < s.len() {
        assert(0 <= i < s.len() && !is_space(s[i]) && forall|j: int|
            0 <= j < i ==> is_space(s[j]));
        let k = choose|k: int|
            0 <= k < s.len() && !is_space(s[k]) && forall|j: int| 0 <= j < k ==> is_space(s[j]);
        if k < i {
            assert(is_space(s[k]));
        }
        if k > i {
            assert(is_space(s[i]));
        }
    }
}

/// One past the last non-whitespace character, or `0`.
pub open spec fn rspace_begin(s: Seq<char>) -> int {
    if exists|k: int| 0 <= k < s.len() && !is_space(s[k]) {
        (choose|k: int|
            0 <= k < s.len() && !is_space(s[k]) && forall|j: int|
                k < j < s.len() ==> is_space(s[j])) + 1
    } else {
        0
    }
}

/// `rspace_begin` is pinned down by the last-position characterisation.
pub proof fn lemma_rspace_begin(s: Seq<char>, i: int)
    requires
        0 <= i < s.len(),
        !is_space(s[i]),
        forall|j: int| i < j < s.len() ==> is_space(s[j]),
    ensures
        rspace_begin(s) == i + 1,
{
    assert(0 <= i < s.len() && !is_space(s[i]) && forall|j: int|
        i < j < s.len() ==> is_space(s[j]));
    let k = choose|k: int|
        0 <= k < s.len() && !is_space(s[k]) && forall|j: int| k < j < s.len() ==> is_space(s[j]);
    if k < i {
        assert(is_space(s[i]));
    }
    if k > i {
        assert(is_space(s[k]));
    }
}

/// `s` with leading and trailing whitespace removed.
pub open spec fn spec_trim(s: Seq<char>) -> Seq<char> {
    if exists|k: int| 0 <= k < s.len() && !is_space(s[k]) {
        s.subrange(lspace_end(s), rspace_begin(s))
    } else {
        Seq::empty()
    }
}

/// Strip leading and trailing whitespace.
pub fn trim_str(s: &str) -> (r: &str)
    ensures
        r@ == spec_trim(s@),
{
    let len = s.unicode_len();
    let mut a: usize = 0;
    while a < len && space_char(s.get_char(a))
        invariant
            0 <= a <= len,
            len == s@.len(),
            forall|j: int| 0 <= j < a ==> is_space(s@[j]),
        decreases len - a,
    {
        a = a + 1;
    }
    if a == len {
        let r = s.substring_char(len, len);
        proof {
            assert(forall|k: int| 0 <= k < s@.len() ==> is_space(s@[k]));
            assert(r@ =~= spec_trim(s@));
        }
        return r;
    }
    proof {
        lemma_lspace_end(s@, a as int);
    }
    let mut b: usize = len;
    while space_char(s.get_char(b - 1))
        invariant
            a + 1 <= b <= len,
            len == s@.len(),
            a < len,
            !is_space(s@[a as int]),
            forall|j: int| b <= j < len ==> is_space(s@[j]),
        decreases b,
    {
        b = b - 1;
    }
    proof {
        lemma_rspace_begin(s@, b - 1 as int);
    }
    let r = s.substring_char(a, b);
    proof {
        assert(r@ =~= spec_trim(s@));
    }
    r
}

/// The views of a list of strings.
pub open spec fn str_views(s: Seq<String>) -> Seq<Seq<char>> {
    s.map_values(|x: String| x@)
}

/// An equal copy of a list of strings.
pub fn clone_strings(v: &Vec<String>) -> (r: Vec<String>)
    ensures
        r@ == v@,
{
    let mut r: Vec<String> = Vec::new();
    let mut i: usize = 0;
    while i < v.len()
        invariant
            0 <= i <= v@.len(),
            r@ =~= v@.take(i as int),
        decreases v@.len() - i,
    {
        r.push(v[i].clone());
        proof {
            assert(r@ =~= v@.take(i + 1));
        }
        i = i + 1;
    }
    proof {
        assert(r@ =~= v@);
    }
    r
}

/// Is the view of `x` among the views of `v`?
pub open spec fn contains_str(v: Seq<String>, x: Seq<char>) -> bool {
    exists|i: int| 0 <= i < v.len() && v[i]@ == x
}

/// Exec membership test for a string in a vector of strings.
pub fn vec_contains_string(v: &Vec<String>, x: &String) -> (r: bool)
    ensures
        r == contains_str(v@, x@),
{
    let mut i: usize = 0;
    while i < v.len()
        invariant
            0 <= i <= v@.len(),
            forall|k: int| 0 <= k < i ==> v@[k]@ != x@,
        decreases v@.len() - i,
    {
        if v[i] == *x {
            return true;
        }
        i = i + 1;
    }
    false
}

} // verus!
