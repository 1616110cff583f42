use vstd::prelude::*;

verus! {

/// The character sequence obtained by joining a directory path and an
/// entry name with the path separator `/`.
#[verifier::opaque]
pub open spec fn joined(a: Seq<char>, b: Seq<char>) -> Seq<char> {
    a.push('/') + b
}

/// `p` is a prefix of `s`.
pub open spec fn is_prefix(s: Seq<char>, p: Seq<char>) -> bool {
    p.len() <= s.len() && s.subrange(0, p.len() as int) == p
}

/// `p` is a suffix of `s`.
pub open spec fn is_suffix(s: Seq<char>, p: Seq<char>) -> bool {
    p.len() <= s.len() && s.subrange(s.len() - p.len(), s.len() as int) == p
}

/// `p` occurs as a contiguous substring of `t` starting at position `i`.
pub open spec fn matches_at(t: Seq<char>, p: Seq<char>, i: int) -> bool {
    0 <= i && i + p.len() <= t.len() && t.subrange(i, i + p.len()) == p
}

/// `p` occurs somewhere in `t` as a contiguous substring.
pub open spec fn contains_seq(t: Seq<char>, p: Seq<char>) -> bool {
    exists|i: int| matches_at(t, p, i)
}

/// Lexicographic order on character sequences by code point: `a` comes
/// before `b` (or equals it) when, at the first differing position, `a`'s
/// character is smaller, or when `a` is a prefix of `b`.
pub open spec fn seq_le(a: Seq<char>, b: Seq<char>) -> bool
    decreases a.len(),
{
    if a.len() == 0 {
        true
    } else if b.len() == 0 {
        false
    } else if a[0] != b[0] {
        a[0] < b[0]
    } else {
        seq_le(a.skip(1), b.skip(1))
    }
}

/// The lexicographic order is total.
pub proof fn lemma_seq_le_total(a: Seq<char>, b: Seq<char>)
    ensures
        seq_le(a, b) || seq_le(b, a),
    decreases a.len(),
{
    if a.len() != 0 && b.len() != 0 && a[0] == b[0] {
        lemma_seq_le_total(a.skip(1), b.skip(1));
    }
}

/// The lexicographic order is transitive.
pub proof fn lemma_seq_le_trans(a: Seq<char>, b: Seq<char>, c: Seq<char>)
    requires
        seq_le(a, b),
        seq_le(b, c),
    ensures
        seq_le(a, c),
    decreases a.len(),
{
    if a.len() != 0 && b.len() != 0 && c.len() != 0 && a[0] == b[0] && b[0] == c[0] {
        lemma_seq_le_trans(a.skip(1), b.skip(1), c.skip(1));
    }
}

/// Comparing two sequences that agree on their first `i` characters comes
/// down to comparing the remainders.
proof fn lemma_seq_le_skip(a: Seq<char>, b: Seq<char>, i: int)
    requires
        0 <= i <= a.len(),
        i <= b.len(),
        forall|j: int| 0 <= j < i ==> a[j] == b[j],
    ensures
        seq_le(a, b) == seq_le(a.skip(i), b.skip(i)),
    decreases i,
{
    if i == 0 {
        assert(a.skip(0) =~= a);
        assert(b.skip(0) =~= b);
    } else {
        assert(a[0] == b[0]);
        assert(a.skip(1).skip(i - 1) =~= a.skip(i));
        assert(b.skip(1).skip(i - 1) =~= b.skip(i));
        assert(forall|j: int| 0 <= j < i - 1 ==> a.skip(1)[j] == b.skip(1)[j]);
        lemma_seq_le_skip(a.skip(1), b.skip(1), i - 1);
    }
}

/// Joining one directory with two different remainders gives two
/// different paths.
pub proof fn lemma_joined_cancel(d: Seq<char>, a: Seq<char>, b: Seq<char>)
    requires
        joined(d, a) == joined(d, b),
    ensures
        a == b,
{
    reveal(joined);
    assert(joined(d, a).skip(d.len() as int + 1) =~= a);
    assert(joined(d, b).skip(d.len() as int + 1) =~= b);
}

/// Whether two strings hold the same characters.
pub fn str_eq(a: &str, b: &str) -> (r: bool)
    ensures
        r == (a@ == b@),
{
    let alen = a.unicode_len();
    let blen = b.unicode_len();
    if alen != blen {
        return false;
    }
    let mut i: usize = 0;
    while i < alen
        invariant
            0 <= i <= alen,
            alen == a@.len(),
            alen == b@.len(),
            forall|j: int| 0 <= j < i ==> a@[j] == b@[j],
        decreases alen - i,
    {
        if a.get_char(i) != b.get_char(i) {
            return false;
        }
        i = i + 1;
    }
    proof {
        assert(a@ =~= b@);
    }
    true
}

/// Whether `a` comes lexicographically before `b`, or equals it.
pub fn lex_le(a: &str, b: &str) -> (r: bool)
    ensures
        r == seq_le(a@, b@),
{
    let alen = a.unicode_len();
    let blen = b.unicode_len();
    let shorter = if alen < blen { alen } else { blen };
    let mut i: usize = 0;
    while i < shorter
        invariant
            0 <= i <= shorter,
            alen == a@.len(),
            blen == b@.len(),
            shorter <= alen,
            shorter <= blen,
            forall|j: int| 0 <= j < i ==> a@[j] == b@[j],
        decreases shorter - i,
    {
        let ca = a.get_char(i);
        let cb = b.get_char(i);
        if ca != cb {
            proof {
                lemma_seq_le_skip(a@, b@, i as int);
                assert(a@.skip(i as int)[0] == a@[i as int]);
                assert(b@.skip(i as int)[0] == b@[i as int]);
            }
            return ca < cb;
        }
        i = i + 1;
    }
    proof {
        lemma_seq_le_skip(a@, b@, shorter as int);
        if alen <= blen {
            assert(a@.skip(shorter as int).len() == 0);
        } else {
            assert(b@.skip(shorter as int).len() == 0);
            assert(a@.skip(shorter as int).len() > 0);
        }
    }
    alen <= blen
}

/// Joins a directory path and an entry name with `/`.
pub fn path_join(a: &str, b: &str) -> (r: String)
    ensures
        r@ == joined(a@, b@),
{
    let mut s = a.to_owned();
    s.append("/");
    s.append(b);
    proof {
        reveal(joined);
        reveal_strlit("/");
        assert("/"@ =~= seq!['/']);
        assert(a@ + "/"@ + b@ =~= joined(a@, b@));
    }
    s
}

/// Whether `p` is a prefix of `s`.
pub fn has_prefix(s: &str, p: &str) -> (r: bool)
    ensures
        r == is_prefix(s@, p@),
{
    let slen = s.unicode_len();
    let plen = p.unicode_len();
    if plen > slen {
        return false;
    }
    let mut i: usize = 0;
    while i < plen
        invariant
            0 <= i <= plen,
            plen <= slen,
            slen == s@.len(),
            plen == p@.len(),
            forall|j: int| 0 <= j < i ==> s@[j] == p@[j],
        decreases plen - i,
    {
        if s.get_char(i) != p.get_char(i) {
            proof {
                assert(s@.subrange(0, p@.len() as int)[i as int] == s@[i as int]);
            }
            return false;
        }
        i = i + 1;
    }
    proof {
        assert(s@.subrange(0, p@.len() as int) =~= p@);
    }
    true
}

/// Whether `p` is a suffix of `s`.
pub fn has_suffix(s: &str, p: &str) -> (r: bool)
    ensures
        r == is_suffix(s@, p@),
{
    let slen = s.unicode_len();
    let plen = p.unicode_len();
    if plen > slen {
        return false;
    }
    let offset = slen - plen;
    let mut i: usize = 0;
    while i < plen
        invariant
            0 <= i <= plen,
            plen <= slen,
            slen == s@.len(),
            plen == p@.len(),
            offset == slen - plen,
            forall|j: int| 0 <= j < i ==> s@[offset + j] == p@[j],
        decreases plen - i,
    {
        if s.get_char(offset + i) != p.get_char(i) {
            proof {
                assert(s@.subrange(s@.len() - p@.len(), s@.len() as int)[i as int]
                    == s@[offset + i]);
            }
            return false;
        }
        i = i + 1;
    }
    proof {
        assert(s@.subrange(s@.len() - p@.len(), s@.len() as int) =~= p@);
    }
    true
}

/// If `p` reads as `d`, then `/`, then a remainder, returns the remainder.
pub fn strip_dir(p: &str, d: &str) -> (r: Option<String>)
    ensures
        match r {
            Some(rest) => p@ == joined(d@, rest@),
            None => forall|rest: Seq<char>| p@ != joined(d@, rest),
        },
{
    let plen = p.unicode_len();
    let dlen = d.unicode_len();
    if plen <= dlen {
        proof {
            assert forall|rest: Seq<char>| p@ != joined(d@, rest) by {
                reveal(joined);
                assert(joined(d@, rest).len() > d@.len());
            }
        }
        return None;
    }
    if !has_prefix(p, d) {
        proof {
            assert forall|rest: Seq<char>| p@ != joined(d@, rest) by {
                reveal(joined);
                if p@ == joined(d@, rest) {
                    assert(p@.subrange(0, d@.len() as int) =~= d@);
                }
            }
        }
        return None;
    }
    if p.get_char(dlen) != '/' {
        proof {
            assert forall|rest: Seq<char>| p@ != joined(d@, rest) by {
                reveal(joined);
                if p@ == joined(d@, rest) {
                    assert(joined(d@, rest)[d@.len() as int] == '/');
                }
            }
        }
        return None;
    }
    let rest = p.substring_char(dlen + 1, plen);
    proof {
        reveal(joined);
        assert(p@ =~= joined(d@, rest@));
    }
    Some(rest.to_owned())
}

/// Whether the character `c` occurs in `s`.
pub fn contains_ch(s: &str, c: char) -> (r: bool)
    ensures
        r == s@.contains(c),
{
    let slen = s.unicode_len();
    let mut i: usize = 0;
    while i < slen
        invariant
            0 <= i <= slen,
            slen == s@.len(),
            forall|j: int| 0 <= j < i ==> s@[j] != c,
        decreases slen - i,
    {
        if s.get_char(i) == c {
            return true;
        }
        i = i + 1;
    }
    false
}

/// Whether `p` occurs in `t` as a contiguous substring.
pub fn contains_substring(t: &str, p: &str) -> (r: bool)
    ensures
        r == contains_seq(t@, p@),
{
    let tlen = t.unicode_len();
    let plen = p.unicode_len();
    if plen > tlen {
        proof {
            if contains_seq(t@, p@) {
                let k = choose|k: int| matches_at(t@, p@, k);
            }
        }
        return false;
    }
    if plen == 0 {
        proof {
            assert(t@.subrange(0, 0) =~= p@);
            assert(matches_at(t@, p@, 0));
        }
        return true;
    }
    let mut i: usize = 0;
    while i <= tlen - plen
        invariant
            0 <= i <= tlen - plen + 1,
            1 <= plen <= tlen,
            tlen == t@.len(),
            plen == p@.len(),
            forall|k: int| 0 <= k < i ==> !matches_at(t@, p@, k),
        decreases tlen - i,
    {
        let mut j: usize = 0;
        let mut all_match = true;
        while j < plen
            invariant
                0 <= j <= plen,
                0 <= i <= tlen - plen,
                tlen == t@.len(),
                plen == p@.len(),
                all_match ==> forall|l: int| 0 <= l < j ==> t@[i + l] == p@[l],
                !all_match ==> !matches_at(t@, p@, i as int),
            decreases plen - j,
        {
            if t.get_char(i + j) != p.get_char(j) {
                proof {
                    if matches_at(t@, p@, i as int) {
                        assert(t@.subrange(i as int, i + p@.len())[j as int] == t@[i + j]);
                    }
                }
                all_match = false;
                j = plen;
            } else {
                j = j + 1;
            }
        }
        if all_match {
            proof {
                assert(t@.subrange(i as int, i + p@.len()) =~= p@);
                assert(matches_at(t@, p@, i as int));
            }
            return true;
        }
        i = i + 1;
    }
    proof {
        if contains_seq(t@, p@) {
            let k = choose|k: int| matches_at(t@, p@, k);
            assert(0 <= k < i);
        }
    }
    false
}

/// Concatenates two strings.
pub fn str_concat(a: &str, b: &str) -> (r: String)
    ensures
        r@ == a@ + b@,
{
    let mut s = a.to_owned();
    s.append(b);
    s
}

/// Below a common parent, a path splits in only one way into a `/`-free
/// first component and a remainder.
pub proof fn lemma_joined_nested_inj(
    d: Seq<char>,
    n1: Seq<char>,
    r1: Seq<char>,
    n2: Seq<char>,
    r2: Seq<char>,
)
    requires
        !n1.contains('/'),
        !n2.contains('/'),
        joined(joined(d, n1), r1) == joined(joined(d, n2), r2),
    ensures
        n1 == n2,
        r1 == r2,
{
    reveal(joined);
    let a1 = joined(d, n1);
    let a2 = joined(d, n2);
    let s = joined(a1, r1);
    assert(a1.len() == d.len() + 1 + n1.len());
    assert(a2.len() == d.len() + 1 + n2.len());
    assert(forall|k: int| 0 <= k < a1.len() ==> s[k] == a1[k]);
    assert(forall|k: int| 0 <= k < a2.len() ==> s[k] == a2[k]);
    assert(s[a1.len() as int] == '/');
    assert(s[a2.len() as int] == '/');
    assert(forall|k: int| d.len() + 1 <= k < a1.len() ==> a1[k] == n1[k - (d.len() + 1)]);
    assert(forall|k: int| d.len() + 1 <= k < a2.len() ==> a2[k] == n2[k - (d.len() + 1)]);
    if n1.len() < n2.len() {
        let q = a1.len() as int;
        assert(q < a2.len());
        assert(s[q] == a2[q]);
        assert(a2[q] == n2[q - (d.len() + 1)]);
        assert(0 <= q - (d.len() + 1) < n2.len() && n2[q - (d.len() + 1)] == '/');
        assert(n2.contains('/'));
    }
    if n2.len() < n1.len() {
        let q = a2.len() as int;
        assert(q < a1.len());
        assert(s[q] == a1[q]);
        assert(a1[q] == n1[q - (d.len() + 1)]);
        assert(0 <= q - (d.len() + 1) < n1.len() && n1[q - (d.len() + 1)] == '/');
        assert(n1.contains('/'));
    }
    assert(n1.len() == n2.len());
    assert forall|i: int| 0 <= i < n1.len() implies n1[i] == n2[i] by {
        assert(a1[d.len() + 1 + i] == n1[i]);
        assert(a2[d.len() + 1 + i] == n2[i]);
        assert(s[d.len() + 1 + i] == a1[d.len() + 1 + i]);
        assert(s[d.len() + 1 + i] == a2[d.len() + 1 + i]);
    }
    assert(n1 =~= n2);
    lemma_joined_cancel(joined(d, n1), r1, r2);
}

/// A character occurs in a concatenation exactly when it occurs in one
/// of the parts.
pub proof fn lemma_concat_contains_char(a: Seq<char>, b: Seq<char>, c: char)
    ensures
        (a + b).contains(c) == (a.contains(c) || b.contains(c)),
{
    if (a + b).contains(c) {
        let i = choose|i: int| 0 <= i < (a + b).len() && (a + b)[i] == c;
        if i < a.len() {
            assert(a[i] == c);
        } else {
            assert(b[i - a.len()] == c);
        }
    }
    if a.contains(c) {
        let i = choose|i: int| 0 <= i < a.len() && a[i] == c;
        assert((a + b)[i] == c);
    }
    if b.contains(c) {
        let i = choose|i: int| 0 <= i < b.len() && b[i] == c;
        assert((a + b)[a.len() + i] == c);
    }
}

/// `line` stands in `t` as one whole line starting at `i`: it matches
/// there, and is bounded by the text's ends or by newlines.
pub open spec fn line_at(t: Seq<char>, line: Seq<char>, i: int) -> bool {
    matches_at(t, line, i) && (i == 0 || t[i - 1] == '\n') && (i + line.len() == t.len() || t[i
        + line.len()] == '\n')
}

/// Some whole line of `t` reads exactly `line`.
pub open spec fn has_line(t: Seq<char>, line: Seq<char>) -> bool {
    exists|i: int| line_at(t, line, i)
}

/// Whether some whole line of `t` reads exactly `line`.
pub fn contains_line(t: &str, line: &str) -> (r: bool)
    requires
        line@.len() > 0,
    ensures
        r == has_line(t@, line@),
{
    let tlen = t.unicode_len();
    let llen = line.unicode_len();
    if llen > tlen {
        proof {
            if has_line(t@, line@) {
                let k = choose|k: int| line_at(t@, line@, k);
            }
        }
        return false;
    }
    let mut i: usize = 0;
    while i <= tlen - llen
        invariant
            0 <= i <= tlen - llen + 1,
            llen <= tlen,
            tlen == t@.len(),
            llen == line@.len(),
            1 <= llen,
            forall|k: int| 0 <= k < i ==> !line_at(t@, line@, k),
        decreases tlen - i,
    {
        let starts_line = i == 0 || t.get_char(i - 1) == '\n';
        let ends_line = i + llen == tlen || t.get_char(i + llen) == '\n';
        if starts_line && ends_line {
            let mut j: usize = 0;
            let mut all_match = true;
            while j < llen
                invariant
                    0 <= j <= llen,
                    0 <= i <= tlen - llen,
                    tlen == t@.len(),
                    llen == line@.len(),
                    all_match ==> forall|l: int| 0 <= l < j ==> t@[i + l] == line@[l],
                    !all_match ==> !matches_at(t@, line@, i as int),
                decreases llen - j,
            {
                if t.get_char(i + j) != line.get_char(j) {
                    proof {
                        if matches_at(t@, line@, i as int) {
                            assert(t@.subrange(i as int, i + line@.len())[j as int] == t@[i + j]);
                        }
                    }
                    all_match = false;
                    j = llen;
                } else {
                    j = j + 1;
                }
            }
            if all_match {
                proof {
                    assert(t@.subrange(i as int, i + line@.len()) =~= line@);
                    assert(line_at(t@, line@, i as int));
                }
                return true;
            }
        }
        i = i + 1;
    }
    proof {
        if has_line(t@, line@) {
            let k = choose|k: int| line_at(t@, line@, k);
            assert(0 <= k < i);
        }
    }
    false
}

/// Joining is associative: a path below `a/b` is the same path whether
/// the name `b` or the remainder `c` is attached first.
pub proof fn lemma_joined_assoc(a: Seq<char>, b: Seq<char>, c: Seq<char>)
    ensures
        joined(joined(a, b), c) == joined(a, joined(b, c)),
{
    reveal(joined);
    assert(joined(joined(a, b), c) =~= joined(a, joined(b, c)));
}

/// A path splits in only one way into a directory and a `/`-free entry
/// name.
pub proof fn lemma_joined_inj(d1: Seq<char>, n1: Seq<char>, d2: Seq<char>, n2: Seq<char>)
    requires
        !n1.contains('/'),
        !n2.contains('/'),
        joined(d1, n1) == joined(d2, n2),
    ensures
        d1 == d2,
        n1 == n2,
{
    reveal(joined);
    let s = joined(d1, n1);
    assert(s[d1.len() as int] == '/');
    assert(s[d2.len() as int] == '/');
    assert(forall|k: int| d1.len() < k < s.len() ==> s[k] == n1[k - (d1.len() + 1)]);
    assert(forall|k: int| d2.len() < k < s.len() ==> s[k] == n2[k - (d2.len() + 1)]);
    if d1.len() < d2.len() {
        let k = d2.len() - (d1.len() + 1);
        assert(d2.len() < s.len());
        assert(s[d2.len() as int] == n1[k]);
        assert(0 <= k < n1.len() && n1[k] == '/');
        assert(n1.contains('/'));
    }
    if d2.len() < d1.len() {
        let k = d1.len() - (d2.len() + 1);
        assert(d1.len() < s.len());
        assert(s[d1.len() as int] == n2[k]);
        assert(0 <= k < n2.len() && n2[k] == '/');
        assert(n2.contains('/'));
    }
    assert(d1.len() == d2.len());
    assert(d1 =~= s.subrange(0, d1.len() as int));
    assert(d2 =~= s.subrange(0, d2.len() as int));
    lemma_joined_cancel(d1, n1, n2);
}

/// The decimal digit character for one digit value.
pub open spec fn dec_digit(d: nat) -> char {
    if d == 0 {
        '0'
    } else if d == 1 {
        '1'
    } else if d == 2 {
        '2'
    } else if d == 3 {
        '3'
    } else if d == 4 {
        '4'
    } else if d == 5 {
        '5'
    } else if d == 6 {
        '6'
    } else if d == 7 {
        '7'
    } else if d == 8 {
        '8'
    } else {
        '9'
    }
}

/// The decimal rendering of a number, most significant digit first.
pub open spec fn dec_rep(n: nat) -> Seq<char>
    decreases n,
{
    if n < 10 {
        seq![dec_digit(n)]
    } else {
        dec_rep(n / 10).push(dec_digit(n % 10))
    }
}

/// Returns one decimal digit as a string.
fn digit_string(d: u64) -> (r: String)
    requires
        d < 10,
    ensures
        r@ == seq![dec_digit(d as nat)],
{
    let r = match d {
        0 => "0".to_owned(),
        1 => "1".to_owned(),
        2 => "2".to_owned(),
        3 => "3".to_owned(),
        4 => "4".to_owned(),
        5 => "5".to_owned(),
        6 => "6".to_owned(),
        7 => "7".to_owned(),
        8 => "8".to_owned(),
        _ => "9".to_owned(),
    };
    proof {
        reveal_strlit("0");
        reveal_strlit("1");
        reveal_strlit("2");
        reveal_strlit("3");
        reveal_strlit("4");
        reveal_strlit("5");
        reveal_strlit("6");
        reveal_strlit("7");
        reveal_strlit("8");
        reveal_strlit("9");
        assert(r@ =~= seq![dec_digit(d as nat)]);
    }
    r
}

/// Renders a number in decimal.
pub fn u64_to_string(n: u64) -> (r: String)
    ensures
        r@ == dec_rep(n as nat),
    decreases n,
{
    if n < 10 {
        digit_string(n)
    } else {
        let mut s = u64_to_string(n / 10);
        let last = digit_string(n % 10);
        s.append(last.as_str());
        proof {
            assert(s@ =~= dec_rep((n / 10) as nat).push(dec_digit((n % 10) as nat)));
        }
        s
    }
}

/// The names of a list joined with a comma and a space.
pub open spec fn joined_names(names: Seq<Seq<char>>) -> Seq<char>
    decreases names.len(),
{
    if names.len() == 0 {
        Seq::empty()
    } else if names.len() == 1 {
        names[0]
    } else {
        joined_names(names.drop_last()) + ", "@ + names.last()
    }
}

/// Joins a list of names with a comma and a space.
pub fn join_names(names: &Vec<String>) -> (r: String)
    ensures
        r@ == joined_names(names.deep_view()),
{
    let mut s = String::new();
    let mut i: usize = 0;
    proof {
        assert(names.deep_view().take(0) =~= Seq::<Seq<char>>::empty());
    }
    while i < names.len()
        invariant
            0 <= i <= names.deep_view().len(),
            s@ == joined_names(names.deep_view().take(i as int)),
        decreases names.deep_view().len() - i,
    {
        let ghost dv = names.deep_view();
        let ghost gi = i as int;
        if i > 0 {
            s.append(", ");
        }
        s.append(names[i].as_str());
        proof {
            assert(names[gi]@ == dv[gi]);
            assert(dv.take(gi + 1).drop_last() =~= dv.take(gi));
            assert(dv.take(gi + 1).last() == dv[gi]);
            if gi == 0 {
                assert(s@ =~= dv[0]);
                assert(joined_names(dv.take(1)) == dv.take(1)[0]);
                assert(dv.take(1)[0] == dv[0]);
            } else {
                assert(s@ =~= joined_names(dv.take(gi)) + ", "@ + dv[gi]);
            }
        }
        i = i + 1;
    }
    proof {
        assert(names.deep_view().take(names.deep_view().len() as int) =~= names.deep_view());
    }
    s
}

} // verus!
