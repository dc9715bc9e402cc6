//! Character and string helpers shared by the parser, the trie and the
//! renderer: whitespace trimming, character-vector conversions and
//! decimal formatting, each specified over `Seq<char>`.
use vstd::prelude::*;

verus! {

/// The whitespace characters recognised when trimming combo lines.
pub open spec fn is_space(c: char) -> bool {
    c == ' ' || c == '\t' || c == '\n' || c == '\r' || c == '\u{b}' || c == '\u{c}'
}

/// `s` with its leading whitespace removed.
pub open spec fn trim_start(s: Seq<char>) -> Seq<char>
    decreases s.len(),
{
    if s.len() > 0 && is_space(s[0]) {
        trim_start(s.drop_first())
    } else {
        s
    }
}

/// `s` with its trailing whitespace removed.
pub open spec fn trim_end(s: Seq<char>) -> Seq<char>
    decreases s.len(),
{
    if s.len() > 0 && is_space(s.last()) {
        trim_end(s.drop_last())
    } else {
        s
    }
}

/// `s` with leading and trailing whitespace removed.
pub open spec fn trim(s: Seq<char>) -> Seq<char> {
    trim_end(trim_start(s))
}

/// Dropping any number of leading spaces does not change `trim_start`.
pub proof fn lemma_trim_start_skip(s: Seq<char>, k: int)
    requires
        0 <= k <= s.len(),
        forall|j: int| 0 <= j < k ==> is_space(#[trigger] s[j]),
    ensures
        trim_start(s) == trim_start(s.skip(k)),
    decreases k,
{
    if k > 0 {
        assert(is_space(s[0]));
        assert(s.drop_first() =~= s.skip(1));
        lemma_trim_start_skip(s.skip(1), k - 1);
        assert(s.skip(1).skip(k - 1) =~= s.skip(k));
    } else {
        assert(s.skip(0) =~= s);
    }
}

/// Dropping any number of trailing spaces does not change `trim_end`.
pub proof fn lemma_trim_end_take(s: Seq<char>, k: int)
    requires
        0 <= k <= s.len(),
        forall|j: int| k <= j < s.len() ==> is_space(#[trigger] s[j]),
    ensures
        trim_end(s) == trim_end(s.take(k)),
    decreases s.len() - k,
{
    if k < s.len() {
        assert(is_space(s.last()));
        assert(s.drop_last() =~= s.take(s.len() - 1));
        lemma_trim_end_take(s.take(s.len() - 1), k);
        assert(s.take(s.len() - 1).take(k) =~= s.take(k));
    } else {
        assert(s.take(s.len() as int) =~= s);
    }
}

/// A sequence that does not end in a space is already `trim_end`ed.
pub proof fn lemma_trim_end_noop(s: Seq<char>)
    requires
        s.len() == 0 || !is_space(s.last()),
    ensures
        trim_end(s) == s,
{
}

/// A sequence that does not start with a space is already `trim_start`ed.
pub proof fn lemma_trim_start_noop(s: Seq<char>)
    requires
        s.len() == 0 || !is_space(s[0]),
    ensures
        trim_start(s) == s,
{
}

/// What `trim` leaves of `s` when the first and last non-space characters
/// of `s` sit at indices `a` and `b - 1`.
pub proof fn lemma_trim_subrange(s: Seq<char>, a: int, b: int)
    requires
        0 <= a <= b <= s.len(),
        forall|j: int| 0 <= j < a ==> is_space(#[trigger] s[j]),
        forall|j: int| b <= j < s.len() ==> is_space(#[trigger] s[j]),
        a < b ==> !is_space(s[a]) && !is_space(s[b - 1]),
    ensures
        trim(s) == s.subrange(a, b),
    decreases 0int,
{
    if a == b {
        // Everything is whitespace.
        lemma_trim_start_skip(s, s.len() as int);
        assert(s.skip(s.len() as int) =~= Seq::<char>::empty());
        assert(trim_start(s) =~= Seq::<char>::empty());
        assert(trim_end(Seq::<char>::empty()) =~= Seq::<char>::empty());
        assert(s.subrange(a, b) =~= Seq::<char>::empty());
    } else {
        lemma_trim_start_skip(s, a);
        lemma_trim_start_noop(s.skip(a));
        assert(trim_start(s) == s.skip(a));
        let u = s.skip(a);
        assert(forall|j: int| b - a <= j < u.len() ==> is_space(#[trigger] u[j]));
        lemma_trim_end_take(u, b - a);
        assert(u.take(b - a) =~= s.subrange(a, b));
        assert(!is_space(s.subrange(a, b).last()));
        lemma_trim_end_noop(s.subrange(a, b));
    }
}

/// `trim_start` drops a run of leading spaces and nothing else.
pub proof fn lemma_trim_start_is_skip(s: Seq<char>)
    ensures
        exists|k: int|
            0 <= k <= s.len() && trim_start(s) == s.skip(k) && (forall|j: int|
                0 <= j < k ==> is_space(#[trigger] s[j])),
    decreases s.len(),
{
    if s.len() > 0 && is_space(s[0]) {
        lemma_trim_start_is_skip(s.drop_first());
        let k = choose|k: int|
            0 <= k <= s.drop_first().len() && trim_start(s.drop_first()) == s.drop_first().skip(k)
                && (forall|j: int| 0 <= j < k ==> is_space(#[trigger] s.drop_first()[j]));
        assert(s.drop_first() =~= s.skip(1));
        assert(s.skip(1).skip(k) =~= s.skip(k + 1));
        assert forall|j: int| 0 <= j < k + 1 implies is_space(#[trigger] s[j]) by {
            if j > 0 {
                assert(s[j] == s.drop_first()[j - 1]);
            }
        }
        assert(trim_start(s) == s.skip(k + 1));
    } else {
        assert(s.skip(0) =~= s);
        assert(trim_start(s) == s.skip(0));
    }
}

/// A non-empty `trim_start` result starts with a non-space.
pub proof fn lemma_trim_start_first(s: Seq<char>)
    ensures
        trim_start(s).len() > 0 ==> !is_space(trim_start(s)[0]),
    decreases s.len(),
{
    if s.len() > 0 && is_space(s[0]) {
        lemma_trim_start_first(s.drop_first());
    }
}

/// `trim_end` keeps a prefix of `s`, and what it keeps ends with a
/// non-space.
pub proof fn lemma_trim_end_prefix(s: Seq<char>)
    ensures
        trim_end(s).len() <= s.len(),
        forall|j: int| 0 <= j < trim_end(s).len() ==> #[trigger] trim_end(s)[j] == s[j],
        trim_end(s).len() > 0 ==> !is_space(trim_end(s).last()),
    decreases s.len(),
{
    if s.len() > 0 && is_space(s.last()) {
        lemma_trim_end_prefix(s.drop_last());
        assert(forall|j: int| 0 <= j < s.len() - 1 ==> #[trigger] s.drop_last()[j] == s[j]);
    }
}

/// The index of the first occurrence of `c` in `s`.
pub open spec fn find_char(s: Seq<char>, c: char) -> Option<int>
    decreases s.len(),
{
    if s.len() == 0 {
        None
    } else if s[0] == c {
        Some(0int)
    } else {
        match find_char(s.drop_first(), c) {
            Some(i) => Some(i + 1),
            None => None,
        }
    }
}

pub proof fn lemma_find_char(s: Seq<char>, c: char)
    ensures
        match find_char(s, c) {
            Some(i) => 0 <= i < s.len() && s[i] == c && forall|j: int| 0 <= j < i ==> s[j] != c,
            None => forall|j: int| 0 <= j < s.len() ==> s[j] != c,
        },
    decreases s.len(),
{
    if s.len() > 0 && s[0] != c {
        lemma_find_char(s.drop_first(), c);
        assert(forall|j: int| 1 <= j < s.len() ==> s[j] == s.drop_first()[j - 1]);
    }
}

/// A line with a trailing carriage return stripped.
pub open spec fn strip_cr(s: Seq<char>) -> Seq<char> {
    if s.len() > 0 && s.last() == '\r' {
        s.drop_last()
    } else {
        s
    }
}

/// The lines of `s`, split on newlines, each without a trailing carriage
/// return; a trailing newline produces no final empty line.
pub open spec fn spec_lines(s: Seq<char>) -> Seq<Seq<char>>
    decreases s.len(),
{
    if s.len() == 0 {
        Seq::empty()
    } else {
        match find_char(s, '\n') {
            None => seq![s],
            Some(i) => if 0 <= i < s.len() {
                seq![strip_cr(s.take(i))] + spec_lines(s.skip(i + 1))
            } else {
                Seq::empty()
            },
        }
    }
}

/// Splits `s` into its lines, as `str::lines` does: split at `\n`, with a
/// `\r` immediately before the `\n` removed, and no final empty line for
/// a trailing newline.
pub fn split_lines(s: &str) -> (r: Vec<String>)
    ensures
        r@.len() == spec_lines(s@).len(),
        forall|k: int| 0 <= k < r@.len() ==> (#[trigger] r@[k])@ == spec_lines(s@)[k],
{
    let n = s.unicode_len();
    let chars = str_chars(s);
    let mut r: Vec<String> = Vec::new();
    let mut p: usize = 0;
    proof {
        assert(s@.skip(0) =~= s@);
    }
    while p < n
        invariant
            p <= n,
            n == s@.len(),
            chars@ == s@,
            spec_lines(s@) =~= Seq::new(r@.len() as nat, |k: int| r@[k]@) + spec_lines(
                s@.skip(p as int),
            ),
            forall|k: int| 0 <= k < r@.len() ==> (#[trigger] r@[k])@ == spec_lines(s@)[k],
        decreases n - p,
    {
        let ghost su = s@.skip(p as int);
        let mut q: usize = p;
        let mut found: bool = false;
        while q < n && !found
            invariant
                p <= q <= n,
                n == s@.len(),
                chars@ == s@,
                found ==> q < n && s@[q as int] == '\n',
                forall|j: int| p <= j < q ==> s@[j] != '\n',
            decreases n - q + (if found { 0int } else { 1int }),
        {
            if chars[q] == '\n' {
                found = true;
            } else {
                q = q + 1;
            }
        }
        proof {
            lemma_find_char(su, '\n');
            assert(forall|j: int| 0 <= j < su.len() ==> su[j] == s@[p + j]);
        }
        let ghost r0 = r@;
        if found {
            proof {
                match find_char(su, '\n') {
                    Some(i) => {
                        if i < q - p {
                            assert(s@[p + i] == '\n');
                            assert(false);
                        } else if i > q - p {
                            assert(su[q - p] != '\n');
                            assert(false);
                        }
                    },
                    None => {
                        assert(su[q - p] != '\n');
                        assert(false);
                    },
                }
                assert(find_char(su, '\n') == Some(q - p));
            }
            let e: usize = if q > p && chars[q - 1] == '\r' {
                q - 1
            } else {
                q
            };
            proof {
                assert(su.take(q - p) =~= s@.subrange(p as int, q as int));
                if q > p && s@[q as int - 1] == '\r' {
                    assert(strip_cr(su.take(q - p)) =~= s@.subrange(p as int, e as int));
                } else {
                    assert(strip_cr(su.take(q - p)) =~= s@.subrange(p as int, e as int));
                }
                assert(su.skip(q - p + 1) =~= s@.skip(q as int + 1));
                assert(spec_lines(su) == seq![strip_cr(su.take(q - p))] + spec_lines(
                    s@.skip(q as int + 1),
                ));
            }
            r.push(s.substring_char(p, e).to_owned());
            proof {
                let ls = Seq::new(r@.len() as nat, |k: int| r@[k]@);
                let ls0 = Seq::new(r0.len() as nat, |k: int| r0[k]@);
                assert(ls =~= ls0.push(s@.subrange(p as int, e as int)));
                assert(ls0 + (seq![strip_cr(su.take(q - p))] + spec_lines(s@.skip(q as int + 1)))
                    =~= ls + spec_lines(s@.skip(q as int + 1)));
            }
            p = q + 1;
        } else {
            proof {
                match find_char(su, '\n') {
                    Some(i) => {
                        assert(s@[p + i] == '\n');
                        assert(false);
                    },
                    None => {},
                }
                assert(spec_lines(su) == seq![su]);
            }
            r.push(s.substring_char(p, n).to_owned());
            proof {
                assert(su =~= s@.subrange(p as int, n as int));
                let ls = Seq::new(r@.len() as nat, |k: int| r@[k]@);
                let ls0 = Seq::new(r0.len() as nat, |k: int| r0[k]@);
                assert(ls =~= ls0.push(su));
                assert(s@.skip(n as int) =~= Seq::<char>::empty());
                assert(ls0 + (seq![su] + spec_lines(s@.skip(n as int))) =~= ls + spec_lines(
                    s@.skip(n as int),
                ));
                assert(ls0 + spec_lines(su) =~= ls + spec_lines(s@.skip(n as int)));
            }
            p = n;
        }
        proof {
            assert(forall|k: int| 0 <= k < r0.len() ==> #[trigger] r@[k] == r0[k]);
        }
    }
    proof {
        assert(s@.skip(n as int) =~= Seq::<char>::empty());
        assert(spec_lines(s@) =~= Seq::new(r@.len() as nat, |k: int| r@[k]@));
        assert(forall|k: int|
            0 <= k < r@.len() ==> (#[trigger] r@[k])@ == Seq::new(r@.len() as nat, |k: int| r@[k]@)[k]);
    }
    r
}

pub fn is_space_exec(c: char) -> (r: bool)
    ensures
        r == is_space(c),
{
    c == ' ' || c == '\t' || c == '\n' || c == '\r' || c == '\u{b}' || c == '\u{c}'
}

/// The characters of `s`, one vector element per `char`.
pub fn str_chars(s: &str) -> (r: Vec<char>)
    ensures
        r@ == s@,
{
    let n = s.unicode_len();
    let mut r: Vec<char> = Vec::new();
    let mut i: usize = 0;
    while i < n
        invariant
            i <= n,
            n == s@.len(),
            r@ =~= s@.take(i as int),
        decreases n - i,
    {
        r.push(s.get_char(i));
        i = i + 1;
        proof {
            assert(r@ =~= s@.take(i as int));
        }
    }
    proof {
        assert(s@.take(n as int) =~= s@);
    }
    r
}

/// Relies on `String::push`: appends one character to the string.
#[verifier::external_body]
pub fn push_char(s: &mut String, c: char)
    ensures
        final(s)@ == old(s)@.push(c),
{
    s.push(c)
}

/// A `String` holding exactly the characters of `v`.
pub fn string_of_chars(v: &Vec<char>) -> (r: String)
    ensures
        r@ == v@,
{
    let mut r = String::new();
    let mut i: usize = 0;
    while i < v.len()
        invariant
            i <= v@.len(),
            r@ =~= v@.take(i as int),
        decreases v@.len() - i,
    {
        push_char(&mut r, v[i]);
        i = i + 1;
        proof {
            assert(r@ =~= v@.take(i as int));
        }
    }
    proof {
        assert(v@.take(v@.len() as int) =~= v@);
    }
    r
}

/// The decimal digits of `n`, most significant first.
pub open spec fn spec_digits(n: nat) -> Seq<char>
    decreases n,
{
    if n < 10 {
        seq![((48 + n) as u8) as char]
    } else {
        spec_digits(n / 10).push(((48 + n % 10) as u8) as char)
    }
}

/// `n` written in decimal.
pub fn usize_to_string(n: usize) -> (r: String)
    ensures
        r@ == spec_digits(n as nat),
{
    let mut digits: Vec<char> = Vec::new();
    let mut rest: usize = n;
    // Least significant digit first; reversed below.
    while rest >= 10
        invariant
            spec_digits(n as nat) =~= spec_digits(rest as nat) + digits@.reverse(),
        decreases rest,
    {
        let d: u8 = (rest % 10) as u8;
        let ghost digits0 = digits@;
        digits.push((48 + d) as char);
        rest = rest / 10;
        proof {
            assert(digits@.reverse() =~= seq![((48 + (rest as nat * 10 + d as nat) % 10) as u8) as char]
                + digits0.reverse());
            assert(spec_digits(rest as nat).push(((48 + d as nat) as u8) as char)
                + digits0.reverse() =~= spec_digits(rest as nat) + digits@.reverse());
        }
    }
    let mut out: Vec<char> = Vec::new();
    out.push((48 + (rest as u8)) as char);
    let mut i: usize = digits.len();
    while i > 0
        invariant
            i <= digits@.len(),
            out@ =~= seq![((48 + rest as nat) as u8) as char] + digits@.reverse().take(
                digits@.len() - i,
            ),
        decreases i,
    {
        i = i - 1;
        out.push(digits[i]);
        proof {
            assert(digits@.reverse()[digits@.len() - i - 1] == digits@[i as int]);
            assert(out@ =~= seq![((48 + rest as nat) as u8) as char] + digits@.reverse().take(
                digits@.len() - i,
            ));
        }
    }
    proof {
        assert(digits@.reverse().take(digits@.len() as int) =~= digits@.reverse());
        assert(spec_digits(rest as nat) =~= seq![((48 + rest as nat) as u8) as char]);
        assert(out@ =~= spec_digits(n as nat));
    }
    string_of_chars(&out)
}

/// Lexicographic order on character sequences, by code point.
pub open spec fn lex_le(a: Seq<char>, b: Seq<char>) -> bool
    decreases a.len(),
{
    if a.len() == 0 {
        true
    } else if b.len() == 0 {
        false
    } else if (a[0] as u32) < (b[0] as u32) {
        true
    } else if (a[0] as u32) > (b[0] as u32) {
        false
    } else {
        lex_le(a.drop_first(), b.drop_first())
    }
}

/// Whether `a` comes at or before `b` in lexicographic order.
pub fn lex_le_exec(a: &str, b: &str) -> (r: bool)
    ensures
        r == lex_le(a@, b@),
{
    let na = a.unicode_len();
    let nb = b.unicode_len();
    let mut i: usize = 0;
    proof {
        assert(a@.skip(0) =~= a@);
        assert(b@.skip(0) =~= b@);
    }
    loop
        invariant
            i <= na,
            i <= nb,
            na == a@.len(),
            nb == b@.len(),
            lex_le(a@, b@) == lex_le(a@.skip(i as int), b@.skip(i as int)),
            forall|j: int| 0 <= j < i ==> a@[j] == b@[j],
        decreases na - i,
    {
        proof {
            if i < na {
                assert(a@.skip(i as int)[0] == a@[i as int]);
            }
            if i < nb {
                assert(b@.skip(i as int)[0] == b@[i as int]);
            }
        }
        if i >= na {
            proof {
                assert(a@.skip(i as int).len() == 0);
            }
            return true;
        }
        if i >= nb {
            return false;
        }
        let ca = a.get_char(i);
        let cb = b.get_char(i);
        if (ca as u32) < (cb as u32) {
            return true;
        }
        if (ca as u32) > (cb as u32) {
            return false;
        }
        proof {
            assert(a@.skip(i as int).drop_first() =~= a@.skip(i as int + 1));
            assert(b@.skip(i as int).drop_first() =~= b@.skip(i as int + 1));
        }
        i = i + 1;
    }
}

/// Whether `needle` occurs in `hay` as a contiguous run.
pub open spec fn contains_seq(hay: Seq<char>, needle: Seq<char>) -> bool {
    exists|i: int|
        0 <= i && i + needle.len() <= hay.len() && #[trigger] hay.subrange(i, i + needle.len())
            == needle
}

/// Whether `needle` occurs in `hay`, by direct search.
pub fn contains_exec(hay: &str, needle: &str) -> (r: bool)
    ensures
        r == contains_seq(hay@, needle@),
{
    let nh = hay.unicode_len();
    let nn = needle.unicode_len();
    if nn == 0 {
        proof {
            assert(hay@.subrange(0, 0 + needle@.len() as int) =~= needle@);
            assert(contains_seq(hay@, needle@));
        }
        return true;
    }
    if nn > nh {
        proof {
            assert(!contains_seq(hay@, needle@)) by {
                if contains_seq(hay@, needle@) {
                    let i = choose|i: int|
                        0 <= i && i + needle@.len() <= hay@.len() && #[trigger] hay@.subrange(
                            i,
                            i + needle@.len(),
                        ) == needle@;
                    assert(false);
                }
            }
        }
        return false;
    }
    let mut i: usize = 0;
    while i <= nh - nn
        invariant
            nh == hay@.len(),
            nn == needle@.len(),
            i <= nh - nn + 1,
            0 < nn <= nh,
            forall|k: int|
                0 <= k < i ==> #[trigger] hay@.subrange(k, k + needle@.len()) != needle@,
        decreases nh - nn - i + 1,
    {
        let mut j: usize = 0;
        let mut matches: bool = true;
        while j < nn && matches
            invariant
                j <= nn,
                i + nn <= nh,
                nh == hay@.len(),
                nn == needle@.len(),
                matches ==> forall|k: int|
                    0 <= k < j ==> hay@[i + k] == needle@[k],
                !matches ==> hay@.subrange(i as int, i + needle@.len()) != needle@,
            decreases nn - j + (if matches { 1int } else { 0int }),
        {
            if hay.get_char(i + j) != needle.get_char(j) {
                proof {
                    assert(hay@.subrange(i as int, i + needle@.len())[j as int] == hay@[i + j]);
                }
                matches = false;
            } else {
                j = j + 1;
            }
        }
        if matches {
            proof {
                assert(hay@.subrange(i as int, i + needle@.len()) =~= needle@);
            }
            return true;
        }
        i = i + 1;
    }
    proof {
        assert(!contains_seq(hay@, needle@)) by {
            if contains_seq(hay@, needle@) {
                let k = choose|k: int|
                    0 <= k && k + needle@.len() <= hay@.len() && #[trigger] hay@.subrange(
                        k,
                        k + needle@.len(),
                    ) == needle@;
                assert(k < i);
                assert(false);
            }
        }
    }
    false
}

/// The views of a list of strings.
pub open spec fn str_views(ss: Seq<String>) -> Seq<Seq<char>> {
    ss.map_values(|s: String| s@)
}

/// `x` inserted before the first element of the sorted list `ss` that it
/// precedes.
pub open spec fn insert_lex(x: Seq<char>, ss: Seq<Seq<char>>) -> Seq<Seq<char>>
    decreases ss.len(),
{
    if ss.len() == 0 {
        seq![x]
    } else if lex_le(x, ss[0]) {
        seq![x] + ss
    } else {
        seq![ss[0]] + insert_lex(x, ss.drop_first())
    }
}

/// The list sorted lexicographically, by repeated insertion.
pub open spec fn sort_lex(ss: Seq<Seq<char>>) -> Seq<Seq<char>>
    decreases ss.len(),
{
    if ss.len() == 0 {
        Seq::empty()
    } else {
        insert_lex(ss.last(), sort_lex(ss.drop_last()))
    }
}

/// Where the insertion goes when the first `idx` elements all precede
/// `x`.
proof fn lemma_insert_lex_at(ss: Seq<Seq<char>>, x: Seq<char>, idx: int)
    requires
        0 <= idx <= ss.len(),
        forall|j: int| 0 <= j < idx ==> !lex_le(x, #[trigger] ss[j]),
        idx < ss.len() ==> lex_le(x, ss[idx]),
    ensures
        insert_lex(x, ss) == ss.take(idx) + seq![x] + ss.skip(idx),
    decreases idx,
{
    if idx == 0 {
        if ss.len() == 0 {
            assert(insert_lex(x, ss) =~= ss.take(0) + seq![x] + ss.skip(0));
        } else {
            assert(lex_le(x, ss[0]));
            assert(ss.take(0) + seq![x] + ss.skip(0) =~= seq![x] + ss);
        }
    } else {
        assert(!lex_le(x, ss[0]));
        let rest = ss.drop_first();
        assert(forall|j: int| 0 <= j < idx - 1 ==> #[trigger] rest[j] == ss[j + 1]);
        lemma_insert_lex_at(rest, x, idx - 1);
        assert(seq![ss[0]] + (rest.take(idx - 1) + seq![x] + rest.skip(idx - 1)) =~= ss.take(idx)
            + seq![x] + ss.skip(idx));
    }
}

/// Inserts a string into a list kept in lexicographic order.
pub fn insert_sorted(v: &mut Vec<String>, x: String)
    ensures
        str_views(final(v)@) == insert_lex(x@, str_views(old(v)@)),
{
    let ghost ss = str_views(old(v)@);
    let mut idx: usize = 0;
    while idx < v.len() && !lex_le_exec(x.as_str(), v[idx].as_str())
        invariant
            idx <= v@.len(),
            v@ == old(v)@,
            forall|j: int| 0 <= j < idx ==> !lex_le(x@, #[trigger] str_views(v@)[j]),
        decreases v@.len() - idx,
    {
        proof {
            assert(str_views(v@)[idx as int] == v@[idx as int]@);
        }
        idx = idx + 1;
    }
    proof {
        if idx < v@.len() {
            assert(str_views(v@)[idx as int] == v@[idx as int]@);
        }
        lemma_insert_lex_at(ss, x@, idx as int);
    }
    v.insert(idx, x);
    proof {
        let sv = str_views(v@);
        assert(sv.len() == ss.len() + 1);
        assert forall|j: int| 0 <= j < sv.len() implies #[trigger] sv[j] == (ss.take(idx as int)
            + seq![x@] + ss.skip(idx as int))[j] by {
            assert(sv[j] == v@[j]@);
            if j < idx {
                assert(v@[j] == old(v)@[j]);
                assert(ss[j] == old(v)@[j]@);
            } else if j > idx {
                assert(v@[j] == old(v)@[j - 1]);
                assert(ss[j - 1] == old(v)@[j - 1]@);
            }
        }
        assert(sv =~= ss.take(idx as int) + seq![x@] + ss.skip(idx as int));
    }
}

/// Sorts a list of strings lexicographically.
pub fn sort_strings(v: &Vec<String>) -> (r: Vec<String>)
    ensures
        str_views(r@) == sort_lex(str_views(v@)),
{
    let mut out: Vec<String> = Vec::new();
    proof {
        assert(str_views(out@) =~= Seq::<Seq<char>>::empty());
        assert(str_views(v@).take(0) =~= Seq::<Seq<char>>::empty());
        assert(sort_lex(str_views(v@).take(0)) =~= Seq::<Seq<char>>::empty());
    }
    let mut i: usize = 0;
    while i < v.len()
        invariant
            i <= v@.len(),
            str_views(out@) == sort_lex(str_views(v@).take(i as int)),
        decreases v@.len() - i,
    {
        let s = v[i].clone();
        proof {
            assert(s@ == v@[i as int]@);
        }
        insert_sorted(&mut out, s);
        i = i + 1;
        proof {
            let pv = str_views(v@).take(i as int);
            assert(pv.drop_last() =~= str_views(v@).take(i as int - 1));
            assert(pv.last() == str_views(v@)[i as int - 1]);
            assert(str_views(v@)[i as int - 1] == v@[i as int - 1]@);
            assert(str_views(out@) == sort_lex(pv));
        }
    }
    proof {
        assert(str_views(v@).take(v@.len() as int) =~= str_views(v@));
    }
    out
}

/// The elements joined with `|` between them.
pub open spec fn join_pipe(ss: Seq<Seq<char>>) -> Seq<char>
    decreases ss.len(),
{
    if ss.len() == 0 {
        Seq::empty()
    } else if ss.len() == 1 {
        ss[0]
    } else {
        join_pipe(ss.drop_last()) + seq!['|'] + ss.last()
    }
}

/// Joins the strings with `|` between them.
pub fn join_pipe_exec(v: &Vec<String>) -> (r: String)
    ensures
        r@ == join_pipe(str_views(v@)),
{
    let mut out = String::new();
    let mut i: usize = 0;
    while i < v.len()
        invariant
            i <= v@.len(),
            out@ == join_pipe(str_views(v@).take(i as int)),
        decreases v@.len() - i,
    {
        if i > 0 {
            out.append("|");
            proof {
                reveal_strlit("|");
                assert("|"@ =~= seq!['|']);
            }
        }
        out.append(v[i].as_str());
        i = i + 1;
        proof {
            let pv = str_views(v@).take(i as int);
            assert(pv.drop_last() =~= str_views(v@).take(i as int - 1));
            assert(pv.last() == str_views(v@)[i as int - 1]);
            assert(str_views(v@)[i as int - 1] == v@[i as int - 1]@);
            if i == 1 {
                assert(out@ =~= join_pipe(pv));
            } else {
                assert(out@ =~= join_pipe(pv));
            }
        }
    }
    proof {
        assert(str_views(v@).take(v@.len() as int) =~= str_views(v@));
    }
    out
}

/// Whether `s` starts with `p`.
pub open spec fn starts_with(s: Seq<char>, p: Seq<char>) -> bool {
    s.len() >= p.len() && s.take(p.len() as int) == p
}

/// Whether two string slices hold the same characters.
pub fn str_eq(a: &str, b: &str) -> (r: bool)
    ensures
        r == (a@ == b@),
{
    let na = a.unicode_len();
    let nb = b.unicode_len();
    if na != nb {
        proof {
            assert(a@ != b@);
        }
        return false;
    }
    let mut i: usize = 0;
    while i < na
        invariant
            i <= na,
            na == a@.len(),
            na == b@.len(),
            forall|j: int| 0 <= j < i ==> a@[j] == b@[j],
        decreases na - i,
    {
        if a.get_char(i) != b.get_char(i) {
            return false;
        }
        i = i + 1;
    }
    proof {
        assert(a@ =~= b@);
    }
    true
}

} // verus!
