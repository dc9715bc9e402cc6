//! The combo grammar: one `<chord> = <command>` definition per line,
//! where a chord spec mixes bracket groups such as `<C-x>` or `<Alt-x>`
//! with bare characters.
//!
//! Parsing and chord-sequence extraction are two passes over the same
//! grammar; both are defined here against one spec, `chord_syms`, so they
//! accept exactly the same language.
use vstd::prelude::*;

use crate::nodes::CharWithModifiers;
use crate::strutil::str_eq;
use crate::yml::Keybind;
use crate::strutil::{find_char, is_space, is_space_exec, lemma_find_char, str_chars, trim, trim_end, trim_start};

verus! {

/// The modifier key a bracket group's inner content denotes: one of the
/// prefixes `Ctrl-`, `C-`, `ctrl-`, `Alt-`, `A-`, `alt-` followed by
/// exactly one character.
pub open spec fn spec_modifier_of_group(inner: Seq<char>) -> Option<CharWithModifiers> {
    if inner.len() == 3 && inner[0] == 'C' && inner[1] == '-' {
        Some(CharWithModifiers::Ctrl(inner[2]))
    } else if inner.len() == 3 && inner[0] == 'A' && inner[1] == '-' {
        Some(CharWithModifiers::Alt(inner[2]))
    } else if inner.len() == 6 && inner[0] == 'C' && inner[1] == 't' && inner[2] == 'r' && inner[3]
        == 'l' && inner[4] == '-' {
        Some(CharWithModifiers::Ctrl(inner[5]))
    } else if inner.len() == 6 && inner[0] == 'c' && inner[1] == 't' && inner[2] == 'r' && inner[3]
        == 'l' && inner[4] == '-' {
        Some(CharWithModifiers::Ctrl(inner[5]))
    } else if inner.len() == 5 && inner[0] == 'A' && inner[1] == 'l' && inner[2] == 't' && inner[3]
        == '-' {
        Some(CharWithModifiers::Alt(inner[4]))
    } else if inner.len() == 5 && inner[0] == 'a' && inner[1] == 'l' && inner[2] == 't' && inner[3]
        == '-' {
        Some(CharWithModifiers::Alt(inner[4]))
    } else {
        None
    }
}

/// Prepends a symbol to a scan result that may already have failed.
pub open spec fn cons_sym(x: CharWithModifiers, rest: Option<Seq<CharWithModifiers>>) -> Option<
    Seq<CharWithModifiers>,
> {
    match rest {
        Some(r) => Some(seq![x] + r),
        None => None,
    }
}

/// The sequence of modifier-aware characters a chord spec denotes, walked
/// left to right: a bracket group runs from a `<` to the nearest following
/// `>` and must match the modifier grammar; a `<` with no `>` after it,
/// and every character outside bracket groups, is a bare character.
pub open spec fn chord_syms(s: Seq<char>) -> Option<Seq<CharWithModifiers>>
    decreases s.len(),
{
    if s.len() == 0 {
        Some(Seq::empty())
    } else if s[0] == '<' {
        match find_char(s.drop_first(), '>') {
            None => cons_sym(CharWithModifiers::Unmodified('<'), chord_syms(s.drop_first())),
            Some(g) => if 0 <= g && g + 2 <= s.len() {
                match spec_modifier_of_group(s.subrange(1, g + 1)) {
                    Some(sym) => cons_sym(sym, chord_syms(s.skip(g + 2))),
                    None => None,
                }
            } else {
                None
            },
        }
    } else {
        cons_sym(CharWithModifiers::Unmodified(s[0]), chord_syms(s.drop_first()))
    }
}

/// Reads one bracket group's inner content, `chars[from..to]`, as a
/// modifier key.
fn modifier_of_group(chars: &Vec<char>, from: usize, to: usize) -> (r: Option<CharWithModifiers>)
    requires
        from <= to <= chars@.len(),
    ensures
        r == spec_modifier_of_group(chars@.subrange(from as int, to as int)),
{
    let n = to - from;
    let ghost inner = chars@.subrange(from as int, to as int);
    if n == 3 && chars[from] == 'C' && chars[from + 1] == '-' {
        Some(CharWithModifiers::Ctrl(chars[from + 2]))
    } else if n == 3 && chars[from] == 'A' && chars[from + 1] == '-' {
        Some(CharWithModifiers::Alt(chars[from + 2]))
    } else if n == 6 && chars[from] == 'C' && chars[from + 1] == 't' && chars[from + 2] == 'r'
        && chars[from + 3] == 'l' && chars[from + 4] == '-' {
        Some(CharWithModifiers::Ctrl(chars[from + 5]))
    } else if n == 6 && chars[from] == 'c' && chars[from + 1] == 't' && chars[from + 2] == 'r'
        && chars[from + 3] == 'l' && chars[from + 4] == '-' {
        Some(CharWithModifiers::Ctrl(chars[from + 5]))
    } else if n == 5 && chars[from] == 'A' && chars[from + 1] == 'l' && chars[from + 2] == 't'
        && chars[from + 3] == '-' {
        Some(CharWithModifiers::Alt(chars[from + 4]))
    } else if n == 5 && chars[from] == 'a' && chars[from + 1] == 'l' && chars[from + 2] == 't'
        && chars[from + 3] == '-' {
        Some(CharWithModifiers::Alt(chars[from + 4]))
    } else {
        None
    }
}

/// Scans a whole chord spec into its modifier-aware characters, or
/// reports that some bracket group is malformed.
pub fn chord_symbols(chars: &Vec<char>) -> (r: Option<Vec<CharWithModifiers>>)
    ensures
        match r {
            Some(v) => chord_syms(chars@) == Some(v@),
            None => chord_syms(chars@) is None,
        },
{
    let n = chars.len();
    let mut acc: Vec<CharWithModifiers> = Vec::new();
    let mut p: usize = 0;
    proof {
        assert(chars@.skip(0) =~= chars@);
    }
    while p < n
        invariant
            p <= n,
            n == chars@.len(),
            match chord_syms(chars@.skip(p as int)) {
                Some(rest) => chord_syms(chars@) == Some(acc@ + rest),
                None => chord_syms(chars@) is None,
            },
        decreases n - p,
    {
        let ghost su = chars@.skip(p as int);
        proof {
            assert(su[0] == chars@[p as int]);
            assert(su.drop_first() =~= chars@.skip(p as int + 1));
        }
        let c = chars[p];
        if c != '<' {
            let ghost acc0 = acc@;
            acc.push(CharWithModifiers::Unmodified(c));
            proof {
                lemma_step(chars@, p as int, acc0, CharWithModifiers::Unmodified(c), p as int + 1);
            }
            p = p + 1;
        } else {
            // Look for the nearest closing bracket.
            let mut q: usize = p + 1;
            let mut found: bool = false;
            while q < n && !found
                invariant
                    p + 1 <= q <= n,
                    n == chars@.len(),
                    found ==> q < n && chars@[q as int] == '>',
                    forall|j: int| p + 1 <= j < q ==> chars@[j] != '>',
                decreases n - q + (if found { 0int } else { 1int }),
            {
                if chars[q] == '>' {
                    found = true;
                } else {
                    q = q + 1;
                }
            }
            proof {
                lemma_find_char(su.drop_first(), '>');
            }
            if !found {
                // No closing bracket anywhere: the `<` is a bare character.
                proof {
                    assert(forall|j: int|
                        0 <= j < su.drop_first().len() ==> su.drop_first()[j] == chars@[
                        p + 1 + j
                        ]);
                    assert(find_char(su.drop_first(), '>') is None);
                }
                let ghost acc0 = acc@;
                acc.push(CharWithModifiers::Unmodified('<'));
                proof {
                    lemma_step(chars@, p as int, acc0, CharWithModifiers::Unmodified('<'), p as int
                        + 1);
                }
                p = p + 1;
            } else {
                proof {
                    assert(forall|j: int|
                        0 <= j < su.drop_first().len() ==> su.drop_first()[j] == chars@[
                        p + 1 + j
                        ]);
                    // The loop found the first '>' after p, which pins the
                    // spec-level search down.
                    assert(su.drop_first()[q - p - 1] == '>');
                    match find_char(su.drop_first(), '>') {
                        Some(i) => {
                            if i < q - p - 1 {
                                assert(chars@[p + 1 + i] == '>');
                                assert(false);
                            } else if i > q - p - 1 {
                                assert(su.drop_first()[q - p - 1] != '>');
                                assert(false);
                            }
                        },
                        None => {
                            assert(su.drop_first()[q - p - 1] != '>');
                            assert(false);
                        },
                    }
                    assert(find_char(su.drop_first(), '>') == Some(q - p - 1));
                }
                let ghost g = q - p - 1;
                proof {
                    assert(su.subrange(1, g + 1) =~= chars@.subrange(p as int + 1, q as int));
                }
                match modifier_of_group(chars, p + 1, q) {
                    Some(sym) => {
                        let ghost acc0 = acc@;
                        acc.push(sym);
                        proof {
                            assert(su.skip(g + 2) =~= chars@.skip(q as int + 1));
                            lemma_step(chars@, p as int, acc0, sym, q as int + 1);
                        }
                        p = q + 1;
                    },
                    None => {
                        proof {
                            assert(chord_syms(su) is None);
                        }
                        return None;
                    },
                }
            }
        }
    }
    proof {
        assert(chars@.skip(n as int) =~= Seq::<char>::empty());
        assert(chord_syms(Seq::<char>::empty()) == Some(Seq::<CharWithModifiers>::empty()));
        assert(acc@ + Seq::<CharWithModifiers>::empty() =~= acc@);
    }
    Some(acc)
}

/// Whether `s` holds no `=` at all.
pub open spec fn no_eq(s: Seq<char>) -> bool {
    forall|j: int| 0 <= j < s.len() ==> s[j] != '='
}

/// Whether position `i` is the unique `=` separating chord from command.
pub open spec fn eq_split_at(s: Seq<char>, i: int) -> bool {
    0 <= i < s.len() && s[i] == '=' && no_eq(s.take(i)) && no_eq(s.skip(i + 1))
}

/// Whether the line holds exactly one `=`.
pub open spec fn has_split(s: Seq<char>) -> bool {
    exists|i: int| eq_split_at(s, i)
}

/// The position of the line's unique `=`.
pub open spec fn split_index(s: Seq<char>) -> int {
    choose|i: int| eq_split_at(s, i)
}

pub proof fn lemma_split_unique(s: Seq<char>, i: int, j: int)
    requires
        eq_split_at(s, i),
        eq_split_at(s, j),
    ensures
        i == j,
{
    if i < j {
        assert(s.skip(i + 1)[j - i - 1] == s[j]);
        assert(false);
    }
    if j < i {
        assert(s.skip(j + 1)[i - j - 1] == s[i]);
        assert(false);
    }
}

/// Whether the line is a comment: optional leading whitespace then `--`.
pub open spec fn is_comment(s: Seq<char>) -> bool {
    trim_start(s).len() >= 2 && trim_start(s)[0] == '-' && trim_start(s)[1] == '-'
}

/// The chord-spec side of a line with a split: left of the `=`, trimmed.
pub open spec fn spec_combo_of(s: Seq<char>) -> Seq<char> {
    trim(s.take(split_index(s)))
}

/// The command side of a line with a split: right of the `=`, trimmed.
pub open spec fn spec_command_of(s: Seq<char>) -> Seq<char> {
    trim(s.skip(split_index(s) + 1))
}

/// Why a combo definition was rejected; each variant names the offending
/// text.
#[derive(Debug)]
pub enum ComboError {
    BadLineFormat { line: String },
    BadBracketGroup { combo: String },
    EmptyChord { combo: String },
    DuplicateCombo { combo: String },
}

/// The bare kind of a [`ComboError`], without the offending text.
#[derive(Copy, Clone, Debug, Eq, PartialEq, Structural)]
pub enum ComboErrorKind {
    BadLineFormat,
    BadBracketGroup,
    EmptyChord,
    DuplicateCombo,
}

impl ComboError {
    /// The offending text the error carries.
    pub open spec fn spec_payload(self) -> Seq<char> {
        match self {
            ComboError::BadLineFormat { line } => line@,
            ComboError::BadBracketGroup { combo } => combo@,
            ComboError::EmptyChord { combo } => combo@,
            ComboError::DuplicateCombo { combo } => combo@,
        }
    }

    pub open spec fn spec_kind(self) -> ComboErrorKind {
        match self {
            ComboError::BadLineFormat { .. } => ComboErrorKind::BadLineFormat,
            ComboError::BadBracketGroup { .. } => ComboErrorKind::BadBracketGroup,
            ComboError::EmptyChord { .. } => ComboErrorKind::EmptyChord,
            ComboError::DuplicateCombo { .. } => ComboErrorKind::DuplicateCombo,
        }
    }

    pub fn kind(&self) -> (r: ComboErrorKind)
        ensures
            r == self.spec_kind(),
    {
        match self {
            ComboError::BadLineFormat { .. } => ComboErrorKind::BadLineFormat,
            ComboError::BadBracketGroup { .. } => ComboErrorKind::BadBracketGroup,
            ComboError::EmptyChord { .. } => ComboErrorKind::EmptyChord,
            ComboError::DuplicateCombo { .. } => ComboErrorKind::DuplicateCombo,
        }
    }
}

/// Parses one line of combo text.
///
/// A line that is empty, or whose first non-whitespace characters are
/// `--`, defines nothing and is no error.  Any other line must hold
/// exactly one `=`; the trimmed left side must scan as a chord spec, and
/// is returned beside the command text on the right.
pub fn parse_combo(line: &str) -> (r: Result<Option<(String, String)>, ComboError>)
    ensures
        (r is Ok && r->Ok_0 is None) <==> (line@.len() == 0 || is_comment(line@)),
        r matches Ok(Some(p)) ==> {
            &&& has_split(line@)
            &&& p.0@ == spec_combo_of(line@)
            &&& p.1@ == spec_command_of(line@)
            &&& chord_syms(spec_combo_of(line@)) is Some
        },
        r is Err <==> !(line@.len() == 0 || is_comment(line@)) && (!has_split(line@) || chord_syms(
            spec_combo_of(line@),
        ) is None),
        r matches Err(e) ==> match e {
            ComboError::BadLineFormat { line: l } => l@ == line@ && !has_split(line@),
            ComboError::BadBracketGroup { combo } => has_split(line@) && combo@ == spec_combo_of(
                line@,
            ) && chord_syms(spec_combo_of(line@)) is None,
            _ => false,
        },
{
    let n = line.unicode_len();
    if n == 0 {
        return Ok(None);
    }
    let chars = str_chars(line);
    let ghost s = line@;
    // Leading whitespace, then the comment check.
    let mut w: usize = 0;
    while w < n && is_space_exec(chars[w])
        invariant
            w <= n,
            n == s.len(),
            chars@ == s,
            forall|j: int| 0 <= j < w ==> is_space(#[trigger] s[j]),
        decreases n - w,
    {
        w = w + 1;
    }
    proof {
        crate::strutil::lemma_trim_start_skip(s, w as int);
        if w < n {
            crate::strutil::lemma_trim_start_noop(s.skip(w as int));
        } else {
            assert(s.skip(w as int) =~= Seq::<char>::empty());
            crate::strutil::lemma_trim_start_noop(s.skip(w as int));
        }
        assert(trim_start(s) == s.skip(w as int));
    }
    if w < n && chars[w] == '-' && w + 1 < n && chars[w + 1] == '-' {
        proof {
            assert(trim_start(s)[0] == s[w as int]);
            assert(trim_start(s)[1] == s[w as int + 1]);
            assert(is_comment(s));
        }
        return Ok(None);
    }
    proof {
        // Not a comment: either everything was whitespace, or the first
        // non-space run does not begin with `--`.
        if is_comment(s) {
            assert(trim_start(s).len() >= 2);
            assert(s[w as int] == '-' && s[w as int + 1] == '-');
            assert(false);
        }
    }
    // Find the first `=`, and refuse a second one.
    let mut i: usize = 0;
    let mut found_eq: bool = false;
    while i < n && !found_eq
        invariant
            i <= n,
            n == s.len(),
            chars@ == s,
            found_eq ==> i < n && s[i as int] == '=',
            forall|j: int| 0 <= j < i ==> s[j] != '=',
        decreases n - i + (if found_eq { 0int } else { 1int }),
    {
        if chars[i] == '=' {
            found_eq = true;
        } else {
            i = i + 1;
        }
    }
    if !found_eq {
        proof {
            assert forall|k: int| !eq_split_at(s, k) by {
                if 0 <= k < s.len() {
                    assert(s[k] != '=');
                }
            }
        }
        return Err(ComboError::BadLineFormat { line: line.to_owned() });
    }
    let mut i2: usize = i + 1;
    let mut found_second: bool = false;
    while i2 < n && !found_second
        invariant
            i + 1 <= i2 <= n,
            i < n,
            n == s.len(),
            chars@ == s,
            found_second ==> i2 < n && s[i2 as int] == '=',
            forall|j: int| i + 1 <= j < i2 ==> s[j] != '=',
        decreases n - i2 + (if found_second { 0int } else { 1int }),
    {
        if chars[i2] == '=' {
            found_second = true;
        } else {
            i2 = i2 + 1;
        }
    }
    if found_second {
        proof {
            // With two `=` in the line no position can be a clean split.
            assert forall|k: int| !eq_split_at(s, k) by {
                if 0 <= k < s.len() && s[k] == '=' && no_eq(s.take(k)) && no_eq(s.skip(k + 1)) {
                    if k > i {
                        assert(s.take(k)[i as int] == s[i as int]);
                        assert(false);
                    } else if k < i2 {
                        assert(s.skip(k + 1)[i2 - k - 1] == s[i2 as int]);
                        assert(false);
                    }
                }
            }
        }
        return Err(ComboError::BadLineFormat { line: line.to_owned() });
    }
    proof {
        assert(no_eq(s.take(i as int))) by {
            assert(forall|j: int| 0 <= j < i ==> s.take(i as int)[j] == s[j]);
        }
        assert(no_eq(s.skip(i as int + 1))) by {
            assert(forall|j: int|
                0 <= j < s.skip(i as int + 1).len() ==> #[trigger] s.skip(i as int + 1)[j] == s[j + i
                    + 1]);
        }
        assert(eq_split_at(s, i as int));
        assert(has_split(s));
        lemma_split_unique(s, split_index(s), i as int);
        assert(split_index(s) == i as int);
    }
    // The chord spec: left of the `=`, trimmed at both ends.
    let mut a: usize = 0;
    while a < i && is_space_exec(chars[a])
        invariant
            a <= i,
            i < n,
            n == s.len(),
            chars@ == s,
            forall|j: int| 0 <= j < a ==> is_space(#[trigger] s[j]),
        decreases i - a,
    {
        a = a + 1;
    }
    let mut b: usize = i;
    while b > a && is_space_exec(chars[b - 1])
        invariant
            a <= b <= i,
            i < n,
            n == s.len(),
            chars@ == s,
            forall|j: int| b <= j < i ==> is_space(#[trigger] s[j]),
        decreases b,
    {
        b = b - 1;
    }
    proof {
        let u = s.take(i as int);
        assert(forall|j: int| 0 <= j < i ==> u[j] == s[j]);
        crate::strutil::lemma_trim_subrange(u, a as int, b as int);
        assert(u.subrange(a as int, b as int) =~= s.subrange(a as int, b as int));
        assert(spec_combo_of(s) == s.subrange(a as int, b as int));
    }
    // The command: right of the `=`, trimmed at both ends.
    let mut c0: usize = i + 1;
    while c0 < n && is_space_exec(chars[c0])
        invariant
            i + 1 <= c0 <= n,
            n == s.len(),
            chars@ == s,
            forall|j: int| i + 1 <= j < c0 ==> is_space(#[trigger] s[j]),
        decreases n - c0,
    {
        c0 = c0 + 1;
    }
    let mut c1: usize = n;
    while c1 > c0 && is_space_exec(chars[c1 - 1])
        invariant
            c0 <= c1 <= n,
            n == s.len(),
            chars@ == s,
            forall|j: int| c1 <= j < n ==> is_space(#[trigger] s[j]),
        decreases c1,
    {
        c1 = c1 - 1;
    }
    proof {
        let v = s.skip(i as int + 1);
        assert(forall|j: int| 0 <= j < v.len() ==> v[j] == s[j + i + 1]);
        crate::strutil::lemma_trim_subrange(v, c0 - i - 1, c1 - i - 1);
        assert(v.subrange(c0 - i - 1, c1 - i - 1) =~= s.subrange(c0 as int, c1 as int));
        assert(spec_command_of(s) == s.subrange(c0 as int, c1 as int));
    }
    let combo_sub = line.substring_char(a, b);
    let command = line.substring_char(c0, c1).to_owned();
    let cv = str_chars(combo_sub);
    match chord_symbols(&cv) {
        Some(_) => Ok(Some((combo_sub.to_owned(), command))),
        None => Err(ComboError::BadBracketGroup { combo: combo_sub.to_owned() }),
    }
}

/// The terminal escape code of a function key, or nothing for other
/// names.
pub open spec fn spec_key_name(s: Seq<char>) -> Option<Seq<char>> {
    if s == "F1"@ {
        Some("^[OP"@)
    } else if s == "F2"@ {
        Some("^[OQ"@)
    } else if s == "F3"@ {
        Some("^[OR"@)
    } else if s == "F4"@ {
        Some("^[OS"@)
    } else if s == "F5"@ {
        Some("^[[15~"@)
    } else if s == "F6"@ {
        Some("^[[17~"@)
    } else if s == "F7"@ {
        Some("^[[18~"@)
    } else if s == "F8"@ {
        Some("^[[19~"@)
    } else if s == "F9"@ {
        Some("^[[20~"@)
    } else if s == "F10"@ {
        Some("^[[21~"@)
    } else if s == "F11"@ {
        Some("^[[23~"@)
    } else if s == "F12"@ {
        Some("^[[24~"@)
    } else {
        None
    }
}

/// Looks a function key's escape code up by its name.
pub fn get_key_name(key: &str) -> (r: Option<&'static str>)
    ensures
        match r {
            Some(v) => spec_key_name(key@) == Some(v@),
            None => spec_key_name(key@) is None,
        },
{
    if str_eq(key, "F1") {
        Some("^[OP")
    } else if str_eq(key, "F2") {
        Some("^[OQ")
    } else if str_eq(key, "F3") {
        Some("^[OR")
    } else if str_eq(key, "F4") {
        Some("^[OS")
    } else if str_eq(key, "F5") {
        Some("^[[15~")
    } else if str_eq(key, "F6") {
        Some("^[[17~")
    } else if str_eq(key, "F7") {
        Some("^[[18~")
    } else if str_eq(key, "F8") {
        Some("^[[19~")
    } else if str_eq(key, "F9") {
        Some("^[[20~")
    } else if str_eq(key, "F10") {
        Some("^[[21~")
    } else if str_eq(key, "F11") {
        Some("^[[23~")
    } else if str_eq(key, "F12") {
        Some("^[[24~")
    } else {
        None
    }
}

/// A key spec resolved either to a zsh key code or to a leader combo.
#[derive(Debug)]
pub enum KeyOrLeader {
    Key(String),
    LeaderCombo(String),
}

/// The length of the alt prefix at the head of a key spec, if any:
/// `Alt-`, `A-` or `alt-`.
pub open spec fn spec_alt_prefix_len(s: Seq<char>) -> Option<int> {
    if s.len() >= 4 && s[0] == 'A' && s[1] == 'l' && s[2] == 't' && s[3] == '-' {
        Some(4int)
    } else if s.len() >= 2 && s[0] == 'A' && s[1] == '-' {
        Some(2int)
    } else if s.len() >= 4 && s[0] == 'a' && s[1] == 'l' && s[2] == 't' && s[3] == '-' {
        Some(4int)
    } else {
        None
    }
}

/// The length of the ctrl prefix at the head of a key spec, if any:
/// `Ctrl-`, `C-` or `ctrl-`.
pub open spec fn spec_ctrl_prefix_len(s: Seq<char>) -> Option<int> {
    if s.len() >= 5 && s[0] == 'C' && s[1] == 't' && s[2] == 'r' && s[3] == 'l' && s[4] == '-' {
        Some(5int)
    } else if s.len() >= 2 && s[0] == 'C' && s[1] == '-' {
        Some(2int)
    } else if s.len() >= 5 && s[0] == 'c' && s[1] == 't' && s[2] == 'r' && s[3] == 'l' && s[4]
        == '-' {
        Some(5int)
    } else {
        None
    }
}

/// The zsh key code of a key spec: the alt starter or caret followed by
/// the rest for modified keys, a function key's escape code otherwise.
pub open spec fn spec_zsh_repr(s: Seq<char>) -> Option<Seq<char>> {
    match spec_alt_prefix_len(s) {
        Some(p) => Some("\\e"@ + s.skip(p)),
        None => match spec_ctrl_prefix_len(s) {
            Some(p) => Some(seq!['^'] + s.skip(p)),
            None => spec_key_name(s),
        },
    }
}

/// The zsh code that starts an alt sequence.
fn alt_starter_key() -> (r: &'static str)
    ensures
        r@ == "\\e"@,
{
    "\\e"
}

/// Resolves a key spec to the representation zsh binds it under.
pub fn get_key_zsh_representation(key: &str) -> (r: Option<KeyOrLeader>)
    ensures
        match r {
            Some(KeyOrLeader::Key(k)) => spec_zsh_repr(key@) == Some(k@),
            Some(KeyOrLeader::LeaderCombo(_)) => false,
            None => spec_zsh_repr(key@) is None,
        },
{
    let n = key.unicode_len();
    let chars = str_chars(key);
    let alt_len: usize = if n >= 4 && chars[0] == 'A' && chars[1] == 'l' && chars[2] == 't'
        && chars[3] == '-' {
        4
    } else if n >= 2 && chars[0] == 'A' && chars[1] == '-' {
        2
    } else if n >= 4 && chars[0] == 'a' && chars[1] == 'l' && chars[2] == 't' && chars[3] == '-' {
        4
    } else {
        0
    };
    proof {
        if alt_len > 0 {
            assert(spec_alt_prefix_len(key@) == Some(alt_len as int));
        } else {
            assert(spec_alt_prefix_len(key@) is None);
        }
    }
    if alt_len > 0 {
        let mut out = alt_starter_key().to_owned();
        out.append(key.substring_char(alt_len, n));
        proof {
            assert(key@.subrange(alt_len as int, n as int) =~= key@.skip(alt_len as int));
        }
        return Some(KeyOrLeader::Key(out));
    }
    let ctrl_len: usize = if n >= 5 && chars[0] == 'C' && chars[1] == 't' && chars[2] == 'r'
        && chars[3] == 'l' && chars[4] == '-' {
        5
    } else if n >= 2 && chars[0] == 'C' && chars[1] == '-' {
        2
    } else if n >= 5 && chars[0] == 'c' && chars[1] == 't' && chars[2] == 'r' && chars[3] == 'l'
        && chars[4] == '-' {
        5
    } else {
        0
    };
    proof {
        if ctrl_len > 0 {
            assert(spec_ctrl_prefix_len(key@) == Some(ctrl_len as int));
        } else {
            assert(spec_ctrl_prefix_len(key@) is None);
        }
    }
    if ctrl_len > 0 {
        let mut out = "^".to_owned();
        out.append(key.substring_char(ctrl_len, n));
        proof {
            reveal_strlit("^");
            assert("^"@ =~= seq!['^']);
            assert(key@.subrange(ctrl_len as int, n as int) =~= key@.skip(ctrl_len as int));
        }
        return Some(KeyOrLeader::Key(out));
    }
    match get_key_name(key) {
        Some(code) => Some(KeyOrLeader::Key(code.to_owned())),
        None => None,
    }
}

/// Splits a modified key spec into the nu keybinding's modifier name and
/// key code: `control` or `alt`, and the text after the prefix.  A spec
/// without a modifier prefix has no nu trigger form.
pub fn nu_key_parts(key: &str) -> (r: Option<(String, String)>)
    ensures
        match r {
            Some(p) => match spec_ctrl_prefix_len(key@) {
                Some(pl) => p.0@ == "control"@ && p.1@ == key@.skip(pl),
                None => match spec_alt_prefix_len(key@) {
                    Some(pl) => p.0@ == "alt"@ && p.1@ == key@.skip(pl),
                    None => false,
                },
            },
            None => spec_ctrl_prefix_len(key@) is None && spec_alt_prefix_len(key@) is None,
        },
{
    let n = key.unicode_len();
    let chars = str_chars(key);
    let ctrl_len: usize = if n >= 5 && chars[0] == 'C' && chars[1] == 't' && chars[2] == 'r'
        && chars[3] == 'l' && chars[4] == '-' {
        5
    } else if n >= 2 && chars[0] == 'C' && chars[1] == '-' {
        2
    } else if n >= 5 && chars[0] == 'c' && chars[1] == 't' && chars[2] == 'r' && chars[3] == 'l'
        && chars[4] == '-' {
        5
    } else {
        0
    };
    proof {
        if ctrl_len > 0 {
            assert(spec_ctrl_prefix_len(key@) == Some(ctrl_len as int));
        } else {
            assert(spec_ctrl_prefix_len(key@) is None);
        }
    }
    if ctrl_len > 0 {
        let code = key.substring_char(ctrl_len, n).to_owned();
        proof {
            assert(key@.subrange(ctrl_len as int, n as int) =~= key@.skip(ctrl_len as int));
        }
        return Some(("control".to_owned(), code));
    }
    let alt_len: usize = if n >= 4 && chars[0] == 'A' && chars[1] == 'l' && chars[2] == 't'
        && chars[3] == '-' {
        4
    } else if n >= 2 && chars[0] == 'A' && chars[1] == '-' {
        2
    } else if n >= 4 && chars[0] == 'a' && chars[1] == 'l' && chars[2] == 't' && chars[3] == '-' {
        4
    } else {
        0
    };
    proof {
        if alt_len > 0 {
            assert(spec_alt_prefix_len(key@) == Some(alt_len as int));
        } else {
            assert(spec_alt_prefix_len(key@) is None);
        }
    }
    if alt_len > 0 {
        let code = key.substring_char(alt_len, n).to_owned();
        proof {
            assert(key@.subrange(alt_len as int, n as int) =~= key@.skip(alt_len as int));
        }
        return Some(("alt".to_owned(), code));
    }
    None
}

/// A run of `n` spaces.
pub open spec fn spec_spaces(n: nat) -> Seq<char>
    decreases n,
{
    if n == 0 {
        Seq::empty()
    } else {
        spec_spaces((n - 1) as nat).push(' ')
    }
}

/// `s` padded on the right with spaces to at least `w` cells.
pub open spec fn spec_pad(s: Seq<char>, w: int) -> Seq<char> {
    if s.len() < w {
        s + spec_spaces((w - s.len()) as nat)
    } else {
        s
    }
}

/// Pads a string on the right to at least `w` characters.
fn pad_right(s: &str, w: usize) -> (r: String)
    ensures
        r@ == spec_pad(s@, w as int),
{
    let n = s.unicode_len();
    let mut r = s.to_owned();
    let mut k: usize = n;
    while k < w
        invariant
            n <= k <= w || (k == n && n >= w),
            r@ == s@ + spec_spaces((k - n) as nat),
        decreases w - k,
    {
        r.append(" ");
        k = k + 1;
        proof {
            reveal_strlit(" ");
            assert(" "@ =~= seq![' ']);
            assert(s@ + spec_spaces((k - 1 - n) as nat) + seq![' '] =~= s@ + spec_spaces(
                (k - n) as nat,
            ));
        }
    }
    proof {
        if n >= w {
            assert(spec_spaces(0) =~= Seq::<char>::empty());
            assert(s@ + spec_spaces(0) =~= s@);
        }
    }
    r
}

/// Why a keybind could not be emitted; each variant names the offending
/// key.
#[derive(Debug)]
pub enum KeybindError {
    /// The entry sets neither `command` nor `zle`.
    MissingAction { key_raw: String },
    /// The key spec is not one the zsh representation covers.
    Unsupported { key: String },
}

/// The bare kind of a [`KeybindError`].
#[derive(Copy, Clone, Debug, Eq, PartialEq, Structural)]
pub enum KeybindErrorKind {
    MissingAction,
    Unsupported,
}

impl KeybindError {
    pub open spec fn spec_kind(self) -> KeybindErrorKind {
        match self {
            KeybindError::MissingAction { .. } => KeybindErrorKind::MissingAction,
            KeybindError::Unsupported { .. } => KeybindErrorKind::Unsupported,
        }
    }

    /// The key the error names.
    pub open spec fn spec_offending_key(self) -> Seq<char> {
        match self {
            KeybindError::MissingAction { key_raw } => key_raw@,
            KeybindError::Unsupported { key } => key@,
        }
    }
}

/// The key a failing keybind is reported under: the configured key spec
/// where it is bound raw or has no zsh representation, the resolved
/// representation otherwise.
pub open spec fn spec_emit_one_err_key(k: Keybind) -> Seq<char> {
    let raw = match k.raw {
        Some(b) => b,
        None => false,
    };
    if raw {
        k.key@
    } else {
        match spec_zsh_repr(k.key@) {
            Some(repr) => repr,
            None => k.key@,
        }
    }
}

/// The offending key of the first failing keybind.
pub open spec fn spec_first_emit_err_key(ks: Seq<Keybind>, human: bool) -> Seq<char>
    decreases ks.len(),
{
    if ks.len() == 0 {
        Seq::empty()
    } else if spec_emit_one(ks[0], human) is Err {
        spec_emit_one_err_key(ks[0])
    } else {
        spec_first_emit_err_key(ks.drop_first(), human)
    }
}

/// The human-readable action text: the command quoted, or the zle widget
/// quoted and marked.
pub open spec fn spec_human_action(command: Option<Seq<char>>, zle: Option<Seq<char>>) -> Result<
    Seq<char>,
    KeybindErrorKind,
> {
    match command {
        Some(c) => Ok(seq!['\''] + c + seq!['\'']),
        None => match zle {
            Some(z) => Ok(seq!['\''] + z + seq!['\''] + " (zle builtin)"@),
            None => Err(KeybindErrorKind::MissingAction),
        },
    }
}

/// One human-readable keybind line: the key padded, an arrow, the
/// action.
pub open spec fn spec_human_line(
    key_field: Seq<char>,
    command: Option<Seq<char>>,
    zle: Option<Seq<char>>,
) -> Result<Seq<char>, KeybindErrorKind> {
    match spec_human_action(command, zle) {
        Ok(out) => Ok(spec_pad(key_field, 7) + " ----->  "@ + out),
        Err(e) => Err(e),
    }
}

/// The bindkey command text for one keybind.
pub open spec fn spec_bindkey_command(
    key_raw: Seq<char>,
    command: Option<Seq<char>>,
    zle: Option<Seq<char>>,
) -> Result<Seq<char>, KeybindErrorKind> {
    match command {
        Some(c) => Ok("bindkey -s '"@ + key_raw + "' \""@ + c + "^M\""@),
        None => match zle {
            Some(z) => Ok("bindkey '"@ + key_raw + "' \""@ + z + "\""@),
            None => Err(KeybindErrorKind::MissingAction),
        },
    }
}

/// One zsh bindkey line: the command padded, then a comment naming the
/// configured key.
pub open spec fn spec_bindkey_line(
    key_field: Seq<char>,
    key_raw: Seq<char>,
    command: Option<Seq<char>>,
    zle: Option<Seq<char>>,
) -> Result<Seq<char>, KeybindErrorKind> {
    match spec_bindkey_command(key_raw, command, zle) {
        Ok(cmd) => Ok(spec_pad(cmd, 50) + "  # <--- "@ + key_field),
        Err(e) => Err(e),
    }
}

/// Builds the human-readable line for one keybind.
pub fn human_keys_line(
    keybind: &Keybind,
    key_raw: &str,
    command: &Option<String>,
    zle: &Option<String>,
) -> (r: Result<String, KeybindError>)
    ensures
        match r {
            Ok(line) => spec_human_line(
                keybind.key@,
                match command {
                    Some(c) => Some(c@),
                    None => None,
                },
                match zle {
                    Some(z) => Some(z@),
                    None => None,
                },
            ) == Ok::<Seq<char>, KeybindErrorKind>(line@),
            Err(e) => e.spec_kind() == KeybindErrorKind::MissingAction && command is None
                && zle is None && (e matches KeybindError::MissingAction { key_raw: k } ==> k@
                == key_raw@),
        },
{
    let out: String;
    if let Some(c) = command {
        let mut o = "'".to_owned();
        o.append(c.as_str());
        o.append("'");
        proof {
            reveal_strlit("'");
            assert("'"@ =~= seq!['\'']);
        }
        out = o;
    } else if let Some(z) = zle {
        let mut o = "'".to_owned();
        o.append(z.as_str());
        o.append("'");
        o.append(" (zle builtin)");
        proof {
            reveal_strlit("'");
            assert("'"@ =~= seq!['\'']);
        }
        out = o;
    } else {
        return Err(KeybindError::MissingAction { key_raw: key_raw.to_owned() });
    }
    let mut line = pad_right(keybind.key.as_str(), 7);
    line.append(" ----->  ");
    line.append(out.as_str());
    Ok(line)
}

/// Builds the zsh bindkey line for one keybind.
pub fn bindkey_zsh_line(
    keybind: &Keybind,
    key_raw: &str,
    command: &Option<String>,
    zle: &Option<String>,
) -> (r: Result<String, KeybindError>)
    ensures
        match r {
            Ok(line) => spec_bindkey_line(
                keybind.key@,
                key_raw@,
                match command {
                    Some(c) => Some(c@),
                    None => None,
                },
                match zle {
                    Some(z) => Some(z@),
                    None => None,
                },
            ) == Ok::<Seq<char>, KeybindErrorKind>(line@),
            Err(e) => e.spec_kind() == KeybindErrorKind::MissingAction && command is None
                && zle is None && (e matches KeybindError::MissingAction { key_raw: k } ==> k@
                == key_raw@),
        },
{
    let cmd: String;
    if let Some(c) = command {
        let mut o = "bindkey -s '".to_owned();
        o.append(key_raw);
        o.append("' \"");
        o.append(c.as_str());
        o.append("^M\"");
        cmd = o;
    } else if let Some(z) = zle {
        let mut o = "bindkey '".to_owned();
        o.append(key_raw);
        o.append("' \"");
        o.append(z.as_str());
        o.append("\"");
        cmd = o;
    } else {
        return Err(KeybindError::MissingAction { key_raw: key_raw.to_owned() });
    }
    let mut line = pad_right(cmd.as_str(), 50);
    line.append("  # <--- ");
    line.append(keybind.key.as_str());
    Ok(line)
}

/// The line one keybind emits: using its raw key where `raw` is set,
/// else its zsh representation.
pub open spec fn spec_emit_one(k: Keybind, human: bool) -> Result<Seq<char>, KeybindErrorKind> {
    let command = match k.command {
        Some(c) => Some(c@),
        None => None,
    };
    let zle = match k.zle {
        Some(z) => Some(z@),
        None => None,
    };
    let raw = match k.raw {
        Some(b) => b,
        None => false,
    };
    if raw {
        if human {
            spec_human_line(k.key@, command, zle)
        } else {
            spec_bindkey_line(k.key@, k.key@, command, zle)
        }
    } else {
        match spec_zsh_repr(k.key@) {
            Some(repr) => if human {
                spec_human_line(k.key@, command, zle)
            } else {
                spec_bindkey_line(k.key@, repr, command, zle)
            },
            None => Err(KeybindErrorKind::Unsupported),
        }
    }
}

/// The lines a keybind list emits, or the first error among them.
pub open spec fn spec_emit(ks: Seq<Keybind>, human: bool) -> Result<
    Seq<Seq<char>>,
    KeybindErrorKind,
> {
    if forall|j: int| 0 <= j < ks.len() ==> (#[trigger] spec_emit_one(ks[j], human)) is Ok {
        Ok(Seq::new(ks.len(), |j: int| spec_emit_one(ks[j], human)->Ok_0))
    } else {
        Err(spec_first_emit_err(ks, human))
    }
}

/// The kind of the first failing keybind.
pub open spec fn spec_first_emit_err(ks: Seq<Keybind>, human: bool) -> KeybindErrorKind
    decreases ks.len(),
{
    if ks.len() == 0 {
        KeybindErrorKind::MissingAction
    } else if spec_emit_one(ks[0], human) is Err {
        spec_emit_one(ks[0], human)->Err_0
    } else {
        spec_first_emit_err(ks.drop_first(), human)
    }
}

/// Emits one line per keybind: the human-readable form or the zsh
/// bindkey command, stopping at the first keybind that cannot be
/// emitted.
pub fn emit_keybinds(keybinds: &Vec<Keybind>, human: bool) -> (r: Result<Vec<String>, KeybindError>)
    ensures
        match r {
            Ok(lines) => spec_emit(keybinds@, human) is Ok && lines@.len() == keybinds@.len()
                && forall|j: int|
                0 <= j < lines@.len() ==> Ok::<Seq<char>, KeybindErrorKind>(
                    (#[trigger] lines@[j])@,
                ) == spec_emit_one(keybinds@[j], human),
            Err(e) => spec_emit(keybinds@, human) == Err::<Seq<Seq<char>>, KeybindErrorKind>(
                e.spec_kind(),
            ) && e.spec_offending_key() == spec_first_emit_err_key(keybinds@, human),
        },
{
    let mut lines: Vec<String> = Vec::new();
    let mut i: usize = 0;
    while i < keybinds.len()
        invariant
            i <= keybinds@.len(),
            lines@.len() == i,
            forall|j: int|
                0 <= j < i ==> (#[trigger] spec_emit_one(keybinds@[j], human)) is Ok,
            forall|j: int|
                0 <= j < i ==> Ok::<Seq<char>, KeybindErrorKind>((#[trigger] lines@[j])@)
                    == spec_emit_one(keybinds@[j], human),
        decreases keybinds@.len() - i,
    {
        let k = &keybinds[i];
        let raw = match k.raw {
            Some(b) => b,
            None => false,
        };
        let line: Result<String, KeybindError>;
        if raw {
            if human {
                line = human_keys_line(k, k.key.as_str(), &k.command, &k.zle);
            } else {
                line = bindkey_zsh_line(k, k.key.as_str(), &k.command, &k.zle);
            }
        } else {
            match get_key_zsh_representation(k.key.as_str()) {
                Some(KeyOrLeader::Key(repr)) => {
                    if human {
                        line = human_keys_line(k, repr.as_str(), &k.command, &k.zle);
                    } else {
                        line = bindkey_zsh_line(k, repr.as_str(), &k.command, &k.zle);
                    }
                },
                Some(KeyOrLeader::LeaderCombo(_)) => {
                    proof {
                        assert(false);
                    }
                    line = Err(KeybindError::Unsupported { key: k.key.clone() });
                },
                None => {
                    proof {
                        assert(spec_emit_one(keybinds@[i as int], human) == Err::<
                            Seq<char>,
                            KeybindErrorKind,
                        >(KeybindErrorKind::Unsupported));
                        lemma_first_emit_err(keybinds@, human, i as int);
                    }
                    return Err(KeybindError::Unsupported { key: k.key.clone() });
                },
            }
        }
        match line {
            Ok(l) => {
                lines.push(l);
            },
            Err(e) => {
                proof {
                    assert(spec_emit_one(keybinds@[i as int], human) == Err::<
                        Seq<char>,
                        KeybindErrorKind,
                    >(KeybindErrorKind::MissingAction));
                    lemma_first_emit_err(keybinds@, human, i as int);
                }
                return Err(e);
            },
        }
        i = i + 1;
    }
    proof {
        assert(spec_emit(keybinds@, human) is Ok);
    }
    Ok(lines)
}

/// The first error's kind, and the key it names, are those of the first
/// failing keybind.
proof fn lemma_first_emit_err(ks: Seq<Keybind>, human: bool, i: int)
    requires
        0 <= i < ks.len(),
        spec_emit_one(ks[i], human) is Err,
        forall|j: int| 0 <= j < i ==> (#[trigger] spec_emit_one(ks[j], human)) is Ok,
    ensures
        spec_emit(ks, human) == Err::<Seq<Seq<char>>, KeybindErrorKind>(
            spec_emit_one(ks[i], human)->Err_0,
        ),
        spec_first_emit_err_key(ks, human) == spec_emit_one_err_key(ks[i]),
    decreases i,
{
    assert(!(forall|j: int| 0 <= j < ks.len() ==> (#[trigger] spec_emit_one(ks[j], human)) is Ok));
    lemma_first_err_value(ks, human, i);
}

proof fn lemma_first_err_value(ks: Seq<Keybind>, human: bool, i: int)
    requires
        0 <= i < ks.len(),
        spec_emit_one(ks[i], human) is Err,
        forall|j: int| 0 <= j < i ==> (#[trigger] spec_emit_one(ks[j], human)) is Ok,
    ensures
        spec_first_emit_err(ks, human) == spec_emit_one(ks[i], human)->Err_0,
        spec_first_emit_err_key(ks, human) == spec_emit_one_err_key(ks[i]),
    decreases i,
{
    if i == 0 {
    } else {
        assert(spec_emit_one(ks[0], human) is Ok);
        let rest = ks.drop_first();
        assert(forall|j: int| 0 <= j < rest.len() ==> #[trigger] rest[j] == ks[j + 1]);
        assert forall|j: int| 0 <= j < i - 1 implies (#[trigger] spec_emit_one(
            rest[j],
            human,
        )) is Ok by {
            assert(rest[j] == ks[j + 1]);
        }
        assert(rest[i - 1] == ks[i]);
        lemma_first_err_value(rest, human, i - 1);
    }
}

/// The canonical text of one combo definition: chord spec, ` = `,
/// command text.
pub open spec fn spec_serialize(combo: Seq<char>, command: Seq<char>) -> Seq<char> {
    combo + seq![' ', '=', ' '] + command
}

/// Serialises a parsed chord spec and command back into one combo line.
pub fn serialize_combo(combo: &str, command: &str) -> (r: String)
    ensures
        r@ == spec_serialize(combo@, command@),
{
    let mut r = combo.to_owned();
    r.append(" = ");
    r.append(command);
    proof {
        reveal_strlit(" = ");
        assert(" = "@ =~= seq![' ', '=', ' ']);
        assert(r@ =~= spec_serialize(combo@, command@));
    }
    r
}

/// The facts the round trip rests on: what a successful parse left of
/// the chord spec and the command text.
proof fn lemma_parse_parts(line: Seq<char>)
    requires
        line.len() > 0,
        !is_comment(line),
        has_split(line),
    ensures
        ({
            let i = split_index(line);
            let c = spec_combo_of(line);
            let m = spec_command_of(line);
            &&& 0 <= i < line.len()
            &&& no_eq(c)
            &&& no_eq(m)
            &&& (c.len() > 0 ==> !is_space(c[0]) && !is_space(c.last()))
            &&& (m.len() > 0 ==> !is_space(m[0]) && !is_space(m.last()))
            &&& !(c.len() >= 2 && c[0] == '-' && c[1] == '-')
        }),
{
    let i = split_index(line);
    assert(eq_split_at(line, i));
    let u = line.take(i);
    let c = spec_combo_of(line);
    let m = spec_command_of(line);
    // The chord spec is a run of characters of the left side.
    crate::strutil::lemma_trim_start_is_skip(u);
    let k = choose|k: int|
        0 <= k <= u.len() && trim_start(u) == u.skip(k) && (forall|j: int|
            0 <= j < k ==> is_space(#[trigger] u[j]));
    crate::strutil::lemma_trim_end_prefix(u.skip(k));
    assert(forall|j: int| 0 <= j < u.skip(k).len() ==> #[trigger] u.skip(k)[j] == u[k + j]);
    assert forall|j: int| 0 <= j < c.len() implies #[trigger] c[j] == line[k + j] by {
        assert(c[j] == u.skip(k)[j]);
        assert(u[k + j] == line[k + j]);
    }
    assert(no_eq(c)) by {
        assert forall|j: int| 0 <= j < c.len() implies c[j] != '=' by {
            assert(c[j] == u[k + j]);
        }
    }
    crate::strutil::lemma_trim_start_first(u);
    if c.len() > 0 {
        assert(trim_start(u).len() > 0);
        assert(c[0] == trim_start(u)[0]);
        assert(!is_space(c[0]));
        assert(!is_space(c.last()));
    }
    // The command side.
    let v = line.skip(i + 1);
    crate::strutil::lemma_trim_start_is_skip(v);
    let kv = choose|kv: int|
        0 <= kv <= v.len() && trim_start(v) == v.skip(kv) && (forall|j: int|
            0 <= j < kv ==> is_space(#[trigger] v[j]));
    crate::strutil::lemma_trim_end_prefix(v.skip(kv));
    assert(forall|j: int| 0 <= j < v.len() ==> #[trigger] v[j] == line[i + 1 + j]);
    assert(forall|j: int| 0 <= j < v.skip(kv).len() ==> #[trigger] v.skip(kv)[j] == v[kv + j]);
    assert(no_eq(m)) by {
        assert forall|j: int| 0 <= j < m.len() implies m[j] != '=' by {
            assert(m[j] == v.skip(kv)[j]);
            assert(m[j] == v[kv + j]);
        }
    }
    crate::strutil::lemma_trim_start_first(v);
    if m.len() > 0 {
        assert(trim_start(v).len() > 0);
        assert(m[0] == trim_start(v)[0]);
        assert(!is_space(m[0]));
        assert(!is_space(m.last()));
    }
    // A chord spec that opened with `--` would have made the line a
    // comment.
    if c.len() >= 2 && c[0] == '-' && c[1] == '-' {
        crate::strutil::lemma_trim_start_is_skip(line);
        let kl = choose|kl: int|
            0 <= kl <= line.len() && trim_start(line) == line.skip(kl) && (forall|j: int|
                0 <= j < kl ==> is_space(#[trigger] line[j]));
        // The first non-space of the whole line is the first character of
        // the chord spec.
        assert(trim_start(u).len() > 0);
        assert(k < u.len());
        assert(trim_start(u)[0] == u.skip(k)[0]);
        assert(u.skip(k)[0] == u[k]);
        assert(u[k] == line[k]);
        assert(!is_space(line[k]));
        assert forall|j: int| 0 <= j < k implies is_space(#[trigger] line[j]) by {
            assert(is_space(u[j]));
            assert(u[j] == line[j]);
        }
        crate::strutil::lemma_trim_start_first(line);
        assert(trim_start(line).len() == line.len() - kl);
        if kl < k {
            assert(!is_space(trim_start(line)[0]));
            assert(trim_start(line)[0] == line[kl]);
            assert(is_space(line[kl]));
            assert(false);
        }
        if kl > k {
            assert(is_space(line[k]));
            assert(false);
        }
        assert(trim_start(line)[0] == line[k]);
        assert(trim_start(line)[1] == line[k + 1]);
        assert(c[0] == u.skip(k)[0]);
        assert(c[1] == u.skip(k)[1]);
        assert(u.skip(k)[1] == u[k + 1]);
        assert(u[k + 1] == line[k + 1]);
        assert(line[k] == c[0] && line[k + 1] == c[1]);
        assert(is_comment(line));
        assert(false);
    }
}

/// Parsing round-trips: re-serialising a successfully parsed chord spec
/// and command and parsing the result yields the same pair, accepted by
/// the same grammar.
pub proof fn lemma_parse_round_trip(line: Seq<char>)
    requires
        line.len() > 0,
        !is_comment(line),
        has_split(line),
        chord_syms(spec_combo_of(line)) is Some,
    ensures
        ({
            let line2 = spec_serialize(spec_combo_of(line), spec_command_of(line));
            &&& line2.len() > 0
            &&& !is_comment(line2)
            &&& has_split(line2)
            &&& spec_combo_of(line2) == spec_combo_of(line)
            &&& spec_command_of(line2) == spec_command_of(line)
            &&& chord_syms(spec_combo_of(line2)) is Some
        }),
{
    let c = spec_combo_of(line);
    let m = spec_command_of(line);
    lemma_parse_parts(line);
    let line2 = spec_serialize(c, m);
    let cl = c.len() as int;
    assert(line2.len() == cl + 3 + m.len());
    assert(line2[cl + 1] == '=');
    assert(forall|j: int| 0 <= j < cl ==> #[trigger] line2[j] == c[j]);
    assert(line2[cl] == ' ');
    assert(line2[cl + 2] == ' ');
    assert(forall|j: int| 0 <= j < m.len() ==> #[trigger] line2[cl + 3 + j] == m[j]);
    // Not a comment: the first non-space characters are not `--`.
    assert(!is_comment(line2)) by {
        if c.len() > 0 {
            crate::strutil::lemma_trim_start_noop(line2);
            if c.len() >= 2 {
                assert(trim_start(line2)[0] == c[0] && trim_start(line2)[1] == c[1]);
            } else {
                assert(trim_start(line2)[1] == ' ');
            }
        } else {
            assert(line2[0] == ' ');
            assert(line2.drop_first() =~= seq!['=', ' '] + m);
            assert(trim_start(line2) == trim_start(line2.drop_first()));
            crate::strutil::lemma_trim_start_noop(line2.drop_first());
            assert(trim_start(line2)[0] == '=');
        }
    }
    // Exactly one `=`, at position `cl + 1`.
    assert(eq_split_at(line2, cl + 1)) by {
        assert(no_eq(line2.take(cl + 1))) by {
            assert forall|j: int| 0 <= j < cl + 1 implies #[trigger] line2.take(cl + 1)[j]
                != '=' by {
                assert(line2.take(cl + 1)[j] == line2[j]);
            }
        }
        assert(no_eq(line2.skip(cl + 2))) by {
            assert forall|j: int|
                0 <= j < line2.len() - cl - 2 implies #[trigger] line2.skip(cl + 2)[j] != '=' by {
                assert(line2.skip(cl + 2)[j] == line2[cl + 2 + j]);
            }
        }
    }
    assert(has_split(line2));
    lemma_split_unique(line2, split_index(line2), cl + 1);
    // The left side trims back to the chord spec alone.
    assert(spec_combo_of(line2) == c) by {
        let u2 = line2.take(cl + 1);
        assert(u2 =~= c.push(' '));
        if c.len() > 0 {
            crate::strutil::lemma_trim_start_noop(u2);
            assert(u2.last() == ' ');
            assert(is_space(u2.last()));
            assert(u2.drop_last() =~= c);
            assert(trim_end(u2) == trim_end(u2.drop_last()));
            assert(trim_end(u2) == trim_end(c));
            crate::strutil::lemma_trim_end_noop(c);
        } else {
            assert(u2 =~= seq![' ']);
            assert(u2.len() == 1);
            assert(u2[0] == ' ');
            assert(is_space(u2[0]));
            assert(u2.drop_first() =~= Seq::<char>::empty());
            assert(trim_start(u2) == trim_start(u2.drop_first()));
            assert(trim_start(u2) =~= Seq::<char>::empty());
            assert(trim(u2) =~= Seq::<char>::empty());
        }
    }
    // The right side loses only its one leading space.
    assert(spec_command_of(line2) == m) by {
        let v2 = line2.skip(cl + 2);
        assert(v2 =~= seq![' '] + m);
        assert(v2[0] == ' ');
        assert(v2.drop_first() =~= m);
        assert(trim_start(v2) == trim_start(m));
        crate::strutil::lemma_trim_start_noop(m);
        crate::strutil::lemma_trim_end_noop(m);
    }
}

/// One scanning step: if the suffix at `p` starts with a symbol whose
/// remainder begins at `p2`, the accumulated prefix grows by that symbol.
proof fn lemma_step(
    s: Seq<char>,
    p: int,
    acc0: Seq<CharWithModifiers>,
    sym: CharWithModifiers,
    p2: int,
)
    requires
        0 <= p < p2 <= s.len(),
        chord_syms(s.skip(p)) == cons_sym(sym, chord_syms(s.skip(p2))),
        match chord_syms(s.skip(p)) {
            Some(rest) => chord_syms(s) == Some(acc0 + rest),
            None => chord_syms(s) is None,
        },
    ensures
        match chord_syms(s.skip(p2)) {
            Some(rest) => chord_syms(s) == Some(acc0.push(sym) + rest),
            None => chord_syms(s) is None,
        },
{
    match chord_syms(s.skip(p2)) {
        Some(rest) => {
            assert(chord_syms(s.skip(p)) == Some(seq![sym] + rest));
            assert(acc0 + (seq![sym] + rest) =~= acc0.push(sym) + rest);
        },
        None => {},
    }
}

} // verus!
