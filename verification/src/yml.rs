//! The configuration data model: named leaders with their trigger keys
//! and raw combo text, plain keybinds, and profiles guarded by
//! conditions.  Loading these from disk is the caller's business; the
//! types here carry only plain values.
use vstd::prelude::*;

use crate::strutil::{find_char, lemma_find_char, str_chars, str_eq, str_views, string_of_chars};

verus! {

/// The whole global configuration: top-level keybinds and leaders, plus
/// conditional profiles.
pub struct GlobalConfig {
    pub global: Option<Global>,
    pub profiles: Option<Vec<Profile>>,
}

/// A per-directory configuration: inherited profile names and local
/// keybinds.
pub struct LocalConfig {
    pub inherits: Option<Vec<String>>,
    pub keybinds: Option<Vec<Keybind>>,
}

/// The `global:` section: keybinds that always apply, and the leaders.
pub struct Global {
    pub keybinds: Vec<Keybind>,
    pub leader_keys: Option<Vec<LeaderKeys>>,
}

/// A named group of keybinds that applies only where its conditions hold.
pub struct Profile {
    pub name: String,
    pub keybinds: Option<Vec<Keybind>>,
    pub conditions: Option<Vec<Condition>>,
}

/// A reason for a profile to apply: a glob that matches something, or the
/// working directory lying within a directory.
pub enum Condition {
    Glob { glob: String },
    Within { within: String },
}

/// One leader: its name, the trigger specs of its two activation modes,
/// and the raw combo text its trie is built from.
pub struct LeaderKeys {
    pub name: String,
    pub exec_mode: String,
    pub abbr_mode: String,
    pub combos: String,
}

/// One keybind: the key spec and either a command or a zle widget.
pub struct Keybind {
    pub key: String,
    pub command: Option<String>,
    pub zle: Option<String>,
    pub raw: Option<bool>,
}


/// The raw `/`-separated segments of a path string.
pub open spec fn spec_split_slash(s: Seq<char>) -> Seq<Seq<char>>
    decreases s.len(),
{
    match find_char(s, '/') {
        None => seq![s],
        Some(i) => if 0 <= i < s.len() {
            seq![s.take(i)] + spec_split_slash(s.skip(i + 1))
        } else {
            seq![s]
        },
    }
}

/// Whether a raw segment names a real path component: not empty, not the
/// current-directory dot.
pub open spec fn spec_keep_seg(seg: Seq<char>) -> bool {
    seg.len() > 0 && seg != seq!['.']
}

/// Only the real components of a segment list.
pub open spec fn spec_filter_segs(ss: Seq<Seq<char>>) -> Seq<Seq<char>>
    decreases ss.len(),
{
    if ss.len() == 0 {
        Seq::empty()
    } else {
        (if spec_keep_seg(ss[0]) {
            seq![ss[0]]
        } else {
            Seq::<Seq<char>>::empty()
        }) + spec_filter_segs(ss.drop_first())
    }
}

/// Resolves parent-directory components against what stands before them;
/// a `..` with nothing to remove fails.
pub open spec fn spec_resolve(segs: Seq<Seq<char>>, acc: Seq<Seq<char>>) -> Option<Seq<Seq<char>>>
    decreases segs.len(),
{
    if segs.len() == 0 {
        Some(acc)
    } else if segs[0] == seq!['.', '.'] {
        if acc.len() == 0 {
            None
        } else {
            spec_resolve(segs.drop_first(), acc.drop_last())
        }
    } else {
        spec_resolve(segs.drop_first(), acc.push(segs[0]))
    }
}

/// A path in normal form: whether it is absolute, and its components
/// with dots resolved away.  `..` past the start yields nothing.
pub open spec fn spec_normalize(s: Seq<char>) -> Option<(bool, Seq<Seq<char>>)> {
    let abs = s.len() > 0 && s[0] == '/';
    match spec_resolve(spec_filter_segs(spec_split_slash(s)), Seq::empty()) {
        Some(segs) => Some((abs, segs)),
        None => None,
    }
}

/// Whether the normalized `dir` lies within the normalized `within`:
/// both normalize, agree on absoluteness, and `within`'s components are
/// a prefix of `dir`'s.
pub open spec fn spec_within(dir: Seq<char>, within: Seq<char>) -> bool {
    match (spec_normalize(dir), spec_normalize(within)) {
        (Some(d), Some(w)) => d.0 == w.0 && w.1.len() <= d.1.len() && d.1.take(w.1.len() as int)
            == w.1,
        _ => false,
    }
}

/// Splits a path into its raw `/`-separated segments.
fn split_slash(s: &str) -> (r: Vec<String>)
    ensures
        str_views(r@) == spec_split_slash(s@),
{
    let n = s.unicode_len();
    let chars = str_chars(s);
    let mut r: Vec<String> = Vec::new();
    let mut p: usize = 0;
    proof {
        assert(s@.skip(0) =~= s@);
        assert(str_views(r@) =~= Seq::<Seq<char>>::empty());
    }
    loop
        invariant
            p <= n,
            n == s@.len(),
            chars@ == s@,
            spec_split_slash(s@) =~= str_views(r@) + spec_split_slash(s@.skip(p as int)),
        decreases n - p,
    {
        let ghost su = s@.skip(p as int);
        let mut q: usize = p;
        let mut found: bool = false;
        while q < n && !found
            invariant
                p <= q <= n,
                n == s@.len(),
                chars@ == s@,
                found ==> q < n && s@[q as int] == '/',
                forall|j: int| p <= j < q ==> s@[j] != '/',
            decreases n - q + (if found { 0int } else { 1int }),
        {
            if chars[q] == '/' {
                found = true;
            } else {
                q = q + 1;
            }
        }
        proof {
            lemma_find_char(su, '/');
            assert(forall|j: int| 0 <= j < su.len() ==> su[j] == s@[p + j]);
        }
        let ghost r0 = r@;
        if found {
            proof {
                match find_char(su, '/') {
                    Some(i) => {
                        if i < q - p {
                            assert(s@[p + i] == '/');
                            assert(false);
                        } else if i > q - p {
                            assert(su[q - p] != '/');
                            assert(false);
                        }
                    },
                    None => {
                        assert(su[q - p] != '/');
                        assert(false);
                    },
                }
                assert(find_char(su, '/') == Some(q - p));
                assert(su.take(q - p) =~= s@.subrange(p as int, q as int));
                assert(su.skip(q - p + 1) =~= s@.skip(q as int + 1));
            }
            r.push(s.substring_char(p, q).to_owned());
            proof {
                let sv = str_views(r@);
                let sv0 = str_views(r0);
                assert forall|j: int| 0 <= j < sv.len() implies #[trigger] sv[j] == (sv0
                    + seq![s@.subrange(p as int, q as int)])[j] by {
                    assert(sv[j] == r@[j]@);
                    if j < r0.len() {
                        assert(r@[j] == r0[j]);
                        assert(sv0[j] == r0[j]@);
                    }
                }
                assert(sv =~= sv0 + seq![s@.subrange(p as int, q as int)]);
                assert(spec_split_slash(su) == seq![su.take(q - p)] + spec_split_slash(
                    s@.skip(q as int + 1),
                ));
            }
            p = q + 1;
        } else {
            proof {
                match find_char(su, '/') {
                    Some(i) => {
                        assert(s@[p + i] == '/');
                        assert(false);
                    },
                    None => {},
                }
                assert(spec_split_slash(su) == seq![su]);
                assert(su =~= s@.subrange(p as int, n as int));
            }
            r.push(s.substring_char(p, n).to_owned());
            proof {
                let sv = str_views(r@);
                let sv0 = str_views(r0);
                assert forall|j: int| 0 <= j < sv.len() implies #[trigger] sv[j] == (sv0
                    + seq![su])[j] by {
                    assert(sv[j] == r@[j]@);
                    if j < r0.len() {
                        assert(r@[j] == r0[j]);
                        assert(sv0[j] == r0[j]@);
                    }
                }
                assert(sv =~= sv0 + seq![su]);
                assert(str_views(r@) =~= spec_split_slash(s@));
            }
            return r;
        }
    }
}

/// Normalizes a path string: splits it, drops empty and `.` components,
/// resolves `..` against the stack, and reports whether it was absolute.
/// Fails where `..` would climb past the start.
pub fn normalize_path(path: &str) -> (r: Option<(bool, Vec<String>)>)
    ensures
        match r {
            Some(p) => spec_normalize(path@) == Some((p.0, str_views(p.1@))),
            None => spec_normalize(path@) is None,
        },
{
    let n = path.unicode_len();
    let abs = if n > 0 {
        path.get_char(0) == '/'
    } else {
        false
    };
    let raw = split_slash(path);
    // Keep only real components.
    let mut segs: Vec<String> = Vec::new();
    proof {
        assert(str_views(raw@).skip(0) =~= str_views(raw@));
        assert(str_views(segs@) =~= Seq::<Seq<char>>::empty());
    }
    let mut i: usize = 0;
    while i < raw.len()
        invariant
            i <= raw@.len(),
            str_views(segs@) + spec_filter_segs(str_views(raw@).skip(i as int))
                =~= spec_filter_segs(str_views(raw@)),
        decreases raw@.len() - i,
    {
        let ghost rv = str_views(raw@);
        proof {
            assert(rv.skip(i as int)[0] == rv[i as int]);
            assert(rv[i as int] == raw@[i as int]@);
            assert(rv.skip(i as int).drop_first() =~= rv.skip(i as int + 1));
        }
        let seg = &raw[i];
        let keep = seg.unicode_len() > 0 && !str_eq(seg.as_str(), ".");
        proof {
            reveal_strlit(".");
            assert("."@ =~= seq!['.']);
            assert(keep == spec_keep_seg(rv[i as int]));
        }
        if keep {
            let ghost segs0 = segs@;
            segs.push(seg.clone());
            proof {
                let sv = str_views(segs@);
                let sv0 = str_views(segs0);
                assert forall|j: int| 0 <= j < sv.len() implies #[trigger] sv[j] == (sv0
                    + seq![rv[i as int]])[j] by {
                    assert(sv[j] == segs@[j]@);
                    if j < segs0.len() {
                        assert(segs@[j] == segs0[j]);
                        assert(sv0[j] == segs0[j]@);
                    }
                }
                assert(sv =~= sv0 + seq![rv[i as int]]);
            }
        }
        i = i + 1;
        proof {
            assert(str_views(segs@) + spec_filter_segs(rv.skip(i as int)) =~= spec_filter_segs(
                rv,
            ));
        }
    }
    proof {
        let rv = str_views(raw@);
        assert(rv.skip(rv.len() as int) =~= Seq::<Seq<char>>::empty());
        assert(spec_filter_segs(rv.skip(rv.len() as int)) =~= Seq::<Seq<char>>::empty());
        assert(str_views(segs@) =~= spec_filter_segs(rv));
    }
    // Resolve the dot-dots.
    let mut acc: Vec<String> = Vec::new();
    proof {
        assert(str_views(segs@).skip(0) =~= str_views(segs@));
        assert(str_views(acc@) =~= Seq::<Seq<char>>::empty());
        assert(spec_resolve(str_views(segs@), Seq::empty()) == spec_resolve(
            str_views(segs@).skip(0),
            str_views(acc@),
        ));
    }
    let mut k: usize = 0;
    while k < segs.len()
        invariant
            k <= segs@.len(),
            str_views(segs@) == spec_filter_segs(spec_split_slash(path@)),
            spec_resolve(str_views(segs@), Seq::empty()) == spec_resolve(
                str_views(segs@).skip(k as int),
                str_views(acc@),
            ),
        decreases segs@.len() - k,
    {
        let ghost sv = str_views(segs@);
        proof {
            assert(sv.skip(k as int)[0] == sv[k as int]);
            assert(sv[k as int] == segs@[k as int]@);
            assert(sv.skip(k as int).drop_first() =~= sv.skip(k as int + 1));
        }
        let seg = &segs[k];
        if str_eq(seg.as_str(), "..") {
            proof {
                reveal_strlit("..");
                assert(".."@ =~= seq!['.', '.']);
            }
            let ghost acc0 = acc@;
            match acc.pop() {
                Some(_) => {
                    proof {
                        assert(acc@ =~= acc0.drop_last());
                        let av = str_views(acc@);
                        let av0 = str_views(acc0);
                        assert forall|j: int|
                            0 <= j < av.len() implies #[trigger] av[j] == av0.drop_last()[j] by {
                            assert(av[j] == acc@[j]@);
                            assert(acc@[j] == acc0[j]);
                            assert(av0[j] == acc0[j]@);
                        }
                        assert(av =~= av0.drop_last());
                    }
                },
                None => {
                    proof {
                        assert(str_views(acc0).len() == 0);
                        assert(sv.skip(k as int)[0] == seq!['.', '.']);
                        assert(spec_resolve(sv.skip(k as int), str_views(acc0)) is None);
                        assert(spec_resolve(str_views(segs@), Seq::empty()) == spec_resolve(
                            sv.skip(k as int),
                            str_views(acc0),
                        ));
                        assert(spec_resolve(str_views(segs@), Seq::empty()) is None);
                        assert(str_views(segs@) == spec_filter_segs(spec_split_slash(path@)));
                        assert(spec_resolve(
                            spec_filter_segs(spec_split_slash(path@)),
                            Seq::empty(),
                        ) is None);
                        assert(spec_normalize(path@) is None);
                    }
                    return None;
                },
            }
        } else {
            proof {
                reveal_strlit("..");
                assert(".."@ =~= seq!['.', '.']);
            }
            let ghost acc0 = acc@;
            acc.push(seg.clone());
            proof {
                let av = str_views(acc@);
                let av0 = str_views(acc0);
                assert forall|j: int| 0 <= j < av.len() implies #[trigger] av[j] == av0.push(
                    sv[k as int],
                )[j] by {
                    assert(av[j] == acc@[j]@);
                    if j < acc0.len() {
                        assert(acc@[j] == acc0[j]);
                        assert(av0[j] == acc0[j]@);
                    }
                }
                assert(av =~= av0.push(sv[k as int]));
            }
        }
        k = k + 1;
    }
    proof {
        let sv = str_views(segs@);
        assert(sv.skip(sv.len() as int) =~= Seq::<Seq<char>>::empty());
        assert(spec_resolve(sv.skip(sv.len() as int), str_views(acc@)) == Some(str_views(acc@)));
        assert(spec_resolve(str_views(segs@), Seq::empty()) == Some(str_views(acc@)));
        assert(str_views(segs@) == spec_filter_segs(spec_split_slash(path@)));
        assert(spec_resolve(spec_filter_segs(spec_split_slash(path@)), Seq::empty()) == Some(
            str_views(acc@),
        ));
        assert(spec_normalize(path@) == Some((abs, str_views(acc@))));
    }
    Some((abs, acc))
}

/// Whether one already-expanded path lies within another.
pub fn is_within_dir_expanded(dir: &str, within: &str) -> (r: bool)
    ensures
        r == spec_within(dir@, within@),
{
    let nd = normalize_path(dir);
    let nw = normalize_path(within);
    match (nd, nw) {
        (Some((da, ds)), Some((wa, ws))) => {
            proof {
                assert(str_views(ds@).len() == ds@.len());
                assert(str_views(ws@).len() == ws@.len());
                assert(spec_normalize(dir@) == Some((da, str_views(ds@))));
                assert(spec_normalize(within@) == Some((wa, str_views(ws@))));
            }
            if da != wa {
                return false;
            }
            if ws.len() > ds.len() {
                return false;
            }
            let mut j: usize = 0;
            while j < ws.len()
                invariant
                    j <= ws@.len(),
                    ws@.len() <= ds@.len(),
                    spec_normalize(dir@) == Some((da, str_views(ds@))),
                    spec_normalize(within@) == Some((wa, str_views(ws@))),
                    da == wa,
                    forall|x: int|
                        0 <= x < j ==> #[trigger] str_views(ds@)[x] == str_views(ws@)[x],
                decreases ws@.len() - j,
            {
                proof {
                    assert(str_views(ds@)[j as int] == ds@[j as int]@);
                    assert(str_views(ws@)[j as int] == ws@[j as int]@);
                }
                if !str_eq(ds[j].as_str(), ws[j].as_str()) {
                    proof {
                        if str_views(ds@).take(str_views(ws@).len() as int) == str_views(ws@) {
                            assert(str_views(ds@).take(str_views(ws@).len() as int)[j as int]
                                == str_views(ds@)[j as int]);
                            assert(false);
                        }
                    }
                    return false;
                }
                j = j + 1;
            }
            proof {
                assert(str_views(ds@).take(str_views(ws@).len() as int) =~= str_views(ws@));
            }
            true
        },
        _ => false,
    }
}

/// Relies on `shellexpand::tilde`: an input that does not start with a
/// tilde comes back unchanged; a leading `~` followed by `/` or the end
/// of the string is replaced by the home directory where one is known,
/// and otherwise the input comes back unchanged.
#[verifier::external_body]
fn tilde_expand(s: &str) -> (r: String)
    ensures
        (s@.len() == 0 || s@[0] != '~') ==> r@ == s@,
        r@ == s@ || (s@.len() >= 1 && s@[0] == '~' && exists|hd: Seq<char>| r@ == hd + s@.skip(1)),
{
    shellexpand::tilde(s).into_owned()
}

/// Whether the current directory lies within a configured directory,
/// after expanding a leading tilde on both sides.
pub fn is_within_dir(dir: &str, within: &str) -> (r: bool)
    ensures
        (dir@.len() == 0 || dir@[0] != '~') && (within@.len() == 0 || within@[0] != '~') ==> r
            == spec_within(dir@, within@),
{
    let d = tilde_expand(dir);
    let w = tilde_expand(within);
    is_within_dir_expanded(d.as_str(), w.as_str())
}

/// A leader name with every space turned into an underscore.
pub open spec fn spec_sanitize(s: Seq<char>) -> Seq<char> {
    s.map_values(
        |c: char|
            if c == ' ' {
                '_'
            } else {
                c
            },
    )
}

impl LeaderKeys {
    /// The raw configured name.
    pub open spec fn spec_name(self) -> Seq<char> {
        self.name@
    }

    pub fn new(name: String, exec_mode: String, abbr_mode: String, combos: String) -> (r:
        LeaderKeys)
        ensures
            r.spec_name() == name@,
            r.exec_mode@ == exec_mode@,
            r.abbr_mode@ == abbr_mode@,
            r.combos@ == combos@,
    {
        LeaderKeys { name, exec_mode, abbr_mode, combos }
    }

    /// The name as used in shell function names and state strings.
    pub fn sanitized_name(&self) -> (r: String)
        ensures
            r@ == spec_sanitize(self.spec_name()),
    {
        let chars = str_chars(self.name.as_str());
        let mut out: Vec<char> = Vec::new();
        let mut i: usize = 0;
        while i < chars.len()
            invariant
                i <= chars@.len(),
                out@ =~= spec_sanitize(chars@.take(i as int)),
            decreases chars@.len() - i,
        {
            let c = chars[i];
            if c == ' ' {
                out.push('_');
            } else {
                out.push(c);
            }
            i = i + 1;
            proof {
                assert(out@ =~= spec_sanitize(chars@.take(i as int)));
            }
        }
        proof {
            assert(chars@.take(chars@.len() as int) =~= chars@);
        }
        string_of_chars(&out)
    }
}

} // verus!
