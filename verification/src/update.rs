//! Release versions and the choice of the newest eligible release.
use vstd::prelude::*;
use std::cmp::Ordering;
use vstd::string::StrSliceExecFns;
use crate::text::{
    after_char, before_char, chars_of, find_char_in, is_ascii_alnum, parse_u64, parse_u64_chars,
    pieces, split_on, split_ranges, trim, trim_str,
};

verus! {

/// A version read from a tag: three numbers and the dot-separated
/// pre-release identifiers.
pub struct ParsedVersion {
    pub core: [u64; 3],
    pub prerelease: Vec<String>,
}

impl View for ParsedVersion {
    type V = (Seq<u64>, Seq<Seq<char>>);

    open spec fn view(&self) -> (Seq<u64>, Seq<Seq<char>>) {
        (self.core@, self.prerelease@.map_values(|s: String| s@))
    }
}

/// A release as the GitHub API lists it.
pub struct GitHubRelease {
    pub tag_name: Option<String>,
    pub html_url: Option<String>,
    pub draft: bool,
    pub prerelease: bool,
}

/// A newer release: its version without the leading `v`, and its page.
pub struct UpdateInfo {
    pub version: String,
    pub url: String,
}

/// The version text: trimmed, without one leading `v`.
pub open spec fn version_text(s: Seq<char>) -> Seq<char> {
    let t = trim(s);
    if t.len() > 0 && t[0] == 'v' {
        t.drop_first()
    } else {
        t
    }
}

/// A pre-release identifier: not empty, of ASCII letters, digits and `-`.
pub open spec fn valid_identifier(p: Seq<char>) -> bool {
    p.len() > 0 && forall|i: int| 0 <= i < p.len() ==> is_ascii_alnum(#[trigger] p[i]) || p[i] == '-'
}

/// The version that `s` names: `MAJOR.MINOR.PATCH`, each a `u64`, then
/// optionally `-` and dot-separated identifiers, then optionally `+` and
/// build metadata, which is ignored.
pub open spec fn parsed_version(s: Seq<char>) -> Option<(Seq<u64>, Seq<Seq<char>>)> {
    let value = before_char(version_text(s), '+');
    let core = before_char(value, '-');
    let pre = after_char(value, '-');
    let parts = split_on(core, '.');
    if parts.len() != 3 || parse_u64(parts[0]) is None || parse_u64(parts[1]) is None || parse_u64(
        parts[2],
    ) is None {
        None
    } else if pre.len() == 0 && value.len() > 0 && value.last() == '-' {
        None
    } else {
        let nums = seq![
            parse_u64(parts[0]).unwrap(),
            parse_u64(parts[1]).unwrap(),
            parse_u64(parts[2]).unwrap(),
        ];
        if pre.len() == 0 {
            Some((nums, Seq::empty()))
        } else {
            let ids = split_on(pre, '.');
            if forall|k: int| 0 <= k < ids.len() ==> valid_identifier(#[trigger] ids[k]) {
                Some((nums, ids))
            } else {
                None
            }
        }
    }
}

/// Whether every character of `v[from..to]` may stand in an identifier.
fn identifier_chars(v: &[char], from: usize, to: usize) -> (r: bool)
    requires
        from <= to <= v.len(),
    ensures
        r == valid_identifier(v@.subrange(from as int, to as int)),
{
    if from == to {
        return false;
    }
    let mut i = from;
    while i < to
        invariant
            from <= i <= to <= v.len(),
            forall|k: int| from <= k < i ==> is_ascii_alnum(#[trigger] v@[k]) || v@[k] == '-',
        decreases to - i,
    {
        let c = v[i];
        if !(('0' <= c && c <= '9') || ('a' <= c && c <= 'z') || ('A' <= c && c <= 'Z') || c == '-') {
            proof {
                assert(v@.subrange(from as int, to as int)[i - from] == c);
            }
            return false;
        }
        i = i + 1;
    }
    proof {
        let p = v@.subrange(from as int, to as int);
        assert forall|k: int| 0 <= k < p.len() implies is_ascii_alnum(#[trigger] p[k]) || p[k] == '-' by {
            assert(p[k] == v@[from + k]);
        }
    }
    true
}

/// Reads a version as [`parsed_version`] describes it.
pub fn parse_version(value: &str) -> (r: Option<ParsedVersion>)
    ensures
        r is Some <==> parsed_version(value@) is Some,
        r matches Some(p) ==> parsed_version(value@) == Some(p@),
{
    let t = trim_str(value);
    let v = chars_of(t);
    let n = v.len();
    let start: usize = if n > 0 && v[0] == 'v' {
        1
    } else {
        0
    };
    let plus = find_char_in(v.as_slice(), start, n, '+');
    let dash = find_char_in(v.as_slice(), start, plus, '-');
    let ghost text = version_text(value@);
    let ghost val = before_char(text, '+');
    let ghost core = before_char(val, '-');
    let ghost pre = after_char(val, '-');
    proof {
        assert(text =~= v@.subrange(start as int, n as int));
        assert(val =~= v@.subrange(start as int, plus as int));
        assert(core =~= v@.subrange(start as int, dash as int));
        if dash < plus {
            assert(pre =~= v@.subrange(dash + 1, plus as int));
        } else {
            assert(pre =~= Seq::<char>::empty());
        }
    }
    let parts = split_ranges(v.as_slice(), start, dash, '.');
    proof {
        assert(pieces(v@, parts@) == split_on(core, '.'));
    }
    if parts.len() != 3 {
        return None;
    }
    let ghost ps = split_on(core, '.');
    proof {
        assert(ps[0] == v@.subrange(parts@[0].0 as int, parts@[0].1 as int));
        assert(ps[1] == v@.subrange(parts@[1].0 as int, parts@[1].1 as int));
        assert(ps[2] == v@.subrange(parts@[2].0 as int, parts@[2].1 as int));
    }
    let major = match parse_u64_chars(v.as_slice(), parts[0].0, parts[0].1) {
        Some(x) => x,
        None => return None,
    };
    let minor = match parse_u64_chars(v.as_slice(), parts[1].0, parts[1].1) {
        Some(x) => x,
        None => return None,
    };
    let patch = match parse_u64_chars(v.as_slice(), parts[2].0, parts[2].1) {
        Some(x) => x,
        None => return None,
    };
    let pre_empty = dash >= plus || dash + 1 == plus;
    if pre_empty && plus > start && v[plus - 1] == '-' {
        proof {
            assert(val.last() == v@[plus - 1]);
        }
        return None;
    }
    let core_nums: [u64; 3] = [major, minor, patch];
    let mut prerelease: Vec<String> = Vec::new();
    if !pre_empty {
        let ranges = split_ranges(v.as_slice(), dash + 1, plus, '.');
        let ghost ids = split_on(pre, '.');
        proof {
            assert(pieces(v@, ranges@) == ids);
            assert(pre.len() > 0);
            assert(parsed_version(value@) is Some ==> forall|q: int|
                0 <= q < ids.len() ==> valid_identifier(#[trigger] ids[q]));
        }
        let mut k: usize = 0;
        while k < ranges.len()
            invariant
                t@ == v@,
                n == v@.len(),
                dash + 1 <= plus <= n,
                pieces(v@, ranges@) == ids,
                forall|q: int|
                    0 <= q < ranges@.len() ==> dash + 1 <= (#[trigger] ranges@[q]).0 <= ranges@[q].1
                        <= plus,
                k <= ranges@.len(),
                prerelease@.len() == k,
                forall|q: int| 0 <= q < k ==> #[trigger] prerelease@[q]@ == ids[q],
                forall|q: int| 0 <= q < k ==> valid_identifier(#[trigger] ids[q]),
                parsed_version(value@) is Some ==> forall|q: int|
                    0 <= q < ids.len() ==> valid_identifier(#[trigger] ids[q]),
            decreases ranges@.len() - k,
        {
            let (a, b) = ranges[k];
            proof {
                assert(ids[k as int] == v@.subrange(a as int, b as int));
            }
            if !identifier_chars(v.as_slice(), a, b) {
                return None;
            }
            let piece = t.substring_char(a, b);
            prerelease.push(String::from_str(piece));
            k = k + 1;
        }
        proof {
            assert(prerelease@.map_values(|s: String| s@) =~= ids);
        }
    } else {
        proof {
            assert(pre.len() == 0);
            assert(prerelease@.map_values(|s: String| s@) =~= Seq::<Seq<char>>::empty());
        }
    }
    let r = ParsedVersion { core: core_nums, prerelease };
    proof {
        assert(r.core@ =~= seq![major, minor, patch]);
    }
    Some(r)
}


/// `-1`, `0` or `1` as `a` is below, equal to or above `b`.
pub open spec fn sign_of(a: int, b: int) -> int {
    if a < b {
        -1
    } else if a == b {
        0
    } else {
        1
    }
}

/// Lexicographic precedence of two texts by their characters, which is the
/// order of their UTF-8 bytes.
pub open spec fn text_precedence(a: Seq<char>, b: Seq<char>) -> int
    decreases a.len(),
{
    if a.len() == 0 {
        if b.len() == 0 {
            0
        } else {
            -1
        }
    } else if b.len() == 0 {
        1
    } else if a[0] != b[0] {
        sign_of(a[0] as int, b[0] as int)
    } else {
        text_precedence(a.drop_first(), b.drop_first())
    }
}

/// Precedence of two different pre-release identifiers: numbers by value,
/// a number below a word, words by text.
pub open spec fn identifier_precedence(a: Seq<char>, b: Seq<char>) -> int {
    match (parse_u64(a), parse_u64(b)) {
        (Some(x), Some(y)) => sign_of(x as int, y as int),
        (Some(_), None) => -1,
        (None, Some(_)) => 1,
        (None, None) => text_precedence(a, b),
    }
}

/// Precedence of two pre-release lists: the first identifiers that differ
/// decide, else the shorter list comes first.
pub open spec fn prerelease_precedence(a: Seq<Seq<char>>, b: Seq<Seq<char>>) -> int
    decreases a.len(),
{
    if a.len() == 0 || b.len() == 0 {
        sign_of(a.len() as int, b.len() as int)
    } else if a[0] == b[0] {
        prerelease_precedence(a.drop_first(), b.drop_first())
    } else {
        identifier_precedence(a[0], b[0])
    }
}

/// Precedence of two versions: the numbers first, then a release above any
/// pre-release of the same numbers, then the pre-release identifiers.
pub open spec fn version_precedence(l: (Seq<u64>, Seq<Seq<char>>), r: (Seq<u64>, Seq<Seq<char>>)) -> int {
    if l.0[0] != r.0[0] {
        sign_of(l.0[0] as int, r.0[0] as int)
    } else if l.0[1] != r.0[1] {
        sign_of(l.0[1] as int, r.0[1] as int)
    } else if l.0[2] != r.0[2] {
        sign_of(l.0[2] as int, r.0[2] as int)
    } else if l.1.len() == 0 || r.1.len() == 0 {
        sign_of(
            if l.1.len() == 0 {
                1
            } else {
                0
            },
            if r.1.len() == 0 {
                1
            } else {
                0
            },
        )
    } else {
        prerelease_precedence(l.1, r.1)
    }
}

/// The ordering that a precedence value stands for.
pub open spec fn ordering_of(p: int) -> Ordering {
    if p < 0 {
        Ordering::Less
    } else if p == 0 {
        Ordering::Equal
    } else {
        Ordering::Greater
    }
}

fn sign_u64(a: u64, b: u64) -> (r: i8)
    ensures
        r == sign_of(a as int, b as int),
{
    if a < b {
        -1
    } else if a == b {
        0
    } else {
        1
    }
}

pub(crate) fn text_precedence_of(a: &str, b: &str) -> (r: i8)
    ensures
        r == text_precedence(a@, b@),
{
    let va = chars_of(a);
    let vb = chars_of(b);
    let mut i: usize = 0;
    proof {
        assert(a@.skip(0) =~= a@);
        assert(b@.skip(0) =~= b@);
    }
    while i < va.len() && i < vb.len() && va[i] == vb[i]
        invariant
            va@ == a@,
            vb@ == b@,
            i <= va.len(),
            i <= vb.len(),
            text_precedence(a@, b@) == text_precedence(a@.skip(i as int), b@.skip(i as int)),
        decreases va.len() - i,
    {
        proof {
            let sa = a@.skip(i as int);
            let sb = b@.skip(i as int);
            assert(sa.drop_first() =~= a@.skip(i + 1));
            assert(sb.drop_first() =~= b@.skip(i + 1));
        }
        i = i + 1;
    }
    let ghost sa = a@.skip(i as int);
    let ghost sb = b@.skip(i as int);
    if i == va.len() {
        if i == vb.len() {
            0
        } else {
            -1
        }
    } else if i == vb.len() {
        1
    } else {
        proof {
            assert(sa[0] == va@[i as int]);
            assert(sb[0] == vb@[i as int]);
        }
        if va[i] < vb[i] {
            -1
        } else {
            1
        }
    }
}

fn identifier_precedence_of(a: &String, b: &String) -> (r: i8)
    ensures
        r == identifier_precedence(a@, b@),
{
    let va = chars_of(a.as_str());
    let vb = chars_of(b.as_str());
    proof {
        assert(va@.subrange(0, va@.len() as int) =~= a@);
        assert(vb@.subrange(0, vb@.len() as int) =~= b@);
    }
    let na = parse_u64_chars(va.as_slice(), 0, va.len());
    let nb = parse_u64_chars(vb.as_slice(), 0, vb.len());
    match (na, nb) {
        (Some(x), Some(y)) => sign_u64(x, y),
        (Some(_), None) => -1,
        (None, Some(_)) => 1,
        (None, None) => text_precedence_of(a.as_str(), b.as_str()),
    }
}

/// The precedence of two versions as `-1`, `0` or `1`.
pub fn version_precedence_of(left: &ParsedVersion, right: &ParsedVersion) -> (r: i8)
    ensures
        r == version_precedence(left@, right@),
{
    if left.core[0] != right.core[0] {
        return sign_u64(left.core[0], right.core[0]);
    }
    if left.core[1] != right.core[1] {
        return sign_u64(left.core[1], right.core[1]);
    }
    if left.core[2] != right.core[2] {
        return sign_u64(left.core[2], right.core[2]);
    }
    let ln = left.prerelease.len();
    let rn = right.prerelease.len();
    if ln == 0 || rn == 0 {
        let a: u64 = if ln == 0 {
            1
        } else {
            0
        };
        let b: u64 = if rn == 0 {
            1
        } else {
            0
        };
        return sign_u64(a, b);
    }
    let ghost la = left@.1;
    let ghost ra = right@.1;
    let mut i: usize = 0;
    proof {
        assert(la.skip(0) =~= la);
        assert(ra.skip(0) =~= ra);
    }
    while i < ln && i < rn
        invariant
            ln == left.prerelease@.len(),
            rn == right.prerelease@.len(),
            la == left@.1,
            ra == right@.1,
            i <= ln,
            i <= rn,
            prerelease_precedence(la, ra) == prerelease_precedence(la.skip(i as int), ra.skip(i as int)),
            version_precedence(left@, right@) == prerelease_precedence(la, ra),
        decreases ln - i,
    {
        let same = left.prerelease[i] == right.prerelease[i];
        let ghost sa = la.skip(i as int);
        let ghost sb = ra.skip(i as int);
        proof {
            assert(sa[0] == left.prerelease@[i as int]@);
            assert(sb[0] == right.prerelease@[i as int]@);
        }
        if !same {
            return identifier_precedence_of(&left.prerelease[i], &right.prerelease[i]);
        }
        proof {
            assert(sa.drop_first() =~= la.skip(i + 1));
            assert(sb.drop_first() =~= ra.skip(i + 1));
        }
        i = i + 1;
    }
    sign_u64(ln as u64, rn as u64)
}

/// Pre-release lists are ordered by their first differing identifier:
/// numeric identifiers by value, a numeric one below a word; and a list that
/// is a proper prefix of the other comes first. `k` is the length of a
/// common prefix.
pub proof fn lemma_prerelease_order(a: Seq<Seq<char>>, b: Seq<Seq<char>>, k: int)
    requires
        0 <= k <= a.len(),
        k <= b.len(),
        forall|i: int| 0 <= i < k ==> #[trigger] a[i] == b[i],
    ensures
        k == a.len() && k < b.len() ==> prerelease_precedence(a, b) < 0,
        k < a.len() && k == b.len() ==> prerelease_precedence(a, b) > 0,
        k == a.len() && k == b.len() ==> prerelease_precedence(a, b) == 0,
        k < a.len() && k < b.len() && a[k] != b[k] && parse_u64(a[k]) is Some && parse_u64(b[k]) is Some
            && parse_u64(a[k]).unwrap() < parse_u64(b[k]).unwrap() ==> prerelease_precedence(a, b) < 0,
        k < a.len() && k < b.len() && a[k] != b[k] && parse_u64(a[k]) is Some && parse_u64(b[k]) is Some
            && parse_u64(a[k]).unwrap() > parse_u64(b[k]).unwrap() ==> prerelease_precedence(a, b) > 0,
        k < a.len() && k < b.len() && a[k] != b[k] && parse_u64(a[k]) is Some && parse_u64(b[k]) is None
            ==> prerelease_precedence(a, b) < 0,
        k < a.len() && k < b.len() && a[k] != b[k] && parse_u64(a[k]) is None && parse_u64(b[k]) is Some
            ==> prerelease_precedence(a, b) > 0,
    decreases k,
{
    if k > 0 {
        assert(a[0] == b[0]);
        let a1 = a.drop_first();
        let b1 = b.drop_first();
        assert forall|i: int| 0 <= i < k - 1 implies #[trigger] a1[i] == b1[i] by {
            assert(a[i + 1] == b[i + 1]);
        }
        lemma_prerelease_order(a1, b1, k - 1);
        assert(a1.len() == a.len() - 1 && b1.len() == b.len() - 1);
        if k < a.len() && k < b.len() {
            assert(a1[k - 1] == a[k] && b1[k - 1] == b[k]);
        }
    }
}

/// Versions are ordered by their major, then minor, then patch numbers;
/// where all three agree, a release outranks its pre-releases.
pub proof fn lemma_version_core_order(l: (Seq<u64>, Seq<Seq<char>>), r: (Seq<u64>, Seq<Seq<char>>))
    ensures
        l.0[0] < r.0[0] ==> version_precedence(l, r) < 0,
        l.0[0] > r.0[0] ==> version_precedence(l, r) > 0,
        l.0[0] == r.0[0] && l.0[1] < r.0[1] ==> version_precedence(l, r) < 0,
        l.0[0] == r.0[0] && l.0[1] > r.0[1] ==> version_precedence(l, r) > 0,
        l.0[0] == r.0[0] && l.0[1] == r.0[1] && l.0[2] < r.0[2] ==> version_precedence(l, r) < 0,
        l.0[0] == r.0[0] && l.0[1] == r.0[1] && l.0[2] > r.0[2] ==> version_precedence(l, r) > 0,
        l.0[0] == r.0[0] && l.0[1] == r.0[1] && l.0[2] == r.0[2] && l.1.len() == 0 && r.1.len() > 0
            ==> version_precedence(l, r) > 0,
        l.0[0] == r.0[0] && l.0[1] == r.0[1] && l.0[2] == r.0[2] && l.1.len() > 0 && r.1.len() == 0
            ==> version_precedence(l, r) < 0,
        l.0[0] == r.0[0] && l.0[1] == r.0[1] && l.0[2] == r.0[2] && l.1.len() == 0 && r.1.len() == 0
            ==> version_precedence(l, r) == 0,
        l.0[0] == r.0[0] && l.0[1] == r.0[1] && l.0[2] == r.0[2] && l.1.len() > 0 && r.1.len() > 0
            ==> version_precedence(l, r) == prerelease_precedence(l.1, r.1),
{
}

/// The order of two versions: by major, then minor, then patch number, a
/// release above its pre-releases.
pub fn compare_versions(left: &ParsedVersion, right: &ParsedVersion) -> (r: Ordering)
    ensures
        r == ordering_of(version_precedence(left@, right@)),
        left@.0[0] < right@.0[0] ==> r == Ordering::Less,
        left@.0[0] > right@.0[0] ==> r == Ordering::Greater,
        left@.0[0] == right@.0[0] && left@.0[1] < right@.0[1] ==> r == Ordering::Less,
        left@.0[0] == right@.0[0] && left@.0[1] > right@.0[1] ==> r == Ordering::Greater,
        left@.0[0] == right@.0[0] && left@.0[1] == right@.0[1] && left@.0[2] < right@.0[2] ==> r == Ordering::Less,
        left@.0[0] == right@.0[0] && left@.0[1] == right@.0[1] && left@.0[2] > right@.0[2]
            ==> r == Ordering::Greater,
{
    proof {
        lemma_version_core_order(left@, right@);
    }
    let p = version_precedence_of(left, right);
    if p < 0 {
        Ordering::Less
    } else if p == 0 {
        Ordering::Equal
    } else {
        Ordering::Greater
    }
}


proof fn lemma_text_precedence_antisymmetric(a: Seq<char>, b: Seq<char>)
    ensures
        text_precedence(a, b) == -text_precedence(b, a),
    decreases a.len(),
{
    if a.len() > 0 && b.len() > 0 && a[0] == b[0] {
        lemma_text_precedence_antisymmetric(a.drop_first(), b.drop_first());
    }
}

proof fn lemma_text_precedence_reflexive(a: Seq<char>)
    ensures
        text_precedence(a, a) == 0,
    decreases a.len(),
{
    if a.len() > 0 {
        lemma_text_precedence_reflexive(a.drop_first());
    }
}

proof fn lemma_prerelease_precedence_antisymmetric(a: Seq<Seq<char>>, b: Seq<Seq<char>>)
    ensures
        prerelease_precedence(a, b) == -prerelease_precedence(b, a),
    decreases a.len(),
{
    if a.len() > 0 && b.len() > 0 {
        if a[0] == b[0] {
            lemma_prerelease_precedence_antisymmetric(a.drop_first(), b.drop_first());
        } else {
            lemma_text_precedence_antisymmetric(a[0], b[0]);
        }
    }
}

proof fn lemma_prerelease_precedence_reflexive(a: Seq<Seq<char>>)
    ensures
        prerelease_precedence(a, a) == 0,
    decreases a.len(),
{
    if a.len() > 0 {
        lemma_prerelease_precedence_reflexive(a.drop_first());
    }
}

/// Comparing two versions the other way round gives the opposite order,
/// and a version compares equal to itself.
pub proof fn lemma_version_order_antisymmetric(a: (Seq<u64>, Seq<Seq<char>>), b: (Seq<u64>, Seq<Seq<char>>))
    ensures
        version_precedence(a, b) == -version_precedence(b, a),
        version_precedence(a, a) == 0,
{
    lemma_prerelease_precedence_antisymmetric(a.1, b.1);
    lemma_prerelease_precedence_reflexive(a.1);
}

/// A GitHub owner or repository name: not empty, of ASCII letters, digits,
/// `-`, `_` and `.`.
pub open spec fn github_segment(s: Seq<char>) -> bool {
    s.len() > 0 && forall|i: int|
        0 <= i < s.len() ==> is_ascii_alnum(#[trigger] s[i]) || s[i] == '-' || s[i] == '_' || s[i] == '.'
}

/// Whether `value` may stand as an owner or repository in a release URL.
pub fn is_valid_github_segment(value: &str) -> (r: bool)
    ensures
        r == github_segment(value@),
{
    let v = chars_of(value);
    if v.len() == 0 {
        return false;
    }
    let mut i: usize = 0;
    while i < v.len()
        invariant
            v@ == value@,
            i <= v.len(),
            forall|k: int|
                0 <= k < i ==> is_ascii_alnum(#[trigger] v@[k]) || v@[k] == '-' || v@[k] == '_' || v@[k]
                    == '.',
        decreases v.len() - i,
    {
        let c = v[i];
        if !(('0' <= c && c <= '9') || ('a' <= c && c <= 'z') || ('A' <= c && c <= 'Z') || c == '-' || c
            == '_' || c == '.') {
            return false;
        }
        i = i + 1;
    }
    true
}

/// `s` without all of its leading `v`s.
pub open spec fn strip_leading_v(s: Seq<char>) -> Seq<char>
    decreases s.len(),
{
    if s.len() > 0 && s[0] == 'v' {
        strip_leading_v(s.drop_first())
    } else {
        s
    }
}

/// A release that may be offered: not a draft, a pre-release only when
/// those are wanted, with a tag that names a version and a page. It is
/// given as its version, tag and page.
pub open spec fn candidate(r: GitHubRelease, include_prereleases: bool) -> Option<
    ((Seq<u64>, Seq<Seq<char>>), Seq<char>, Seq<char>),
> {
    if !r.draft && (include_prereleases || !r.prerelease) && r.tag_name is Some && r.html_url is Some
        && parsed_version(r.tag_name.unwrap()@) is Some {
        Some((parsed_version(r.tag_name.unwrap()@).unwrap(), r.tag_name.unwrap()@, r.html_url.unwrap()@))
    } else {
        None
    }
}

/// The newest candidate, as `Iterator::max_by` picks it: going from the
/// first release on, a later candidate replaces the one held unless the
/// one held is newer.
pub open spec fn newest_candidate(rs: Seq<GitHubRelease>, include_prereleases: bool) -> Option<
    ((Seq<u64>, Seq<Seq<char>>), Seq<char>, Seq<char>),
>
    decreases rs.len(),
{
    if rs.len() == 0 {
        None
    } else {
        let held = newest_candidate(rs.drop_last(), include_prereleases);
        match candidate(rs.last(), include_prereleases) {
            None => held,
            Some(c) => match held {
                None => Some(c),
                Some(h) => if version_precedence(h.0, c.0) > 0 {
                    Some(h)
                } else {
                    Some(c)
                },
            },
        }
    }
}

/// The update to offer: the newest candidate when it is newer than the
/// current version, as its version text without leading `v`s and its page.
pub open spec fn update_offer(current: Seq<char>, rs: Seq<GitHubRelease>, include_prereleases: bool) -> Option<
    (Seq<char>, Seq<char>),
> {
    match parsed_version(current) {
        None => None,
        Some(cur) => match newest_candidate(rs, include_prereleases) {
            None => None,
            Some(best) => if version_precedence(best.0, cur) > 0 {
                Some((strip_leading_v(best.1), best.2))
            } else {
                None
            },
        },
    }
}

proof fn lemma_newest_is_a_candidate(rs: Seq<GitHubRelease>, include_prereleases: bool)
    ensures
        newest_candidate(rs, include_prereleases) matches Some(c) ==> exists|i: int|
            0 <= i < rs.len() && #[trigger] candidate(rs[i], include_prereleases) == Some(c),
    decreases rs.len(),
{
    if rs.len() > 0 {
        lemma_newest_is_a_candidate(rs.drop_last(), include_prereleases);
        if let Some(c) = newest_candidate(rs, include_prereleases) {
            if candidate(rs.last(), include_prereleases) != Some(c) {
                let i = choose|i: int|
                    0 <= i < rs.drop_last().len() && #[trigger] candidate(rs.drop_last()[i], include_prereleases)
                        == Some(c);
                assert(rs[i] == rs.drop_last()[i]);
            } else {
                assert(candidate(rs[rs.len() - 1], include_prereleases) == Some(c));
            }
        }
    }
}

/// What is offered as an update is a listed release that is no draft, is a
/// pre-release only where those are asked for, has a version tag and a page,
/// and whose version is newer than the current one; the offer is its tag
/// without the leading `v`, and its page.
pub proof fn lemma_offer_is_newer_release(current: Seq<char>, rs: Seq<GitHubRelease>, include_prereleases: bool)
    ensures
        update_offer(current, rs, include_prereleases) matches Some((version, url)) ==> exists|i: int|
            0 <= i < rs.len() && !(#[trigger] rs[i]).draft && (include_prereleases || !rs[i].prerelease)
                && rs[i].tag_name is Some && rs[i].html_url is Some && parsed_version(rs[i].tag_name.unwrap()@)
                is Some && parsed_version(current) is Some && version_precedence(
                parsed_version(rs[i].tag_name.unwrap()@).unwrap(),
                parsed_version(current).unwrap(),
            ) > 0 && version == strip_leading_v(rs[i].tag_name.unwrap()@) && url == rs[i].html_url.unwrap()@,
{
    lemma_newest_is_a_candidate(rs, include_prereleases);
    if let Some((version, url)) = update_offer(current, rs, include_prereleases) {
        let best = newest_candidate(rs, include_prereleases).unwrap();
        let i = choose|i: int| 0 <= i < rs.len() && #[trigger] candidate(rs[i], include_prereleases) == Some(best);
        assert(candidate(rs[i], include_prereleases) == Some(best));
    }
}

fn strip_leading_v_str(s: &str) -> (r: &str)
    ensures
        r@ == strip_leading_v(s@),
{
    let v = chars_of(s);
    let n = v.len();
    let mut i: usize = 0;
    proof {
        assert(s@.subrange(0, n as int) =~= s@);
    }
    while i < n && v[i] == 'v'
        invariant
            v@ == s@,
            n == v@.len(),
            i <= n,
            strip_leading_v(s@) == strip_leading_v(s@.subrange(i as int, n as int)),
        decreases n - i,
    {
        proof {
            assert(s@.subrange(i as int, n as int).drop_first() =~= s@.subrange(i + 1, n as int));
        }
        i = i + 1;
    }
    s.substring_char(i, n)
}

/// The newer release to offer, if any: see [`update_offer`].
pub fn find_update(current_version: &str, releases: &[GitHubRelease], include_prereleases: bool) -> (r:
    Option<UpdateInfo>)
    ensures
        r is Some <==> update_offer(current_version@, releases@, include_prereleases) is Some,
        r matches Some(u) ==> update_offer(current_version@, releases@, include_prereleases) == Some(
            (u.version@, u.url@),
        ),
{
    let current = match parse_version(current_version) {
        Some(c) => c,
        None => return None,
    };
    let mut best: Option<(ParsedVersion, usize)> = None;
    let n = releases.len();
    for i in 0..n
        invariant
            n == releases@.len(),
            match best {
                None => newest_candidate(releases@.take(i as int), include_prereleases) is None,
                Some((p, k)) => k < i && releases@[k as int].tag_name is Some
                    && releases@[k as int].html_url is Some && newest_candidate(
                    releases@.take(i as int),
                    include_prereleases,
                ) == Some((p@, releases@[k as int].tag_name.unwrap()@, releases@[k as int].html_url.unwrap()@)),
            },
    {
        let release = &releases[i];
        proof {
            assert(releases@.take(i + 1).drop_last() =~= releases@.take(i as int));
            assert(releases@.take(i + 1).last() == releases@[i as int]);
        }
        let eligible = !release.draft && (include_prereleases || !release.prerelease);
        if eligible {
            match (&release.tag_name, &release.html_url) {
                (Some(tag), Some(_)) => {
                    match parse_version(tag.as_str()) {
                        Some(version) => {
                            let replace = match &best {
                                None => true,
                                Some((held, _)) => version_precedence_of(held, &version) <= 0,
                            };
                            if replace {
                                best = Some((version, i));
                            }
                        },
                        None => {},
                    }
                },
                _ => {},
            }
        }
    }
    proof {
        assert(releases@.take(n as int) =~= releases@);
    }
    match best {
        None => None,
        Some((version, k)) => {
            if version_precedence_of(&version, &current) > 0 {
                let tag = match &releases[k].tag_name {
                    Some(t) => t,
                    None => return None,
                };
                let url = match &releases[k].html_url {
                    Some(u) => u,
                    None => return None,
                };
                Some(
                    UpdateInfo {
                        version: String::from_str(strip_leading_v_str(tag.as_str())),
                        url: String::from_str(url.as_str()),
                    },
                )
            } else {
                None
            }
        },
    }
}

} // verus!
