//! Versions, requirement specs and release metadata for the mod registry.
use vstd::prelude::*;
use std::cmp::Ordering;

verus! {

/// A version triple ordered lexicographically by (major, minor, patch).
#[derive(Clone, Copy, PartialEq, Eq, Structural, Debug)]
pub struct Version {
    pub major: i64,
    pub minor: i64,
    pub patch: i64,
}

impl Version {
    pub fn new(major: i64, minor: i64, patch: i64) -> (r: Self)
        ensures
            r == (Version { major, minor, patch }),
    {
        Version { minor, major, patch }
    }
}

/// Lexicographic comparison of the (major, minor, patch) triples.
pub open spec fn version_cmp(a: Version, b: Version) -> Ordering {
    if a.major != b.major {
        if a.major > b.major {
            Ordering::Greater
        } else {
            Ordering::Less
        }
    } else if a.minor != b.minor {
        if a.minor > b.minor {
            Ordering::Greater
        } else {
            Ordering::Less
        }
    } else if a.patch != b.patch {
        if a.patch > b.patch {
            Ordering::Greater
        } else {
            Ordering::Less
        }
    } else {
        Ordering::Equal
    }
}

/// `a` is strictly below `b` in the version order.
pub open spec fn version_lt(a: Version, b: Version) -> bool {
    version_cmp(a, b) == Ordering::Less
}

/// `a` is at or below `b` in the version order.
pub open spec fn version_le(a: Version, b: Version) -> bool {
    version_cmp(a, b) != Ordering::Greater
}

impl PartialOrd for Version {
    fn partial_cmp(&self, other: &Self) -> (r: Option<Ordering>) {
        Some(
            if self.major != other.major {
                if self.major > other.major {
                    Ordering::Greater
                } else {
                    Ordering::Less
                }
            } else if self.minor != other.minor {
                if self.minor > other.minor {
                    Ordering::Greater
                } else {
                    Ordering::Less
                }
            } else if self.patch != other.patch {
                if self.patch > other.patch {
                    Ordering::Greater
                } else {
                    Ordering::Less
                }
            } else {
                Ordering::Equal
            },
        )
    }
}

impl vstd::std_specs::cmp::PartialOrdSpecImpl for Version {
    open spec fn obeys_partial_cmp_spec() -> bool {
        true
    }

    open spec fn partial_cmp_spec(&self, other: &Self) -> Option<Ordering> {
        Some(version_cmp(*self, *other))
    }
}

/// The version order is total: exactly one of `<`, `==`, `>` holds,
/// and two versions compare equal only when their triples are equal.
pub proof fn lemma_version_order_total(a: Version, b: Version)
    ensures
        version_cmp(a, b) == Ordering::Equal <==> a == b,
        version_lt(a, b) <==> !version_le(b, a),
        version_le(a, b) && version_le(b, a) ==> a == b,
        version_le(a, b) || version_le(b, a),
{
}

/// The version order is transitive.
pub proof fn lemma_version_order_transitive(a: Version, b: Version, c: Version)
    ensures
        version_le(a, b) && version_le(b, c) ==> version_le(a, c),
        version_lt(a, b) && version_lt(b, c) ==> version_lt(a, c),
{
}

/// Failure of parsing a version or a requirement spec out of its text form.
#[derive(Clone, Copy, PartialEq, Eq, Structural, Debug)]
pub struct ParseError;

pub open spec fn is_digit_char(c: char) -> bool {
    48 <= c as int && c as int <= 57
}

pub open spec fn all_digit_chars(s: Seq<char>) -> bool {
    forall|i: int| 0 <= i < s.len() ==> is_digit_char(#[trigger] s[i])
}

/// The non-negative integer denoted by a run of decimal digits.
pub open spec fn digits_val(s: Seq<char>) -> int
    decreases s.len(),
{
    if s.len() == 0 {
        0
    } else {
        digits_val(s.drop_last()) * 10 + (s.last() as int - 48)
    }
}

/// A version component is a non-empty run of digits whose value fits in `i64`.
pub open spec fn component_ok(s: Seq<char>) -> bool {
    s.len() > 0 && all_digit_chars(s) && digits_val(s) <= i64::MAX
}

proof fn lemma_digits_val_nonneg(s: Seq<char>)
    requires
        all_digit_chars(s),
    ensures
        digits_val(s) >= 0,
    decreases s.len(),
{
    if s.len() > 0 {
        assert(all_digit_chars(s.drop_last()));
        lemma_digits_val_nonneg(s.drop_last());
    }
}

proof fn lemma_digits_val_prefix_le(s: Seq<char>, k: int)
    requires
        all_digit_chars(s),
        0 <= k <= s.len(),
    ensures
        digits_val(s.subrange(0, k)) <= digits_val(s),
    decreases s.len() - k,
{
    if k < s.len() {
        let t = s.subrange(0, k + 1);
        assert(t.drop_last() =~= s.subrange(0, k));
        assert(all_digit_chars(t.drop_last()));
        lemma_digits_val_nonneg(t.drop_last());
        assert(digits_val(t) == digits_val(s.subrange(0, k)) * 10 + (s[k] as int - 48));
        lemma_digits_val_prefix_le(s, k + 1);
    } else {
        assert(s.subrange(0, k) =~= s);
    }
}

/// Parses the digit run `s[from..to]` (in characters) as a version component.
fn parse_component(s: &str, from: usize, to: usize) -> (r: Result<i64, ParseError>)
    requires
        from <= to <= s@.len(),
    ensures
        component_ok(s@.subrange(from as int, to as int)) ==> r == Ok::<i64, ParseError>(
            digits_val(s@.subrange(from as int, to as int)) as i64,
        ),
        !component_ok(s@.subrange(from as int, to as int)) ==> r == Err::<i64, ParseError>(
            ParseError,
        ),
{
    let ghost part = s@.subrange(from as int, to as int);
    if from == to {
        return Err(ParseError);
    }
    let mut acc: i64 = 0;
    let mut i: usize = from;
    while i < to
        invariant
            from <= i <= to <= s@.len(),
            from < to,
            part == s@.subrange(from as int, to as int),
            all_digit_chars(part.subrange(0, i - from)),
            acc == digits_val(part.subrange(0, i - from)),
            0 <= acc,
        decreases to - i,
    {
        let c = s.get_char(i);
        let cv = c as u32;
        proof {
            assert(part.subrange(0, i + 1 - from).drop_last() =~= part.subrange(0, i - from));
            assert(part.subrange(0, i + 1 - from).last() == s@[i as int]);
        }
        if cv < 48 || cv > 57 {
            proof {
                assert(part[i - from] == s@[i as int]);
                assert(!is_digit_char(part[i - from]));
            }
            return Err(ParseError);
        }
        let d: i64 = (cv - 48) as i64;
        if acc > (i64::MAX - d) / 10 {
            proof {
                assert(all_digit_chars(part.subrange(0, i + 1 - from)));
                assert(digits_val(part.subrange(0, i + 1 - from)) == acc * 10 + d);
                assert(acc * 10 + d > i64::MAX);
                if all_digit_chars(part) {
                    lemma_digits_val_prefix_le(part, i + 1 - from);
                }
            }
            return Err(ParseError);
        }
        proof {
            assert(acc <= (i64::MAX - d) / 10);
            assert(acc * 10 <= (i64::MAX - d) / 10 * 10) by (nonlinear_arith)
                requires
                    acc <= (i64::MAX - d) / 10,
                    acc >= 0,
            ;
            assert((i64::MAX - d) / 10 * 10 <= i64::MAX - d);
            assert(all_digit_chars(part.subrange(0, i + 1 - from)));
        }
        acc = acc * 10 + d;
        i = i + 1;
    }
    proof {
        assert(part.subrange(0, to - from) =~= part);
    }
    Ok(acc)
}

/// The first position of `c` in `s` at or after `from`, if any.
pub open spec fn find_char_from(s: Seq<char>, c: char, from: int) -> Option<int>
    decreases s.len() - from,
    when 0 <= from
{
    if from >= s.len() {
        None
    } else if s[from] == c {
        Some(from)
    } else {
        find_char_from(s, c, from + 1)
    }
}

/// Where the component that starts at `from` ends: at the next dot, or at the end.
pub open spec fn component_end(s: Seq<char>, from: int) -> int {
    match find_char_from(s, '.', from) {
        Some(i) => i,
        None => s.len() as int,
    }
}

proof fn lemma_find_char_bounds(s: Seq<char>, c: char, from: int)
    requires
        0 <= from <= s.len(),
    ensures
        match find_char_from(s, c, from) {
            Some(i) => from <= i < s.len() && s[i] == c,
            None => true,
        },
    decreases s.len() - from,
{
    if from < s.len() && s[from] != c {
        lemma_find_char_bounds(s, c, from + 1);
    }
}

/// Finds the end of the component that starts at character `from`.
fn find_dot(s: &str, from: usize) -> (r: usize)
    requires
        from <= s@.len(),
    ensures
        r == component_end(s@, from as int),
        from <= r <= s@.len(),
{
    let n = s.unicode_len();
    let mut i: usize = from;
    while i < n
        invariant
            from <= i <= n == s@.len(),
            find_char_from(s@, '.', from as int) == find_char_from(s@, '.', i as int),
        decreases n - i,
    {
        let c = s.get_char(i);
        if c == '.' {
            return i;
        }
        i = i + 1;
    }
    n
}

/// What a version text denotes: at most three dot-separated components, each
/// a run of decimal digits; missing components default to 0; a text with a
/// fourth component is malformed.
pub open spec fn spec_parse_version(s: Seq<char>) -> Option<Version> {
    let e0 = component_end(s, 0);
    let has1 = e0 < s.len();
    let e1 = if has1 {
        component_end(s, e0 + 1)
    } else {
        e0
    };
    let has2 = has1 && e1 < s.len();
    let e2 = if has2 {
        component_end(s, e1 + 1)
    } else {
        e1
    };
    let p0 = s.subrange(0, e0);
    let p1 = s.subrange(if has1 { e0 + 1 } else { 0 }, e1);
    let p2 = s.subrange(if has2 { e1 + 1 } else { 0 }, e2);
    if component_ok(p0) && (has1 ==> component_ok(p1)) && (has2 ==> component_ok(p2)) && (has2
        ==> e2 == s.len()) {
        Some(
            Version {
                major: digits_val(p0) as i64,
                minor: if has1 {
                    digits_val(p1) as i64
                } else {
                    0
                },
                patch: if has2 {
                    digits_val(p2) as i64
                } else {
                    0
                },
            },
        )
    } else {
        None
    }
}

impl Version {
    /// Parses `major[.minor[.patch]]`; each component is a run of decimal
    /// digits that fits in `i64`, missing components default to 0, and
    /// anything beyond a third component is rejected.
    pub fn parse(s: &str) -> (r: Result<Version, ParseError>)
        ensures
            r == match spec_parse_version(s@) {
                Some(v) => Ok::<Version, ParseError>(v),
                None => Err::<Version, ParseError>(ParseError),
            },
    {
        let n = s.unicode_len();
        let e0 = find_dot(s, 0);
        proof {
            lemma_find_char_bounds(s@, '.', 0);
        }
        let major = match parse_component(s, 0, e0) {
            Ok(v) => v,
            Err(e) => {
                return Err(e);
            },
        };
        let mut minor: i64 = 0;
        let mut patch: i64 = 0;
        if e0 < n {
            let e1 = find_dot(s, e0 + 1);
            proof {
                lemma_find_char_bounds(s@, '.', e0 + 1);
            }
            minor = match parse_component(s, e0 + 1, e1) {
                Ok(v) => v,
                Err(e) => {
                    return Err(e);
                },
            };
            if e1 < n {
                let e2 = find_dot(s, e1 + 1);
                proof {
                    lemma_find_char_bounds(s@, '.', e1 + 1);
                }
                if e2 < n {
                    return Err(ParseError);
                }
                patch = match parse_component(s, e1 + 1, e2) {
                    Ok(v) => v,
                    Err(e) => {
                        return Err(e);
                    },
                };
            }
        }
        Ok(Version { major, minor, patch })
    }
}

/// The semantic relation a requirement spec expresses toward the package graph.
#[derive(Clone, Copy, PartialEq, Eq, Structural, Debug)]
pub enum DependencyType {
    Conflict,
    Require,
    Optional,
}

/// One requirement spec: a mod id, an optional minimum version, and a kind.
#[derive(Clone, Debug)]
pub struct Dependency {
    pub mod_id: String,
    pub version: Option<Version>,
    pub dependency_type: DependencyType,
}

/// The mathematical content of a `Dependency`: its id as a character sequence.
pub ghost struct DependencyView {
    pub mod_id: Seq<char>,
    pub version: Option<Version>,
    pub dependency_type: DependencyType,
}

impl View for Dependency {
    type V = DependencyView;

    open spec fn view(&self) -> DependencyView {
        DependencyView {
            mod_id: self.mod_id@,
            version: self.version,
            dependency_type: self.dependency_type,
        }
    }
}

impl Dependency {
    pub fn new(mod_id: String, version: Option<Version>, dependency_type: DependencyType) -> (r:
        Self)
        ensures
            r@ == (DependencyView { mod_id: mod_id@, version, dependency_type }),
    {
        Dependency { mod_id, version, dependency_type }
    }

    /// A copy whose view is the same as this one's.
    pub fn duplicate(&self) -> (r: Self)
        ensures
            r@ == self@,
    {
        Dependency {
            mod_id: self.mod_id.clone(),
            version: self.version,
            dependency_type: self.dependency_type,
        }
    }
}

/// The views of a sequence of requirement specs.
pub open spec fn deps_view(v: Seq<Dependency>) -> Seq<DependencyView> {
    v.map_values(|d: Dependency| d@)
}

/// A copy of a requirement list whose view is the same.
pub fn duplicate_dependencies(deps: &Vec<Dependency>) -> (r: Vec<Dependency>)
    ensures
        deps_view(r@) == deps_view(deps@),
{
    let mut r: Vec<Dependency> = Vec::new();
    let mut i: usize = 0;
    while i < deps.len()
        invariant
            i <= deps@.len(),
            r@.len() == i,
            forall|j: int| 0 <= j < i ==> #[trigger] r@[j]@ == deps@[j]@,
        decreases deps@.len() - i,
    {
        r.push(deps[i].duplicate());
        i = i + 1;
    }
    proof {
        assert(deps_view(r@) =~= deps_view(deps@));
    }
    r
}

/// What one release declares: its requirement list and its target environment
/// version.
pub struct ModReleaseInfoJson {
    pub dependencies: Vec<Dependency>,
    pub factorio_version: Version,
}

pub ghost struct ModReleaseInfoJsonView {
    pub dependencies: Seq<DependencyView>,
    pub factorio_version: Version,
}

impl View for ModReleaseInfoJson {
    type V = ModReleaseInfoJsonView;

    open spec fn view(&self) -> ModReleaseInfoJsonView {
        ModReleaseInfoJsonView {
            dependencies: deps_view(self.dependencies@),
            factorio_version: self.factorio_version,
        }
    }
}

/// One published release of a mod.
pub struct ModRelease {
    pub version: Version,
    pub info_json: ModReleaseInfoJson,
}

pub ghost struct ModReleaseView {
    pub version: Version,
    pub info_json: ModReleaseInfoJsonView,
}

impl View for ModRelease {
    type V = ModReleaseView;

    open spec fn view(&self) -> ModReleaseView {
        ModReleaseView { version: self.version, info_json: self.info_json@ }
    }
}

impl ModRelease {
    /// A copy whose view is the same as this one's.
    pub fn duplicate(&self) -> (r: Self)
        ensures
            r@ == self@,
    {
        ModRelease {
            version: self.version,
            info_json: ModReleaseInfoJson {
                dependencies: duplicate_dependencies(&self.info_json.dependencies),
                factorio_version: self.info_json.factorio_version,
            },
        }
    }
}

/// The views of a sequence of releases.
pub open spec fn releases_view(v: Seq<ModRelease>) -> Seq<ModReleaseView> {
    v.map_values(|r: ModRelease| r@)
}

/// Everything the registry reports about one mod: its releases.
pub struct ModInfo {
    pub releases: Vec<ModRelease>,
}

pub ghost struct ModInfoView {
    pub releases: Seq<ModReleaseView>,
}

impl View for ModInfo {
    type V = ModInfoView;

    open spec fn view(&self) -> ModInfoView {
        ModInfoView { releases: releases_view(self.releases@) }
    }
}

/// `s` trimmed, with one trailing load-order marker `~` -- which carries no
/// resolution semantics -- removed, and trimmed again.
pub open spec fn drop_load_marker(s: Seq<char>) -> Seq<char> {
    let t = trim_spec(s);
    if t.len() > 0 && t.last() == '~' {
        trim_spec(t.drop_last())
    } else {
        t
    }
}

/// A requirement text with outer whitespace, one trailing `~`, and one layer
/// of wrapping parentheses removed: the `~` may stand after the closing
/// parenthesis.
pub open spec fn strip_wrapping(s: Seq<char>) -> Seq<char> {
    let t = drop_load_marker(s);
    if t.len() >= 2 && t.first() == '(' && t.last() == ')' {
        trim_spec(t.subrange(1, t.len() - 1))
    } else {
        t
    }
}

/// The kind a requirement text denotes: one optional leading marker after the
/// wrapping is removed -- `!` for Conflict, `?` for Optional, none for Require.
pub open spec fn spec_dependency_kind(s: Seq<char>) -> DependencyType {
    let t = strip_wrapping(s);
    if t.len() > 0 && t.first() == '!' {
        DependencyType::Conflict
    } else if t.len() > 0 && t.first() == '?' {
        DependencyType::Optional
    } else {
        DependencyType::Require
    }
}

/// The body of a requirement text: what remains after the wrapping, the
/// leading kind marker, and a trailing `~` -- inside the parentheses this
/// time -- are removed.
pub open spec fn spec_dependency_body(s: Seq<char>) -> Seq<char> {
    let t = strip_wrapping(s);
    let u = if t.len() > 0 && (t.first() == '!' || t.first() == '?') {
        t.drop_first()
    } else {
        t
    };
    drop_load_marker(u)
}

/// The Unicode whitespace characters, as `str::trim_start`/`trim_end` know them.
pub open spec fn is_space_char(c: char) -> bool {
    let v = c as int;
    v == 0x9 || v == 0xA || v == 0xB || v == 0xC || v == 0xD || v == 0x20 || v == 0x85 || v == 0xA0
        || v == 0x1680 || (0x2000 <= v && v <= 0x200A) || v == 0x2028 || v == 0x2029 || v == 0x202F
        || v == 0x205F || v == 0x3000
}

pub open spec fn trim_front(s: Seq<char>) -> Seq<char>
    decreases s.len(),
{
    if s.len() > 0 && is_space_char(s.first()) {
        trim_front(s.drop_first())
    } else {
        s
    }
}

pub open spec fn trim_back(s: Seq<char>) -> Seq<char>
    decreases s.len(),
{
    if s.len() > 0 && is_space_char(s.last()) {
        trim_back(s.drop_last())
    } else {
        s
    }
}

/// `s` with leading and trailing whitespace removed.
pub open spec fn trim_spec(s: Seq<char>) -> Seq<char> {
    trim_back(trim_front(s))
}

/// The first position at or after `from` where the separator `>=` stands.
pub open spec fn find_sep_from(s: Seq<char>, from: int) -> Option<int>
    decreases s.len() - from,
    when 0 <= from
{
    if from + 2 > s.len() {
        None
    } else if s[from] == '>' && s[from + 1] == '=' {
        Some(from)
    } else {
        find_sep_from(s, from + 1)
    }
}

proof fn lemma_find_sep_bounds(s: Seq<char>, from: int)
    requires
        0 <= from,
    ensures
        match find_sep_from(s, from) {
            Some(i) => from <= i && i + 2 <= s.len() && s[i] == '>' && s[i + 1] == '=',
            None => true,
        },
    decreases s.len() - from,
{
    if from + 2 <= s.len() && !(s[from] == '>' && s[from + 1] == '=') {
        lemma_find_sep_bounds(s, from + 1);
    }
}

/// What a requirement text denotes. The wrapping parentheses, the leading
/// kind marker and one trailing `~` are removed; if the remaining body holds
/// exactly one `>=`, what stands left of it (trimmed) is the id and what
/// stands right of it (trimmed) must parse as a version; otherwise the whole
/// trimmed body is the id.
pub open spec fn spec_parse_dependency(s: Seq<char>) -> Option<DependencyView> {
    let kind = spec_dependency_kind(s);
    let body = spec_dependency_body(s);
    match find_sep_from(body, 0) {
        None => Some(
            DependencyView { mod_id: trim_spec(body), version: None, dependency_type: kind },
        ),
        Some(i) => match find_sep_from(body, i + 2) {
            Some(_) => Some(
                DependencyView { mod_id: trim_spec(body), version: None, dependency_type: kind },
            ),
            None => match spec_parse_version(trim_spec(body.subrange(i + 2, body.len() as int))) {
                None => None,
                Some(v) => Some(
                    DependencyView {
                        mod_id: trim_spec(body.subrange(0, i)),
                        version: Some(v),
                        dependency_type: kind,
                    },
                ),
            },
        },
    }
}

/// Narrows `[from, to)` to the bounds of `drop_load_marker` of that range.
fn load_marker_range(s: &str, from: usize, to: usize) -> (r: (usize, usize))
    requires
        from <= to <= s@.len(),
    ensures
        from <= r.0 <= r.1 <= to,
        s@.subrange(r.0 as int, r.1 as int) == drop_load_marker(
            s@.subrange(from as int, to as int),
        ),
{
    let (lo, hi) = trim_range(s, from, to);
    if lo < hi && s.get_char(hi - 1) == '~' {
        proof {
            let t = s@.subrange(lo as int, hi as int);
            assert(t.last() == s@[hi - 1]);
            assert(t.drop_last() =~= s@.subrange(lo as int, hi - 1));
        }
        trim_range(s, lo, hi - 1)
    } else {
        proof {
            if hi > lo {
                let t = s@.subrange(lo as int, hi as int);
                assert(t.last() == s@[hi - 1]);
            }
        }
        (lo, hi)
    }
}

/// Locates the body of a requirement text and reads its kind marker: the
/// result is the character range of `spec_dependency_body` within the text.
fn dependency_body_range(s: &str) -> (r: (usize, usize, DependencyType))
    ensures
        r.0 <= r.1 <= s@.len(),
        s@.subrange(r.0 as int, r.1 as int) == spec_dependency_body(s@),
        r.2 == spec_dependency_kind(s@),
{
    let n = s.unicode_len();
    proof {
        assert(s@.subrange(0, n as int) =~= s@);
    }
    let (mut lo, mut hi) = load_marker_range(s, 0, n);
    if hi - lo >= 2 && s.get_char(lo) == '(' && s.get_char(hi - 1) == ')' {
        proof {
            let t = s@.subrange(lo as int, hi as int);
            assert(t.first() == s@[lo as int]);
            assert(t.last() == s@[hi - 1]);
            assert(t.subrange(1, t.len() - 1) =~= s@.subrange(lo + 1, hi - 1));
        }
        let (l2, h2) = trim_range(s, lo + 1, hi - 1);
        lo = l2;
        hi = h2;
    } else {
        proof {
            if hi > lo {
                let t = s@.subrange(lo as int, hi as int);
                assert(t.first() == s@[lo as int]);
                assert(t.last() == s@[hi - 1]);
            }
        }
    }
    let ghost wrapped = strip_wrapping(s@);
    proof {
        assert(s@.subrange(lo as int, hi as int) == wrapped);
    }
    let mut kind = DependencyType::Require;
    if lo < hi {
        let c = s.get_char(lo);
        proof {
            assert(wrapped.first() == s@[lo as int]);
            assert(wrapped.drop_first() =~= s@.subrange(lo + 1, hi as int));
        }
        if c == '!' {
            kind = DependencyType::Conflict;
            lo = lo + 1;
        } else if c == '?' {
            kind = DependencyType::Optional;
            lo = lo + 1;
        }
    }
    let (l3, h3) = load_marker_range(s, lo, hi);
    (l3, h3, kind)
}

/// Finds the first `>=` at or after `from`.
fn find_sep(s: &str, from: usize) -> (r: Option<usize>)
    requires
        from <= s@.len(),
    ensures
        match r {
            Some(i) => find_sep_from(s@, from as int) == Some(i as int),
            None => find_sep_from(s@, from as int) is None,
        },
{
    let n = s.unicode_len();
    let mut i: usize = from;
    while i < n && i + 1 < n
        invariant
            from <= i <= n == s@.len(),
            find_sep_from(s@, from as int) == find_sep_from(s@, i as int),
        decreases n - i,
    {
        if s.get_char(i) == '>' && s.get_char(i + 1) == '=' {
            return Some(i);
        }
        i = i + 1;
    }
    None
}

/// The bounds of `s[from..to]` with surrounding whitespace removed.
fn trim_range(s: &str, from: usize, to: usize) -> (r: (usize, usize))
    requires
        from <= to <= s@.len(),
    ensures
        from <= r.0 <= r.1 <= to,
        s@.subrange(r.0 as int, r.1 as int) == trim_spec(s@.subrange(from as int, to as int)),
{
    let mut lo: usize = from;
    while lo < to && is_space(s.get_char(lo))
        invariant
            from <= lo <= to <= s@.len(),
            trim_front(s@.subrange(from as int, to as int)) == trim_front(
                s@.subrange(lo as int, to as int),
            ),
        decreases to - lo,
    {
        proof {
            assert(s@.subrange(lo as int, to as int).first() == s@[lo as int]);
            assert(s@.subrange(lo as int, to as int).drop_first() =~= s@.subrange(
                lo + 1,
                to as int,
            ));
        }
        lo = lo + 1;
    }
    proof {
        if lo < to {
            assert(s@.subrange(lo as int, to as int).first() == s@[lo as int]);
            assert(trim_front(s@.subrange(lo as int, to as int)) == s@.subrange(
                lo as int,
                to as int,
            ));
        } else {
            assert(s@.subrange(lo as int, to as int).len() == 0);
        }
    }
    let mut hi: usize = to;
    while hi > lo && is_space(s.get_char(hi - 1))
        invariant
            from <= lo <= hi <= to <= s@.len(),
            trim_back(s@.subrange(lo as int, to as int)) == trim_back(
                s@.subrange(lo as int, hi as int),
            ),
        decreases hi,
    {
        proof {
            assert(s@.subrange(lo as int, hi as int).last() == s@[hi - 1]);
            assert(s@.subrange(lo as int, hi as int).drop_last() =~= s@.subrange(
                lo as int,
                hi - 1,
            ));
        }
        hi = hi - 1;
    }
    proof {
        if hi > lo {
            assert(s@.subrange(lo as int, hi as int).last() == s@[hi - 1]);
            assert(trim_back(s@.subrange(lo as int, hi as int)) == s@.subrange(
                lo as int,
                hi as int,
            ));
        } else {
            assert(s@.subrange(lo as int, hi as int).len() == 0);
        }
    }
    (lo, hi)
}

/// Whether `c` is one of the Unicode whitespace characters.
fn is_space(c: char) -> (r: bool)
    ensures
        r == is_space_char(c),
{
    let v = c as u32;
    v == 0x9 || v == 0xA || v == 0xB || v == 0xC || v == 0xD || v == 0x20 || v == 0x85 || v == 0xA0
        || v == 0x1680 || (0x2000 <= v && v <= 0x200A) || v == 0x2028 || v == 0x2029 || v == 0x202F
        || v == 0x205F || v == 0x3000
}

impl Dependency {
    /// Parses one requirement text, as `spec_parse_dependency` describes.
    pub fn parse(s: &str) -> (r: Result<Dependency, ParseError>)
        ensures
            match spec_parse_dependency(s@) {
                Some(dv) => r matches Ok(d) && d@ == dv,
                None => r matches Err(_),
            },
    {
        let (blo, bhi, kind) = dependency_body_range(s);
        let b = s.substring_char(blo, bhi);
        let bn = b.unicode_len();
        match find_sep(b, 0) {
            None => {
                let (lo, hi) = trim_range(b, 0, bn);
                proof {
                    assert(b@.subrange(0, bn as int) =~= b@);
                }
                let id = b.substring_char(lo, hi).to_owned();
                Ok(Dependency { mod_id: id, version: None, dependency_type: kind })
            },
            Some(i) => {
                proof {
                    lemma_find_sep_bounds(b@, 0);
                }
                match find_sep(b, i + 2) {
                    Some(_) => {
                        let (lo, hi) = trim_range(b, 0, bn);
                        proof {
                            assert(b@.subrange(0, bn as int) =~= b@);
                        }
                        let id = b.substring_char(lo, hi).to_owned();
                        Ok(Dependency { mod_id: id, version: None, dependency_type: kind })
                    },
                    None => {
                        let (vlo, vhi) = trim_range(b, i + 2, bn);
                        proof {
                            assert(b@.subrange(i + 2, bn as int) =~= b@.subrange(
                                i + 2,
                                b@.len() as int,
                            ));
                        }
                        let vtext = b.substring_char(vlo, vhi);
                        match Version::parse(vtext) {
                            Err(_) => Err(ParseError),
                            Ok(v) => {
                                let (ilo, ihi) = trim_range(b, 0, i);
                                let id = b.substring_char(ilo, ihi).to_owned();
                                Ok(Dependency { mod_id: id, version: Some(v), dependency_type: kind })
                            },
                        }
                    },
                }
            },
        }
    }
}

} // verus!
