//! A SemVer 2.0.0 version model: representation, precedence ordering,
//! bump policy and parsing.
//!
//! A version holds its numeric components as plain integers and its
//! pre-release and build metadata as dot-separated identifier segments, so
//! that every rule of the bump policy can be stated and proved over them.

use vstd::prelude::*;

use crate::text::{lex_lt, lemma_lex_lt_transitive, lemma_lex_lt_trichotomy, str_eq, str_lex_lt};

verus! {

/// An ASCII digit.
pub open spec fn is_digit(c: char) -> bool {
    '0' <= c <= '9'
}

/// A character allowed inside a version identifier segment.
pub open spec fn is_ident_char(c: char) -> bool {
    is_digit(c) || ('a' <= c <= 'z') || ('A' <= c <= 'Z') || c == '-'
}

/// A nonempty segment made of digits alone.
pub open spec fn is_numeric_ident(s: Seq<char>) -> bool {
    s.len() > 0 && (forall|i: int| 0 <= i < s.len() ==> is_digit(#[trigger] s[i]))
}

/// A valid pre-release identifier segment: nonempty, identifier characters
/// only, and no leading zero when numeric.
pub open spec fn valid_pre_ident(s: Seq<char>) -> bool {
    &&& s.len() > 0
    &&& forall|i: int| 0 <= i < s.len() ==> is_ident_char(#[trigger] s[i])
    &&& is_numeric_ident(s) ==> (s.len() == 1 || s[0] != '0')
}

/// A valid build metadata segment: nonempty, identifier characters only.
pub open spec fn valid_build_ident(s: Seq<char>) -> bool {
    &&& s.len() > 0
    &&& forall|i: int| 0 <= i < s.len() ==> is_ident_char(#[trigger] s[i])
}

/// The dot-separated segments of `s`. Always at least one segment; an empty
/// `s` yields one empty segment.
pub open spec fn split_dots(s: Seq<char>) -> Seq<Seq<char>>
    decreases s.len(),
{
    if s.len() == 0 {
        seq![Seq::<char>::empty()]
    } else if s[0] == '.' {
        seq![Seq::<char>::empty()] + split_dots(s.drop_first())
    } else {
        let rest = split_dots(s.drop_first());
        seq![seq![s[0]] + rest[0]] + rest.subrange(1, rest.len() as int)
    }
}

pub proof fn lemma_split_dots_len(s: Seq<char>)
    ensures
        split_dots(s).len() >= 1,
    decreases s.len(),
{
    if s.len() != 0 {
        lemma_split_dots_len(s.drop_first());
    }
}

/// The dot-joined rendering of identifier segments.
pub open spec fn joined(segs: Seq<Seq<char>>) -> Seq<char>
    decreases segs.len(),
{
    if segs.len() == 0 {
        Seq::empty()
    } else if segs.len() == 1 {
        segs[0]
    } else {
        segs[0] + seq!['.'] + joined(segs.drop_first())
    }
}

/// The character-sequence views of a vector of segment strings.
pub open spec fn seg_views(v: Seq<String>) -> Seq<Seq<char>> {
    v.map_values(|s: String| s@)
}

/// The mathematical value of a version.
#[verifier::ext_equal]
pub ghost struct VersionView {
    pub major: int,
    pub minor: int,
    pub patch: int,
    pub pre: Seq<Seq<char>>,
    pub build: Seq<Seq<char>>,
}

/// A SemVer 2.0.0 version: `major.minor.patch`, an optional pre-release tag
/// and optional build metadata, both held as identifier segments.
#[derive(Debug)]
pub struct Version {
    pub major: u64,
    pub minor: u64,
    pub patch: u64,
    pub pre: Vec<String>,
    pub build: Vec<String>,
}

impl View for Version {
    type V = VersionView;

    open spec fn view(&self) -> VersionView {
        VersionView {
            major: self.major as int,
            minor: self.minor as int,
            patch: self.patch as int,
            pre: seg_views(self.pre@),
            build: seg_views(self.build@),
        }
    }
}

impl VersionView {
    /// Every segment is a valid identifier of its kind.
    pub open spec fn wf(self) -> bool {
        &&& forall|i: int| 0 <= i < self.pre.len() ==> valid_pre_ident(#[trigger] self.pre[i])
        &&& forall|i: int|
            0 <= i < self.build.len() ==> valid_build_ident(#[trigger] self.build[i])
    }
}

impl Version {
    pub open spec fn wf(&self) -> bool {
        self@.wf()
    }

    /// A plain release version with neither pre-release tag nor build
    /// metadata.
    pub fn new(major: u64, minor: u64, patch: u64) -> (r: Version)
        ensures
            r@ == (VersionView {
                major: major as int,
                minor: minor as int,
                patch: patch as int,
                pre: Seq::empty(),
                build: Seq::empty(),
            }),
            r.wf(),
    {
        let r = Version { major, minor, patch, pre: Vec::new(), build: Vec::new() };
        proof {
            assert(seg_views(r.pre@) =~= Seq::<Seq<char>>::empty());
            assert(seg_views(r.build@) =~= Seq::<Seq<char>>::empty());
        }
        r
    }

    /// An identical copy.
    pub fn duplicate(&self) -> (r: Version)
        ensures
            r@ == self@,
    {
        let r = Version {
            major: self.major,
            minor: self.minor,
            patch: self.patch,
            pre: self.pre.clone(),
            build: self.build.clone(),
        };
        proof {
            lemma_cloned_string_vec(self.pre, r.pre);
            lemma_cloned_string_vec(self.build, r.build);
            assert(r@ =~= self@);
        }
        r
    }
}

/// Pointwise-cloned string vectors have equal views.
proof fn lemma_cloned_string_vec(a: Vec<String>, b: Vec<String>)
    requires
        a.len() == b.len(),
        forall|i: int| #![all_triggers] 0 <= i < a.len() ==> cloned::<String>(a[i], b[i]),
    ensures
        seg_views(a@) =~= seg_views(b@),
{
    assert forall|i: int| 0 <= i < a.len() implies seg_views(a@)[i] == seg_views(b@)[i] by {
        assert(cloned::<String>(a[i], b[i]));
    }
}

impl PartialEq for Version {
    fn eq(&self, other: &Version) -> (r: bool) {
        if !(self.major == other.major && self.minor == other.minor && self.patch
            == other.patch) {
            return false;
        }
        if !segments_eq(&self.pre, &other.pre) {
            return false;
        }
        segments_eq(&self.build, &other.build)
    }
}

impl Eq for Version {

}

impl vstd::std_specs::cmp::PartialEqSpecImpl for Version {
    open spec fn obeys_eq_spec() -> bool {
        true
    }

    open spec fn eq_spec(&self, other: &Version) -> bool {
        self@ =~= other@
    }
}

/// Decide equality of two segment vectors by their views.
fn segments_eq(a: &Vec<String>, b: &Vec<String>) -> (r: bool)
    ensures
        r == (seg_views(a@) =~= seg_views(b@)),
{
    if a.len() != b.len() {
        return false;
    }
    let n = a.len();
    let mut i: usize = 0;
    while i < n
        invariant
            n == a.len() == b.len(),
            0 <= i <= n,
            forall|k: int| 0 <= k < i ==> seg_views(a@)[k] == seg_views(b@)[k],
        decreases n - i,
    {
        if !str_eq(a[i].as_str(), b[i].as_str()) {
            assert(seg_views(a@)[i as int] != seg_views(b@)[i as int]);
            return false;
        }
        i += 1;
    }
    true
}

/// Decide `valid_pre_ident` (with the leading-zero rule) or
/// `valid_build_ident` (without it) of one segment.
fn check_ident(s: &String, forbid_leading_zero: bool) -> (r: bool)
    ensures
        forbid_leading_zero ==> r == valid_pre_ident(s@),
        !forbid_leading_zero ==> r == valid_build_ident(s@),
{
    let st = s.as_str();
    let len = st.unicode_len();
    if len == 0 {
        return false;
    }
    let mut all_digits = true;
    let mut i: usize = 0;
    while i < len
        invariant
            len == st@.len(),
            st@ == s@,
            0 <= i <= len,
            forall|k: int| 0 <= k < i ==> is_ident_char(#[trigger] st@[k]),
            all_digits == (forall|k: int| 0 <= k < i ==> is_digit(#[trigger] st@[k])),
        decreases len - i,
    {
        let c = st.get_char(i);
        let digit = '0' <= c && c <= '9';
        let ok = digit || ('a' <= c && c <= 'z') || ('A' <= c && c <= 'Z') || c == '-';
        if !ok {
            assert(!is_ident_char(st@[i as int]));
            return false;
        }
        if !digit {
            assert(!is_digit(st@[i as int]));
            all_digits = false;
        }
        i += 1;
    }
    if forbid_leading_zero && all_digits && len > 1 {
        if st.get_char(0) == '0' {
            return false;
        }
    }
    true
}

/// Decide whether a segment is numeric (nonempty, digits alone).
fn check_numeric(s: &String) -> (r: bool)
    ensures
        r == is_numeric_ident(s@),
{
    let st = s.as_str();
    let len = st.unicode_len();
    if len == 0 {
        return false;
    }
    let mut i: usize = 0;
    while i < len
        invariant
            len == st@.len(),
            st@ == s@,
            0 <= i <= len,
            forall|k: int| 0 <= k < i ==> is_digit(#[trigger] st@[k]),
        decreases len - i,
    {
        let c = st.get_char(i);
        if !('0' <= c && c <= '9') {
            assert(!is_digit(st@[i as int]));
            return false;
        }
        i += 1;
    }
    true
}

/// Split a string into its dot-separated segments.
fn split_dots_exec(s: &str) -> (r: Vec<String>)
    ensures
        seg_views(r@) =~= split_dots(s@),
    decreases s@.len(),
{
    let len = s.unicode_len();
    if len == 0 {
        let mut r: Vec<String> = Vec::new();
        r.push(String::new());
        proof {
            assert(seg_views(r@) =~= split_dots(s@));
        }
        return r;
    }
    let c = s.get_char(0);
    let tail = s.substring_char(1, len);
    proof {
        assert(tail@ =~= s@.drop_first());
    }
    let mut rest = split_dots_exec(tail);
    if c == '.' {
        rest.insert(0, String::new());
        proof {
            assert(seg_views(rest@) =~= seq![Seq::<char>::empty()] + split_dots(s@.drop_first()));
        }
        rest
    } else {
        proof {
            lemma_split_dots_len(tail@);
        }
        let head = s.substring_char(0, 1);
        let first = head.to_owned().concat(rest[0].as_str());
        proof {
            assert(head@ =~= seq![s@[0]]);
        }
        let mut out = rest;
        out.set(0, first);
        proof {
            let spec_rest = split_dots(s@.drop_first());
            assert(seg_views(out@) =~= seq![seq![s@[0]] + spec_rest[0]] + spec_rest.subrange(
                1,
                spec_rest.len() as int,
            ));
        }
        out
    }
}

} // verus!

verus! {

/// SemVer order on two identifier segments: numeric segments before
/// alphanumeric ones; numeric segments by value (equivalently, without
/// leading zeros, by length and then lexicographically); alphanumeric
/// segments lexicographically in ASCII order.
pub open spec fn ident_lt(a: Seq<char>, b: Seq<char>) -> bool {
    if is_numeric_ident(a) && is_numeric_ident(b) {
        a.len() < b.len() || (a.len() == b.len() && lex_lt(a, b))
    } else if is_numeric_ident(a) && !is_numeric_ident(b) {
        true
    } else if !is_numeric_ident(a) && is_numeric_ident(b) {
        false
    } else {
        lex_lt(a, b)
    }
}

/// Segment order is a strict total order.
pub proof fn lemma_ident_lt_trichotomy(a: Seq<char>, b: Seq<char>)
    ensures
        ident_lt(a, b) || ident_lt(b, a) || a == b,
        ident_lt(a, b) ==> !ident_lt(b, a) && a != b,
        ident_lt(b, a) ==> !ident_lt(a, b) && a != b,
{
    lemma_lex_lt_trichotomy(a, b);
}

/// Segment order is transitive.
pub proof fn lemma_ident_lt_transitive(a: Seq<char>, b: Seq<char>, c: Seq<char>)
    requires
        ident_lt(a, b),
        ident_lt(b, c),
    ensures
        ident_lt(a, c),
{
    if lex_lt(a, b) && lex_lt(b, c) {
        lemma_lex_lt_transitive(a, b, c);
    }
}

/// SemVer order on segment lists: pairwise by `ident_lt`, a strict prefix
/// ordering before its extensions.
pub open spec fn idents_lt(a: Seq<Seq<char>>, b: Seq<Seq<char>>) -> bool
    decreases a.len(),
{
    if b.len() == 0 {
        false
    } else if a.len() == 0 {
        true
    } else if a[0] != b[0] {
        ident_lt(a[0], b[0])
    } else {
        idents_lt(a.drop_first(), b.drop_first())
    }
}

/// Segment-list order is a strict total order.
pub proof fn lemma_idents_lt_trichotomy(a: Seq<Seq<char>>, b: Seq<Seq<char>>)
    ensures
        idents_lt(a, b) || idents_lt(b, a) || a == b,
        idents_lt(a, b) ==> !idents_lt(b, a) && a != b,
        idents_lt(b, a) ==> !idents_lt(a, b) && a != b,
    decreases a.len(),
{
    if a.len() == 0 || b.len() == 0 {
        if a.len() == 0 && b.len() == 0 {
            assert(a =~= b);
        }
    } else if a[0] == b[0] {
        lemma_idents_lt_trichotomy(a.drop_first(), b.drop_first());
        if a.drop_first() == b.drop_first() {
            assert forall|i: int| 0 <= i < a.len() implies a[i] == b[i] by {
                if i > 0 {
                    assert(a.drop_first()[i - 1] == b.drop_first()[i - 1]);
                }
            }
            assert(a =~= b);
        }
        if a == b {
            assert(a.drop_first() =~= b.drop_first());
        }
        assert(idents_lt(a, b) == idents_lt(a.drop_first(), b.drop_first()));
        assert(idents_lt(b, a) == idents_lt(b.drop_first(), a.drop_first()));
    } else {
        lemma_ident_lt_trichotomy(a[0], b[0]);
        assert(a != b) by {
            assert(a[0] != b[0]);
        }
    }
}

/// Segment-list order is transitive.
pub proof fn lemma_idents_lt_transitive(a: Seq<Seq<char>>, b: Seq<Seq<char>>, c: Seq<Seq<char>>)
    requires
        idents_lt(a, b),
        idents_lt(b, c),
    ensures
        idents_lt(a, c),
    decreases a.len(),
{
    if a.len() == 0 || b.len() == 0 || c.len() == 0 {
    } else if a[0] == b[0] && b[0] == c[0] {
        lemma_idents_lt_transitive(a.drop_first(), b.drop_first(), c.drop_first());
    } else if a[0] == b[0] {
        assert(ident_lt(a[0], c[0]));
    } else if b[0] == c[0] {
        assert(ident_lt(a[0], c[0]));
    } else {
        lemma_ident_lt_transitive(a[0], b[0], c[0]);
        lemma_ident_lt_trichotomy(a[0], c[0]);
    }
}

impl VersionView {
    /// SemVer 2.0.0 precedence: numeric components first, then a pre-release
    /// before the plain release, then pre-release segments. Build metadata
    /// is ignored.
    pub open spec fn precedence_lt(self, other: VersionView) -> bool {
        if self.major != other.major {
            self.major < other.major
        } else if self.minor != other.minor {
            self.minor < other.minor
        } else if self.patch != other.patch {
            self.patch < other.patch
        } else if self.pre.len() > 0 && other.pre.len() == 0 {
            true
        } else if self.pre.len() == 0 && other.pre.len() > 0 {
            false
        } else {
            idents_lt(self.pre, other.pre)
        }
    }

    /// Equal under precedence: equal numeric components and pre-release tag.
    pub open spec fn precedence_eq(self, other: VersionView) -> bool {
        self.major == other.major && self.minor == other.minor && self.patch == other.patch
            && self.pre == other.pre
    }

    /// The total order used to pick the highest version: precedence, with
    /// build metadata as the final tiebreak (as the registry orders
    /// versions).
    pub open spec fn lt(self, other: VersionView) -> bool {
        self.precedence_lt(other) || (self.precedence_eq(other) && idents_lt(
            self.build,
            other.build,
        ))
    }

    pub open spec fn le(self, other: VersionView) -> bool {
        self.lt(other) || self =~= other
    }
}

/// The total version order is a strict total order.
pub proof fn lemma_version_lt_trichotomy(a: VersionView, b: VersionView)
    ensures
        a.lt(b) || b.lt(a) || a =~= b,
        a.lt(b) ==> !b.lt(a) && !(a =~= b),
        b.lt(a) ==> !a.lt(b) && !(a =~= b),
{
    lemma_idents_lt_trichotomy(a.pre, b.pre);
    lemma_idents_lt_trichotomy(a.build, b.build);
}

/// The total version order is transitive.
pub proof fn lemma_version_lt_transitive(a: VersionView, b: VersionView, c: VersionView)
    ensures
        a.lt(b) && b.lt(c) ==> a.lt(c),
{
    if a.lt(b) && b.lt(c) {
        if a.precedence_lt(b) {
            if b.precedence_lt(c) {
                lemma_precedence_lt_transitive(a, b, c);
            }
        } else {
            if !b.precedence_lt(c) {
                lemma_idents_lt_transitive(a.build, b.build, c.build);
            }
        }
    }
}

/// Precedence is transitive.
pub proof fn lemma_precedence_lt_transitive(a: VersionView, b: VersionView, c: VersionView)
    requires
        a.precedence_lt(b),
        b.precedence_lt(c),
    ensures
        a.precedence_lt(c),
{
    if a.major == b.major && b.major == c.major && a.minor == b.minor && b.minor == c.minor
        && a.patch == b.patch && b.patch == c.patch {
        if a.pre.len() > 0 && b.pre.len() > 0 && c.pre.len() > 0 {
            lemma_idents_lt_transitive(a.pre, b.pre, c.pre);
        }
    }
}

/// Decide `ident_lt` of two segments.
fn ident_lt_exec(a: &String, b: &String) -> (r: bool)
    ensures
        r == ident_lt(a@, b@),
{
    let a_num = check_numeric(a);
    let b_num = check_numeric(b);
    if a_num && b_num {
        let al = a.as_str().unicode_len();
        let bl = b.as_str().unicode_len();
        if al != bl {
            al < bl
        } else {
            str_lex_lt(a.as_str(), b.as_str())
        }
    } else if a_num {
        true
    } else if b_num {
        false
    } else {
        str_lex_lt(a.as_str(), b.as_str())
    }
}

/// Decide `idents_lt` of two segment vectors.
fn idents_lt_exec(a: &Vec<String>, b: &Vec<String>) -> (r: bool)
    ensures
        r == idents_lt(seg_views(a@), seg_views(b@)),
{
    let ghost av = seg_views(a@);
    let ghost bv = seg_views(b@);
    let a_len = a.len();
    let b_len = b.len();
    let mut i: usize = 0;
    proof {
        assert(av.skip(0) =~= av);
        assert(bv.skip(0) =~= bv);
    }
    loop
        invariant
            av == seg_views(a@),
            bv == seg_views(b@),
            a_len == a.len(),
            b_len == b.len(),
            0 <= i <= a_len,
            i <= b_len,
            idents_lt(av, bv) == idents_lt(av.skip(i as int), bv.skip(i as int)),
        decreases a_len - i,
    {
        if i >= b_len {
            return false;
        }
        if i >= a_len {
            return true;
        }
        if !str_eq(a[i].as_str(), b[i].as_str()) {
            assert(av.skip(i as int)[0] != bv.skip(i as int)[0]);
            return ident_lt_exec(&a[i], &b[i]);
        }
        proof {
            assert(av.skip(i as int).drop_first() =~= av.skip(i + 1));
            assert(bv.skip(i as int).drop_first() =~= bv.skip(i + 1));
        }
        i += 1;
    }
}

impl Version {
    /// Decide the total version order `self@.lt(other@)`.
    pub fn lt(&self, other: &Version) -> (r: bool)
        ensures
            r == self@.lt(other@),
    {
        if self.major != other.major {
            return self.major < other.major;
        }
        if self.minor != other.minor {
            return self.minor < other.minor;
        }
        if self.patch != other.patch {
            return self.patch < other.patch;
        }
        let self_pre_empty = self.pre.len() == 0;
        let other_pre_empty = other.pre.len() == 0;
        if !self_pre_empty && other_pre_empty {
            return true;
        }
        if self_pre_empty && !other_pre_empty {
            return false;
        }
        if segments_eq(&self.pre, &other.pre) {
            proof {
                lemma_idents_lt_trichotomy(self@.pre, other@.pre);
            }
            idents_lt_exec(&self.build, &other.build)
        } else {
            idents_lt_exec(&self.pre, &other.pre)
        }
    }

    /// Whether the version carries a pre-release tag.
    pub fn has_pre(&self) -> (r: bool)
        ensures
            r == (self@.pre.len() > 0),
    {
        self.pre.len() > 0
    }
}

} // verus!

verus! {

/// Which SemVer component a version bump increments.
#[derive(Clone, Copy, PartialEq, Eq, Structural, Debug)]
pub enum VersionBumpHeuristic {
    Breaking,
    Compatible,
}

/// The views of a sequence of versions.
pub open spec fn version_views(s: Seq<Version>) -> Seq<VersionView> {
    s.map_values(|v: Version| v@)
}

/// `m` is a highest element of `s` under the total version order.
pub open spec fn is_max_of(m: VersionView, s: Seq<VersionView>) -> bool {
    s.contains(m) && forall|i: int| 0 <= i < s.len() ==> #[trigger] s[i].le(m)
}

/// Every numeric component leaves room for an increment.
pub open spec fn bounded(v: VersionView) -> bool {
    v.major < u64::MAX && v.minor < u64::MAX && v.patch < u64::MAX
}

/// The version with its pre-release tag removed.
pub open spec fn spec_strip_pre(v: VersionView) -> VersionView {
    VersionView { pre: Seq::empty(), ..v }
}

/// The breaking bump: strip a pre-release tag if one
/// is present; otherwise increment the minor component below 1.0.0 and the
/// major component from 1.0.0 on. Build metadata is preserved.
pub open spec fn spec_bump_breaking(v: VersionView) -> VersionView {
    if v.pre.len() > 0 {
        spec_strip_pre(v)
    } else if v.major == 0 {
        VersionView { minor: v.minor + 1, patch: 0, ..v }
    } else {
        VersionView { major: v.major + 1, minor: 0, patch: 0, ..v }
    }
}

/// The compatible bump: strip a pre-release tag if one is present;
/// otherwise increment the patch component.
pub open spec fn spec_bump_compatible(v: VersionView) -> VersionView {
    if v.pre.len() > 0 {
        spec_strip_pre(v)
    } else {
        VersionView { patch: v.patch + 1, ..v }
    }
}

/// The higher of current `c` and latest previous `l`, preferring the
/// previous one when neither is strictly higher.
pub open spec fn spec_max2(c: VersionView, l: VersionView) -> VersionView {
    if l.lt(c) {
        c
    } else {
        l
    }
}

impl Version {
    /// Remove the pre-release tag, keeping everything else.
    pub fn strip_pre(self) -> (r: Version)
        ensures
            r@ =~= spec_strip_pre(self@),
            self.wf() ==> r.wf(),
    {
        let r = Version {
            major: self.major,
            minor: self.minor,
            patch: self.patch,
            pre: Vec::new(),
            build: self.build,
        };
        proof {
            assert(seg_views(r.pre@) =~= Seq::<Seq<char>>::empty());
        }
        r
    }
}

/// Bump a version to signify a breaking change.
pub fn bump_for_breaking_change(version: Version) -> (r: Version)
    requires
        bounded(version@),
    ensures
        r@ =~= spec_bump_breaking(version@),
        version.wf() ==> r.wf(),
{
    if version.pre.len() > 0 {
        version.strip_pre()
    } else if version.major == 0 {
        Version {
            major: version.major,
            minor: version.minor + 1,
            patch: 0,
            pre: version.pre,
            build: version.build,
        }
    } else {
        Version {
            major: version.major + 1,
            minor: 0,
            patch: 0,
            pre: version.pre,
            build: version.build,
        }
    }
}

/// Bump a version to signify a backwards-compatible change.
pub fn bump_for_compatible_change(version: Version) -> (r: Version)
    requires
        bounded(version@),
    ensures
        r@ =~= spec_bump_compatible(version@),
        version.wf() ==> r.wf(),
{
    if version.pre.len() > 0 {
        version.strip_pre()
    } else {
        Version {
            major: version.major,
            minor: version.minor,
            patch: version.patch + 1,
            pre: version.pre,
            build: version.build,
        }
    }
}

/// The highest of the given versions, or `None` when there are none.
pub fn max_version(versions: &Vec<Version>) -> (r: Option<Version>)
    ensures
        match r {
            Some(m) => is_max_of(m@, version_views(versions@)),
            None => versions@.len() == 0,
        },
{
    let n = versions.len();
    if n == 0 {
        return None;
    }
    let mut best: Version = versions[0].duplicate();
    let ghost views = version_views(versions@);
    let mut i: usize = 1;
    proof {
        assert(views[0] == best@);
        assert(views.contains(best@));
    }
    while i < n
        invariant
            n == versions@.len(),
            views == version_views(versions@),
            1 <= i <= n,
            views.contains(best@),
            forall|k: int| 0 <= k < i ==> #[trigger] views[k].le(best@),
        decreases n - i,
    {
        let ghost prev_best = best@;
        if best.lt(&versions[i]) {
            best = versions[i].duplicate();
            proof {
                assert(views[i as int] == best@);
                assert(views.contains(best@));
                assert forall|k: int| 0 <= k < i + 1 implies #[trigger] views[k].le(best@) by {
                    if k < i {
                        assert(views[k].le(prev_best));
                        lemma_version_lt_transitive(views[k], prev_best, best@);
                        lemma_version_lt_trichotomy(views[k], prev_best);
                    }
                }
            }
        } else {
            proof {
                lemma_version_lt_trichotomy(views[i as int], best@);
            }
        }
        i += 1;
    }
    Some(best)
}

} // verus!

verus! {

/// The bump of the selected kind.
pub open spec fn spec_bump(v: VersionView, breaking: bool) -> VersionView {
    if breaking {
        spec_bump_breaking(v)
    } else {
        spec_bump_compatible(v)
    }
}

/// The bump step of the version policy: with no previous versions, strip a
/// pre-release tag or report no change; otherwise take the highest of the
/// current version and the latest previous version, clear its pre-release
/// tag and bump it per the heuristic.
pub fn maybe_bump_version(
    prev_versions: Vec<Version>,
    current_version: Version,
    bump_mode: &VersionBumpHeuristic,
) -> (r: Option<Version>)
    requires
        bounded(current_version@),
        forall|i: int|
            0 <= i < prev_versions@.len() ==> bounded(#[trigger] prev_versions@[i]@),
    ensures
        match r {
            Some(v) => if prev_versions@.len() == 0 {
                current_version@.pre.len() > 0 && v@ =~= spec_strip_pre(current_version@)
            } else {
                exists|l: VersionView|
                    #[trigger] is_max_of(l, version_views(prev_versions@)) && v@ =~= spec_bump(
                        spec_strip_pre(spec_max2(current_version@, l)),
                        *bump_mode matches VersionBumpHeuristic::Breaking,
                    )
            },
            None => prev_versions@.len() == 0 && current_version@.pre.len() == 0,
        },
        current_version.wf() && (forall|i: int|
            0 <= i < prev_versions@.len() ==> #[trigger] prev_versions@[i].wf()) ==> match r {
            Some(v) => v.wf(),
            None => true,
        },
{
    let ghost views = version_views(prev_versions@);
    match max_version(&prev_versions) {
        None => {
            if current_version.has_pre() {
                Some(current_version.strip_pre())
            } else {
                None
            }
        },
        Some(latest) => {
            proof {
                let k = choose|k: int| 0 <= k < views.len() && views[k] == latest@;
                assert(bounded(prev_versions@[k]@));
                assert(prev_versions@[k].wf() ==> latest@.wf());
            }
            let m = if latest.lt(&current_version) {
                current_version
            } else {
                latest
            };
            let stripped = m.strip_pre();
            let bumped = match bump_mode {
                VersionBumpHeuristic::Breaking => bump_for_breaking_change(stripped),
                VersionBumpHeuristic::Compatible => bump_for_compatible_change(stripped),
            };
            Some(bumped)
        },
    }
}

/// The bump step with the `Breaking` heuristic.
pub fn maybe_bump_for_breaking_change(prev_versions: Vec<Version>, current_version: Version) -> (r:
    Option<Version>)
    requires
        bounded(current_version@),
        forall|i: int|
            0 <= i < prev_versions@.len() ==> bounded(#[trigger] prev_versions@[i]@),
    ensures
        match r {
            Some(v) => if prev_versions@.len() == 0 {
                current_version@.pre.len() > 0 && v@ =~= spec_strip_pre(current_version@)
            } else {
                exists|l: VersionView|
                    #[trigger] is_max_of(l, version_views(prev_versions@)) && v@ =~= spec_bump(
                        spec_strip_pre(spec_max2(current_version@, l)),
                        true,
                    )
            },
            None => prev_versions@.len() == 0 && current_version@.pre.len() == 0,
        },
{
    maybe_bump_version(prev_versions, current_version, &VersionBumpHeuristic::Breaking)
}

/// The bump step with the `Compatible` heuristic.
pub fn maybe_bump_for_compatible_change(
    prev_versions: Vec<Version>,
    current_version: Version,
) -> (r: Option<Version>)
    requires
        bounded(current_version@),
        forall|i: int|
            0 <= i < prev_versions@.len() ==> bounded(#[trigger] prev_versions@[i]@),
    ensures
        match r {
            Some(v) => if prev_versions@.len() == 0 {
                current_version@.pre.len() > 0 && v@ =~= spec_strip_pre(current_version@)
            } else {
                exists|l: VersionView|
                    #[trigger] is_max_of(l, version_views(prev_versions@)) && v@ =~= spec_bump(
                        spec_strip_pre(spec_max2(current_version@, l)),
                        false,
                    )
            },
            None => prev_versions@.len() == 0 && current_version@.pre.len() == 0,
        },
{
    maybe_bump_version(prev_versions, current_version, &VersionBumpHeuristic::Compatible)
}

/// Precedence-or-equal: the reflexive closure of precedence over the
/// precedence-relevant components.
pub open spec fn prec_le(a: VersionView, b: VersionView) -> bool {
    a.precedence_lt(b) || a.precedence_eq(b)
}

proof fn lemma_total_le_implies_prec_le(a: VersionView, b: VersionView)
    requires
        a.le(b),
    ensures
        prec_le(a, b),
{
}

proof fn lemma_prec_le_transitive(a: VersionView, b: VersionView, c: VersionView)
    requires
        prec_le(a, b),
        prec_le(b, c),
    ensures
        prec_le(a, c),
{
    if a.precedence_lt(b) && b.precedence_lt(c) {
        lemma_precedence_lt_transitive(a, b, c);
    }
}

proof fn lemma_prec_le_lt_trans(a: VersionView, b: VersionView, c: VersionView)
    requires
        prec_le(a, b),
        b.precedence_lt(c),
    ensures
        a.precedence_lt(c),
{
    if a.precedence_lt(b) {
        lemma_precedence_lt_transitive(a, b, c);
    }
}

/// Bump monotonicity: whenever the bump step returns a changed version,
/// that version is strictly higher under SemVer precedence than the
/// current version and than every previous version. The hypotheses are
/// exactly what the bump step ensures of a changed result.
pub proof fn lemma_bump_monotonic(
    prevs: Seq<VersionView>,
    current: VersionView,
    result: VersionView,
    breaking: bool,
)
    requires
        (prevs.len() == 0 && current.pre.len() > 0 && result =~= spec_strip_pre(current)) || (
        prevs.len() > 0 && exists|l: VersionView|
            #[trigger] is_max_of(l, prevs) && result =~= spec_bump(
                spec_strip_pre(spec_max2(current, l)),
                breaking,
            )),
    ensures
        current.precedence_lt(result),
        forall|i: int| 0 <= i < prevs.len() ==> #[trigger] prevs[i].precedence_lt(result),
{
    if prevs.len() == 0 {
        assert(current.precedence_lt(result));
    } else {
        let l = choose|l: VersionView|
            #[trigger] is_max_of(l, prevs) && result =~= spec_bump(
                spec_strip_pre(spec_max2(current, l)),
                breaking,
            );
        let m = spec_max2(current, l);
        let stripped = spec_strip_pre(m);
        // The stripped maximum has no pre-release tag, so the bump
        // strictly increases a numeric component.
        assert(stripped.precedence_lt(result));
        // The current version and every previous version sit at or below
        // the maximum under precedence.
        lemma_version_lt_trichotomy(l, current);
        assert(current.le(m) && l.le(m));
        lemma_total_le_implies_prec_le(current, m);
        lemma_total_le_implies_prec_le(l, m);
        if m.pre.len() == 0 {
            assert(m.pre =~= stripped.pre);
        }
        assert(prec_le(m, stripped));
        lemma_prec_le_transitive(current, m, stripped);
        lemma_prec_le_lt_trans(current, stripped, result);
        assert forall|i: int| 0 <= i < prevs.len() implies #[trigger] prevs[i].precedence_lt(
            result,
        ) by {
            assert(prevs[i].le(l));
            lemma_total_le_implies_prec_le(prevs[i], l);
            lemma_prec_le_transitive(prevs[i], l, m);
            lemma_prec_le_transitive(prevs[i], m, stripped);
            lemma_prec_le_lt_trans(prevs[i], stripped, result);
        }
    }
}

} // verus!

verus! {

/// The character for one decimal digit.
pub open spec fn digit_char(n: int) -> char {
    if n == 0 {
        '0'
    } else if n == 1 {
        '1'
    } else if n == 2 {
        '2'
    } else if n == 3 {
        '3'
    } else if n == 4 {
        '4'
    } else if n == 5 {
        '5'
    } else if n == 6 {
        '6'
    } else if n == 7 {
        '7'
    } else if n == 8 {
        '8'
    } else {
        '9'
    }
}

/// The decimal rendering of a nonnegative integer, most significant digit
/// first, without leading zeros.
pub open spec fn dec_digits(n: int) -> Seq<char>
    decreases n,
{
    if n < 10 {
        seq![digit_char(n)]
    } else {
        dec_digits(n / 10) + seq![digit_char(n % 10)]
    }
}

/// One decimal digit as a string slice.
fn digit_str(d: u64) -> (r: &'static str)
    requires
        d < 10,
    ensures
        r@ =~= seq![digit_char(d as int)],
{
    proof {
        reveal_strlit("0");
        reveal_strlit("1");
        reveal_strlit("2");
        reveal_strlit("3");
        reveal_strlit("4");
        reveal_strlit("5");
        reveal_strlit("6");
        reveal_strlit("7");
        reveal_strlit("8");
        reveal_strlit("9");
    }
    if d == 0 {
        "0"
    } else if d == 1 {
        "1"
    } else if d == 2 {
        "2"
    } else if d == 3 {
        "3"
    } else if d == 4 {
        "4"
    } else if d == 5 {
        "5"
    } else if d == 6 {
        "6"
    } else if d == 7 {
        "7"
    } else if d == 8 {
        "8"
    } else {
        "9"
    }
}

/// The decimal rendering of `n`.
pub fn u64_to_string(n: u64) -> (r: String)
    ensures
        r@ =~= dec_digits(n as int),
    decreases n,
{
    if n < 10 {
        digit_str(n).to_owned()
    } else {
        let mut s = u64_to_string(n / 10);
        s.append(digit_str(n % 10));
        s
    }
}

/// Appending one more segment to a dot-joined rendering.
proof fn lemma_joined_push(segs: Seq<Seq<char>>, x: Seq<char>)
    ensures
        joined(segs.push(x)) =~= if segs.len() == 0 {
            x
        } else {
            joined(segs) + seq!['.'] + x
        },
    decreases segs.len(),
{
    if segs.len() == 0 {
        assert(segs.push(x).len() == 1);
        assert(joined(segs.push(x)) == segs.push(x)[0]);
    } else {
        lemma_joined_push(segs.drop_first(), x);
        assert(segs.push(x).drop_first() =~= segs.drop_first().push(x));
        if segs.len() == 1 {
            assert(joined(segs) == segs[0]);
        }
    }
}

/// Append the dot-joined segments to `out`.
fn append_joined(out: &mut String, segs: &Vec<String>)
    ensures
        final(out)@ =~= old(out)@ + joined(seg_views(segs@)),
{
    let ghost base = out@;
    let ghost views = seg_views(segs@);
    let n = segs.len();
    let mut i: usize = 0;
    proof {
        assert(views.take(0) =~= Seq::<Seq<char>>::empty());
        assert(base + joined(views.take(0)) =~= base);
    }
    while i < n
        invariant
            n == segs@.len(),
            views == seg_views(segs@),
            0 <= i <= n,
            out@ =~= base + joined(views.take(i as int)),
        decreases n - i,
    {
        if i > 0 {
            proof {
                reveal_strlit(".");
            }
            out.append(".");
        }
        out.append(segs[i].as_str());
        proof {
            assert(views.take(i + 1) =~= views.take(i as int).push(views[i as int]));
            lemma_joined_push(views.take(i as int), views[i as int]);
            reveal_strlit(".");
        }
        i += 1;
    }
    proof {
        assert(views.take(n as int) =~= views);
    }
}

/// The canonical rendering of a version:
/// `major.minor.patch[-pre][+build]`.
pub open spec fn spec_render(v: VersionView) -> Seq<char> {
    dec_digits(v.major) + seq!['.'] + dec_digits(v.minor) + seq!['.'] + dec_digits(v.patch) + (
    if v.pre.len() > 0 {
        seq!['-'] + joined(v.pre)
    } else {
        Seq::<char>::empty()
    }) + (if v.build.len() > 0 {
        seq!['+'] + joined(v.build)
    } else {
        Seq::<char>::empty()
    })
}

impl Version {
    /// Render the version in its canonical form.
    pub fn to_display_string(&self) -> (r: String)
        ensures
            r@ =~= spec_render(self@),
    {
        proof {
            reveal_strlit(".");
            reveal_strlit("-");
            reveal_strlit("+");
        }
        let mut s = u64_to_string(self.major);
        s.append(".");
        let minor_s = u64_to_string(self.minor);
        s.append(minor_s.as_str());
        s.append(".");
        let patch_s = u64_to_string(self.patch);
        s.append(patch_s.as_str());
        if self.pre.len() > 0 {
            s.append("-");
            append_joined(&mut s, &self.pre);
        }
        if self.build.len() > 0 {
            s.append("+");
            append_joined(&mut s, &self.build);
        }
        s
    }
}

} // verus!

verus! {

/// Every segment of a nonempty pre-release string is a valid pre-release
/// identifier; an empty string carries no pre-release tag at all.
pub open spec fn valid_pre_segments_str(s: Seq<char>) -> bool {
    s.len() == 0 || forall|i: int|
        0 <= i < split_dots(s).len() ==> valid_pre_ident(#[trigger] split_dots(s)[i])
}

/// Every segment of a nonempty build metadata string is a valid build
/// identifier; an empty string carries no build metadata at all.
pub open spec fn valid_build_segments_str(s: Seq<char>) -> bool {
    s.len() == 0 || forall|i: int|
        0 <= i < split_dots(s).len() ==> valid_build_ident(#[trigger] split_dots(s)[i])
}

/// What `semver::Version::parse` returns for a given input: the numeric
/// components and the raw pre-release and build metadata strings, or
/// nothing when the input is not a SemVer 2.0.0 version.
pub uninterp spec fn semver_components(s: Seq<char>) -> Option<(u64, u64, u64, Seq<char>, Seq<char>)>;

/// Relies on semver::Version::parse: it accepts exactly the SemVer 2.0.0
/// version syntax, and its result depends on the characters of the input
/// alone.
#[verifier::external_body]
fn semver_parse_components(s: &str) -> (r: Option<(u64, u64, u64, String, String)>)
    ensures
        match r {
            Some(c) => semver_components(s@) == Some((c.0, c.1, c.2, c.3@, c.4@)),
            None => semver_components(s@) is None,
        },
{
    match semver::Version::parse(s) {
        Ok(v) => Some(
            (v.major, v.minor, v.patch, v.pre.as_str().to_owned(), v.build.as_str().to_owned()),
        ),
        Err(_) => None,
    }
}

/// Split a pre-release or build string into segments and validate each;
/// an empty string yields no segments.
fn parse_segments(s: &str, forbid_leading_zero: bool) -> (r: Option<Vec<String>>)
    ensures
        match r {
            Some(v) => {
                &&& s@.len() == 0 ==> v@.len() == 0
                &&& s@.len() > 0 ==> seg_views(v@) =~= split_dots(s@)
                &&& forbid_leading_zero ==> valid_pre_segments_str(s@) && (forall|i: int|
                    0 <= i < seg_views(v@).len() ==> valid_pre_ident(#[trigger] seg_views(v@)[i]))
                &&& !forbid_leading_zero ==> valid_build_segments_str(s@) && (forall|i: int|
                    0 <= i < seg_views(v@).len() ==> valid_build_ident(
                        #[trigger] seg_views(v@)[i],
                    ))
            },
            None => {
                &&& s@.len() > 0
                &&& forbid_leading_zero ==> !valid_pre_segments_str(s@)
                &&& !forbid_leading_zero ==> !valid_build_segments_str(s@)
            },
        },
{
    if s.unicode_len() == 0 {
        let v: Vec<String> = Vec::new();
        proof {
            assert(seg_views(v@) =~= Seq::<Seq<char>>::empty());
        }
        return Some(v);
    }
    let segs = split_dots_exec(s);
    let n = segs.len();
    let mut i: usize = 0;
    while i < n
        invariant
            s@.len() > 0,
            n == segs@.len(),
            seg_views(segs@) =~= split_dots(s@),
            0 <= i <= n,
            forbid_leading_zero ==> forall|k: int|
                0 <= k < i ==> valid_pre_ident(#[trigger] seg_views(segs@)[k]),
            !forbid_leading_zero ==> forall|k: int|
                0 <= k < i ==> valid_build_ident(#[trigger] seg_views(segs@)[k]),
        decreases n - i,
    {
        if !check_ident(&segs[i], forbid_leading_zero) {
            proof {
                assert(seg_views(segs@)[i as int] == segs@[i as int]@);
            }
            return None;
        }
        i += 1;
    }
    Some(segs)
}

/// Parse a SemVer 2.0.0 version string.
pub fn parse_version(s: &str) -> (r: Option<Version>)
    ensures
        match r {
            Some(v) => match semver_components(s@) {
                Some(c) => {
                    &&& v@.major == c.0 as int
                    &&& v@.minor == c.1 as int
                    &&& v@.patch == c.2 as int
                    &&& c.3.len() == 0 ==> v@.pre.len() == 0
                    &&& c.3.len() > 0 ==> v@.pre =~= split_dots(c.3)
                    &&& c.4.len() == 0 ==> v@.build.len() == 0
                    &&& c.4.len() > 0 ==> v@.build =~= split_dots(c.4)
                    &&& v.wf()
                },
                None => false,
            },
            None => match semver_components(s@) {
                Some(c) => !valid_pre_segments_str(c.3) || !valid_build_segments_str(c.4),
                None => true,
            },
        },
{
    match semver_parse_components(s) {
        None => None,
        Some(c) => {
            let (major, minor, patch, pre_raw, build_raw) = c;
            let pre = match parse_segments(pre_raw.as_str(), true) {
                Some(v) => v,
                None => {
                    return None;
                },
            };
            let build = match parse_segments(build_raw.as_str(), false) {
                Some(v) => v,
                None => {
                    return None;
                },
            };
            Some(Version { major, minor, patch, pre, build })
        },
    }
}

} // verus!
