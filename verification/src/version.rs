//! Semantic versions: the data model, precedence ordering, increment
//! operations, and conversion to and from `major.minor.patch[-pre][+build]`
//! text.

use vstd::prelude::*;

verus! {

use vstd::string::StrSliceExecFns;
use vstd::string::StringExecFns;

/// Mathematical model of a semantic version: the numeric triple plus
/// pre-release and build identifier lists (an empty list means the part is
/// absent).
#[verifier::ext_equal]
pub ghost struct VersionModel {
    pub major: nat,
    pub minor: nat,
    pub patch: nat,
    pub pre: Seq<Seq<char>>,
    pub build: Seq<Seq<char>>,
}

/// A semantic version. Pre-release and build metadata are stored as their
/// dot-separated identifiers.
pub struct Version {
    pub major: u64,
    pub minor: u64,
    pub patch: u64,
    pub pre: Vec<String>,
    pub build: Vec<String>,
}

impl View for Version {
    type V = VersionModel;

    open spec fn view(&self) -> VersionModel {
        VersionModel {
            major: self.major as nat,
            minor: self.minor as nat,
            patch: self.patch as nat,
            pre: self.pre@.map_values(|s: String| s@),
            build: self.build@.map_values(|s: String| s@),
        }
    }
}

/// True when `c` is an ASCII decimal digit.
pub open spec fn is_digit(c: char) -> bool {
    '0' <= c && c <= '9'
}

/// Numeric value of a digit character.
pub open spec fn digit_val(c: char) -> nat {
    (c as u32 - '0' as u32) as nat
}

/// True when every character of `s` is a digit.
pub open spec fn all_digits(s: Seq<char>) -> bool {
    forall|i: int| 0 <= i < s.len() ==> is_digit(#[trigger] s[i])
}

/// Value of a digit string read in base ten.
pub open spec fn num_val(s: Seq<char>) -> nat
    decreases s.len(),
{
    if s.len() == 0 {
        0
    } else {
        num_val(s.drop_last()) * 10 + digit_val(s.last())
    }
}

/// True when `c` may appear in a pre-release or build identifier.
pub open spec fn is_ident_char(c: char) -> bool {
    is_digit(c) || ('a' <= c && c <= 'z') || ('A' <= c && c <= 'Z') || c == '-'
}

/// A well-formed identifier: non-empty, alphanumerics and hyphens only.
pub open spec fn valid_ident(s: Seq<char>) -> bool {
    s.len() > 0 && forall|i: int| 0 <= i < s.len() ==> is_ident_char(#[trigger] s[i])
}

/// An identifier consisting solely of digits, compared numerically.
pub open spec fn is_numeric_ident(s: Seq<char>) -> bool {
    s.len() > 0 && all_digits(s)
}

/// A well-formed pre-release identifier: numeric identifiers may not have
/// leading zeros and must fit in a machine word.
pub open spec fn valid_pre_ident(s: Seq<char>) -> bool {
    valid_ident(s) && (is_numeric_ident(s) ==> ((s[0] == '0' ==> s.len() == 1) && num_val(s)
        <= u64::MAX as nat))
}

pub open spec fn valid_pre_ids(ids: Seq<Seq<char>>) -> bool {
    forall|i: int| 0 <= i < ids.len() ==> valid_pre_ident(#[trigger] ids[i])
}

pub open spec fn valid_build_ids(ids: Seq<Seq<char>>) -> bool {
    forall|i: int| 0 <= i < ids.len() ==> valid_ident(#[trigger] ids[i])
}

/// Well-formedness of a version model: the triple fits in machine words and
/// the identifier lists are valid.
pub open spec fn wf_model(v: VersionModel) -> bool {
    v.major <= u64::MAX as nat && v.minor <= u64::MAX as nat && v.patch <= u64::MAX as nat
        && valid_pre_ids(v.pre) && valid_build_ids(v.build)
}

/// The version `0.0.0`.
pub open spec fn zero_model() -> VersionModel {
    VersionModel {
        major: 0,
        minor: 0,
        patch: 0,
        pre: Seq::empty(),
        build: Seq::empty(),
    }
}

/// Lexicographic (code-point) order on character sequences.
pub open spec fn lex_lt(a: Seq<char>, b: Seq<char>) -> bool
    decreases a.len(),
{
    if b.len() == 0 {
        false
    } else if a.len() == 0 {
        true
    } else if a[0] == b[0] {
        lex_lt(a.skip(1), b.skip(1))
    } else {
        (a[0] as u32) < (b[0] as u32)
    }
}

/// Semantic-versioning order on single identifiers: numeric identifiers
/// compare numerically and rank below alphanumeric ones, which compare
/// lexically.
pub open spec fn ident_lt(a: Seq<char>, b: Seq<char>) -> bool {
    if is_numeric_ident(a) && is_numeric_ident(b) {
        num_val(a) < num_val(b)
    } else if is_numeric_ident(a) {
        true
    } else if is_numeric_ident(b) {
        false
    } else {
        lex_lt(a, b)
    }
}

/// Order on identifier lists: identifier by identifier, a shorter list that
/// is a prefix of a longer one ranking below it.
pub open spec fn idents_lt(a: Seq<Seq<char>>, b: Seq<Seq<char>>) -> bool
    decreases a.len(),
{
    if b.len() == 0 {
        false
    } else if a.len() == 0 {
        true
    } else if a[0] == b[0] {
        idents_lt(a.skip(1), b.skip(1))
    } else {
        ident_lt(a[0], b[0])
    }
}

/// Order on pre-release parts: a version with no pre-release outranks an
/// otherwise-equal version with one.
pub open spec fn pre_lt(a: Seq<Seq<char>>, b: Seq<Seq<char>>) -> bool {
    if a.len() == 0 {
        false
    } else if b.len() == 0 {
        true
    } else {
        idents_lt(a, b)
    }
}

/// Semantic-versioning precedence: numeric comparison of major, then minor,
/// then patch, then the pre-release rule. Build metadata is ignored.
pub open spec fn ver_lt(a: VersionModel, b: VersionModel) -> bool {
    if a.major != b.major {
        a.major < b.major
    } else if a.minor != b.minor {
        a.minor < b.minor
    } else if a.patch != b.patch {
        a.patch < b.patch
    } else {
        pre_lt(a.pre, b.pre)
    }
}

proof fn lemma_lex_lt_irrefl(a: Seq<char>)
    ensures
        !lex_lt(a, a),
    decreases a.len(),
{
    if a.len() > 0 {
        lemma_lex_lt_irrefl(a.skip(1));
    }
}

proof fn lemma_lex_lt_trans(a: Seq<char>, b: Seq<char>, c: Seq<char>)
    requires
        lex_lt(a, b),
        lex_lt(b, c),
    ensures
        lex_lt(a, c),
    decreases a.len(),
{
    if a.len() > 0 && b.len() > 0 && c.len() > 0 {
        if a[0] == b[0] && b[0] == c[0] {
            lemma_lex_lt_trans(a.skip(1), b.skip(1), c.skip(1));
        }
    }
}

proof fn lemma_ident_lt_irrefl(a: Seq<char>)
    ensures
        !ident_lt(a, a),
{
    lemma_lex_lt_irrefl(a);
}

proof fn lemma_ident_lt_trans(a: Seq<char>, b: Seq<char>, c: Seq<char>)
    requires
        ident_lt(a, b),
        ident_lt(b, c),
    ensures
        ident_lt(a, c),
{
    if !is_numeric_ident(a) && !is_numeric_ident(b) && !is_numeric_ident(c) {
        lemma_lex_lt_trans(a, b, c);
    }
}

proof fn lemma_idents_lt_irrefl(a: Seq<Seq<char>>)
    ensures
        !idents_lt(a, a),
    decreases a.len(),
{
    if a.len() > 0 {
        lemma_idents_lt_irrefl(a.skip(1));
    }
}

proof fn lemma_idents_lt_trans(a: Seq<Seq<char>>, b: Seq<Seq<char>>, c: Seq<Seq<char>>)
    requires
        idents_lt(a, b),
        idents_lt(b, c),
    ensures
        idents_lt(a, c),
    decreases a.len(),
{
    if a.len() > 0 && b.len() > 0 && c.len() > 0 {
        if a[0] == b[0] && b[0] == c[0] {
            lemma_idents_lt_trans(a.skip(1), b.skip(1), c.skip(1));
        } else if a[0] == b[0] {
            // order decided by ident_lt(b[0], c[0]) == ident_lt(a[0], c[0])
        } else if b[0] == c[0] {
            // order decided by ident_lt(a[0], b[0]) == ident_lt(a[0], c[0])
        } else {
            lemma_ident_lt_trans(a[0], b[0], c[0]);
            if a[0] == c[0] {
                lemma_ident_lt_irrefl(a[0]);
            }
        }
    }
}

/// Precedence is irreflexive.
pub proof fn lemma_ver_lt_irrefl(a: VersionModel)
    ensures
        !ver_lt(a, a),
{
    lemma_idents_lt_irrefl(a.pre);
}

/// Precedence is transitive.
pub proof fn lemma_ver_lt_trans(a: VersionModel, b: VersionModel, c: VersionModel)
    requires
        ver_lt(a, b),
        ver_lt(b, c),
    ensures
        ver_lt(a, c),
{
    if a.major == b.major && b.major == c.major && a.minor == b.minor && b.minor == c.minor
        && a.patch == b.patch && b.patch == c.patch {
        if a.pre.len() > 0 && b.pre.len() > 0 && c.pre.len() > 0 {
            lemma_idents_lt_trans(a.pre, b.pre, c.pre);
        }
    }
}

proof fn lemma_num_val_prefix(s: Seq<char>, i: int)
    requires
        0 <= i <= s.len(),
    ensures
        num_val(s.take(i)) <= num_val(s),
    decreases s.len() - i,
{
    if i == s.len() {
        assert(s.take(i) =~= s);
    } else {
        lemma_num_val_prefix(s, i + 1);
        assert(s.take(i + 1).drop_last() =~= s.take(i));
        assert(s.take(i + 1).last() == s[i]);
    }
}

fn is_numeric_ident_exec(s: &String) -> (r: bool)
    ensures
        r == is_numeric_ident(s@),
{
    let len = s.as_str().unicode_len();
    if len == 0 {
        return false;
    }
    let mut i: usize = 0;
    while i < len
        invariant
            len == s@.len(),
            i <= len,
            forall|k: int| 0 <= k < i ==> is_digit(#[trigger] s@[k]),
        decreases len - i,
    {
        let c = s.as_str().get_char(i);
        let u = c as u32;
        if u < 48 || u > 57 {
            proof {
                assert(!is_digit(s@[i as int]));
            }
            return false;
        }
        i += 1;
    }
    true
}

fn num_val_exec(s: &String) -> (r: u64)
    requires
        is_numeric_ident(s@),
        num_val(s@) <= u64::MAX as nat,
    ensures
        r as nat == num_val(s@),
{
    let len = s.as_str().unicode_len();
    let mut val: u64 = 0;
    let mut i: usize = 0;
    while i < len
        invariant
            len == s@.len(),
            i <= len,
            is_numeric_ident(s@),
            num_val(s@) <= u64::MAX as nat,
            val as nat == num_val(s@.take(i as int)),
        decreases len - i,
    {
        let c = s.as_str().get_char(i);
        proof {
            assert(is_digit(s@[i as int]));
            lemma_num_val_prefix(s@, i as int + 1);
            assert(s@.take(i as int + 1).drop_last() =~= s@.take(i as int));
            assert(s@.take(i as int + 1).last() == s@[i as int]);
        }
        let d = (c as u32 - 48) as u64;
        val = val * 10 + d;
        i += 1;
    }
    proof {
        assert(s@.take(len as int) =~= s@);
    }
    val
}

fn lex_lt_exec(a: &String, b: &String) -> (r: bool)
    ensures
        r == lex_lt(a@, b@),
{
    let alen = a.as_str().unicode_len();
    let blen = b.as_str().unicode_len();
    proof {
        assert(a@.skip(0) =~= a@);
        assert(b@.skip(0) =~= b@);
    }
    let mut i: usize = 0;
    while i < alen && i < blen
        invariant
            alen == a@.len(),
            blen == b@.len(),
            i <= alen,
            i <= blen,
            lex_lt(a@, b@) == lex_lt(a@.skip(i as int), b@.skip(i as int)),
        decreases alen - i,
    {
        let ca = a.as_str().get_char(i);
        let cb = b.as_str().get_char(i);
        proof {
            assert(a@.skip(i as int)[0] == a@[i as int]);
            assert(b@.skip(i as int)[0] == b@[i as int]);
            assert(a@.skip(i as int).skip(1) =~= a@.skip(i as int + 1));
            assert(b@.skip(i as int).skip(1) =~= b@.skip(i as int + 1));
        }
        if ca != cb {
            return (ca as u32) < (cb as u32);
        }
        i += 1;
    }
    proof {
        assert(a@.skip(i as int).len() == a@.len() - i);
        assert(b@.skip(i as int).len() == b@.len() - i);
    }
    i < blen
}

fn ident_lt_exec(a: &String, b: &String) -> (r: bool)
    requires
        valid_pre_ident(a@),
        valid_pre_ident(b@),
    ensures
        r == ident_lt(a@, b@),
{
    let a_num = is_numeric_ident_exec(a);
    let b_num = is_numeric_ident_exec(b);
    if a_num && b_num {
        num_val_exec(a) < num_val_exec(b)
    } else if a_num {
        true
    } else if b_num {
        false
    } else {
        lex_lt_exec(a, b)
    }
}

/// Precedence comparison: does `a` rank strictly below `b`?
pub fn version_lt(a: &Version, b: &Version) -> (r: bool)
    requires
        wf_model(a@),
        wf_model(b@),
    ensures
        r == ver_lt(a@, b@),
{
    if a.major != b.major {
        return a.major < b.major;
    }
    if a.minor != b.minor {
        return a.minor < b.minor;
    }
    if a.patch != b.patch {
        return a.patch < b.patch;
    }
    let alen = a.pre.len();
    let blen = b.pre.len();
    if alen == 0 {
        return false;
    }
    if blen == 0 {
        return true;
    }
    let ghost pa = a@.pre;
    let ghost pb = b@.pre;
    proof {
        assert(pa.skip(0) =~= pa);
        assert(pb.skip(0) =~= pb);
    }
    let mut i: usize = 0;
    while i < alen && i < blen
        invariant
            alen == pa.len(),
            blen == pb.len(),
            alen == a.pre.len(),
            blen == b.pre.len(),
            pa == a@.pre,
            pb == b@.pre,
            wf_model(a@),
            wf_model(b@),
            a.major == b.major,
            a.minor == b.minor,
            a.patch == b.patch,
            alen > 0,
            blen > 0,
            i <= alen,
            i <= blen,
            idents_lt(pa, pb) == idents_lt(pa.skip(i as int), pb.skip(i as int)),
        decreases alen - i,
    {
        proof {
            assert(pa[i as int] == a.pre@[i as int]@);
            assert(pb[i as int] == b.pre@[i as int]@);
            assert(pa.skip(i as int)[0] == pa[i as int]);
            assert(pb.skip(i as int)[0] == pb[i as int]);
            assert(pa.skip(i as int).skip(1) =~= pa.skip(i as int + 1));
            assert(pb.skip(i as int).skip(1) =~= pb.skip(i as int + 1));
        }
        if !crate::strutil::str_eq(a.pre[i].as_str(), b.pre[i].as_str()) {
            proof {
                assert(valid_pre_ident(a@.pre[i as int]));
                assert(valid_pre_ident(b@.pre[i as int]));
                assert(pa.skip(i as int).len() > 0);
                assert(pb.skip(i as int).len() > 0);
                assert(pa[i as int] != pb[i as int]);
                assert(idents_lt(pa.skip(i as int), pb.skip(i as int)) == ident_lt(
                    pa[i as int],
                    pb[i as int],
                ));
            }
            return ident_lt_exec(&a.pre[i], &b.pre[i]);
        }
        i += 1;
    }
    proof {
        assert(pa.skip(i as int).len() == pa.len() - i);
        assert(pb.skip(i as int).len() == pb.len() - i);
    }
    i < blen
}

/// The kind of version increment.
#[derive(Clone, Copy, PartialEq, Eq, Structural, Debug)]
pub enum IncKind {
    Major,
    Minor,
    Patch,
}

/// The increment kind named by `s`: unknown names fall back to `Patch`.
pub open spec fn spec_inc_kind(s: Seq<char>) -> IncKind {
    if s == "major"@ {
        IncKind::Major
    } else if s == "minor"@ {
        IncKind::Minor
    } else {
        IncKind::Patch
    }
}

/// Maps an increment-kind name to the kind, with `Patch` as the fallback for
/// both `"patch"` and anything unrecognized.
pub fn inc_kind_of(s: &str) -> (r: IncKind)
    ensures
        r == spec_inc_kind(s@),
{
    if crate::strutil::str_eq(s, "major") {
        IncKind::Major
    } else if crate::strutil::str_eq(s, "minor") {
        IncKind::Minor
    } else {
        IncKind::Patch
    }
}

/// The result of incrementing `v` by `kind`: the selected component is
/// bumped, lower components reset to zero, and pre-release and build
/// metadata are cleared.
pub open spec fn spec_increment(v: VersionModel, kind: IncKind) -> VersionModel {
    match kind {
        IncKind::Major => VersionModel {
            major: v.major + 1,
            minor: 0,
            patch: 0,
            pre: Seq::empty(),
            build: Seq::empty(),
        },
        IncKind::Minor => VersionModel {
            major: v.major,
            minor: v.minor + 1,
            patch: 0,
            pre: Seq::empty(),
            build: Seq::empty(),
        },
        IncKind::Patch => VersionModel {
            major: v.major,
            minor: v.minor,
            patch: v.patch + 1,
            pre: Seq::empty(),
            build: Seq::empty(),
        },
    }
}

/// Produces the next version after `v` for the given increment kind.
pub fn increment(v: &Version, kind: IncKind) -> (r: Version)
    requires
        kind == IncKind::Major ==> v.major < u64::MAX,
        kind == IncKind::Minor ==> v.minor < u64::MAX,
        kind == IncKind::Patch ==> v.patch < u64::MAX,
    ensures
        r@ == spec_increment(v@, kind),
        wf_model(r@),
{
    let r = match kind {
        IncKind::Major => Version {
            major: v.major + 1,
            minor: 0,
            patch: 0,
            pre: Vec::new(),
            build: Vec::new(),
        },
        IncKind::Minor => Version {
            major: v.major,
            minor: v.minor + 1,
            patch: 0,
            pre: Vec::new(),
            build: Vec::new(),
        },
        IncKind::Patch => Version {
            major: v.major,
            minor: v.minor,
            patch: v.patch + 1,
            pre: Vec::new(),
            build: Vec::new(),
        },
    };
    proof {
        assert(r.pre@.map_values(|s: String| s@) =~= Seq::<Seq<char>>::empty());
        assert(r.build@.map_values(|s: String| s@) =~= Seq::<Seq<char>>::empty());
    }
    r
}

/// Decimal digit character for `d` in `0..10`.
pub open spec fn digit_char(d: nat) -> char {
    if d == 0 {
        '0'
    } else if d == 1 {
        '1'
    } else if d == 2 {
        '2'
    } else if d == 3 {
        '3'
    } else if d == 4 {
        '4'
    } else if d == 5 {
        '5'
    } else if d == 6 {
        '6'
    } else if d == 7 {
        '7'
    } else if d == 8 {
        '8'
    } else {
        '9'
    }
}

/// Decimal digits of `n`, most significant first, without leading zeros.
pub open spec fn digits_of(n: nat) -> Seq<char>
    decreases n,
{
    if n < 10 {
        seq![digit_char(n)]
    } else {
        digits_of(n / 10).push(digit_char(n % 10))
    }
}

/// The identifiers joined with dots.
pub open spec fn join_dot(ids: Seq<Seq<char>>) -> Seq<char>
    decreases ids.len(),
{
    if ids.len() == 0 {
        Seq::empty()
    } else if ids.len() == 1 {
        ids[0]
    } else {
        ids[0] + seq!['.'] + join_dot(ids.skip(1))
    }
}

/// Canonical text of a version: `major.minor.patch[-pre][+build]`.
pub open spec fn render(v: VersionModel) -> Seq<char> {
    digits_of(v.major) + seq!['.'] + digits_of(v.minor) + seq!['.'] + digits_of(v.patch) + (if v.pre.len()
        == 0 {
        Seq::<char>::empty()
    } else {
        seq!['-'] + join_dot(v.pre)
    }) + (if v.build.len() == 0 {
        Seq::<char>::empty()
    } else {
        seq!['+'] + join_dot(v.build)
    })
}

/// True when `c` occurs nowhere in `s`.
pub open spec fn has_no_char(s: Seq<char>, c: char) -> bool {
    forall|i: int| 0 <= i < s.len() ==> #[trigger] s[i] != c
}

/// Splits `s` into its maximal digit prefix and the remainder.
pub open spec fn split_digits(s: Seq<char>) -> (Seq<char>, Seq<char>)
    decreases s.len(),
{
    if s.len() > 0 && is_digit(s[0]) {
        let dr = split_digits(s.skip(1));
        (seq![s[0]] + dr.0, dr.1)
    } else {
        (Seq::empty(), s)
    }
}

/// Reads a number from the front of `s`: its maximal digit prefix, which
/// must be non-empty, without leading zeros, and fit in a machine word.
pub open spec fn spec_parse_num(s: Seq<char>) -> Option<(nat, Seq<char>)> {
    let d = split_digits(s).0;
    let r = split_digits(s).1;
    if d.len() == 0 {
        None
    } else if d[0] == '0' && d.len() > 1 {
        None
    } else if num_val(d) > u64::MAX as nat {
        None
    } else {
        Some((num_val(d), r))
    }
}

/// Splits `s` at the first plus sign (the remainder starts with it, or is
/// empty when there is none).
pub open spec fn split_plus(s: Seq<char>) -> (Seq<char>, Seq<char>)
    decreases s.len(),
{
    if s.len() > 0 && s[0] != '+' {
        let pr = split_plus(s.skip(1));
        (seq![s[0]] + pr.0, pr.1)
    } else {
        (Seq::empty(), s)
    }
}

/// Splits `s` into its dot-separated segments.
pub open spec fn split_dot(s: Seq<char>) -> Seq<Seq<char>>
    decreases s.len(),
{
    if s.len() == 0 {
        seq![Seq::<char>::empty()]
    } else if s[0] == '.' {
        seq![Seq::<char>::empty()] + split_dot(s.skip(1))
    } else {
        let rest = split_dot(s.skip(1));
        seq![seq![s[0]] + rest[0]] + rest.skip(1)
    }
}

/// What follows the numeric triple: nothing, a pre-release part, a build
/// part, or both.
pub open spec fn spec_parse_tail(major: nat, minor: nat, patch: nat, s: Seq<char>) -> Option<
    VersionModel,
> {
    if s.len() == 0 {
        Some(
            VersionModel {
                major,
                minor,
                patch,
                pre: Seq::empty(),
                build: Seq::empty(),
            },
        )
    } else if s[0] == '-' {
        let pr = split_plus(s.skip(1));
        let pre = split_dot(pr.0);
        if !valid_pre_ids(pre) {
            None
        } else if pr.1.len() == 0 {
            Some(VersionModel { major, minor, patch, pre, build: Seq::empty() })
        } else {
            let build = split_dot(pr.1.skip(1));
            if valid_build_ids(build) {
                Some(VersionModel { major, minor, patch, pre, build })
            } else {
                None
            }
        }
    } else if s[0] == '+' {
        let build = split_dot(s.skip(1));
        if valid_build_ids(build) {
            Some(VersionModel { major, minor, patch, pre: Seq::empty(), build })
        } else {
            None
        }
    } else {
        None
    }
}

/// Parses `major.minor.patch[-pre][+build]` text into a version model.
pub open spec fn spec_parse(s: Seq<char>) -> Option<VersionModel> {
    match spec_parse_num(s) {
        None => None,
        Some((major, s1)) => if s1.len() == 0 || s1[0] != '.' {
            None
        } else {
            match spec_parse_num(s1.skip(1)) {
                None => None,
                Some((minor, s2)) => if s2.len() == 0 || s2[0] != '.' {
                    None
                } else {
                    match spec_parse_num(s2.skip(1)) {
                        None => None,
                        Some((patch, s3)) => spec_parse_tail(major, minor, patch, s3),
                    }
                },
            }
        },
    }
}

proof fn lemma_split_digits_concat(d: Seq<char>, r: Seq<char>)
    requires
        all_digits(d),
        r.len() == 0 || !is_digit(r[0]),
    ensures
        split_digits(d + r).0 == d,
        split_digits(d + r).1 == r,
    decreases d.len(),
{
    if d.len() == 0 {
        assert(d + r =~= r);
        assert(split_digits(d + r).0 =~= d);
    } else {
        assert((d + r)[0] == d[0]);
        assert((d + r).skip(1) =~= d.skip(1) + r);
        lemma_split_digits_concat(d.skip(1), r);
        assert(seq![(d + r)[0]] + d.skip(1) =~= d);
    }
}

proof fn lemma_split_plus_concat(p: Seq<char>, r: Seq<char>)
    requires
        has_no_char(p, '+'),
        r.len() == 0 || r[0] == '+',
    ensures
        split_plus(p + r).0 == p,
        split_plus(p + r).1 == r,
    decreases p.len(),
{
    if p.len() == 0 {
        assert(p + r =~= r);
        assert(split_plus(p + r).0 =~= p);
    } else {
        assert((p + r)[0] == p[0]);
        assert((p + r).skip(1) =~= p.skip(1) + r);
        lemma_split_plus_concat(p.skip(1), r);
        assert(seq![(p + r)[0]] + p.skip(1) =~= p);
    }
}

proof fn lemma_split_dot_len(t: Seq<char>)
    ensures
        split_dot(t).len() >= 1,
    decreases t.len(),
{
    if t.len() == 0 {
    } else {
        lemma_split_dot_len(t.skip(1));
    }
}

proof fn lemma_split_dot_prepend(id: Seq<char>, r: Seq<char>)
    requires
        has_no_char(id, '.'),
    ensures
        split_dot(id + r).len() >= 1,
        split_dot(id + r)[0] == id + split_dot(r)[0],
        split_dot(id + r).skip(1) == split_dot(r).skip(1),
    decreases id.len(),
{
    lemma_split_dot_len(r);
    lemma_split_dot_len(id + r);
    if id.len() == 0 {
        assert(id + r =~= r);
        assert(id + split_dot(r)[0] =~= split_dot(r)[0]);
    } else {
        assert((id + r)[0] == id[0]);
        assert((id + r).skip(1) =~= id.skip(1) + r);
        lemma_split_dot_prepend(id.skip(1), r);
        let rest = split_dot(id.skip(1) + r);
        assert(split_dot(id + r) == seq![seq![id[0]] + rest[0]] + rest.skip(1));
        assert(seq![id[0]] + (id.skip(1) + split_dot(r)[0]) =~= id + split_dot(r)[0]);
        assert((seq![seq![id[0]] + rest[0]] + rest.skip(1)).skip(1) =~= rest.skip(1));
    }
}

proof fn lemma_split_join(ids: Seq<Seq<char>>)
    requires
        ids.len() > 0,
        forall|i: int| 0 <= i < ids.len() ==> has_no_char(#[trigger] ids[i], '.'),
    ensures
        split_dot(join_dot(ids)) == ids,
    decreases ids.len(),
{
    if ids.len() == 1 {
        lemma_split_dot_prepend(ids[0], Seq::empty());
        assert(ids[0] + Seq::<char>::empty() =~= ids[0]);
        assert(split_dot(Seq::<char>::empty()) == seq![Seq::<char>::empty()]);
        assert(seq![Seq::<char>::empty()].skip(1) =~= Seq::<Seq<char>>::empty());
        let w = split_dot(join_dot(ids));
        assert(w[0] == ids[0] + Seq::<char>::empty());
        assert(w.skip(1) =~= Seq::<Seq<char>>::empty());
        assert(w.skip(1).len() == w.len() - 1);
        assert(w =~= ids);
    } else {
        assert(forall|i: int|
            0 <= i < ids.skip(1).len() ==> has_no_char(#[trigger] ids.skip(1)[i], '.'));
        lemma_split_join(ids.skip(1));
        let tail = seq!['.'] + join_dot(ids.skip(1));
        lemma_split_dot_prepend(ids[0], tail);
        assert(join_dot(ids) == ids[0] + tail);
        assert(tail[0] == '.');
        assert(tail.skip(1) =~= join_dot(ids.skip(1)));
        assert(split_dot(tail) == seq![Seq::<char>::empty()] + split_dot(join_dot(ids.skip(1))));
        assert(split_dot(tail)[0] == Seq::<char>::empty());
        assert((seq![Seq::<char>::empty()] + split_dot(join_dot(ids.skip(1)))).skip(1) =~= split_dot(
            join_dot(ids.skip(1)),
        ));
        assert(split_dot(tail).skip(1) =~= ids.skip(1));
        assert(ids[0] + Seq::<char>::empty() =~= ids[0]);
        let w = split_dot(join_dot(ids));
        assert(w[0] == ids[0] + split_dot(tail)[0]);
        assert(ids[0] + split_dot(tail)[0] =~= ids[0]);
        assert(w.skip(1) == ids.skip(1));
        assert(w.skip(1).len() == w.len() - 1);
        assert(w.len() == ids.len());
        assert forall|k: int| 0 <= k < w.len() implies w[k] == ids[k] by {
            if k >= 1 {
                assert(w[k] == w.skip(1)[k - 1]);
                assert(ids[k] == ids.skip(1)[k - 1]);
            }
        }
        assert(w =~= ids);
    }
}

proof fn lemma_join_dot_no_char(ids: Seq<Seq<char>>, c: char)
    requires
        c != '.',
        forall|i: int| 0 <= i < ids.len() ==> has_no_char(#[trigger] ids[i], c),
    ensures
        has_no_char(join_dot(ids), c),
    decreases ids.len(),
{
    if ids.len() <= 1 {
    } else {
        assert(forall|i: int|
            0 <= i < ids.skip(1).len() ==> has_no_char(#[trigger] ids.skip(1)[i], c));
        lemma_join_dot_no_char(ids.skip(1), c);
        assert forall|k: int| 0 <= k < join_dot(ids).len() implies #[trigger] join_dot(ids)[k]
            != c by {
            let w = ids[0] + seq!['.'];
            assert(join_dot(ids) == w + join_dot(ids.skip(1)));
            if k < w.len() {
                if k < ids[0].len() {
                    assert(ids[0][k] != c);
                }
            }
        }
    }
}

proof fn lemma_valid_ident_chars(s: Seq<char>)
    requires
        valid_ident(s),
    ensures
        has_no_char(s, '.'),
        has_no_char(s, '+'),
{
    assert forall|i: int| 0 <= i < s.len() implies #[trigger] s[i] != '.' && s[i] != '+' by {
        assert(is_ident_char(s[i]));
    }
}

proof fn lemma_digits_of_props(n: nat)
    ensures
        digits_of(n).len() > 0,
        all_digits(digits_of(n)),
        num_val(digits_of(n)) == n,
        digits_of(n)[0] == '0' ==> digits_of(n).len() == 1,
    decreases n,
{
    if n < 10 {
        assert(seq![digit_char(n)].drop_last() =~= Seq::<char>::empty());
        assert(num_val(Seq::<char>::empty()) == 0);
        assert(seq![digit_char(n)].last() == digit_char(n));
        assert(is_digit(digit_char(n)));
        assert(digit_val(digit_char(n)) == n);
    } else {
        lemma_digits_of_props(n / 10);
        let d = digits_of(n / 10);
        let w = d.push(digit_char(n % 10));
        assert(w.drop_last() =~= d);
        assert(w.last() == digit_char(n % 10));
        assert(is_digit(digit_char(n % 10)));
        assert(digit_val(digit_char(n % 10)) == n % 10);
        assert((n / 10) * 10 + n % 10 == n) by (nonlinear_arith);
        assert(w[0] == d[0]);
        if w[0] == '0' {
            assert(d.len() == 1);
            assert(d.drop_last() =~= Seq::<char>::empty());
            assert(num_val(Seq::<char>::empty()) == 0);
            assert(d.last() == d[0]);
            assert(num_val(d) == digit_val(d[0]));
            assert(n / 10 == 0);
            assert(false);
        }
        assert forall|k: int| 0 <= k < w.len() implies is_digit(#[trigger] w[k]) by {
            if k < d.len() {
                assert(is_digit(d[k]));
            }
        }
    }
}

proof fn lemma_parse_num_render(n: nat, r: Seq<char>)
    requires
        n <= u64::MAX as nat,
        r.len() == 0 || !is_digit(r[0]),
    ensures
        spec_parse_num(digits_of(n) + r) == Some((n, r)),
{
    lemma_digits_of_props(n);
    lemma_split_digits_concat(digits_of(n), r);
}

/// Rendering a well-formed version yields text that parses back to exactly
/// that version.
pub proof fn lemma_parse_render(v: VersionModel)
    requires
        wf_model(v),
    ensures
        spec_parse(render(v)) == Some(v),
{
    let dmaj = digits_of(v.major);
    let dmin = digits_of(v.minor);
    let dpat = digits_of(v.patch);
    let pre_part: Seq<char> = if v.pre.len() == 0 {
        Seq::empty()
    } else {
        seq!['-'] + join_dot(v.pre)
    };
    let build_part: Seq<char> = if v.build.len() == 0 {
        Seq::empty()
    } else {
        seq!['+'] + join_dot(v.build)
    };
    let t3 = pre_part + build_part;
    lemma_digits_of_props(v.major);
    lemma_digits_of_props(v.minor);
    lemma_digits_of_props(v.patch);
    let rest1 = seq!['.'] + dmin + seq!['.'] + dpat + t3;
    let rest2 = seq!['.'] + dpat + t3;
    assert(render(v) =~= dmaj + rest1);
    lemma_parse_num_render(v.major, rest1);
    assert(rest1.skip(1) =~= dmin + rest2);
    lemma_parse_num_render(v.minor, rest2);
    assert(rest2.skip(1) =~= dpat + t3);
    if t3.len() > 0 {
        assert(!is_digit(t3[0]));
    }
    lemma_parse_num_render(v.patch, t3);
    // the tail after the numeric triple
    if v.pre.len() == 0 && v.build.len() == 0 {
        assert(t3.len() == 0);
        assert(v.pre =~= Seq::<Seq<char>>::empty());
        assert(v.build =~= Seq::<Seq<char>>::empty());
        assert(spec_parse_tail(v.major, v.minor, v.patch, t3) matches Some(m) && m =~= v);
    } else if v.pre.len() > 0 {
        assert(t3[0] == '-');
        assert(t3.skip(1) =~= join_dot(v.pre) + build_part);
        assert forall|i: int| 0 <= i < v.pre.len() implies has_no_char(#[trigger] v.pre[i], '.')
            && has_no_char(v.pre[i], '+') by {
            assert(valid_pre_ident(v.pre[i]));
            lemma_valid_ident_chars(v.pre[i]);
        }
        lemma_join_dot_no_char(v.pre, '+');
        assert(build_part.len() == 0 || build_part[0] == '+');
        lemma_split_plus_concat(join_dot(v.pre), build_part);
        lemma_split_join(v.pre);
        if v.build.len() == 0 {
            assert(v.build =~= Seq::<Seq<char>>::empty());
            assert(spec_parse_tail(v.major, v.minor, v.patch, t3) matches Some(m) && m =~= v);
        } else {
            assert(build_part.skip(1) =~= join_dot(v.build));
            assert forall|i: int| 0 <= i < v.build.len() implies has_no_char(
                #[trigger] v.build[i],
                '.',
            ) by {
                assert(valid_ident(v.build[i]));
                lemma_valid_ident_chars(v.build[i]);
            }
            lemma_split_join(v.build);
            assert(spec_parse_tail(v.major, v.minor, v.patch, t3) matches Some(m) && m =~= v);
        }
    } else {
        assert(t3 =~= build_part);
        assert(t3[0] == '+');
        assert(t3.skip(1) =~= join_dot(v.build));
        assert forall|i: int| 0 <= i < v.build.len() implies has_no_char(
            #[trigger] v.build[i],
            '.',
        ) by {
            assert(valid_ident(v.build[i]));
            lemma_valid_ident_chars(v.build[i]);
        }
        lemma_split_join(v.build);
        assert(v.pre =~= Seq::<Seq<char>>::empty());
        assert(spec_parse_tail(v.major, v.minor, v.patch, t3) matches Some(m) && m =~= v);
    }
}

/// Version text is well-formed when it is the rendering of some well-formed
/// version.
pub open spec fn well_formed_version_text(s: Seq<char>) -> bool {
    exists|v: VersionModel| wf_model(v) && render(v) == s
}

/// Round trip: parsing any well-formed version text and rendering the result
/// reproduces the text exactly.
pub proof fn lemma_round_trip(s: Seq<char>)
    requires
        well_formed_version_text(s),
    ensures
        spec_parse(s) matches Some(v) && render(v) == s,
{
    let v = choose|v: VersionModel| wf_model(v) && render(v) == s;
    lemma_parse_render(v);
}

fn push_digit(s: &mut String, d: u64)
    requires
        d < 10,
    ensures
        final(s)@ == old(s)@ + seq![digit_char(d as nat)],
{
    if d == 0 {
        proof {
            reveal_strlit("0");
            assert("0"@ =~= seq![digit_char(0nat)]);
        }
        s.append("0");
    } else if d == 1 {
        proof {
            reveal_strlit("1");
            assert("1"@ =~= seq![digit_char(1nat)]);
        }
        s.append("1");
    } else if d == 2 {
        proof {
            reveal_strlit("2");
            assert("2"@ =~= seq![digit_char(2nat)]);
        }
        s.append("2");
    } else if d == 3 {
        proof {
            reveal_strlit("3");
            assert("3"@ =~= seq![digit_char(3nat)]);
        }
        s.append("3");
    } else if d == 4 {
        proof {
            reveal_strlit("4");
            assert("4"@ =~= seq![digit_char(4nat)]);
        }
        s.append("4");
    } else if d == 5 {
        proof {
            reveal_strlit("5");
            assert("5"@ =~= seq![digit_char(5nat)]);
        }
        s.append("5");
    } else if d == 6 {
        proof {
            reveal_strlit("6");
            assert("6"@ =~= seq![digit_char(6nat)]);
        }
        s.append("6");
    } else if d == 7 {
        proof {
            reveal_strlit("7");
            assert("7"@ =~= seq![digit_char(7nat)]);
        }
        s.append("7");
    } else if d == 8 {
        proof {
            reveal_strlit("8");
            assert("8"@ =~= seq![digit_char(8nat)]);
        }
        s.append("8");
    } else {
        proof {
            reveal_strlit("9");
            assert("9"@ =~= seq![digit_char(9nat)]);
        }
        s.append("9");
    }
}

fn push_digits(s: &mut String, n: u64)
    ensures
        final(s)@ == old(s)@ + digits_of(n as nat),
    decreases n,
{
    if n >= 10 {
        push_digits(s, n / 10);
        push_digit(s, n % 10);
        proof {
            assert((n / 10) as nat == (n as nat) / 10);
            assert((n % 10) as nat == (n as nat) % 10);
            assert(old(s)@ + digits_of((n as nat) / 10) + seq![digit_char((n as nat) % 10)] =~= old(
                s,
            )@ + digits_of(n as nat));
        }
    } else {
        push_digit(s, n);
    }
}

fn push_dot(s: &mut String)
    ensures
        final(s)@ == old(s)@ + seq!['.'],
{
    proof {
        reveal_strlit(".");
        assert("."@ =~= seq!['.']);
    }
    s.append(".");
}

fn push_idents(s: &mut String, ids: &Vec<String>, from: usize)
    requires
        from < ids.len(),
    ensures
        final(s)@ == old(s)@ + join_dot(ids@.map_values(|t: String| t@).skip(from as int)),
    decreases ids.len() - from,
{
    let ghost m = ids@.map_values(|t: String| t@);
    s.append(ids[from].as_str());
    if from + 1 < ids.len() {
        push_dot(s);
        push_idents(s, ids, from + 1);
        proof {
            assert(m.skip(from as int)[0] == m[from as int]);
            assert(m.skip(from as int).skip(1) =~= m.skip(from as int + 1));
            assert(old(s)@ + m[from as int] + seq!['.'] + join_dot(m.skip(from as int + 1)) =~= old(
                s,
            )@ + join_dot(m.skip(from as int)));
        }
    } else {
        proof {
            assert(m.skip(from as int).len() == 1);
            assert(m.skip(from as int)[0] == m[from as int]);
            assert(old(s)@ + m[from as int] =~= old(s)@ + join_dot(m.skip(from as int)));
        }
    }
}

impl Version {
    /// Renders the version as `major.minor.patch[-pre][+build]`.
    pub fn to_string(&self) -> (r: String)
        ensures
            r@ == render(self@),
    {
        let mut s = String::new();
        push_digits(&mut s, self.major);
        push_dot(&mut s);
        push_digits(&mut s, self.minor);
        push_dot(&mut s);
        push_digits(&mut s, self.patch);
        if self.pre.len() > 0 {
            proof {
                reveal_strlit("-");
                assert("-"@ =~= seq!['-']);
            }
            s.append("-");
            push_idents(&mut s, &self.pre, 0);
        }
        if self.build.len() > 0 {
            proof {
                reveal_strlit("+");
                assert("+"@ =~= seq!['+']);
            }
            s.append("+");
            push_idents(&mut s, &self.build, 0);
        }
        proof {
            assert(self@.pre.skip(0) =~= self@.pre);
            assert(self@.build.skip(0) =~= self@.build);
            assert(s@ =~= render(self@));
        }
        s
    }
}

fn digit_at(s: &str, j: usize) -> (r: bool)
    requires
        j < s@.len(),
    ensures
        r == is_digit(s@[j as int]),
{
    let u = s.get_char(j) as u32;
    48 <= u && u <= 57
}

fn dot_at(s: &str, j: usize) -> (r: bool)
    requires
        j < s@.len(),
    ensures
        r == (s@[j as int] == '.'),
{
    s.get_char(j) == '.'
}

fn plus_at(s: &str, j: usize) -> (r: bool)
    requires
        j < s@.len(),
    ensures
        r == (s@[j as int] == '+'),
{
    s.get_char(j) == '+'
}

fn is_ident_char_exec(c: char) -> (r: bool)
    ensures
        r == is_ident_char(c),
{
    let u = c as u32;
    (48 <= u && u <= 57) || (97 <= u && u <= 122) || (65 <= u && u <= 90) || u == 45
}

fn valid_ident_exec(t: &String) -> (r: bool)
    ensures
        r == valid_ident(t@),
{
    let len = t.as_str().unicode_len();
    if len == 0 {
        return false;
    }
    let mut i: usize = 0;
    while i < len
        invariant
            len == t@.len(),
            i <= len,
            forall|k: int| 0 <= k < i ==> is_ident_char(#[trigger] t@[k]),
        decreases len - i,
    {
        if !is_ident_char_exec(t.as_str().get_char(i)) {
            proof {
                assert(!is_ident_char(t@[i as int]));
            }
            return false;
        }
        i += 1;
    }
    true
}

fn numeric_fits_exec(t: &String) -> (r: bool)
    requires
        is_numeric_ident(t@),
    ensures
        r == (num_val(t@) <= u64::MAX as nat),
{
    let len = t.as_str().unicode_len();
    let mut val: u64 = 0;
    let mut i: usize = 0;
    while i < len
        invariant
            len == t@.len(),
            i <= len,
            is_numeric_ident(t@),
            val as nat == num_val(t@.take(i as int)),
        decreases len - i,
    {
        let c = t.as_str().get_char(i);
        proof {
            assert(is_digit(t@[i as int]));
            assert(t@.take(i as int + 1).drop_last() =~= t@.take(i as int));
            assert(t@.take(i as int + 1).last() == t@[i as int]);
        }
        let d = (c as u32 - 48) as u64;
        if val > 1844674407370955161 || (val == 1844674407370955161 && d > 5) {
            proof {
                assert(num_val(t@.take(i as int + 1)) > u64::MAX as nat);
                lemma_num_val_prefix(t@, i as int + 1);
            }
            return false;
        }
        val = val * 10 + d;
        i += 1;
    }
    proof {
        assert(t@.take(len as int) =~= t@);
    }
    true
}

fn valid_pre_ident_exec(t: &String) -> (r: bool)
    ensures
        r == valid_pre_ident(t@),
{
    if !valid_ident_exec(t) {
        return false;
    }
    if is_numeric_ident_exec(t) {
        let len = t.as_str().unicode_len();
        if t.as_str().get_char(0) == '0' && len > 1 {
            return false;
        }
        numeric_fits_exec(t)
    } else {
        true
    }
}

fn all_valid_pre_exec(ids: &Vec<String>) -> (r: bool)
    ensures
        r == valid_pre_ids(ids@.map_values(|t: String| t@)),
{
    let ghost m = ids@.map_values(|t: String| t@);
    let mut i: usize = 0;
    while i < ids.len()
        invariant
            i <= ids.len(),
            m == ids@.map_values(|t: String| t@),
            forall|k: int| 0 <= k < i ==> valid_pre_ident(#[trigger] m[k]),
        decreases ids.len() - i,
    {
        if !valid_pre_ident_exec(&ids[i]) {
            proof {
                assert(!valid_pre_ident(m[i as int]));
            }
            return false;
        }
        i += 1;
    }
    true
}

fn all_valid_build_exec(ids: &Vec<String>) -> (r: bool)
    ensures
        r == valid_build_ids(ids@.map_values(|t: String| t@)),
{
    let ghost m = ids@.map_values(|t: String| t@);
    let mut i: usize = 0;
    while i < ids.len()
        invariant
            i <= ids.len(),
            m == ids@.map_values(|t: String| t@),
            forall|k: int| 0 <= k < i ==> valid_ident(#[trigger] m[k]),
        decreases ids.len() - i,
    {
        if !valid_ident_exec(&ids[i]) {
            proof {
                assert(!valid_ident(m[i as int]));
            }
            return false;
        }
        i += 1;
    }
    true
}

fn parse_num_at(s: &str, start: usize, len: usize) -> (res: Option<(u64, usize)>)
    requires
        start <= s@.len(),
        len == s@.len(),
    ensures
        match res {
            Some(p) => start < p.1 && p.1 <= s@.len() && spec_parse_num(s@.skip(start as int))
                == Some((p.0 as nat, s@.skip(p.1 as int))),
            None => spec_parse_num(s@.skip(start as int)) is None,
        },
{
    let mut j = start;
    while j < len && digit_at(s, j)
        invariant
            start <= j <= len,
            len == s@.len(),
            forall|k: int| start <= k < j ==> is_digit(#[trigger] s@[k]),
        decreases len - j,
    {
        j += 1;
    }
    let ghost d = s@.subrange(start as int, j as int);
    let ghost r = s@.skip(j as int);
    proof {
        assert(s@.skip(start as int) =~= d + r);
        assert(all_digits(d));
        if j < len {
            assert(r[0] == s@[j as int]);
            assert(!is_digit(r[0]));
        }
        lemma_split_digits_concat(d, r);
    }
    if j == start {
        return None;
    }
    proof {
        assert(d[0] == s@[start as int]);
    }
    if s.get_char(start) == '0' && j > start + 1 {
        return None;
    }
    let mut val: u64 = 0;
    let mut k = start;
    while k < j
        invariant
            start <= k <= j <= len,
            len == s@.len(),
            forall|kk: int| start <= kk < j ==> is_digit(#[trigger] s@[kk]),
            d == s@.subrange(start as int, j as int),
            r == s@.skip(j as int),
            split_digits(s@.skip(start as int)).0 == d,
            split_digits(s@.skip(start as int)).1 == r,
            j > start,
            s@[start as int] == '0' ==> j == start + 1,
            val as nat == num_val(s@.subrange(start as int, k as int)),
        decreases j - k,
    {
        let c = s.get_char(k);
        proof {
            assert(is_digit(s@[k as int]));
            assert(s@.subrange(start as int, k as int + 1).drop_last() =~= s@.subrange(
                start as int,
                k as int,
            ));
            assert(s@.subrange(start as int, k as int + 1).last() == s@[k as int]);
        }
        let dig = (c as u32 - 48) as u64;
        if val > 1844674407370955161 || (val == 1844674407370955161 && dig > 5) {
            proof {
                assert(num_val(s@.subrange(start as int, k as int + 1)) > u64::MAX as nat);
                lemma_num_val_prefix(d, k as int + 1 - start);
                assert(d.take(k as int + 1 - start) =~= s@.subrange(start as int, k as int + 1));
            }
            return None;
        }
        val = val * 10 + dig;
        k += 1;
    }
    proof {
        assert(s@.subrange(start as int, k as int) =~= d);
    }
    Some((val, j))
}

fn parse_ids(s: &str, a: usize, b: usize) -> (ids: Vec<String>)
    requires
        a <= b,
        b <= s@.len(),
    ensures
        ids@.map_values(|t: String| t@) == split_dot(s@.subrange(a as int, b as int)),
{
    let mut ids: Vec<String> = Vec::new();
    let mut pos = a;
    proof {
        assert(ids@.map_values(|t: String| t@) =~= Seq::<Seq<char>>::empty());
        assert(Seq::<Seq<char>>::empty() + split_dot(s@.subrange(a as int, b as int)) =~= split_dot(
            s@.subrange(a as int, b as int),
        ));
    }
    loop
        invariant
            a <= pos <= b <= s@.len(),
            split_dot(s@.subrange(a as int, b as int)) == ids@.map_values(|t: String| t@)
                + split_dot(s@.subrange(pos as int, b as int)),
        decreases b - pos,
    {
        let mut idx = pos;
        while idx < b && !dot_at(s, idx)
            invariant
                pos <= idx <= b <= s@.len(),
                forall|k: int| pos <= k < idx ==> s@[k] != '.',
            decreases b - idx,
        {
            idx += 1;
        }
        let seg = s.substring_char(pos, idx).to_owned();
        let ghost pre_map = ids@.map_values(|t: String| t@);
        let ghost id = s@.subrange(pos as int, idx as int);
        let ghost whole = s@.subrange(pos as int, b as int);
        let ghost rest = s@.subrange(idx as int, b as int);
        proof {
            assert(whole =~= id + rest);
            assert(has_no_char(id, '.'));
            lemma_split_dot_prepend(id, rest);
            lemma_split_dot_len(rest);
        }
        ids.push(seg);
        proof {
            assert(ids@.map_values(|t: String| t@) =~= pre_map.push(id));
        }
        if idx == b {
            proof {
                assert(rest =~= Seq::<char>::empty());
                assert(split_dot(Seq::<char>::empty()) == seq![Seq::<char>::empty()]);
                assert(seq![Seq::<char>::empty()].skip(1) =~= Seq::<Seq<char>>::empty());
                let w = split_dot(whole);
                assert(w[0] == id + split_dot(rest)[0]);
                assert(id + Seq::<char>::empty() =~= id);
                assert(w.skip(1) =~= Seq::<Seq<char>>::empty());
                assert(w.skip(1).len() == w.len() - 1);
                assert(w =~= seq![id]);
                assert(pre_map + w =~= pre_map.push(id));
            }
            return ids;
        }
        proof {
            assert(rest[0] == '.');
            assert(rest.skip(1) =~= s@.subrange(idx as int + 1, b as int));
            let w = split_dot(whole);
            assert(split_dot(rest) == seq![Seq::<char>::empty()] + split_dot(rest.skip(1)));
            assert((seq![Seq::<char>::empty()] + split_dot(rest.skip(1))).skip(1) =~= split_dot(
                rest.skip(1),
            ));
            assert(w[0] == id + Seq::<char>::empty());
            assert(id + Seq::<char>::empty() =~= id);
            assert(w.skip(1) == split_dot(s@.subrange(idx as int + 1, b as int)));
            lemma_split_dot_len(whole);
            assert(w =~= seq![w[0]] + w.skip(1));
            assert(pre_map + w =~= pre_map.push(id) + split_dot(
                s@.subrange(idx as int + 1, b as int),
            ));
        }
        pos = idx + 1;
    }
}

/// Parses `major.minor.patch[-pre][+build]` text; `None` when the text is
/// not a well-formed version.
#[verifier::rlimit(40)]
pub fn parse_version(s: &str) -> (res: Option<Version>)
    ensures
        match res {
            Some(v) => spec_parse(s@) == Some(v@) && wf_model(v@),
            None => spec_parse(s@) is None,
        },
{
    proof {
        assert(s@.skip(0) =~= s@);
    }
    let len = s.unicode_len();
    let r0 = parse_num_at(s, 0, len);
    let (major, i1) = match r0 {
        None => { return None; },
        Some(p) => p,
    };
    let ghost s1 = s@.skip(i1 as int);
    if i1 == len {
        return None;
    }
    if !dot_at(s, i1) {
        return None;
    }
    proof {
        assert(s1.skip(1) =~= s@.skip(i1 as int + 1));
    }
    let r1 = parse_num_at(s, i1 + 1, len);
    let (minor, i2) = match r1 {
        None => { return None; },
        Some(p) => p,
    };
    let ghost s2 = s@.skip(i2 as int);
    if i2 == len {
        return None;
    }
    if !dot_at(s, i2) {
        return None;
    }
    proof {
        assert(s2.skip(1) =~= s@.skip(i2 as int + 1));
    }
    let r2 = parse_num_at(s, i2 + 1, len);
    let (patch, i3) = match r2 {
        None => { return None; },
        Some(p) => p,
    };
    let ghost s3 = s@.skip(i3 as int);
    if i3 == len {
        let v = Version { major, minor, patch, pre: Vec::new(), build: Vec::new() };
        proof {
            assert(s3.len() == 0);
            assert(v.pre@.map_values(|t: String| t@) =~= Seq::<Seq<char>>::empty());
            assert(v.build@.map_values(|t: String| t@) =~= Seq::<Seq<char>>::empty());
            assert(spec_parse_tail(major as nat, minor as nat, patch as nat, s3) matches Some(m)
                && m =~= v@);
        }
        return Some(v);
    }
    let c = s.get_char(i3);
    if c == '-' {
        let mut p = i3 + 1;
        while p < len && !plus_at(s, p)
            invariant
                i3 + 1 <= p <= len,
                len == s@.len(),
                forall|k: int| i3 + 1 <= k < p ==> s@[k] != '+',
            decreases len - p,
        {
            p += 1;
        }
        let ghost pre_txt = s@.subrange(i3 as int + 1, p as int);
        let ghost after = s@.skip(p as int);
        proof {
            assert(s3[0] == '-');
            assert(s3.skip(1) =~= s@.skip(i3 as int + 1));
            assert(s@.skip(i3 as int + 1) =~= pre_txt + after);
            assert(has_no_char(pre_txt, '+'));
            if p < len {
                assert(after[0] == s@[p as int]);
            }
            lemma_split_plus_concat(pre_txt, after);
        }
        let pre_vec = parse_ids(s, i3 + 1, p);
        if !all_valid_pre_exec(&pre_vec) {
            return None;
        }
        if p == len {
            let v = Version { major, minor, patch, pre: pre_vec, build: Vec::new() };
            proof {
                assert(after.len() == 0);
                assert(v.build@.map_values(|t: String| t@) =~= Seq::<Seq<char>>::empty());
                assert(spec_parse_tail(major as nat, minor as nat, patch as nat, s3) matches Some(
                    m,
                ) && m =~= v@);
            }
            return Some(v);
        }
        proof {
            assert(after.skip(1) =~= s@.subrange(p as int + 1, len as int));
        }
        let build_vec = parse_ids(s, p + 1, len);
        if !all_valid_build_exec(&build_vec) {
            return None;
        }
        let v = Version { major, minor, patch, pre: pre_vec, build: build_vec };
        proof {
            assert(spec_parse_tail(major as nat, minor as nat, patch as nat, s3) matches Some(m)
                && m =~= v@);
        }
        return Some(v);
    }
    if c == '+' {
        proof {
            assert(s3[0] == '+');
            assert(s3.skip(1) =~= s@.subrange(i3 as int + 1, len as int));
        }
        let build_vec = parse_ids(s, i3 + 1, len);
        if !all_valid_build_exec(&build_vec) {
            return None;
        }
        let v = Version { major, minor, patch, pre: Vec::new(), build: build_vec };
        proof {
            assert(v.pre@.map_values(|t: String| t@) =~= Seq::<Seq<char>>::empty());
            assert(spec_parse_tail(major as nat, minor as nat, patch as nat, s3) matches Some(m)
                && m =~= v@);
        }
        return Some(v);
    }
    proof {
        assert(s3[0] == s@[i3 as int]);
    }
    None
}

/// The version `0.0.0`, the starting accumulator for tag resolution.
pub fn zero_version() -> (r: Version)
    ensures
        r@ == zero_model(),
        wf_model(r@),
{
    let r = Version { major: 0, minor: 0, patch: 0, pre: Vec::new(), build: Vec::new() };
    proof {
        assert(r.pre@.map_values(|s: String| s@) =~= Seq::<Seq<char>>::empty());
        assert(r.build@.map_values(|s: String| s@) =~= Seq::<Seq<char>>::empty());
    }
    r
}

} // verus!
