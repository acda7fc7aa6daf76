//! The tree of known language versions: major, minor and patch numbers.
use vstd::prelude::*;
use vstd::string::*;
use crate::grammar::{parse_int, parse_int_spec, same_text};

verus! {

/// A version component and the components known below it.
pub struct Version {
    pub sub: Vec<Version>,
    pub value: String,
}

impl Version {
    /// A component `value` with the components `sub` below it.
    pub fn new(value: String, sub: Vec<Version>) -> (r: Version)
        ensures
            r.value == value,
            r.sub == sub,
    {
        Version { sub, value }
    }
}

/// The known major versions.
pub struct Versions {
    pub versions: Vec<Version>,
}

impl Versions {
    /// The major versions `versions`.
    pub fn new(versions: Vec<Version>) -> (r: Versions)
        ensures
            r.versions == versions,
    {
        Versions { versions }
    }
}

/// Knows which language versions exist.
pub struct Handler {
    pub versions: Versions,
}

/// A component with one known patch, `0`.
fn minor(value: &str) -> (r: Version)
    ensures
        r.value@ == value@,
        r.sub@.len() == 1,
        r.sub@[0].value@ == "0"@,
        r.sub@[0].sub@.len() == 0,
{
    Version::new(String::from_str(value), vec![Version::new(String::from_str("0"), Vec::new())])
}

impl Handler {
    /// The known versions: 0.1.0 to 0.4.0.
    pub fn new() -> (r: Handler)
        ensures
            r.wf(),
            r.versions.versions@.len() == 1,
            r.versions.versions@[0].value@ == "0"@,
            r.versions.versions@[0].sub@.len() == 4,
            r.versions.versions@[0].sub@[0].value@ == "1"@,
            r.versions.versions@[0].sub@[1].value@ == "2"@,
            r.versions.versions@[0].sub@[2].value@ == "3"@,
            r.versions.versions@[0].sub@[3].value@ == "4"@,
            forall|i: int| 0 <= i < 4 ==> (#[trigger] r.versions.versions@[0].sub@[i]).sub@.len() == 1
                && r.versions.versions@[0].sub@[i].sub@[0].value@ == "0"@,
    {
        let versions_0 = Version::new(
            String::from_str("0"),
            vec![minor("1"), minor("2"), minor("3"), minor("4")],
        );
        Handler { versions: Versions::new(vec![versions_0]) }
    }
}

/// Where `c` first occurs in `s`.
pub open spec fn char_index(s: Seq<char>, c: char) -> Option<int>
    decreases s.len(),
{
    if s.len() == 0 {
        None
    } else if char_index(s.drop_last(), c) is Some {
        char_index(s.drop_last(), c)
    } else if s.last() == c {
        Some(s.len() - 1)
    } else {
        None
    }
}

/// `s` up to the first `c` (all of it when it has none).
pub open spec fn before(s: Seq<char>, c: char) -> Seq<char> {
    match char_index(s, c) {
        Some(i) => s.subrange(0, i),
        None => s,
    }
}

/// `s` after the first `c` (nothing when it has none).
pub open spec fn after(s: Seq<char>, c: char) -> Seq<char> {
    match char_index(s, c) {
        Some(i) => s.subrange(i + 1, s.len() as int),
        None => Seq::empty(),
    }
}

/// The `i`-th piece of `s` split at `c`, if it has that many.
pub open spec fn field(s: Seq<char>, c: char, i: nat) -> Option<Seq<char>>
    decreases i,
{
    if i == 0 {
        Some(before(s, c))
    } else if char_index(s, c) is Some {
        field(after(s, c), c, (i - 1) as nat)
    } else {
        None
    }
}

/// The `i`-th dot-separated component of a version, `x` where it has none.
pub open spec fn component(s: Seq<char>, i: nat) -> Seq<char> {
    match field(s, '.', i) {
        Some(f) => f,
        None => seq!['x'],
    }
}

/// `s` is a number that Rust reads as an `i32`.
pub open spec fn is_i32(s: Seq<char>) -> bool {
    parse_int_spec(s) matches Some(v) && i32::MIN <= v <= i32::MAX
}

/// `latest`, in any mix of ASCII cases.
pub open spec fn is_latest(s: Seq<char>) -> bool {
    &&& s.len() == 6
    &&& (s[0] == 'l' || s[0] == 'L')
    &&& (s[1] == 'a' || s[1] == 'A')
    &&& (s[2] == 't' || s[2] == 'T')
    &&& (s[3] == 'e' || s[3] == 'E')
    &&& (s[4] == 's' || s[4] == 'S')
    &&& (s[5] == 't' || s[5] == 'T')
}

/// Where the first of `subs` whose value is `value` stands.
pub open spec fn first_equal(subs: Seq<Version>, value: Seq<char>) -> Option<int>
    decreases subs.len(),
{
    if subs.len() == 0 {
        None
    } else if first_equal(subs.drop_last(), value) is Some {
        first_equal(subs.drop_last(), value)
    } else if subs.last().value@ == value {
        Some(subs.len() - 1)
    } else {
        None
    }
}

/// The first of `subs` whose value is `value`, or the last one.
pub open spec fn pick(subs: Seq<Version>, value: Seq<char>) -> int {
    match first_equal(subs, value) {
        Some(i) => i,
        None => subs.len() - 1,
    }
}

/// The component of `subs` that `part` selects: the one it names when it is
/// a number, the newest otherwise.
pub open spec fn pick_component(subs: Seq<Version>, part: Seq<char>) -> int {
    if is_i32(part) {
        pick(subs, part)
    } else {
        subs.len() - 1
    }
}

/// Every level that a version resolves through is non-empty.
pub open spec fn tree_wf(versions: Seq<Version>) -> bool {
    &&& versions.len() > 0
    &&& forall|i: int| 0 <= i < versions.len() ==> (#[trigger] versions[i]).sub@.len() > 0
        && forall|j: int| 0 <= j < versions[i].sub@.len() ==> (#[trigger] versions[i].sub@[j]).sub@.len() > 0
}

/// The known version that `version` resolves to: `latest` stands for
/// `x.x.x`; each of the first three dot-separated components selects the
/// version it names, or the newest one where it names none or is no number;
/// a pre-release tag after `-` (up to `+`) selects among the versions below
/// the patch, where there are any.
pub open spec fn resolve(versions: Seq<Version>, version: Seq<char>) -> Seq<char> {
    let v = if is_latest(version) {
        seq!['x', '.', 'x', '.', 'x']
    } else {
        version
    };
    let raw_patch = component(v, 2);
    let patch = before(raw_patch, '-');
    let n0 = versions[pick_component(versions, component(v, 0))];
    let n1 = n0.sub@[pick_component(n0.sub@, component(v, 1))];
    let n2 = n1.sub@[pick_component(n1.sub@, patch)];
    let main = n0.value@ + seq!['.'] + n1.value@ + seq!['.'] + n2.value@;
    if char_index(raw_patch, '-') is Some && n2.sub@.len() > 0 {
        main + seq!['-'] + n2.sub@[pick(n2.sub@, before(after(raw_patch, '-'), '+'))].value@
    } else {
        main
    }
}

proof fn lemma_char_index_bounds(s: Seq<char>, c: char)
    ensures
        char_index(s, c) matches Some(i) ==> 0 <= i < s.len() && s[i] == c,
        char_index(s, c) is None ==> forall|j: int| 0 <= j < s.len() ==> s[j] != c,
    decreases s.len(),
{
    if s.len() > 0 {
        lemma_char_index_bounds(s.drop_last(), c);
        assert forall|j: int| 0 <= j < s.len() - 1 implies s.drop_last()[j] == s[j] by {}
    }
}

proof fn lemma_char_index_first(s: Seq<char>, c: char, i: int)
    requires
        0 <= i < s.len(),
        s[i] == c,
        forall|j: int| 0 <= j < i ==> s[j] != c,
    ensures
        char_index(s, c) == Some(i),
    decreases s.len(),
{
    if i < s.len() - 1 {
        lemma_char_index_first(s.drop_last(), c, i);
    } else {
        lemma_char_index_bounds(s.drop_last(), c);
    }
}

/// Where `c` first occurs in `s`.
pub(crate) fn find_char(s: &str, c: char) -> (r: Option<usize>)
    ensures
        r matches Some(i) ==> char_index(s@, c) == Some(i as int),
        r is None ==> char_index(s@, c) is None,
{
    let n = s.unicode_len();
    let mut i: usize = 0;
    while i < n
        invariant
            n == s@.len(),
            i <= n,
            forall|j: int| 0 <= j < i ==> s@[j] != c,
        decreases n - i,
    {
        if s.get_char(i) == c {
            proof {
                lemma_char_index_first(s@, c, i as int);
            }
            return Some(i);
        }
        i = i + 1;
    }
    proof {
        lemma_char_index_bounds(s@, c);
        if char_index(s@, c) is Some {
            let k = char_index(s@, c)->0;
            assert(s@[k] == c);
        }
    }
    None
}

/// `s` up to the first `c`.
pub(crate) fn before_char(s: &str, c: char) -> (r: &str)
    ensures
        r@ == before(s@, c),
{
    match find_char(s, c) {
        Some(i) => {
            proof {
                lemma_char_index_bounds(s@, c);
            }
            s.substring_char(0, i)
        },
        None => s,
    }
}

/// `s` after the first `c`.
pub(crate) fn after_char(s: &str, c: char) -> (r: &str)
    ensures
        r@ == after(s@, c),
{
    let n = s.unicode_len();
    match find_char(s, c) {
        Some(i) => {
            proof {
                lemma_char_index_bounds(s@, c);
            }
            s.substring_char(i + 1, n)
        },
        None => {
            let e = s.substring_char(0, 0);
            assert(e@ =~= Seq::<char>::empty());
            e
        },
    }
}

/// The `i`-th dot-separated component of `s`, `x` where it has none.
fn component_of(s: &str, i: usize) -> (r: String)
    ensures
        r@ == component(s@, i as nat),
{
    let mut rest = s;
    let mut k: usize = 0;
    while k < i
        invariant
            k <= i,
            field(s@, '.', i as nat) == field(rest@, '.', (i - k) as nat),
        decreases i - k,
    {
        if find_char(rest, '.').is_none() {
            proof {
                reveal_strlit("x");
            }
            let r = String::from_str("x");
            assert(r@ =~= seq!['x']);
            return r;
        }
        rest = after_char(rest, '.');
        k = k + 1;
    }
    String::from_str(before_char(rest, '.'))
}

/// Whether `s` is a number that Rust reads as an `i32`.
fn is_i32_text(s: &str) -> (r: bool)
    ensures
        r == is_i32(s@),
{
    match parse_int(s) {
        Some(v) => i32::MIN as i128 <= v && v <= i32::MAX as i128,
        None => false,
    }
}

/// Whether `s` is `latest` in any mix of ASCII cases.
fn is_latest_text(s: &str) -> (r: bool)
    ensures
        r == is_latest(s@),
{
    if s.unicode_len() != 6 {
        return false;
    }
    let a = s.get_char(0);
    let b = s.get_char(1);
    let c = s.get_char(2);
    let d = s.get_char(3);
    let e = s.get_char(4);
    let f = s.get_char(5);
    (a == 'l' || a == 'L') && (b == 'a' || b == 'A') && (c == 't' || c == 'T') && (d == 'e' || d == 'E') && (e
        == 's' || e == 'S') && (f == 't' || f == 'T')
}

proof fn lemma_first_equal_prefix(subs: Seq<Version>, i: int, value: Seq<char>)
    requires
        0 <= i <= subs.len(),
        first_equal(subs.subrange(0, i), value) is Some,
    ensures
        first_equal(subs, value) == first_equal(subs.subrange(0, i), value),
    decreases subs.len() - i,
{
    if i < subs.len() {
        assert(subs.drop_last().subrange(0, i) =~= subs.subrange(0, i));
        lemma_first_equal_prefix(subs.drop_last(), i, value);
    } else {
        assert(subs.subrange(0, i) =~= subs);
    }
}

proof fn lemma_first_equal_bounds(subs: Seq<Version>, value: Seq<char>)
    ensures
        first_equal(subs, value) matches Some(i) ==> 0 <= i < subs.len(),
    decreases subs.len(),
{
    if subs.len() > 0 {
        lemma_first_equal_bounds(subs.drop_last(), value);
    }
}

/// The first of `subs` whose value is `value`, or the last one.
fn pick_in(subs: &Vec<Version>, value: &str) -> (r: usize)
    requires
        subs@.len() > 0,
    ensures
        r == pick(subs@, value@),
        r < subs@.len(),
{
    let n = subs.len();
    let mut i: usize = 0;
    assert(subs@.subrange(0, 0) =~= Seq::<Version>::empty());
    while i < n
        invariant
            n == subs@.len(),
            i <= n,
            first_equal(subs@.subrange(0, i as int), value@) is None,
        decreases n - i,
    {
        assert(subs@.subrange(0, i + 1).drop_last() =~= subs@.subrange(0, i as int));
        if same_text(subs[i].value.as_str(), value) {
            proof {
                lemma_first_equal_prefix(subs@, i + 1, value@);
            }
            return i;
        }
        i = i + 1;
    }
    assert(subs@.subrange(0, n as int) =~= subs@);
    n - 1
}

/// The component of `subs` that `part` selects.
fn pick_component_in(subs: &Vec<Version>, part: &str) -> (r: usize)
    requires
        subs@.len() > 0,
    ensures
        r == pick_component(subs@, part@),
        r < subs@.len(),
{
    if is_i32_text(part) {
        pick_in(subs, part)
    } else {
        subs.len() - 1
    }
}

impl Handler {
    /// Every level of the version tree that resolution walks is non-empty.
    pub open spec fn wf(&self) -> bool {
        tree_wf(self.versions.versions@)
    }

    /// The known version that `version` resolves to.
    pub fn parse_version(&self, version: &str) -> (r: String)
        requires
            self.wf(),
        ensures
            r@ == resolve(self.versions.versions@, version@),
    {
        let latest = is_latest_text(version);
        let owned = if latest {
            String::from_str("x.x.x")
        } else {
            String::from_str(version)
        };
        proof {
            reveal_strlit("x.x.x");
            if latest {
                assert(owned@ =~= seq!['x', '.', 'x', '.', 'x']);
            }
        }
        let v = owned.as_str();
        let p0 = component_of(v, 0);
        let p1 = component_of(v, 1);
        let raw_patch = component_of(v, 2);
        let patch = before_char(raw_patch.as_str(), '-');
        let versions = &self.versions.versions;
        let i0 = pick_component_in(versions, p0.as_str());
        let n0 = &versions[i0];
        let i1 = pick_component_in(&n0.sub, p1.as_str());
        let n1 = &n0.sub[i1];
        let i2 = pick_component_in(&n1.sub, patch);
        let n2 = &n1.sub[i2];
        let mut r = String::from_str(n0.value.as_str());
        r.append(".");
        r.append(n1.value.as_str());
        r.append(".");
        r.append(n2.value.as_str());
        proof {
            reveal_strlit(".");
            reveal_strlit("-");
        }
        if find_char(raw_patch.as_str(), '-').is_some() && n2.sub.len() > 0 {
            let tag = before_char(after_char(raw_patch.as_str(), '-'), '+');
            let i3 = pick_in(&n2.sub, tag);
            r.append("-");
            r.append(n2.sub[i3].value.as_str());
        }
        r
    }
}

} // verus!
