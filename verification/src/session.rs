//! The interpreter version that a linting session runs against, as the
//! interpreter prints it: `nix (Nix) 2.4pre20211006_53e4794`.

use std::cmp::Ordering;
use std::str::FromStr;
use vstd::prelude::*;
use vstd::std_specs::cmp::PartialOrdSpecImpl;

verus! {

/// A version number: major, minor and, where given, patch level.
#[derive(Copy, Clone, Debug, Eq, PartialEq)]
pub struct Version {
    major: u16,
    minor: u16,
    patch: Option<u16>,
}

/// The mathematical content of a [`Version`].
pub struct VersionView {
    pub major: nat,
    pub minor: nat,
    pub patch: Option<nat>,
}

impl VersionView {
    /// The number by which versions are ordered: a missing patch level
    /// counts as zero.
    pub open spec fn score(self) -> int {
        self.major * 100 + self.minor * 10 + match self.patch {
            Some(p) => p as int,
            None => 0,
        }
    }
}

impl View for Version {
    type V = VersionView;

    closed spec fn view(&self) -> VersionView {
        VersionView {
            major: self.major as nat,
            minor: self.minor as nat,
            patch: match self.patch {
                Some(p) => Some(p as nat),
                None => None,
            },
        }
    }
}

/// Whether `c` is one of the ten ASCII digits.
pub open spec fn is_digit(c: char) -> bool {
    '0' <= c <= '9'
}

/// The number of digits that `s` starts with.
pub open spec fn leading_digits(s: Seq<char>) -> nat
    decreases s.len(),
{
    if s.len() > 0 && is_digit(s[0]) {
        1 + leading_digits(s.drop_first())
    } else {
        0
    }
}

/// The number that a sequence of digits denotes in base ten; leading zeros
/// do not count.
pub open spec fn decimal(digits: Seq<char>) -> nat
    decreases digits.len(),
{
    if digits.len() == 0 {
        0
    } else {
        (decimal(digits.drop_last()) * 10 + (digits.last() as int - '0' as int)) as nat
    }
}

/// What [`parse_number`] reads from `s`: the number that its leading digits
/// denote, if there is a digit and the number fits sixteen bits.
pub open spec fn number_of(s: Seq<char>) -> Option<u16> {
    let digits = s.take(leading_digits(s) as int);
    if digits.len() == 0 || decimal(digits) > u16::MAX {
        None
    } else {
        Some(decimal(digits) as u16)
    }
}

/// The index of the first `sep` in `s`, or the length of `s` if there is none.
pub open spec fn first_index(s: Seq<char>, sep: char) -> nat
    decreases s.len(),
{
    if s.len() == 0 || s[0] == sep {
        0
    } else {
        1 + first_index(s.drop_first(), sep)
    }
}

/// The pieces of `s` between the occurrences of `sep`: one more than there
/// are separators, empty pieces included.
pub open spec fn pieces(s: Seq<char>, sep: char) -> Seq<Seq<char>>
    decreases s.len(),
{
    let i = first_index(s, sep) as int;
    if i >= s.len() {
        seq![s]
    } else {
        seq![s.take(i)] + pieces(s.skip(i + 1), sep)
    }
}

/// What [`parse_version`] reads from `s`. The text has three words with one
/// space between them, the last of which holds the numbers, separated by
/// dots: a major and a minor number, and perhaps a patch level. A third
/// part that starts with no number leaves the patch level out.
pub open spec fn version_of(s: Seq<char>) -> Option<VersionView> {
    let words = pieces(s, ' ');
    if words.len() != 3 {
        None
    } else {
        let parts = pieces(words[2], '.');
        if parts.len() < 2 {
            None
        } else {
            match (number_of(parts[0]), number_of(parts[1])) {
                (Some(major), Some(minor)) => Some(
                    VersionView {
                        major: major as nat,
                        minor: minor as nat,
                        patch: if parts.len() >= 3 {
                            match number_of(parts[2]) {
                                Some(p) => Some(p as nat),
                                None => None,
                            }
                        } else {
                            None
                        },
                    },
                ),
                _ => None,
            }
        }
    }
}

/// The views of the string slices in `v`.
pub open spec fn views(v: Seq<&str>) -> Seq<Seq<char>> {
    Seq::new(v.len(), |i: int| v[i]@)
}

/// Where the first `n` characters are digits and the next is none, `n`
/// is the number of leading digits.
proof fn lemma_leading_digits(s: Seq<char>, n: int)
    requires
        0 <= n <= s.len(),
        forall|j: int| 0 <= j < n ==> is_digit(#[trigger] s[j]),
        n == s.len() || !is_digit(s[n]),
    ensures
        leading_digits(s) == n,
    decreases n,
{
    if n > 0 {
        let t = s.drop_first();
        assert forall|j: int| 0 <= j < n - 1 implies is_digit(#[trigger] t[j]) by {
            assert(t[j] == s[j + 1]);
        }
        lemma_leading_digits(t, n - 1);
    }
}

/// Where `sep` is not among the first `n` characters and is the next, or
/// the text ends there, `n` is the first index of `sep`.
proof fn lemma_first_index(s: Seq<char>, sep: char, n: int)
    requires
        0 <= n <= s.len(),
        forall|j: int| 0 <= j < n ==> #[trigger] s[j] != sep,
        n == s.len() || s[n] == sep,
    ensures
        first_index(s, sep) == n,
    decreases n,
{
    if n > 0 {
        let t = s.drop_first();
        assert forall|j: int| 0 <= j < n - 1 implies #[trigger] t[j] != sep by {
            assert(t[j] == s[j + 1]);
        }
        lemma_first_index(t, sep, n - 1);
    }
}

/// Reads the number that `s` starts with.
pub fn parse_number(s: &str) -> (r: Option<u16>)
    ensures
        r == number_of(s@),
{
    let n = s.unicode_len();
    let mut i: usize = 0;
    let mut acc: u32 = 0;
    let mut fits = true;
    while i < n && is_digit_char(s.get_char(i))
        invariant
            n == s@.len(),
            i <= n,
            forall|j: int| 0 <= j < i ==> is_digit(#[trigger] s@[j]),
            fits ==> acc == decimal(s@.take(i as int)) && acc <= u16::MAX,
            !fits ==> decimal(s@.take(i as int)) > u16::MAX,
        decreases n - i,
    {
        let c = s.get_char(i);
        proof {
            let next = s@.take(i + 1);
            assert(next.drop_last() == s@.take(i as int));
            assert(next.last() == c);
        }
        if fits {
            acc = acc * 10 + digit_value(c);
            if acc > 65535 {
                fits = false;
            }
        }
        i = i + 1;
    }
    proof {
        lemma_leading_digits(s@, i as int);
    }
    if i == 0 || !fits {
        None
    } else {
        Some(acc as u16)
    }
}

/// Whether `c` is a digit.
fn is_digit_char(c: char) -> (r: bool)
    ensures
        r == is_digit(c),
{
    '0' <= c && c <= '9'
}

/// The value of the digit `c`.
fn digit_value(c: char) -> (r: u32)
    requires
        is_digit(c),
    ensures
        r == c as int - '0' as int,
        r <= 9,
{
    c as u32 - '0' as u32
}

/// Cuts `s` at every `sep`.
pub fn split<'a>(s: &'a str, sep: char) -> (r: Vec<&'a str>)
    ensures
        views(r@) == pieces(s@, sep),
{
    let n = s.unicode_len();
    let mut out: Vec<&'a str> = Vec::new();
    let mut from: usize = 0;
    let mut i: usize = 0;
    proof {
        assert(s@.skip(0) == s@);
        assert(views(out@) + pieces(s@, sep) == pieces(s@, sep));
    }
    while i < n
        invariant
            n == s@.len(),
            from <= i <= n,
            forall|j: int| from <= j < i ==> #[trigger] s@[j] != sep,
            pieces(s@, sep) == views(out@) + pieces(s@.skip(from as int), sep),
        decreases n - i,
    {
        if s.get_char(i) == sep {
            let piece = s.substring_char(from, i);
            proof {
                let rest = s@.skip(from as int);
                assert forall|j: int| 0 <= j < i - from implies #[trigger] rest[j] != sep by {
                    assert(rest[j] == s@[from + j]);
                }
                lemma_first_index(rest, sep, i - from);
                assert(rest.take(i - from) == piece@);
                assert(rest.skip(i - from + 1) == s@.skip(i + 1));
                assert(views(out@.push(piece)) == views(out@) + seq![piece@]);
            }
            out.push(piece);
            from = i + 1;
        }
        i = i + 1;
    }
    let last = s.substring_char(from, n);
    proof {
        let rest = s@.skip(from as int);
        assert forall|j: int| 0 <= j < n - from implies #[trigger] rest[j] != sep by {
            assert(rest[j] == s@[from + j]);
        }
        lemma_first_index(rest, sep, n - from);
        assert(rest == last@);
        assert(views(out@.push(last)) == views(out@) + seq![last@]);
    }
    out.push(last);
    out
}

/// Reads a version from the line that the interpreter prints.
pub fn parse_version(s: &str) -> (r: Option<Version>)
    ensures
        match r {
            Some(v) => version_of(s@) == Some(v@),
            None => version_of(s@) is None,
        },
{
    let words = split(s, ' ');
    if words.len() != 3 {
        return None;
    }
    let parts = split(words[2], '.');
    proof {
        assert(views(words@)[2] == words@[2]@);
        assert(views(parts@).len() == parts@.len());
    }
    if parts.len() < 2 {
        return None;
    }
    proof {
        assert(views(parts@)[0] == parts@[0]@);
        assert(views(parts@)[1] == parts@[1]@);
        if parts.len() >= 3 {
            assert(views(parts@)[2] == parts@[2]@);
        }
    }
    let major = match parse_number(parts[0]) {
        Some(n) => n,
        None => {
            return None;
        },
    };
    let minor = match parse_number(parts[1]) {
        Some(n) => n,
        None => {
            return None;
        },
    };
    let patch = if parts.len() >= 3 {
        parse_number(parts[2])
    } else {
        None
    };
    Some(Version { major, minor, patch })
}

impl Version {
    /// The number by which versions are ordered.
    pub fn score(&self) -> (r: u32)
        ensures
            r == self@.score(),
    {
        let patch: u32 = match self.patch {
            Some(p) => p as u32,
            None => 0,
        };
        self.major as u32 * 100 + self.minor as u32 * 10 + patch
    }
}

/// How the scores `a` and `b` stand to each other.
pub open spec fn order_of(a: int, b: int) -> Ordering {
    if a < b {
        Ordering::Less
    } else if a == b {
        Ordering::Equal
    } else {
        Ordering::Greater
    }
}

impl Version {
    /// Orders two versions by their scores.
    pub fn cmp(&self, other: &Version) -> (r: Ordering)
        ensures
            r == order_of(self@.score(), other@.score()),
    {
        let a = self.score();
        let b = other.score();
        if a < b {
            Ordering::Less
        } else if a == b {
            Ordering::Equal
        } else {
            Ordering::Greater
        }
    }
}

impl PartialOrd for Version {
    fn partial_cmp(&self, other: &Version) -> (r: Option<Ordering>) {
        Some(self.cmp(other))
    }
}

impl PartialOrdSpecImpl for Version {
    open spec fn obeys_partial_cmp_spec() -> bool {
        true
    }

    open spec fn partial_cmp_spec(&self, other: &Version) -> Option<Ordering> {
        Some(order_of(self@.score(), other@.score()))
    }
}

impl FromStr for Version {
    type Err = ();

    fn from_str(s: &str) -> (r: Result<Version, ()>)
        ensures
            match r {
                Ok(v) => version_of(s@) == Some(v@),
                Err(_) => version_of(s@) is None,
            },
    {
        match parse_version(s) {
            Some(v) => Ok(v),
            None => Err(()),
        }
    }
}

/// What is known of the session that the linter runs in.
#[non_exhaustive]
pub struct SessionInfo {
    nix_version: Version,
}

impl View for SessionInfo {
    type V = VersionView;

    closed spec fn view(&self) -> VersionView {
        self.nix_version@
    }
}

impl SessionInfo {
    /// A session with the interpreter at `nix_version`.
    pub fn from_version(nix_version: Version) -> (r: SessionInfo)
        ensures
            r@ == nix_version@,
    {
        SessionInfo { nix_version }
    }

    /// The interpreter's version.
    pub fn version(&self) -> (r: &Version)
        ensures
            r@ == self@,
    {
        &self.nix_version
    }
}

/// What the line of the interpreter at hand reads as: version 2.4.
proof fn lemma_nix_version()
    ensures
        version_of("nix (Nix) 2.4pre20211006_53e4794"@) == Some(VersionView { major: 2, minor: 4, patch: None }),
{
    let s = "nix (Nix) 2.4pre20211006_53e4794"@;
    reveal_strlit("nix (Nix) 2.4pre20211006_53e4794");
    assert(s.len() == 32);
    let s1 = s.skip(4);
    let s2 = s1.skip(6);
    let s3 = s2.skip(2);
    assert(s2.len() == 22 && s3.len() == 20);
    assert forall|j: int| 0 <= j < 22 implies s2[j] == s[j + 10] by {}
    assert forall|j: int| 0 <= j < 20 implies s3[j] == s[j + 12] by {}
    assert forall|j: int| 0 <= j < 22 implies #[trigger] s2[j] != ' ' by {
        assert(s[10] != ' ');
        assert(s[11] != ' ');
        assert(s[12] != ' ');
        assert(s[13] != ' ');
        assert(s[14] != ' ');
        assert(s[15] != ' ');
        assert(s[16] != ' ');
        assert(s[17] != ' ');
        assert(s[18] != ' ');
        assert(s[19] != ' ');
        assert(s[20] != ' ');
        assert(s[21] != ' ');
        assert(s[22] != ' ');
        assert(s[23] != ' ');
        assert(s[24] != ' ');
        assert(s[25] != ' ');
        assert(s[26] != ' ');
        assert(s[27] != ' ');
        assert(s[28] != ' ');
        assert(s[29] != ' ');
        assert(s[30] != ' ');
        assert(s[31] != ' ');
    }
    assert forall|j: int| 0 <= j < 20 implies #[trigger] s3[j] != '.' by {
        assert(s[12] != '.');
        assert(s[13] != '.');
        assert(s[14] != '.');
        assert(s[15] != '.');
        assert(s[16] != '.');
        assert(s[17] != '.');
        assert(s[18] != '.');
        assert(s[19] != '.');
        assert(s[20] != '.');
        assert(s[21] != '.');
        assert(s[22] != '.');
        assert(s[23] != '.');
        assert(s[24] != '.');
        assert(s[25] != '.');
        assert(s[26] != '.');
        assert(s[27] != '.');
        assert(s[28] != '.');
        assert(s[29] != '.');
        assert(s[30] != '.');
        assert(s[31] != '.');
    }
    lemma_first_index(s, ' ', 3);
    lemma_first_index(s1, ' ', 5);
    lemma_first_index(s2, ' ', 22);
    assert(pieces(s2, ' ') == seq![s2]);
    assert(pieces(s1, ' ') == seq![s1.take(5)] + seq![s2]);
    assert(pieces(s, ' ') == seq![s.take(3)] + (seq![s1.take(5)] + seq![s2]));
    let words = pieces(s, ' ');
    assert(words.len() == 3);
    assert(words[2] == s2);
    lemma_first_index(s2, '.', 1);
    lemma_first_index(s3, '.', 20);
    assert(pieces(s3, '.') == seq![s3]);
    assert(pieces(s2, '.') == seq![s2.take(1)] + seq![s3]);
    let parts = pieces(s2, '.');
    assert(parts.len() == 2);
    assert(parts[0] == s2.take(1));
    assert(parts[1] == s3);
    let major = s2.take(1);
    assert(major[0] == '2');
    lemma_leading_digits(major, 1);
    assert(major.take(1) == major);
    assert(major.drop_last().len() == 0);
    assert(decimal(major.drop_last()) == 0);
    assert(major.last() == '2');
    assert('2' as int - '0' as int == 2);
    assert(decimal(major) == 2);
    assert(s3[0] == '4' && s3[1] == 'p');
    lemma_leading_digits(s3, 1);
    let minor = s3.take(1);
    assert(minor[0] == '4');
    assert(minor.drop_last().len() == 0);
    assert(decimal(minor.drop_last()) == 0);
    assert(minor.last() == '4');
    assert('4' as int - '0' as int == 4);
    assert(decimal(minor) == 4);
}

/// The version of the interpreter at hand: 2.4.
pub fn get_nix_version() -> (r: Option<Version>)
    ensures
        r matches Some(v) && v@ == (VersionView { major: 2, minor: 4, patch: None }),
{
    proof {
        lemma_nix_version();
    }
    parse_version("nix (Nix) 2.4pre20211006_53e4794")
}

} // verus!
