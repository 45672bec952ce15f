//! The Python environment the CAD scripts run in: reading interpreter
//! versions, deciding what a setup check reports, and the messages of
//! environment provisioning.

use vstd::prelude::*;

use crate::text::{
    chars_of, contains_seq, decimal, occurs_at, trim_end_ws, digit_char, is_whitespace, is_ws, push_char, push_decimal, push_range,
    push_str, skip_ws_start, str_contains, str_eq, string_of_range, trim_bounds, trim_start_ws,
    trim_ws,
};

verus! {

/// Minimum supported Python minor version (CadQuery 2.8 requires 3.11).
pub const MIN_PYTHON_MINOR: u32 = 11;

/// Pip requirements for the system-Python fallback environment.
pub const REQUIREMENTS: &'static str = "cadquery>=2.8,<3\n";

/// What keeps a system Python from hosting the environment.
#[derive(Clone, Copy, PartialEq, Eq, Debug, Structural)]
pub enum MissingComponent {
    Python,
    PythonVersion,
    Venv,
    Pip,
}

/// Which environment is active (or would be provisioned).
#[derive(Clone, Copy, PartialEq, Eq, Debug, Structural)]
pub enum EnvSource {
    /// The environment provisioned with the bundled micromamba is ready.
    Micromamba,
    /// A previously created venv is in use.
    Venv,
    /// The system Python is the fallback.
    System,
    /// No environment is ready yet.
    NotReady,
}

/// What a setup check reports.
pub struct SetupStatus {
    pub ready: bool,
    pub missing: Option<MissingComponent>,
    pub venv_exists: bool,
    /// The system Python's `major.minor` version, when it was consulted.
    pub system_python: Option<String>,
    pub env_source: EnvSource,
}

/// A progress notice shown while the environment is provisioned.
pub struct ProgressEvent {
    pub step: String,
    pub message: String,
}

/// A Python interpreter version.
#[derive(Clone, Copy, PartialEq, Eq, Debug, Structural)]
pub struct PythonVersion {
    pub major: u32,
    pub minor: u32,
}

// ----------------------------------------------------------------------------
// Reading `python --version`
// ----------------------------------------------------------------------------

/// The length of the run of non-whitespace characters that starts `s`.
pub open spec fn word_len(s: Seq<char>) -> nat
    decreases s.len(),
{
    if s.len() > 0 && !is_ws(s[0]) {
        1 + word_len(s.drop_first())
    } else {
        0
    }
}

/// The first whitespace-separated word of `s` (empty when there is none).
pub open spec fn first_word(s: Seq<char>) -> Seq<char> {
    let t = trim_start_ws(s);
    t.take(word_len(t) as int)
}

/// What follows the first whitespace-separated word of `s`.
pub open spec fn after_first_word(s: Seq<char>) -> Seq<char> {
    let t = trim_start_ws(s);
    t.skip(word_len(t) as int)
}

/// The word that carries the version: the first word, or the second when
/// the first is `Python`.
pub open spec fn version_token(s: Seq<char>) -> Option<Seq<char>> {
    let w = first_word(s);
    if w.len() == 0 {
        None
    } else if w == "Python"@ {
        let w2 = first_word(after_first_word(s));
        if w2.len() == 0 {
            None
        } else {
            Some(w2)
        }
    } else {
        Some(w)
    }
}

/// Index of the first `'.'` in `s`, or `s.len()` when there is none.
pub open spec fn dot_index(s: Seq<char>) -> nat
    decreases s.len(),
{
    if s.len() == 0 {
        0
    } else if s[0] == '.' {
        0
    } else {
        1 + dot_index(s.drop_first())
    }
}

/// Whether every character of `d` is an ASCII digit.
pub open spec fn all_digits(d: Seq<char>) -> bool {
    forall|i: int| 0 <= i < d.len() ==> '0' <= #[trigger] d[i] <= '9'
}

/// The number that the decimal digits `d` spell.
pub open spec fn digits_value(d: Seq<char>) -> int
    decreases d.len(),
{
    if d.len() == 0 {
        0
    } else {
        digits_value(d.drop_last()) * 10 + (d.last() as int - '0' as int)
    }
}

/// The value of decimal digits `d` when they are one or more ASCII digits
/// whose value fits in 32 bits.
pub open spec fn parse_digits(d: Seq<char>) -> Option<u32> {
    if d.len() > 0 && all_digits(d) && digits_value(d) <= u32::MAX {
        Some(digits_value(d) as u32)
    } else {
        None
    }
}

/// A `u32` read as `str::parse` reads it: an optional `+` and then one or
/// more ASCII digits, whose value fits in 32 bits.
pub open spec fn parse_u32(f: Seq<char>) -> Option<u32> {
    if f.len() > 0 && f[0] == '+' {
        parse_digits(f.drop_first())
    } else {
        parse_digits(f)
    }
}

/// The version a version word denotes: the word split at dots, its first two
/// fields read as numbers; `None` when either is missing or not a number.
pub open spec fn version_of_token(t: Seq<char>) -> Option<PythonVersion> {
    let k = dot_index(t) as int;
    if k >= t.len() {
        None
    } else {
        let rest = t.skip(k + 1);
        match (parse_u32(t.take(k)), parse_u32(rest.take(dot_index(rest) as int))) {
            (Some(major), Some(minor)) => Some(PythonVersion { major, minor }),
            _ => None,
        }
    }
}

/// The version that `python --version` printed in `text` ("Python 3.12.4" or
/// "3.12.4"); `None` when there is no version word or it does not hold one.
pub open spec fn python_version(text: Seq<char>) -> Option<PythonVersion> {
    match version_token(text) {
        None => None,
        Some(t) => version_of_token(t),
    }
}

proof fn lemma_digits_monotone(d: Seq<char>, i: int, j: int)
    requires
        0 <= i <= j <= d.len(),
        all_digits(d),
    ensures
        digits_value(d.take(i)) <= digits_value(d.take(j)),
    decreases j - i,
{
    if i < j {
        lemma_digits_monotone(d, i, j - 1);
        assert(d.take(j).drop_last() == d.take(j - 1));
        assert(d.take(j).last() == d[j - 1]);
        assert(digits_value(d.take(j - 1)) >= 0) by {
            lemma_digits_nonneg(d.take(j - 1));
        }
    }
}

proof fn lemma_digits_nonneg(d: Seq<char>)
    requires
        all_digits(d),
    ensures
        digits_value(d) >= 0,
    decreases d.len(),
{
    if d.len() > 0 {
        assert(all_digits(d.drop_last()));
        lemma_digits_nonneg(d.drop_last());
        assert('0' <= d[d.len() - 1] <= '9');
    }
}

/// The end of the word that starts `v[lo..hi]`.
fn scan_word(v: &Vec<char>, lo: usize, hi: usize) -> (r: usize)
    requires
        lo <= hi <= v.len(),
    ensures
        lo <= r <= hi,
        r - lo == word_len(v@.subrange(lo as int, hi as int)),
{
    let mut i = lo;
    while i < hi && !is_whitespace(v[i])
        invariant
            lo <= i <= hi <= v.len(),
            word_len(v@.subrange(lo as int, hi as int)) == (i - lo) + word_len(v@.subrange(i as int, hi as int)),
        decreases hi - i,
    {
        proof {
            assert(v@.subrange(i as int, hi as int).drop_first() == v@.subrange(i + 1, hi as int));
        }
        i = i + 1;
    }
    i
}

/// The first `'.'` of `v[lo..hi]`, or `hi`.
fn find_dot(v: &Vec<char>, lo: usize, hi: usize) -> (r: usize)
    requires
        lo <= hi <= v.len(),
    ensures
        lo <= r <= hi,
        r - lo == dot_index(v@.subrange(lo as int, hi as int)),
{
    let mut i = lo;
    while i < hi && v[i] != '.'
        invariant
            lo <= i <= hi <= v.len(),
            dot_index(v@.subrange(lo as int, hi as int)) == (i - lo) + dot_index(v@.subrange(i as int, hi as int)),
        decreases hi - i,
    {
        proof {
            assert(v@.subrange(i as int, hi as int).drop_first() == v@.subrange(i + 1, hi as int));
        }
        i = i + 1;
    }
    i
}

/// Reads `v[lo..hi]` as a `u32`.
fn parse_u32_range(v: &Vec<char>, lo: usize, hi: usize) -> (r: Option<u32>)
    requires
        lo <= hi <= v.len(),
    ensures
        r == parse_u32(v@.subrange(lo as int, hi as int)),
{
    let ghost f = v@.subrange(lo as int, hi as int);
    let mut start = lo;
    if start < hi && v[start] == '+' {
        start = start + 1;
    }
    let ghost d = v@.subrange(start as int, hi as int);
    proof {
        if f.len() > 0 && f[0] == '+' {
            assert(f.drop_first() == d);
        } else {
            assert(f == d);
        }
    }
    if start == hi {
        return None;
    }
    let mut acc: u64 = 0;
    let mut i = start;
    while i < hi
        invariant
            start <= i <= hi <= v.len(),
            d == v@.subrange(start as int, hi as int),
            f == v@.subrange(lo as int, hi as int),
            parse_u32(f) == parse_digits(d),
            all_digits(d.take(i - start)),
            acc == digits_value(d.take(i - start)),
            acc <= u32::MAX,
        decreases hi - i,
    {
        let c = v[i];
        if !('0' <= c && c <= '9') {
            proof {
                assert(d[i - start] == c);
            }
            return None;
        }
        proof {
            assert(d.take(i - start + 1).drop_last() == d.take(i - start));
            assert(d.take(i - start + 1).last() == c);
            assert(all_digits(d.take(i - start + 1))) by {
                assert forall|q: int| 0 <= q < i - start + 1 implies '0' <= #[trigger] d.take(i - start + 1)[q] <= '9' by {
                    if q < i - start {
                        assert(d.take(i - start)[q] == d.take(i - start + 1)[q]);
                    }
                }
            }
        }
        let digit = (c as u32 - '0' as u32) as u64;
        acc = acc * 10 + digit;
        if acc > 0xffff_ffff {
            proof {
                if all_digits(d) {
                    lemma_digits_monotone(d, i - start + 1, d.len() as int);
                    assert(d.take(d.len() as int) == d);
                }
            }
            return None;
        }
        i = i + 1;
    }
    proof {
        assert(d.take(i - start) == d);
    }
    Some(acc as u32)
}

/// Whether `v[lo..hi]` is the word `Python`.
fn is_python_word(v: &Vec<char>, lo: usize, hi: usize) -> (b: bool)
    requires
        lo <= hi <= v.len(),
    ensures
        b == (v@.subrange(lo as int, hi as int) == "Python"@),
{
    let w = string_of_range(v, lo, hi);
    str_eq(w.as_str(), "Python")
}

/// The bounds of the version word of `v`.
fn token_bounds(v: &Vec<char>) -> (r: Option<(usize, usize)>)
    ensures
        match version_token(v@) {
            None => r is None,
            Some(t) => r matches Some((lo, hi)) && lo <= hi <= v.len() && v@.subrange(lo as int, hi as int) == t,
        },
{
    let n = v.len();
    let a0 = skip_ws_start(v, 0, n);
    let a1 = scan_word(v, a0, n);
    proof {
        assert(v@.subrange(0, n as int) == v@);
        assert(v@.subrange(a0 as int, a1 as int) == first_word(v@));
        assert(v@.subrange(a1 as int, n as int) == after_first_word(v@));
    }
    if a0 == a1 {
        return None;
    }
    if is_python_word(v, a0, a1) {
        let b0 = skip_ws_start(v, a1, n);
        let b1 = scan_word(v, b0, n);
        proof {
            assert(v@.subrange(b0 as int, b1 as int) == first_word(after_first_word(v@)));
        }
        if b0 == b1 {
            return None;
        }
        Some((b0, b1))
    } else {
        Some((a0, a1))
    }
}

/// Reads the version held by the version word `v[lo..hi]`.
fn version_in_range(v: &Vec<char>, lo: usize, hi: usize) -> (r: Option<PythonVersion>)
    requires
        lo <= hi <= v.len(),
    ensures
        r == version_of_token(v@.subrange(lo as int, hi as int)),
{
    let ghost t = v@.subrange(lo as int, hi as int);
    let d1 = find_dot(v, lo, hi);
    if d1 == hi {
        return None;
    }
    let d2 = find_dot(v, d1 + 1, hi);
    proof {
        let k = dot_index(t) as int;
        let rest = t.skip(k + 1);
        assert(rest == v@.subrange(d1 + 1, hi as int));
        assert(t.take(k) == v@.subrange(lo as int, d1 as int));
        assert(rest.take(dot_index(rest) as int) == v@.subrange(d1 + 1, d2 as int));
    }
    let major = parse_u32_range(v, lo, d1);
    let minor = parse_u32_range(v, d1 + 1, d2);
    match (major, minor) {
        (Some(major), Some(minor)) => Some(PythonVersion { major, minor }),
        _ => None,
    }
}

/// Reads the version that `python --version` printed ("Python 3.12.4" on
/// some builds' stdout, others' stderr; a bare "3.12.4" is accepted too).
pub fn parse_python_version(text: &str) -> (r: Option<PythonVersion>)
    ensures
        r == python_version(text@),
{
    let v = chars_of(text);
    match token_bounds(&v) {
        None => None,
        Some((lo, hi)) => version_in_range(&v, lo, hi),
    }
}

// ----------------------------------------------------------------------------
// Setup decisions
// ----------------------------------------------------------------------------

/// Whether a system Python is recent enough: 3.11 or later in the 3 line.
pub open spec fn supported(v: PythonVersion) -> bool {
    v.major == 3 && v.minor >= MIN_PYTHON_MINOR
}

/// Whether a Python version is recent enough to host the environment.
pub fn version_supported(v: &PythonVersion) -> (b: bool)
    ensures
        b == supported(*v),
{
    v.major == 3 && v.minor >= MIN_PYTHON_MINOR
}

/// `major.minor` of a version.
pub open spec fn version_text(v: PythonVersion) -> Seq<char> {
    decimal(v.major as nat) + "."@ + decimal(v.minor as nat)
}

/// Writes `major.minor`.
pub fn version_string(v: &PythonVersion) -> (s: String)
    ensures
        s@ == version_text(*v),
{
    let mut s = String::new();
    push_decimal(&mut s, v.major as u64);
    push_char(&mut s, '.');
    push_decimal(&mut s, v.minor as u64);
    proof {
        assert(seq!['.'] == "."@) by {
            reveal_strlit(".");
        }
    }
    s
}

proof fn lemma_digit_char(d: nat)
    requires
        d < 10,
    ensures
        '0' <= digit_char(d) <= '9',
        digit_char(d) as int - '0' as int == d,
{
}

/// Decimal numerals are digits, nothing else, and read back as their value.
proof fn lemma_decimal(n: nat)
    ensures
        decimal(n).len() > 0,
        all_digits(decimal(n)),
        digits_value(decimal(n)) == n,
    decreases n,
{
    if n < 10 {
        lemma_digit_char(n);
        let d = decimal(n);
        assert(d.drop_last() == Seq::<char>::empty());
        assert(digits_value(d.drop_last()) == 0);
        assert(d.last() == digit_char(n));
    } else {
        lemma_decimal(n / 10);
        lemma_digit_char(n % 10);
        let d = decimal(n);
        assert(d.drop_last() == decimal(n / 10));
        assert(d.last() == digit_char(n % 10));
        assert forall|i: int| 0 <= i < d.len() implies '0' <= #[trigger] d[i] <= '9' by {
            if i < d.len() - 1 {
                assert(d[i] == decimal(n / 10)[i]);
            }
        }
        assert(n == 10 * (n / 10) + n % 10) by {
            vstd::arithmetic::div_mod::lemma_fundamental_div_mod(n as int, 10);
        }
        assert(digits_value(d) == digits_value(d.drop_last()) * 10 + (d.last() as int - '0' as int));
    }
}

proof fn lemma_word_len(s: Seq<char>, k: int)
    requires
        0 <= k <= s.len(),
        forall|i: int| 0 <= i < k ==> !is_ws(#[trigger] s[i]),
        k == s.len() || is_ws(s[k]),
    ensures
        word_len(s) == k,
    decreases k,
{
    if k > 0 {
        let t = s.drop_first();
        assert forall|i: int| 0 <= i < k - 1 implies !is_ws(#[trigger] t[i]) by {
            assert(t[i] == s[i + 1]);
        }
        if k - 1 < t.len() {
            assert(t[k - 1] == s[k]);
        }
        lemma_word_len(t, k - 1);
    }
}

proof fn lemma_dot_index(s: Seq<char>, k: int)
    requires
        0 <= k <= s.len(),
        forall|i: int| 0 <= i < k ==> #[trigger] s[i] != '.',
        k == s.len() || s[k] == '.',
    ensures
        dot_index(s) == k,
    decreases k,
{
    if k > 0 {
        let t = s.drop_first();
        assert forall|i: int| 0 <= i < k - 1 implies #[trigger] t[i] != '.' by {
            assert(t[i] == s[i + 1]);
        }
        if k - 1 < t.len() {
            assert(t[k - 1] == s[k]);
        }
        lemma_dot_index(t, k - 1);
    }
}

proof fn lemma_parse_decimal(n: u32)
    ensures
        parse_u32(decimal(n as nat)) == Some(n),
{
    lemma_decimal(n as nat);
    let d = decimal(n as nat);
    assert('0' <= d[0] <= '9');
}

/// The version word `major.minor` followed by `tail` (more fields, or
/// nothing) reads as `major.minor`.
proof fn lemma_version_token(v: PythonVersion, tail: Seq<char>)
    requires
        tail.len() == 0 || tail[0] == '.',
    ensures
        version_of_token(version_text(v) + tail) == Some(v),
{
    let a = decimal(v.major as nat);
    let b = decimal(v.minor as nat);
    let t = version_text(v) + tail;
    lemma_decimal(v.major as nat);
    lemma_decimal(v.minor as nat);
    reveal_strlit(".");
    assert(t == a + (seq!['.'] + (b + tail)));
    assert forall|i: int| 0 <= i < a.len() implies #[trigger] t[i] != '.' by {
        assert(t[i] == a[i]);
        assert('0' <= a[i] <= '9');
    }
    assert(t[a.len() as int] == '.');
    lemma_dot_index(t, a.len() as int);
    let rest = t.skip(a.len() + 1 as int);
    assert(rest == b + tail);
    assert forall|i: int| 0 <= i < b.len() implies #[trigger] rest[i] != '.' by {
        assert(rest[i] == b[i]);
        assert('0' <= b[i] <= '9');
    }
    if tail.len() > 0 {
        assert(rest[b.len() as int] == tail[0]);
    }
    lemma_dot_index(rest, b.len() as int);
    assert(t.take(a.len() as int) == a);
    assert(rest.take(b.len() as int) == b);
    lemma_parse_decimal(v.major);
    lemma_parse_decimal(v.minor);
}

/// What `python --version` prints reads back: "Python major.minor", with
/// or without a patch level after it, gives that version.
pub proof fn law_version_reads_back(v: PythonVersion, patch: Option<u32>)
    ensures
        python_version("Python "@ + version_text(v) + match patch {
            Some(p) => "."@ + decimal(p as nat),
            None => Seq::empty(),
        }) == Some(v),
{
    let tail = match patch {
        Some(p) => "."@ + decimal(p as nat),
        None => Seq::<char>::empty(),
    };
    reveal_strlit(".");
    reveal_strlit("Python ");
    reveal_strlit("Python");
    let word = version_text(v) + tail;
    let text = "Python "@ + word;
    lemma_decimal(v.major as nat);
    lemma_decimal(v.minor as nat);
    let a = decimal(v.major as nat);
    let b = decimal(v.minor as nat);
    // The version word holds no whitespace.
    assert forall|i: int| 0 <= i < word.len() implies !is_ws(#[trigger] word[i]) by {
        if i < a.len() {
            assert(word[i] == a[i]);
            assert('0' <= a[i] <= '9');
        } else if i == a.len() {
            assert(word[i] == '.');
        } else if i < a.len() + 1 + b.len() {
            assert(word[i] == b[i - a.len() - 1]);
            assert('0' <= b[i - a.len() - 1] <= '9');
        } else {
            match patch {
                Some(p) => {
                    lemma_decimal(p as nat);
                    let j = i - (a.len() + 1 + b.len());
                    assert(word[i] == tail[j]);
                    if j > 0 {
                        assert(tail[j] == decimal(p as nat)[j - 1]);
                        assert('0' <= decimal(p as nat)[j - 1] <= '9');
                    }
                },
                None => {},
            }
        }
    }
    // "Python" is the first word.
    assert(trim_start_ws(text) == text);
    assert forall|i: int| 0 <= i < 6 implies !is_ws(#[trigger] text[i]) by {}
    lemma_word_len(text, 6);
    assert(text.take(6) == "Python"@);
    let after = text.skip(6);
    assert(after == seq![' '] + word);
    // The version word is the second.
    assert(after.drop_first() == word);
    assert(trim_start_ws(word) == word);
    assert(trim_start_ws(after) == word);
    lemma_word_len(word, word.len() as int);
    assert(word.take(word.len() as int) == word);
    assert(version_token(text) == Some(word));
    lemma_version_token(v, tail);
    assert(("Python "@ + version_text(v)) + tail == text);
}

/// A probe whose answer a setup check needs.
#[derive(Clone, Copy, PartialEq, Eq, Debug, Structural)]
pub enum SetupProbe {
    /// Does the micromamba environment's Python run?
    MicromambaRuns,
    /// Does the venv's Python run?
    VenvRuns,
    /// Which system Python is there, and what version is it?
    SystemPython,
    /// Does the system Python have the `venv` module?
    VenvModule,
    /// Does the system Python have the `pip` module?
    PipModule,
}

/// What a setup check has learnt so far; `None` for what it has not asked.
pub struct SetupFacts {
    pub micromamba_runs: Option<bool>,
    pub venv_runs: Option<bool>,
    pub system_python: Option<Option<PythonVersion>>,
    pub venv_module: Option<bool>,
    pub pip_module: Option<bool>,
}

/// The next step of a setup check: ask a probe, or report.
pub enum SetupStep {
    Probe(SetupProbe),
    Report(SetupStatus),
}

/// The probe a setup check asks next, if any. The check asks, in turn, whether
/// the micromamba environment runs, whether the venv runs, which system Python
/// there is, and, for a supported one, whether it has `venv` and then `pip`.
pub open spec fn next_probe(f: SetupFacts) -> Option<SetupProbe> {
    match f.micromamba_runs {
        None => Some(SetupProbe::MicromambaRuns),
        Some(true) => None,
        Some(false) => match f.venv_runs {
            None => Some(SetupProbe::VenvRuns),
            Some(true) => None,
            Some(false) => match f.system_python {
                None => Some(SetupProbe::SystemPython),
                Some(None) => None,
                Some(Some(v)) => if !supported(v) {
                    None
                } else {
                    match f.venv_module {
                        None => Some(SetupProbe::VenvModule),
                        Some(false) => None,
                        Some(true) => match f.pip_module {
                            None => Some(SetupProbe::PipModule),
                            Some(_) => None,
                        },
                    }
                },
            },
        },
    }
}

/// Whether the facts hold no answer yet for probe `p`.
pub open spec fn unanswered(f: SetupFacts, p: SetupProbe) -> bool {
    match p {
        SetupProbe::MicromambaRuns => f.micromamba_runs is None,
        SetupProbe::VenvRuns => f.venv_runs is None,
        SetupProbe::SystemPython => f.system_python is None,
        SetupProbe::VenvModule => f.venv_module is None,
        SetupProbe::PipModule => f.pip_module is None,
    }
}

/// A setup check only asks what it does not know yet; as each answer fills
/// one of five facts, it reports after at most five probes.
pub proof fn law_probe_is_unanswered(f: SetupFacts)
    ensures
        next_probe(f) matches Some(p) ==> unanswered(f, p),
{
}

/// What keeps a supported-or-not system Python from hosting the environment,
/// checked in order: its version, then its `venv` module, then `pip`.
pub open spec fn system_missing(v: PythonVersion, venv_module: Option<bool>, pip_module: Option<bool>) -> Option<MissingComponent> {
    if !supported(v) {
        Some(MissingComponent::PythonVersion)
    } else if venv_module != Some(true) {
        Some(MissingComponent::Venv)
    } else if pip_module != Some(true) {
        Some(MissingComponent::Pip)
    } else {
        None
    }
}

/// `s` reports a ready environment from `source`.
pub open spec fn reports_ready(s: SetupStatus, source: EnvSource) -> bool {
    &&& s.ready
    &&& s.missing is None
    &&& s.venv_exists
    &&& s.system_python is None
    &&& s.env_source == source
}

/// The report of a finished setup check.
pub open spec fn setup_report(f: SetupFacts, s: SetupStatus) -> bool {
    if f.micromamba_runs == Some(true) {
        reports_ready(s, EnvSource::Micromamba)
    } else if f.venv_runs == Some(true) {
        reports_ready(s, EnvSource::Venv)
    } else {
        match f.system_python {
            Some(Some(v)) => {
                &&& !s.ready
                &&& s.missing == system_missing(v, f.venv_module, f.pip_module)
                &&& !s.venv_exists
                &&& s.system_python matches Some(t) && t@ == version_text(v)
                &&& s.env_source == EnvSource::System
            },
            _ => {
                &&& !s.ready
                &&& s.missing == Some(MissingComponent::Python)
                &&& !s.venv_exists
                &&& s.system_python is None
                &&& s.env_source == EnvSource::NotReady
            },
        }
    }
}

fn ready_status(source: EnvSource) -> (s: SetupStatus)
    ensures
        reports_ready(s, source),
{
    SetupStatus { ready: true, missing: None, venv_exists: true, system_python: None, env_source: source }
}

/// One step of a setup check: the probe it needs next, or, once it knows
/// enough, its report. Detection only; nothing is provisioned.
pub fn check_setup_step(f: &SetupFacts) -> (step: SetupStep)
    ensures
        match next_probe(*f) {
            Some(p) => step == SetupStep::Probe(p),
            None => step matches SetupStep::Report(s) && setup_report(*f, s),
        },
{
    match f.micromamba_runs {
        None => return SetupStep::Probe(SetupProbe::MicromambaRuns),
        Some(true) => return SetupStep::Report(ready_status(EnvSource::Micromamba)),
        Some(false) => {},
    }
    match f.venv_runs {
        None => return SetupStep::Probe(SetupProbe::VenvRuns),
        Some(true) => return SetupStep::Report(ready_status(EnvSource::Venv)),
        Some(false) => {},
    }
    let v = match f.system_python {
        None => return SetupStep::Probe(SetupProbe::SystemPython),
        Some(None) => {
            return SetupStep::Report(
                SetupStatus {
                    ready: false,
                    missing: Some(MissingComponent::Python),
                    venv_exists: false,
                    system_python: None,
                    env_source: EnvSource::NotReady,
                },
            );
        },
        Some(Some(v)) => v,
    };
    let missing = if !version_supported(&v) {
        Some(MissingComponent::PythonVersion)
    } else {
        match f.venv_module {
            None => return SetupStep::Probe(SetupProbe::VenvModule),
            Some(false) => Some(MissingComponent::Venv),
            Some(true) => match f.pip_module {
                None => return SetupStep::Probe(SetupProbe::PipModule),
                Some(false) => Some(MissingComponent::Pip),
                Some(true) => None,
            },
        }
    };
    SetupStep::Report(
        SetupStatus {
            ready: false,
            missing,
            venv_exists: false,
            system_python: Some(version_string(&v)),
            env_source: EnvSource::System,
        },
    )
}

// ----------------------------------------------------------------------------
// Provisioning messages
// ----------------------------------------------------------------------------

/// The error when no system Python 3 is found.
pub const PYTHON_NOT_FOUND: &'static str = "Python 3 was not found on this system.";

/// The error when the system Python lacks the `venv` module.
pub const VENV_MODULE_MISSING: &'static str = "The Python `venv` module is not available.";

/// The error when the system Python lacks the `pip` module.
pub const PIP_MODULE_MISSING: &'static str = "The Python `pip` module is not available.";

/// The error when `python -m venv` fails.
pub const VENV_CREATION_FAILED: &'static str = "Virtual environment creation failed.";

/// The error when a freshly provisioned environment's Python does not run.
pub const PROVISIONED_PYTHON_BROKEN: &'static str = "Environment created but its Python does not run.";

/// The error for a system Python that is too old.
pub fn too_old_message(v: &PythonVersion) -> (s: String)
    ensures
        s@ == "Python "@ + version_text(*v) + " is too old; version 3."@ + decimal(MIN_PYTHON_MINOR as nat)
            + "+ is required."@,
{
    let mut s = String::new();
    push_str(&mut s, "Python ");
    let t = version_string(v);
    push_str(&mut s, t.as_str());
    push_str(&mut s, " is too old; version 3.");
    push_decimal(&mut s, MIN_PYTHON_MINOR as u64);
    push_str(&mut s, "+ is required.");
    s
}

/// The error for a system Python that is too old, as text.
pub open spec fn too_old_text(v: PythonVersion) -> Seq<char> {
    "Python "@ + version_text(v) + " is too old; version 3."@ + decimal(MIN_PYTHON_MINOR as nat) + "+ is required."@
}

// ----------------------------------------------------------------------------
// Provisioning decisions
// ----------------------------------------------------------------------------

/// A probe or action whose outcome provisioning needs.
#[derive(Clone, Copy, PartialEq, Eq, Debug, Structural)]
pub enum EnsureProbe {
    /// Does the micromamba environment's Python run?
    MicromambaRuns,
    /// Does the venv's Python run?
    VenvRuns,
    /// Is micromamba bundled with the app?
    BundledMicromamba,
    /// Provision the environment with the bundled micromamba: did it work?
    Provision,
    /// Which system Python is there, and what version is it?
    SystemPython,
    /// Does the system Python have the `venv` module?
    VenvModule,
    /// Does the system Python have the `pip` module?
    PipModule,
}

/// What provisioning has learnt so far; `None` for what it has not asked.
pub struct EnsureFacts {
    pub micromamba_runs: Option<bool>,
    pub venv_runs: Option<bool>,
    pub bundled_micromamba: Option<bool>,
    pub provisioned: Option<bool>,
    pub system_python: Option<Option<PythonVersion>>,
    pub venv_module: Option<bool>,
    pub pip_module: Option<bool>,
}

/// The next step of provisioning.
pub enum EnsureStep {
    /// Find out this.
    Probe(EnsureProbe),
    /// The micromamba environment is ready: use its Python.
    UseMicromamba,
    /// The existing venv is ready: use its Python.
    UseVenv,
    /// Provisioning with micromamba worked: use the new environment's Python.
    UseProvisioned,
    /// Create a venv with the system Python and install the dependencies.
    CreateVenv,
    /// Stop with this error.
    Fail(String),
}

/// What provisioning does next, without the error texts.
pub enum EnsurePlan {
    Probe(EnsureProbe),
    UseMicromamba,
    UseVenv,
    UseProvisioned,
    CreateVenv,
    NoPython,
    TooOld(PythonVersion),
    NoVenvModule,
    NoPip,
}

/// The order provisioning goes in: the micromamba environment, then an
/// existing venv, then provisioning with a bundled micromamba, and last a
/// venv on a supported system Python with `venv` and `pip`.
pub open spec fn ensure_plan(f: EnsureFacts) -> EnsurePlan {
    match f.micromamba_runs {
        None => EnsurePlan::Probe(EnsureProbe::MicromambaRuns),
        Some(true) => EnsurePlan::UseMicromamba,
        Some(false) => match f.venv_runs {
            None => EnsurePlan::Probe(EnsureProbe::VenvRuns),
            Some(true) => EnsurePlan::UseVenv,
            Some(false) => match f.bundled_micromamba {
                None => EnsurePlan::Probe(EnsureProbe::BundledMicromamba),
                Some(bundled) => if bundled && f.provisioned is None {
                    EnsurePlan::Probe(EnsureProbe::Provision)
                } else if bundled && f.provisioned == Some(true) {
                    EnsurePlan::UseProvisioned
                } else {
                    match f.system_python {
                        None => EnsurePlan::Probe(EnsureProbe::SystemPython),
                        Some(None) => EnsurePlan::NoPython,
                        Some(Some(v)) => if !supported(v) {
                            EnsurePlan::TooOld(v)
                        } else {
                            match f.venv_module {
                                None => EnsurePlan::Probe(EnsureProbe::VenvModule),
                                Some(false) => EnsurePlan::NoVenvModule,
                                Some(true) => match f.pip_module {
                                    None => EnsurePlan::Probe(EnsureProbe::PipModule),
                                    Some(false) => EnsurePlan::NoPip,
                                    Some(true) => EnsurePlan::CreateVenv,
                                },
                            }
                        },
                    }
                },
            },
        },
    }
}

/// One step of provisioning a working Python environment: what to find out
/// next, which environment to use, or why it cannot be had.
pub fn ensure_step(f: &EnsureFacts) -> (step: EnsureStep)
    ensures
        match ensure_plan(*f) {
            EnsurePlan::Probe(p) => step == EnsureStep::Probe(p),
            EnsurePlan::UseMicromamba => step is UseMicromamba,
            EnsurePlan::UseVenv => step is UseVenv,
            EnsurePlan::UseProvisioned => step is UseProvisioned,
            EnsurePlan::CreateVenv => step is CreateVenv,
            EnsurePlan::NoPython => step matches EnsureStep::Fail(e) && e@ == PYTHON_NOT_FOUND@,
            EnsurePlan::TooOld(v) => step matches EnsureStep::Fail(e) && e@ == too_old_text(v),
            EnsurePlan::NoVenvModule => step matches EnsureStep::Fail(e) && e@ == VENV_MODULE_MISSING@,
            EnsurePlan::NoPip => step matches EnsureStep::Fail(e) && e@ == PIP_MODULE_MISSING@,
        },
{
    match f.micromamba_runs {
        None => return EnsureStep::Probe(EnsureProbe::MicromambaRuns),
        Some(true) => return EnsureStep::UseMicromamba,
        Some(false) => {},
    }
    match f.venv_runs {
        None => return EnsureStep::Probe(EnsureProbe::VenvRuns),
        Some(true) => return EnsureStep::UseVenv,
        Some(false) => {},
    }
    let bundled = match f.bundled_micromamba {
        None => return EnsureStep::Probe(EnsureProbe::BundledMicromamba),
        Some(b) => b,
    };
    if bundled {
        match f.provisioned {
            None => return EnsureStep::Probe(EnsureProbe::Provision),
            Some(true) => return EnsureStep::UseProvisioned,
            Some(false) => {},
        }
    }
    let v = match f.system_python {
        None => return EnsureStep::Probe(EnsureProbe::SystemPython),
        Some(None) => return EnsureStep::Fail(text_of(PYTHON_NOT_FOUND)),
        Some(Some(v)) => v,
    };
    if !version_supported(&v) {
        return EnsureStep::Fail(too_old_message(&v));
    }
    match f.venv_module {
        None => return EnsureStep::Probe(EnsureProbe::VenvModule),
        Some(false) => return EnsureStep::Fail(text_of(VENV_MODULE_MISSING)),
        Some(true) => {},
    }
    match f.pip_module {
        None => EnsureStep::Probe(EnsureProbe::PipModule),
        Some(false) => EnsureStep::Fail(text_of(PIP_MODULE_MISSING)),
        Some(true) => EnsureStep::CreateVenv,
    }
}

fn text_of(t: &str) -> (s: String)
    ensures
        s@ == t@,
{
    let mut s = String::new();
    push_str(&mut s, t);
    s
}

/// Whether a line of micromamba's output marks progress worth showing.
pub open spec fn is_progress_line(t: Seq<char>) -> bool {
    ||| contains_seq(t, "Downloading"@)
    ||| contains_seq(t, "Linking"@)
    ||| contains_seq(t, "Preparing"@)
    ||| contains_seq(t, "Verifying"@)
    ||| contains_seq(t, "Transaction"@)
}

/// A line of micromamba's output marks progress exactly when it mentions a
/// download, a link, a preparation, a verification or a transaction: each
/// of these words alone makes it progress, and without all of them it is not.
pub proof fn law_progress_words(t: Seq<char>)
    ensures
        contains_seq(t, "Downloading"@) ==> is_progress_line(t),
        contains_seq(t, "Linking"@) ==> is_progress_line(t),
        contains_seq(t, "Preparing"@) ==> is_progress_line(t),
        contains_seq(t, "Verifying"@) ==> is_progress_line(t),
        contains_seq(t, "Transaction"@) ==> is_progress_line(t),
        !contains_seq(t, "Downloading"@) && !contains_seq(t, "Linking"@) && !contains_seq(t, "Preparing"@)
            && !contains_seq(t, "Verifying"@) && !contains_seq(t, "Transaction"@) ==> !is_progress_line(t),
{
}

proof fn lemma_trim_start_keeps(s: Seq<char>, w: Seq<char>)
    requires
        w.len() > 0,
        !is_ws(w[0]),
        contains_seq(s, w),
    ensures
        contains_seq(trim_start_ws(s), w),
    decreases s.len(),
{
    if s.len() > 0 && is_ws(s[0]) {
        let i = choose|i: int| occurs_at(s, w, i);
        assert(s.subrange(i, i + w.len())[0] == s[i]);
        assert(i != 0);
        assert(s.drop_first().subrange(i - 1, i - 1 + w.len()) =~= s.subrange(i, i + w.len()));
        assert(occurs_at(s.drop_first(), w, i - 1));
        lemma_trim_start_keeps(s.drop_first(), w);
    }
}

proof fn lemma_trim_end_keeps(s: Seq<char>, w: Seq<char>)
    requires
        w.len() > 0,
        !is_ws(w.last()),
        contains_seq(s, w),
    ensures
        contains_seq(trim_end_ws(s), w),
    decreases s.len(),
{
    if s.len() > 0 && is_ws(s.last()) {
        let i = choose|i: int| occurs_at(s, w, i);
        assert(s.subrange(i, i + w.len())[w.len() - 1] == s[i + w.len() - 1]);
        assert(i + w.len() != s.len());
        assert(s.drop_last().subrange(i, i + w.len()) =~= s.subrange(i, i + w.len()));
        assert(occurs_at(s.drop_last(), w, i));
        lemma_trim_end_keeps(s.drop_last(), w);
    }
}

/// Trimming whitespace keeps every word that neither starts nor ends with
/// whitespace.
proof fn lemma_trim_keeps(s: Seq<char>, w: Seq<char>)
    requires
        w.len() > 0,
        !is_ws(w[0]),
        !is_ws(w.last()),
        contains_seq(s, w),
    ensures
        contains_seq(trim_ws(s), w),
{
    lemma_trim_start_keeps(s, w);
    lemma_trim_end_keeps(trim_start_ws(s), w);
}

/// An output line that mentions a download, a link, a preparation, a
/// verification or a transaction is progress, whatever whitespace surrounds
/// it: [`provision_output_line`] returns it to be shown.
pub proof fn law_progress_lines_shown(line: Seq<char>)
    ensures
        contains_seq(line, "Downloading"@) ==> is_progress_line(trim_ws(line)),
        contains_seq(line, "Linking"@) ==> is_progress_line(trim_ws(line)),
        contains_seq(line, "Preparing"@) ==> is_progress_line(trim_ws(line)),
        contains_seq(line, "Verifying"@) ==> is_progress_line(trim_ws(line)),
        contains_seq(line, "Transaction"@) ==> is_progress_line(trim_ws(line)),
{
    reveal_strlit("Downloading");
    reveal_strlit("Linking");
    reveal_strlit("Preparing");
    reveal_strlit("Verifying");
    reveal_strlit("Transaction");
    if contains_seq(line, "Downloading"@) {
        lemma_trim_keeps(line, "Downloading"@);
    }
    if contains_seq(line, "Linking"@) {
        lemma_trim_keeps(line, "Linking"@);
    }
    if contains_seq(line, "Preparing"@) {
        lemma_trim_keeps(line, "Preparing"@);
    }
    if contains_seq(line, "Verifying"@) {
        lemma_trim_keeps(line, "Verifying"@);
    }
    if contains_seq(line, "Transaction"@) {
        lemma_trim_keeps(line, "Transaction"@);
    }
}

/// Takes in one line of micromamba's output. A blank line changes nothing. A
/// other line, trimmed, becomes the last line seen, and is returned when it
/// marks progress, to be shown.
pub fn provision_output_line(last: &mut String, line: &str) -> (shown: Option<String>)
    ensures
        trim_ws(line@).len() == 0 ==> final(last)@ == old(last)@ && shown is None,
        trim_ws(line@).len() > 0 ==> {
            &&& final(last)@ == trim_ws(line@)
            &&& (shown is Some <==> is_progress_line(trim_ws(line@)))
            &&& (shown matches Some(t) ==> t@ == trim_ws(line@))
        },
{
    let v = chars_of(line);
    let (lo, hi) = trim_bounds(&v);
    if lo == hi {
        return None;
    }
    let t = string_of_range(&v, lo, hi);
    let progress = str_contains(t.as_str(), "Downloading") || str_contains(t.as_str(), "Linking")
        || str_contains(t.as_str(), "Preparing") || str_contains(t.as_str(), "Verifying")
        || str_contains(t.as_str(), "Transaction");
    let shown = if progress {
        Some(string_of_range(&v, lo, hi))
    } else {
        None
    };
    *last = t;
    shown
}

/// The error when micromamba fails, naming the last line it printed.
pub fn environment_failure(last: &str) -> (s: String)
    ensures
        last@.len() == 0 ==> s@ == "Environment creation failed"@,
        last@.len() > 0 ==> s@ == "Environment creation failed: "@ + last@,
{
    let mut s = String::new();
    push_str(&mut s, "Environment creation failed");
    let v = chars_of(last);
    if v.len() > 0 {
        push_str(&mut s, ": ");
        push_str(&mut s, last);
        proof {
            assert(("Environment creation failed"@ + ": "@) + last@ == "Environment creation failed: "@ + last@) by {
                reveal_strlit("Environment creation failed");
                reveal_strlit(": ");
                reveal_strlit("Environment creation failed: ");
            }
        }
    }
    s
}

/// The notice when provisioning with micromamba failed and the system Python
/// is tried instead.
pub fn micromamba_fallback_notice(error: &str) -> (s: String)
    ensures
        s@ == "Micromamba provisioning unavailable ("@ + error@ + "); trying system Python\u{2026}"@,
{
    let mut s = String::new();
    push_str(&mut s, "Micromamba provisioning unavailable (");
    push_str(&mut s, error);
    push_str(&mut s, "); trying system Python\u{2026}");
    s
}

/// How many trailing characters of a failed command's error output are kept.
pub const FAILURE_TAIL_CHARS: usize = 2000;

/// The last `FAILURE_TAIL_CHARS` characters of `s` (all of it when shorter).
pub open spec fn tail(s: Seq<char>) -> Seq<char> {
    if s.len() <= FAILURE_TAIL_CHARS {
        s
    } else {
        s.skip(s.len() - FAILURE_TAIL_CHARS)
    }
}

/// The error of a failed command: the tail of what it wrote to stderr, or a
/// fixed note when that tail is blank.
pub fn command_failure(stderr: &str) -> (s: String)
    ensures
        trim_ws(tail(stderr@)).len() == 0 ==> s@ == "Command failed with no output"@,
        trim_ws(tail(stderr@)).len() > 0 ==> s@ == tail(stderr@),
{
    let v = chars_of(stderr);
    let n = v.len();
    let start = if n <= FAILURE_TAIL_CHARS {
        0
    } else {
        n - FAILURE_TAIL_CHARS
    };
    let t = string_of_range(&v, start, n);
    proof {
        if n <= FAILURE_TAIL_CHARS {
            assert(v@.subrange(0, n as int) == v@);
        }
    }
    let w = chars_of(t.as_str());
    let (lo, hi) = trim_bounds(&w);
    if lo == hi {
        let mut s = String::new();
        push_str(&mut s, "Command failed with no output");
        s
    } else {
        t
    }
}

} // verus!
