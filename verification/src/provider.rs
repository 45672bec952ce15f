//! The language-model provider the assistant talks to.

use vstd::prelude::*;

use crate::text::{
    chars_of, ends_with, is_ws, push_str, range_ends_with, skip_char_end, string_of_range, trim_bounds,
    trim_end_char, trim_end_ws, trim_start_ws, trim_ws,
};

verus! {

/// Provider settings entered by the user.
pub struct ProviderInput {
    pub url: String,
    pub model: String,
    pub key: String,
}

/// The endpoint suffix that providers often include in their documented URL.
pub const CHAT_COMPLETIONS: &'static str = "/chat/completions";

/// The API base a provider URL denotes: surrounding whitespace and trailing
/// slashes removed, then a trailing `/chat/completions` (and the slashes
/// before it) removed.
pub open spec fn api_base(raw: Seq<char>) -> Seq<char> {
    let t = trim_end_char(trim_ws(raw), '/');
    if ends_with(t, CHAT_COMPLETIONS@) {
        trim_end_char(t.take(t.len() - CHAT_COMPLETIONS@.len()), '/')
    } else {
        t
    }
}

/// Normalizes a provider base URL. Providers often document the full
/// endpoint (`.../v1/chat/completions`), while clients append
/// `/chat/completions` themselves, so both forms are accepted.
pub fn normalize_api_base(raw: &str) -> (s: String)
    ensures
        s@ == api_base(raw@),
{
    let v = chars_of(raw);
    let (lo, hi) = trim_bounds(&v);
    let hi = skip_char_end(&v, lo, hi, '/');
    let suffix = chars_of(CHAT_COMPLETIONS);
    if range_ends_with(&v, lo, hi, &suffix) {
        let end = skip_char_end(&v, lo, hi - suffix.len(), '/');
        proof {
            let t = v@.subrange(lo as int, hi as int);
            assert(t.take(t.len() - suffix@.len()) == v@.subrange(lo as int, hi - suffix@.len()));
        }
        string_of_range(&v, lo, end)
    } else {
        string_of_range(&v, lo, hi)
    }
}

proof fn lemma_trim_end_char_prefix(s: Seq<char>, c: char)
    ensures
        trim_end_char(s, c).len() <= s.len(),
        trim_end_char(s, c) == s.take(trim_end_char(s, c).len() as int),
        trim_end_char(s, c).len() == 0 || trim_end_char(s, c).last() != c,
    decreases s.len(),
{
    if s.len() > 0 && s.last() == c {
        lemma_trim_end_char_prefix(s.drop_last(), c);
        let r = trim_end_char(s.drop_last(), c);
        assert(s.drop_last().take(r.len() as int) == s.take(r.len() as int));
    } else {
        assert(s.take(s.len() as int) == s);
    }
}

proof fn lemma_trim_end_ws_prefix(s: Seq<char>)
    ensures
        trim_end_ws(s).len() <= s.len(),
        trim_end_ws(s) == s.take(trim_end_ws(s).len() as int),
    decreases s.len(),
{
    if s.len() > 0 && is_ws(s.last()) {
        lemma_trim_end_ws_prefix(s.drop_last());
        let r = trim_end_ws(s.drop_last());
        assert(s.drop_last().take(r.len() as int) == s.take(r.len() as int));
    } else {
        assert(s.take(s.len() as int) == s);
    }
}

proof fn lemma_trim_start_ws_first(s: Seq<char>)
    ensures
        trim_start_ws(s).len() == 0 || !is_ws(trim_start_ws(s)[0]),
    decreases s.len(),
{
    if s.len() > 0 && is_ws(s[0]) {
        lemma_trim_start_ws_first(s.drop_first());
    }
}

/// A normalized API base never starts with whitespace nor ends with a slash.
pub proof fn law_api_base_ends(raw: Seq<char>)
    ensures
        api_base(raw).len() == 0 || !is_ws(api_base(raw)[0]),
        api_base(raw).len() == 0 || api_base(raw).last() != '/',
{
    let t1 = trim_start_ws(raw);
    let t0 = trim_ws(raw);
    let t = trim_end_char(t0, '/');
    lemma_trim_start_ws_first(raw);
    lemma_trim_end_ws_prefix(t1);
    lemma_trim_end_char_prefix(t0, '/');
    if t.len() > 0 {
        assert(t[0] == t0[0]);
        assert(t0[0] == t1[0]);
    }
    if ends_with(t, CHAT_COMPLETIONS@) {
        let p = t.take(t.len() - CHAT_COMPLETIONS@.len());
        lemma_trim_end_char_prefix(p, '/');
        let b = trim_end_char(p, '/');
        if b.len() > 0 {
            assert(b[0] == p[0]);
            assert(p[0] == t[0]);
        }
    }
}

/// A provider may be given by its API base or by its full chat completions
/// endpoint: appending `/chat/completions` to a normalized base normalizes
/// back to that same base.
pub proof fn law_endpoint_form_accepted(raw: Seq<char>)
    ensures
        api_base(api_base(raw) + CHAT_COMPLETIONS@) == api_base(raw),
{
    let b = api_base(raw);
    let s = CHAT_COMPLETIONS@;
    let x = b + s;
    reveal_strlit("/chat/completions");
    law_api_base_ends(raw);
    assert(s[0] == '/');
    assert(x.len() > 0 && !is_ws(x[0])) by {
        if b.len() > 0 {
            assert(x[0] == b[0]);
        } else {
            assert(x[0] == s[0]);
        }
    }
    assert(trim_start_ws(x) == x);
    assert(x.last() == 's');
    assert(trim_end_ws(x) == x);
    assert(trim_ws(x) == x);
    assert(trim_end_char(x, '/') == x);
    assert(x.subrange(x.len() - s.len(), x.len() as int) == s);
    assert(ends_with(x, s));
    assert(x.take(x.len() - s.len()) == b);
    assert(trim_end_char(b, '/') == b);
}

/// A trimmed base URL and the same base with `/chat/completions` appended
/// normalize alike, to the base without its trailing slashes (when that base
/// does not itself end with `/chat/completions`).
pub proof fn law_base_and_endpoint_agree(b: Seq<char>)
    requires
        trim_ws(b) == b,
        !ends_with(trim_end_char(b, '/'), CHAT_COMPLETIONS@),
    ensures
        api_base(b + CHAT_COMPLETIONS@) == api_base(b),
        api_base(b) == trim_end_char(b, '/'),
{
    let s = CHAT_COMPLETIONS@;
    let x = b + s;
    reveal_strlit("/chat/completions");
    assert(s[0] == '/');
    // `b` starts with no whitespace.
    lemma_trim_start_ws_first(b);
    lemma_trim_end_ws_prefix(trim_start_ws(b));
    if b.len() > 0 {
        assert(b[0] == trim_start_ws(b)[0]);
    }
    assert(x.len() > 0 && !is_ws(x[0])) by {
        if b.len() > 0 {
            assert(x[0] == b[0]);
        } else {
            assert(x[0] == s[0]);
        }
    }
    assert(trim_start_ws(x) == x);
    assert(x.last() == 's');
    assert(trim_end_ws(x) == x);
    assert(trim_ws(x) == x);
    assert(trim_end_char(x, '/') == x);
    assert(x.subrange(x.len() - s.len(), x.len() as int) == s);
    assert(x.take(x.len() - s.len()) == b);
}

/// The chat completions endpoint of a provider.
pub fn chat_url(base_url: &str) -> (s: String)
    ensures
        s@ == api_base(base_url@) + CHAT_COMPLETIONS@,
{
    let mut s = normalize_api_base(base_url);
    push_str(&mut s, CHAT_COMPLETIONS);
    s
}

} // verus!
