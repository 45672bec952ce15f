//! The CAD assistant's conversation logic: keeping the history within the
//! context budget, and the texts that report tool results back to the model.

use vstd::prelude::*;

use crate::json::{read_text, text_at};
use crate::llm::{opt_text, AccumulatedToolCall, ChatResult};
use crate::text::{
    char_count, chars_of, decimal, has_line, is_blank, lines, lines_of, push_decimal, push_range, push_str,
    str_eq, texts, trim_bounds, trim_ws,
};

verus! {

/// Fewest characters of history the context budget may be set to.
pub const CONTEXT_BUDGET_MIN: usize = 4_000;

/// Most characters of history the context budget may be set to.
pub const CONTEXT_BUDGET_MAX: usize = 200_000;

/// Most model round trips in one reply.
pub const MAX_ITERATIONS: usize = 20;

/// What the user sends with a chat message.
pub struct ChatInput {
    pub message: String,
    pub source: String,
    pub url: String,
    pub model: String,
    pub context_budget: usize,
}

/// The context budget in force: the requested one, clamped to
/// `CONTEXT_BUDGET_MIN..=CONTEXT_BUDGET_MAX`.
pub fn clamp_budget(budget: usize) -> (b: usize)
    ensures
        b == if budget < CONTEXT_BUDGET_MIN {
            CONTEXT_BUDGET_MIN
        } else if budget > CONTEXT_BUDGET_MAX {
            CONTEXT_BUDGET_MAX
        } else {
            budget
        },
{
    if budget < CONTEXT_BUDGET_MIN {
        CONTEXT_BUDGET_MIN
    } else if budget > CONTEXT_BUDGET_MAX {
        CONTEXT_BUDGET_MAX
    } else {
        budget
    }
}

// ----------------------------------------------------------------------------
// History trimming
// ----------------------------------------------------------------------------

/// A message of the conversation history, with what trimming reads of it: its
/// role and the length of its encoded form.
pub struct HistoryEntry<T> {
    pub role: Option<String>,
    pub size: usize,
    pub message: T,
}

/// Whether an entry is a user message.
pub open spec fn is_user<T>(e: HistoryEntry<T>) -> bool {
    opt_text(e.role) == Some("user"@)
}

/// Total encoded length of the history.
pub open spec fn total_size<T>(h: Seq<HistoryEntry<T>>) -> nat
    decreases h.len(),
{
    if h.len() == 0 {
        0
    } else {
        total_size(h.drop_last()) + h.last().size as nat
    }
}

/// The index of the first user message at or after `i` (`h.len()` if none).
pub open spec fn user_from<T>(h: Seq<HistoryEntry<T>>, i: int) -> int
    decreases h.len() - i,
{
    if i >= h.len() {
        h.len() as int
    } else if i >= 0 && is_user(h[i]) {
        i
    } else {
        user_from(h, i + 1)
    }
}

/// The history without its oldest complete user turn (the first user message
/// and everything up to the next user message), if there is a later user
/// message to end that turn.
pub open spec fn drop_first_turn<T>(h: Seq<HistoryEntry<T>>) -> Option<Seq<HistoryEntry<T>>> {
    let first = user_from(h, 0);
    let next = user_from(h, first + 1);
    if first >= h.len() || next >= h.len() {
        None
    } else {
        Some(h.subrange(0, first) + h.subrange(next, h.len() as int))
    }
}

/// The history after dropping its oldest turn `k` times (as long as a turn
/// can be dropped).
pub open spec fn drop_turns<T>(h: Seq<HistoryEntry<T>>, k: nat) -> Seq<HistoryEntry<T>>
    decreases k,
{
    if k == 0 {
        h
    } else {
        match drop_first_turn(drop_turns(h, (k - 1) as nat)) {
            Some(x) => x,
            None => drop_turns(h, (k - 1) as nat),
        }
    }
}

proof fn lemma_total_size_take<T>(h: Seq<HistoryEntry<T>>, i: int, j: int)
    requires
        0 <= i <= j <= h.len(),
    ensures
        total_size(h.take(i)) <= total_size(h.take(j)),
    decreases j - i,
{
    if i < j {
        assert(h.take(j).drop_last() == h.take(j - 1));
        lemma_total_size_take(h, i, j - 1);
    }
}

/// Whether the history's encoded length exceeds `budget`.
pub fn exceeds_budget<T>(history: &Vec<HistoryEntry<T>>, budget: usize) -> (b: bool)
    ensures
        b == (total_size(history@) > budget),
{
    let mut total: u128 = 0;
    let mut i: usize = 0;
    while i < history.len()
        invariant
            i <= history@.len(),
            total == total_size(history@.take(i as int)),
            total <= budget,
        decreases history@.len() - i,
    {
        proof {
            assert(history@.take(i + 1).drop_last() == history@.take(i as int));
        }
        total = total + history[i].size as u128;
        if total > budget as u128 {
            proof {
                lemma_total_size_take(history@, i + 1, history@.len() as int);
                assert(history@.take(history@.len() as int) == history@);
            }
            return true;
        }
        i = i + 1;
    }
    proof {
        assert(history@.take(history@.len() as int) == history@);
    }
    false
}

/// The index of the first user message at or after `from`, if any.
pub fn find_user<T>(history: &Vec<HistoryEntry<T>>, from: usize) -> (r: Option<usize>)
    ensures
        r matches Some(i) ==> i as int == user_from(history@, from as int) && i < history@.len(),
        r is None ==> user_from(history@, from as int) >= history@.len(),
{
    let mut i = from;
    while i < history.len()
        invariant
            from <= i,
            user_from(history@, from as int) == user_from(history@, i as int),
        decreases history@.len() - i,
    {
        let user = match &history[i].role {
            Some(r) => str_eq(r.as_str(), "user"),
            None => false,
        };
        proof {
            assert(user == is_user(history@[i as int]));
        }
        if user {
            return Some(i);
        }
        i = i + 1;
    }
    None
}

/// Drops the oldest complete user turns (a user message plus everything after
/// it until the next user message) until the history fits the budget. The
/// messages before the first user message (the system prompt) and the most
/// recent turn are always kept. Returns how many turns were dropped.
pub fn trim_history<T>(history: &mut Vec<HistoryEntry<T>>, budget: usize) -> (dropped: usize)
    ensures
        final(history)@ == drop_turns(old(history)@, dropped as nat),
        forall|j: nat| j < dropped ==> #[trigger] drop_first_turn(drop_turns(old(history)@, j)) is Some
            && total_size(drop_turns(old(history)@, j)) > budget,
        total_size(final(history)@) <= budget || drop_first_turn(final(history)@) is None,
        dropped <= old(history)@.len(),
{
    let ghost h0 = history@;
    let len0 = history.len();
    let mut dropped: usize = 0;
    loop
        invariant
            h0.len() == len0,
            history@ == drop_turns(h0, dropped as nat),
            dropped + history@.len() <= h0.len(),
            forall|j: nat| j < dropped ==> #[trigger] drop_first_turn(drop_turns(h0, j)) is Some
                && total_size(drop_turns(h0, j)) > budget,
        ensures
            dropped <= h0.len(),
            history@ == drop_turns(h0, dropped as nat),
            forall|j: nat| j < dropped ==> #[trigger] drop_first_turn(drop_turns(h0, j)) is Some
                && total_size(drop_turns(h0, j)) > budget,
            total_size(history@) <= budget || drop_first_turn(history@) is None,
        decreases history@.len(),
    {
        if !exceeds_budget(history, budget) {
            break;
        }
        let first = match find_user(history, 0) {
            Some(i) => i,
            None => {
                break;
            },
        };
        let len = history.len();
        let next = match find_user(history, first + 1) {
            Some(j) => j,
            None => {
                break;
            },
        };
        let ghost before = history@;
        proof {
            assert(first < next) by {
                lemma_user_from_bounds(before, first + 1);
            }
        }
        let mut k: usize = 0;
        while k < next - first
            invariant
                first < next <= before.len(),
                k <= next - first,
                history@ == before.subrange(0, first as int) + before.subrange(first + k, before.len() as int),
            decreases next - first - k,
        {
            history.remove(first);
            proof {
                assert(history@ =~= before.subrange(0, first as int) + before.subrange(first + k + 1, before.len() as int));
            }
            k = k + 1;
        }
        proof {
            assert(drop_first_turn(before) == Some(history@));
            assert(drop_turns(h0, (dropped + 1) as nat) == history@);
        }
        dropped = dropped + 1;
    }
    dropped
}

proof fn lemma_user_from_bounds<T>(h: Seq<HistoryEntry<T>>, i: int)
    requires
        0 <= i,
    ensures
        i <= user_from(h, i) || (i >= h.len() && user_from(h, i) == h.len()),
    decreases h.len() - i,
{
    if i < h.len() && !is_user(h[i]) {
        lemma_user_from_bounds(h, i + 1);
    }
}

proof fn lemma_user_from_facts<T>(h: Seq<HistoryEntry<T>>, i: int)
    requires
        0 <= i,
    ensures
        user_from(h, i) >= i || i > h.len(),
        user_from(h, i) <= h.len() || i > h.len(),
        forall|j: int| i <= j < user_from(h, i) && j < h.len() ==> !is_user(#[trigger] h[j]),
        user_from(h, i) < h.len() ==> is_user(h[user_from(h, i)]),
    decreases h.len() - i,
{
    if i < h.len() && !is_user(h[i]) {
        lemma_user_from_facts(h, i + 1);
    }
}

/// The index of the last user message before position `i` (-1 if none).
pub open spec fn last_user_before<T>(h: Seq<HistoryEntry<T>>, i: int) -> int
    decreases i,
{
    if i <= 0 {
        -1
    } else if is_user(h[i - 1]) {
        i - 1
    } else {
        last_user_before(h, i - 1)
    }
}

/// The most recent turn of the history: its last user message and all that
/// follows it (empty when there is no user message).
pub open spec fn latest_turn<T>(h: Seq<HistoryEntry<T>>) -> Seq<HistoryEntry<T>> {
    let l = last_user_before(h, h.len() as int);
    if l < 0 {
        Seq::empty()
    } else {
        h.skip(l)
    }
}

/// The messages before the first user message (the system prompt).
pub open spec fn preamble<T>(h: Seq<HistoryEntry<T>>) -> Seq<HistoryEntry<T>> {
    h.take(user_from(h, 0))
}

/// Whether `s` ends `h`.
pub open spec fn ends_history<T>(h: Seq<HistoryEntry<T>>, s: Seq<HistoryEntry<T>>) -> bool {
    s.len() <= h.len() && h.skip(h.len() - s.len()) == s
}

proof fn lemma_last_user_facts<T>(h: Seq<HistoryEntry<T>>, i: int)
    requires
        0 <= i <= h.len(),
    ensures
        -1 <= last_user_before(h, i) < i,
        last_user_before(h, i) >= 0 ==> is_user(h[last_user_before(h, i)]),
        forall|j: int| last_user_before(h, i) < j < i ==> !is_user(#[trigger] h[j]),
    decreases i,
{
    if i > 0 && !is_user(h[i - 1]) {
        lemma_last_user_facts(h, i - 1);
    }
}

/// Dropping one turn keeps the preamble, and keeps as the history's end any
/// stretch that starts with a user message and holds no other.
proof fn lemma_drop_first_turn_keeps<T>(h: Seq<HistoryEntry<T>>, s: Seq<HistoryEntry<T>>)
    requires
        drop_first_turn(h) is Some,
        ends_history(h, s),
        s.len() > 0 ==> is_user(s[0]),
        forall|j: int| 0 < j < s.len() ==> !is_user(#[trigger] s[j]),
    ensures
        preamble(drop_first_turn(h).unwrap()) == preamble(h),
        ends_history(drop_first_turn(h).unwrap(), s),
{
    let first = user_from(h, 0);
    let next = user_from(h, first + 1);
    let g = drop_first_turn(h).unwrap();
    lemma_user_from_facts(h, 0);
    lemma_user_from_facts(h, first + 1);
    lemma_user_from_facts(g, 0);
    assert(g == h.subrange(0, first) + h.subrange(next, h.len() as int));
    // The first user message of `g` is where the dropped turn was.
    assert(g[first] == h[next]);
    if user_from(g, 0) < first {
        assert(g[user_from(g, 0)] == h[user_from(g, 0)]);
    }
    assert(user_from(g, 0) == first);
    assert(preamble(g) == preamble(h));
    // The kept stretch starts at a user message at or after `next`.
    let p = h.len() - s.len();
    if s.len() > 0 {
        assert(h[p] == s[0]);
        if p < next {
            if p > first {
                assert(!is_user(h[p]));
            } else if p == first {
                assert(h[next] == s[next - p]);
            } else {
                assert(!is_user(h[p]));
            }
        }
        assert(p >= next);
    }
    assert(g.skip(g.len() - s.len()) == h.skip(p));
}

/// Trimming never touches the messages before the first user message: the
/// system prompt survives any number of dropped turns.
pub proof fn law_trim_keeps_system_prompt<T>(h: Seq<HistoryEntry<T>>, k: nat)
    ensures
        preamble(drop_turns(h, k)) == preamble(h),
    decreases k,
{
    if k > 0 {
        law_trim_keeps_system_prompt(h, (k - 1) as nat);
        let g = drop_turns(h, (k - 1) as nat);
        if drop_first_turn(g) is Some {
            let e = Seq::<HistoryEntry<T>>::empty();
            assert(g.skip(g.len() as int) == e);
            lemma_drop_first_turn_keeps(g, e);
        }
    }
}

/// Trimming always keeps the most recent turn: it stays the end of the
/// history, however many turns are dropped.
pub proof fn law_trim_keeps_latest_turn<T>(h: Seq<HistoryEntry<T>>, k: nat)
    ensures
        ends_history(drop_turns(h, k), latest_turn(h)),
    decreases k,
{
    let s = latest_turn(h);
    let l = last_user_before(h, h.len() as int);
    lemma_last_user_facts(h, h.len() as int);
    if l >= 0 {
        assert(s[0] == h[l]);
        assert forall|j: int| 0 < j < s.len() implies !is_user(#[trigger] s[j]) by {
            assert(s[j] == h[l + j]);
        }
    }
    if k == 0 {
        assert(h.skip(h.len() - s.len()) == s);
    } else {
        law_trim_keeps_latest_turn(h, (k - 1) as nat);
        let g = drop_turns(h, (k - 1) as nat);
        if drop_first_turn(g) is Some {
            lemma_drop_first_turn_keeps(g, s);
        }
    }
}

/// The number of user messages in the history.
pub open spec fn user_count<T>(h: Seq<HistoryEntry<T>>) -> nat
    decreases h.len(),
{
    if h.len() == 0 {
        0
    } else {
        user_count(h.drop_last()) + if is_user(h.last()) {
            1nat
        } else {
            0nat
        }
    }
}

proof fn lemma_user_count_concat<T>(a: Seq<HistoryEntry<T>>, b: Seq<HistoryEntry<T>>)
    ensures
        user_count(a + b) == user_count(a) + user_count(b),
    decreases b.len(),
{
    if b.len() > 0 {
        assert((a + b).drop_last() == a + b.drop_last());
        lemma_user_count_concat(a, b.drop_last());
    } else {
        assert(a + b == a);
    }
}

proof fn lemma_user_count_zero<T>(h: Seq<HistoryEntry<T>>)
    requires
        forall|j: int| 0 <= j < h.len() ==> !is_user(#[trigger] h[j]),
    ensures
        user_count(h) == 0,
    decreases h.len(),
{
    if h.len() > 0 {
        lemma_user_count_zero(h.drop_last());
    }
}

/// Dropping a turn removes exactly one user message.
proof fn lemma_drop_first_turn_count<T>(h: Seq<HistoryEntry<T>>)
    requires
        drop_first_turn(h) is Some,
    ensures
        user_count(drop_first_turn(h).unwrap()) + 1 == user_count(h),
{
    let first = user_from(h, 0);
    let next = user_from(h, first + 1);
    lemma_user_from_facts(h, 0);
    lemma_user_from_facts(h, first + 1);
    let a = h.subrange(0, first);
    let t = h.subrange(first + 1, next);
    let c = h.subrange(next, h.len() as int);
    lemma_user_count_zero(a);
    lemma_user_count_zero(t);
    assert(h == a + (seq![h[first]] + t) + c);
    lemma_user_count_concat(seq![h[first]], t);
    let one = seq![h[first]];
    assert(one.drop_last() == Seq::<HistoryEntry<T>>::empty());
    assert(user_count(one.drop_last()) == 0);
    assert(one.last() == h[first]);
    assert(user_count(one) == 1);
    lemma_user_count_concat(a, seq![h[first]] + t);
    lemma_user_count_concat(a + (seq![h[first]] + t), c);
    lemma_user_count_concat(a, c);
}

/// Each dropped turn takes exactly one user message with it: after `k`
/// drops, the history holds `k` fewer user messages.
pub proof fn law_trim_drops_one_user_message_per_turn<T>(h: Seq<HistoryEntry<T>>, k: nat)
    requires
        forall|j: nat| j < k ==> #[trigger] drop_first_turn(drop_turns(h, j)) is Some,
    ensures
        user_count(drop_turns(h, k)) + k == user_count(h),
    decreases k,
{
    if k > 0 {
        law_trim_drops_one_user_message_per_turn(h, (k - 1) as nat);
        assert(drop_first_turn(drop_turns(h, (k - 1) as nat)) is Some);
        lemma_drop_first_turn_count(drop_turns(h, (k - 1) as nat));
    }
}

// ----------------------------------------------------------------------------
// Restoring a stored conversation
// ----------------------------------------------------------------------------

/// Whether an entry is a system message.
pub open spec fn is_system<T>(e: HistoryEntry<T>) -> bool {
    opt_text(e.role) == Some("system"@)
}

/// A stored conversation without its system messages.
pub open spec fn without_system<T>(h: Seq<HistoryEntry<T>>) -> Seq<HistoryEntry<T>> {
    h.filter(|e: HistoryEntry<T>| !is_system(e))
}

/// The stored conversation of a project, to follow a fresh system prompt:
/// every message but the stored system messages, in order.
pub fn restore_history<T>(stored: Vec<HistoryEntry<T>>) -> (kept: Vec<HistoryEntry<T>>)
    ensures
        kept@ == without_system(stored@),
{
    let ghost h = stored@;
    let n = stored.len();
    let mut rest = stored;
    let mut reversed: Vec<HistoryEntry<T>> = Vec::new();
    while rest.len() > 0
        invariant
            rest@.len() + reversed@.len() == n,
            n == h.len(),
            rest@ == h.take(rest@.len() as int),
            forall|k: int| 0 <= k < reversed@.len() ==> #[trigger] reversed@[k] == h[n - 1 - k],
        decreases rest@.len(),
    {
        let e = rest.pop().unwrap();
        reversed.push(e);
    }
    let mut kept: Vec<HistoryEntry<T>> = Vec::new();
    let mut i: usize = 0;
    while reversed.len() > 0
        invariant
            reversed@.len() + i == n,
            n == h.len(),
            forall|k: int| 0 <= k < reversed@.len() ==> #[trigger] reversed@[k] == h[n - 1 - k],
            kept@ == without_system(h.take(i as int)),
        decreases reversed@.len(),
    {
        let e = reversed.pop().unwrap();
        proof {
            assert(e == h[i as int]);
            assert(h.take(i + 1).drop_last() == h.take(i as int));
            reveal(Seq::filter);
        }
        let system = match &e.role {
            Some(r) => str_eq(r.as_str(), "system"),
            None => false,
        };
        if !system {
            kept.push(e);
        }
        i = i + 1;
    }
    proof {
        assert(h.take(n as int) == h);
    }
    kept
}

// ----------------------------------------------------------------------------
// Texts reported to the model
// ----------------------------------------------------------------------------

/// What a truncated text ends with.
pub const TRUNCATION_MARK: &'static str = "\n\u{2026}[truncated]";

/// `s` cut to at most `max` characters, marked when cut.
pub open spec fn truncated(s: Seq<char>, max: usize) -> Seq<char> {
    if s.len() <= max {
        s
    } else {
        s.take(max as int) + TRUNCATION_MARK@
    }
}

/// Cuts `text` to at most `max` characters, marking the cut.
pub fn truncate(text: &str, max: usize) -> (s: String)
    ensures
        s@ == truncated(text@, max),
{
    let v = chars_of(text);
    let mut s = String::new();
    if v.len() <= max {
        push_range(&mut s, &v, 0, v.len());
        proof {
            assert(v@.subrange(0, v@.len() as int) == v@);
        }
    } else {
        push_range(&mut s, &v, 0, max);
        push_str(&mut s, TRUNCATION_MARK);
        proof {
            assert(v@.subrange(0, max as int) == v@.take(max as int));
        }
    }
    s
}

/// The lines of `xs` whose text is not among `ys`, in order.
pub open spec fn missing_from(xs: Seq<Seq<char>>, ys: Seq<Seq<char>>) -> Seq<Seq<char>>
    decreases xs.len(),
{
    if xs.len() == 0 {
        seq![]
    } else {
        missing_from(xs.drop_last(), ys) + if ys.contains(xs.last()) {
            seq![]
        } else {
            seq![xs.last()]
        }
    }
}

/// Each line on a row of its own after `prefix`.
pub open spec fn bullets(ls: Seq<Seq<char>>, prefix: Seq<char>) -> Seq<char>
    decreases ls.len(),
{
    if ls.len() == 0 {
        seq![]
    } else {
        bullets(ls.drop_last(), prefix) + prefix + ls.last() + "\n"@
    }
}

/// A section of the change report: a heading with the number of lines, then
/// the lines; nothing when there are no lines.
pub open spec fn change_section(verb: Seq<char>, ls: Seq<Seq<char>>, prefix: Seq<char>) -> Seq<char> {
    if ls.len() == 0 {
        seq![]
    } else {
        verb + " "@ + decimal(ls.len()) + " line(s):\n"@ + bullets(ls, prefix)
    }
}

/// The report of how a script changed: its removed lines, then its added
/// lines, compared as sets of lines.
pub open spec fn change_report(old: Seq<char>, new: Seq<char>) -> Seq<char> {
    if old == new {
        "No changes"@
    } else {
        let ol = lines(old);
        let nl = lines(new);
        let out = change_section("Removed"@, missing_from(ol, nl), "  - "@) + change_section(
            "Added"@,
            missing_from(nl, ol),
            "  + "@,
        );
        if out.len() == 0 {
            "Lines were rearranged but nothing added or removed."@
        } else {
            out
        }
    }
}

/// The lines of `xs` not among `ys` are those that the filter keeps.
proof fn lemma_missing_is_filter(xs: Seq<Seq<char>>, ys: Seq<Seq<char>>)
    ensures
        missing_from(xs, ys) == xs.filter(|l: Seq<char>| !ys.contains(l)),
    decreases xs.len(),
{
    reveal(Seq::filter);
    if xs.len() > 0 {
        lemma_missing_is_filter(xs.drop_last(), ys);
        let prev = missing_from(xs.drop_last(), ys);
        if ys.contains(xs.last()) {
            assert(missing_from(xs, ys) =~= prev);
        } else {
            assert(missing_from(xs, ys) =~= prev.push(xs.last()));
        }
    }
}

/// The report of an edit that changed the script lists under "Removed" every
/// line of the old script that the new script lacks, and under "Added" every
/// line of the new script that the old one lacks, each in order and each
/// section headed by the number of lines it lists; when neither has a line,
/// the report says the lines were only rearranged.
pub proof fn law_change_report_lines(old: Seq<char>, new: Seq<char>)
    requires
        old != new,
    ensures
        ({
            let ol = lines(old);
            let nl = lines(new);
            let removed = ol.filter(|l: Seq<char>| !nl.contains(l));
            let added = nl.filter(|l: Seq<char>| !ol.contains(l));
            &&& forall|l: Seq<char>| #[trigger] removed.contains(l) <==> ol.contains(l) && !nl.contains(l)
            &&& forall|l: Seq<char>| #[trigger] added.contains(l) <==> nl.contains(l) && !ol.contains(l)
            &&& change_report(old, new) == if removed.len() == 0 && added.len() == 0 {
                "Lines were rearranged but nothing added or removed."@
            } else {
                change_section("Removed"@, removed, "  - "@) + change_section("Added"@, added, "  + "@)
            }
        }),
{
    let ol = lines(old);
    let nl = lines(new);
    let pr = |l: Seq<char>| !nl.contains(l);
    let pa = |l: Seq<char>| !ol.contains(l);
    let removed = ol.filter(pr);
    let added = nl.filter(pa);
    lemma_missing_is_filter(ol, nl);
    lemma_missing_is_filter(nl, ol);
    assert forall|l: Seq<char>| #[trigger] removed.contains(l) <==> ol.contains(l) && !nl.contains(l) by {
        if removed.contains(l) {
            let k = choose|k: int| 0 <= k < removed.len() && removed[k] == l;
            ol.lemma_filter_pred(pr, k);
            ol.lemma_filter_contains_rev(pr, l);
        }
        if ol.contains(l) && !nl.contains(l) {
            let k = choose|k: int| 0 <= k < ol.len() && ol[k] == l;
            ol.lemma_filter_contains(pr, k);
        }
    }
    assert forall|l: Seq<char>| #[trigger] added.contains(l) <==> nl.contains(l) && !ol.contains(l) by {
        if added.contains(l) {
            let k = choose|k: int| 0 <= k < added.len() && added[k] == l;
            nl.lemma_filter_pred(pa, k);
            nl.lemma_filter_contains_rev(pa, l);
        }
        if nl.contains(l) && !ol.contains(l) {
            let k = choose|k: int| 0 <= k < nl.len() && nl[k] == l;
            nl.lemma_filter_contains(pa, k);
        }
    }
    reveal_strlit("Removed");
    reveal_strlit("Added");
    let out = change_section("Removed"@, removed, "  - "@) + change_section("Added"@, added, "  + "@);
    if removed.len() > 0 {
        assert(change_section("Removed"@, removed, "  - "@).len() > 0);
    }
    if added.len() > 0 {
        assert(change_section("Added"@, added, "  + "@).len() > 0);
    }
}

/// The lines of `xs` that `ys` lacks, in order.
fn lines_missing_from(xs: &Vec<Vec<char>>, ys: &Vec<Vec<char>>) -> (r: Vec<Vec<char>>)
    ensures
        texts(r@) == missing_from(texts(xs@), texts(ys@)),
{
    let mut r: Vec<Vec<char>> = Vec::new();
    let mut i: usize = 0;
    while i < xs.len()
        invariant
            i <= xs@.len(),
            texts(r@) == missing_from(texts(xs@.take(i as int)), texts(ys@)),
        decreases xs@.len() - i,
    {
        proof {
            assert(texts(xs@.take(i + 1)).drop_last() == texts(xs@.take(i as int)));
            assert(texts(xs@.take(i + 1)).last() == xs@[i as int]@);
        }
        if !has_line(ys, &xs[i]) {
            let mut copy: Vec<char> = Vec::new();
            let mut q: usize = 0;
            while q < xs[i].len()
                invariant
                    i < xs@.len(),
                    q <= xs@[i as int]@.len(),
                    copy@ == xs@[i as int]@.take(q as int),
                decreases xs@[i as int]@.len() - q,
            {
                copy.push(xs[i][q]);
                proof {
                    assert(xs@[i as int]@.take(q + 1) == xs@[i as int]@.take(q as int).push(xs@[i as int]@[q as int]));
                }
                q = q + 1;
            }
            proof {
                assert(xs@[i as int]@.take(xs@[i as int]@.len() as int) == xs@[i as int]@);
            }
            let ghost before = r@;
            r.push(copy);
            proof {
                assert(texts(r@) == texts(before).push(copy@));
            }
        }
        i = i + 1;
    }
    proof {
        assert(xs@.take(xs@.len() as int) == xs@);
    }
    r
}

/// Appends a section of the change report.
fn push_section(out: &mut String, verb: &str, ls: &Vec<Vec<char>>, prefix: &str)
    ensures
        final(out)@ == old(out)@ + change_section(verb@, texts(ls@), prefix@),
{
    if ls.len() == 0 {
        return;
    }
    push_str(out, verb);
    push_str(out, " ");
    push_decimal(out, ls.len() as u64);
    push_str(out, " line(s):\n");
    let ghost head = out@;
    let mut i: usize = 0;
    while i < ls.len()
        invariant
            i <= ls@.len(),
            out@ == head + bullets(texts(ls@.take(i as int)), prefix@),
        decreases ls@.len() - i,
    {
        proof {
            assert(texts(ls@.take(i + 1)).drop_last() == texts(ls@.take(i as int)));
            assert(texts(ls@.take(i + 1)).last() == ls@[i as int]@);
        }
        push_str(out, prefix);
        push_range(out, &ls[i], 0, ls[i].len());
        proof {
            assert(ls@[i as int]@.subrange(0, ls@[i as int]@.len() as int) == ls@[i as int]@);
        }
        push_str(out, "\n");
        i = i + 1;
    }
    proof {
        assert(ls@.take(ls@.len() as int) == ls@);
    }
}

/// Reports how an edit changed the script, so the model knows exactly what its
/// edit did.
pub fn code_changes(old: &str, new: &str) -> (s: String)
    ensures
        s@ == change_report(old@, new@),
{
    if str_eq(old, new) {
        return "No changes".to_owned();
    }
    let old_lines = lines_of(&chars_of(old));
    let new_lines = lines_of(&chars_of(new));
    let added = lines_missing_from(&new_lines, &old_lines);
    let removed = lines_missing_from(&old_lines, &new_lines);
    let mut out = String::new();
    push_section(&mut out, "Removed", &removed, "  - ");
    push_section(&mut out, "Added", &added, "  + ");
    if char_count(out.as_str()) == 0 {
        return "Lines were rearranged but nothing added or removed.".to_owned();
    }
    out
}

/// The tools the assistant offers the model.
#[derive(Clone, Copy, PartialEq, Eq, Debug, Structural)]
pub enum ToolKind {
    EditCode,
    RunScript,
    GetDocs,
    Unknown,
}

/// The tool a call names.
pub fn tool_kind(name: &str) -> (k: ToolKind)
    ensures
        k == if name@ == "edit_code"@ {
            ToolKind::EditCode
        } else if name@ == "run_script"@ {
            ToolKind::RunScript
        } else if name@ == "get_docs"@ {
            ToolKind::GetDocs
        } else {
            ToolKind::Unknown
        },
{
    if str_eq(name, "edit_code") {
        ToolKind::EditCode
    } else if str_eq(name, "run_script") {
        ToolKind::RunScript
    } else if str_eq(name, "get_docs") {
        ToolKind::GetDocs
    } else {
        ToolKind::Unknown
    }
}

/// The most characters of a script error reported to the model.
pub const ERROR_REPORT_CHARS: usize = 1500;

/// The most characters of script output reported to the model.
pub const STDOUT_REPORT_CHARS: usize = 800;

/// What the model is told after an edit: the new script's length and how it
/// changed.
pub fn edit_outcome(code: &str, changes: &str) -> (s: String)
    ensures
        s@ == "Code updated ("@ + decimal(code@.len()) + " characters).\n"@ + changes@,
{
    let mut s = String::new();
    push_str(&mut s, "Code updated (");
    push_decimal(&mut s, char_count(code) as u64);
    push_str(&mut s, " characters).\n");
    push_str(&mut s, changes);
    s
}

/// What the model is told after a run: how many objects were shown, the
/// error if there was one, and the output unless it is blank, each cut to
/// its limit.
pub fn run_outcome(object_count: usize, error: Option<&str>, stdout: &str) -> (s: String)
    ensures
        s@ == "Script executed. Shown objects: "@ + decimal(object_count as nat) + "."@ + match error {
            Some(e) => "\nError:\n"@ + truncated(e@, ERROR_REPORT_CHARS),
            None => Seq::empty(),
        } + if trim_ws(stdout@).len() > 0 {
            "\nStdout:\n"@ + truncated(stdout@, STDOUT_REPORT_CHARS)
        } else {
            Seq::empty()
        },
{
    let mut s = String::new();
    push_str(&mut s, "Script executed. Shown objects: ");
    push_decimal(&mut s, object_count as u64);
    push_str(&mut s, ".");
    match error {
        Some(e) => {
            push_str(&mut s, "\nError:\n");
            let t = truncate(e, ERROR_REPORT_CHARS);
            push_str(&mut s, t.as_str());
        },
        None => {},
    }
    let v = chars_of(stdout);
    let (lo, hi) = trim_bounds(&v);
    if hi > lo {
        push_str(&mut s, "\nStdout:\n");
        let t = truncate(stdout, STDOUT_REPORT_CHARS);
        push_str(&mut s, t.as_str());
    }
    s
}

/// What the model is told after reading documentation.
pub fn docs_outcome(symbol: &str, docstring: &str) -> (s: String)
    ensures
        s@ == "Documentation for "@ + symbol@ + ":\n"@ + docstring@,
{
    let mut s = String::new();
    push_str(&mut s, "Documentation for ");
    push_str(&mut s, symbol);
    push_str(&mut s, ":\n");
    push_str(&mut s, docstring);
    s
}

/// The error for a call of a tool that does not exist.
pub fn unknown_tool(name: &str) -> (s: String)
    ensures
        s@ == "Unknown tool: "@ + name@,
{
    let mut s = String::new();
    push_str(&mut s, "Unknown tool: ");
    push_str(&mut s, name);
    s
}

/// The text fed back to the model for a tool call: the outcome, or the error
/// marked as such.
pub fn tool_result_text(outcome: Result<String, String>) -> (s: String)
    ensures
        s@ == match outcome {
            Ok(t) => t@,
            Err(e) => "Tool error: "@ + e@,
        },
{
    match outcome {
        Ok(t) => t,
        Err(e) => {
            let mut s = String::new();
            push_str(&mut s, "Tool error: ");
            push_str(&mut s, e.as_str());
            s
        },
    }
}

/// The status label shown while documentation is read.
pub fn docs_label(symbol: &str) -> (s: String)
    ensures
        s@ == "Reading "@ + symbol@ + " docs"@,
{
    let mut s = String::new();
    push_str(&mut s, "Reading ");
    push_str(&mut s, symbol);
    push_str(&mut s, " docs");
    s
}

/// The system message that shows the model the current script, when there is
/// one (a blank script is not shown).
pub fn script_context(source: &str) -> (r: Option<String>)
    ensures
        r matches Some(s) ==> s@ == "Current CadQuery script (source of truth for edit_code and run_script):\n```python\n"@
            + source@ + "\n```"@,
        r is Some <==> trim_ws(source@).len() > 0,
{
    let v = chars_of(source);
    let (lo, hi) = trim_bounds(&v);
    if hi == lo {
        return None;
    }
    let mut s = String::new();
    push_str(&mut s, "Current CadQuery script (source of truth for edit_code and run_script):\n```python\n");
    push_str(&mut s, source);
    push_str(&mut s, "\n```");
    Some(s)
}

/// The error when both the streaming and the plain request failed.
pub fn fallback_failure(stream_error: &str, error: &str) -> (s: String)
    ensures
        s@ == "Chat request failed (streaming also failed: "@ + stream_error@ + "): "@ + error@,
{
    let mut s = String::new();
    push_str(&mut s, "Chat request failed (streaming also failed: ");
    push_str(&mut s, stream_error);
    push_str(&mut s, "): ");
    push_str(&mut s, error);
    s
}

/// A tool call as the assistant turn records it: a missing id or name is
/// recorded as empty.
pub struct ToolCallRecord {
    pub id: String,
    pub name: String,
    pub arguments: String,
}

/// The assistant turn recorded in the history when the model called tools:
/// its text unless blank, and its tool calls.
pub struct AssistantTurn {
    pub content: Option<String>,
    pub calls: Vec<ToolCallRecord>,
}

/// The text of an optional string, empty when absent.
pub open spec fn text_or_empty(o: Option<String>) -> Seq<char> {
    match o {
        Some(s) => s@,
        None => Seq::empty(),
    }
}

/// `r` records the accumulated call `c`.
pub open spec fn records_call(r: ToolCallRecord, c: AccumulatedToolCall) -> bool {
    &&& r.id@ == text_or_empty(c.id)
    &&& r.name@ == text_or_empty(c.name)
    &&& r.arguments@ == c.arguments@
}

/// `turn` records the reply `result`: its text unless blank, and each of its
/// tool calls, in order.
pub open spec fn records_turn(result: ChatResult, turn: AssistantTurn) -> bool {
    &&& trim_ws(result.content@).len() == 0 ==> turn.content is None
    &&& trim_ws(result.content@).len() > 0 ==> (turn.content matches Some(c) && c@ == result.content@)
    &&& turn.calls@.len() == result.tool_calls@.len()
    &&& forall|i: int| 0 <= i < turn.calls@.len() ==> records_call(#[trigger] turn.calls@[i], result.tool_calls@[i])
}

fn text_or_default(o: &Option<String>) -> (s: String)
    ensures
        s@ == text_or_empty(*o),
{
    match o {
        Some(t) => t.clone(),
        None => String::new(),
    }
}

/// The assistant turn to record for a reply that called tools: the reply's
/// text when it is not blank, and each tool call, in order.
pub fn assistant_turn(result: &ChatResult) -> (turn: AssistantTurn)
    ensures
        records_turn(*result, turn),
{
    let content = if is_blank(result.content.as_str()) {
        None
    } else {
        Some(result.content.clone())
    };
    let mut calls: Vec<ToolCallRecord> = Vec::new();
    let mut i: usize = 0;
    while i < result.tool_calls.len()
        invariant
            i <= result.tool_calls@.len(),
            calls@.len() == i,
            forall|j: int| 0 <= j < i ==> records_call(#[trigger] calls@[j], result.tool_calls@[j]),
        decreases result.tool_calls@.len() - i,
    {
        let c = &result.tool_calls[i];
        calls.push(
            ToolCallRecord {
                id: text_or_default(&c.id),
                name: text_or_default(&c.name),
                arguments: c.arguments.clone(),
            },
        );
        i = i + 1;
    }
    AssistantTurn { content, calls }
}

/// The error when the model keeps calling tools past the iteration limit.
pub const ITERATION_LIMIT_ERROR: &'static str = "The agent exceeded the maximum number of tool iterations.";

/// The assistant's standing instructions.
pub const SYSTEM_PROMPT: &'static str = "You are the CAD assistant inside FoldQuery, a desktop app that builds 3D models with CadQuery and turns them into papercraft templates.

Your job is to help the user write and refine CadQuery scripts. Rules:
- The CURRENT CadQuery script is always provided to you in the conversation context (a system message that is updated before every reply). Read it there before deciding what to edit \u{2014} never assume what the code contains.
- The script must produce a solid and call `show_object(result)` to display it.
- Always run the script after editing it and fix errors until it succeeds.
- Prefer building shapes with `cq.Workplane(...)` chains.
- When you need API details (method names, parameters, behavior), use the get_docs tool with a symbol path like \"Workplane.box\" or \"Workplane\".
- OWN YOUR EDITS: when you edit the code, describe the result as your own work (\"I added the hole\", \"my edit changed X to Y\"). Never describe the effects of your own edit_code calls as pre-existing features or as if you found them already there. The diff in the edit_code result tells you exactly what you changed.
- Keep responses concise; explain only what matters.";

} // verus!

verus! {

// ----------------------------------------------------------------------------
// Tool requests
// ----------------------------------------------------------------------------

/// A member of a tool call's JSON arguments, read by the pointer `/key`: the
/// string member `key` of the arguments object (for a key without `/` or
/// `~`), empty when the arguments are no JSON or the member is missing or no
/// string.
pub open spec fn argument_text(arguments: Seq<char>, key: Seq<char>) -> Seq<char> {
    match text_at(arguments, "/"@ + key) {
        Some(t) => t,
        None => Seq::empty(),
    }
}

/// The string member `key` of a tool call's JSON arguments, or an empty string
/// when the arguments are no JSON or lack it.
pub fn argument_or_empty(arguments: &str, key: &str) -> (s: String)
    ensures
        s@ == argument_text(arguments@, key@),
{
    let mut pointer = String::new();
    push_str(&mut pointer, "/");
    push_str(&mut pointer, key);
    match read_text(arguments, pointer.as_str()) {
        Some(t) => t,
        None => String::new(),
    }
}

/// What a tool call asks for.
pub enum ToolRequest {
    /// Replace the script with this code.
    EditCode(String),
    /// Run the current script.
    RunScript,
    /// Read the documentation of this symbol.
    GetDocs(String),
    /// A tool that does not exist; the error to report.
    Unknown(String),
}

/// Reads what a recorded tool call asks for: its tool, by name, and the
/// argument that tool takes (`code` to edit, `symbol` to look up).
pub fn tool_request(call: &ToolCallRecord) -> (r: ToolRequest)
    ensures
        call.name@ == "edit_code"@ ==> (r matches ToolRequest::EditCode(code) && code@ == argument_text(call.arguments@, "code"@)),
        call.name@ == "run_script"@ ==> r is RunScript,
        call.name@ == "get_docs"@ ==> (r matches ToolRequest::GetDocs(symbol) && symbol@ == argument_text(call.arguments@, "symbol"@)),
        call.name@ != "edit_code"@ && call.name@ != "run_script"@ && call.name@ != "get_docs"@ ==> (r matches ToolRequest::Unknown(e) && e@ == "Unknown tool: "@ + call.name@),
{
    proof {
        reveal_strlit("edit_code");
        reveal_strlit("run_script");
        reveal_strlit("get_docs");
        assert("edit_code"@.len() == 9 && "run_script"@.len() == 10 && "get_docs"@.len() == 8);
    }
    match tool_kind(call.name.as_str()) {
        ToolKind::EditCode => ToolRequest::EditCode(argument_or_empty(call.arguments.as_str(), "code")),
        ToolKind::RunScript => ToolRequest::RunScript,
        ToolKind::GetDocs => ToolRequest::GetDocs(argument_or_empty(call.arguments.as_str(), "symbol")),
        ToolKind::Unknown => ToolRequest::Unknown(unknown_tool(call.name.as_str())),
    }
}

// ----------------------------------------------------------------------------
// The reply loop
// ----------------------------------------------------------------------------

/// Where a reply stands: how many model round trips it has made.
pub struct AgentLoop {
    pub rounds: usize,
}

impl AgentLoop {
    /// A reply that has not called the model yet.
    pub fn new() -> (l: Self)
        ensures
            l.rounds == 0,
    {
        AgentLoop { rounds: 0 }
    }
}

/// What happened since the last step of a reply.
pub enum AgentEvent {
    /// The user's message is in the history: the reply starts.
    Started,
    /// The model answered.
    Answered(ChatResult),
    /// The tools the model called have run and their results are in the
    /// history.
    ToolsRan,
}

/// What the reply does next.
pub enum AgentAction {
    /// Call the model (after trimming the history) with the history.
    CallModel,
    /// Record the model's text as the final answer, and stop.
    Finish(String),
    /// Record this assistant turn, then run its tool calls in order, each
    /// answered by one tool message.
    RunTools(AssistantTurn),
    /// Stop with this error.
    Fail(String),
}

/// One step of a reply: the model is called up to `MAX_ITERATIONS` times;
/// an answer without tool calls ends the reply, an answer with tool calls has
/// them run, and a reply still calling tools after the last round fails.
pub fn agent_step(state: AgentLoop, event: AgentEvent) -> (r: (AgentLoop, AgentAction))
    ensures
        match event {
            AgentEvent::Answered(result) => {
                &&& r.0.rounds == state.rounds
                &&& result.tool_calls@.len() == 0 ==> (r.1 matches AgentAction::Finish(c) && c@ == result.content@)
                &&& result.tool_calls@.len() > 0 ==> (r.1 matches AgentAction::RunTools(turn) && records_turn(result, turn))
            },
            _ => if state.rounds < MAX_ITERATIONS {
                r.0.rounds == state.rounds + 1 && r.1 is CallModel
            } else {
                r.0.rounds == state.rounds && (r.1 matches AgentAction::Fail(e) && e@ == ITERATION_LIMIT_ERROR@)
            },
        },
{
    match event {
        AgentEvent::Answered(result) => {
            if result.tool_calls.len() == 0 {
                (state, AgentAction::Finish(result.content))
            } else {
                let turn = assistant_turn(&result);
                (state, AgentAction::RunTools(turn))
            }
        },
        _ => {
            if state.rounds < MAX_ITERATIONS {
                (AgentLoop { rounds: state.rounds + 1 }, AgentAction::CallModel)
            } else {
                let mut e = String::new();
                push_str(&mut e, ITERATION_LIMIT_ERROR);
                (state, AgentAction::Fail(e))
            }
        },
    }
}

/// Trims a session's history to the budget and keeps count of the user
/// messages dropped so far: returns how many turns this trim dropped, and,
/// when it dropped any, the new running total to announce.
pub fn trim_session<T>(history: &mut Vec<HistoryEntry<T>>, budget: usize, dropped_so_far: usize) -> (r: (
    usize,
    Option<usize>,
))
    requires
        dropped_so_far + old(history)@.len() <= usize::MAX,
    ensures
        final(history)@ == drop_turns(old(history)@, r.0 as nat),
        forall|j: nat| j < r.0 ==> #[trigger] drop_first_turn(drop_turns(old(history)@, j)) is Some
            && total_size(drop_turns(old(history)@, j)) > budget,
        total_size(final(history)@) <= budget || drop_first_turn(final(history)@) is None,
        r.1 == if r.0 > 0 {
            Some((dropped_so_far + r.0) as usize)
        } else {
            None::<usize>
        },
{
    let dropped = trim_history(history, budget);
    if dropped > 0 {
        (dropped, Some(dropped_so_far + dropped))
    } else {
        (dropped, None)
    }
}

} // verus!
