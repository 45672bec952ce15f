//! Accumulating chat completions from an OpenAI-compatible provider.
//!
//! The transport (HTTP, server-sent events) stays with the caller, who hands
//! over each event's data as text, or a whole message as plain values. Tool
//! calls arrive in fragments keyed by position; the fragments of one call are
//! merged here.

use vstd::prelude::*;

use crate::json::{
    found_at, index_pointer, json_lookup, len_at, parse_error, read_found, read_len, read_text, read_u64,
    text_at, u64_at,
};
use crate::text::{chars_of, decimal, push_range, push_str, trim_bounds, trim_ws};

verus! {

/// A tool call assembled from streamed fragments.
pub struct AccumulatedToolCall {
    pub id: Option<String>,
    pub name: Option<String>,
    pub arguments: String,
}

/// The assistant's reply: its text and the tool calls it requested.
pub struct ChatResult {
    pub content: String,
    pub tool_calls: Vec<AccumulatedToolCall>,
}

/// One fragment of a tool call as the provider sends it: the slot it names,
/// and any of the call's id, function name and a piece of its arguments.
pub struct ToolCallChunk {
    pub index: Option<u64>,
    pub id: Option<String>,
    pub name: Option<String>,
    pub arguments: Option<String>,
}

/// A complete assistant message (non-streaming reply).
pub struct MessageChunk {
    pub content: Option<String>,
    pub tool_calls: Option<Vec<ToolCallChunk>>,
}

/// One streamed delta of the assistant's reply.
pub struct StreamDelta {
    pub content: Option<String>,
    pub reasoning: Option<String>,
    pub tool_calls: Option<Vec<ToolCallChunk>>,
}

// ----------------------------------------------------------------------------
// Model
// ----------------------------------------------------------------------------

/// The text of an optional string.
pub open spec fn opt_text(o: Option<String>) -> Option<Seq<char>> {
    match o {
        Some(s) => Some(s@),
        None => None,
    }
}

/// A tool call as text.
pub struct CallView {
    pub id: Option<Seq<char>>,
    pub name: Option<Seq<char>>,
    pub arguments: Seq<char>,
}

/// A tool-call fragment as text.
pub struct ChunkView {
    pub index: Option<u64>,
    pub id: Option<Seq<char>>,
    pub name: Option<Seq<char>>,
    pub arguments: Option<Seq<char>>,
}

impl View for AccumulatedToolCall {
    type V = CallView;

    open spec fn view(&self) -> CallView {
        CallView { id: opt_text(self.id), name: opt_text(self.name), arguments: self.arguments@ }
    }
}

impl View for ToolCallChunk {
    type V = ChunkView;

    open spec fn view(&self) -> ChunkView {
        ChunkView {
            index: self.index,
            id: opt_text(self.id),
            name: opt_text(self.name),
            arguments: opt_text(self.arguments),
        }
    }
}

/// The calls of a list, as text.
pub open spec fn calls_view(v: Seq<AccumulatedToolCall>) -> Seq<CallView> {
    v.map_values(|c: AccumulatedToolCall| c@)
}

/// The fragments of a list, as text.
pub open spec fn chunks_view(v: Seq<ToolCallChunk>) -> Seq<ChunkView> {
    v.map_values(|c: ToolCallChunk| c@)
}

/// A call with nothing known yet.
pub open spec fn empty_call() -> CallView {
    CallView { id: None, name: None, arguments: Seq::empty() }
}

/// A call after one more fragment: a given id or name replaces the old one,
/// a given piece of arguments is appended.
pub open spec fn merge_chunk(c: CallView, k: ChunkView) -> CallView {
    CallView {
        id: match k.id {
            Some(i) => Some(i),
            None => c.id,
        },
        name: match k.name {
            Some(n) => Some(n),
            None => c.name,
        },
        arguments: c.arguments + match k.arguments {
            Some(a) => a,
            None => Seq::empty(),
        },
    }
}

/// The calls after fragment `k` lands in `slot`: the list first grows with
/// empty calls up to the slot.
pub open spec fn apply_chunk(calls: Seq<CallView>, k: ChunkView, slot: int) -> Seq<CallView> {
    let padded = if slot < calls.len() {
        calls
    } else {
        calls + Seq::new((slot + 1 - calls.len()) as nat, |j: int| empty_call())
    };
    padded.update(slot, merge_chunk(padded[slot], k))
}

/// The slot a streamed fragment names (the first slot when it names none).
pub open spec fn named_slot(k: ChunkView) -> int {
    match k.index {
        Some(i) => (i as usize) as int,
        None => 0,
    }
}

/// Streamed fragments applied in order, each to the slot it names.
pub open spec fn apply_streamed(calls: Seq<CallView>, ks: Seq<ChunkView>) -> Seq<CallView>
    decreases ks.len(),
{
    if ks.len() == 0 {
        calls
    } else {
        apply_chunk(apply_streamed(calls, ks.drop_last()), ks.last(), named_slot(ks.last()))
    }
}

/// The fragments of a complete message applied in order, the `i`-th to slot
/// `i`.
pub open spec fn apply_positional(calls: Seq<CallView>, ks: Seq<ChunkView>) -> Seq<CallView>
    decreases ks.len(),
{
    if ks.len() == 0 {
        calls
    } else {
        apply_chunk(apply_positional(calls, ks.drop_last()), ks.last(), ks.len() - 1)
    }
}

/// Each fragment names the slot of its own position.
pub open spec fn slots_in_order(ks: Seq<ChunkView>) -> bool {
    forall|i: int| 0 <= i < ks.len() ==> named_slot(#[trigger] ks[i]) == i
}

/// A reply whose tool-call fragments arrive in order, each naming its own
/// slot, gathers the same calls streamed as delivered whole: the plain
/// request is a faithful fallback for the streaming one.
pub proof fn law_streamed_matches_whole(calls: Seq<CallView>, ks: Seq<ChunkView>)
    requires
        slots_in_order(ks),
    ensures
        apply_streamed(calls, ks) == apply_positional(calls, ks),
    decreases ks.len(),
{
    if ks.len() > 0 {
        let front = ks.drop_last();
        assert forall|i: int| 0 <= i < front.len() implies named_slot(#[trigger] front[i]) == i by {
            assert(front[i] == ks[i]);
        }
        law_streamed_matches_whole(calls, front);
        assert(named_slot(ks[ks.len() - 1]) == ks.len() - 1);
    }
}

// ----------------------------------------------------------------------------
// Code
// ----------------------------------------------------------------------------

impl Default for AccumulatedToolCall {
    fn default() -> (r: Self)
        ensures
            r@ == empty_call(),
    {
        AccumulatedToolCall { id: None, name: None, arguments: String::new() }
    }
}

impl Default for ChatResult {
    fn default() -> (r: Self)
        ensures
            r.content@ == Seq::<char>::empty(),
            r.tool_calls@ == Seq::<AccumulatedToolCall>::empty(),
    {
        ChatResult { content: String::new(), tool_calls: Vec::new() }
    }
}

/// Applies one tool-call fragment to the calls gathered so far, in the slot
/// `position` when given, else in the slot the fragment names.
pub fn apply_tool_call_chunk(calls: &mut Vec<AccumulatedToolCall>, chunk: &ToolCallChunk, position: Option<usize>)
    requires
        match position {
            Some(p) => p < usize::MAX,
            None => named_slot(chunk@) < usize::MAX,
        },
    ensures
        calls_view(final(calls)@) == apply_chunk(
            calls_view(old(calls)@),
            chunk@,
            match position {
                Some(p) => p as int,
                None => named_slot(chunk@),
            },
        ),
{
    let idx: usize = match position {
        Some(p) => p,
        None => match chunk.index {
            Some(i) => i as usize,
            None => 0,
        },
    };
    let ghost before = calls_view(calls@);
    let ghost padded = if idx < before.len() {
        before
    } else {
        before + Seq::new((idx + 1 - before.len()) as nat, |j: int| empty_call())
    };
    while calls.len() <= idx
        invariant
            idx < usize::MAX,
            before.len() <= calls@.len() <= if idx < before.len() { before.len() as int } else { idx + 1 },
            forall|j: int| 0 <= j < before.len() ==> (#[trigger] calls@[j])@ == before[j],
            forall|j: int| before.len() <= j < calls@.len() ==> (#[trigger] calls@[j])@ == empty_call(),
        decreases idx + 1 - calls@.len(),
    {
        calls.push(AccumulatedToolCall::default());
    }
    proof {
        assert(calls_view(calls@) =~= padded);
    }
    let slot = &mut calls[idx];
    match &chunk.id {
        Some(id) => {
            slot.id = Some(id.clone());
        },
        None => {},
    }
    match &chunk.name {
        Some(name) => {
            slot.name = Some(name.clone());
        },
        None => {},
    }
    match &chunk.arguments {
        Some(arguments) => {
            push_str(&mut slot.arguments, arguments.as_str());
        },
        None => {},
    }
    proof {
        assert(calls_view(calls@) =~= padded.update(idx as int, merge_chunk(padded[idx as int], chunk@)));
    }
}

/// Takes in a complete assistant message: its text is appended and its tool
/// calls fill the slots in order.
pub fn extract_message(result: &mut ChatResult, message: &MessageChunk)
    requires
        match message.tool_calls {
            Some(v) => v@.len() < usize::MAX,
            None => true,
        },
    ensures
        final(result).content@ == old(result).content@ + match opt_text(message.content) {
            Some(t) => t,
            None => Seq::empty(),
        },
        calls_view(final(result).tool_calls@) == match message.tool_calls {
            Some(v) => apply_positional(calls_view(old(result).tool_calls@), chunks_view(v@)),
            None => calls_view(old(result).tool_calls@),
        },
{
    match &message.content {
        Some(c) => push_str(&mut result.content, c.as_str()),
        None => {},
    }
    match &message.tool_calls {
        Some(calls) => {
            let ghost start = calls_view(result.tool_calls@);
            let ghost text = result.content@;
            let mut i: usize = 0;
            while i < calls.len()
                invariant
                    result.content@ == text,
                    calls@.len() < usize::MAX,
                    i <= calls@.len(),
                    calls_view(result.tool_calls@) == apply_positional(start, chunks_view(calls@.take(i as int))),
                decreases calls@.len() - i,
            {
                proof {
                    assert(chunks_view(calls@.take(i + 1)).drop_last() == chunks_view(calls@.take(i as int)));
                }
                apply_tool_call_chunk(&mut result.tool_calls, &calls[i], Some(i));
                i = i + 1;
            }
            proof {
                assert(calls@.take(calls@.len() as int) == calls@);
            }
        },
        None => {},
    }
}

/// Takes in one streamed delta: its text is appended and each tool-call
/// fragment is applied, in order, to the slot it names. The reasoning text is
/// only shown to the user and is not kept.
pub fn apply_stream_delta(result: &mut ChatResult, delta: &StreamDelta)
    requires
        match delta.tool_calls {
            Some(v) => forall|j: int| 0 <= j < v@.len() ==> named_slot((#[trigger] v@[j])@) < usize::MAX,
            None => true,
        },
    ensures
        final(result).content@ == old(result).content@ + match opt_text(delta.content) {
            Some(t) => t,
            None => Seq::empty(),
        },
        calls_view(final(result).tool_calls@) == match delta.tool_calls {
            Some(v) => apply_streamed(calls_view(old(result).tool_calls@), chunks_view(v@)),
            None => calls_view(old(result).tool_calls@),
        },
{
    match &delta.content {
        Some(c) => push_str(&mut result.content, c.as_str()),
        None => {},
    }
    match &delta.tool_calls {
        Some(calls) => {
            let ghost start = calls_view(result.tool_calls@);
            let ghost text = result.content@;
            let mut i: usize = 0;
            while i < calls.len()
                invariant
                    result.content@ == text,
                    forall|j: int| 0 <= j < calls@.len() ==> named_slot((#[trigger] calls@[j])@) < usize::MAX,
                    i <= calls@.len(),
                    calls_view(result.tool_calls@) == apply_streamed(start, chunks_view(calls@.take(i as int))),
                decreases calls@.len() - i,
            {
                proof {
                    assert(chunks_view(calls@.take(i + 1)).drop_last() == chunks_view(calls@.take(i as int)));
                    assert(named_slot(calls@[i as int]@) < usize::MAX);
                }
                apply_tool_call_chunk(&mut result.tool_calls, &calls[i], None);
                i = i + 1;
            }
            proof {
                assert(calls@.take(calls@.len() as int) == calls@);
            }
        },
        None => {},
    }
}

/// The stream's end marker.
pub const DONE_MARKER: &'static str = "[DONE]";

/// Whether a server-sent event's data is the end marker (surrounding
/// whitespace aside).
pub fn is_done_marker(data: &str) -> (b: bool)
    ensures
        b == (trim_ws(data@) == DONE_MARKER@),
{
    let v = chars_of(data);
    let (lo, hi) = trim_bounds(&v);
    let w = chars_of(DONE_MARKER);
    if hi - lo != w.len() {
        return false;
    }
    let mut k: usize = 0;
    while k < w.len()
        invariant
            v@ == data@,
            w@ == DONE_MARKER@,
            v@.subrange(lo as int, hi as int) == trim_ws(data@),
            lo <= hi <= v@.len(),
            hi - lo == w@.len(),
            k <= w@.len(),
            forall|q: int| 0 <= q < k ==> v@[lo + q] == w@[q],
        decreases w@.len() - k,
    {
        if v[lo + k] != w[k] {
            proof {
                assert(v@.subrange(lo as int, hi as int)[k as int] == v@[lo + k]);
            }
            return false;
        }
        k = k + 1;
    }
    proof {
        assert(v@.subrange(lo as int, hi as int) =~= w@);
    }
    true
}

/// The most of a failed request's body that an error message quotes.
pub const ERROR_BODY_CHARS: usize = 400;

/// The message for a chat request the provider answered with an error
/// status: the status, then at most the first 400 characters of the body.
pub fn request_failure_message(status: &str, body: &str) -> (s: String)
    ensures
        s@ == "Chat request failed ("@ + status@ + "): "@ + if body@.len() <= ERROR_BODY_CHARS {
            body@
        } else {
            body@.take(ERROR_BODY_CHARS as int)
        },
{
    let mut s = String::new();
    push_str(&mut s, "Chat request failed (");
    push_str(&mut s, status);
    push_str(&mut s, "): ");
    let v = chars_of(body);
    let n = if v.len() <= ERROR_BODY_CHARS {
        v.len()
    } else {
        ERROR_BODY_CHARS
    };
    push_range(&mut s, &v, 0, n);
    proof {
        assert(v@.subrange(0, v@.len() as int) == v@);
    }
    s
}

} // verus!

verus! {

// ----------------------------------------------------------------------------
// Server-sent events
// ----------------------------------------------------------------------------

/// A stream delta as text.
pub struct DeltaView {
    pub content: Option<Seq<char>>,
    pub reasoning: Option<Seq<char>>,
    pub tool_calls: Option<Seq<ChunkView>>,
}

/// The text of a stream delta.
pub open spec fn delta_view(d: StreamDelta) -> DeltaView {
    DeltaView {
        content: opt_text(d.content),
        reasoning: opt_text(d.reasoning),
        tool_calls: match d.tool_calls {
            Some(v) => Some(chunks_view(v@)),
            None => None,
        },
    }
}

/// The pointer of the first choice of a chunk, then `field`.
pub open spec fn first_choice(field: Seq<char>) -> Seq<char> {
    "/choices/0"@ + field
}

/// The tool-call fragment whose JSON object is at `base`: its `index`, `id`
/// and `function`'s `name` and `arguments`, each where it has the right type.
pub open spec fn chunk_at(text: Seq<char>, base: Seq<char>) -> ChunkView {
    ChunkView {
        index: u64_at(text, base + "/index"@),
        id: text_at(text, base + "/id"@),
        name: text_at(text, base + "/function/name"@),
        arguments: text_at(text, base + "/function/arguments"@),
    }
}

/// The `n` fragments of the array at `list`, in order.
pub open spec fn chunks_at(text: Seq<char>, list: Seq<char>, n: usize) -> Seq<ChunkView> {
    Seq::new(n as nat, |i: int| chunk_at(text, list + "/"@ + decimal(i as nat)))
}

/// The fragments of the array at `list`, when an array is there.
pub open spec fn calls_at(text: Seq<char>, list: Seq<char>) -> Option<Seq<ChunkView>> {
    match len_at(text, list) {
        Some(n) => Some(chunks_at(text, list, n)),
        None => None,
    }
}

/// The tool-call fragments read from a JSON array are one per element, in
/// order: as many as the array is long, the `i`-th read from element `i`;
/// where no array is, none are read.
pub proof fn law_calls_one_per_element(text: Seq<char>, list: Seq<char>)
    ensures
        calls_at(text, list) is Some <==> len_at(text, list) is Some,
        calls_at(text, list) matches Some(cs) ==> {
            &&& cs.len() == len_at(text, list)->0
            &&& forall|i: int| 0 <= i < cs.len() ==> #[trigger] cs[i] == chunk_at(text, list + "/"@ + decimal(i as nat))
        },
{
}

/// A whole reply, and a streamed delta, carry one tool-call fragment for each
/// element of their `tool_calls` array.
pub proof fn law_replies_keep_every_call(text: Seq<char>)
    ensures
        reply_message(text) matches Ok(Some(m)) ==> (m.tool_calls matches Some(cs) ==> cs.len() == len_at(
            text,
            "/choices/0/message/tool_calls"@,
        )->0),
        event_delta(text) matches Some(d) ==> (d.tool_calls matches Some(cs) ==> cs.len() == len_at(
            text,
            "/choices/0/delta/tool_calls"@,
        )->0),
{
    assert(first_choice("/message"@) + "/tool_calls"@ =~= "/choices/0/message/tool_calls"@) by {
        reveal_strlit("/choices/0");
        reveal_strlit("/message");
        reveal_strlit("/tool_calls");
        reveal_strlit("/choices/0/message/tool_calls");
    }
    assert(first_choice("/delta"@) + "/tool_calls"@ =~= "/choices/0/delta/tool_calls"@) by {
        reveal_strlit("/choices/0");
        reveal_strlit("/delta");
        reveal_strlit("/tool_calls");
        reveal_strlit("/choices/0/delta/tool_calls");
    }
}

/// Whether the chunk has a first choice with a `field`.
pub open spec fn has_first_choice(text: Seq<char>, field: Seq<char>) -> bool {
    &&& len_at(text, "/choices"@) matches Some(n) && n > 0
    &&& found_at(text, first_choice(field))
}

/// The delta that the data of a server-sent event carries: the `delta` of
/// the first choice of the JSON chunk, with its `content`,
/// `reasoning_content` and `tool_calls` where they have the right type.
/// `None` when the data is no JSON, or has no such delta (cost metadata,
/// usage-only and other non-standard chunks).
pub open spec fn event_delta(data: Seq<char>) -> Option<DeltaView> {
    let d = first_choice("/delta"@);
    if has_first_choice(data, "/delta"@) {
        Some(
            DeltaView {
                content: text_at(data, d + "/content"@),
                reasoning: text_at(data, d + "/reasoning_content"@),
                tool_calls: calls_at(data, d + "/tool_calls"@),
            },
        )
    } else {
        None
    }
}

/// Reads the tool-call fragment whose JSON object is at `base`.
fn read_chunk(text: &str, base: &str) -> (c: ToolCallChunk)
    ensures
        c@ == chunk_at(text@, base@),
{
    let p_index = concat(base, "/index");
    let p_id = concat(base, "/id");
    let p_name = concat(base, "/function/name");
    let p_args = concat(base, "/function/arguments");
    ToolCallChunk {
        index: read_u64(text, p_index.as_str()),
        id: read_text(text, p_id.as_str()),
        name: read_text(text, p_name.as_str()),
        arguments: read_text(text, p_args.as_str()),
    }
}

/// Reads the fragments of the array at `list`, when an array is there.
fn read_calls(text: &str, list: &str) -> (r: Option<Vec<ToolCallChunk>>)
    ensures
        match r {
            Some(v) => calls_at(text@, list@) == Some(chunks_view(v@)),
            None => calls_at(text@, list@) is None,
        },
{
    let n = match read_len(text, list) {
        Some(n) => n,
        None => return None,
    };
    let mut calls: Vec<ToolCallChunk> = Vec::new();
    let mut i: usize = 0;
    while i < n
        invariant
            i <= n,
            calls@.len() == i,
            forall|q: int| 0 <= q < i ==> (#[trigger] calls@[q])@ == chunk_at(text@, list@ + "/"@ + decimal(q as nat)),
        decreases n - i,
    {
        let base = index_pointer(list, i);
        calls.push(read_chunk(text, base.as_str()));
        i = i + 1;
    }
    proof {
        assert(chunks_view(calls@) =~= chunks_at(text@, list@, n));
    }
    Some(calls)
}

/// `a` followed by `b`.
fn concat(a: &str, b: &str) -> (s: String)
    ensures
        s@ == a@ + b@,
{
    let mut s = String::new();
    push_str(&mut s, a);
    push_str(&mut s, b);
    s
}

/// Whether the chunk has a first choice with a `field`.
fn read_first_choice(text: &str, field: &str) -> (b: bool)
    ensures
        b == has_first_choice(text@, field@),
{
    match read_len(text, "/choices") {
        Some(n) => {
            if n == 0 {
                return false;
            }
        },
        None => return false,
    }
    let p = concat("/choices/0", field);
    read_found(text, p.as_str())
}

/// Reads the delta that the data of a server-sent event carries.
pub fn stream_delta_of(data: &str) -> (r: Option<StreamDelta>)
    ensures
        match r {
            Some(d) => event_delta(data@) == Some(delta_view(d)),
            None => event_delta(data@) is None,
        },
{
    if !read_first_choice(data, "/delta") {
        return None;
    }
    let d = concat("/choices/0", "/delta");
    let p_content = concat(d.as_str(), "/content");
    let p_reasoning = concat(d.as_str(), "/reasoning_content");
    let p_calls = concat(d.as_str(), "/tool_calls");
    Some(
        StreamDelta {
            content: read_text(data, p_content.as_str()),
            reasoning: read_text(data, p_reasoning.as_str()),
            tool_calls: read_calls(data, p_calls.as_str()),
        },
    )
}

/// A whole reply message, as text.
pub struct MessageView {
    pub content: Option<Seq<char>>,
    pub tool_calls: Option<Seq<ChunkView>>,
}

/// A whole reply message as text.
pub open spec fn message_view(m: MessageChunk) -> MessageView {
    MessageView {
        content: opt_text(m.content),
        tool_calls: match m.tool_calls {
            Some(v) => Some(chunks_view(v@)),
            None => None,
        },
    }
}

/// The message of a whole (non-streamed) reply body: an error naming the
/// parse failure when the body is no JSON; else the `message` of the first
/// choice, with its `content` and `tool_calls` where they have the right
/// type, if there is one.
pub open spec fn reply_message(body: Seq<char>) -> Result<Option<MessageView>, Seq<char>> {
    let m = first_choice("/message"@);
    match json_lookup(body, Seq::empty()) {
        Err(e) => Err("Bad response: "@ + e),
        Ok(_) => Ok(
            if has_first_choice(body, "/message"@) {
                Some(
                    MessageView {
                        content: text_at(body, m + "/content"@),
                        tool_calls: calls_at(body, m + "/tool_calls"@),
                    },
                )
            } else {
                None
            },
        ),
    }
}

/// Reads the message of a whole reply body.
pub fn decode_reply(body: &str) -> (r: Result<Option<MessageChunk>, String>)
    ensures
        match r {
            Err(e) => reply_message(body@) == Err::<Option<MessageView>, Seq<char>>(e@),
            Ok(None) => reply_message(body@) == Ok::<Option<MessageView>, Seq<char>>(None),
            Ok(Some(m)) => reply_message(body@) == Ok::<Option<MessageView>, Seq<char>>(Some(message_view(m))),
        },
{
    match parse_error(body) {
        Some(e) => return Err(concat("Bad response: ", e.as_str())),
        None => {},
    }
    if !read_first_choice(body, "/message") {
        return Ok(None);
    }
    let m = concat("/choices/0", "/message");
    let p_content = concat(m.as_str(), "/content");
    let p_calls = concat(m.as_str(), "/tool_calls");
    Ok(Some(MessageChunk { content: read_text(body, p_content.as_str()), tool_calls: read_calls(body, p_calls.as_str()) }))
}

/// A fragment names a slot that a list can grow to.
pub open spec fn slot_fits(k: ChunkView) -> bool {
    named_slot(k) < usize::MAX
}

/// Every fragment of a delta names a slot that a list can grow to.
pub open spec fn slots_fit(d: DeltaView) -> bool {
    d.tool_calls is Some ==> forall|j: int| 0 <= j < d.tool_calls->0.len() ==> #[trigger] slot_fits(d.tool_calls->0[j])
}

/// Whether every fragment names a slot that a list can grow to.
fn slots_within(calls: &Vec<ToolCallChunk>) -> (b: bool)
    ensures
        b == forall|j: int| 0 <= j < calls@.len() ==> named_slot((#[trigger] calls@[j])@) < usize::MAX,
{
    let mut j: usize = 0;
    while j < calls.len()
        invariant
            j <= calls@.len(),
            forall|q: int| 0 <= q < j ==> named_slot((#[trigger] calls@[q])@) < usize::MAX,
        decreases calls@.len() - j,
    {
        let slot: usize = match calls[j].index {
            Some(i) => i as usize,
            None => 0,
        };
        if slot == usize::MAX {
            return false;
        }
        j = j + 1;
    }
    true
}

/// What became of a server-sent event.
pub enum EventOutcome {
    /// The end marker: the stream is over.
    Done,
    /// A delta that was taken into the reply; its text, if any, is returned
    /// for showing, as is its reasoning text.
    Applied { text: Option<String>, reasoning: Option<String> },
    /// Not a chat delta (metadata, usage, unknown chunk): skipped.
    Skipped,
    /// A delta naming a tool-call slot no list can grow to: not taken.
    SlotTooLarge,
}

/// The reply is unchanged.
pub open spec fn reply_unchanged(a: ChatResult, b: ChatResult) -> bool {
    a.content@ == b.content@ && calls_view(a.tool_calls@) == calls_view(b.tool_calls@)
}

/// Takes in the data of one server-sent event of a streamed reply: the end
/// marker (surrounding whitespace aside) ends the stream; a chat delta is
/// applied to the reply; anything else is skipped.
pub fn take_stream_event(result: &mut ChatResult, data: &str) -> (outcome: EventOutcome)
    ensures
        trim_ws(data@) == DONE_MARKER@ ==> outcome is Done && reply_unchanged(*old(result), *final(result)),
        trim_ws(data@) != DONE_MARKER@ ==> match event_delta(data@) {
            None => outcome is Skipped && reply_unchanged(*old(result), *final(result)),
            Some(d) => if slots_fit(d) {
                &&& outcome matches EventOutcome::Applied { text, reasoning }
                &&& opt_text(text) == d.content
                &&& opt_text(reasoning) == d.reasoning
                &&& final(result).content@ == old(result).content@ + match d.content {
                    Some(t) => t,
                    None => Seq::empty(),
                }
                &&& calls_view(final(result).tool_calls@) == match d.tool_calls {
                    Some(ks) => apply_streamed(calls_view(old(result).tool_calls@), ks),
                    None => calls_view(old(result).tool_calls@),
                }
            } else {
                outcome is SlotTooLarge && reply_unchanged(*old(result), *final(result))
            },
        },
{
    if is_done_marker(data) {
        return EventOutcome::Done;
    }
    let delta = match stream_delta_of(data) {
        Some(d) => d,
        None => return EventOutcome::Skipped,
    };
    let fit = match &delta.tool_calls {
        Some(calls) => slots_within(calls),
        None => true,
    };
    if !fit {
        proof {
            let calls = delta.tool_calls->0;
            let ks = chunks_view(calls@);
            assert(delta_view(delta).tool_calls == Some(ks));
            assert(ks.len() == calls@.len());
            let j = choose|j: int| 0 <= j < calls@.len() && !(named_slot((#[trigger] calls@[j])@) < usize::MAX);
            assert(ks[j] == calls@[j]@);
            assert(!slot_fits(ks[j]));
            assert(delta_view(delta).tool_calls->0[j] == ks[j]);
            assert(!slot_fits(delta_view(delta).tool_calls->0[j]));
            assert(!slots_fit(delta_view(delta)));
        }
        return EventOutcome::SlotTooLarge;
    }
    proof {
        if delta.tool_calls is Some {
            let calls = delta.tool_calls->0;
            assert forall|q: int| 0 <= q < chunks_view(calls@).len() implies #[trigger] slot_fits(chunks_view(calls@)[q]) by {
                assert(chunks_view(calls@)[q] == calls@[q]@);
            }
            assert forall|q: int| 0 <= q < calls@.len() implies named_slot((#[trigger] calls@[q])@) < usize::MAX by {
                assert(chunks_view(calls@)[q] == calls@[q]@);
            }
        }
    }
    apply_stream_delta(result, &delta);
    let text = match &delta.content {
        Some(t) => Some(t.clone()),
        None => None,
    };
    let reasoning = match &delta.reasoning {
        Some(t) => Some(t.clone()),
        None => None,
    };
    EventOutcome::Applied { text, reasoning }
}

} // verus!
