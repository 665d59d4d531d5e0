//! Client side of the Draco observability server: MCP over HTTP.
//!
//! The client frames requests and reads replies. It does no networking: a call
//! is handed out as an `HttpPost`, and the body of the reply is handed back in.

use vstd::prelude::*;

use crate::json;
use crate::json::{Json, JsonView};
use crate::settings::EnvVars;
use crate::text;

verus! {

/// The tools of the server.
pub const DRACO_TOOLS: [&'static str; 1] = ["fetch_top_hotspots"];

/// The base url where the environment names none.
pub const DEFAULT_BASE_URL: &'static str = "http://127.0.0.1:9876/mcp";

/// The base url of the server: `DRACO_BASE_URL`, or the default one.
pub fn default_draco_url(env: &EnvVars) -> (url: String)
    ensures
        url@ == (match env.draco_base_url {
            Some(u) => u@,
            None => DEFAULT_BASE_URL@,
        }),
{
    match &env.draco_base_url {
        Some(u) => u.clone(),
        None => DEFAULT_BASE_URL.to_owned(),
    }
}

/// What can go wrong in a call.
#[derive(Debug, PartialEq, Eq)]
pub enum DracoError {
    /// The HTTP request failed.
    Ureq(String),
    /// The body of the reply could not be read.
    Io(String),
    /// There is no session yet.
    NotInitialized,
    /// The reply holds no text.
    EmptyResult,
}

impl DracoError {
    /// The message of the error.
    pub open spec fn message_spec(self) -> Seq<char> {
        match self {
            DracoError::Ureq(cause) => "ureq error: "@ + cause@,
            DracoError::Io(cause) => "io error: "@ + cause@,
            DracoError::NotInitialized => "not initialized: call initialize() first"@,
            DracoError::EmptyResult => "empty result from Draco"@,
        }
    }

    /// The message of the error.
    pub fn message(&self) -> (m: String)
        ensures
            m@ == self.message_spec(),
    {
        match self {
            DracoError::Ureq(cause) => "ureq error: ".to_owned().concat(cause),
            DracoError::Io(cause) => "io error: ".to_owned().concat(cause),
            DracoError::NotInitialized => "not initialized: call initialize() first".to_owned(),
            DracoError::EmptyResult => "empty result from Draco".to_owned(),
        }
    }
}

/// An HTTP POST request that is to be sent.
#[derive(Debug, PartialEq, Eq)]
pub struct HttpPost {
    pub url: String,
    pub content_type: String,
    pub accept: String,
    pub session_id: String,
    pub timeout_secs: u64,
    pub body: Json,
}

/// The value of an `initialize` request.
pub open spec fn initialize_view() -> JsonView {
    JsonView::Object(
        seq![
            ("jsonrpc"@, JsonView::Text("2.0"@)),
            ("id"@, JsonView::Number(text::decimal(1))),
            ("method"@, JsonView::Text("initialize"@)),
            (
                "params"@,
                JsonView::Object(
                    seq![
                        ("protocolVersion"@, JsonView::Text("2025-03-26"@)),
                        ("capabilities"@, JsonView::Object(seq![])),
                        (
                            "clientInfo"@,
                            JsonView::Object(
                                seq![
                                    ("name"@, JsonView::Text("graphify-plugin-telemetry"@)),
                                    ("version"@, JsonView::Text("0.1.0"@)),
                                ],
                            ),
                        ),
                    ],
                ),
            ),
        ],
    )
}

/// The value of a `tools/call` request.
pub open spec fn call_tool_view(id: nat, name: Seq<char>, args: JsonView) -> JsonView {
    JsonView::Object(
        seq![
            ("jsonrpc"@, JsonView::Text("2.0"@)),
            ("id"@, JsonView::Number(text::decimal(id))),
            ("method"@, JsonView::Text("tools/call"@)),
            (
                "params"@,
                JsonView::Object(seq![("name"@, JsonView::Text(name)), ("arguments"@, args)]),
            ),
        ],
    )
}

/// The arguments of `fetch_top_hotspots`.
pub open spec fn hotspots_args(workspace_key: Seq<char>, limit: Option<u64>) -> JsonView {
    let workspace = seq![("workspace_key"@, JsonView::Text(workspace_key))];
    JsonView::Object(
        match limit {
            Some(n) => workspace.push(("limit"@, JsonView::Number(text::decimal(n as nat)))),
            None => workspace,
        },
    )
}

/// How many characters stand before the first line feed of `s`.
pub open spec fn line_len(s: Seq<char>) -> nat
    decreases s.len(),
{
    if s.len() == 0 || s[0] == '\n' {
        0
    } else {
        1 + line_len(s.drop_first())
    }
}

/// `line` without a carriage return at its end.
pub open spec fn without_cr(line: Seq<char>) -> Seq<char> {
    if line.len() > 0 && line.last() == '\r' {
        line.drop_last()
    } else {
        line
    }
}

/// What follows `data: ` on the first line of `s` that starts so. A line ends
/// with a line feed, or a carriage return and a line feed; the last one may end
/// with the text.
pub open spec fn first_data(s: Seq<char>) -> Option<Seq<char>>
    decreases s.len(),
{
    if s.len() == 0 {
        None
    } else {
        let n = line_len(s) as int;
        let line = if n < s.len() {
            without_cr(s.take(n))
        } else {
            s
        };
        if "data: "@.is_prefix_of(line) {
            Some(line.skip("data: "@.len() as int))
        } else if n < s.len() {
            first_data(s.skip(n + 1))
        } else {
            None
        }
    }
}

/// The JSON part of a reply: the first data of an event stream, or all of it.
pub open spec fn reply_json(raw: Seq<char>) -> Seq<char> {
    match first_data(raw) {
        Some(data) => data,
        None => raw,
    }
}

/// The `text` strings of the items that have one.
pub open spec fn texts(items: Seq<JsonView>) -> Seq<Seq<char>>
    decreases items.len(),
{
    if items.len() == 0 {
        Seq::empty()
    } else {
        match json::field(items.last(), "text"@) {
            Some(JsonView::Text(t)) => texts(items.drop_last()).push(t),
            _ => texts(items.drop_last()),
        }
    }
}

/// The lines, with a line feed between each two.
pub open spec fn joined(lines: Seq<Seq<char>>) -> Seq<char>
    decreases lines.len(),
{
    if lines.len() == 0 {
        Seq::empty()
    } else if lines.len() == 1 {
        lines[0]
    } else {
        joined(lines.drop_last()).push('\n') + lines.last()
    }
}

/// The text of `result.content` in a reply; none where there is no text.
pub open spec fn content_view(reply: JsonView) -> Option<Seq<char>> {
    match json::field(reply, "result"@) {
        Some(result) => match json::field(result, "content"@) {
            Some(JsonView::Array(items)) => if texts(items).len() == 0 {
                None
            } else {
                Some(joined(texts(items)))
            },
            _ => None,
        },
        None => None,
    }
}

/// The text of a reply as it came in.
pub open spec fn result_content(raw: Seq<char>) -> Option<Seq<char>> {
    match json::parsed(reply_json(raw)) {
        Some(reply) => content_view(reply),
        None => None,
    }
}

/// The JSON part of a reply: the rest of the first line that starts with
/// `data: `, or the whole reply where no line does.
pub fn strip_event_stream(raw: &str) -> (r: &str)
    ensures
        r@ == reply_json(raw@),
{
    let chars: Vec<char> = text::chars_of(raw);
    let prefix: Vec<char> = text::chars_of("data: ");
    let n: usize = chars.len();
    let mut start: usize = 0;
    assert(raw@.skip(0) =~= raw@);
    while start < n
        invariant
            start <= n,
            n == chars.len(),
            chars@ == raw@,
            prefix@ == "data: "@,
            first_data(raw@) == first_data(raw@.skip(start as int)),
        decreases n - start,
    {
        let ghost rest = raw@.skip(start as int);
        let end: usize = line_end(&chars, start);
        let stop: usize = if end < n && end > start && chars[end - 1] == '\r' {
            end - 1
        } else {
            end
        };
        let ghost line = if end < n {
            without_cr(rest.take(end - start))
        } else {
            rest
        };
        assert(line =~= raw@.subrange(start as int, stop as int));
        if starts_at(&chars, start, stop, &prefix) {
            assert(line.skip(prefix@.len() as int) =~= raw@.subrange(
                start + prefix@.len(),
                stop as int,
            ));
            return raw.substring_char(start + prefix.len(), stop);
        }
        if end >= n {
            return raw;
        }
        assert(rest.skip(end - start + 1) =~= raw@.skip(end + 1));
        start = end + 1;
    }
    raw
}

/// Where the line that begins at `start` ends.
fn line_end(s: &Vec<char>, start: usize) -> (end: usize)
    requires
        start <= s.len(),
    ensures
        start <= end <= s.len(),
        end - start == line_len(s@.skip(start as int)),
{
    let mut end: usize = start;
    while end < s.len() && s[end] != '\n'
        invariant
            start <= end <= s.len(),
            line_len(s@.skip(start as int)) == end - start + line_len(s@.skip(end as int)),
        decreases s.len() - end,
    {
        assert(s@.skip(end as int).drop_first() =~= s@.skip(end + 1));
        end += 1;
    }
    end
}

/// Whether `prefix` begins the part of `s` from `start` to `stop`.
fn starts_at(s: &Vec<char>, start: usize, stop: usize, prefix: &Vec<char>) -> (r: bool)
    requires
        start <= stop <= s.len(),
    ensures
        r == prefix@.is_prefix_of(s@.subrange(start as int, stop as int)),
{
    let ghost part = s@.subrange(start as int, stop as int);
    if prefix.len() > stop - start {
        return false;
    }
    let mut i: usize = 0;
    while i < prefix.len()
        invariant
            i <= prefix.len() <= stop - start,
            start <= stop <= s.len(),
            part == s@.subrange(start as int, stop as int),
            forall|k: int| 0 <= k < i ==> #[trigger] prefix@[k] == part[k],
        decreases prefix.len() - i,
    {
        if prefix[i] != s[start + i] {
            assert(part.subrange(0, prefix@.len() as int)[i as int] != prefix@[i as int]);
            return false;
        }
        i += 1;
    }
    assert(prefix@ =~= part.subrange(0, prefix@.len() as int));
    true
}

/// The text of `result.content` in a reply.
pub fn content_text(reply: &Json) -> (r: Option<String>)
    ensures
        match r {
            Some(t) => content_view(reply@) == Some(t@),
            None => content_view(reply@) is None,
        },
{
    let result: &Json = match reply.get("result") {
        Some(v) => v,
        None => {
            return None;
        },
    };
    let content: &Json = match result.get("content") {
        Some(v) => v,
        None => {
            return None;
        },
    };
    let items: &Vec<Json> = match content.as_array() {
        Some(v) => v,
        None => {
            return None;
        },
    };
    let ghost all = json::item_views(items@);
    let mut found: bool = false;
    let mut out: String = String::new();
    let mut i: usize = 0;
    assert(all.take(0) =~= Seq::<JsonView>::empty());
    while i < items.len()
        invariant
            i <= items.len(),
            all == json::item_views(items@),
            found == (texts(all.take(i as int)).len() > 0),
            out@ == joined(texts(all.take(i as int))),
        decreases items.len() - i,
    {
        assert(all.take(i + 1).drop_last() =~= all.take(i as int));
        let ghost lines = texts(all.take(i as int));
        let item: &Json = &items[i];
        assert(all[i as int] == item@);
        match item.get("text") {
            Some(v) => match v.as_text() {
                Some(t) => {
                    assert(lines.push(t@).drop_last() =~= lines);
                    if found {
                        out.push('\n');
                    }
                    out.append(t);
                    assert(out@ =~= joined(lines.push(t@)));
                    found = true;
                },
                None => {},
            },
            None => {},
        }
        i += 1;
    }
    assert(all.take(i as int) =~= all);
    if found {
        Some(out)
    } else {
        None
    }
}

/// A client of the server.
#[derive(Debug)]
pub struct DracoMcpClient {
    base_url: String,
    /// The session that `initialize` opened.
    session_id: Option<String>,
}

impl Clone for DracoMcpClient {
    fn clone(&self) -> (copy: Self)
        ensures
            copy == *self,
    {
        let session_id: Option<String> = match &self.session_id {
            Some(s) => Some(s.clone()),
            None => None,
        };
        DracoMcpClient { base_url: self.base_url.clone(), session_id }
    }
}

impl DracoMcpClient {
    /// The url that calls go to.
    pub closed spec fn url(&self) -> Seq<char> {
        self.base_url@
    }

    /// The session, where there is one.
    pub closed spec fn session(&self) -> Option<Seq<char>> {
        match self.session_id {
            Some(s) => Some(s@),
            None => None,
        }
    }

    /// A client without a session.
    pub fn new(base_url: &str) -> (client: Self)
        ensures
            client.url() == base_url@,
            client.session() is None,
    {
        DracoMcpClient { base_url: base_url.to_owned(), session_id: None }
    }

    /// Whether there is a session.
    pub fn is_initialized(&self) -> (r: bool)
        ensures
            r == self.session() is Some,
    {
        self.session_id.is_some()
    }

    /// The body of an `initialize` request.
    pub fn initialize_request() -> (body: Json)
        ensures
            body@ == initialize_view(),
    {
        let mut info: Vec<(String, Json)> = Vec::new();
        json::push_member(&mut info, "name", Json::text("graphify-plugin-telemetry"));
        json::push_member(&mut info, "version", Json::text("0.1.0"));
        let mut params: Vec<(String, Json)> = Vec::new();
        json::push_member(&mut params, "protocolVersion", Json::text("2025-03-26"));
        json::push_member(&mut params, "capabilities", Json::object(Vec::new()));
        json::push_member(&mut params, "clientInfo", Json::object(info));
        let mut body: Vec<(String, Json)> = Vec::new();
        json::push_member(&mut body, "jsonrpc", Json::text("2.0"));
        json::push_member(&mut body, "id", Json::number(1));
        json::push_member(&mut body, "method", Json::text("initialize"));
        json::push_member(&mut body, "params", Json::object(params));
        proof {
            assert(initialize_view()->Object_0[3].1->Object_0[2].1->Object_0 =~= json::member_views(
                info@,
            ));
            assert(initialize_view()->Object_0[3].1->Object_0[1].1->Object_0 =~= json::member_views(
                Seq::empty(),
            ));
            assert(initialize_view()->Object_0[3].1->Object_0 =~= json::member_views(params@));
            assert(initialize_view()->Object_0 =~= json::member_views(body@));
        }
        Json::object(body)
    }

    /// The body of a `tools/call` request.
    pub fn call_tool_request(id: u64, name: &str, args: &Json) -> (body: Json)
        ensures
            body@ == call_tool_view(id as nat, name@, args@),
    {
        let mut params: Vec<(String, Json)> = Vec::new();
        json::push_member(&mut params, "name", Json::text(name));
        json::push_member(&mut params, "arguments", args.clone());
        let mut body: Vec<(String, Json)> = Vec::new();
        json::push_member(&mut body, "jsonrpc", Json::text("2.0"));
        json::push_member(&mut body, "id", Json::number(id));
        json::push_member(&mut body, "method", Json::text("tools/call"));
        json::push_member(&mut body, "params", Json::object(params));
        proof {
            let view = call_tool_view(id as nat, name@, args@);
            assert(view->Object_0[3].1->Object_0 =~= json::member_views(params@));
            assert(view->Object_0 =~= json::member_views(body@));
        }
        Json::object(body)
    }

    /// The text blocks of `result.content` in a reply, joined by line feeds.
    ///
    /// The reply is JSON, or an event stream with the JSON on a `data: ` line.
    /// `None` where it is neither, or holds no text block.
    pub fn extract_result_content(raw: &str) -> (r: Option<String>)
        ensures
            match r {
                Some(t) => result_content(raw@) == Some(t@),
                None => result_content(raw@) is None,
            },
    {
        match Json::from_text(strip_event_stream(raw)) {
            Some(reply) => content_text(&reply),
            None => None,
        }
    }

    /// The request of a `tools/call`. It needs a session.
    pub fn call_tool(&self, name: &str, args: &Json) -> (r: Result<HttpPost, DracoError>)
        ensures
            match r {
                Ok(post) => {
                    &&& self.session() is Some
                    &&& is_tool_post(post, self.url(), self.session()->0, name@, args@)
                },
                Err(e) => self.session() is None && e == DracoError::NotInitialized,
            },
    {
        match &self.session_id {
            Some(session) => Ok(tool_post(&self.base_url, session, name, args)),
            None => Err(DracoError::NotInitialized),
        }
    }

    /// The request for the top hotspots of a workspace, at most `limit` of them.
    pub fn fetch_top_hotspots(&self, workspace_key: &str, limit: Option<u64>) -> (r: Result<
        HttpPost,
        DracoError,
    >)
        ensures
            match r {
                Ok(post) => {
                    &&& self.session() is Some
                    &&& is_tool_post(
                        post,
                        self.url(),
                        self.session()->0,
                        "fetch_top_hotspots"@,
                        hotspots_args(workspace_key@, limit),
                    )
                },
                Err(e) => self.session() is None && e == DracoError::NotInitialized,
            },
    {
        let mut args: Vec<(String, Json)> = Vec::new();
        json::push_member(&mut args, "workspace_key", Json::text(workspace_key));
        match limit {
            Some(n) => {
                json::push_member(&mut args, "limit", Json::number(n));
            },
            None => {},
        }
        assert(hotspots_args(workspace_key@, limit)->Object_0 =~= json::member_views(args@));
        self.call_tool(DRACO_TOOLS[0], &Json::object(args))
    }

    /// The text of the reply to a `tools/call`.
    pub fn call_tool_reply(raw: &str) -> (r: Result<String, DracoError>)
        ensures
            match r {
                Ok(t) => result_content(raw@) == Some(t@),
                Err(e) => result_content(raw@) is None && e == DracoError::EmptyResult,
            },
    {
        match DracoMcpClient::extract_result_content(raw) {
            Some(t) => Ok(t),
            None => Err(DracoError::EmptyResult),
        }
    }
}

/// Whether `post` is the request of a `tools/call`: JSON to the base url, in the
/// session, with JSON or an event stream as the reply within ten seconds.
pub open spec fn is_tool_post(
    post: HttpPost,
    base_url: Seq<char>,
    session: Seq<char>,
    name: Seq<char>,
    args: JsonView,
) -> bool {
    &&& post.url@ == base_url
    &&& post.content_type@ == "application/json"@
    &&& post.accept@ == "application/json, text/event-stream"@
    &&& post.session_id@ == session
    &&& post.timeout_secs == 10
    &&& post.body@ == call_tool_view(2, name, args)
}

/// The request of a `tools/call` in the given session.
pub fn tool_post(base_url: &str, session: &str, name: &str, args: &Json) -> (post: HttpPost)
    ensures
        is_tool_post(post, base_url@, session@, name@, args@),
{
    HttpPost {
        url: base_url.to_owned(),
        content_type: "application/json".to_owned(),
        accept: "application/json, text/event-stream".to_owned(),
        session_id: session.to_owned(),
        timeout_secs: 10,
        body: DracoMcpClient::call_tool_request(2, name, args),
    }
}

/// The first line of a text ends where its first line feed stands.
proof fn lemma_line_len(line: Seq<char>, rest: Seq<char>)
    requires
        !line.contains('\n'),
        rest.len() > 0,
        rest[0] == '\n',
    ensures
        line_len(line + rest) == line.len(),
    decreases line.len(),
{
    if line.len() > 0 {
        assert(line.contains(line[0]));
        assert((line + rest).drop_first() =~= line.drop_first() + rest);
        assert forall|i: int| 0 <= i < line.drop_first().len() implies line.drop_first()[i]
            != '\n' by {
            assert(line.contains(line[i + 1]));
        }
        lemma_line_len(line.drop_first(), rest);
    } else {
        assert(line + rest =~= rest);
    }
}

/// A reply reads the same whether it comes as plain JSON or as the data of an
/// event. The JSON stands on one line.
pub proof fn framed_reply_reads_as_the_plain_one(plain: Seq<char>)
    requires
        !plain.contains('\n'),
        plain.len() > 0 ==> plain.last() != '\r',
    ensures
        reply_json("event: message\ndata: "@ + plain + "\n\n"@) == plain,
        !"data: "@.is_prefix_of(plain) ==> {
            &&& reply_json(plain) == plain
            &&& result_content("event: message\ndata: "@ + plain + "\n\n"@) == result_content(
                plain,
            )
        },
{
    reveal_strlit("event: message\ndata: ");
    reveal_strlit("event: message");
    reveal_strlit("\ndata: ");
    reveal_strlit("data: ");
    reveal_strlit("\n\n");
    let framed = "event: message\ndata: "@ + plain + "\n\n"@;
    let first = "event: message"@;
    let data = "data: "@ + plain;
    assert(framed =~= first + ("\ndata: "@ + plain + "\n\n"@));
    lemma_line_len(first, "\ndata: "@ + plain + "\n\n"@);
    assert(framed.take(14) =~= first);
    assert(!"data: "@.is_prefix_of(first)) by {
        assert(first.subrange(0, 6)[0] != "data: "@[0]);
    }
    let rest = framed.skip(15);
    assert(rest =~= data + "\n\n"@);
    assert forall|i: int| 0 <= i < data.len() implies data[i] != '\n' by {
        if i >= 6 {
            assert(plain.contains(plain[i - 6]));
        }
    }
    lemma_line_len(data, "\n\n"@);
    assert(rest.take(data.len() as int) =~= data);
    assert(data.subrange(0, 6) =~= "data: "@);
    assert(data.skip(6) =~= plain);
    assert(without_cr(data) == data);
    assert(first_data(rest) == Some(plain));
    assert(first_data(framed) == first_data(rest));
    if !"data: "@.is_prefix_of(plain) {
        lemma_one_line(plain);
    }
}

/// A text without a line feed is one line.
proof fn lemma_one_line(s: Seq<char>)
    requires
        !s.contains('\n'),
    ensures
        line_len(s) == s.len(),
    decreases s.len(),
{
    if s.len() > 0 {
        assert(s.contains(s[0]));
        assert forall|i: int| 0 <= i < s.drop_first().len() implies s.drop_first()[i] != '\n' by {
            assert(s.contains(s[i + 1]));
        }
        lemma_one_line(s.drop_first());
    }
}

/// Where every item has a string under `text`, all of those strings are collected, each
/// at the place of its item.
pub proof fn every_text_block_is_collected(items: Seq<JsonView>, wanted: Seq<Seq<char>>)
    requires
        wanted.len() == items.len(),
        forall|i: int|
            0 <= i < items.len() ==> json::field(#[trigger] items[i], "text"@) == Some(
                JsonView::Text(wanted[i]),
            ),
    ensures
        texts(items).len() == items.len(),
        forall|i: int| 0 <= i < items.len() ==> #[trigger] texts(items)[i] == wanted[i],
    decreases items.len(),
{
    if items.len() > 0 {
        let head = items.drop_last();
        assert(forall|i: int| 0 <= i < head.len() ==> head[i] == items[i]);
        assert(items.last() == items[items.len() - 1]);
        every_text_block_is_collected(head, wanted.drop_last());
        assert forall|i: int| 0 <= i < items.len() implies #[trigger] texts(items)[i]
            == wanted[i] by {
            if i < head.len() {
                assert(texts(head)[i] == wanted.drop_last()[i]);
            }
        }
    }
}

/// One item more at the end adds its string at the end of those collected, and nothing
/// where it has none, however many there are.
pub proof fn each_item_adds_its_text(items: Seq<JsonView>, item: JsonView)
    ensures
        texts(Seq::empty()).len() == 0,
        match json::field(item, "text"@) {
            Some(JsonView::Text(t)) => texts(items.push(item)) == texts(items).push(t),
            _ => texts(items.push(item)) == texts(items),
        },
{
    assert(items.push(item).drop_last() =~= items);
}

/// Lines are joined with one line feed between each two, and none at the ends.
pub proof fn lines_are_joined_by_line_feeds(lines: Seq<Seq<char>>, line: Seq<char>)
    ensures
        joined(Seq::empty()).len() == 0,
        joined(seq![line]) == line,
        lines.len() > 0 ==> joined(lines.push(line)) == joined(lines) + seq!['\n'] + line,
{
    assert(lines.push(line).drop_last() =~= lines);
    if lines.len() > 0 {
        assert(joined(lines.push(line)) =~= joined(lines) + seq!['\n'] + line);
    }
}

/// The text of a reply is that of the items of `result.content`; there is none exactly
/// where there is no such array, or no item of it has a string.
pub proof fn content_is_the_text_of_the_items(
    reply: JsonView,
    result: JsonView,
    items: Seq<JsonView>,
)
    ensures
        json::field(reply, "result"@) == Some(result) && json::field(result, "content"@) == Some(
            JsonView::Array(items),
        ) ==> content_view(reply) == (if texts(items).len() > 0 {
            Some(joined(texts(items)))
        } else {
            None
        }),
        json::field(reply, "result"@) is None ==> content_view(reply) is None,
        json::field(reply, "result"@) == Some(result) && !(json::field(
            result,
            "content"@,
        ) matches Some(JsonView::Array(_))) ==> content_view(reply) is None,
{
}

/// A reply that is no JSON has no text; otherwise its text is that of the document.
pub proof fn reply_text_is_that_of_its_document(raw: Seq<char>)
    ensures
        match json::parsed(reply_json(raw)) {
            Some(reply) => result_content(raw) == content_view(reply),
            None => result_content(raw) is None,
        },
{
}

/// The first line decides where it starts with `data: `: what follows on that line is
/// the data. Otherwise it is skipped, however many lines there are. A line ends with a
/// line feed, or with a carriage return and a line feed.
pub proof fn data_stands_on_the_first_data_line(line: Seq<char>, rest: Seq<char>)
    requires
        !line.contains('\n'),
    ensures
        first_data(Seq::empty()) is None,
        ({
            let starts = line.len() >= 6 && line.take(6) == "data: "@;
            &&& starts ==> first_data(line) == Some(line.skip(6))
            &&& !starts ==> first_data(line) is None
            &&& line.len() == 0 || line.last() != '\r' ==> first_data(line + seq!['\n'] + rest) == (
            if starts {
                Some(line.skip(6))
            } else {
                first_data(rest)
            })
            &&& first_data(line + seq!['\r', '\n'] + rest) == (if starts {
                Some(line.skip(6))
            } else {
                first_data(rest)
            })
        }),
{
    reveal_strlit("data: ");
    lemma_one_line(line);
    lemma_data_prefix(line);
    let feed = line + seq!['\n'] + rest;
    assert(feed =~= line + (seq!['\n'] + rest));
    lemma_line_len(line, seq!['\n'] + rest);
    assert(feed.take(line.len() as int) =~= line);
    assert(feed.skip(line.len() as int + 1) =~= rest);
    let returned = line.push('\r');
    let both = line + seq!['\r', '\n'] + rest;
    assert(both =~= returned + (seq!['\n'] + rest));
    assert forall|i: int| 0 <= i < returned.len() implies returned[i] != '\n' by {
        if i < line.len() {
            assert(line.contains(line[i]));
        }
    }
    lemma_line_len(returned, seq!['\n'] + rest);
    assert(both.take(returned.len() as int) =~= returned);
    assert(returned.drop_last() =~= line);
    assert(both.skip(returned.len() as int + 1) =~= rest);
}

/// What it means that a line starts with `data: `.
proof fn lemma_data_prefix(line: Seq<char>)
    ensures
        "data: "@.len() == 6,
        "data: "@.is_prefix_of(line) <==> line.len() >= 6 && line.take(6) == "data: "@,
{
    reveal_strlit("data: ");
    if line.len() >= 6 {
        assert(line.take(6) =~= line.subrange(0, 6));
    }
}

/// The JSON of a reply is its first data where it has some, and else all of it.
pub proof fn reply_without_data_is_taken_whole(raw: Seq<char>)
    ensures
        first_data(raw) is None ==> reply_json(raw) == raw,
        first_data(raw) is Some ==> Some(reply_json(raw)) == first_data(raw),
{
}

/// A `tools/call` names the tool and hands on its arguments as they are.
pub proof fn tool_call_has_its_members(id: nat, name: Seq<char>, args: JsonView)
    ensures
        call_tool_view(id, name, args) matches JsonView::Object(members) && {
            &&& members.len() == 4
            &&& members[0] == ("jsonrpc"@, JsonView::Text("2.0"@))
            &&& members[1] == ("id"@, JsonView::Number(text::decimal(id)))
            &&& members[2] == ("method"@, JsonView::Text("tools/call"@))
            &&& members[3].0 == "params"@
            &&& members[3].1 matches JsonView::Object(params) && params.len() == 2 && params[0] == (
                "name"@,
                JsonView::Text(name),
            ) && params[1] == ("arguments"@, args)
        },
{
}

/// The arguments for the top hotspots name the workspace, and the limit where there is
/// one.
pub proof fn hotspot_arguments_have_their_members(workspace_key: Seq<char>, limit: u64)
    ensures
        hotspots_args(workspace_key, None) matches JsonView::Object(members) && members.len() == 1
            && members[0] == ("workspace_key"@, JsonView::Text(workspace_key)),
        hotspots_args(workspace_key, Some(limit)) matches JsonView::Object(members)
            && members.len() == 2 && members[0] == (
            "workspace_key"@,
            JsonView::Text(workspace_key),
        ) && members[1] == ("limit"@, JsonView::Number(text::decimal(limit as nat))),
{
}

/// A request goes to the url of the client in its session, as JSON, with ten seconds to
/// answer, and calls the tool under the second id.
pub proof fn tool_request_has_its_headers(
    post: HttpPost,
    base_url: Seq<char>,
    session: Seq<char>,
    name: Seq<char>,
    args: JsonView,
)
    requires
        is_tool_post(post, base_url, session, name, args),
    ensures
        post.url@ == base_url,
        post.session_id@ == session,
        post.content_type@ == "application/json"@,
        post.accept@ == "application/json, text/event-stream"@,
        post.timeout_secs == 10,
        post.body@ == call_tool_view(2, name, args),
{
}

/// The message of an error holds all of its cause.
pub proof fn error_message_holds_its_cause(cause: String)
    ensures
        DracoError::Ureq(cause).message_spec() == "ureq error: "@ + cause@,
        DracoError::Io(cause).message_spec() == "io error: "@ + cause@,
{
}

} // verus!
