//! The command line's side of the HTTP API: which request each command
//! sends, the bytes of that request, and how the reply is read.
use vstd::prelude::*;
use crate::text::{
    chars_of, decimal, decimal_chars, extend_chars, is_space, is_whitespace, lines, lossy_text,
    parse_u16, parse_unsigned, split_lines, string_of, texts, trim_start, utf8_lossy,
};

verus! {

/// A command of the command-line client.
pub enum Command {
    TodoAdd(String),
    TodoRm(String),
    TodoList,
    TodoReorder(Vec<String>),
    InfoPush(String),
    InfoPop,
    InfoRm(String),
    InfoList,
}

/// The value of the one field of a JSON request body.
pub enum BodyValue {
    Text(String),
    List(Vec<String>),
}

/// A JSON request body: an object with one field.
pub struct RequestBody {
    pub field: String,
    pub value: BodyValue,
}

/// What a [`RequestBody`] holds, as character sequences.
pub enum BodySpec {
    Text(Seq<char>, Seq<char>),
    List(Seq<char>, Seq<Seq<char>>),
}

impl View for RequestBody {
    type V = BodySpec;

    open spec fn view(&self) -> BodySpec {
        match self.value {
            BodyValue::Text(t) => BodySpec::Text(self.field@, t@),
            BodyValue::List(v) => BodySpec::List(self.field@, v@.map_values(|s: String| s@)),
        }
    }
}

/// An API request: method, path and optional JSON body.
pub struct ApiRequest {
    pub method: String,
    pub path: String,
    pub body: Option<RequestBody>,
}

fn owned(s: &str) -> (r: String)
    ensures
        r@ == s@,
{
    string_of(&chars_of(s))
}

fn joined(a: &str, b: &str) -> (r: String)
    ensures
        r@ == a@ + b@,
{
    let mut cs = chars_of(a);
    extend_chars(&mut cs, &chars_of(b));
    string_of(&cs)
}

fn copy_strings(v: &Vec<String>) -> (r: Vec<String>)
    ensures
        r@ == v@,
{
    let mut out: Vec<String> = Vec::new();
    let n = v.len();
    for i in 0..n
        invariant
            n == v@.len(),
            out@ == v@.take(i as int),
    {
        out.push(v[i].clone());
        assert(v@.take(i + 1) == v@.take(i as int).push(v@[i as int]));
    }
    assert(v@.take(n as int) == v@);
    out
}

/// Whether `r` is the request with method `m`, path `p` and no body.
pub open spec fn plain_request(r: ApiRequest, m: Seq<char>, p: Seq<char>) -> bool {
    r.method@ == m && r.path@ == p && r.body is None
}

/// Whether `r` is the request with method `m`, path `p` and body `b`.
pub open spec fn request_with_body(r: ApiRequest, m: Seq<char>, p: Seq<char>, b: BodySpec) -> bool {
    &&& r.method@ == m
    &&& r.path@ == p
    &&& r.body matches Some(x) && x@ == b
}

/// The request that `cmd` sends.
pub fn request_for(cmd: &Command) -> (r: ApiRequest)
    ensures
        match *cmd {
            Command::TodoAdd(t) => request_with_body(
                r,
                "POST"@,
                "/todo"@,
                BodySpec::Text("text"@, t@),
            ),
            Command::TodoRm(id) => plain_request(r, "DELETE"@, "/todo/"@ + id@),
            Command::TodoList => plain_request(r, "GET"@, "/todo"@),
            Command::TodoReorder(ids) => request_with_body(
                r,
                "POST"@,
                "/todo/reorder"@,
                BodySpec::List("ids"@, ids@.map_values(|s: String| s@)),
            ),
            Command::InfoPush(t) => request_with_body(
                r,
                "POST"@,
                "/info"@,
                BodySpec::Text("text"@, t@),
            ),
            Command::InfoPop => plain_request(r, "POST"@, "/info/pop"@),
            Command::InfoRm(id) => plain_request(r, "DELETE"@, "/info/"@ + id@),
            Command::InfoList => plain_request(r, "GET"@, "/info"@),
        },
{
    match cmd {
        Command::TodoAdd(t) => ApiRequest {
            method: owned("POST"),
            path: owned("/todo"),
            body: Some(RequestBody { field: owned("text"), value: BodyValue::Text(t.clone()) }),
        },
        Command::TodoRm(id) => ApiRequest {
            method: owned("DELETE"),
            path: joined("/todo/", id.as_str()),
            body: None,
        },
        Command::TodoList => ApiRequest { method: owned("GET"), path: owned("/todo"), body: None },
        Command::TodoReorder(ids) => ApiRequest {
            method: owned("POST"),
            path: owned("/todo/reorder"),
            body: Some(RequestBody { field: owned("ids"), value: BodyValue::List(copy_strings(ids)) }),
        },
        Command::InfoPush(t) => ApiRequest {
            method: owned("POST"),
            path: owned("/info"),
            body: Some(RequestBody { field: owned("text"), value: BodyValue::Text(t.clone()) }),
        },
        Command::InfoPop => ApiRequest { method: owned("POST"), path: owned("/info/pop"), body: None },
        Command::InfoRm(id) => ApiRequest {
            method: owned("DELETE"),
            path: joined("/info/", id.as_str()),
            body: None,
        },
        Command::InfoList => ApiRequest { method: owned("GET"), path: owned("/info"), body: None },
    }
}

/// Whether the reply to `cmd` is a JSON list that the client prints one
/// numbered entry per line.
pub fn lists_entries(cmd: &Command) -> (r: bool)
    ensures
        r == (*cmd is TodoList || *cmd is InfoList),
{
    match cmd {
        Command::TodoList | Command::InfoList => true,
        _ => false,
    }
}

/// The head of a request: request line, `Host`, `Connection: close`,
/// `Content-Length`, a JSON `Content-Type` when there is a body, and the
/// blank line.
pub open spec fn request_head(
    method: Seq<char>,
    path: Seq<char>,
    body_len: nat,
    has_body: bool,
) -> Seq<char> {
    method + " "@ + path + " HTTP/1.1\r\nHost: wotwot\r\nConnection: close\r\nContent-Length: "@
        + decimal(body_len) + "\r\n"@ + (if has_body {
        "Content-Type: application/json\r\n"@
    } else {
        Seq::empty()
    }) + "\r\n"@
}

/// The bytes sent for a request with method `method`, path `path` and the
/// encoded body `body`, if any: the head in UTF-8, then the body.
pub open spec fn request_bytes(method: Seq<char>, path: Seq<char>, body: Option<Seq<u8>>) -> Seq<
    u8,
> {
    match body {
        Some(b) => vstd::utf8::encode_utf8(request_head(method, path, b.len(), true)) + b,
        None => vstd::utf8::encode_utf8(request_head(method, path, 0, false)),
    }
}

fn copy_bytes(out: &mut Vec<u8>, b: &[u8])
    ensures
        final(out)@ == old(out)@ + b@,
{
    let n = b.len();
    for i in 0..n
        invariant
            n == b@.len(),
            out@ == old(out)@ + b@.take(i as int),
    {
        out.push(b[i]);
        assert(b@.take(i + 1) == b@.take(i as int).push(b@[i as int]));
    }
    assert(b@.take(n as int) == b@);
}

/// The bytes of a request whose body has been encoded as `body`.
pub fn frame_request(method: &str, path: &str, body: Option<&[u8]>) -> (r: Vec<u8>)
    ensures
        r@ == request_bytes(method@, path@, match body {
            Some(b) => Some(b@),
            None => None,
        }),
{
    let len: usize = match body {
        Some(b) => b.len(),
        None => 0,
    };
    let mut head = chars_of(method);
    extend_chars(&mut head, &chars_of(" "));
    extend_chars(&mut head, &chars_of(path));
    extend_chars(
        &mut head,
        &chars_of(" HTTP/1.1\r\nHost: wotwot\r\nConnection: close\r\nContent-Length: "),
    );
    extend_chars(&mut head, &decimal_chars(len as u128));
    extend_chars(&mut head, &chars_of("\r\n"));
    if body.is_some() {
        extend_chars(&mut head, &chars_of("Content-Type: application/json\r\n"));
    }
    extend_chars(&mut head, &chars_of("\r\n"));
    let head_text = string_of(&head);
    let mut out: Vec<u8> = Vec::new();
    copy_bytes(&mut out, head_text.as_str().as_bytes());
    match body {
        Some(b) => {
            copy_bytes(&mut out, b);
        },
        None => {},
    }
    out
}

#[verifier::external_type_specification]
#[verifier::external_body]
pub struct ExJsonError(serde_json::Error);

/// What serde_json's `to_vec` writes for the JSON object that `body`
/// describes.
pub uninterp spec fn json_encoding(body: BodySpec) -> Seq<u8>;

/// serde_json's `to_vec` on the object `{ field: value }` built from `body`
/// (a string, or an array of strings). The bytes it returns are named. It
/// succeeds: `to_vec` fails only where a `Serialize` impl fails or a map
/// has keys that are not strings, and a `Value` object of strings has
/// neither.
#[verifier::external_body]
fn encode_body(body: &RequestBody) -> (r: Result<Vec<u8>, serde_json::Error>)
    ensures
        r is Ok,
        r matches Ok(v) ==> v@ == json_encoding(body@),
{
    let value = match &body.value {
        BodyValue::Text(t) => serde_json::Value::String(t.clone()),
        BodyValue::List(v) => serde_json::Value::Array(
            v.iter().map(|s| serde_json::Value::String(s.clone())).collect(),
        ),
    };
    let mut object = serde_json::Map::new();
    object.insert(body.field.clone(), value);
    serde_json::to_vec(&serde_json::Value::Object(object))
}

/// Why a reply could not be used.
pub enum ClientError {
    /// The reply has no blank line after its head.
    Malformed,
    /// The head of the reply is not UTF-8: the bytes are valid up to
    /// `valid_up_to`, and `error_len` is the length of the bad sequence
    /// there (none when the head ends inside a sequence).
    HeadNotUtf8 { valid_up_to: usize, error_len: Option<u8> },
    /// The reply's status is not 2xx; `code` is 0 when the status line has
    /// no readable code.
    Status { code: u16, body: String },
}

/// The bytes that `req` sends, its body encoded as JSON.
pub fn encode_request(req: &ApiRequest) -> (r: Vec<u8>)
    ensures
        match req.body {
            Some(b) => r@ == request_bytes(req.method@, req.path@, Some(json_encoding(b@))),
            None => r@ == request_bytes(req.method@, req.path@, None),
        },
{
    match &req.body {
        Some(b) => match encode_body(b) {
            Ok(bytes) => frame_request(req.method.as_str(), req.path.as_str(), Some(bytes.as_slice())),
            Err(_) => Vec::new(),
        },
        None => frame_request(req.method.as_str(), req.path.as_str(), None),
    }
}

/// Whether the four bytes of `b` from `i` are `\r\n\r\n`.
pub open spec fn blank_line_at(b: Seq<u8>, i: int) -> bool {
    &&& 0 <= i
    &&& i + 4 <= b.len()
    &&& b[i] == 13u8 && b[i + 1] == 10u8 && b[i + 2] == 13u8 && b[i + 3] == 10u8
}

/// Whether `i` is the first position of `\r\n\r\n` in `b`.
pub open spec fn is_head_end(b: Seq<u8>, i: int) -> bool {
    &&& blank_line_at(b, i)
    &&& forall|j: int| 0 <= j < i ==> !#[trigger] blank_line_at(b, j)
}

/// Where the head of the reply `b` ends: the first `\r\n\r\n`.
pub open spec fn head_end(b: Seq<u8>) -> Option<int> {
    if exists|i: int| is_head_end(b, i) {
        Some(choose|i: int| is_head_end(b, i))
    } else {
        None
    }
}

/// Whether `i` is the first position of white space in `s`.
pub open spec fn is_word_end(s: Seq<char>, i: int) -> bool {
    &&& 0 <= i <= s.len()
    &&& (i < s.len() ==> is_space(s[i]))
    &&& forall|j: int| 0 <= j < i ==> !is_space(#[trigger] s[j])
}

/// The first position of white space in `s`, or its length.
pub open spec fn word_end(s: Seq<char>) -> int {
    choose|i: int| is_word_end(s, i)
}

/// The first word of `s` (a run of characters that are not white space)
/// and what follows it; nothing when `s` is all white space.
pub open spec fn next_word(s: Seq<char>) -> Option<(Seq<char>, Seq<char>)> {
    let t = trim_start(s);
    if t.len() == 0 {
        None
    } else {
        Some((t.take(word_end(t)), t.skip(word_end(t))))
    }
}

/// The second word of `s`, as `s.split_whitespace().nth(1)` gives it.
pub open spec fn second_word(s: Seq<char>) -> Option<Seq<char>> {
    match next_word(s) {
        Some(first) => match next_word(first.1) {
            Some(second) => Some(second.0),
            None => None,
        },
        None => None,
    }
}

/// The first line of `head`, or nothing when it has none.
pub open spec fn status_line(head: Seq<char>) -> Seq<char> {
    if lines(head).len() > 0 {
        lines(head)[0]
    } else {
        Seq::empty()
    }
}

/// The status code of a reply whose head is `head`: the second word of its
/// first line read as a `u16`, or 0 when there is no such number.
pub open spec fn status_code(head: Seq<char>) -> nat {
    match second_word(status_line(head)) {
        Some(w) => match parse_unsigned(w, u16::MAX as nat) {
            Some(c) => c,
            None => 0,
        },
        None => 0,
    }
}

proof fn lemma_word_end_unique(s: Seq<char>, i: int)
    requires
        is_word_end(s, i),
    ensures
        word_end(s) == i,
{
    let k = choose|k: int| is_word_end(s, k);
    if k < i {
        assert(!is_space(s[k]));
    } else if k > i {
        assert(!is_space(s[i]));
    }
}

/// The next word of `cs` at or after `from`, as the positions where it
/// starts and ends, with what [`next_word`] says of `cs` from `from`.
fn word_at(cs: &Vec<char>, from: usize) -> (r: Option<(usize, usize)>)
    requires
        from <= cs@.len(),
    ensures
        match r {
            Some((a, e)) => from <= a < e <= cs@.len() && next_word(cs@.skip(from as int)) == Some(
                (cs@.subrange(a as int, e as int), cs@.skip(e as int)),
            ),
            None => next_word(cs@.skip(from as int)) is None,
        },
{
    let n = cs.len();
    let mut a = from;
    while a < n && is_whitespace(cs[a])
        invariant
            from <= a <= n,
            n == cs@.len(),
            trim_start(cs@.skip(from as int)) == trim_start(cs@.skip(a as int)),
        decreases n - a,
    {
        assert(cs@.skip(a as int).drop_first() == cs@.skip(a + 1));
        a = a + 1;
    }
    let ghost t = cs@.skip(a as int);
    assert(trim_start(t) == t);
    if a == n {
        assert(t.len() == 0);
        return None;
    }
    let mut e = a;
    while e < n && !is_whitespace(cs[e])
        invariant
            a <= e <= n,
            n == cs@.len(),
            t == cs@.skip(a as int),
            forall|j: int| 0 <= j < e - a ==> !is_space(#[trigger] t[j]),
        decreases n - e,
    {
        e = e + 1;
    }
    assert(is_word_end(t, e - a));
    proof {
        lemma_word_end_unique(t, e - a);
    }
    assert(t.take(e - a) == cs@.subrange(a as int, e as int));
    assert(t.skip(e - a) == cs@.skip(e as int));
    Some((a, e))
}

/// The status code of a reply whose head is `head` (see [`status_code`]).
pub fn read_status_code(head: &str) -> (code: u16)
    ensures
        code == status_code(head@),
{
    let ls = split_lines(&chars_of(head));
    if ls.len() == 0 {
        assert(status_line(head@) == Seq::<char>::empty());
        assert(trim_start(Seq::<char>::empty()) == Seq::<char>::empty());
        return 0;
    }
    let first = &ls[0];
    assert(status_line(head@) == first@);
    assert(first@.skip(0) == first@);
    match word_at(first, 0) {
        None => 0,
        Some((_, e1)) => match word_at(first, e1) {
            None => 0,
            Some((a2, e2)) => {
                let word = string_of(&crate::text::slice_chars(first, a2, e2));
                match parse_u16(word.as_str()) {
                    Some(c) => c,
                    None => 0,
                }
            },
        },
    }
}

/// The first `\r\n\r\n` in `b` (see [`head_end`]).
fn find_head_end(b: &[u8]) -> (r: Option<usize>)
    ensures
        match r {
            Some(i) => head_end(b@) == Some(i as int) && i + 4 <= b@.len(),
            None => head_end(b@) is None,
        },
{
    let n = b.len();
    if n < 4 {
        assert forall|i: int| !is_head_end(b@, i) by {}
        return None;
    }
    let mut i: usize = 0;
    while i <= n - 4
        invariant
            n == b@.len(),
            n >= 4,
            i <= n - 3,
            forall|j: int| 0 <= j < i ==> !#[trigger] blank_line_at(b@, j),
        decreases n - i,
    {
        if b[i] == 13u8 && b[i + 1] == 10u8 && b[i + 2] == 13u8 && b[i + 3] == 10u8 {
            assert(is_head_end(b@, i as int));
            proof {
                let k = choose|k: int| is_head_end(b@, k);
                if k < i {
                    assert(!blank_line_at(b@, k));
                } else if k > i {
                    assert(!blank_line_at(b@, i as int));
                }
            }
            return Some(i);
        }
        i = i + 1;
    }
    assert forall|k: int| !is_head_end(b@, k) by {
        if is_head_end(b@, k) {
            assert(blank_line_at(b@, k));
        }
    }
    None
}

/// What std's documentation of `Utf8Error` says of a failed decoding of
/// `b`: `valid_up_to` is the longest prefix of `b` that is valid UTF-8;
/// with no `error_len` the input ended inside a sequence, 1 to 3 bytes
/// from its end; with `error_len` `n`, an invalid sequence of `n` bytes (1
/// to 3) starts at `valid_up_to`.
pub open spec fn utf8_failure(b: Seq<u8>, valid_up_to: nat, error_len: Option<u8>) -> bool {
    &&& !vstd::utf8::valid_utf8(b)
    &&& valid_up_to <= b.len()
    &&& vstd::utf8::valid_utf8(b.take(valid_up_to as int))
    &&& forall|k: int|
        valid_up_to < k <= b.len() ==> !vstd::utf8::valid_utf8(#[trigger] b.take(k))
    &&& match error_len {
        None => 1 <= b.len() - valid_up_to <= 3,
        Some(n) => 1 <= n <= 3 && valid_up_to + n <= b.len(),
    }
}

/// std's `str::from_utf8` on `b`, its error taken apart by `valid_up_to`
/// and `error_len`. The contract states std's documentation: it succeeds
/// exactly on valid UTF-8 and then holds the characters that the bytes
/// encode; on failure see [`utf8_failure`]. Which length from 1 to 3 a
/// failure reports is left unsaid: the documentation calls it the length
/// of "the invalid byte sequence" without defining where that ends.
#[verifier::external_body]
fn utf8_text(b: &[u8]) -> (r: Result<&str, (usize, Option<u8>)>)
    ensures
        r is Ok <==> vstd::utf8::valid_utf8(b@),
        r matches Ok(s) ==> s@ == vstd::utf8::decode_utf8(b@),
        r matches Err(e) ==> utf8_failure(b@, e.0 as nat, e.1),
{
    std::str::from_utf8(b).map_err(|e| (e.valid_up_to(), e.error_len().map(|n| n as u8)))
}

/// What the client makes of the reply `b`: its body as text when the
/// status is 2xx, else the error (see [`ClientError`]).
pub open spec fn reply_outcome(b: Seq<u8>, r: Result<String, ClientError>) -> bool {
    match head_end(b) {
        None => r matches Err(e) && e is Malformed,
        Some(p) => {
            let head = b.take(p);
            let body = lossy_text(b.skip(p + 4));
            if !vstd::utf8::valid_utf8(head) {
                r matches Err(e) && e matches ClientError::HeadNotUtf8 { valid_up_to: v, error_len: l }
                    && utf8_failure(head, v as nat, l)
            } else {
                let code = status_code(vstd::utf8::decode_utf8(head));
                if 200 <= code < 300 {
                    r matches Ok(s) && s@ == body
                } else {
                    r matches Err(e) && e matches ClientError::Status { code: c, body: t } && c
                        == code && t@ == body
                }
            }
        },
    }
}

/// Reads the reply `buf` to a request (see [`reply_outcome`]).
pub fn parse_reply(buf: &[u8]) -> (r: Result<String, ClientError>)
    ensures
        reply_outcome(buf@, r),
{
    let split = match find_head_end(buf) {
        Some(i) => i,
        None => {
            return Err(ClientError::Malformed);
        },
    };
    let (head_bytes, rest) = buf.split_at(split);
    let (_, body_bytes) = rest.split_at(4);
    assert(head_bytes@ == buf@.take(split as int));
    assert(body_bytes@ == buf@.skip(split + 4));
    let head = match utf8_text(head_bytes) {
        Ok(h) => h,
        Err((valid_up_to, error_len)) => {
            return Err(ClientError::HeadNotUtf8 { valid_up_to, error_len });
        },
    };
    let code = read_status_code(head);
    let body = utf8_lossy(body_bytes);
    if code >= 200 && code < 300 {
        Ok(body)
    } else {
        Err(ClientError::Status { code, body })
    }
}

/// The message the client prints for `e`; for a head that is not UTF-8,
/// the text of std's `Utf8Error`.
pub open spec fn error_message(e: ClientError) -> Seq<char> {
    match e {
        ClientError::Malformed => "malformed response"@,
        ClientError::HeadNotUtf8 { valid_up_to, error_len } => match error_len {
            Some(n) => "invalid utf-8 sequence of "@ + decimal(n as nat) + " bytes from index "@
                + decimal(valid_up_to as nat),
            None => "incomplete utf-8 byte sequence from index "@ + decimal(valid_up_to as nat),
        },
        ClientError::Status { code, body } => "HTTP "@ + decimal(code as nat) + ": "@ + body@,
    }
}

impl ClientError {
    /// The message to print for this error (see [`error_message`]).
    pub fn message(&self) -> (r: String)
        ensures
            r@ == error_message(*self),
    {
        match self {
            ClientError::Malformed => owned("malformed response"),
            ClientError::HeadNotUtf8 { valid_up_to, error_len } => {
                let mut cs = match error_len {
                    Some(n) => {
                        let mut cs = chars_of("invalid utf-8 sequence of ");
                        extend_chars(&mut cs, &decimal_chars(*n as u128));
                        extend_chars(&mut cs, &chars_of(" bytes from index "));
                        cs
                    },
                    None => chars_of("incomplete utf-8 byte sequence from index "),
                };
                extend_chars(&mut cs, &decimal_chars(*valid_up_to as u128));
                string_of(&cs)
            },
            ClientError::Status { code, body } => {
                let mut cs = chars_of("HTTP ");
                extend_chars(&mut cs, &decimal_chars(*code as u128));
                extend_chars(&mut cs, &chars_of(": "));
                extend_chars(&mut cs, &chars_of(body.as_str()));
                string_of(&cs)
            },
        }
    }
}

/// The head of a request announces exactly the body that follows it: a
/// request with body `body` is its head, whose `Content-Length` is the
/// number of bytes of `body` written in decimal (which reads back as that
/// number), then a JSON `Content-Type`, the blank line, and `body` itself.
pub proof fn law_request_announces_body_length(method: Seq<char>, path: Seq<char>, body: Seq<u8>)
    ensures
        request_bytes(method, path, Some(body)) == vstd::utf8::encode_utf8(
            method + " "@ + path
                + " HTTP/1.1\r\nHost: wotwot\r\nConnection: close\r\nContent-Length: "@ + decimal(
                body.len(),
            ) + "\r\n"@ + "Content-Type: application/json\r\n"@ + "\r\n"@,
        ) + body,
        crate::text::digits_value(decimal(body.len())) == body.len(),
        crate::text::all_digits(decimal(body.len())),
{
    crate::text::law_decimal_reads_back(body.len());
}

/// A request without a body announces a length of 0 and no content type.
pub proof fn law_request_without_body(method: Seq<char>, path: Seq<char>)
    ensures
        request_bytes(method, path, None) == vstd::utf8::encode_utf8(
            method + " "@ + path
                + " HTTP/1.1\r\nHost: wotwot\r\nConnection: close\r\nContent-Length: "@ + decimal(
                0,
            ) + "\r\n"@ + Seq::<char>::empty() + "\r\n"@,
        ),
        decimal(0) == seq!['0'],
{
    assert(decimal(0) == seq![crate::text::digit_char(0)]);
    assert(crate::text::digit_char(0) == '0') by {
        assert((('0' as u32) as char) == '0');
    }
}

/// A reply is accepted exactly when it has a head that is UTF-8 and whose
/// status code is in `200..300`; then the text given back is the body after
/// the blank line, and every other reply is an error.
pub proof fn law_reply_accepted_only_on_2xx(b: Seq<u8>, r: Result<String, ClientError>)
    requires
        reply_outcome(b, r),
    ensures
        r is Ok <==> (head_end(b) matches Some(p) && vstd::utf8::valid_utf8(b.take(p))
            && 200 <= status_code(vstd::utf8::decode_utf8(b.take(p))) < 300),
        r matches Ok(s) ==> (head_end(b) matches Some(p) && s@ == lossy_text(b.skip(p + 4))),
        r matches Err(e) && e is Status ==> (head_end(b) matches Some(p) && vstd::utf8::valid_utf8(
            b.take(p),
        )),
{
}

/// Whether `w` is a word: not empty and with no white space in it.
pub open spec fn is_word(w: Seq<char>) -> bool {
    w.len() > 0 && forall|j: int| 0 <= j < w.len() ==> !is_space(#[trigger] w[j])
}

proof fn lemma_word_then(w: Seq<char>, rest: Seq<char>)
    requires
        is_word(w),
        rest.len() == 0 || is_space(rest[0]),
    ensures
        next_word(w + rest) == Some((w, rest)),
{
    let s = w + rest;
    assert(!is_space(s[0]));
    assert(trim_start(s) == s);
    assert(is_word_end(s, w.len() as int)) by {
        assert forall|j: int| 0 <= j < w.len() implies !is_space(#[trigger] s[j]) by {
            assert(s[j] == w[j]);
        }
        if w.len() < s.len() {
            assert(s[w.len() as int] == rest[0]);
        }
    }
    lemma_word_end_unique(s, w.len() as int);
    assert(s.take(w.len() as int) == w);
    assert(s.skip(w.len() as int) == rest);
}

/// The status code is read from the second word of the status line: for a
/// head whose first line is a word, a space, the code word and then
/// nothing or white space, the code is that word read as a `u16` (0 when
/// it is not one).
pub proof fn law_status_code_is_second_word(w1: Seq<char>, code: Seq<char>, rest: Seq<char>)
    requires
        is_word(w1),
        is_word(code),
        rest.len() == 0 || is_space(rest[0]),
        forall|j: int| 0 <= j < rest.len() ==> #[trigger] rest[j] != '\n',
        forall|j: int| 0 <= j < w1.len() ==> #[trigger] w1[j] != '\n',
        forall|j: int| 0 <= j < code.len() ==> #[trigger] code[j] != '\n',
    ensures
        status_line(w1 + seq![' '] + code + rest) == w1 + seq![' '] + code + rest,
        second_word(w1 + seq![' '] + code + rest) == Some(code),
        status_code(w1 + seq![' '] + code + rest) == match parse_unsigned(code, u16::MAX as nat) {
            Some(c) => c,
            None => 0,
        },
{
    let tail = seq![' '] + code + rest;
    let head = w1 + tail;
    assert(head == w1 + seq![' '] + code + rest);
    assert(forall|j: int| 0 <= j < head.len() ==> #[trigger] head[j] != '\n') by {
        assert forall|j: int| 0 <= j < head.len() implies #[trigger] head[j] != '\n' by {
            if j < w1.len() {
                assert(head[j] == w1[j]);
            } else if j == w1.len() {
                assert(head[j] == ' ');
            } else if j < w1.len() + 1 + code.len() {
                assert(head[j] == code[j - w1.len() - 1]);
            } else {
                assert(head[j] == rest[j - w1.len() - 1 - code.len()]);
            }
        }
    }
    crate::text::law_lines_split_at_newline(head, Seq::empty());
    assert(is_space(tail[0]));
    lemma_word_then(w1, tail);
    let t2 = code + rest;
    assert(tail.drop_first() == t2);
    assert(trim_start(tail) == trim_start(t2));
    lemma_word_then(code, rest);
    assert(trim_start(t2) == t2) by {
        assert(!is_space(t2[0]));
    }
    assert(next_word(tail) == next_word(t2));
}

} // verus!
