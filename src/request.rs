//! The request model and the parser that builds it from raw text.
use vstd::prelude::*;

use vstd::string::StringSliceAdditionalSpecFns;
use vstd::utf8::{decode_utf8, encode_utf8_decode_utf8, valid_utf8};

use crate::text::{
    chars_of, copy_chars, eq_chars, first_index, lemma_first_index_absent, lemma_first_index_at, split_chars,
    split_on, string_of, views,
};

verus! {

/// Request methods; every verb other than GET and POST is `Unsupported`.
#[derive(Debug, Clone, Copy, PartialEq, Eq, Hash, Structural)]
pub enum Method {
    GET,
    POST,
    Unsupported,
}

/// Protocol versions; every version other than HTTP/1.1 is `Unsupported`.
#[derive(Debug, Clone, Copy, PartialEq, Eq, Hash, Structural)]
pub enum Version {
    V1_1,
    Unsupported,
}

/// The requested resource, exactly as transmitted.
#[derive(Debug, PartialEq, Eq)]
pub enum Resource {
    Path(String),
}

/// Why a request could not be parsed.
#[derive(Debug, Clone, Copy, PartialEq, Eq, Structural)]
pub enum ParseError {
    /// The bytes are not valid UTF-8.
    MalformedEncoding,
    /// The request line has fewer than three tokens.
    MalformedRequestLine,
    /// A header line has no colon.
    MalformedHeaderLine,
}

/// The method that `token` names.
pub open spec fn method_of(token: Seq<char>) -> Method {
    if token == seq!['G', 'E', 'T'] {
        Method::GET
    } else if token == seq!['P', 'O', 'S', 'T'] {
        Method::POST
    } else {
        Method::Unsupported
    }
}

/// The version that `token` names.
pub open spec fn version_of(token: Seq<char>) -> Version {
    if token == seq!['H', 'T', 'T', 'P', '/', '1', '.', '1'] {
        Version::V1_1
    } else {
        Version::Unsupported
    }
}

impl Method {
    /// Reads a method token.
    pub fn from_token(token: &str) -> (r: Method)
        ensures
            r == method_of(token@),
    {
        let t = chars_of(token);
        Self::from_chars(&t)
    }

    fn from_chars(t: &[char]) -> (r: Method)
        ensures
            r == method_of(t@),
    {
        if t.len() == 3 && t[0] == 'G' && t[1] == 'E' && t[2] == 'T' {
            proof {
                assert(t@ =~= seq!['G', 'E', 'T']);
            }
            Method::GET
        } else if t.len() == 4 && t[0] == 'P' && t[1] == 'O' && t[2] == 'S' && t[3] == 'T' {
            proof {
                assert(t@ =~= seq!['P', 'O', 'S', 'T']);
            }
            Method::POST
        } else {
            proof {
                if t@ == seq!['G', 'E', 'T'] {
                    assert(t@[0] == 'G');
                }
                if t@ == seq!['P', 'O', 'S', 'T'] {
                    assert(t@[0] == 'P');
                }
            }
            Method::Unsupported
        }
    }
}

impl Version {
    /// Reads a version token.
    pub fn from_token(token: &str) -> (r: Version)
        ensures
            r == version_of(token@),
    {
        let t = chars_of(token);
        Self::from_chars(&t)
    }

    fn from_chars(t: &[char]) -> (r: Version)
        ensures
            r == version_of(t@),
    {
        if t.len() == 8 && t[0] == 'H' && t[1] == 'T' && t[2] == 'T' && t[3] == 'P' && t[4] == '/'
            && t[5] == '1' && t[6] == '.' && t[7] == '1' {
            proof {
                assert(t@ =~= seq!['H', 'T', 'T', 'P', '/', '1', '.', '1']);
            }
            Version::V1_1
        } else {
            proof {
                if t@ == seq!['H', 'T', 'T', 'P', '/', '1', '.', '1'] {
                    assert(t@[0] == 'H');
                }
            }
            Version::Unsupported
        }
    }
}

impl From<&str> for Method {
    fn from(value: &str) -> (r: Method)
        ensures
            r == method_of(value@),
    {
        Method::from_token(value)
    }
}

impl vstd::std_specs::convert::FromSpecImpl<&str> for Method {
    open spec fn obeys_from_spec() -> bool {
        true
    }

    open spec fn from_spec(v: &str) -> Method {
        method_of(v@)
    }
}

impl From<&str> for Version {
    fn from(value: &str) -> (r: Version)
        ensures
            r == version_of(value@),
    {
        Version::from_token(value)
    }
}

impl vstd::std_specs::convert::FromSpecImpl<&str> for Version {
    open spec fn obeys_from_spec() -> bool {
        true
    }

    open spec fn from_spec(v: &str) -> Version {
        version_of(v@)
    }
}

/// Unicode white space, as `char::is_whitespace` documents it: the
/// characters with the `White_Space` property.
pub open spec fn is_ws(c: char) -> bool {
    ('\u{9}' <= c && c <= '\u{d}') || c == ' ' || c == '\u{85}' || c == '\u{a0}'
        || c == '\u{1680}' || ('\u{2000}' <= c && c <= '\u{200a}') || c == '\u{2028}'
        || c == '\u{2029}' || c == '\u{202f}' || c == '\u{205f}' || c == '\u{3000}'
}

/// Whether `c` is white space.
pub fn is_space(c: char) -> (r: bool)
    ensures
        r == is_ws(c),
{
    ('\u{9}' <= c && c <= '\u{d}') || c == ' ' || c == '\u{85}' || c == '\u{a0}'
        || c == '\u{1680}' || ('\u{2000}' <= c && c <= '\u{200a}') || c == '\u{2028}'
        || c == '\u{2029}' || c == '\u{202f}' || c == '\u{205f}' || c == '\u{3000}'
}

/// `s` cut at every white-space character.
pub open spec fn split_ws(s: Seq<char>) -> Seq<Seq<char>>
    decreases s.len(),
{
    if s.len() == 0 {
        seq![Seq::<char>::empty()]
    } else {
        let r = split_ws(s.drop_last());
        if is_ws(s.last()) {
            r.push(Seq::<char>::empty())
        } else {
            r.update(r.len() - 1, r.last().push(s.last()))
        }
    }
}

/// The non-empty members of `parts`, in order.
pub open spec fn non_empty(parts: Seq<Seq<char>>) -> Seq<Seq<char>>
    decreases parts.len(),
{
    if parts.len() == 0 {
        parts
    } else {
        let r = non_empty(parts.drop_last());
        if parts.last().len() > 0 {
            r.push(parts.last())
        } else {
            r
        }
    }
}

/// The white-space separated words of `s`.
pub open spec fn words(s: Seq<char>) -> Seq<Seq<char>> {
    non_empty(split_ws(s))
}

fn split_words(s: &[char]) -> (r: Vec<Vec<char>>)
    ensures
        views(r@) == words(s@),
{
    let mut done: Vec<Vec<char>> = Vec::new();
    let mut cur: Vec<char> = Vec::new();
    let mut i: usize = 0;
    proof {
        assert(s@.take(0) =~= Seq::<char>::empty());
        assert(split_ws(Seq::<char>::empty()).drop_last() =~= Seq::<Seq<char>>::empty());
    }
    while i < s.len()
        invariant
            i <= s.len(),
            views(done@) == non_empty(split_ws(s@.take(i as int)).drop_last()),
            split_ws(s@.take(i as int)).last() == cur@,
            split_ws(s@.take(i as int)).len() >= 1,
        decreases s.len() - i,
    {
        let c = s[i];
        let ghost sp = split_ws(s@.take(i as int));
        proof {
            assert(s@.take(i + 1).drop_last() =~= s@.take(i as int));
            assert(s@.take(i + 1).last() == c);
        }
        if is_space(c) {
            let ghost before = views(done@);
            if cur.len() > 0 {
                done.push(cur);
                proof {
                    assert(views(done@) =~= before.push(done@.last()@));
                }
            }
            cur = Vec::new();
            proof {
                let sp2 = split_ws(s@.take(i + 1));
                assert(sp2 == sp.push(Seq::<char>::empty()));
                assert(sp2.drop_last() =~= sp);
                assert(non_empty(sp) == (if sp.last().len() > 0 {
                    non_empty(sp.drop_last()).push(sp.last())
                } else {
                    non_empty(sp.drop_last())
                }));
            }
        } else {
            cur.push(c);
            proof {
                let sp2 = split_ws(s@.take(i + 1));
                assert(sp2.drop_last() =~= sp.drop_last());
            }
        }
        i = i + 1;
    }
    proof {
        assert(s@.take(i as int) =~= s@);
    }
    let ghost sp = split_ws(s@);
    let ghost before = views(done@);
    if cur.len() > 0 {
        done.push(cur);
        proof {
            assert(views(done@) =~= before.push(done@.last()@));
        }
    }
    done
}

/// `line` without one trailing carriage return.
pub open spec fn strip_cr(line: Seq<char>) -> Seq<char> {
    if line.len() > 0 && line.last() == '\r' {
        line.drop_last()
    } else {
        line
    }
}

/// The lines of `text`: cut at every line feed, each without a trailing
/// carriage return.
pub open spec fn lines_of(text: Seq<char>) -> Seq<Seq<char>> {
    split_on(text, '\n').map_values(|l: Seq<char>| strip_cr(l))
}

/// Whether `line` holds the token `HTTP` anywhere.
pub open spec fn has_http(line: Seq<char>) -> bool {
    exists|i: int|
        0 <= i && i + 4 <= line.len() && #[trigger] line.subrange(i, i + 4) == seq![
            'H',
            'T',
            'T',
            'P',
        ]
}

/// The request line's parts: method, path and version from its first three
/// words.
pub open spec fn request_line_of(line: Seq<char>) -> Result<
    (Method, Seq<char>, Version),
    ParseError,
> {
    let w = words(line);
    if w.len() < 3 {
        Err(ParseError::MalformedRequestLine)
    } else {
        Ok((method_of(w[0]), w[1], version_of(w[2])))
    }
}

/// A header line's name and value: the text before and after its first colon.
pub open spec fn header_line_of(line: Seq<char>) -> Result<(Seq<char>, Seq<char>), ParseError> {
    let p = first_index(line, ':');
    if p < 0 {
        Err(ParseError::MalformedHeaderLine)
    } else {
        Ok((line.take(p), line.skip(p + 1)))
    }
}

/// What a parsed request holds: method, version, path, headers by name, body.
pub type RequestView = (Method, Version, Seq<char>, Map<Seq<char>, Seq<char>>, Seq<char>);

/// The state before any line has been read.
pub open spec fn initial_view() -> RequestView {
    (
        Method::Unsupported,
        Version::V1_1,
        Seq::<char>::empty(),
        Map::<Seq<char>, Seq<char>>::empty(),
        Seq::<char>::empty(),
    )
}

/// Reads one line into the state `st`: a line holding `HTTP` is the request
/// line, else a line holding a colon is a header (a later one of the same
/// name wins), else a non-empty line is added to the body, joined to earlier
/// body lines by a line feed.
pub open spec fn step(st: RequestView, line: Seq<char>) -> Result<RequestView, ParseError> {
    if has_http(line) {
        match request_line_of(line) {
            Ok((m, path, v)) => Ok((m, v, path, st.3, st.4)),
            Err(e) => Err(e),
        }
    } else if first_index(line, ':') >= 0 {
        match header_line_of(line) {
            Ok((k, v)) => Ok((st.0, st.1, st.2, st.3.insert(k, v), st.4)),
            Err(e) => Err(e),
        }
    } else if line.len() != 0 {
        if st.4.len() == 0 {
            Ok((st.0, st.1, st.2, st.3, line))
        } else {
            Ok((st.0, st.1, st.2, st.3, st.4.push('\n') + line))
        }
    } else {
        Ok(st)
    }
}

/// Reads `lines` in order; the first error ends the reading.
pub open spec fn parse_lines(lines: Seq<Seq<char>>) -> Result<RequestView, ParseError>
    decreases lines.len(),
{
    if lines.len() == 0 {
        Ok(initial_view())
    } else {
        match parse_lines(lines.drop_last()) {
            Ok(st) => step(st, lines.last()),
            Err(e) => Err(e),
        }
    }
}

/// The request that `text` holds.
pub open spec fn parse_text(text: Seq<char>) -> Result<RequestView, ParseError> {
    parse_lines(lines_of(text))
}

/// Headers held as pairs, by name; where a name occurs twice the later pair wins.
pub open spec fn header_map(pairs: Seq<(String, String)>) -> Map<Seq<char>, Seq<char>>
    decreases pairs.len(),
{
    if pairs.len() == 0 {
        Map::empty()
    } else {
        header_map(pairs.drop_last()).insert(pairs.last().0@, pairs.last().1@)
    }
}

/// Whether no two pairs share a name.
pub open spec fn names_unique(pairs: Seq<(String, String)>) -> bool {
    forall|i: int, j: int|
        0 <= i < j < pairs.len() ==> #[trigger] pairs[i].0@ != #[trigger] pairs[j].0@
}

proof fn lemma_header_map_replace(pairs: Seq<(String, String)>, idx: int, p: (String, String))
    requires
        names_unique(pairs),
        0 <= idx < pairs.len(),
        pairs[idx].0@ == p.0@,
    ensures
        header_map(pairs.update(idx, p)) == header_map(pairs).insert(p.0@, p.1@),
    decreases pairs.len(),
{
    let up = pairs.update(idx, p);
    assert(up.drop_last() =~= if idx == pairs.len() - 1 {
        pairs.drop_last()
    } else {
        pairs.drop_last().update(idx, p)
    });
    if idx == pairs.len() - 1 {
        assert(header_map(up) =~= header_map(pairs).insert(p.0@, p.1@));
    } else {
        let prev = pairs.drop_last();
        assert(names_unique(prev)) by {
            assert forall|i: int, j: int| 0 <= i < j < prev.len() implies #[trigger] prev[i].0@
                != #[trigger] prev[j].0@ by {
                assert(prev[i] == pairs[i] && prev[j] == pairs[j]);
            }
        }
        lemma_header_map_replace(prev, idx, p);
        assert(pairs.last().0@ != p.0@) by {
            assert(pairs[idx].0@ != pairs[pairs.len() - 1].0@);
        }
        assert(up.last() == pairs.last());
        assert(header_map(up) =~= header_map(pairs).insert(p.0@, p.1@));
    }
}

/// Where the name `k` is held in `pairs`, the position of the first pair
/// with that name.
fn find_name(pairs: &Vec<(String, String)>, k: &[char]) -> (r: Option<usize>)
    ensures
        r matches Some(i) ==> i < pairs@.len() && pairs@[i as int].0@ == k@,
        r is None ==> forall|i: int| 0 <= i < pairs@.len() ==> #[trigger] pairs@[i].0@ != k@,
{
    let mut i: usize = 0;
    while i < pairs.len()
        invariant
            i <= pairs@.len(),
            forall|t: int| 0 <= t < i ==> #[trigger] pairs@[t].0@ != k@,
        decreases pairs.len() - i,
    {
        let name = chars_of(pairs[i].0.as_str());
        if eq_chars(&name, k) {
            return Some(i);
        }
        i = i + 1;
    }
    None
}

/// The path that a resource names.
pub open spec fn resource_path(r: Resource) -> Seq<char> {
    match r {
        Resource::Path(p) => p@,
    }
}

fn holds_http(line: &[char]) -> (r: bool)
    ensures
        r == has_http(line@),
{
    if line.len() < 4 {
        return false;
    }
    let mut i: usize = 0;
    while i <= line.len() - 4
        invariant
            line.len() >= 4,
            i <= line.len() - 3,
            forall|t: int|
                0 <= t < i ==> #[trigger] line@.subrange(t, t + 4) != seq!['H', 'T', 'T', 'P'],
        decreases line.len() - i,
    {
        if line[i] == 'H' && line[i + 1] == 'T' && line[i + 2] == 'T' && line[i + 3] == 'P' {
            proof {
                assert(line@.subrange(i as int, i + 4) =~= seq!['H', 'T', 'T', 'P']);
            }
            return true;
        }
        proof {
            let sub = line@.subrange(i as int, i + 4);
            if sub == seq!['H', 'T', 'T', 'P'] {
                assert(sub[0] == line@[i as int]);
                assert(sub[1] == line@[i + 1]);
                assert(sub[2] == line@[i + 2]);
                assert(sub[3] == line@[i + 3]);
            }
        }
        i = i + 1;
    }
    false
}

fn colon_at(line: &[char]) -> (r: Option<usize>)
    ensures
        first_index(line@, ':') >= 0 ==> r is Some && r->0 == first_index(line@, ':'),
        first_index(line@, ':') < 0 ==> r is None,
        r is Some ==> r->0 < line@.len(),
{
    let mut i: usize = 0;
    while i < line.len()
        invariant
            i <= line.len(),
            forall|t: int| 0 <= t < i ==> line@[t] != ':',
        decreases line.len() - i,
    {
        if line[i] == ':' {
            proof {
                lemma_first_index_at(line@, ':', i as int);
            }
            return Some(i);
        }
        i = i + 1;
    }
    proof {
        lemma_first_index_absent(line@, ':');
    }
    None
}

fn request_line(line: &[char]) -> (r: Result<(Method, Vec<char>, Version), ParseError>)
    ensures
        match request_line_of(line@) {
            Ok((m, p, v)) => r matches Ok((m2, p2, v2)) && m2 == m && p2@ == p && v2 == v,
            Err(e) => r == Err::<(Method, Vec<char>, Version), ParseError>(e),
        },
{
    let mut w = split_words(line);
    if w.len() < 3 {
        return Err(ParseError::MalformedRequestLine);
    }
    let ghost ws = views(w@);
    let method = Method::from_chars(w[0].as_slice());
    let version = Version::from_chars(w[2].as_slice());
    let path = w.swap_remove(1);
    proof {
        assert(ws[1] == path@);
    }
    Ok((method, path, version))
}

fn header_line(line: &[char]) -> (r: Result<(Vec<char>, Vec<char>), ParseError>)
    ensures
        match header_line_of(line@) {
            Ok((k, v)) => r matches Ok((k2, v2)) && k2@ == k && v2@ == v,
            Err(e) => r == Err::<(Vec<char>, Vec<char>), ParseError>(e),
        },
{
    match colon_at(line) {
        None => Err(ParseError::MalformedHeaderLine),
        Some(p) => {
            let mut name: Vec<char> = Vec::new();
            let mut value: Vec<char> = Vec::new();
            let mut i: usize = 0;
            while i < line.len()
                invariant
                    p < line.len(),
                    i <= line.len(),
                    name@ == line@.take(if i <= p { i as int } else { p as int }),
                    value@ == (if i <= p + 1 { Seq::<char>::empty() } else { line@.subrange(
                        p + 1,
                        i as int,
                    ) }),
                decreases line.len() - i,
            {
                if i < p {
                    name.push(line[i]);
                    proof {
                        assert(name@ =~= line@.take(i + 1));
                    }
                } else if i > p {
                    value.push(line[i]);
                    proof {
                        assert(value@ =~= line@.subrange(p + 1, i + 1));
                    }
                }
                i = i + 1;
            }
            proof {
                assert(value@ =~= line@.skip(p + 1));
            }
            Ok((name, value))
        },
    }
}

/// Reads a request line: method, resource path and version, from its first
/// three white-space separated words.
pub fn process_req_line(s: &str) -> (r: Result<(Method, Resource, Version), ParseError>)
    ensures
        match request_line_of(s@) {
            Ok((m, p, v)) => r matches Ok((m2, p2, v2)) && m2 == m && resource_path(p2) == p && v2 == v,
            Err(e) => r == Err::<(Method, Resource, Version), ParseError>(e),
        },
{
    let line = chars_of(s);
    match request_line(&line) {
        Ok((m, p, v)) => Ok((m, Resource::Path(string_of(&p)), v)),
        Err(e) => Err(e),
    }
}

/// Reads a header line: the name before its first colon and the value after
/// it, leading white space kept.
pub fn process_header_line(s: &str) -> (r: Result<(String, String), ParseError>)
    ensures
        match header_line_of(s@) {
            Ok((k, v)) => r matches Ok((k2, v2)) && k2@ == k && v2@ == v,
            Err(e) => r == Err::<(String, String), ParseError>(e),
        },
{
    let line = chars_of(s);
    match header_line(&line) {
        Ok((k, v)) => Ok((string_of(&k), string_of(&v))),
        Err(e) => Err(e),
    }
}

/// A request: method, version, resource, headers as name and value, body.
#[derive(Debug)]
pub struct HttpRequest {
    pub method: Method,
    pub version: Version,
    pub resource: Resource,
    pub header: Vec<(String, String)>,
    pub body: String,
}

impl View for HttpRequest {
    type V = RequestView;

    open spec fn view(&self) -> RequestView {
        (self.method, self.version, resource_path(self.resource), header_map(self.header@), self.body@)
    }
}

fn strip_line(line: &[char]) -> (r: Vec<char>)
    ensures
        r@ == strip_cr(line@),
{
    let mut out = copy_chars(line);
    if out.len() > 0 && out[out.len() - 1] == '\r' {
        out.pop();
        proof {
            assert(out@ =~= line@.drop_last());
        }
    }
    out
}

proof fn lemma_error_sticks(lines: Seq<Seq<char>>, j: int)
    requires
        0 <= j <= lines.len(),
        parse_lines(lines.take(j)) is Err,
    ensures
        parse_lines(lines) == parse_lines(lines.take(j)),
    decreases lines.len() - j,
{
    if j < lines.len() {
        assert(lines.take(j + 1).drop_last() =~= lines.take(j));
        lemma_error_sticks(lines, j + 1);
    } else {
        assert(lines.take(j) =~= lines);
    }
}

/// Relies on `std::str::from_utf8`: it succeeds exactly on valid UTF-8, and
/// the string it gives holds the same bytes.
#[verifier::external_body]
fn utf8_text(raw: &[u8]) -> (r: Option<&str>)
    ensures
        r is Some <==> valid_utf8(raw@),
        r matches Some(s) ==> s.spec_bytes() == raw@,
{
    std::str::from_utf8(raw).ok()
}

impl HttpRequest {
    /// Parses request text line by line (see `step`).
    pub fn parse(text: &str) -> (r: Result<HttpRequest, ParseError>)
        ensures
            match parse_text(text@) {
                Ok(v) => r matches Ok(q) && q@ == v,
                Err(e) => r == Err::<HttpRequest, ParseError>(e),
            },
            r matches Ok(q) ==> names_unique(q.header@),
    {
        let chars = chars_of(text);
        let parts = split_chars(&chars, '\n');
        let ghost lines = lines_of(text@);
        let mut method = Method::Unsupported;
        let mut version = Version::V1_1;
        let mut resource: Vec<char> = Vec::new();
        let mut headers: Vec<(String, String)> = Vec::new();
        let mut body: Vec<char> = Vec::new();
        let mut k: usize = 0;
        proof {
            assert(lines.take(0) =~= Seq::<Seq<char>>::empty());
            assert(header_map(headers@) =~= Map::<Seq<char>, Seq<char>>::empty());
            assert(initial_view().2 =~= resource@);
        }
        while k < parts.len()
            invariant
                k <= parts.len(),
                views(parts@) == split_on(text@, '\n'),
                lines == lines_of(text@),
                lines.len() == parts.len(),
                parse_lines(lines.take(k as int)) == Ok::<RequestView, ParseError>(
                    (method, version, resource@, header_map(headers@), body@),
                ),
                names_unique(headers@),
            decreases parts.len() - k,
        {
            let line = strip_line(parts[k].as_slice());
            let ghost st = (method, version, resource@, header_map(headers@), body@);
            proof {
                assert(lines.take(k + 1).drop_last() =~= lines.take(k as int));
                assert(lines[k as int] == line@);
                assert(lines.take(k + 1).last() == line@);
            }
            if holds_http(&line) {
                match request_line(&line) {
                    Ok((m, p, v)) => {
                        method = m;
                        resource = p;
                        version = v;
                    },
                    Err(e) => {
                        proof {
                            lemma_error_sticks(lines, k + 1);
                        }
                        return Err(e);
                    },
                }
            } else if colon_at(&line).is_some() {
                match header_line(&line) {
                    Ok((name, value)) => {
                        let ghost before = headers@;
                        let pair = (string_of(&name), string_of(&value));
                        match find_name(&headers, &name) {
                            Some(idx) => {
                                headers.set(idx, pair);
                                proof {
                                    lemma_header_map_replace(before, idx as int, pair);
                                    assert(headers@ =~= before.update(idx as int, pair));
                                    assert forall|a: int, b: int|
                                        0 <= a < b < headers@.len() implies #[trigger] headers@[a].0@
                                        != #[trigger] headers@[b].0@ by {
                                        assert(before[a].0@ != before[b].0@);
                                    }
                                }
                            },
                            None => {
                                headers.push(pair);
                                proof {
                                    assert(headers@.drop_last() =~= before);
                                    assert forall|a: int, b: int|
                                        0 <= a < b < headers@.len() implies #[trigger] headers@[a].0@
                                        != #[trigger] headers@[b].0@ by {
                                        if b < before.len() {
                                            assert(before[a].0@ != before[b].0@);
                                        } else {
                                            assert(before[a].0@ != name@);
                                        }
                                    }
                                }
                            },
                        }
                    },
                    Err(e) => {
                        proof {
                            lemma_error_sticks(lines, k + 1);
                        }
                        return Err(e);
                    },
                }
            } else if line.len() != 0 {
                let mut more = line;
                if body.len() > 0 {
                    body.push('\n');
                }
                body.append(&mut more);
            }
            k = k + 1;
        }
        proof {
            assert(lines.take(k as int) =~= lines);
        }
        Ok(HttpRequest {
            method,
            version,
            resource: Resource::Path(string_of(&resource)),
            header: headers,
            body: string_of(&body),
        })
    }

    /// Parses raw bytes: `MalformedEncoding` where they are not UTF-8, else
    /// as `parse` on the text they encode.
    pub fn from_bytes(raw: &[u8]) -> (r: Result<HttpRequest, ParseError>)
        ensures
            !valid_utf8(raw@) ==> r == Err::<HttpRequest, ParseError>(ParseError::MalformedEncoding),
            valid_utf8(raw@) ==> match parse_text(decode_utf8(raw@)) {
                Ok(v) => r matches Ok(q) && q@ == v,
                Err(e) => r == Err::<HttpRequest, ParseError>(e),
            },
    {
        match utf8_text(raw) {
            None => Err(ParseError::MalformedEncoding),
            Some(text) => {
                proof {
                    encode_utf8_decode_utf8(text@);
                }
                Self::parse(text)
            },
        }
    }
}

} // verus!
