//! The response model and its wire encoding.
use vstd::prelude::*;

use vstd::string::StringSliceAdditionalSpecFns;
use vstd::utf8::encode_utf8;

use crate::text::{
    chars_of, decimal, decimal_chars, first_index, lemma_first_index_at, push_all, string_of,
};

verus! {

/// `HTTP/1.1`
pub open spec fn http_1_1() -> Seq<char> {
    seq!['H', 'T', 'T', 'P', '/', '1', '.', '1']
}

/// The status text that goes with `code`: 200 OK, 404 Not Found, 500
/// Internal Server Error, and Bad Request for every other code.
pub open spec fn status_text_of(code: Seq<char>) -> Seq<char> {
    if code == seq!['2', '0', '0'] {
        seq!['O', 'K']
    } else if code == seq!['4', '0', '4'] {
        seq!['N', 'o', 't', ' ', 'F', 'o', 'u', 'n', 'd']
    } else if code == seq!['5', '0', '0'] {
        seq![
            'I', 'n', 't', 'e', 'r', 'n', 'a', 'l', ' ', 'S', 'e', 'r', 'v', 'e', 'r', ' ', 'E',
            'r', 'r', 'o', 'r',
        ]
    } else {
        seq!['B', 'a', 'd', ' ', 'R', 'e', 'q', 'u', 'e', 's', 't']
    }
}

/// The header given where none are: `Content-Type: text/html`.
pub open spec fn default_headers() -> Seq<(Seq<char>, Seq<char>)> {
    seq![
        (
            seq!['C', 'o', 'n', 't', 'e', 'n', 't', '-', 'T', 'y', 'p', 'e'],
            seq!['t', 'e', 'x', 't', '/', 'h', 't', 'm', 'l'],
        ),
    ]
}

/// Header pairs as character sequences.
pub open spec fn pair_views(h: Seq<(String, String)>) -> Seq<(Seq<char>, Seq<char>)> {
    h.map_values(|p: (String, String)| (p.0@, p.1@))
}

/// The header block: `name:value` and a CR LF for each header, in order.
pub open spec fn header_block(h: Seq<(Seq<char>, Seq<char>)>) -> Seq<char>
    decreases h.len(),
{
    if h.len() == 0 {
        Seq::<char>::empty()
    } else {
        header_block(h.drop_last()) + h.last().0 + seq![':'] + h.last().1 + seq!['\r', '\n']
    }
}

/// ` Content-Length: `
pub open spec fn length_label() -> Seq<char> {
    seq![' ', 'C', 'o', 'n', 't', 'e', 'n', 't', '-', 'L', 'e', 'n', 'g', 't', 'h', ':', ' ']
}

/// The number of bytes that `body` takes in UTF-8.
pub open spec fn byte_len(body: Seq<char>) -> nat {
    encode_utf8(body).len()
}

/// What a response holds: version, status code, status text, headers, body.
pub type ResponseView = (Seq<char>, Seq<char>, Seq<char>, Seq<(Seq<char>, Seq<char>)>, Seq<char>);

/// The wire text of a response: the status line, the headers, the computed
/// content length, an empty line, and the body.
pub open spec fn wire_text(r: ResponseView) -> Seq<char> {
    r.0 + seq![' '] + r.1 + seq![' '] + r.2 + seq!['\r', '\n'] + header_block(r.3) + length_label()
        + decimal(byte_len(r.4)) + seq!['\r', '\n', '\r', '\n'] + r.4
}

/// Whether an empty line (CR LF CR LF) starts at `i` in `w`.
pub open spec fn blank_at(w: Seq<char>, i: int) -> bool {
    0 <= i && i + 4 <= w.len() && w.subrange(i, i + 4) == seq!['\r', '\n', '\r', '\n']
}

/// The first position at or after `i` where an empty line starts in `w`, or -1.
pub open spec fn first_blank_from(w: Seq<char>, i: int) -> int
    decreases w.len() - i,
{
    if i < 0 || i + 4 > w.len() {
        -1
    } else if blank_at(w, i) {
        i
    } else {
        first_blank_from(w, i + 1)
    }
}

/// Reads the status line back: the text before the first carriage return.
pub open spec fn status_line_in(w: Seq<char>) -> Seq<char> {
    w.take(first_index(w, '\r'))
}

/// What follows the first space of the status line.
pub open spec fn after_version_in(w: Seq<char>) -> Seq<char> {
    let sl = status_line_in(w);
    sl.skip(first_index(sl, ' ') + 1)
}

/// Reads the status code back: between the first two spaces of the status line.
pub open spec fn status_code_in(w: Seq<char>) -> Seq<char> {
    let a = after_version_in(w);
    a.take(first_index(a, ' '))
}

/// Reads the status text back: after the second space of the status line.
pub open spec fn status_text_in(w: Seq<char>) -> Seq<char> {
    let a = after_version_in(w);
    a.skip(first_index(a, ' ') + 1)
}

/// Reads the body back: what follows the first empty line.
pub open spec fn body_in(w: Seq<char>) -> Seq<char> {
    w.skip(first_blank_from(w, 0) + 4)
}

/// The text before the first empty line.
pub open spec fn head_in(w: Seq<char>) -> Seq<char> {
    w.take(first_blank_from(w, 0))
}

/// Whether no character of `s` is `c`.
pub open spec fn lacks(s: Seq<char>, c: char) -> bool {
    forall|i: int| 0 <= i < s.len() ==> s[i] != c
}

/// Whether no header name or value holds a carriage return.
pub open spec fn headers_lack_cr(h: Seq<(Seq<char>, Seq<char>)>) -> bool {
    forall|k: int| 0 <= k < h.len() ==> lacks(#[trigger] h[k].0, '\r') && lacks(h[k].1, '\r')
}

proof fn lemma_decimal_digits(n: nat)
    ensures
        lacks(decimal(n), '\r'),
        decimal(n).len() >= 1,
    decreases n,
{
    if n >= 10 {
        lemma_decimal_digits(n / 10);
    }
}

proof fn lemma_header_block_returns(h: Seq<(Seq<char>, Seq<char>)>)
    requires
        headers_lack_cr(h),
    ensures
        forall|t: int|
            0 <= t < header_block(h).len() && #[trigger] header_block(h)[t] == '\r' ==> (t + 2 < header_block(
                h,
            ).len() && header_block(h)[t + 2] != '\r') || t + 2 == header_block(h).len(),
        header_block(h).len() == 0 || header_block(h)[0] != '\r',
    decreases h.len(),
{
    if h.len() > 0 {
        let prev = h.drop_last();
        assert forall|k: int| 0 <= k < prev.len() implies lacks(#[trigger] prev[k].0, '\r') && lacks(
            prev[k].1,
            '\r',
        ) by {
            assert(prev[k] == h[k]);
        }
        assert(headers_lack_cr(prev));
        lemma_header_block_returns(prev);
        let hp = header_block(prev);
        let name = h.last().0;
        let value = h.last().1;
        assert(lacks(name, '\r') && lacks(value, '\r')) by {
            assert(h.last() == h[h.len() - 1]);
        }
        let line = name + seq![':'] + value + seq!['\r', '\n'];
        assert(header_block(h) =~= hp + line);
        assert(line[0] != '\r') by {
            if name.len() > 0 {
                assert(line[0] == name[0]);
            } else {
                assert(line[0] == ':');
            }
        }
        assert forall|t: int|
            0 <= t < line.len() && line[t] == '\r' implies t + 2 == line.len() by {
            if t < name.len() {
                assert(line[t] == name[t]);
            } else if t == name.len() {
                assert(line[t] == ':');
            } else if t < name.len() + 1 + value.len() {
                assert(line[t] == value[t - name.len() - 1]);
            } else if t == line.len() - 1 {
                assert(line[t] == '\n');
            }
        }
    }
}

proof fn lemma_status_read(r: ResponseView)
    requires
        lacks(r.0, ' ') && lacks(r.0, '\r'),
        lacks(r.1, ' ') && lacks(r.1, '\r'),
        lacks(r.2, '\r'),
    ensures
        status_code_in(wire_text(r)) == r.1,
        status_text_in(wire_text(r)) == r.2,
{
    let w = wire_text(r);
    let sl = r.0 + seq![' '] + r.1 + seq![' '] + r.2;
    let digits = decimal(byte_len(r.4));
    let h2 = header_block(r.3) + length_label() + digits;
    let crlf = seq!['\r', '\n'];
    let blank = seq!['\r', '\n', '\r', '\n'];
    assert(w =~= sl + crlf + h2 + blank + r.4);
    // The status line ends at the first carriage return.
    assert forall|t: int| 0 <= t < sl.len() implies sl[t] != '\r' && w[t] == sl[t] by {
        if t < r.0.len() {
            assert(sl[t] == r.0[t]);
        } else if t > r.0.len() && t < r.0.len() + 1 + r.1.len() {
            assert(sl[t] == r.1[t - r.0.len() - 1]);
        } else if t > r.0.len() + r.1.len() + 1 {
            assert(sl[t] == r.2[t - r.0.len() - r.1.len() - 2]);
        }
    }
    lemma_first_index_at(w, '\r', sl.len() as int);
    assert(status_line_in(w) =~= sl);
    assert(sl[r.0.len() as int] == ' ');
    assert forall|t: int| 0 <= t < r.0.len() implies sl[t] != ' ' by {
        assert(sl[t] == r.0[t]);
    }
    lemma_first_index_at(sl, ' ', r.0.len() as int);
    let a = r.1 + seq![' '] + r.2;
    assert(after_version_in(w) =~= a);
    assert(a[r.1.len() as int] == ' ');
    assert forall|t: int| 0 <= t < r.1.len() implies a[t] != ' ' by {
        assert(a[t] == r.1[t]);
    }
    lemma_first_index_at(a, ' ', r.1.len() as int);
    assert(status_code_in(w) =~= r.1);
    assert(status_text_in(w) =~= r.2);
}

proof fn lemma_body_read(r: ResponseView)
    requires
        lacks(r.0, ' ') && lacks(r.0, '\r'),
        lacks(r.1, ' ') && lacks(r.1, '\r'),
        lacks(r.2, '\r'),
        headers_lack_cr(r.3),
    ensures
        body_in(wire_text(r)) == r.4,
        head_in(wire_text(r)).len() >= length_label().len() + decimal(byte_len(r.4)).len(),
        head_in(wire_text(r)).skip(
            head_in(wire_text(r)).len() - length_label().len() - decimal(byte_len(r.4)).len(),
        ) == length_label() + decimal(byte_len(body_in(wire_text(r)))),
{
    let w = wire_text(r);
    let sl = r.0 + seq![' '] + r.1 + seq![' '] + r.2;
    let digits = decimal(byte_len(r.4));
    let h2 = header_block(r.3) + length_label() + digits;
    let crlf = seq!['\r', '\n'];
    let blank = seq!['\r', '\n', '\r', '\n'];
    assert(w =~= sl + crlf + h2 + blank + r.4);
    lemma_decimal_digits(byte_len(r.4));
    lemma_header_block_returns(r.3);
    assert forall|t: int| 0 <= t < sl.len() implies sl[t] != '\r' by {
        if t < r.0.len() {
            assert(sl[t] == r.0[t]);
        } else if t > r.0.len() && t < r.0.len() + 1 + r.1.len() {
            assert(sl[t] == r.1[t - r.0.len() - 1]);
        } else if t > r.0.len() + r.1.len() + 1 {
            assert(sl[t] == r.2[t - r.0.len() - r.1.len() - 2]);
        }
    }
    // Carriage returns before the empty line are never two places apart.
    let p: int = (sl.len() + 2 + h2.len()) as int;
    let hb = header_block(r.3);
    let tail = length_label() + digits;
    assert(h2 =~= hb + tail);
    assert(tail[0] == ' ');
    assert forall|t: int| 0 <= t < tail.len() implies tail[t] != '\r' by {
        if t >= length_label().len() {
            assert(tail[t] == digits[t - length_label().len()]);
        }
    }
    assert(h2[0] != '\r') by {
        if hb.len() > 0 {
            assert(h2[0] == hb[0]);
        } else {
            assert(h2[0] == tail[0]);
        }
    }
    assert forall|t: int| 0 <= t < h2.len() && #[trigger] h2[t] == '\r' implies t + 2 < h2.len() && h2[t + 2]
        != '\r' by {
        if t < hb.len() {
            assert(h2[t] == hb[t]);
            if t + 2 == hb.len() {
                assert(h2[t + 2] == tail[0]);
            } else {
                assert(h2[t + 2] == hb[t + 2]);
            }
        } else {
            assert(h2[t] == tail[t - hb.len()]);
        }
    }
    assert forall|j: int| 0 <= j < p implies !blank_at(w, j) by {
        if blank_at(w, j) {
            assert(w.subrange(j, j + 4)[0] == w[j]);
            assert(w.subrange(j, j + 4)[2] == w[j + 2]);
            assert(w[j] == '\r' && w[j + 2] == '\r');
            if j < sl.len() {
                assert(w[j] == sl[j]);
            } else if j == sl.len() {
                assert(w[j + 2] == h2[0]);
            } else if j == sl.len() + 1 {
                assert(w[j] == '\n');
            } else {
                let t = j - sl.len() - 2;
                assert(w[j] == h2[t]);
                assert(w[j + 2] == h2[t + 2]);
            }
        }
    }
    assert(blank_at(w, p)) by {
        assert(w.subrange(p, p + 4) =~= blank);
    }
    lemma_first_blank(w, 0, p);
    assert(body_in(w) =~= r.4);
    assert(head_in(w) =~= sl + crlf + hb + tail);
    assert(head_in(w).skip(head_in(w).len() - tail.len()) =~= tail);
}

/// Serializing a response and reading it back gives its status code, status
/// text and body again, and the content length stated right before the empty
/// line is the byte length of the body. This holds where the version and code
/// hold no space or carriage return, and the status text and the header names
/// and values hold no carriage return.
pub proof fn law_wire_round_trip(r: ResponseView)
    requires
        lacks(r.0, ' ') && lacks(r.0, '\r'),
        lacks(r.1, ' ') && lacks(r.1, '\r'),
        lacks(r.2, '\r'),
        headers_lack_cr(r.3),
    ensures
        status_code_in(wire_text(r)) == r.1,
        status_text_in(wire_text(r)) == r.2,
        body_in(wire_text(r)) == r.4,
        head_in(wire_text(r)).len() >= length_label().len() + decimal(byte_len(r.4)).len(),
        head_in(wire_text(r)).skip(
            head_in(wire_text(r)).len() - length_label().len() - decimal(byte_len(r.4)).len(),
        ) == length_label() + decimal(byte_len(body_in(wire_text(r)))),
{
    lemma_status_read(r);
    lemma_body_read(r);
}

proof fn lemma_first_blank(w: Seq<char>, i: int, p: int)
    requires
        0 <= i <= p,
        blank_at(w, p),
        forall|j: int| i <= j < p ==> !blank_at(w, j),
    ensures
        first_blank_from(w, i) == p,
    decreases p - i,
{
    if i < p {
        lemma_first_blank(w, i + 1, p);
    }
}

/// A response: the status line's parts, headers in order, optional body.
#[derive(Debug, PartialEq, Clone)]
pub struct HttpResponse {
    version: String,
    status_code: String,
    status_text: String,
    headers: Vec<(String, String)>,
    body: Option<String>,
}

impl View for HttpResponse {
    type V = ResponseView;

    closed spec fn view(&self) -> ResponseView {
        (
            self.version@,
            self.status_code@,
            self.status_text@,
            pair_views(self.headers@),
            match self.body {
                Some(b) => b@,
                None => Seq::<char>::empty(),
            },
        )
    }
}

impl Default for HttpResponse {
    /// Status 200 OK, version HTTP/1.1, no headers, no body.
    fn default() -> (r: HttpResponse)
        ensures
            r@ == (
                http_1_1(),
                seq!['2', '0', '0'],
                seq!['O', 'K'],
                Seq::<(Seq<char>, Seq<char>)>::empty(),
                Seq::<char>::empty(),
            ),
            !r.has_body(),
    {
        let version = vec!['H', 'T', 'T', 'P', '/', '1', '.', '1'];
        let code = vec!['2', '0', '0'];
        let text = vec!['O', 'K'];
        let r = HttpResponse {
            version: string_of(&version),
            status_code: string_of(&code),
            status_text: string_of(&text),
            headers: Vec::new(),
            body: None,
        };
        proof {
            assert(r@.0 =~= http_1_1());
            assert(r@.3 =~= Seq::<(Seq<char>, Seq<char>)>::empty());
        }
        r
    }
}

impl HttpResponse {
    /// Whether a body was given.
    pub closed spec fn has_body(&self) -> bool {
        self.body is Some
    }

    /// A response with status `status_code` and the status text that goes
    /// with it, version HTTP/1.1, `headers` (a `Content-Type: text/html`
    /// header where none are given) and `body`.
    pub fn new(status_code: &str, headers: Option<Vec<(String, String)>>, body: Option<String>) -> (r:
        HttpResponse)
        ensures
            r@.0 == http_1_1(),
            r@.1 == status_code@,
            r@.2 == status_text_of(status_code@),
            r@.3 == match headers {
                Some(h) => pair_views(h@),
                None => default_headers(),
            },
            r@.4 == match body {
                Some(b) => b@,
                None => Seq::<char>::empty(),
            },
            r.has_body() == body is Some,
    {
        let code = chars_of(status_code);
        let text: Vec<char> = if code.len() == 3 && code[0] == '2' && code[1] == '0' && code[2]
            == '0' {
            proof {
                assert(code@ =~= seq!['2', '0', '0']);
            }
            vec!['O', 'K']
        } else if code.len() == 3 && code[0] == '4' && code[1] == '0' && code[2] == '4' {
            proof {
                assert(code@ =~= seq!['4', '0', '4']);
            }
            vec!['N', 'o', 't', ' ', 'F', 'o', 'u', 'n', 'd']
        } else if code.len() == 3 && code[0] == '5' && code[1] == '0' && code[2] == '0' {
            proof {
                assert(code@ =~= seq!['5', '0', '0']);
            }
            vec![
                'I', 'n', 't', 'e', 'r', 'n', 'a', 'l', ' ', 'S', 'e', 'r', 'v', 'e', 'r', ' ', 'E',
                'r', 'r', 'o', 'r',
            ]
        } else {
            proof {
                if code@ == seq!['2', '0', '0'] || code@ == seq!['4', '0', '4'] || code@ == seq![
                    '5',
                    '0',
                    '0',
                ] {
                    assert(code@.len() == 3);
                    assert(code@[0] == code[0]);
                }
            }
            vec!['B', 'a', 'd', ' ', 'R', 'e', 'q', 'u', 'e', 's', 't']
        };
        let headers = match headers {
            Some(h) => h,
            None => {
                let name = vec!['C', 'o', 'n', 't', 'e', 'n', 't', '-', 'T', 'y', 'p', 'e'];
                let value = vec!['t', 'e', 'x', 't', '/', 'h', 't', 'm', 'l'];
                let h = vec![(string_of(&name), string_of(&value))];
                proof {
                    assert(pair_views(h@) =~= default_headers());
                }
                h
            },
        };
        let version = vec!['H', 'T', 'T', 'P', '/', '1', '.', '1'];
        let r = HttpResponse {
            version: string_of(&version),
            status_code: string_of(&code),
            status_text: string_of(&text),
            headers,
            body,
        };
        proof {
            assert(r@.0 =~= http_1_1());
            assert(r@.2 =~= status_text_of(status_code@));
        }
        r
    }

    /// The response's version.
    pub fn version(&self) -> (r: &str)
        ensures
            r@ == self@.0,
    {
        self.version.as_str()
    }

    /// The response's status code.
    pub fn status_code(&self) -> (r: &str)
        ensures
            r@ == self@.1,
    {
        self.status_code.as_str()
    }

    /// The response's status text.
    pub fn status_text(&self) -> (r: &str)
        ensures
            r@ == self@.2,
    {
        self.status_text.as_str()
    }

    /// The response's headers, in order.
    pub fn headers(&self) -> (r: &[(String, String)])
        ensures
            pair_views(r@) == self@.3,
    {
        self.headers.as_slice()
    }

    /// The response's body; empty where none was given.
    pub fn body(&self) -> (r: &str)
        ensures
            r@ == self@.4,
    {
        match &self.body {
            None => {
                proof {
                    reveal_strlit("");
                }
                ""
            },
            Some(val) => val.as_str(),
        }
    }

    fn header_chars(&self) -> (r: Vec<char>)
        ensures
            r@ == header_block(self@.3),
    {
        let mut out: Vec<char> = Vec::new();
        let mut i: usize = 0;
        let ghost hv = pair_views(self.headers@);
        proof {
            assert(hv.take(0) =~= Seq::<(Seq<char>, Seq<char>)>::empty());
        }
        while i < self.headers.len()
            invariant
                i <= self.headers@.len(),
                hv == pair_views(self.headers@),
                hv == self@.3,
                out@ == header_block(hv.take(i as int)),
            decreases self.headers.len() - i,
        {
            let name = chars_of(self.headers[i].0.as_str());
            let value = chars_of(self.headers[i].1.as_str());
            push_all(&mut out, &name);
            out.push(':');
            push_all(&mut out, &value);
            out.push('\r');
            out.push('\n');
            proof {
                assert(hv.take(i + 1).drop_last() =~= hv.take(i as int));
                assert(hv[i as int] == (name@, value@));
                assert(out@ =~= header_block(hv.take(i + 1)));
            }
            i = i + 1;
        }
        proof {
            assert(hv.take(i as int) =~= hv);
        }
        out
    }

    /// The header block: `name:value` and a CR LF for each header, in order.
    pub fn header(&self) -> (r: String)
        ensures
            r@ == header_block(self@.3),
    {
        let h = self.header_chars();
        string_of(&h)
    }

    /// The response's wire text.
    pub fn to_text(&self) -> (r: String)
        ensures
            r@ == wire_text(self@),
    {
        let mut out = chars_of(self.version.as_str());
        out.push(' ');
        push_all(&mut out, &chars_of(self.status_code.as_str()));
        out.push(' ');
        push_all(&mut out, &chars_of(self.status_text.as_str()));
        out.push('\r');
        out.push('\n');
        push_all(&mut out, &self.header_chars());
        let label = vec![
            ' ', 'C', 'o', 'n', 't', 'e', 'n', 't', '-', 'L', 'e', 'n', 'g', 't', 'h', ':', ' ',
        ];
        push_all(&mut out, &label);
        let ghost head = out@;
        let body = self.body();
        let n = body.as_bytes().len();
        proof {
            assert(n as nat == byte_len(self@.4));
        }
        push_all(&mut out, &decimal_chars(n));
        out.push('\r');
        out.push('\n');
        out.push('\r');
        out.push('\n');
        push_all(&mut out, &chars_of(body));
        proof {
            assert(label@ =~= length_label());
            assert(head =~= self@.0 + seq![' '] + self@.1 + seq![' '] + self@.2 + seq!['\r', '\n']
                + header_block(self@.3) + length_label());
            assert(out@ =~= wire_text(self@));
        }
        string_of(&out)
    }

    /// Appends the response's wire bytes, its text in UTF-8, to `out`.
    pub fn send_response(&self, out: &mut Vec<u8>)
        ensures
            final(out)@ == old(out)@ + encode_utf8(wire_text(self@)),
    {
        let text = self.to_text();
        let bytes = text.as_str().as_bytes();
        let mut i: usize = 0;
        while i < bytes.len()
            invariant
                i <= bytes@.len(),
                bytes@ == encode_utf8(wire_text(self@)),
                out@ == old(out)@ + bytes@.take(i as int),
            decreases bytes.len() - i,
        {
            out.push(bytes[i]);
            i = i + 1;
            proof {
                assert(bytes@.take(i as int) =~= bytes@.take(i - 1).push(bytes@[i - 1]));
            }
        }
        proof {
            assert(bytes@.take(i as int) =~= bytes@);
        }
    }
}

} // verus!
