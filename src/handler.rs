//! The decisions of the bundled handlers: which page a path asks for, what
//! content type a file gets, which paths the order service answers. Loading
//! files and data is left to the caller.
use vstd::prelude::*;

use crate::response::{default_headers, http_1_1, pair_views, status_text_of, HttpResponse};
use crate::text::{chars_of, eq_chars, split_chars, split_on, string_of};

verus! {

/// The handler that answers every request no route matches.
pub struct PageNotFoundHandler;

/// The handler that serves static pages.
pub struct StaticPageHandler;

/// The handler of the order service.
pub struct WebServiceHandler;

/// One order, as the order service lists it.
pub struct OrderStatus {
    pub order_id: i32,
    pub order_status: String,
    pub order_date: String,
}

/// `.css`
pub open spec fn css_ext() -> Seq<char> {
    seq!['.', 'c', 's', 's']
}

/// `.js`
pub open spec fn js_ext() -> Seq<char> {
    seq!['.', 'j', 's']
}

/// Whether `s` ends with `tail`.
pub open spec fn ends_with(s: Seq<char>, tail: Seq<char>) -> bool {
    s.len() >= tail.len() && s.skip(s.len() - tail.len()) == tail
}

/// The content type of a static file: CSS, JavaScript, or HTML for every
/// other name.
pub open spec fn content_type_of(file: Seq<char>) -> Seq<char> {
    if ends_with(file, css_ext()) {
        seq!['t', 'e', 'x', 't', '/', 'c', 's', 's']
    } else if ends_with(file, js_ext()) {
        seq!['t', 'e', 'x', 't', '/', 'j', 'a', 'v', 'a', 's', 'c', 'r', 'i', 'p', 't']
    } else {
        seq!['t', 'e', 'x', 't', '/', 'h', 't', 'm', 'l']
    }
}

/// The file a static path asks for, from its second `/`-separated part:
/// the index page for an empty part, the health page for `health`, else the
/// part itself. A path without `/` asks for none.
pub open spec fn static_file_of(path: Seq<char>) -> Option<Seq<char>> {
    let parts = split_on(path, '/');
    if parts.len() < 2 {
        None
    } else if parts[1].len() == 0 {
        Some(seq!['i', 'n', 'd', 'e', 'x', '.', 'h', 't', 'm', 'l'])
    } else if parts[1] == seq!['h', 'e', 'a', 'l', 't', 'h'] {
        Some(seq!['h', 'e', 'a', 'l', 't', 'h', '.', 'h', 't', 'm', 'l'])
    } else {
        Some(parts[1])
    }
}

/// Whether a path asks for the order list: its third and fourth
/// `/`-separated parts are `shipping` and `orders`.
pub open spec fn is_orders_path(path: Seq<char>) -> bool {
    let parts = split_on(path, '/');
    parts.len() > 3 && parts[2] == seq!['s', 'h', 'i', 'p', 'p', 'i', 'n', 'g'] && parts[3] == seq![
        'o',
        'r',
        'd',
        'e',
        'r',
        's',
    ]
}

fn ends_with_chars(s: &[char], tail: &[char]) -> (r: bool)
    ensures
        r == ends_with(s@, tail@),
{
    if s.len() < tail.len() {
        return false;
    }
    let off = s.len() - tail.len();
    let mut i: usize = 0;
    while i < tail.len()
        invariant
            off == s.len() - tail.len(),
            i <= tail.len(),
            forall|t: int| 0 <= t < i ==> s@[off + t] == tail@[t],
        decreases tail.len() - i,
    {
        if s[off + i] != tail[i] {
            proof {
                assert(s@.skip(off as int)[i as int] != tail@[i as int]);
            }
            return false;
        }
        i = i + 1;
    }
    proof {
        assert(s@.skip(off as int) =~= tail@);
    }
    true
}

impl PageNotFoundHandler {
    /// The not-found response: status 404 with `page` as its body.
    pub fn handle(page: Option<String>) -> (r: HttpResponse)
        ensures
            r@.0 == http_1_1(),
            r@.1 == seq!['4', '0', '4'],
            r@.2 == status_text_of(seq!['4', '0', '4']),
            r@.3 == default_headers(),
            r@.4 == match page {
                Some(b) => b@,
                None => Seq::<char>::empty(),
            },
    {
        proof {
            reveal_strlit("404");
            assert("404"@ =~= seq!['4', '0', '4']);
        }
        HttpResponse::new("404", None, page)
    }
}

impl StaticPageHandler {
    /// The file that `path` asks for.
    pub fn file_name(path: &str) -> (r: Option<String>)
        ensures
            match static_file_of(path@) {
                None => r is None,
                Some(f) => r matches Some(s) && s@ == f,
            },
    {
        let p = chars_of(path);
        let parts = split_chars(&p, '/');
        if parts.len() < 2 {
            return None;
        }
        let part = parts[1].as_slice();
        if part.len() == 0 {
            let f = vec!['i', 'n', 'd', 'e', 'x', '.', 'h', 't', 'm', 'l'];
            return Some(string_of(&f));
        }
        let health = vec!['h', 'e', 'a', 'l', 't', 'h'];
        if eq_chars(part, &health) {
            let f = vec!['h', 'e', 'a', 'l', 't', 'h', '.', 'h', 't', 'm', 'l'];
            return Some(string_of(&f));
        }
        Some(string_of(part))
    }

    /// The content type that `file` is served with.
    pub fn content_type(file: &str) -> (r: String)
        ensures
            r@ == content_type_of(file@),
    {
        let f = chars_of(file);
        let css = vec!['.', 'c', 's', 's'];
        let js = vec!['.', 'j', 's'];
        proof {
            assert(css@ =~= css_ext());
            assert(js@ =~= js_ext());
        }
        let t = if ends_with_chars(&f, &css) {
            vec!['t', 'e', 'x', 't', '/', 'c', 's', 's']
        } else if ends_with_chars(&f, &js) {
            vec!['t', 'e', 'x', 't', '/', 'j', 'a', 'v', 'a', 's', 'c', 'r', 'i', 'p', 't']
        } else {
            vec!['t', 'e', 'x', 't', '/', 'h', 't', 'm', 'l']
        };
        proof {
            assert(t@ =~= content_type_of(file@));
        }
        string_of(&t)
    }

    /// The page response: status 200, the file's content type, `content` as body.
    pub fn handle(file: &str, content: String) -> (r: HttpResponse)
        ensures
            r@.0 == http_1_1(),
            r@.1 == seq!['2', '0', '0'],
            r@.2 == status_text_of(seq!['2', '0', '0']),
            r@.3 == seq![
                (
                    seq!['C', 'o', 'n', 't', 'e', 'n', 't', '-', 'T', 'y', 'p', 'e'],
                    content_type_of(file@),
                ),
            ],
            r@.4 == content@,
    {
        let name = vec!['C', 'o', 'n', 't', 'e', 'n', 't', '-', 'T', 'y', 'p', 'e'];
        let h = vec![(string_of(&name), Self::content_type(file))];
        proof {
            reveal_strlit("200");
            assert("200"@ =~= seq!['2', '0', '0']);
            assert(pair_views(h@) =~= seq![
                (
                    seq!['C', 'o', 'n', 't', 'e', 'n', 't', '-', 'T', 'y', 'p', 'e'],
                    content_type_of(file@),
                ),
            ]);
        }
        HttpResponse::new("200", Some(h), Some(content))
    }
}

impl WebServiceHandler {
    /// Whether `path` asks for the order list.
    pub fn is_orders_route(path: &str) -> (r: bool)
        ensures
            r == is_orders_path(path@),
    {
        let p = chars_of(path);
        let parts = split_chars(&p, '/');
        if parts.len() <= 3 {
            return false;
        }
        let shipping = vec!['s', 'h', 'i', 'p', 'p', 'i', 'n', 'g'];
        let orders = vec!['o', 'r', 'd', 'e', 'r', 's'];
        eq_chars(parts[2].as_slice(), &shipping) && eq_chars(parts[3].as_slice(), &orders)
    }

    /// The order list response: status 200, JSON content type, `orders_json` as body.
    pub fn handle(orders_json: String) -> (r: HttpResponse)
        ensures
            r@.0 == http_1_1(),
            r@.1 == seq!['2', '0', '0'],
            r@.2 == status_text_of(seq!['2', '0', '0']),
            r@.3 == seq![
                (
                    seq!['C', 'o', 'n', 't', 'e', 'n', 't', '-', 'T', 'y', 'p', 'e'],
                    seq![
                        'a', 'p', 'p', 'l', 'i', 'c', 'a', 't', 'i', 'o', 'n', '/', 'j', 's', 'o',
                        'n',
                    ],
                ),
            ],
            r@.4 == orders_json@,
    {
        let name = vec!['C', 'o', 'n', 't', 'e', 'n', 't', '-', 'T', 'y', 'p', 'e'];
        let value = vec![
            'a', 'p', 'p', 'l', 'i', 'c', 'a', 't', 'i', 'o', 'n', '/', 'j', 's', 'o', 'n',
        ];
        let h = vec![(string_of(&name), string_of(&value))];
        proof {
            reveal_strlit("200");
            assert("200"@ =~= seq!['2', '0', '0']);
            assert(pair_views(h@) =~= seq![(name@, value@)]);
        }
        HttpResponse::new("200", Some(h), Some(orders_json))
    }
}

} // verus!
