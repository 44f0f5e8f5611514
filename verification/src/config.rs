//! The settings of the service and how they are read from the values that
//! the environment gives.

use crate::text::{chars_of, lower_text, same_text, text_of_range, to_lower};
use vstd::prelude::*;
use vstd::string::*;

verus! {

/// The settings of the service.
#[derive(Debug)]
pub struct Settings {
    pub host: String,
    pub port: u16,
    pub data_dir: String,
    pub max_file_size: u64,
    pub enable_cors: bool,
    pub cors_origins: Vec<String>,
    pub cors_methods: Vec<String>,
    pub cors_headers: Vec<String>,
    pub cors_allow_credentials: bool,
}

/// The settings as plain values.
pub struct SettingsView {
    pub host: Seq<char>,
    pub port: u16,
    pub data_dir: Seq<char>,
    pub max_file_size: u64,
    pub enable_cors: bool,
    pub cors_origins: Seq<Seq<char>>,
    pub cors_methods: Seq<Seq<char>>,
    pub cors_headers: Seq<Seq<char>>,
    pub cors_allow_credentials: bool,
}

impl View for Settings {
    type V = SettingsView;

    open spec fn view(&self) -> SettingsView {
        SettingsView {
            host: self.host@,
            port: self.port,
            data_dir: self.data_dir@,
            max_file_size: self.max_file_size,
            enable_cors: self.enable_cors,
            cors_origins: self.cors_origins.deep_view(),
            cors_methods: self.cors_methods.deep_view(),
            cors_headers: self.cors_headers.deep_view(),
            cors_allow_credentials: self.cors_allow_credentials,
        }
    }
}

/// What the environment gives for each setting; `None` where it gives
/// nothing.
#[derive(Debug)]
pub struct EnvValues {
    pub host: Option<String>,
    pub port: Option<String>,
    pub data_dir: Option<String>,
    pub max_file_size: Option<String>,
    pub enable_cors: Option<String>,
    pub cors_origins: Option<String>,
    pub cors_methods: Option<String>,
    pub cors_headers: Option<String>,
    pub cors_allow_credentials: Option<String>,
}

/// The settings that apply where the environment gives nothing.
pub open spec fn default_settings() -> SettingsView {
    SettingsView {
        host: "127.0.0.1"@,
        port: 8000,
        data_dir: "./data"@,
        max_file_size: 104857600,
        enable_cors: true,
        cors_origins: seq![
            "http://localhost:3000"@,
            "http://127.0.0.1:3000"@,
            "http://localhost:8080"@,
            "http://127.0.0.1:8080"@,
            "*"@,
        ],
        cors_methods: seq!["GET"@, "POST"@, "PUT"@, "DELETE"@, "OPTIONS"@],
        cors_headers: seq![
            "Content-Type"@,
            "Authorization"@,
            "X-Requested-With"@,
            "Accept"@,
            "Origin"@,
        ],
        cors_allow_credentials: false,
    }
}

/// The characters that count as white space.
pub open spec fn is_space(c: char) -> bool {
    let u = c as u32;
    ||| (0x09 <= u <= 0x0d)
    ||| u == 0x20
    ||| u == 0x85
    ||| u == 0xa0
    ||| u == 0x1680
    ||| (0x2000 <= u <= 0x200a)
    ||| u == 0x2028
    ||| u == 0x2029
    ||| u == 0x202f
    ||| u == 0x205f
    ||| u == 0x3000
}

/// How many characters at the head of `s` are white space.
pub open spec fn leading_spaces(s: Seq<char>) -> int
    decreases s.len(),
{
    if s.len() > 0 && is_space(s[0]) {
        1 + leading_spaces(s.drop_first())
    } else {
        0
    }
}

/// How many characters at the end of `s` are white space.
pub open spec fn trailing_spaces(s: Seq<char>) -> int
    decreases s.len(),
{
    if s.len() > 0 && is_space(s.last()) {
        1 + trailing_spaces(s.drop_last())
    } else {
        0
    }
}

/// `s` without the white space at its head and at its end.
pub open spec fn trimmed(s: Seq<char>) -> Seq<char> {
    let from = leading_spaces(s);
    if from == s.len() {
        Seq::empty()
    } else {
        s.subrange(from, s.len() - trailing_spaces(s))
    }
}

/// The items of a list written with commas: the pieces between the commas
/// of `s.skip(from)`, each trimmed, leaving out those that are empty then.
pub open spec fn comma_items(s: Seq<char>, from: int) -> Seq<Seq<char>>
    decreases s.len() - from,
{
    if from < 0 || from > s.len() {
        Seq::empty()
    } else {
        let end = piece_end(s, from);
        let item = trimmed(s.subrange(from, end));
        let here = if item.len() > 0 {
            seq![item]
        } else {
            Seq::empty()
        };
        if end < from || end >= s.len() {
            here
        } else {
            here + comma_items(s, end + 1)
        }
    }
}

/// Where the piece that begins at `from` ends: at the next comma, or at the
/// end of `s`.
pub open spec fn piece_end(s: Seq<char>, from: int) -> int
    decreases s.len() - from,
{
    if from < 0 || from >= s.len() {
        s.len() as int
    } else if s[from] == ',' {
        from
    } else {
        piece_end(s, from + 1)
    }
}

/// The number that a text of decimal digits stands for, read from the left;
/// `None` for anything but digits.
pub open spec fn digits_value(s: Seq<char>) -> Option<nat>
    decreases s.len(),
{
    if s.len() == 0 {
        Some(0nat)
    } else if !('0' <= s.last() && s.last() <= '9') {
        None
    } else {
        match digits_value(s.drop_last()) {
            Some(v) => Some(v * 10 + ((s.last() as u32 - '0' as u32) as nat)),
            None => None,
        }
    }
}

/// The number that a text stands for: decimal digits, at least one, which a
/// plus sign may precede. `None` for anything else.
pub open spec fn number_value(s: Seq<char>) -> Option<nat> {
    let digits = if s.len() > 0 && s[0] == '+' {
        s.drop_first()
    } else {
        s
    };
    if digits.len() == 0 {
        None
    } else {
        digits_value(digits)
    }
}

/// Whether a text says `true`, in letters of either case.
pub open spec fn says_true(s: Seq<char>) -> bool {
    lower_text(s) == "true"@
}

/// The settings read from what the environment gives: each value that is
/// given and can be read replaces the default.
pub open spec fn settings_from(
    host: Option<Seq<char>>,
    port: Option<Seq<char>>,
    data_dir: Option<Seq<char>>,
    max_file_size: Option<Seq<char>>,
    enable_cors: Option<Seq<char>>,
    cors_origins: Option<Seq<char>>,
    cors_methods: Option<Seq<char>>,
    cors_headers: Option<Seq<char>>,
    cors_allow_credentials: Option<Seq<char>>,
) -> SettingsView {
    let d = default_settings();
    SettingsView {
        host: match host {
            Some(h) => h,
            None => d.host,
        },
        port: match port {
            Some(p) => match number_value(p) {
                Some(n) => if n <= u16::MAX {
                    n as u16
                } else {
                    d.port
                },
                None => d.port,
            },
            None => d.port,
        },
        data_dir: match data_dir {
            Some(dir) => dir,
            None => d.data_dir,
        },
        max_file_size: match max_file_size {
            Some(m) => match number_value(m) {
                Some(n) => if n <= u64::MAX {
                    n as u64
                } else {
                    d.max_file_size
                },
                None => d.max_file_size,
            },
            None => d.max_file_size,
        },
        enable_cors: match enable_cors {
            Some(e) => says_true(e),
            None => d.enable_cors,
        },
        cors_origins: match cors_origins {
            Some(list) => comma_items(list, 0),
            None => d.cors_origins,
        },
        cors_methods: match cors_methods {
            Some(list) => comma_items(list, 0),
            None => d.cors_methods,
        },
        cors_headers: match cors_headers {
            Some(list) => comma_items(list, 0),
            None => d.cors_headers,
        },
        cors_allow_credentials: match cors_allow_credentials {
            Some(e) => says_true(e),
            None => d.cors_allow_credentials,
        },
    }
}

/// Whether a character counts as white space.
pub fn is_space_char(c: char) -> (r: bool)
    ensures
        r == is_space(c),
{
    let u = c as u32;
    (0x09 <= u && u <= 0x0d) || u == 0x20 || u == 0x85 || u == 0xa0 || u == 0x1680 || (0x2000 <= u
        && u <= 0x200a) || u == 0x2028 || u == 0x2029 || u == 0x202f || u == 0x205f || u == 0x3000
}

/// The characters `from..to` of `chars`, trimmed.
pub fn trimmed_range(chars: &Vec<char>, from: usize, to: usize) -> (r: String)
    requires
        from <= to <= chars.len(),
    ensures
        r@ == trimmed(chars@.subrange(from as int, to as int)),
{
    let ghost piece = chars@.subrange(from as int, to as int);
    let mut a: usize = from;
    proof {
        assert(piece.skip(0) =~= piece);
    }
    while a < to && is_space_char(chars[a])
        invariant
            from <= a <= to <= chars.len(),
            piece == chars@.subrange(from as int, to as int),
            leading_spaces(piece) == (a - from) + leading_spaces(piece.skip(a - from)),
        decreases to - a,
    {
        proof {
            let rest = piece.skip(a - from);
            assert(rest.len() > 0 && rest[0] == chars@[a as int]);
            assert(rest.drop_first() =~= piece.skip(a - from + 1));
        }
        a += 1;
    }
    proof {
        assert(piece.skip(0) =~= piece);
        let rest = piece.skip(a - from);
        if a < to {
            assert(rest.len() > 0 && rest[0] == chars@[a as int]);
        } else {
            assert(rest.len() == 0);
        }
        assert(leading_spaces(piece) == a - from);
    }
    if a == to {
        return String::new();
    }
    let mut b: usize = to;
    proof {
        assert(piece.take(piece.len() as int) =~= piece);
    }
    while b > a && is_space_char(chars[b - 1])
        invariant
            from <= a < to,
            a < b <= to <= chars.len(),
            piece == chars@.subrange(from as int, to as int),
            !is_space(chars@[a as int]),
            trailing_spaces(piece) == (to - b) + trailing_spaces(piece.take(b - from)),
        decreases b,
    {
        proof {
            let head = piece.take(b - from);
            assert(head.len() > 0 && head.last() == chars@[b - 1]);
            assert(head.drop_last() =~= piece.take(b - from - 1));
        }
        b -= 1;
    }
    proof {
        let head = piece.take(b - from);
        assert(b > a);
        assert(head.len() > 0 && head.last() == chars@[b - 1]);
        assert(trailing_spaces(piece) == to - b);
        assert(piece.subrange(a - from, b - from) =~= chars@.subrange(a as int, b as int));
    }
    text_of_range(chars, a, b)
}

/// The items of a list written with commas.
pub fn split_commas(list: &str) -> (r: Vec<String>)
    ensures
        r.deep_view() == comma_items(list@, 0),
{
    let chars = chars_of(list);
    let n = chars.len();
    let mut out: Vec<String> = Vec::new();
    let mut from: usize = 0;
    let mut done = false;
    proof {
        assert(out.deep_view() =~= Seq::<Seq<char>>::empty());
    }
    while !done
        invariant
            from <= n,
            n == chars.len(),
            chars@ == list@,
            !done ==> comma_items(list@, 0) == out.deep_view() + comma_items(list@, from as int),
            done ==> comma_items(list@, 0) == out.deep_view(),
        decreases n - from + if done { 0int } else { 1int },
    {
        let mut end: usize = from;
        while end < n && chars[end] != ','
            invariant
                from <= end <= n,
                n == chars.len(),
                chars@ == list@,
                piece_end(list@, from as int) == piece_end(list@, end as int),
            decreases n - end,
        {
            end += 1;
        }
        proof {
            if end < n {
                assert(piece_end(list@, end as int) == end);
            } else {
                assert(piece_end(list@, end as int) == n);
            }
        }
        let item = trimmed_range(&chars, from, end);
        let ghost before = out.deep_view();
        let ghost rest = comma_items(list@, from as int);
        if !item.as_str().is_empty() {
            out.push(item);
            proof {
                assert(out.deep_view() =~= before.push(item@));
            }
        }
        if end >= n {
            proof {
                assert(before + rest =~= out.deep_view());
            }
            done = true;
        } else {
            proof {
                assert(out.deep_view() + comma_items(list@, end + 1) =~= before + rest);
            }
            from = end + 1;
        }
    }
    out
}

/// Reads a number written in decimal digits, which a plus sign may precede,
/// where it is at most `limit`.
pub fn parse_number(text: &str, limit: u64) -> (r: Option<u64>)
    ensures
        r == match number_value(text@) {
            Some(n) => if n <= limit {
                Some(n as u64)
            } else {
                None
            },
            None => None,
        },
{
    let chars = chars_of(text);
    let start: usize = if chars.len() > 0 && chars[0] == '+' {
        1
    } else {
        0
    };
    let ghost digits = chars@.skip(start as int);
    proof {
        assert(chars@.skip(0) =~= chars@);
        assert(chars@.skip(1) =~= chars@.drop_first());
        assert(digits.take(0).len() == 0);
        assert(number_value(text@) == if digits.len() == 0 {
            None
        } else {
            digits_value(digits)
        });
    }
    if start == chars.len() {
        return None;
    }
    let mut value: u64 = 0;
    let mut i: usize = start;
    while i < chars.len()
        invariant
            start <= i <= chars.len(),
            start < chars.len(),
            digits == chars@.skip(start as int),
            number_value(text@) == digits_value(digits),
            value <= limit,
            digits_value(digits.take(i - start)) == Some(value as nat),
        decreases chars.len() - i,
    {
        let c = chars[i];
        proof {
            let next = digits.take(i - start + 1);
            assert(next.drop_last() =~= digits.take(i - start));
            assert(next.last() == c);
        }
        if !(c >= '0' && c <= '9') {
            proof {
                lemma_digits_none(digits, i - start + 1);
                assert(digits.take(digits.len() as int) =~= digits);
            }
            return None;
        }
        let d: u64 = (c as u32 - '0' as u32) as u64;
        if d > limit || value > (limit - d) / 10 {
            proof {
                let next = digits.take(i - start + 1);
                assert(digits_value(next) == Some((value * 10 + d) as nat));
                if d <= limit {
                    assert(value * 10 + d > limit) by (nonlinear_arith)
                        requires
                            value > (limit - d) / 10,
                            d <= limit,
                            d < 10,
                    ;
                }
                lemma_digits_grow(digits, i - start + 1);
                assert(digits.take(digits.len() as int) =~= digits);
            }
            return None;
        }
        proof {
            assert(value * 10 + d <= limit) by (nonlinear_arith)
                requires
                    value <= (limit - d) / 10,
                    d <= limit,
            ;
        }
        value = value * 10 + d;
        i += 1;
    }
    proof {
        assert(digits.take(digits.len() as int) =~= digits);
    }
    Some(value)
}

/// A text with something else than a digit among its first `n` characters
/// stands for no number.
pub proof fn lemma_digits_none(s: Seq<char>, n: int)
    requires
        0 <= n <= s.len(),
        digits_value(s.take(n)) is None,
    ensures
        digits_value(s) is None,
    decreases s.len() - n,
{
    if n < s.len() {
        let next = s.take(n + 1);
        assert(next.drop_last() =~= s.take(n));
        lemma_digits_none(s, n + 1);
    } else {
        assert(s.take(n) =~= s);
    }
}

/// The number that a text stands for is not below the number that its first
/// `n` characters stand for.
pub proof fn lemma_digits_grow(s: Seq<char>, n: int)
    requires
        0 <= n <= s.len(),
    ensures
        digits_value(s) matches Some(v) ==> digits_value(s.take(n)) matches Some(w) && w <= v,
    decreases s.len() - n,
{
    if n < s.len() {
        let next = s.take(n + 1);
        assert(next.drop_last() =~= s.take(n));
        lemma_digits_grow(s, n + 1);
        if let Some(v) = digits_value(s) {
            let w = digits_value(s.take(n + 1))->Some_0;
            let u = digits_value(s.take(n))->Some_0;
            assert(u <= w) by (nonlinear_arith)
                requires
                    w >= u * 10,
            ;
        }
    } else {
        assert(s.take(n) =~= s);
    }
}

fn texts(items: [&str; 5]) -> (r: Vec<String>)
    ensures
        r.deep_view() == seq![items[0]@, items[1]@, items[2]@, items[3]@, items[4]@],
{
    let mut out: Vec<String> = Vec::new();
    out.push(items[0].to_owned());
    out.push(items[1].to_owned());
    out.push(items[2].to_owned());
    out.push(items[3].to_owned());
    out.push(items[4].to_owned());
    proof {
        assert(out.deep_view() =~= seq![items[0]@, items[1]@, items[2]@, items[3]@, items[4]@]);
    }
    out
}

impl Default for Settings {
    fn default() -> (r: Self)
        ensures
            r@ == default_settings(),
    {
        Settings {
            host: "127.0.0.1".to_string(),
            port: 8000,
            data_dir: "./data".to_string(),
            max_file_size: 104857600,
            enable_cors: true,
            cors_origins: texts(
                [
                    "http://localhost:3000",
                    "http://127.0.0.1:3000",
                    "http://localhost:8080",
                    "http://127.0.0.1:8080",
                    "*",
                ],
            ),
            cors_methods: texts(["GET", "POST", "PUT", "DELETE", "OPTIONS"]),
            cors_headers: texts(
                ["Content-Type", "Authorization", "X-Requested-With", "Accept", "Origin"],
            ),
            cors_allow_credentials: false,
        }
    }
}

/// Whether a text says `true`, in letters of either case.
pub fn is_true(text: &str) -> (r: bool)
    ensures
        r == says_true(text@),
{
    let lower = to_lower(text);
    same_text(lower.as_str(), "true")
}

impl Settings {
    /// The settings read from what the environment gives: each value that
    /// is given and can be read replaces the default.
    pub fn from_values(values: &EnvValues) -> (r: Self)
        ensures
            r@ == settings_from(
                values.host.deep_view(),
                values.port.deep_view(),
                values.data_dir.deep_view(),
                values.max_file_size.deep_view(),
                values.enable_cors.deep_view(),
                values.cors_origins.deep_view(),
                values.cors_methods.deep_view(),
                values.cors_headers.deep_view(),
                values.cors_allow_credentials.deep_view(),
            ),
    {
        let mut settings = Settings::default();
        match &values.host {
            Some(host) => {
                settings.host = host.clone();
            },
            None => {},
        }
        match &values.port {
            Some(port) => match parse_number(port.as_str(), 65535) {
                Some(n) => {
                    settings.port = n as u16;
                },
                None => {},
            },
            None => {},
        }
        match &values.data_dir {
            Some(dir) => {
                settings.data_dir = dir.clone();
            },
            None => {},
        }
        match &values.max_file_size {
            Some(size) => match parse_number(size.as_str(), u64::MAX) {
                Some(n) => {
                    settings.max_file_size = n;
                },
                None => {},
            },
            None => {},
        }
        match &values.enable_cors {
            Some(flag) => {
                settings.enable_cors = is_true(flag.as_str());
            },
            None => {},
        }
        match &values.cors_origins {
            Some(list) => {
                settings.cors_origins = split_commas(list.as_str());
            },
            None => {},
        }
        match &values.cors_methods {
            Some(list) => {
                settings.cors_methods = split_commas(list.as_str());
            },
            None => {},
        }
        match &values.cors_headers {
            Some(list) => {
                settings.cors_headers = split_commas(list.as_str());
            },
            None => {},
        }
        match &values.cors_allow_credentials {
            Some(flag) => {
                settings.cors_allow_credentials = is_true(flag.as_str());
            },
            None => {},
        }
        settings
    }
}

} // verus!
