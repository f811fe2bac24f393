//! The Caddyfile codec: host blocks are read from the whole document and
//! written into its dynamic region.
use vstd::prelude::*;
use crate::host::{AppError, ErrorKind, Host, HostV, views};
use crate::text::{
    CharClass, chars_of, find_literal, has_at, has_literal, is_digit, is_space,
    lemma_find_from, lemma_run_end, literal_within, occurs_within, push_chars, push_literal,
    run_end, skip_run, slice_chars, sole_at, space_char, string_of,
};

verus! {

// ---------------------------------------------------------------------------
// Decimal numbers
pub open spec fn digit_char(d: nat) -> char {
    if d == 0 {
        '0'
    } else if d == 1 {
        '1'
    } else if d == 2 {
        '2'
    } else if d == 3 {
        '3'
    } else if d == 4 {
        '4'
    } else if d == 5 {
        '5'
    } else if d == 6 {
        '6'
    } else if d == 7 {
        '7'
    } else if d == 8 {
        '8'
    } else {
        '9'
    }
}

pub open spec fn digit_value(c: char) -> nat {
    ((c as u32) as int - 48) as nat
}

/// The decimal digits of `n`, without leading zeros.
pub open spec fn decimal(n: nat) -> Seq<char>
    decreases n,
{
    if n < 10 {
        seq![digit_char(n)]
    } else {
        decimal(n / 10) + seq![digit_char(n % 10)]
    }
}

/// The number that a sequence of decimal digits denotes.
pub open spec fn digits_value(d: Seq<char>) -> nat
    decreases d.len(),
{
    if d.len() == 0 {
        0
    } else {
        digits_value(d.drop_last()) * 10 + digit_value(d.last())
    }
}

/// The port that a run of digits gives: its value where that fits in 16 bits, else 80.
pub open spec fn port_of(d: Seq<char>) -> u16 {
    if digits_value(d) <= 65535 {
        digits_value(d) as u16
    } else {
        80
    }
}

fn digit_of(d: u64) -> (r: char)
    requires
        d < 10,
    ensures
        r == digit_char(d as nat),
{
    if d == 0 {
        '0'
    } else if d == 1 {
        '1'
    } else if d == 2 {
        '2'
    } else if d == 3 {
        '3'
    } else if d == 4 {
        '4'
    } else if d == 5 {
        '5'
    } else if d == 6 {
        '6'
    } else if d == 7 {
        '7'
    } else if d == 8 {
        '8'
    } else {
        '9'
    }
}

/// Appends the decimal digits of `n` to `out`.
pub fn push_decimal(out: &mut Vec<char>, n: u64)
    ensures
        final(out)@ == old(out)@ + decimal(n as nat),
    decreases n,
{
    if n >= 10 {
        push_decimal(out, n / 10);
    }
    out.push(digit_of(n % 10));
    assert(final(out)@ =~= old(out)@ + decimal(n as nat));
}

proof fn lemma_digits_value_grows(d: Seq<char>, c: char)
    ensures
        digits_value(d.push(c)) >= digits_value(d),
        digits_value(d.push(c)) == digits_value(d) * 10 + digit_value(c),
{
    assert(d.push(c).drop_last() =~= d);
}

/// The port written in the digits `s[a..b]`.
pub fn parse_port(s: &Vec<char>, a: usize, b: usize) -> (r: u16)
    requires
        a <= b <= s@.len(),
        forall|j: int| a <= j < b ==> is_digit(#[trigger] s@[j]),
    ensures
        r == port_of(s@.subrange(a as int, b as int)),
{
    let mut acc: u32 = 0;
    let mut big = false;
    let mut j: usize = a;
    assert(s@.subrange(a as int, a as int).len() == 0);
    while j < b
        invariant
            a <= j <= b <= s@.len(),
            forall|t: int| a <= t < b ==> is_digit(#[trigger] s@[t]),
            big ==> digits_value(s@.subrange(a as int, j as int)) > 65535,
            !big ==> acc as nat == digits_value(s@.subrange(a as int, j as int)) && acc <= 65535,
        decreases b - j,
    {
        let c = s[j];
        proof {
            assert(s@.subrange(a as int, j + 1) =~= s@.subrange(a as int, j as int).push(c));
            lemma_digits_value_grows(s@.subrange(a as int, j as int), c);
            assert(is_digit(s@[j as int]));
        }
        if !big {
            let v = acc * 10 + ((c as u32) - 48);
            if v > 65535 {
                big = true;
            } else {
                acc = v;
            }
        }
        j = j + 1;
    }
    if big {
        80
    } else {
        acc as u16
    }
}

// ---------------------------------------------------------------------------
// Reading host blocks
/// The upstream target of a `reverse_proxy` directive that starts at `p`:
/// where the address starts and ends, where the port digits end, and the
/// scheme written before the address (`Some(true)` for https, `Some(false)`
/// for http), if one is.
pub open spec fn target_at(s: Seq<char>, p: int) -> Option<(int, int, int, Option<bool>)> {
    if !has_at(s, p, "reverse_proxy"@) {
        None
    } else {
        let a = p + "reverse_proxy"@.len();
        let b = run_end(s, a, CharClass::Space);
        let explicit: Option<bool> = if has_at(s, b, "https://"@) {
            Some(true)
        } else if has_at(s, b, "http://"@) {
            Some(false)
        } else {
            None
        };
        let c = match explicit {
            Some(true) => b + "https://"@.len(),
            Some(false) => b + "http://"@.len(),
            None => b,
        };
        let d = run_end(s, c, CharClass::Target);
        if b == a || d == c || !(d < s.len() && s[d] == ':') {
            None
        } else {
            let e = run_end(s, d + 1, CharClass::Digit);
            if e == d + 1 {
                None
            } else {
                Some((c, d, e, explicit))
            }
        }
    }
}

/// The last position in `lo..=p` where a `reverse_proxy` directive with a
/// target starts.
pub open spec fn last_target(s: Seq<char>, lo: int, p: int) -> Option<int>
    decreases p - lo + 1,
{
    if p < lo {
        None
    } else if target_at(s, p) is Some {
        Some(p)
    } else {
        last_target(s, lo, p - 1)
    }
}

/// The scheme of a host block: the one written before the address, else
/// https for port 443 or a block that mentions "tls", else http.
pub open spec fn scheme_of(explicit: Option<bool>, port: u16, mentions_tls: bool) -> Seq<char> {
    match explicit {
        Some(true) => "https"@,
        Some(false) => "http"@,
        None => if port == 443 || mentions_tls {
            "https"@
        } else {
            "http"@
        },
    }
}

/// The host block that starts at position `i`, with the position where its
/// match ends: a label, a `{`, a body without `}` up to the last
/// `reverse_proxy` directive that has a target, and that target.
pub open spec fn match_at(s: Seq<char>, i: int) -> Option<(int, HostV)> {
    let n = run_end(s, i, CharClass::Name);
    let w = run_end(s, n, CharClass::Space);
    if n == i || !(w < s.len() && s[w] == '{') {
        None
    } else {
        let c = run_end(s, w + 1, CharClass::Body);
        match last_target(s, w + 1, c) {
            None => None,
            Some(p) => match target_at(s, p) {
                None => None,
                Some((ts, te, e, explicit)) => {
                    let port = port_of(s.subrange(te + 1, e));
                    let scheme = scheme_of(explicit, port, occurs_within(s, i, e, "tls"@));
                    Some((e, HostV { name: s.subrange(i, n), ip: s.subrange(ts, te), port, scheme }))
                },
            },
        }
    }
}

/// The hosts of the blocks found from position `i` on, each search going on
/// where the previous block's match ended.
pub open spec fn parse_from(s: Seq<char>, i: int) -> Seq<HostV>
    decreases s.len() - i,
{
    if i < 0 || i >= s.len() {
        seq![]
    } else {
        match match_at(s, i) {
            Some((e, h)) => if i < e <= s.len() {
                seq![h] + parse_from(s, e)
            } else {
                seq![]
            },
            None => parse_from(s, i + 1),
        }
    }
}

/// The hosts that a document describes, in document order.
pub open spec fn parse_spec(s: Seq<char>) -> Seq<HostV> {
    parse_from(s, 0)
}

pub proof fn lemma_target_at(s: Seq<char>, p: int)
    ensures
        target_at(s, p) matches Some((c, d, e, x)) ==> 0 <= p < c && c < d && d + 1 < e && e
            <= s.len() && forall|j: int| d + 1 <= j < e ==> is_digit(#[trigger] s[j]),
{
    if has_at(s, p, "reverse_proxy"@) {
        reveal_strlit("reverse_proxy");
        reveal_strlit("https://");
        reveal_strlit("http://");
        let a = p + "reverse_proxy"@.len();
        lemma_run_end(s, a, CharClass::Space);
        let b = run_end(s, a, CharClass::Space);
        let c = if has_at(s, b, "https://"@) {
            b + 8
        } else if has_at(s, b, "http://"@) {
            b + 7
        } else {
            b
        };
        if c <= s.len() {
            lemma_run_end(s, c, CharClass::Target);
            let d = run_end(s, c, CharClass::Target);
            if d < s.len() {
                lemma_run_end(s, d + 1, CharClass::Digit);
            }
        } else {
            assert(run_end(s, c, CharClass::Target) == c);
        }
    }
}

pub proof fn lemma_last_target(s: Seq<char>, lo: int, p: int)
    ensures
        last_target(s, lo, p) matches Some(q) ==> lo <= q <= p && target_at(s, q) is Some,
    decreases p - lo + 1,
{
    if p >= lo && target_at(s, p) is None {
        lemma_last_target(s, lo, p - 1);
    }
}

pub proof fn lemma_match_at(s: Seq<char>, i: int)
    requires
        0 <= i < s.len(),
    ensures
        match_at(s, i) matches Some((e, h)) ==> i < e <= s.len(),
{
    lemma_run_end(s, i, CharClass::Name);
    let n = run_end(s, i, CharClass::Name);
    lemma_run_end(s, n, CharClass::Space);
    let w = run_end(s, n, CharClass::Space);
    if n != i && w < s.len() && s[w] == '{' {
        lemma_run_end(s, w + 1, CharClass::Body);
        let c = run_end(s, w + 1, CharClass::Body);
        lemma_last_target(s, w + 1, c);
        if let Some(p) = last_target(s, w + 1, c) {
            lemma_target_at(s, p);
        }
    }
}

/// The target of a `reverse_proxy` directive that starts at `p`.
fn target(s: &Vec<char>, p: usize) -> (r: Option<(usize, usize, usize, Option<bool>)>)
    ensures
        r matches Some((c, d, e, x)) ==> target_at(s@, p as int) == Some(
            (c as int, d as int, e as int, x),
        ),
        r is None ==> target_at(s@, p as int) is None,
{
    let slen = s.len();
    if !has_literal(s, p, "reverse_proxy") {
        return None;
    }
    let a = p + "reverse_proxy".unicode_len();
    let b = skip_run(s, a, CharClass::Space);
    proof {
        lemma_run_end(s@, a as int, CharClass::Space);
    }
    let https = has_literal(s, b, "https://");
    let http = !https && has_literal(s, b, "http://");
    let c = if https {
        b + "https://".unicode_len()
    } else if http {
        b + "http://".unicode_len()
    } else {
        b
    };
    let explicit: Option<bool> = if https {
        Some(true)
    } else if http {
        Some(false)
    } else {
        None
    };
    let d = skip_run(s, c, CharClass::Target);
    proof {
        lemma_run_end(s@, c as int, CharClass::Target);
    }
    if b == a || d == c || !(d < s.len() && s[d] == ':') {
        return None;
    }
    let e = skip_run(s, d + 1, CharClass::Digit);
    if e == d + 1 {
        return None;
    }
    Some((c, d, e, explicit))
}

/// The last position in `lo..=c` where a directive with a target starts.
fn find_last_target(s: &Vec<char>, lo: usize, c: usize) -> (r: Option<usize>)
    requires
        lo <= c,
    ensures
        r matches Some(q) ==> last_target(s@, lo as int, c as int) == Some(q as int),
        r is None ==> last_target(s@, lo as int, c as int) is None,
{
    let mut q: usize = c;
    loop
        invariant
            lo <= q <= c,
            last_target(s@, lo as int, c as int) == last_target(s@, lo as int, q as int),
        decreases q,
    {
        if target(s, q).is_some() {
            return Some(q);
        }
        if q == lo {
            assert(last_target(s@, lo as int, q - 1) is None);
            return None;
        }
        q = q - 1;
    }
}

/// The host block that starts at position `i`, with the position where its match ends.
pub fn match_host(s: &Vec<char>, i: usize) -> (r: Option<(usize, Host)>)
    requires
        i < s@.len(),
    ensures
        r matches Some((e, h)) ==> match_at(s@, i as int) == Some((e as int, h@)),
        r is None ==> match_at(s@, i as int) is None,
{
    let n = skip_run(s, i, CharClass::Name);
    proof {
        lemma_run_end(s@, i as int, CharClass::Name);
    }
    if n == i {
        return None;
    }
    let w = skip_run(s, n, CharClass::Space);
    proof {
        lemma_run_end(s@, n as int, CharClass::Space);
    }
    if !(w < s.len() && s[w] == '{') {
        return None;
    }
    let c = skip_run(s, w + 1, CharClass::Body);
    proof {
        lemma_run_end(s@, w + 1, CharClass::Body);
    }
    proof {
        lemma_last_target(s@, w + 1, c as int);
    }
    match find_last_target(s, w + 1, c) {
        None => None,
        Some(p) => match target(s, p) {
            None => None,
            Some((ts, te, e, explicit)) => {
                proof {
                    lemma_target_at(s@, p as int);
                }
                let port = parse_port(s, te + 1, e);
                let tls = literal_within(s, i, e, "tls");
                let scheme = match explicit {
                    Some(true) => "https",
                    Some(false) => "http",
                    None => if port == 443 || tls {
                        "https"
                    } else {
                        "http"
                    },
                };
                let name = string_of(&slice_chars(s, i, n));
                let ip = string_of(&slice_chars(s, ts, te));
                let h = Host::new(name, ip, port, String::from_str(scheme));
                Some((e, h))
            },
        },
    }
}

/// The hosts that the config text describes, in document order.
pub fn parse_config(config: &str) -> (r: Vec<Host>)
    ensures
        views(r@) == parse_spec(config@),
{
    let s = crate::text::chars_of(config);
    let mut out: Vec<Host> = Vec::new();
    let mut i: usize = 0;
    while i < s.len()
        invariant
            i <= s@.len(),
            s@ == config@,
            views(out@) + parse_from(s@, i as int) == parse_spec(s@),
        decreases s@.len() - i,
    {
        proof {
            lemma_match_at(s@, i as int);
        }
        match match_host(&s, i) {
            Some((e, h)) => {
                let ghost before = out@;
                out.push(h);
                proof {
                    assert(views(out@) =~= views(before) + seq![h@]);
                    assert(views(out@) + parse_from(s@, e as int) =~= views(before) + parse_from(
                        s@,
                        i as int,
                    ));
                }
                i = e;
            },
            None => {
                i = i + 1;
            },
        }
    }
    assert(parse_from(s@, i as int) =~= Seq::<HostV>::empty());
    assert(views(out@) =~= views(out@) + parse_from(s@, i as int));
    out
}

// ---------------------------------------------------------------------------
// Writing host blocks
/// The marker line that opens the dynamic region.
pub open spec fn start_marker() -> Seq<char> {
    "# --- START DYNAMIC CONFIG ---"@
}

/// The marker line that closes the dynamic region.
pub open spec fn end_marker() -> Seq<char> {
    "# --- END DYNAMIC CONFIG ---"@
}

/// The text of the block rendered for one host.
pub open spec fn block_of(h: HostV) -> Seq<char> {
    h.name + " {\n    reverse_proxy "@ + h.scheme + "://"@ + h.ip + ":"@ + decimal(h.port as nat)
        + " {\n        header_up Host {upstream_hostport}\n    }\n}\n"@
}

/// The blocks of `hs`, one after the other.
pub open spec fn blocks_of(hs: Seq<HostV>) -> Seq<char>
    decreases hs.len(),
{
    if hs.len() == 0 {
        seq![]
    } else {
        blocks_of(hs.drop_last()) + block_of(hs.last())
    }
}

/// The end of `s[..j]` with trailing white space removed.
pub open spec fn trim_end_at(s: Seq<char>, j: int) -> int
    decreases j,
{
    if 0 < j <= s.len() && is_space(s[j - 1]) {
        trim_end_at(s, j - 1)
    } else {
        j
    }
}

/// `s` without leading and trailing white space.
pub open spec fn trimmed(s: Seq<char>) -> Seq<char> {
    let a = run_end(s, 0, CharClass::Space);
    if a == s.len() {
        seq![]
    } else {
        s.subrange(a, trim_end_at(s, s.len() as int))
    }
}

/// The document with its dynamic region holding the blocks of `hs`, where
/// both markers occur exactly once and in order; `None` otherwise.
pub open spec fn render_spec(doc: Seq<char>, hs: Seq<HostV>) -> Option<Seq<char>> {
    match (sole_at(doc, start_marker()), sole_at(doc, end_marker())) {
        (Some(a), Some(b)) => if a + start_marker().len() <= b {
            Some(
                doc.subrange(0, a + start_marker().len()) + "\n"@ + trimmed(blocks_of(hs)) + "\n"@
                    + doc.subrange(b, doc.len() as int),
            )
        } else {
            None
        },
        _ => None,
    }
}

/// Appends the block of `h` to `out`.
pub fn push_block(out: &mut Vec<char>, h: &Host)
    ensures
        final(out)@ == old(out)@ + block_of(h@),
{
    push_chars(out, &chars_of(h.name.as_str()));
    push_literal(out, " {\n    reverse_proxy ");
    push_chars(out, &chars_of(h.scheme.as_str()));
    push_literal(out, "://");
    push_chars(out, &chars_of(h.ip.as_str()));
    push_literal(out, ":");
    push_decimal(out, h.port as u64);
    push_literal(out, " {\n        header_up Host {upstream_hostport}\n    }\n}\n");
    assert(final(out)@ =~= old(out)@ + block_of(h@));
}

/// The characters of `s` without leading and trailing white space.
pub fn trim_chars(s: &Vec<char>) -> (r: Vec<char>)
    ensures
        r@ == trimmed(s@),
{
    let a = skip_run(s, 0, CharClass::Space);
    proof {
        lemma_run_end(s@, 0, CharClass::Space);
    }
    if a == s.len() {
        return Vec::new();
    }
    let mut j: usize = s.len();
    while j > 0 && space_char(s[j - 1])
        invariant
            a < j <= s@.len(),
            !is_space(s@[a as int]),
            trim_end_at(s@, j as int) == trim_end_at(s@, s@.len() as int),
        decreases j,
    {
        j = j - 1;
    }
    slice_chars(s, a, j)
}

/// The only position of the literal `pat` in `s`, if it occurs exactly once.
pub fn sole_literal(s: &Vec<char>, pat: &str) -> (r: Option<usize>)
    ensures
        r matches Some(a) ==> sole_at(s@, pat@) == Some(a as int),
        r is None ==> sole_at(s@, pat@) is None,
{
    proof {
        lemma_find_from(s@, pat@, 0);
    }
    match find_literal(s, pat, 0) {
        None => None,
        Some(a) => {
            if a == s.len() {
                return Some(a);
            }
            match find_literal(s, pat, a + 1) {
                None => Some(a),
                Some(_) => None,
            }
        },
    }
}

/// The error for a document whose dynamic region is missing or ambiguous.
pub fn config_error() -> (r: AppError)
    ensures
        r.kind == ErrorKind::Config,
{
    AppError {
        kind: ErrorKind::Config,
        message: String::from_str(
            "config must hold each dynamic config marker exactly once, start before end",
        ),
    }
}

/// The config text with its dynamic region rewritten to hold the blocks of
/// `hosts`; everything outside the region is kept as it is.
pub fn generate_config(current_config: &str, hosts: &[Host]) -> (r: Result<String, AppError>)
    ensures
        match render_spec(current_config@, views(hosts@)) {
            Some(t) => r matches Ok(out) && out@ == t,
            None => r matches Err(e) && e.kind == ErrorKind::Config,
        },
{
    let mut blocks: Vec<char> = Vec::new();
    let mut j: usize = 0;
    while j < hosts.len()
        invariant
            j <= hosts@.len(),
            blocks@ == blocks_of(views(hosts@.subrange(0, j as int))),
        decreases hosts@.len() - j,
    {
        push_block(&mut blocks, &hosts[j]);
        proof {
            let hs = views(hosts@.subrange(0, j + 1));
            assert(hs.drop_last() =~= views(hosts@.subrange(0, j as int)));
            assert(hs.last() == hosts@[j as int]@);
        }
        j = j + 1;
    }
    assert(hosts@.subrange(0, hosts@.len() as int) =~= hosts@);
    let s = chars_of(current_config);
    let start = "# --- START DYNAMIC CONFIG ---";
    let sa = sole_literal(&s, start);
    let end = "# --- END DYNAMIC CONFIG ---";
    let sb = sole_literal(&s, end);
    let slen = s.len();
    match (sa, sb) {
        (Some(a), Some(b)) => {
            proof {
                lemma_find_from(s@, start@, 0);
                lemma_find_from(s@, end@, 0);
            }
            let m = start.unicode_len();
            if a + m <= b {
                let mut out = slice_chars(&s, 0, a + m);
                push_literal(&mut out, "\n");
                push_chars(&mut out, &trim_chars(&blocks));
                push_literal(&mut out, "\n");
                push_chars(&mut out, &slice_chars(&s, b, s.len()));
                Ok(string_of(&out))
            } else {
                Err(config_error())
            }
        },
        _ => Err(config_error()),
    }
}

} // verus!
