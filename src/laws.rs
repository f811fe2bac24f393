//! Laws that relate the codec's reading and writing of host blocks.
use vstd::prelude::*;
use crate::codec::{
    block_of, blocks_of, decimal, digit_char, digit_value, digits_value, end_marker, last_target,
    match_at, parse_from, parse_spec, render_spec, start_marker, target_at, trim_end_at, trimmed,
};
use crate::host::HostV;
use crate::registry::{has_name, lemma_remove_absent, without_name};
use crate::text::{
    CharClass, find_from, has_at, in_class, is_name_char, is_space, lemma_find_from, lemma_run_end,
    run_end, sole_at,
};

verus! {

/// A host that the renderer writes in a form that reads back the same:
/// label and address of letters, digits, `.` and `-`, scheme http or https.
pub open spec fn host_wf(h: HostV) -> bool {
    &&& h.name.len() > 0
    &&& forall|j: int| 0 <= j < h.name.len() ==> is_name_char(#[trigger] h.name[j])
    &&& h.ip.len() > 0
    &&& forall|j: int| 0 <= j < h.ip.len() ==> is_name_char(#[trigger] h.ip[j])
    &&& (h.scheme == "http"@ || h.scheme == "https"@)
}

proof fn lemma_has_at_index(s: Seq<char>, k: int, pat: Seq<char>)
    requires
        has_at(s, k, pat),
    ensures
        forall|j: int| 0 <= j < pat.len() ==> #[trigger] s[k + j] == pat[j],
{
    assert forall|j: int| 0 <= j < pat.len() implies #[trigger] s[k + j] == pat[j] by {
        assert(s.subrange(k, k + pat.len())[j] == s[k + j]);
    }
}

proof fn lemma_run_exact(s: Seq<char>, i: int, j: int, k: CharClass)
    requires
        0 <= i <= j <= s.len(),
        forall|t: int| i <= t < j ==> in_class(#[trigger] s[t], k),
        j == s.len() || !in_class(s[j], k),
    ensures
        run_end(s, i, k) == j,
    decreases j - i,
{
    if i < j {
        lemma_run_exact(s, i + 1, j, k);
    }
}

proof fn lemma_decimal(n: nat)
    ensures
        decimal(n).len() > 0,
        forall|j: int| 0 <= j < decimal(n).len() ==> '0' <= #[trigger] decimal(n)[j] <= '9',
        digits_value(decimal(n)) == n,
    decreases n,
{
    if n >= 10 {
        lemma_decimal(n / 10);
        let d = decimal(n);
        assert(d.drop_last() =~= decimal(n / 10));
        assert(digit_value(digit_char(n % 10)) == n % 10);
        assert(d.last() == digit_char(n % 10));
        assert(digits_value(d) == digits_value(decimal(n / 10)) * 10 + digit_value(d.last()));
        assert(n == (n / 10) * 10 + n % 10);
    } else {
        assert(decimal(n).drop_last() =~= Seq::<char>::empty());
        assert(digit_value(digit_char(n)) == n);
        assert(decimal(n).last() == digit_char(n));
        assert(digits_value(decimal(n)) == digits_value(decimal(n).drop_last()) * 10
            + digit_value(decimal(n).last()));
        assert(digits_value(Seq::<char>::empty()) == 0);
    }
}

/// The characters of `s` in `lo..lo + pat.len()` are those of `pat`.
pub open spec fn piece_at(s: Seq<char>, lo: int, pat: Seq<char>) -> bool {
    &&& 0 <= lo
    &&& lo + pat.len() <= s.len()
    &&& forall|t: int| lo <= t < lo + pat.len() ==> #[trigger] s[t] == pat[t - lo]
}

/// Where the parts of the block of `h` stand when that block starts at `q`.
pub open spec fn block_layout(s: Seq<char>, q: int, h: HostV) -> bool {
    let x = q + h.name.len() + 21 + h.scheme.len() + 3;
    let e = x + h.ip.len() + 1 + decimal(h.port as nat).len();
    &&& piece_at(s, q, h.name)
    &&& piece_at(s, q + h.name.len(), " {\n    reverse_proxy "@)
    &&& piece_at(s, q + h.name.len() + 21, h.scheme)
    &&& piece_at(s, q + h.name.len() + 21 + h.scheme.len(), "://"@)
    &&& piece_at(s, x, h.ip)
    &&& s[x + h.ip.len()] == ':'
    &&& piece_at(s, x + h.ip.len() + 1, decimal(h.port as nat))
    &&& piece_at(s, e, " {\n        header_up Host {upstream_hostport}\n    }\n}\n"@)
}

proof fn lemma_block_layout(s: Seq<char>, q: int, h: HostV)
    requires
        has_at(s, q, block_of(h)),
    ensures
        block_layout(s, q, h),
        block_of(h).len() == h.name.len() + 21 + h.scheme.len() + 3 + h.ip.len() + 1 + decimal(
            h.port as nat,
        ).len() + 54,
{
    reveal_strlit(" {\n    reverse_proxy ");
    reveal_strlit("://");
    reveal_strlit(":");
    reveal_strlit(" {\n        header_up Host {upstream_hostport}\n    }\n}\n");
    let bl = block_of(h);
    lemma_has_at_index(s, q, bl);
    assert forall|t: int| q <= t < q + bl.len() implies #[trigger] s[t] == bl[t - q] by {
        assert(s[q + (t - q)] == bl[t - q]);
    }
}

proof fn lemma_last_target_skip(s: Seq<char>, lo: int, p: int, k: int)
    requires
        lo <= k <= p,
        forall|t: int| k < t <= p ==> !has_at(s, t, "reverse_proxy"@),
    ensures
        last_target(s, lo, p) == last_target(s, lo, k),
    decreases p - k,
{
    if p > k {
        assert(target_at(s, p) is None);
        lemma_last_target_skip(s, lo, p - 1, k);
    }
}

/// An occurrence of `reverse_proxy` has an `r` at its start and a `_` seven further on.
proof fn lemma_keyword_shape(s: Seq<char>, t: int)
    requires
        has_at(s, t, "reverse_proxy"@),
    ensures
        s[t] == 'r' && s[t + 7] == '_',
{
    reveal_strlit("reverse_proxy");
    lemma_has_at_index(s, t, "reverse_proxy"@);
    assert(s[t + 0] == 'r');
}

/// The block of a well-formed host, where it starts, matches with that host.
proof fn lemma_block_match(s: Seq<char>, q: int, h: HostV)
    requires
        has_at(s, q, block_of(h)),
        host_wf(h),
    ensures
        match_at(s, q) == Some(
            (
                q + h.name.len() + 21 + h.scheme.len() + 3 + h.ip.len() + 1 + decimal(
                    h.port as nat,
                ).len(),
                h,
            ),
        ),
{
    reveal_strlit(" {\n    reverse_proxy ");
    reveal_strlit("://");
    reveal_strlit(" {\n        header_up Host {upstream_hostport}\n    }\n}\n");
    reveal_strlit("reverse_proxy");
    reveal_strlit("https://");
    reveal_strlit("http://");
    reveal_strlit("https");
    reveal_strlit("http");
    lemma_block_layout(s, q, h);
    lemma_decimal(h.port as nat);
    let nn = h.name.len();
    let ss = h.scheme.len();
    let ii = h.ip.len();
    let dd = decimal(h.port as nat).len();
    let x = q + nn + 21 + ss + 3;
    let e = x + ii + 1 + dd;
    let k = q + nn + 7;
    // the label
    lemma_run_exact(s, q, q + nn, CharClass::Name);
    // the white space before the opening brace
    lemma_run_exact(s, q + nn, q + nn + 1, CharClass::Space);
    assert(s[q + nn + 1] == '{');
    // the body runs to the brace after upstream_hostport
    assert forall|t: int| q + nn + 2 <= t < e + 44 implies in_class(#[trigger] s[t], CharClass::Body) by {
        if t < q + nn + 21 {
        } else if t < q + nn + 21 + ss {
        } else if t < x {
        } else if t < x + ii {
            assert(is_name_char(h.ip[t - x]));
        } else if t < e {
        } else {
        }
    }
    lemma_run_exact(s, q + nn + 2, e + 44, CharClass::Body);
    // the directive and its target
    assert(s.subrange(k, k + 13) =~= "reverse_proxy"@);
    lemma_run_exact(s, k + 13, k + 14, CharClass::Space);
    if h.scheme == "https"@ {
        assert(s.subrange(k + 14, k + 22) =~= "https://"@);
    } else {
        assert(!has_at(s, k + 14, "https://"@)) by {
            if has_at(s, k + 14, "https://"@) {
                lemma_has_at_index(s, k + 14, "https://"@);
                assert(s[k + 14 + 4] == 's');
                assert(s[k + 18] == ':');
            }
        }
        assert(s.subrange(k + 14, k + 21) =~= "http://"@);
    }
    assert forall|t: int| x <= t < x + ii implies in_class(#[trigger] s[t], CharClass::Target) by {
        assert(is_name_char(h.ip[t - x]));
    }
    lemma_run_exact(s, x, x + ii, CharClass::Target);
    assert forall|t: int| x + ii + 1 <= t < e implies in_class(#[trigger] s[t], CharClass::Digit) by {
        assert('0' <= decimal(h.port as nat)[t - (x + ii + 1)] <= '9');
    }
    lemma_run_exact(s, x + ii + 1, e, CharClass::Digit);
    assert(target_at(s, k) is Some);
    // no later directive before the closing brace
    assert forall|t: int| k < t <= e + 44 implies !has_at(s, t, "reverse_proxy"@) by {
        if has_at(s, t, "reverse_proxy"@) {
            lemma_keyword_shape(s, t);
            if t + 7 < q + nn + 21 {
            } else if t + 7 < q + nn + 21 + ss {
            } else if t + 7 < x {
            } else if t + 7 < x + ii {
                assert(is_name_char(h.ip[t + 7 - x]));
            } else if t + 7 < e {
                assert('0' <= decimal(h.port as nat)[t + 7 - (x + ii + 1)] <= '9');
            } else {
            }
        }
    }
    lemma_last_target_skip(s, q + nn + 2, e + 44, k);
    assert(s.subrange(x + ii + 1, e) =~= decimal(h.port as nat));
    assert(s.subrange(q, q + nn) =~= h.name);
    assert(s.subrange(x, x + ii) =~= h.ip);
}

proof fn lemma_last_target_none(s: Seq<char>, lo: int, p: int)
    requires
        forall|t: int| lo <= t <= p ==> !has_at(s, t, "reverse_proxy"@),
    ensures
        last_target(s, lo, p) is None,
    decreases p - lo + 1,
{
    if p >= lo {
        assert(target_at(s, p) is None);
        lemma_last_target_none(s, lo, p - 1);
    }
}

/// The end of a block, after its target, holds no start of a match.
proof fn lemma_tail_no_match(s: Seq<char>, e: int)
    requires
        piece_at(s, e, " {\n        header_up Host {upstream_hostport}\n    }\n}\n"@),
    ensures
        forall|j: int| e <= j < e + 54 ==> match_at(s, j) is None,
{
    reveal_strlit(" {\n        header_up Host {upstream_hostport}\n    }\n}\n");
    assert forall|j: int| e <= j < e + 54 implies match_at(s, j) is None by {
        let o = j - e;
        if o < 11 || o == 17 || o == 20 || o == 25 || o == 26 || o == 35 || o >= 44 {
            assert(!is_name_char(s[j]));
        } else if o < 17 {
            lemma_run_exact(s, j, e + 17, CharClass::Name);
            lemma_run_exact(s, e + 17, e + 17, CharClass::Space);
        } else if o < 20 {
            lemma_run_exact(s, j, e + 20, CharClass::Name);
            lemma_run_exact(s, e + 20, e + 21, CharClass::Space);
        } else if o < 25 {
            lemma_run_exact(s, j, e + 25, CharClass::Name);
            lemma_run_exact(s, e + 25, e + 26, CharClass::Space);
            lemma_run_exact(s, e + 27, e + 44, CharClass::Body);
            assert forall|t: int| e + 27 <= t <= e + 44 implies !has_at(s, t, "reverse_proxy"@) by {
                if has_at(s, t, "reverse_proxy"@) {
                    lemma_keyword_shape(s, t);
                }
            }
            lemma_last_target_none(s, e + 27, e + 44);
        } else if o < 35 {
            lemma_run_exact(s, j, e + 35, CharClass::Name);
            lemma_run_exact(s, e + 35, e + 35, CharClass::Space);
        } else {
            lemma_run_exact(s, j, e + 44, CharClass::Name);
            lemma_run_exact(s, e + 44, e + 44, CharClass::Space);
        }
    }
}

proof fn lemma_skip(s: Seq<char>, i: int, q: int)
    requires
        0 <= i <= q <= s.len(),
        forall|j: int| i <= j < q ==> match_at(s, j) is None,
    ensures
        parse_from(s, i) == parse_from(s, q),
    decreases q - i,
{
    if i < q {
        lemma_skip(s, i + 1, q);
    }
}

proof fn lemma_no_brace_parse(s: Seq<char>, i: int)
    requires
        0 <= i,
        forall|t: int| i <= t < s.len() ==> s[t] != '{',
    ensures
        parse_from(s, i) == Seq::<HostV>::empty(),
    decreases s.len() - i,
{
    if i < s.len() {
        lemma_run_end(s, i, CharClass::Name);
        lemma_run_end(s, run_end(s, i, CharClass::Name), CharClass::Space);
        assert(match_at(s, i) is None);
        lemma_no_brace_parse(s, i + 1);
    }
}

proof fn lemma_block_parse(s: Seq<char>, q: int, h: HostV)
    requires
        has_at(s, q, block_of(h)),
        host_wf(h),
    ensures
        parse_from(s, q) == seq![h] + parse_from(s, q + block_of(h).len()),
{
    lemma_block_layout(s, q, h);
    lemma_block_match(s, q, h);
    lemma_decimal(h.port as nat);
    let e = q + h.name.len() + 21 + h.scheme.len() + 3 + h.ip.len() + 1 + decimal(
        h.port as nat,
    ).len();
    lemma_tail_no_match(s, e);
    lemma_skip(s, e, e + 54);
}

proof fn lemma_blocks_parse(s: Seq<char>, x: int, hs: Seq<HostV>)
    requires
        has_at(s, x, blocks_of(hs)),
        forall|j: int| 0 <= j < hs.len() ==> host_wf(#[trigger] hs[j]),
    ensures
        parse_from(s, x) == hs + parse_from(s, x + blocks_of(hs).len()),
    decreases hs.len(),
{
    if hs.len() == 0 {
        assert(hs + parse_from(s, x) =~= parse_from(s, x));
    } else {
        let init = hs.drop_last();
        let bi = blocks_of(init);
        let bl = block_of(hs.last());
        assert(blocks_of(hs) == bi + bl);
        let whole = s.subrange(x, x + bi.len() + bl.len());
        assert(whole == bi + bl);
        assert(s.subrange(x, x + bi.len()) =~= whole.subrange(0, bi.len() as int));
        assert(whole.subrange(0, bi.len() as int) =~= bi);
        assert(s.subrange(x + bi.len(), x + bi.len() + bl.len()) =~= whole.subrange(
            bi.len() as int,
            (bi.len() + bl.len()) as int,
        ));
        assert(whole.subrange(bi.len() as int, (bi.len() + bl.len()) as int) =~= bl);
        assert(s.subrange(x + bi.len(), x + bi.len() + bl.len()) =~= (bi + bl).subrange(
            bi.len() as int,
            (bi.len() + bl.len()) as int,
        ));
        assert(forall|j: int| 0 <= j < init.len() ==> host_wf(#[trigger] init[j])) by {
            assert forall|j: int| 0 <= j < init.len() implies host_wf(#[trigger] init[j]) by {
                assert(host_wf(hs[j]));
            }
        }
        lemma_blocks_parse(s, x, init);
        assert(host_wf(hs[hs.len() - 1]));
        lemma_block_parse(s, x + bi.len(), hs.last());
        assert(hs =~= init + seq![hs.last()]);
        assert(hs + parse_from(s, x + blocks_of(hs).len()) =~= init + (seq![hs.last()]
            + parse_from(s, x + bi.len() + bl.len())));
    }
}

proof fn lemma_prefix_no_match(s: Seq<char>, i: int, q: int)
    requires
        0 <= i < q < s.len(),
        forall|t: int| 0 <= t < q ==> s[t] != '{',
        !is_name_char(s[q - 1]),
        !is_space(s[q]),
        s[q] != '{',
    ensures
        match_at(s, i) is None,
{
    lemma_run_end(s, i, CharClass::Name);
    let n = run_end(s, i, CharClass::Name);
    if n > q - 1 {
        assert(in_class(s[q - 1], CharClass::Name));
    }
    lemma_run_end(s, n, CharClass::Space);
    let w = run_end(s, n, CharClass::Space);
    if w > q {
        assert(in_class(s[q], CharClass::Space));
    }
}

proof fn lemma_blocks_shape(hs: Seq<HostV>)
    requires
        hs.len() > 0,
        forall|j: int| 0 <= j < hs.len() ==> host_wf(#[trigger] hs[j]),
    ensures
        blocks_of(hs).len() >= 2,
        is_name_char(blocks_of(hs)[0]),
        blocks_of(hs)[blocks_of(hs).len() - 1] == '\n',
        blocks_of(hs)[blocks_of(hs).len() - 2] == '}',
    decreases hs.len(),
{
    reveal_strlit(" {\n        header_up Host {upstream_hostport}\n    }\n}\n");
    let init = hs.drop_last();
    let h = hs.last();
    let bl = block_of(h);
    assert(host_wf(hs[hs.len() - 1]));
    assert(bl.subrange(0, bl.len() as int) =~= bl);
    lemma_block_layout(bl, 0, h);
    lemma_decimal(h.port as nat);
    assert(is_name_char(h.name[0]));
    if init.len() > 0 {
        assert forall|j: int| 0 <= j < init.len() implies host_wf(#[trigger] init[j]) by {
            assert(host_wf(hs[j]));
        }
        lemma_blocks_shape(init);
    } else {
        assert(blocks_of(init) =~= Seq::<char>::empty());
    }
}

/// Rendering well-formed hosts into a document, then reading the result,
/// gives back the same hosts in the same order. The document has each
/// marker of the dynamic region once, in order, and no `{` outside that
/// region, so that none of its own text reads as a host block.
pub proof fn lemma_render_then_parse(doc: Seq<char>, hs: Seq<HostV>)
    requires
        render_spec(doc, hs) is Some,
        forall|j: int| 0 <= j < hs.len() ==> host_wf(#[trigger] hs[j]),
        forall|t: int|
            0 <= t < doc.len() && (t < sole_at(doc, start_marker())->0 || t >= sole_at(
                doc,
                end_marker(),
            )->0) ==> doc[t] != '{',
    ensures
        parse_spec(render_spec(doc, hs)->0) == hs,
{
    reveal_strlit("# --- START DYNAMIC CONFIG ---");
    reveal_strlit("\n");
    let start = start_marker();
    let a = sole_at(doc, start)->0;
    let b = sole_at(doc, end_marker())->0;
    lemma_find_from(doc, start, 0);
    lemma_find_from(doc, end_marker(), 0);
    lemma_has_at_index(doc, a, start);
    let pre = doc.subrange(0, a + start.len());
    let post = doc.subrange(b, doc.len() as int);
    let bs = blocks_of(hs);
    let r = render_spec(doc, hs)->0;
    assert(r == pre + "\n"@ + trimmed(bs) + "\n"@ + post);
    let p: int = pre.len() as int + 1;
    let m: int = p + bs.len() as int;
    assert forall|t: int| 0 <= t < pre.len() implies pre[t] != '{' by {
        if t >= a {
            assert(doc[a + (t - a)] == start[t - a]);
        }
    }
    if hs.len() == 0 {
        assert(bs =~= Seq::<char>::empty());
        assert(trimmed(bs) =~= Seq::<char>::empty());
        assert forall|t: int| 0 <= t < r.len() implies r[t] != '{' by {
            if t >= p + 1 {
                assert(r[t] == post[t - p - 1]);
                assert(post[t - p - 1] == doc[b + (t - p - 1)]);
                assert(doc[b + (t - p - 1)] != '{');
            } else if t < pre.len() {
                assert(r[t] == pre[t]);
            }
        }
        lemma_no_brace_parse(r, 0);
    } else {
        lemma_blocks_shape(hs);
        assert(is_space(bs[bs.len() - 1]));
        assert(trim_end_at(bs, bs.len() - 1) == bs.len() - 1);
        assert(trim_end_at(bs, bs.len() as int) == trim_end_at(bs, bs.len() - 1));
        assert(trimmed(bs) =~= bs.subrange(0, bs.len() - 1));
        assert(r.subrange(p, m) =~= bs);
        assert forall|t: int| 0 <= t < p implies r[t] != '{' by {
            if t < pre.len() {
                assert(r[t] == pre[t]);
            }
        }
        assert forall|i: int| 0 <= i < p implies match_at(r, i) is None by {
            lemma_prefix_no_match(r, i, p);
        }
        lemma_skip(r, 0, p);
        lemma_blocks_parse(r, p, hs);
        assert forall|t: int| p + bs.len() <= t < r.len() implies r[t] != '{' by {
            assert(r[t] == post[t - m]);
            assert(post[t - m] == doc[b + (t - m)]);
            assert(doc[b + (t - m)] != '{');
        }
        lemma_no_brace_parse(r, m);
        assert(hs + Seq::<HostV>::empty() =~= hs);
    }
}

proof fn lemma_block_no_hash(h: HostV)
    requires
        host_wf(h),
    ensures
        forall|t: int| 0 <= t < block_of(h).len() ==> #[trigger] block_of(h)[t] != '#',
{
    reveal_strlit(" {\n    reverse_proxy ");
    reveal_strlit("://");
    reveal_strlit(" {\n        header_up Host {upstream_hostport}\n    }\n}\n");
    reveal_strlit("https");
    reveal_strlit("http");
    let bl = block_of(h);
    assert(bl.subrange(0, bl.len() as int) =~= bl);
    lemma_block_layout(bl, 0, h);
    lemma_decimal(h.port as nat);
    let nn = h.name.len();
    let ss = h.scheme.len();
    let x = nn + 21 + ss + 3;
    let e = x + h.ip.len() + 1 + decimal(h.port as nat).len();
    assert forall|t: int| 0 <= t < bl.len() implies #[trigger] bl[t] != '#' by {
        if t < nn {
            assert(is_name_char(h.name[t]));
        } else if t < nn + 21 {
        } else if t < nn + 21 + ss {
        } else if t < x {
        } else if t < x + h.ip.len() {
            assert(is_name_char(h.ip[t - x]));
        } else if t == x + h.ip.len() {
        } else if t < e {
            assert('0' <= decimal(h.port as nat)[t - (x + h.ip.len() + 1)] <= '9');
        } else {
        }
    }
}

proof fn lemma_blocks_no_hash(hs: Seq<HostV>)
    requires
        forall|j: int| 0 <= j < hs.len() ==> host_wf(#[trigger] hs[j]),
    ensures
        forall|t: int| 0 <= t < blocks_of(hs).len() ==> #[trigger] blocks_of(hs)[t] != '#',
    decreases hs.len(),
{
    if hs.len() > 0 {
        let init = hs.drop_last();
        assert forall|j: int| 0 <= j < init.len() implies host_wf(#[trigger] init[j]) by {
            assert(host_wf(hs[j]));
        }
        lemma_blocks_no_hash(init);
        assert(host_wf(hs[hs.len() - 1]));
        lemma_block_no_hash(hs.last());
        let bi = blocks_of(init);
        let bl = block_of(hs.last());
        assert forall|t: int| 0 <= t < blocks_of(hs).len() implies #[trigger] blocks_of(hs)[t]
            != '#' by {
            if t < bi.len() {
                assert(blocks_of(hs)[t] == bi[t]);
            } else {
                assert(blocks_of(hs)[t] == bl[t - bi.len()]);
            }
        }
    }
}

proof fn lemma_find_first(s: Seq<char>, pat: Seq<char>, k: int, a: int)
    requires
        0 <= k <= a,
        has_at(s, a, pat),
        forall|j: int| k <= j < a ==> !has_at(s, j, pat),
    ensures
        find_from(s, pat, k) == Some(a),
    decreases a - k,
{
    if k < a {
        lemma_find_first(s, pat, k + 1, a);
    }
}

proof fn lemma_find_none(s: Seq<char>, pat: Seq<char>, k: int)
    requires
        0 <= k,
        forall|j: int| k <= j ==> !has_at(s, j, pat),
    ensures
        find_from(s, pat, k) is None,
    decreases s.len() + 1 - k,
{
    if k + pat.len() <= s.len() {
        lemma_find_none(s, pat, k + 1);
    }
}

proof fn lemma_trim_end_at(s: Seq<char>, j: int)
    requires
        0 <= j <= s.len(),
    ensures
        0 <= trim_end_at(s, j) <= j,
    decreases j,
{
    if 0 < j && is_space(s[j - 1]) {
        lemma_trim_end_at(s, j - 1);
    }
}

proof fn lemma_trim_end_above(s: Seq<char>, j: int, a: int)
    requires
        0 <= a < j <= s.len(),
        !is_space(s[a]),
    ensures
        a < trim_end_at(s, j),
    decreases j,
{
    if is_space(s[j - 1]) {
        lemma_trim_end_above(s, j - 1, a);
    }
}

/// Rendering keeps each marker once, in order, and the text before the
/// dynamic region and after it as it was.
proof fn lemma_render_keeps_region(doc: Seq<char>, hs: Seq<HostV>)
    requires
        render_spec(doc, hs) is Some,
        forall|j: int| 0 <= j < hs.len() ==> host_wf(#[trigger] hs[j]),
    ensures
        ({
            let r = render_spec(doc, hs)->0;
            let a = sole_at(doc, start_marker())->0;
            let b = sole_at(doc, end_marker())->0;
            let m = r.len() - (doc.len() - b);
            &&& sole_at(r, start_marker()) == Some(a)
            &&& sole_at(r, end_marker()) == Some(m)
            &&& a + start_marker().len() <= m <= r.len()
            &&& forall|t: int| 0 <= t < a ==> r[t] == doc[t]
            &&& forall|t: int| m <= t < r.len() ==> r[t] == doc[b + (t - m)]
        }),
{
    reveal_strlit("# --- START DYNAMIC CONFIG ---");
    reveal_strlit("# --- END DYNAMIC CONFIG ---");
    reveal_strlit("\n");
    let st = start_marker();
    let en = end_marker();
    let a = sole_at(doc, st)->0;
    let b = sole_at(doc, en)->0;
    lemma_find_from(doc, st, 0);
    lemma_find_from(doc, en, 0);
    lemma_find_from(doc, st, a + 1);
    lemma_find_from(doc, en, b + 1);
    let bs = blocks_of(hs);
    let tt = trimmed(bs);
    let pre = doc.subrange(0, a + st.len());
    let post = doc.subrange(b, doc.len() as int);
    let r = render_spec(doc, hs)->0;
    assert(r == pre + "\n"@ + tt + "\n"@ + post);
    let l: int = st.len() as int;
    let m: int = a + l + 1 + tt.len() + 1;
    assert(m == r.len() - (doc.len() - b));
    // where the characters of the result come from
    assert(forall|t: int| 0 <= t < a + l ==> r[t] == doc[t]);
    assert(forall|t: int| m <= t < r.len() ==> r[t] == doc[b + (t - m)]);
    lemma_blocks_no_hash(hs);
    lemma_run_end(bs, 0, CharClass::Space);
    lemma_trim_end_at(bs, bs.len() as int);
    assert forall|t: int| a < t < m implies r[t] != '#' by {
        if t < a + l {
            assert(r[t] == st[t - a]);
        } else if t == a + l || t == m - 1 {
        } else {
            let k = t - (a + l + 1);
            assert(r[t] == tt[k]);
            let lead = run_end(bs, 0, CharClass::Space);
            lemma_trim_end_above(bs, bs.len() as int, lead);
            assert(tt[k] == bs[lead + k]);
        }
    }
    // the start marker
    assert forall|j: int| 0 <= j < a implies !has_at(r, j, st) by {
        if has_at(r, j, st) {
            assert(r.subrange(j, j + l) =~= doc.subrange(j, j + l));
            assert(has_at(doc, j, st));
        }
    }
    assert(r.subrange(a, a + l) =~= doc.subrange(a, a + l));
    lemma_find_first(r, st, 0, a);
    assert forall|j: int| a + 1 <= j implies !has_at(r, j, st) by {
        if has_at(r, j, st) {
            lemma_has_at_index(r, j, st);
            assert(r[j + 0] == '#');
            if j >= m {
                assert(r.subrange(j, j + l) =~= doc.subrange(b + (j - m), b + (j - m) + l));
                assert(has_at(doc, b + (j - m), st));
            }
        }
    }
    lemma_find_none(r, st, a + 1);
    // the end marker
    let le: int = en.len() as int;
    assert forall|j: int| 0 <= j < m implies !has_at(r, j, en) by {
        if has_at(r, j, en) {
            lemma_has_at_index(r, j, en);
            assert(r[j + 0] == '#');
            if j < a {
                assert(r.subrange(j, j + le) =~= doc.subrange(j, j + le));
                assert(has_at(doc, j, en));
            } else if j == a {
                assert(r[a + 6] == st[6]);
                assert(r[j + 6] == en[6]);
                assert(st[6] == 'S');
                assert(en[6] == 'E');
            } else {
                assert(r[j] != '#');
            }
        }
    }
    assert(r.subrange(m, m + le) =~= doc.subrange(b, b + le));
    lemma_find_first(r, en, 0, m);
    assert forall|j: int| m + 1 <= j implies !has_at(r, j, en) by {
        if has_at(r, j, en) {
            assert(r.subrange(j, j + le) =~= doc.subrange(b + (j - m), b + (j - m) + le));
            assert(has_at(doc, b + (j - m), en));
        }
    }
    lemma_find_none(r, en, m + 1);
}

/// Two hosts with distinct new names, added one after the other to a
/// config, both persist: reading the text after the second add gives the
/// config's hosts followed by the two, in order. Each add renders the hosts
/// read from the text that the one before it wrote.
pub proof fn lemma_two_adds_persist(config: Seq<char>, h1: HostV, h2: HostV)
    requires
        render_spec(config, parse_spec(config).push(h1)) is Some,
        forall|t: int|
            0 <= t < config.len() && (t < sole_at(config, start_marker())->0 || t >= sole_at(
                config,
                end_marker(),
            )->0) ==> config[t] != '{',
        forall|j: int| 0 <= j < parse_spec(config).len() ==> host_wf(#[trigger] parse_spec(config)[j]),
        host_wf(h1),
        host_wf(h2),
        !has_name(parse_spec(config), h1.name),
        !has_name(parse_spec(config).push(h1), h2.name),
    ensures
        ({
            let c1 = render_spec(config, parse_spec(config).push(h1))->0;
            &&& parse_spec(c1) == parse_spec(config).push(h1)
            &&& render_spec(c1, parse_spec(c1).push(h2)) is Some
            &&& parse_spec(render_spec(c1, parse_spec(c1).push(h2))->0) == parse_spec(config).push(
                h1,
            ).push(h2)
        }),
{
    let hs1 = parse_spec(config).push(h1);
    assert forall|j: int| 0 <= j < hs1.len() implies host_wf(#[trigger] hs1[j]) by {
        if j < hs1.len() - 1 {
            assert(hs1[j] == parse_spec(config)[j]);
        }
    }
    lemma_render_then_parse(config, hs1);
    lemma_render_keeps_region(config, hs1);
    let c1 = render_spec(config, hs1)->0;
    let hs2 = hs1.push(h2);
    assert forall|j: int| 0 <= j < hs2.len() implies host_wf(#[trigger] hs2[j]) by {
        if j < hs2.len() - 1 {
            assert(hs2[j] == hs1[j]);
        }
    }
    let a = sole_at(config, start_marker())->0;
    let b = sole_at(config, end_marker())->0;
    let m = c1.len() - (config.len() - b);
    lemma_find_from(config, end_marker(), 0);
    assert(sole_at(c1, start_marker()) == Some(a));
    assert(sole_at(c1, end_marker()) == Some(m));
    assert(m <= c1.len());
    assert forall|t: int|
        0 <= t < c1.len() && (t < sole_at(c1, start_marker())->0 || t >= sole_at(
            c1,
            end_marker(),
        )->0) implies c1[t] != '{' by {
        if t >= m {
            assert(c1[t] == config[b + (t - m)]);
            assert(0 <= b + (t - m) < config.len());
            assert(config[b + (t - m)] != '{');
        } else {
            assert(t < a);
            assert(c1[t] == config[t]);
            assert(config[t] != '{');
        }
    }
    lemma_render_then_parse(c1, hs2);
}

/// Deleting a name that no host has leaves the list of hosts that the
/// written text reads back as the list that the config read before.
pub proof fn lemma_delete_absent_keeps_list(config: Seq<char>, name: Seq<char>)
    requires
        render_spec(config, parse_spec(config)) is Some,
        forall|t: int|
            0 <= t < config.len() && (t < sole_at(config, start_marker())->0 || t >= sole_at(
                config,
                end_marker(),
            )->0) ==> config[t] != '{',
        forall|j: int| 0 <= j < parse_spec(config).len() ==> host_wf(#[trigger] parse_spec(config)[j]),
        !has_name(parse_spec(config), name),
    ensures
        render_spec(config, without_name(parse_spec(config), name)) is Some,
        parse_spec(render_spec(config, without_name(parse_spec(config), name))->0) == parse_spec(
            config,
        ),
{
    lemma_remove_absent(parse_spec(config), name);
    lemma_render_then_parse(config, parse_spec(config));
}

} // verus!
