//! The host-side egress proxy's routing core: request heads, authorities, the
//! stripping of `h2c` upgrades, and what becomes of a connection.
//!
//! A client's request is routed by its `Host:` header, or by the authority of
//! a `CONNECT` request, through the registry of live box names. The proxy
//! serves plain HTTP/1.1 and `CONNECT` tunnels only.

use vstd::prelude::*;
use vstd::slice::slice_subrange;

use crate::addr::{Endpoint, IpAddr, Ipv4Addr};
use crate::dns::{Caller, CallerView, HostnameRegistry, RegistryView, Route};
use crate::policy::Direction;
use crate::switch::{proxied_request_verdict, ProxiedRequest, Refusal};
use crate::text;

verus! {

// ---------------------------------------------------------------------------
// Header lines
// ---------------------------------------------------------------------------

/// The marker that ends a request head.
pub open spec fn end_marker() -> Seq<u8> {
    text::ascii("\r\n\r\n"@)
}

/// How many bytes of `head` are the head itself: up to and including the first
/// end-of-head marker, or all of them where there is none.
pub open spec fn head_length(head: Seq<u8>) -> int {
    match text::find(head, end_marker()) {
        Some(at) => at + 4,
        None => head.len() as int,
    }
}

/// The lines of a header block, each with its terminator.
pub open spec fn lines_of(block: Seq<u8>) -> Seq<Seq<u8>>
    decreases block.len(),
{
    proof {
        text::lemma_scan(block, 10u8);
    }
    let at = text::scan(block, 10u8);
    if block.len() == 0 {
        Seq::empty()
    } else if at >= block.len() || at < 0 {
        seq![block]
    } else {
        seq![block.take(at + 1)] + lines_of(block.skip(at + 1))
    }
}

/// How many bytes of a line come before its terminator.
pub open spec fn body_length(line: Seq<u8>) -> int {
    if text::ends_with(line, text::ascii("\r\n"@)) {
        line.len() - 2
    } else if text::ends_with(line, text::ascii("\n"@)) {
        line.len() - 1
    } else {
        line.len() as int
    }
}

/// The name and the value of a header line, if it has a colon.
pub open spec fn parts_of(line: Seq<u8>) -> Option<(Seq<u8>, Seq<u8>)> {
    let body = line.take(body_length(line));
    let colon = text::scan(body, 58u8);
    if colon < body.len() {
        Some((text::trim_ascii(body.take(colon)), body.skip(colon + 1)))
    } else {
        None
    }
}

/// Whether `word` is the ASCII text `want` but for case.
pub open spec fn is_word(word: Seq<u8>, want: Seq<char>) -> bool {
    text::same_but_case(word, text::ascii(want))
}

/// The comma-separated tokens of a header value, trimmed.
pub open spec fn tokens_of(value: Seq<u8>) -> Seq<Seq<u8>> {
    text::split(value, 44u8).map_values(|t: Seq<u8>| text::trim_ascii(t))
}

/// The terminators that end a line.
proof fn lemma_terminators()
    ensures
        text::ascii("\r\n"@) == seq![13u8, 10u8],
        text::ascii("\n"@) == seq![10u8],
        end_marker() == seq![13u8, 10u8, 13u8, 10u8],
{
    reveal_strlit("\r\n");
    reveal_strlit("\n");
    reveal_strlit("\r\n\r\n");
    assert(text::ascii("\r\n"@) =~= seq![13u8, 10u8]);
    assert(text::ascii("\n"@) =~= seq![10u8]);
    assert(end_marker() =~= seq![13u8, 10u8, 13u8, 10u8]);
}

/// The lines of a header block, each with its terminator.
pub fn head_lines<'a>(headers: &'a [u8]) -> (r: Vec<&'a [u8]>)
    ensures
        r@.len() == lines_of(headers@).len(),
        forall|i: int| 0 <= i < r@.len() ==> (#[trigger] r@[i])@ == lines_of(headers@)[i],
{
    let mut out: Vec<&'a [u8]> = Vec::new();
    let mut from: usize = 0;
    let ghost all = lines_of(headers@);
    assert(headers@.skip(0) =~= headers@);
    while from < headers.len()
        invariant
            from <= headers.len(),
            all == lines_of(headers@),
            all.len() == out@.len() + lines_of(headers@.skip(from as int)).len(),
            forall|i: int| 0 <= i < out@.len() ==> (#[trigger] out@[i])@ == all[i],
            forall|i: int|
                0 <= i < lines_of(headers@.skip(from as int)).len() ==> all[out@.len() + i] == (
                #[trigger] lines_of(headers@.skip(from as int))[i]),
        decreases headers.len() - from,
    {
        let at: usize = text::scan_bytes(headers, 10, from);
        let end: usize = if at < headers.len() {
            at + 1
        } else {
            at
        };
        let line: &'a [u8] = slice_subrange(headers, from, end);
        let ghost rest = headers@.skip(from as int);
        let ghost before = out@.len();
        proof {
            text::lemma_scan(rest, 10u8);
        }
        let ghost tail = if at < headers.len() {
            lines_of(rest.skip(text::scan(rest, 10u8) + 1))
        } else {
            Seq::empty()
        };
        assert(line@ =~= (if at < headers.len() {
            rest.take(text::scan(rest, 10u8) + 1)
        } else {
            rest
        }));
        assert(lines_of(rest) =~= seq![line@] + tail);
        assert(all[before as int] == lines_of(rest)[0]);
        out.push(line);
        from = end;
        assert(at < headers@.len() ==> headers@.skip(from as int) =~= rest.skip(
            text::scan(rest, 10u8) + 1,
        ));
        assert(lines_of(headers@.skip(from as int)) =~= tail);
        assert forall|i: int| 0 <= i < tail.len() implies all[out@.len() + i] == (#[trigger] tail[i]) by {
            assert(lines_of(rest)[i + 1] == tail[i]);
            assert(all[before + (i + 1)] == lines_of(rest)[i + 1]);
        }
    }
    assert(lines_of(headers@.skip(from as int)) =~= Seq::empty());
    out
}

/// How many bytes of a line come before its terminator.
fn line_body(line: &[u8]) -> (r: usize)
    ensures
        r == body_length(line@),
        r <= line@.len(),
{
    proof {
        lemma_terminators();
    }
    let n: usize = line.len();
    assert(n >= 2 ==> line@.skip(n - 2) =~= seq![line@[n - 2], line@[n - 1]]);
    assert(n >= 1 ==> line@.skip(n - 1) =~= seq![line@[n - 1]]);
    if n >= 2 && line[n - 2] == 13 && line[n - 1] == 10 {
        n - 2
    } else if n >= 1 && line[n - 1] == 10 {
        assert(n >= 2 ==> line@.skip(n - 2)[0] != 13);
        n - 1
    } else {
        assert(n >= 2 ==> !(line@.skip(n - 2)[1] == 10 && line@.skip(n - 2)[0] == 13));
        assert(n >= 1 ==> line@.skip(n - 1)[0] != 10);
        n
    }
}

/// The name and the value of one header line, or `None` for a line without a
/// colon to split a name from.
pub fn header_parts<'a>(line: &'a [u8]) -> (r: Option<(&'a [u8], &'a [u8])>)
    ensures
        match r {
            Some((name, value)) => parts_of(line@) == Some((name@, value@)),
            None => parts_of(line@) is None,
        },
{
    let end: usize = line_body(line);
    let body: &'a [u8] = slice_subrange(line, 0, end);
    assert(body@ =~= line@.take(end as int));
    assert(body@.skip(0) =~= body@);
    let colon: usize = text::scan_bytes(body, 58, 0);
    if colon < body.len() {
        let name: &'a [u8] = slice_subrange(body, 0, colon);
        assert(name@ =~= body@.take(colon as int));
        let value: &'a [u8] = slice_subrange(body, colon + 1, body.len());
        assert(value@ =~= body@.skip(colon + 1));
        Some((text::trim_bytes(name), value))
    } else {
        None
    }
}

/// Whether `name` is the header `want`; header names know no case.
fn is_header(name: &[u8], want: &str) -> (r: bool)
    ensures
        r == is_word(name@, want@),
{
    text::eq_ignore_case(name, &text::ascii_bytes(want))
}

/// Whether `token` is `want`, but for case.
fn is_token(token: &[u8], want: &str) -> (r: bool)
    ensures
        r == is_word(token@, want@),
{
    text::eq_ignore_case(token, &text::ascii_bytes(want))
}

/// The comma-separated tokens of a header value, trimmed.
pub fn value_tokens<'a>(value: &'a [u8]) -> (r: Vec<&'a [u8]>)
    ensures
        r@.len() == tokens_of(value@).len(),
        forall|i: int| 0 <= i < r@.len() ==> (#[trigger] r@[i])@ == tokens_of(value@)[i],
{
    let pieces: Vec<&'a [u8]> = text::split_bytes(value, 44);
    let mut out: Vec<&'a [u8]> = Vec::new();
    let mut i: usize = 0;
    while i < pieces.len()
        invariant
            i <= pieces.len(),
            out@.len() == i,
            pieces@.len() == text::split(value@, 44u8).len(),
            forall|j: int| 0 <= j < pieces@.len() ==> (#[trigger] pieces@[j])@ == text::split(value@, 44u8)[j],
            forall|j: int| 0 <= j < i ==> (#[trigger] out@[j])@ == tokens_of(value@)[j],
        decreases pieces.len() - i,
    {
        let piece: &'a [u8] = pieces[i];
        out.push(text::trim_bytes(piece));
        i = i + 1;
    }
    out
}

// ---------------------------------------------------------------------------
// Stripping an h2c upgrade
// ---------------------------------------------------------------------------

/// Whether a line is an `Upgrade` header that offers `h2c`.
pub open spec fn offers_h2c(line: Seq<u8>) -> bool {
    match parts_of(line) {
        Some((name, value)) => is_word(name, "upgrade"@) && exists|i: int|
            0 <= i < tokens_of(value).len() && is_word(#[trigger] tokens_of(value)[i], "h2c"@),
        None => false,
    }
}

/// Whether a line is an `Upgrade` header that offers something beside `h2c`.
pub open spec fn offers_other(line: Seq<u8>) -> bool {
    match parts_of(line) {
        Some((name, value)) => is_word(name, "upgrade"@) && exists|i: int|
            0 <= i < tokens_of(value).len() && !is_word(#[trigger] tokens_of(value)[i], "h2c"@),
        None => false,
    }
}

/// Whether the lines of a head, after the request line, offer `h2c`.
pub open spec fn h2c_offered(lines: Seq<Seq<u8>>) -> bool {
    exists|i: int| 1 <= i < lines.len() && offers_h2c(#[trigger] lines[i])
}

/// Whether an upgrade offer is left once `h2c` is gone.
pub open spec fn offer_survives(lines: Seq<Seq<u8>>) -> bool {
    exists|i: int| 0 <= i < lines.len() && offers_other(#[trigger] lines[i])
}

/// Whether a token of an `Upgrade` header stays.
pub open spec fn upgrade_stays() -> spec_fn(Seq<u8>) -> bool {
    |t: Seq<u8>| !is_word(t, "h2c"@)
}

/// Whether a token of a `Connection` header stays: it names neither
/// `HTTP2-Settings`, nor `Upgrade` where no offer is left.
pub open spec fn connection_stays(survives: bool) -> spec_fn(Seq<u8>) -> bool {
    |t: Seq<u8>| !is_word(t, "http2-settings"@) && !(is_word(t, "upgrade"@) && !survives)
}

/// Tokens joined by a comma and a space.
pub open spec fn joined(tokens: Seq<Seq<u8>>) -> Seq<u8>
    decreases tokens.len(),
{
    if tokens.len() == 0 {
        Seq::empty()
    } else if tokens.len() == 1 {
        tokens[0]
    } else {
        joined(tokens.drop_last()) + text::ascii(", "@) + tokens.last()
    }
}

/// A header line that carries `tokens` under `name`, ended as `line` is; no
/// line at all when there are no tokens.
pub open spec fn rewritten(line: Seq<u8>, name: Seq<u8>, tokens: Seq<Seq<u8>>) -> Seq<u8> {
    if tokens.len() == 0 {
        Seq::empty()
    } else {
        name + text::ascii(": "@) + joined(tokens) + line.skip(body_length(line))
    }
}

/// What is left of one line of a head that offers `h2c`.
pub open spec fn stripped_line(line: Seq<u8>, survives: bool) -> Seq<u8> {
    match parts_of(line) {
        None => line,
        Some((name, value)) => if is_word(name, "upgrade"@) {
            rewritten(line, name, tokens_of(value).filter(upgrade_stays()))
        } else if is_word(name, "http2-settings"@) {
            Seq::empty()
        } else if is_word(name, "connection"@) {
            rewritten(line, name, tokens_of(value).filter(connection_stays(survives)))
        } else {
            line
        },
    }
}

/// What is left of the lines of a head that offers `h2c`, in a row.
pub open spec fn stripped_lines(lines: Seq<Seq<u8>>, survives: bool) -> Seq<u8>
    decreases lines.len(),
{
    if lines.len() == 0 {
        Seq::empty()
    } else {
        stripped_lines(lines.drop_last(), survives) + stripped_line(lines.last(), survives)
    }
}

/// A buffered head without an `h2c` upgrade. What follows the end-of-head
/// marker is no header and stays as it is.
pub open spec fn without_h2c(head: Seq<u8>) -> Seq<u8> {
    let n = head_length(head);
    let lines = lines_of(head.take(n));
    if h2c_offered(lines) {
        stripped_lines(lines, offer_survives(lines)) + head.skip(n)
    } else {
        head
    }
}

/// Whether one of a value's tokens is `h2c` (`want_h2c`), or one is not.
fn any_token(value: &[u8], want_h2c: bool) -> (r: bool)
    ensures
        r == exists|i: int|
            0 <= i < tokens_of(value@).len() && is_word(#[trigger] tokens_of(value@)[i], "h2c"@)
                == want_h2c,
{
    let tokens: Vec<&[u8]> = value_tokens(value);
    let mut i: usize = 0;
    while i < tokens.len()
        invariant
            i <= tokens.len(),
            tokens@.len() == tokens_of(value@).len(),
            forall|j: int| 0 <= j < tokens@.len() ==> (#[trigger] tokens@[j])@ == tokens_of(value@)[j],
            forall|j: int|
                0 <= j < i ==> is_word(#[trigger] tokens_of(value@)[j], "h2c"@) != want_h2c,
        decreases tokens.len() - i,
    {
        if is_token(tokens[i], "h2c") == want_h2c {
            assert(is_word(tokens_of(value@)[i as int], "h2c"@) == want_h2c);
            return true;
        }
        i = i + 1;
    }
    false
}

/// Whether a line is an `Upgrade` header with a token that is `h2c`
/// (`want_h2c`), or with one that is not.
fn upgrade_line(line: &[u8], want_h2c: bool) -> (r: bool)
    ensures
        r == (if want_h2c {
            offers_h2c(line@)
        } else {
            offers_other(line@)
        }),
{
    match header_parts(line) {
        Some((name, value)) => is_header(name, "upgrade") && any_token(value, want_h2c),
        None => false,
    }
}

/// Whether the head offers `h2c`: an `Upgrade` header whose tokens carry it.
/// The request line is no header.
pub fn carries_h2c(lines: &Vec<&[u8]>) -> (r: bool)
    ensures
        r == exists|i: int| 1 <= i < lines@.len() && offers_h2c((#[trigger] lines@[i])@),
{
    let mut i: usize = 1;
    while i < lines.len()
        invariant
            1 <= i,
            forall|j: int| 1 <= j < i && j < lines@.len() ==> !offers_h2c((#[trigger] lines@[j])@),
        decreases lines.len() - i,
    {
        if upgrade_line(lines[i], true) {
            assert(offers_h2c(lines@[i as int]@));
            return true;
        }
        i = i + 1;
    }
    false
}

/// The tokens of a header value that stay in an `Upgrade` header (`upgrade`),
/// or in a `Connection` header.
fn staying<'a>(value: &'a [u8], upgrade: bool, survives: bool) -> (r: Vec<&'a [u8]>)
    ensures
        r@.map_values(|t: &'a [u8]| t@) == tokens_of(value@).filter(
            if upgrade {
                upgrade_stays()
            } else {
                connection_stays(survives)
            },
        ),
{
    let ghost p = if upgrade {
        upgrade_stays()
    } else {
        connection_stays(survives)
    };
    let ghost view = |t: &'a [u8]| t@;
    let tokens: Vec<&'a [u8]> = value_tokens(value);
    let mut out: Vec<&'a [u8]> = Vec::new();
    let mut i: usize = 0;
    let ghost all = tokens_of(value@);
    proof {
        reveal(Seq::filter);
        assert(all.take(0) =~= Seq::empty());
        assert(out@.map_values(view) =~= Seq::empty());
    }
    while i < tokens.len()
        invariant
            i <= tokens.len(),
            all == tokens_of(value@),
            tokens@.len() == all.len(),
            view == (|t: &'a [u8]| t@),
            p == (if upgrade {
                upgrade_stays()
            } else {
                connection_stays(survives)
            }),
            forall|j: int| 0 <= j < tokens@.len() ==> (#[trigger] tokens@[j])@ == all[j],
            out@.map_values(view) == all.take(i as int).filter(p),
        decreases tokens.len() - i,
    {
        let token: &'a [u8] = tokens[i];
        let stays: bool = if upgrade {
            !is_token(token, "h2c")
        } else {
            !is_token(token, "http2-settings") && !(is_token(token, "upgrade") && !survives)
        };
        assert(stays == p(all[i as int]));
        proof {
            reveal(Seq::filter);
            assert(all.take(i + 1).drop_last() =~= all.take(i as int));
            assert(all.take(i + 1).last() == all[i as int]);
        }
        let ghost kept = out@;
        if stays {
            out.push(token);
            assert(out@.map_values(view) =~= kept.map_values(view).push(token@));
        }
        i = i + 1;
    }
    assert(all.take(all.len() as int) =~= all);
    out
}

/// One header line rebuilt to carry only `tokens`, with the name's own case,
/// each token's own bytes and the line's own terminator.
pub fn rewritten_header(line: &[u8], name: &[u8], tokens: &Vec<&[u8]>) -> (r: Vec<u8>)
    requires
        tokens@.len() > 0,
    ensures
        r@ == rewritten(line@, name@, tokens@.map_values(|t: &[u8]| t@)),
{
    let ghost view = |t: &[u8]| t@;
    let ghost all = tokens@.map_values(view);
    let end: usize = line_body(line);
    let mut out: Vec<u8> = Vec::new();
    text::push_bytes(&mut out, name);
    text::push_bytes(&mut out, &text::ascii_bytes(": "));
    let ghost head = name@ + text::ascii(": "@);
    assert(out@ =~= head);
    let mut i: usize = 0;
    while i < tokens.len()
        invariant
            i <= tokens.len(),
            view == (|t: &[u8]| t@),
            all == tokens@.map_values(view),
            out@ == head + joined(all.take(i as int)),
        decreases tokens.len() - i,
    {
        if i > 0 {
            text::push_bytes(&mut out, &text::ascii_bytes(", "));
        }
        text::push_bytes(&mut out, tokens[i]);
        proof {
            assert(all[i as int] == tokens@[i as int]@);
            assert(all.take(i + 1).drop_last() =~= all.take(i as int));
            assert(all.take(i + 1).last() == all[i as int]);
            assert(out@ =~= head + joined(all.take(i + 1)));
        }
        i = i + 1;
    }
    assert(all.take(all.len() as int) =~= all);
    text::push_bytes(&mut out, slice_subrange(line, end, line.len()));
    assert(line@.subrange(end as int, line@.len() as int) =~= line@.skip(end as int));
    assert(out@ =~= rewritten(line@, name@, all));
    out
}

/// What is left of one line of a head that offers `h2c`.
fn strip_line(line: &[u8], survives: bool) -> (r: Vec<u8>)
    ensures
        r@ == stripped_line(line@, survives),
{
    match header_parts(line) {
        None => text::bytes_of(line),
        Some((name, value)) => {
            let upgrade: bool = is_header(name, "upgrade");
            if !upgrade && is_header(name, "http2-settings") {
                return Vec::new();
            }
            if upgrade || is_header(name, "connection") {
                let kept: Vec<&[u8]> = staying(value, upgrade, survives);
                assert(kept@.map_values(|t: &[u8]| t@).len() == kept@.len());
                if kept.len() == 0 {
                    return Vec::new();
                }
                return rewritten_header(line, name, &kept);
            }
            text::bytes_of(line)
        },
    }
}

/// A buffered head without an `h2c` upgrade: the `h2c` token of an `Upgrade`
/// header, the `HTTP2-Settings` header, and the tokens that name them in
/// `Connection` go. Any other upgrade offer passes, with the `Connection` token
/// that belongs to it, and so does what follows the head.
pub fn strip_h2c_upgrade(head: &[u8]) -> (r: Vec<u8>)
    ensures
        r@ == without_h2c(head@),
{
    let ghost n = head_length(head@);
    proof {
        lemma_terminators();
    }
    let marker: Vec<u8> = text::ascii_bytes("\r\n\r\n");
    let total: usize = head.len();
    assert(marker@.len() == 4);
    let end: usize = match text::find_bytes(head, &marker) {
        Some(at) => at + 4,
        None => total,
    };
    assert(end == n);
    let headers: &[u8] = slice_subrange(head, 0, end);
    assert(headers@ =~= head@.take(n));
    let lines: Vec<&[u8]> = head_lines(headers);
    let ghost all = lines_of(head@.take(n));
    let carried: bool = carries_h2c(&lines);
    assert(carried == h2c_offered(all)) by {
        if h2c_offered(all) {
            let i = choose|i: int| 1 <= i < all.len() && offers_h2c(#[trigger] all[i]);
            assert(offers_h2c(lines@[i]@));
        }
        if carried {
            let i = choose|i: int| 1 <= i < lines@.len() && offers_h2c((#[trigger] lines@[i])@);
            assert(offers_h2c(all[i]));
        }
    }
    if !carried {
        return text::bytes_of(head);
    }
    let mut survives: bool = false;
    let mut i: usize = 0;
    while i < lines.len()
        invariant
            i <= lines.len(),
            lines@.len() == all.len(),
            forall|j: int| 0 <= j < lines@.len() ==> (#[trigger] lines@[j])@ == all[j],
            survives == exists|j: int| 0 <= j < i && offers_other(#[trigger] all[j]),
        decreases lines.len() - i,
    {
        let other: bool = upgrade_line(lines[i], false);
        assert(other == offers_other(all[i as int]));
        survives = survives || other;
        i = i + 1;
    }
    let mut out: Vec<u8> = Vec::new();
    let mut k: usize = 0;
    assert(all.take(0) =~= Seq::empty());
    while k < lines.len()
        invariant
            k <= lines.len(),
            lines@.len() == all.len(),
            forall|j: int| 0 <= j < lines@.len() ==> (#[trigger] lines@[j])@ == all[j],
            out@ == stripped_lines(all.take(k as int), survives),
        decreases lines.len() - k,
    {
        let left: Vec<u8> = strip_line(lines[k], survives);
        text::push_bytes(&mut out, &left);
        assert(all.take(k + 1).drop_last() =~= all.take(k as int));
        assert(all.take(k + 1).last() == all[k as int]);
        k = k + 1;
    }
    assert(all.take(all.len() as int) =~= all);
    text::push_bytes(&mut out, slice_subrange(head, end, head.len()));
    assert(head@.subrange(end as int, head@.len() as int) =~= head@.skip(n));
    out
}

// ---------------------------------------------------------------------------
// Request heads
// ---------------------------------------------------------------------------

/// The largest request head that is buffered before it is routed.
pub const MAX_HEAD: usize = 8192;

/// The upstream port of an authority that names none.
pub const DEFAULT_UPSTREAM_PORT: u16 = 80;

/// The port that the proxy listens on where none is configured.
pub const DEFAULT_EGRESS_PROXY_PORT: u16 = 7654;

/// How far the reading of a request head has come.
#[derive(Clone, Copy, Debug, PartialEq, Eq, Structural)]
pub enum HeadProgress {
    /// The end-of-head marker has arrived.
    Complete,
    /// The marker has not arrived, and more may be read.
    More,
    /// The marker has not arrived within the largest head.
    TooLarge,
    /// The stream ended before the marker.
    Ended,
}

/// How far the reading has come when `chunk` was read into `buf` last; an
/// empty chunk is the end of the stream.
pub open spec fn head_progress(buf: Seq<u8>, chunk: Seq<u8>) -> HeadProgress {
    if chunk.len() == 0 {
        HeadProgress::Ended
    } else if text::find(buf, end_marker()) is Some {
        HeadProgress::Complete
    } else if buf.len() > MAX_HEAD {
        HeadProgress::TooLarge
    } else {
        HeadProgress::More
    }
}

/// Takes a chunk that was read into the buffered head.
pub fn read_chunk(buf: &mut Vec<u8>, chunk: &[u8]) -> (r: HeadProgress)
    ensures
        final(buf)@ == old(buf)@ + chunk@,
        r == head_progress(final(buf)@, chunk@),
{
    text::push_bytes(buf, chunk);
    if chunk.len() == 0 {
        return HeadProgress::Ended;
    }
    match text::find_bytes(buf, &text::ascii_bytes("\r\n\r\n")) {
        Some(_) => HeadProgress::Complete,
        None => if buf.len() > MAX_HEAD {
            HeadProgress::TooLarge
        } else {
            HeadProgress::More
        },
    }
}

/// Whether a request opens a tunnel or is forwarded.
#[derive(Clone, Copy, Debug, PartialEq, Eq, Structural)]
pub enum RequestKind {
    Connect,
    Forward,
}

/// The parts of a request head that routing needs.
#[derive(Clone, Copy, Debug, PartialEq, Eq)]
pub struct ParsedRequest<'a> {
    pub kind: RequestKind,
    pub authority: &'a str,
}

/// The lines of a text, cut at each carriage return and line feed.
pub open spec fn crlf_lines(t: Seq<char>) -> Seq<Seq<char>>
    decreases t.len(),
{
    proof {
        text::lemma_find(t, "\r\n"@, 0);
        reveal_strlit("\r\n");
    }
    match text::find(t, "\r\n"@) {
        Some(i) => seq![t.take(i)] + crlf_lines(t.skip(i + 2)),
        None => seq![t],
    }
}

/// The value of a line that is a `Host` header.
pub open spec fn host_value(line: Seq<char>) -> Option<Seq<char>> {
    let colon = text::scan(line, ':');
    if colon < line.len() && text::lower(text::trim_white(line.take(colon))) == "host"@ {
        Some(text::trim_white(line.skip(colon + 1)))
    } else {
        None
    }
}

/// The value of the first `Host` header among `lines`.
pub open spec fn first_host(lines: Seq<Seq<char>>) -> Option<Seq<char>>
    decreases lines.len(),
{
    if lines.len() == 0 {
        None
    } else {
        match host_value(lines[0]) {
            Some(value) => Some(value),
            None => first_host(lines.drop_first()),
        }
    }
}

/// The kind and the authority of a request head, as text: `CONNECT` carries
/// the authority in its request line, any other method in its `Host` header.
pub open spec fn request_of(t: Seq<char>) -> Option<(RequestKind, Seq<char>)> {
    let lines = crlf_lines(t);
    let parts = text::split(lines[0], ' ');
    if text::lower(parts[0]) == "connect"@ {
        if parts.len() >= 2 {
            Some((RequestKind::Connect, parts[1]))
        } else {
            None
        }
    } else {
        match first_host(lines.drop_first()) {
            Some(value) => Some((RequestKind::Forward, value)),
            None => None,
        }
    }
}

/// The kind and the authority of a request head.
pub open spec fn parsed_head(head: Seq<u8>) -> Option<(RequestKind, Seq<char>)> {
    if vstd::utf8::valid_utf8(head) {
        request_of(vstd::utf8::decode_utf8(head))
    } else {
        None
    }
}

/// Where the authority of the first `Host` header stands among the lines of
/// `t` from `from` on.
fn find_host(t: &[char], from: usize) -> (r: Option<(usize, usize)>)
    requires
        from <= t.len(),
    ensures
        match r {
            Some((a, b)) => a <= b <= t@.len() && first_host(crlf_lines(t@.skip(from as int)))
                == Some(t@.subrange(a as int, b as int)),
            None => first_host(crlf_lines(t@.skip(from as int))) is None,
        },
{
    let crlf: Vec<char> = text::chars_of("\r\n");
    proof {
        reveal_strlit("\r\n");
    }
    let mut at: usize = from;
    let ghost all = crlf_lines(t@.skip(from as int));
    loop
        invariant
            from <= at <= t.len(),
            crlf@ == "\r\n"@,
            crlf@.len() == 2,
            all == crlf_lines(t@.skip(from as int)),
            first_host(all) == first_host(crlf_lines(t@.skip(at as int))),
        decreases t.len() - at,
    {
        let ghost rest = t@.skip(at as int);
        let next: Option<usize> = text::find_chars_from(t, &crlf, at);
        let end: usize = match next {
            Some(i) => i,
            None => t.len(),
        };
        let line: Vec<char> = text::chars_in(t, at, end);
        assert(line@ =~= rest.take(end - at));
        assert(crlf_lines(rest)[0] == line@) by {
            if next is None {
                assert(rest.take(end - at) =~= rest);
            }
        }
        assert(crlf_lines(rest).drop_first() =~= (if next is Some {
            crlf_lines(rest.skip(end - at + 2))
        } else {
            Seq::empty()
        }));
        assert(line@.skip(0) =~= line@);
        let colon: usize = text::scan_chars(&line, ':', 0);
        if colon < line.len() {
            let name: Vec<char> = text::chars_in(&line, 0, colon);
            assert(name@ =~= line@.take(colon as int));
            let (a, b): (usize, usize) = text::trim_white_bounds(&name);
            let trimmed: String = text::string_of(&text::chars_in(&name, a, b));
            if text::same(text::to_lower(trimmed.as_str()).as_str(), "host") {
                let value: Vec<char> = text::chars_in(&line, colon + 1, line.len());
                assert(value@ =~= line@.skip(colon + 1));
                let (x, y): (usize, usize) = text::trim_white_bounds(&value);
                let start: usize = at + colon + 1;
                assert(t@.subrange(start + x, start + y) =~= value@.subrange(x as int, y as int));
                return Some((start + x, start + y));
            }
        }
        assert(host_value(line@) is None);
        match next {
            Some(i) => {
                let ghost skipped = end - at + 2;
                at = i + 2;
                assert(t@.skip(at as int) =~= rest.skip(skipped));
            },
            None => {
                assert(first_host(crlf_lines(rest).drop_first()) is None);
                return None;
            },
        }
    }
}

/// The kind and the authority of a buffered request head, or `None` for a head
/// with no usable authority.
pub fn parse_request<'a>(head: &'a [u8]) -> (r: Option<ParsedRequest<'a>>)
    ensures
        match r {
            Some(request) => parsed_head(head@) == Some((request.kind, request.authority@)),
            None => parsed_head(head@) is None,
        },
{
    let decoded: &'a str = match text::decode(head) {
        Some(t) => t,
        None => {
            return None;
        },
    };
    let t: Vec<char> = text::chars_of(decoded);
    let crlf: Vec<char> = text::chars_of("\r\n");
    proof {
        reveal_strlit("\r\n");
        assert(t@.skip(0) =~= t@);
    }
    let next: Option<usize> = text::find_chars_from(&t, &crlf, 0);
    let end: usize = match next {
        Some(i) => i,
        None => t.len(),
    };
    let total: usize = t.len();
    assert(crlf@.len() == 2);
    assert(next is Some ==> end + 2 <= total);
    let line: Vec<char> = text::chars_in(&t, 0, end);
    let ghost lines = crlf_lines(t@);
    assert(line@ =~= t@.take(end as int));
    assert(next is None ==> t@.take(end as int) =~= t@);
    assert(lines[0] == line@);
    assert(lines.drop_first() =~= (if next is Some {
        crlf_lines(t@.skip(end + 2))
    } else {
        Seq::empty()
    }));
    assert(line@.skip(0) =~= line@);
    let space: usize = text::scan_chars(&line, ' ', 0);
    let method: String = text::string_of(&text::chars_in(&line, 0, space));
    let ghost parts = text::split(line@, ' ');
    proof {
        text::lemma_scan(line@, ' ');
        assert(method@ =~= line@.take(space as int));
        assert(space == line@.len() ==> line@.take(space as int) =~= line@);
        assert(parts[0] == method@);
    }
    if text::same(text::to_lower(method.as_str()).as_str(), "connect") {
        if space == line.len() {
            return None;
        }
        let stop: usize = text::scan_chars(&line, ' ', space + 1);
        proof {
            let tail = line@.skip(space + 1);
            text::lemma_scan(tail, ' ');
            assert(parts =~= seq![line@.take(space as int)] + text::split(tail, ' '));
            let authority = tail.take(text::scan(tail, ' '));
            assert(text::scan(tail, ' ') == tail.len() ==> authority =~= tail);
            assert(text::split(tail, ' ')[0] == authority);
            assert(t@.subrange(space + 1, stop as int) =~= authority);
        }
        return Some(
            ParsedRequest {
                kind: RequestKind::Connect,
                authority: decoded.substring_char(space + 1, stop),
            },
        );
    }
    if next.is_none() {
        return None;
    }
    match find_host(&t, end + 2) {
        Some((a, b)) => Some(
            ParsedRequest { kind: RequestKind::Forward, authority: decoded.substring_char(a, b) },
        ),
        None => None,
    }
}

/// Whether a head opens with the request line of the HTTP/2 prior-knowledge
/// preface.
pub open spec fn h2_preface(head: Seq<u8>) -> bool {
    text::starts_with(head, text::ascii("PRI * HTTP/2.0"@))
}

/// Whether the buffered head opens an HTTP/2 connection, which the proxy
/// neither speaks nor tunnels. The end-of-head marker stands inside the
/// preface, so its request line is all that can be matched.
pub fn is_h2_prior_knowledge_preface(head: &[u8]) -> (r: bool)
    ensures
        r == h2_preface(head@),
{
    assert(head@.skip(0) =~= head@);
    text::bytes_match_at(head, 0, &text::ascii_bytes("PRI * HTTP/2.0"))
}

/// The port that an authority names behind its host.
pub open spec fn port_of(authority: Seq<char>) -> Option<u16> {
    let rest = authority.skip(crate::dns::host_part(authority).len() as int);
    if rest.len() > 0 && rest[0] == ':' {
        match text::numeral(rest.skip(1), 10, 65535) {
            Some(port) => Some(port as u16),
            None => None,
        }
    } else {
        None
    }
}

/// An authority's host and the port it names, if it names one. The port of a
/// bracketed literal follows the closing bracket.
pub fn split_authority<'a>(authority: &'a str) -> (r: (&'a str, Option<u16>))
    ensures
        r.0@ == crate::dns::host_part(authority@),
        r.1 == port_of(authority@),
{
    let host: &'a str = crate::dns::host_component(authority);
    let chars: Vec<char> = text::chars_of(authority);
    let n: usize = host.unicode_len();
    if n < chars.len() && chars[n] == ':' {
        let digits: Vec<char> = text::chars_in(&chars, n + 1, chars.len());
        assert(digits@ =~= authority@.skip(n as int).skip(1));
        match text::parse_numeral(&digits, 10, 65535) {
            Some(port) => (host, Some(port as u16)),
            None => (host, None),
        }
    } else {
        (host, None)
    }
}

// ---------------------------------------------------------------------------
// Routing
// ---------------------------------------------------------------------------

/// The lookups that the proxy makes for a request: the route of a host, and
/// the live caller at a lease.
pub trait HostRoute {
    /// Whether the table can be consulted.
    spec fn ready(&self) -> bool;

    /// The table that is consulted.
    spec fn table(&self) -> RegistryView;

    /// The route of a host, or `None` if no live box owns it.
    fn resolve_host(&self, host: &str) -> (r: Option<&Route>)
        requires
            self.ready(),
        ensures
            match r {
                Some(route) => self.table().resolved(host@) == Some(route@),
                None => self.table().resolved(host@) is None,
            },
    ;

    /// The live caller at a switch lease, or `None` when no live box holds it.
    fn caller_at(&self, lease: Ipv4Addr) -> (r: Option<Caller<'_>>)
        requires
            self.ready(),
        ensures
            match r {
                Some(caller) => caller_of(self.table(), lease) == Some(caller@),
                None => caller_of(self.table(), lease) is None,
            },
    ;
}

/// The live caller at a switch lease.
pub open spec fn caller_of(table: RegistryView, lease: Ipv4Addr) -> Option<CallerView> {
    if table.by_lease.contains_key(lease.bits) && table.callers.contains_key(
        table.by_lease[lease.bits].id,
    ) {
        let facts = table.callers[table.by_lease[lease.bits].id];
        Some(CallerView { lease, name: facts.0, egress: facts.1 })
    } else {
        None
    }
}

impl HostRoute for HostnameRegistry {
    open spec fn ready(&self) -> bool {
        self.wf()
    }

    open spec fn table(&self) -> RegistryView {
        self@
    }

    fn resolve_host(&self, host: &str) -> (r: Option<&Route>) {
        self.resolve(host)
    }

    fn caller_at(&self, lease: Ipv4Addr) -> (r: Option<Caller<'_>>) {
        HostnameRegistry::caller_at(self, lease)
    }
}

/// The port of an authority, or the default where it names none.
pub open spec fn upstream_port(authority: Seq<char>) -> u16 {
    match port_of(authority) {
        Some(port) => port,
        None => DEFAULT_UPSTREAM_PORT,
    }
}

/// Maps an authority to the upstream of its requests, by way of a table of
/// routes.
pub struct Router<'a, T: HostRoute> {
    table: &'a T,
}

impl<'a, T: HostRoute> Router<'a, T> {
    /// The table of routes.
    pub closed spec fn routes(&self) -> T {
        *self.table
    }

    /// A router over a table of routes.
    pub fn new(table: &'a T) -> (r: Self)
        ensures
            r.routes() == *table,
    {
        Router { table }
    }

    /// The upstream of an authority, or `None` if no live box owns its host or
    /// the host does not carry its port.
    pub fn route(&self, authority: &str) -> (r: Option<Endpoint>)
        requires
            self.routes().ready(),
        ensures
            r == (match self.routes().table().resolved(crate::dns::host_part(authority@)) {
                Some(route) => route.upstream(upstream_port(authority@)),
                None => None,
            }),
    {
        let (host, port): (&str, Option<u16>) = split_authority(authority);
        match self.resolve(host) {
            Some(route) => route.upstream(
                match port {
                    Some(p) => p,
                    None => DEFAULT_UPSTREAM_PORT,
                },
            ),
            None => None,
        }
    }

    /// The route of a host.
    pub fn resolve(&self, host: &str) -> (r: Option<&'a Route>)
        requires
            self.routes().ready(),
        ensures
            match r {
                Some(route) => self.routes().table().resolved(host@) == Some(route@),
                None => self.routes().table().resolved(host@) is None,
            },
    {
        self.table.resolve_host(host)
    }

    /// The live caller at a switch lease.
    pub fn caller_at(&self, lease: Ipv4Addr) -> (r: Option<Caller<'a>>)
        requires
            self.routes().ready(),
        ensures
            match r {
                Some(caller) => caller_of(self.routes().table(), lease) == Some(caller@),
                None => caller_of(self.routes().table(), lease) is None,
            },
    {
        self.table.caller_at(lease)
    }
}

// ---------------------------------------------------------------------------
// The course of a connection
// ---------------------------------------------------------------------------

/// The statuses that the proxy answers with.
#[derive(Clone, Copy, Debug, PartialEq, Eq, Structural)]
pub enum Status {
    BadRequest,
    Forbidden,
    RequestTimeout,
    BadGateway,
}

impl Status {
    /// The code and the reason of the status.
    pub open spec fn shown(self) -> Seq<char> {
        match self {
            Status::BadRequest => "400 Bad Request"@,
            Status::Forbidden => "403 Forbidden"@,
            Status::RequestTimeout => "408 Request Timeout"@,
            Status::BadGateway => "502 Bad Gateway"@,
        }
    }

    /// The code and the reason of the status.
    pub fn as_str(self) -> (r: &'static str)
        ensures
            r@ == self.shown(),
    {
        match self {
            Status::BadRequest => "400 Bad Request",
            Status::Forbidden => "403 Forbidden",
            Status::RequestTimeout => "408 Request Timeout",
            Status::BadGateway => "502 Bad Gateway",
        }
    }
}

/// The response that carries a status and nothing else, and closes.
pub fn status_response(status: Status) -> (r: Vec<u8>)
    ensures
        r@ == text::ascii(
            "HTTP/1.1 "@ + status.shown() + "\r\nContent-Length: 0\r\nConnection: close\r\n\r\n"@,
        ),
{
    let mut out: String = String::new();
    out.append("HTTP/1.1 ");
    out.append(status.as_str());
    out.append("\r\nContent-Length: 0\r\nConnection: close\r\n\r\n");
    assert(out@ =~= "HTTP/1.1 "@ + status.shown()
        + "\r\nContent-Length: 0\r\nConnection: close\r\n\r\n"@);
    text::ascii_bytes(out.as_str())
}

/// Why a request is refused.
#[derive(Clone, Copy, Debug, PartialEq, Eq, Structural)]
pub enum Reason {
    HeadTimeout,
    UnparseableHead,
    NoOwner,
    EgressDenied,
    NotPublished,
    UpstreamRefused,
}

impl Reason {
    /// The reason in words.
    pub fn as_str(self) -> (r: &'static str)
        ensures
            r@ == (match self {
                Reason::HeadTimeout => "no complete request head within the read timeout"@,
                Reason::UnparseableHead => "unparseable request head"@,
                Reason::NoOwner => "no live box owns this hostname"@,
                Reason::EgressDenied => "the caller's egress policy denies this target"@,
                Reason::NotPublished => "the box has not published this port"@,
                Reason::UpstreamRefused => "the upstream box refused the connection"@,
            }),
    {
        match self {
            Reason::HeadTimeout => "no complete request head within the read timeout",
            Reason::UnparseableHead => "unparseable request head",
            Reason::NoOwner => "no live box owns this hostname",
            Reason::EgressDenied => "the caller's egress policy denies this target",
            Reason::NotPublished => "the box has not published this port",
            Reason::UpstreamRefused => "the upstream box refused the connection",
        }
    }

    /// The status that a request refused for this reason is answered with.
    pub open spec fn answered(self) -> Status {
        match self {
            Reason::HeadTimeout => Status::RequestTimeout,
            Reason::UnparseableHead => Status::BadRequest,
            Reason::NoOwner => Status::BadGateway,
            Reason::EgressDenied => Status::Forbidden,
            Reason::NotPublished => Status::Forbidden,
            Reason::UpstreamRefused => Status::BadGateway,
        }
    }

    /// The status that a request refused for this reason is answered with.
    pub fn status(self) -> (r: Status)
        ensures
            r == self.answered(),
    {
        match self {
            Reason::HeadTimeout => Status::RequestTimeout,
            Reason::UnparseableHead => Status::BadRequest,
            Reason::NoOwner => Status::BadGateway,
            Reason::EgressDenied => Status::Forbidden,
            Reason::NotPublished => Status::Forbidden,
            Reason::UpstreamRefused => Status::BadGateway,
        }
    }
}

/// A request whose route is known, to be put to the caller's egress.
pub struct Routed<'a> {
    pub kind: RequestKind,
    pub host: &'a str,
    pub port: u16,
    pub route: &'a Route,
    pub caller: Option<Caller<'a>>,
}

/// What becomes of a connection once its head is there.
pub enum HeadStep<'a> {
    /// It is an HTTP/2 connection: it is closed, without an answer.
    Close,
    /// It is refused, for a reason that is logged with the host it asked for.
    Refuse { reason: Reason, host: Option<&'a str> },
    /// It has a route.
    Judge(Routed<'a>),
}

/// Whether `routed` is the request of a head from a peer, by a table of
/// routes.
pub open spec fn routes_head(
    routed: Routed<'_>,
    table: RegistryView,
    head: Seq<u8>,
    peer: Option<IpAddr>,
) -> bool {
    match parsed_head(head) {
        Some((kind, authority)) => {
            &&& routed.kind == kind
            &&& routed.host@ == crate::dns::host_part(authority)
            &&& routed.port == upstream_port(authority)
            &&& table.resolved(crate::dns::host_part(authority)) == Some(routed.route@)
            &&& match peer {
                Some(IpAddr::V4(ip)) => match routed.caller {
                    Some(caller) => caller_of(table, ip) == Some(caller@),
                    None => caller_of(table, ip) is None,
                },
                _ => routed.caller is None,
            }
        },
        None => false,
    }
}

/// What becomes of a connection once its head is there: an HTTP/2 preface is
/// closed, a head without an authority is a bad request, a host that no live
/// box owns has no gateway, and anything else has a route.
pub fn on_head<'a, T: HostRoute>(
    router: &Router<'a, T>,
    head: &'a [u8],
    peer: Option<IpAddr>,
) -> (r: HeadStep<'a>)
    requires
        router.routes().ready(),
    ensures
        match r {
            HeadStep::Close => h2_preface(head@),
            HeadStep::Refuse { reason, host } => !h2_preface(head@) && match parsed_head(head@) {
                None => reason == Reason::UnparseableHead && host is None,
                Some((_, authority)) => {
                    &&& router.routes().table().resolved(crate::dns::host_part(authority)) is None
                    &&& reason == Reason::NoOwner
                    &&& host matches Some(name) && name@ == crate::dns::host_part(authority)
                },
            },
            HeadStep::Judge(routed) => !h2_preface(head@) && routes_head(
                routed,
                router.routes().table(),
                head@,
                peer,
            ),
        },
{
    if is_h2_prior_knowledge_preface(head) {
        return HeadStep::Close;
    }
    let request: ParsedRequest<'a> = match parse_request(head) {
        Some(request) => request,
        None => {
            return HeadStep::Refuse { reason: Reason::UnparseableHead, host: None };
        },
    };
    let (host, port): (&'a str, Option<u16>) = split_authority(request.authority);
    let route: &'a Route = match router.resolve(host) {
        Some(route) => route,
        None => {
            return HeadStep::Refuse { reason: Reason::NoOwner, host: Some(host) };
        },
    };
    let caller: Option<Caller<'a>> = match peer {
        Some(IpAddr::V4(ip)) => router.caller_at(ip),
        _ => None,
    };
    HeadStep::Judge(
        Routed {
            kind: request.kind,
            host,
            port: match port {
                Some(p) => p,
                None => DEFAULT_UPSTREAM_PORT,
            },
            route,
            caller,
        },
    )
}

/// What becomes of a request once the caller's egress is known.
#[derive(Debug)]
pub enum Settled {
    /// The upstream is dialled.
    Dial(Endpoint),
    /// The request is refused before anything is dialled.
    Refuse { reason: Reason, refusal: Refusal },
}

/// Settles a request. `egress_drop` is the rule by which the caller's own
/// egress drops a packet to the route's address and the request's port, if it
/// has a caller and it does. What the caller may not reach is refused, and so
/// is a port that the target did not declare; the rest is dialled.
pub fn settle(routed: &Routed<'_>, egress_drop: Option<String>) -> (r: Settled)
    ensures
        if routed.caller is Some && egress_drop is Some {
            r matches Settled::Refuse { reason, refusal } && reason == Reason::EgressDenied
                && refusal.direction == Direction::Egress && refusal.rule@ == egress_drop->0@
                && refusal.other == Some(
                Endpoint { ip: routed.route@.address(), port: routed.port },
            )
        } else {
            match routed.route@.upstream(routed.port) {
                Some(upstream) => r == Settled::Dial(upstream),
                None => r matches Settled::Refuse { reason, refusal } && reason
                    == Reason::NotPublished && refusal.direction == Direction::Ingress
                    && refusal.rule@ == crate::switch::NO_INGRESS_MAPPING_RULE@ && refusal.other
                    == (match routed.caller {
                    Some(caller) => Some(Endpoint { ip: caller@.lease, port: routed.port }),
                    None => None,
                }),
            }
        },
{
    let caller: Option<(Ipv4Addr, Option<String>)> = match &routed.caller {
        Some(caller) => Some((caller.lease(), egress_drop)),
        None => None,
    };
    match proxied_request_verdict(caller, routed.route, routed.port) {
        ProxiedRequest::Forward(upstream) => Settled::Dial(upstream),
        ProxiedRequest::Refused(refusal) => {
            let reason: Reason = match refusal.direction {
                Direction::Egress => Reason::EgressDenied,
                Direction::Ingress => Reason::NotPublished,
            };
            Settled::Refuse { reason, refusal }
        },
    }
}

/// What is written when the upstream has been reached, before bytes are passed
/// both ways.
#[derive(Debug, PartialEq, Eq)]
pub struct Opening {
    pub to_client: Vec<u8>,
    pub to_upstream: Vec<u8>,
}

/// What is written when the upstream has been reached: a tunnel is
/// acknowledged, a forwarded request's head is replayed without an `h2c`
/// upgrade.
pub fn on_connected(kind: RequestKind, head: &[u8]) -> (r: Opening)
    ensures
        match kind {
            RequestKind::Connect => r.to_client@ == text::ascii(
                "HTTP/1.1 200 Connection Established\r\n\r\n"@,
            ) && r.to_upstream@.len() == 0,
            RequestKind::Forward => r.to_client@.len() == 0 && r.to_upstream@ == without_h2c(head@),
        },
{
    match kind {
        RequestKind::Connect => Opening {
            to_client: text::ascii_bytes("HTTP/1.1 200 Connection Established\r\n\r\n"),
            to_upstream: Vec::new(),
        },
        RequestKind::Forward => Opening {
            to_client: Vec::new(),
            to_upstream: strip_h2c_upgrade(head),
        },
    }
}

// ---------------------------------------------------------------------------
// Binding
// ---------------------------------------------------------------------------

/// The kind of a failure that the system reports.
#[derive(Clone, Debug, PartialEq, Eq)]
pub enum ErrorKind {
    /// The address is held by another listener.
    AddrInUse,
    /// The address is not one of this host.
    AddrNotAvailable,
    /// The listener may not be opened.
    PermissionDenied,
    /// Any other kind, by name.
    Other(String),
}

impl ErrorKind {
    /// The kind's name.
    pub open spec fn shown(self) -> Seq<char> {
        match self {
            ErrorKind::AddrInUse => "AddrInUse"@,
            ErrorKind::AddrNotAvailable => "AddrNotAvailable"@,
            ErrorKind::PermissionDenied => "PermissionDenied"@,
            ErrorKind::Other(name) => name@,
        }
    }

    /// The kind's name.
    pub fn to_text(&self) -> (r: String)
        ensures
            r@ == self.shown(),
    {
        match self {
            ErrorKind::AddrInUse => "AddrInUse".to_owned(),
            ErrorKind::AddrNotAvailable => "AddrNotAvailable".to_owned(),
            ErrorKind::PermissionDenied => "PermissionDenied".to_owned(),
            ErrorKind::Other(name) => name.clone(),
        }
    }
}

/// Why a listener could not bind its address, and what clears it.
#[derive(Clone, Debug, PartialEq, Eq)]
pub struct BindFailure {
    pub reason: String,
    pub remedy: String,
    pub kind: ErrorKind,
}

impl BindFailure {
    /// The failure to bind `addr`, a socket address as text, of which `port` is
    /// the port, with the system's `error`.
    pub fn for_listener(addr: &str, port: u16, error: &str, kind: ErrorKind) -> (r: Self)
        ensures
            r.reason@ == "the daemon could not bind "@ + addr@ + ": "@ + error@,
            r.remedy@ == "free the listen address; `lsof -nP -iTCP:"@ + text::decimal(port as nat)
                + " -sTCP:LISTEN` names the holder"@,
            r.kind == kind,
    {
        let mut reason: String = String::new();
        reason.append("the daemon could not bind ");
        reason.append(addr);
        reason.append(": ");
        reason.append(error);
        let mut remedy: String = String::new();
        remedy.append("free the listen address; `lsof -nP -iTCP:");
        text::push_decimal(&mut remedy, port as u64);
        remedy.append(" -sTCP:LISTEN` names the holder");
        assert(reason@ =~= "the daemon could not bind "@ + addr@ + ": "@ + error@);
        assert(remedy@ =~= "free the listen address; `lsof -nP -iTCP:"@ + text::decimal(
            port as nat,
        ) + " -sTCP:LISTEN` names the holder"@);
        BindFailure { reason, remedy, kind }
    }

    /// The reason and the remedy as one report.
    pub fn reported(&self) -> (r: String)
        ensures
            r@ == self.reason@ + ". Remedy: "@ + self.remedy@,
    {
        let mut out: String = self.reason.clone();
        out.append(". Remedy: ");
        out.append(self.remedy.as_str());
        out
    }

    /// Whether the address was busy. The kind decides, never the text.
    pub fn is_addr_in_use(&self) -> (r: bool)
        ensures
            r == (self.kind is AddrInUse),
    {
        match self.kind {
            ErrorKind::AddrInUse => true,
            _ => false,
        }
    }
}

// ---------------------------------------------------------------------------
// Laws of the stripped head
// ---------------------------------------------------------------------------

/// A line: bytes with a line feed at their end alone, if at all.
spec fn one_line(line: Seq<u8>) -> bool {
    line.len() > 0 && forall|i: int| 0 <= i < line.len() - 1 ==> #[trigger] line[i] != 10
}

/// Whether bytes end with a line feed.
spec fn ended(s: Seq<u8>) -> bool {
    s.len() > 0 && s.last() == 10
}

/// A line is the one line it holds.
proof fn lemma_one_line(line: Seq<u8>)
    requires
        one_line(line),
    ensures
        lines_of(line) == seq![line],
{
    let n = line.len() as int;
    text::lemma_scan(line, 10u8);
    let at = text::scan(line, 10u8);
    if at < n {
        if at < n - 1 {
            assert(line[at] != 10);
        }
        assert(line.take(n) =~= line);
        assert(line.skip(n) =~= Seq::<u8>::empty());
        assert(lines_of(line.skip(at + 1)) =~= Seq::<Seq<u8>>::empty());
        assert(lines_of(line) =~= seq![line]);
    }
}

/// The lines of two blocks, the first of which ends a line, are those of the
/// first and then those of the second.
proof fn lemma_lines_concat(a: Seq<u8>, b: Seq<u8>)
    requires
        a.len() == 0 || ended(a),
    ensures
        lines_of(a + b) == lines_of(a) + lines_of(b),
    decreases a.len(),
{
    if a.len() == 0 {
        assert(a + b =~= b);
        assert(lines_of(a) + lines_of(b) =~= lines_of(b));
    } else {
        text::lemma_scan(a, 10u8);
        let at = text::scan(a, 10u8);
        if at >= a.len() {
            assert(a[a.len() - 1] != 10);
        }
        let s = a + b;
        assert forall|j: int| 0 <= j < at implies s[j] != 10u8 by {
            assert(s[j] == a[j]);
        }
        assert(s[at] == 10u8);
        text::lemma_scan_is(s, 10u8, at);
        let rest = a.skip(at + 1);
        if rest.len() > 0 {
            assert(rest.last() == a.last());
        }
        lemma_lines_concat(rest, b);
        assert(s.take(at + 1) =~= a.take(at + 1));
        assert(s.skip(at + 1) =~= rest + b);
        assert(lines_of(s) =~= seq![a.take(at + 1)] + (lines_of(rest) + lines_of(b)));
        assert(lines_of(a) =~= seq![a.take(at + 1)] + lines_of(rest));
        assert(lines_of(s) =~= lines_of(a) + lines_of(b));
    }
}

/// The lines of a block are lines, and each but the last ends with a line feed.
proof fn lemma_lines_shape(block: Seq<u8>)
    ensures
        forall|i: int| 0 <= i < lines_of(block).len() ==> one_line(#[trigger] lines_of(block)[i]),
        forall|i: int|
            0 <= i < lines_of(block).len() - 1 ==> ended(#[trigger] lines_of(block)[i]),
    decreases block.len(),
{
    if block.len() > 0 {
        text::lemma_scan(block, 10u8);
        let at = text::scan(block, 10u8);
        let all = lines_of(block);
        if at < block.len() {
            let rest = lines_of(block.skip(at + 1));
            lemma_lines_shape(block.skip(at + 1));
            assert(all =~= seq![block.take(at + 1)] + rest);
            assert forall|i: int| 0 <= i < all.len() implies one_line(#[trigger] all[i]) by {
                if i > 0 {
                    assert(all[i] == rest[i - 1]);
                }
            }
            assert forall|i: int| 0 <= i < all.len() - 1 implies ended(#[trigger] all[i]) by {
                if i > 0 {
                    assert(all[i] == rest[i - 1]);
                }
            }
        }
    }
}

/// Whether a byte sequence holds neither a comma nor a line feed, and has no
/// white space around it.
spec fn plain_token(t: Seq<u8>) -> bool {
    &&& !t.contains(44u8)
    &&& !t.contains(10u8)
    &&& t.len() > 0 ==> !text::ascii_space(t[0]) && !text::ascii_space(t.last())
}

/// A part of bytes holds nothing that the bytes do not.
proof fn lemma_part_holds(s: Seq<u8>, from: int, to: int, c: u8)
    requires
        0 <= from <= to <= s.len(),
        !s.contains(c),
    ensures
        !s.subrange(from, to).contains(c),
{
    let part = s.subrange(from, to);
    if part.contains(c) {
        let i = choose|i: int| 0 <= i < part.len() && part[i] == c;
        assert(s[from + i] == c);
    }
}

/// What is trimmed is a part of what it was trimmed from, with no white space
/// around it.
proof fn lemma_trimmed_part(s: Seq<u8>, c: u8)
    requires
        !s.contains(c),
    ensures
        !text::trim_ascii(s).contains(c),
        text::trim_ascii(s).len() > 0 ==> !text::ascii_space(text::trim_ascii(s)[0])
            && !text::ascii_space(text::trim_ascii(s).last()),
        text::trim_ascii(text::trim_ascii(s)) == text::trim_ascii(s),
{
    let p = |b: u8| text::ascii_space(b);
    text::lemma_trimmed(s, p);
    text::lemma_leading(s, p);
    let rest = s.skip(text::leading(s, p));
    text::lemma_trailing(rest, p);
    let from = text::leading(s, p);
    let to = s.len() - text::trailing(rest, p);
    assert(text::trim_ascii(s) =~= s.subrange(from, to));
    lemma_part_holds(s, from, to, c);
    text::lemma_trim_whole(text::trim_ascii(s), p);
}

/// The pieces between separators hold none, nor anything that the whole does
/// not.
proof fn lemma_pieces_hold(s: Seq<u8>, sep: u8, c: u8)
    requires
        !s.contains(c),
    ensures
        forall|i: int|
            0 <= i < text::split(s, sep).len() ==> !(#[trigger] text::split(s, sep)[i]).contains(sep)
                && !text::split(s, sep)[i].contains(c),
    decreases s.len(),
{
    text::lemma_scan(s, sep);
    let at = text::scan(s, sep);
    let all = text::split(s, sep);
    if at >= s.len() {
        assert(all[0] == s);
        if s.contains(sep) {
            let i = choose|i: int| 0 <= i < s.len() && s[i] == sep;
            assert(s[i] != sep);
        }
    } else {
        let first = s.take(at);
        let rest = s.skip(at + 1);
        assert(first =~= s.subrange(0, at));
        assert(rest =~= s.subrange(at + 1, s.len() as int));
        lemma_part_holds(s, 0, at, c);
        lemma_part_holds(s, at + 1, s.len() as int, c);
        lemma_pieces_hold(rest, sep, c);
        if first.contains(sep) {
            let i = choose|i: int| 0 <= i < first.len() && first[i] == sep;
            assert(s[i] != sep);
        }
        let tail = text::split(rest, sep);
        assert(all =~= seq![first] + tail);
        assert forall|i: int| 0 <= i < all.len() implies !(#[trigger] all[i]).contains(sep)
            && !all[i].contains(c) by {
            if i > 0 {
                assert(all[i] == tail[i - 1]);
            }
        }
    }
}

/// The tokens of a value without a line feed are plain.
proof fn lemma_tokens_plain(value: Seq<u8>)
    requires
        !value.contains(10u8),
    ensures
        forall|i: int| 0 <= i < tokens_of(value).len() ==> plain_token(#[trigger] tokens_of(value)[i]),
{
    lemma_pieces_hold(value, 44u8, 10u8);
    let pieces = text::split(value, 44u8);
    assert forall|i: int| 0 <= i < tokens_of(value).len() implies plain_token(
        #[trigger] tokens_of(value)[i],
    ) by {
        assert(tokens_of(value)[i] == text::trim_ascii(pieces[i]));
        lemma_trimmed_part(pieces[i], 44u8);
        lemma_trimmed_part(pieces[i], 10u8);
    }
}

/// Tokens of a kind among plain ones are plain and of the kind.
proof fn lemma_filtered(tokens: Seq<Seq<u8>>, keep: spec_fn(Seq<u8>) -> bool)
    requires
        forall|i: int| 0 <= i < tokens.len() ==> plain_token(#[trigger] tokens[i]),
    ensures
        forall|i: int|
            0 <= i < tokens.filter(keep).len() ==> plain_token(#[trigger] tokens.filter(keep)[i])
                && keep(tokens.filter(keep)[i]),
    decreases tokens.len(),
{
    reveal(Seq::filter);
    if tokens.len() > 0 {
        let before = tokens.drop_last();
        assert forall|i: int| 0 <= i < before.len() implies plain_token(#[trigger] before[i]) by {
            assert(plain_token(tokens[i]));
        }
        lemma_filtered(before, keep);
        assert(plain_token(tokens[tokens.len() - 1]));
        let kept = tokens.filter(keep);
        assert forall|i: int| 0 <= i < kept.len() implies plain_token(#[trigger] kept[i]) && keep(
            kept[i],
        ) by {
            if i < before.filter(keep).len() {
                assert(kept[i] == before.filter(keep)[i]);
            }
        }
    }
}

/// A comma and a space, as bytes.
proof fn lemma_separators()
    ensures
        text::ascii(", "@) == seq![44u8, 32u8],
        text::ascii(": "@) == seq![58u8, 32u8],
{
    reveal_strlit(", ");
    reveal_strlit(": ");
    assert(text::ascii(", "@) =~= seq![44u8, 32u8]);
    assert(text::ascii(": "@) =~= seq![58u8, 32u8]);
}

/// A space before a plain token is trimmed away.
proof fn lemma_trim_spaced(t: Seq<u8>)
    requires
        plain_token(t),
    ensures
        text::trim_ascii(seq![32u8] + t) == t,
{
    let p = |b: u8| text::ascii_space(b);
    let s = seq![32u8] + t;
    assert(s[0] == 32u8);
    if t.len() > 0 {
        assert(s[1] == t[0]);
    }
    text::lemma_leading_is(s, p, 1);
    assert(s.skip(1) =~= t);
    text::lemma_trailing_is(t, p, 0);
    assert(t.take(t.len() as int) =~= t);
}

/// Plain tokens that were joined read back as they are.
proof fn lemma_joined_tokens(tokens: Seq<Seq<u8>>)
    requires
        tokens.len() > 0,
        forall|i: int| 0 <= i < tokens.len() ==> plain_token(#[trigger] tokens[i]),
    ensures
        tokens_of(seq![32u8] + joined(tokens)) == tokens,
        !joined(tokens).contains(10u8),
        joined(tokens).len() > 0 ==> joined(tokens).last() != 10 && joined(tokens).last() != 13,
    decreases tokens.len(),
{
    lemma_separators();
    let last = tokens.last();
    assert(plain_token(tokens[tokens.len() - 1]));
    let spaced = seq![32u8] + last;
    assert(!spaced.contains(44u8)) by {
        if spaced.contains(44u8) {
            let i = choose|i: int| 0 <= i < spaced.len() && spaced[i] == 44u8;
            assert(last[i - 1] == 44u8);
        }
    }
    text::lemma_split_whole(spaced, 44u8);
    lemma_trim_spaced(last);
    if tokens.len() == 1 {
        assert(joined(tokens) == last);
        assert(tokens_of(spaced) =~= tokens);
    } else {
        let before = tokens.drop_last();
        assert forall|i: int| 0 <= i < before.len() implies plain_token(#[trigger] before[i]) by {
            assert(plain_token(tokens[i]));
        }
        lemma_joined_tokens(before);
        let front = seq![32u8] + joined(before);
        let whole = seq![32u8] + joined(tokens);
        assert(whole =~= front + seq![44u8] + spaced);
        text::lemma_split_join(front, 44u8, spaced);
        assert(tokens_of(whole) =~= tokens_of(front) + seq![last]);
        assert(tokens_of(whole) =~= tokens);
        let all = joined(tokens);
        assert(all =~= joined(before) + seq![44u8, 32u8] + last);
        if all.contains(10u8) {
            let i = choose|i: int| 0 <= i < all.len() && all[i] == 10u8;
            let n = joined(before).len() as int;
            if i < n {
                assert(joined(before)[i] == 10u8);
            } else if i >= n + 2 {
                assert(last[i - n - 2] == 10u8);
            }
        }
        if last.len() > 0 {
            assert(all.last() == last.last());
        } else {
            assert(all.last() == 32u8);
        }
    }
}

/// What the name and the value of a line are made of.
proof fn lemma_parts(line: Seq<u8>)
    requires
        one_line(line),
    ensures
        ({
            let end = line.skip(body_length(line));
            &&& 0 <= body_length(line) <= line.len()
            &&& end == seq![13u8, 10u8] || end == seq![10u8] || end.len() == 0
            &&& end.len() == 0 <==> !ended(line)
            &&& end == seq![10u8] ==> line.len() == 1 || line[line.len() - 2] != 13
        }),
        parts_of(line) matches Some((name, value)) ==> {
            &&& !name.contains(10u8)
            &&& !name.contains(58u8)
            &&& text::trim_ascii(name) == name
            &&& !value.contains(10u8)
        },
{
    lemma_terminators();
    let n = line.len() as int;
    let end = line.skip(body_length(line));
    if n >= 2 {
        assert(line.skip(n - 2) =~= seq![line[n - 2], line[n - 1]]);
    }
    assert(line.skip(n - 1) =~= seq![line[n - 1]]);
    assert(line.skip(n) =~= Seq::<u8>::empty());
    if n >= 2 && line[n - 2] == 13 && line[n - 1] == 10 {
        assert(end =~= seq![13u8, 10u8]);
    } else if line[n - 1] == 10 {
        if n >= 2 {
            assert(line.skip(n - 2)[0] != 13);
        }
        assert(end =~= seq![10u8]);
    } else {
        if n >= 2 {
            assert(line.skip(n - 2)[1] != 10);
        }
        assert(line.skip(n - 1)[0] != 10);
        assert(end =~= Seq::<u8>::empty());
    }
    let body = line.take(body_length(line));
    assert(!body.contains(10u8)) by {
        if body.contains(10u8) {
            let i = choose|i: int| 0 <= i < body.len() && body[i] == 10u8;
            assert(line[i] == 10u8);
            assert(i < n - 1);
        }
    }
    if parts_of(line) is Some {
        let colon = text::scan(body, 58u8);
        text::lemma_scan(body, 58u8);
        let front = body.take(colon);
        assert(front =~= body.subrange(0, colon));
        lemma_part_holds(body, 0, colon, 10u8);
        assert(!front.contains(58u8)) by {
            if front.contains(58u8) {
                let i = choose|i: int| 0 <= i < front.len() && front[i] == 58u8;
                assert(body[i] != 58u8);
            }
        }
        lemma_trimmed_part(front, 10u8);
        lemma_trimmed_part(front, 58u8);
        assert(body.skip(colon + 1) =~= body.subrange(colon + 1, body.len() as int));
        lemma_part_holds(body, colon + 1, body.len() as int, 10u8);
    }
}

/// A rewritten header reads back with its name and the tokens it was given.
proof fn lemma_rewritten(line: Seq<u8>, name: Seq<u8>, tokens: Seq<Seq<u8>>)
    requires
        one_line(line),
        tokens.len() > 0,
        forall|i: int| 0 <= i < tokens.len() ==> plain_token(#[trigger] tokens[i]),
        !name.contains(10u8),
        !name.contains(58u8),
        text::trim_ascii(name) == name,
    ensures
        one_line(rewritten(line, name, tokens)),
        ended(rewritten(line, name, tokens)) == ended(line),
        parts_of(rewritten(line, name, tokens)) == Some((name, seq![32u8] + joined(tokens))),
        tokens_of(seq![32u8] + joined(tokens)) == tokens,
{
    lemma_separators();
    lemma_terminators();
    lemma_joined_tokens(tokens);
    lemma_parts(line);
    let end = line.skip(body_length(line));
    let told = joined(tokens);
    let body = name + seq![58u8, 32u8] + told;
    let all = rewritten(line, name, tokens);
    assert(all =~= body + end);
    let m = body.len() as int;
    assert(body.last() == (if told.len() > 0 {
        told.last()
    } else {
        32u8
    }));
    assert(!body.contains(10u8)) by {
        if body.contains(10u8) {
            let i = choose|i: int| 0 <= i < body.len() && body[i] == 10u8;
            let k = name.len() as int;
            if i < k {
                assert(name[i] == 10u8);
            } else if i >= k + 2 {
                assert(told[i - k - 2] == 10u8);
            }
        }
    }
    assert forall|i: int| 0 <= i < all.len() - 1 implies #[trigger] all[i] != 10 by {
        if i < m {
            assert(all[i] == body[i]);
            assert(body.contains(body[i]));
        } else {
            assert(all[i] == end[i - m]);
        }
    }
    if end.len() > 0 {
        assert(all.last() == end.last());
    } else {
        assert(all.last() == body.last());
    }
    // Where the rewritten line's own body ends.
    let n = all.len() as int;
    assert(all.skip(n - 1) =~= seq![all[n - 1]]);
    assert(all.skip(n - 2) =~= seq![all[n - 2], all[n - 1]]);
    if end == seq![13u8, 10u8] {
        assert(all[n - 2] == 13u8 && all[n - 1] == 10u8);
    } else if end == seq![10u8] {
        assert(all[n - 2] == body.last());
        assert(all.skip(n - 2)[0] != 13);
        assert(all.skip(n - 1) == seq![10u8]);
    } else {
        assert(all.skip(n - 2)[1] != 10);
        assert(all.skip(n - 1)[0] != 10);
    }
    assert(body_length(all) == m);
    assert(all.take(m) =~= body);
    let k = name.len() as int;
    assert forall|j: int| 0 <= j < k implies body[j] != 58u8 by {
        assert(body[j] == name[j]);
        assert(name.contains(name[j]));
    }
    assert(body[k] == 58u8);
    text::lemma_scan_is(body, 58u8, k);
    assert(body.take(k) =~= name);
    assert(body.skip(k + 1) =~= seq![32u8] + told);
}

/// What is left of a line is nothing, or a line that offers no `h2c` and ends as
/// it did.
proof fn lemma_stripped_line(line: Seq<u8>, survives: bool)
    requires
        one_line(line),
    ensures
        stripped_line(line, survives).len() == 0 || {
            &&& one_line(stripped_line(line, survives))
            &&& ended(stripped_line(line, survives)) == ended(line)
            &&& !offers_h2c(stripped_line(line, survives))
        },
{
    lemma_parts(line);
    if let Some((name, value)) = parts_of(line) {
        lemma_tokens_plain(value);
        if is_word(name, "upgrade"@) {
            let kept = tokens_of(value).filter(upgrade_stays());
            lemma_filtered(tokens_of(value), upgrade_stays());
            if kept.len() > 0 {
                lemma_rewritten(line, name, kept);
                let left = stripped_line(line, survives);
                if offers_h2c(left) {
                    let told = seq![32u8] + joined(kept);
                    let i = choose|i: int|
                        0 <= i < tokens_of(told).len() && is_word(
                            #[trigger] tokens_of(told)[i],
                            "h2c"@,
                        );
                    assert(upgrade_stays()(kept[i]));
                }
            }
        } else if is_word(name, "http2-settings"@) {
        } else if is_word(name, "connection"@) {
            let kept = tokens_of(value).filter(connection_stays(survives));
            lemma_filtered(tokens_of(value), connection_stays(survives));
            if kept.len() > 0 {
                lemma_rewritten(line, name, kept);
            }
        }
    }
}

/// What is left of the first lines of a block.
proof fn lemma_stripped_lines(lines: Seq<Seq<u8>>, survives: bool)
    requires
        forall|i: int| 0 <= i < lines.len() ==> one_line(#[trigger] lines[i]),
        forall|i: int| 0 <= i < lines.len() - 1 ==> ended(#[trigger] lines[i]),
    ensures
        forall|i: int|
            0 <= i < lines_of(stripped_lines(lines, survives)).len() ==> !offers_h2c(
                #[trigger] lines_of(stripped_lines(lines, survives))[i],
            ),
        lines.len() > 0 && ended(lines.last()) ==> stripped_lines(lines, survives).len() == 0
            || ended(stripped_lines(lines, survives)),
        lines.len() == 0 ==> stripped_lines(lines, survives).len() == 0,
    decreases lines.len(),
{
    if lines.len() > 0 {
        let before = lines.drop_last();
        let line = lines.last();
        assert forall|i: int| 0 <= i < before.len() implies one_line(#[trigger] before[i]) by {
            assert(one_line(lines[i]));
        }
        assert forall|i: int| 0 <= i < before.len() implies ended(#[trigger] before[i]) by {
            assert(ended(lines[i]));
        }
        if before.len() > 0 {
            assert(ended(before[before.len() - 1]));
        }
        lemma_stripped_lines(before, survives);
        assert(one_line(lines[lines.len() - 1]));
        lemma_stripped_line(line, survives);
        let a = stripped_lines(before, survives);
        let b = stripped_line(line, survives);
        lemma_lines_concat(a, b);
        if b.len() > 0 {
            lemma_one_line(b);
            assert((a + b).last() == b.last());
        } else {
            assert(lines_of(b) =~= Seq::<Seq<u8>>::empty());
            assert(a + b =~= a);
        }
        let all = lines_of(a + b);
        assert forall|i: int| 0 <= i < all.len() implies !offers_h2c(#[trigger] all[i]) by {
            if i < lines_of(a).len() {
                assert(all[i] == lines_of(a)[i]);
            } else {
                assert(all[i] == b);
            }
        }
    } else {
        assert(lines_of(stripped_lines(lines, survives)) =~= Seq::<Seq<u8>>::empty());
    }
}

/// No line of a stripped head offers `h2c`: a head comes out as it was, offering
/// none, or as header lines that offer none, with what followed it unchanged.
pub proof fn law_stripped_head_offers_no_h2c(head: Seq<u8>)
    ensures
        ({
            let n = head_length(head);
            let lines = lines_of(head.take(n));
            ||| !h2c_offered(lines) && without_h2c(head) == head
            ||| exists|kept: Seq<u8>| #[trigger]
                (kept + head.skip(n)) == without_h2c(head) && forall|i: int|
                    0 <= i < lines_of(kept).len() ==> !offers_h2c(#[trigger] lines_of(kept)[i])
        }),
{
    let n = head_length(head);
    let block = head.take(n);
    let lines = lines_of(block);
    lemma_lines_shape(block);
    let survives = offer_survives(lines);
    lemma_stripped_lines(lines, survives);
    if h2c_offered(lines) {
        let kept = stripped_lines(lines, survives);
        assert(kept + head.skip(n) == without_h2c(head));
    }
}

/// Whether a line ends with a carriage return and a line feed.
pub open spec fn crlf_ended(line: Seq<u8>) -> bool {
    text::ends_with(line, text::ascii("\r\n"@))
}

/// What is left of lines that end with a carriage return and a line feed ends so
/// too, if anything is left.
proof fn lemma_stripped_ends(lines: Seq<Seq<u8>>, survives: bool)
    requires
        forall|i: int| 0 <= i < lines.len() ==> crlf_ended(#[trigger] lines[i]),
    ensures
        stripped_lines(lines, survives).len() == 0 || crlf_ended(stripped_lines(lines, survives)),
        forall|i: int|
            0 <= i < lines.len() && (#[trigger] stripped_line(lines[i], survives)).len() > 0
                ==> stripped_lines(lines, survives).len() > 0,
    decreases lines.len(),
{
    if lines.len() > 0 {
        lemma_terminators();
        let end = text::ascii("\r\n"@);
        let before = lines.drop_last();
        let line = lines.last();
        assert(crlf_ended(lines[lines.len() - 1]));
        assert forall|i: int| 0 <= i < before.len() implies crlf_ended(#[trigger] before[i]) by {
            assert(crlf_ended(lines[i]));
        }
        lemma_stripped_ends(before, survives);
        let a = stripped_lines(before, survives);
        let b = stripped_line(line, survives);
        if b.len() > 0 {
            assert(b.len() >= 2 && b.skip(b.len() - 2) =~= end);
            assert((a + b).skip((a + b).len() - 2) =~= end);
        } else {
            assert(a + b =~= a);
        }
        assert forall|i: int|
            0 <= i < lines.len() && (#[trigger] stripped_line(lines[i], survives)).len() > 0 implies (a
            + b).len() > 0 by {
            if i < before.len() {
                assert(stripped_line(before[i], survives).len() > 0);
            }
        }
    }
}

/// A block that the end-of-head marker ends is lines, and then a line of a
/// carriage return and a line feed alone.
proof fn lemma_last_line(block: Seq<u8>)
    requires
        block.len() >= 4,
        block.skip(block.len() - 4) == end_marker(),
    ensures
        lines_of(block) == lines_of(block.take(block.len() - 2)).push(seq![13u8, 10u8]),
{
    lemma_terminators();
    let front = block.take(block.len() - 2);
    let last = seq![13u8, 10u8];
    let marker = block.skip(block.len() - 4);
    assert(front.last() == marker[1]);
    assert(block[block.len() - 2] == marker[2] && block[block.len() - 1] == marker[3]);
    assert(block =~= front + last);
    lemma_lines_concat(front, last);
    lemma_one_line(last);
    assert(lines_of(front) + seq![last] =~= lines_of(front).push(last));
}

/// Stripping a stripped head changes nothing. Of a head that offers `h2c`, it is
/// asked that it is complete, that its lines end with a carriage return and a line
/// feed, and that one of those before its end is left, as a request line is.
#[verifier::spinoff_prover]
pub proof fn law_stripping_again_changes_nothing(head: Seq<u8>)
    requires
        ({
            let lines = lines_of(head.take(head_length(head)));
            h2c_offered(lines) ==> {
                &&& text::find(head, end_marker()) is Some
                &&& forall|i: int| 0 <= i < lines.len() ==> crlf_ended(#[trigger] lines[i])
                &&& exists|i: int|
                    0 <= i < lines.len() - 1 && (#[trigger] stripped_line(
                        lines[i],
                        offer_survives(lines),
                    )).len() > 0
            }
        }),
    ensures
        without_h2c(without_h2c(head)) == without_h2c(head),
{
    let n = head_length(head);
    let block = head.take(n);
    let lines = lines_of(block);
    let survives = offer_survives(lines);
    if h2c_offered(lines) {
        lemma_terminators();
        let marker = end_marker();
        let end = seq![13u8, 10u8];
        text::lemma_found(head, marker, 0);
        assert(block.skip(n - 4) =~= head.subrange(n - 4, n));
        lemma_last_line(block);
        let front = lines_of(block.take(n - 2));
        assert(lines.drop_last() =~= front);
        assert(lines.last() == end);
        assert(end.skip(0) =~= end);
        assert(end.take(0).len() == 0);
        assert(stripped_line(end, survives) == end);
        let i = choose|i: int|
            0 <= i < lines.len() - 1 && (#[trigger] stripped_line(lines[i], survives)).len() > 0;
        assert forall|j: int| 0 <= j < front.len() implies crlf_ended(#[trigger] front[j]) by {
            assert(crlf_ended(lines[j]));
        }
        lemma_stripped_ends(front, survives);
        assert(stripped_line(front[i], survives).len() > 0);
        let a = stripped_lines(front, survives);
        let kept = a + end;
        assert(kept == stripped_lines(lines, survives));
        let k = kept.len() as int;
        assert(a.skip(a.len() - 2) == end);
        assert(a[a.len() - 2] == a.skip(a.len() - 2)[0] && a[a.len() - 1] == a.skip(a.len() - 2)[1]);
        assert(kept.subrange(k - 4, k) =~= marker);
        let out = without_h2c(head);
        assert(out == kept + head.skip(n));
        assert(out.subrange(k - 4, k) =~= kept.subrange(k - 4, k));
        text::lemma_found_by(out, marker, 0, k - 4);
        text::lemma_found(out, marker, 0);
        let m = head_length(out);
        let left = out.take(m);
        assert(out.subrange(m - 4, m)[3] == 10u8);
        assert(left.last() == 10u8);
        assert(left + kept.skip(m) =~= kept);
        lemma_lines_concat(left, kept.skip(m));
        lemma_lines_shape(block);
        lemma_stripped_lines(lines, survives);
        if h2c_offered(lines_of(left)) {
            let j = choose|j: int| 1 <= j < lines_of(left).len() && offers_h2c(
                #[trigger] lines_of(left)[j],
            );
            assert(lines_of(kept)[j] == lines_of(left)[j]);
        }
    }
}

/// A head that offers no `h2c` passes as it is, whatever else it offers.
pub proof fn law_other_upgrades_pass(head: Seq<u8>)
    requires
        !h2c_offered(lines_of(head.take(head_length(head)))),
    ensures
        without_h2c(head) == head,
{
}

// ---------------------------------------------------------------------------
// Laws of requests
// ---------------------------------------------------------------------------

/// A name with a port reads back as the two.
pub proof fn law_authority_splits_into_host_and_port(host: Seq<char>, port: u16)
    requires
        !host.contains(':'),
        host.len() > 0 ==> host[0] != '[',
    ensures
        crate::dns::host_part(host + seq![':'] + text::decimal(port as nat)) == host,
        port_of(host + seq![':'] + text::decimal(port as nat)) == Some(port),
        upstream_port(host + seq![':'] + text::decimal(port as nat)) == port,
{
    let digits = text::decimal(port as nat);
    let authority = host + seq![':'] + digits;
    assert forall|j: int| 0 <= j < host.len() implies authority[j] != ':' by {
        assert(authority[j] == host[j]);
        assert(host.contains(host[j]));
    }
    assert(authority[host.len() as int] == ':');
    text::lemma_scan_is(authority, ':', host.len() as int);
    assert(authority.take(host.len() as int) =~= host);
    assert(authority.skip(host.len() as int + 1) =~= digits);
    if host.len() > 0 {
        assert(authority[0] == host[0]);
    }
    text::lemma_decimal_reads_back(port as nat, u16::MAX as int);
    let rest = authority.skip(host.len() as int);
    assert(rest =~= seq![':'] + digits);
    assert(rest.skip(1) =~= digits);
}

/// A text without a line end in it, before a line end, is the first line.
proof fn lemma_first_line(line: Seq<char>, rest: Seq<char>, from: int)
    requires
        0 <= from <= line.len(),
        text::find_from(line, "\r\n"@, from) is None,
    ensures
        text::find_from(line + "\r\n"@ + rest, "\r\n"@, from) == Some(line.len() as int),
    decreases line.len() - from,
{
    reveal_strlit("\r\n");
    let end = "\r\n"@;
    let t = line + end + rest;
    if from == line.len() {
        assert(t.subrange(from, from + 2) =~= end);
    } else {
        if from + 2 <= line.len() {
            assert(t.subrange(from, from + 2) =~= line.subrange(from, from + 2));
        } else {
            assert(t.subrange(from, from + 2)[1] == '\r');
            assert(end[1] == '\n');
            assert(text::find_from(line, end, from + 1) is None);
        }
        assert(t.subrange(from, from + 2) != end);
        lemma_first_line(line, rest, from + 1);
    }
}

/// The lines of a text that starts with a line.
proof fn lemma_crlf_lines(line: Seq<char>, rest: Seq<char>)
    requires
        text::find(line, "\r\n"@) is None,
    ensures
        crlf_lines(line + "\r\n"@ + rest) == seq![line] + crlf_lines(rest),
{
    reveal_strlit("\r\n");
    let t = line + "\r\n"@ + rest;
    lemma_first_line(line, rest, 0);
    assert(t.take(line.len() as int) =~= line);
    assert(t.skip(line.len() as int + 2) =~= rest);
}

/// Of a `CONNECT` request, however the method is cased, the authority that the
/// request line was built with is read back.
pub proof fn law_connect_authority_reads_back(
    head: Seq<u8>,
    method: Seq<char>,
    authority: Seq<char>,
    version: Seq<char>,
    rest: Seq<char>,
)
    requires
        text::lower(method) == "connect"@,
        !authority.contains(' '),
        text::find(method + seq![' '] + (authority + seq![' '] + version), "\r\n"@) is None,
        vstd::utf8::valid_utf8(head),
        vstd::utf8::decode_utf8(head) == method + seq![' '] + (authority + seq![' '] + version)
            + "\r\n"@ + rest,
    ensures
        parsed_head(head) == Some((RequestKind::Connect, authority)),
{
    reveal_strlit("connect");
    let line = method + seq![' '] + (authority + seq![' '] + version);
    lemma_crlf_lines(line, rest);
    assert forall|j: int| 0 <= j < method.len() implies method[j] != ' ' by {
        assert(text::lower(method)[j] == text::lower_char(method[j]));
        assert(text::lower(method).len() == 7);
        assert("connect"@[j] != ' ');
    }
    text::lemma_split_join(method, ' ', authority + seq![' '] + version);
    text::lemma_split_whole(method, ' ');
    text::lemma_split_join(authority, ' ', version);
    text::lemma_split_whole(authority, ' ');
    let parts = text::split(line, ' ');
    assert(crlf_lines(line + "\r\n"@ + rest)[0] == line);
    assert(parts =~= seq![method, authority] + text::split(version, ' '));
}

/// Padding round a text that starts and ends with no white space is trimmed.
proof fn lemma_padded(before: Seq<char>, inner: Seq<char>, after: Seq<char>)
    requires
        forall|i: int| 0 <= i < before.len() ==> text::white_space(#[trigger] before[i]),
        forall|i: int| 0 <= i < after.len() ==> text::white_space(#[trigger] after[i]),
        inner.len() > 0,
        !text::white_space(inner[0]),
        !text::white_space(inner.last()),
    ensures
        text::trim_white(before + inner + after) == inner,
{
    let p = |c: char| text::white_space(c);
    let s = before + inner + after;
    assert forall|i: int| 0 <= i < before.len() implies p(#[trigger] s[i]) by {
        assert(s[i] == before[i]);
    }
    assert(s[before.len() as int] == inner[0]);
    text::lemma_leading_is(s, p, before.len() as int);
    let tail = s.skip(before.len() as int);
    assert(tail =~= inner + after);
    assert forall|i: int| tail.len() - after.len() <= i < tail.len() implies p(#[trigger] tail[i]) by {
        assert(tail[i] == after[i - inner.len()]);
    }
    assert(tail[inner.len() - 1] == inner.last());
    text::lemma_trailing_is(tail, p, after.len() as int);
    assert(tail.take(inner.len() as int) =~= inner);
}

/// Of any other request, the authority that its `Host` header was built with
/// is read back, whatever the method, the target, the casing of the header's
/// name and the white space round the value.
pub proof fn law_host_authority_reads_back(
    head: Seq<u8>,
    request: Seq<char>,
    name: Seq<char>,
    before: Seq<char>,
    authority: Seq<char>,
    after: Seq<char>,
    rest: Seq<char>,
)
    requires
        text::lower(text::split(request, ' ')[0]) != "connect"@,
        text::find(request, "\r\n"@) is None,
        text::lower(name) == "host"@,
        forall|i: int| 0 <= i < before.len() ==> text::white_space(#[trigger] before[i]),
        forall|i: int| 0 <= i < after.len() ==> text::white_space(#[trigger] after[i]),
        authority.len() > 0,
        !text::white_space(authority[0]),
        !text::white_space(authority.last()),
        text::find(name + seq![':'] + (before + authority + after), "\r\n"@) is None,
        vstd::utf8::valid_utf8(head),
        vstd::utf8::decode_utf8(head) == request + "\r\n"@ + (name + seq![':'] + (before + authority
            + after) + "\r\n"@ + rest),
    ensures
        parsed_head(head) == Some((RequestKind::Forward, authority)),
{
    reveal_strlit("host");
    let value = before + authority + after;
    let header = name + seq![':'] + value;
    lemma_crlf_lines(request, header + "\r\n"@ + rest);
    lemma_crlf_lines(header, rest);
    let lines = crlf_lines(vstd::utf8::decode_utf8(head));
    assert(lines[0] == request);
    assert(lines.drop_first() =~= seq![header] + crlf_lines(rest));
    assert forall|j: int| 0 <= j < name.len() implies name[j] != ':' && !text::white_space(name[j]) by {
        assert(text::lower(name)[j] == text::lower_char(name[j]));
        assert(text::lower(name).len() == 4);
        assert('h' <= "host"@[j] <= 't');
    }
    assert forall|j: int| 0 <= j < name.len() implies header[j] != ':' by {
        assert(header[j] == name[j]);
    }
    assert(header[name.len() as int] == ':');
    text::lemma_scan_is(header, ':', name.len() as int);
    assert(header.take(name.len() as int) =~= name);
    assert(header.skip(name.len() as int + 1) =~= value);
    assert(text::lower(name).len() == 4);
    text::lemma_trim_whole(name, |c: char| text::white_space(c));
    lemma_padded(before, authority, after);
    assert(host_value(header) == Some(authority));
    assert(lines.drop_first()[0] == header);
}

/// Lines with a carriage return and a line feed between each two.
pub open spec fn crlf_joined(lines: Seq<Seq<char>>) -> Seq<char>
    decreases lines.len(),
{
    if lines.len() == 0 {
        Seq::empty()
    } else if lines.len() == 1 {
        lines[0]
    } else {
        lines[0] + seq!['\r', '\n'] + crlf_joined(lines.drop_first())
    }
}

/// Whether a line holds no carriage return with a line feed behind it.
pub open spec fn unbroken(line: Seq<char>) -> bool {
    forall|i: int| 0 <= i < line.len() - 1 ==> !(#[trigger] line[i] == '\r' && line[i + 1] == '\n')
}

/// Whether a line names the host: before its first colon stand the four letters,
/// in any case, and around them nothing but white space.
pub open spec fn names_host(line: Seq<char>) -> bool {
    exists|before: Seq<char>, name: Seq<char>, after: Seq<char>, value: Seq<char>|
        #![trigger (before + name + after + seq![':'] + value)]
        {
            &&& line == before + name + after + seq![':'] + value
            &&& text::reads_as(name, seq!['h', 'o', 's', 't'])
            &&& forall|i: int| 0 <= i < before.len() ==> text::white_space(#[trigger] before[i])
            &&& forall|i: int| 0 <= i < after.len() ==> text::white_space(#[trigger] after[i])
        }
}

/// A text without a line end in it is not broken.
proof fn lemma_unbroken(line: Seq<char>, from: int)
    requires
        unbroken(line),
        0 <= from,
    ensures
        text::find_from(line, "\r\n"@, from) is None,
    decreases line.len() - from + 1,
{
    reveal_strlit("\r\n");
    if from + 2 <= line.len() {
        let at = line.subrange(from, from + 2);
        assert(at[0] == line[from] && at[1] == line[from + 1]);
        lemma_unbroken(line, from + 1);
    }
}

/// A text is read as the lines it was joined from.
proof fn lemma_joined_lines(lines: Seq<Seq<char>>)
    requires
        lines.len() > 0,
        forall|i: int| 0 <= i < lines.len() ==> unbroken(#[trigger] lines[i]),
    ensures
        crlf_lines(crlf_joined(lines)) == lines,
    decreases lines.len(),
{
    reveal_strlit("\r\n");
    assert("\r\n"@ =~= seq!['\r', '\n']);
    assert(unbroken(lines[0]));
    lemma_unbroken(lines[0], 0);
    if lines.len() == 1 {
        assert(seq![lines[0]] =~= lines);
    } else {
        let rest = lines.drop_first();
        assert forall|i: int| 0 <= i < rest.len() implies unbroken(#[trigger] rest[i]) by {
            assert(unbroken(lines[i + 1]));
        }
        lemma_joined_lines(rest);
        lemma_crlf_lines(lines[0], crlf_joined(rest));
        assert(seq![lines[0]] + rest =~= lines);
    }
}

/// What a line that names the host is made of, and its value.
proof fn lemma_host_line(
    before: Seq<char>,
    name: Seq<char>,
    after: Seq<char>,
    lead: Seq<char>,
    value: Seq<char>,
    trail: Seq<char>,
)
    requires
        text::reads_as(name, seq!['h', 'o', 's', 't']),
        forall|i: int| 0 <= i < before.len() ==> text::white_space(#[trigger] before[i]),
        forall|i: int| 0 <= i < after.len() ==> text::white_space(#[trigger] after[i]),
        forall|i: int| 0 <= i < lead.len() ==> text::white_space(#[trigger] lead[i]),
        forall|i: int| 0 <= i < trail.len() ==> text::white_space(#[trigger] trail[i]),
        value.len() > 0 ==> !text::white_space(value[0]) && !text::white_space(value.last()),
    ensures
        host_value(before + name + after + seq![':'] + (lead + value + trail)) == Some(value),
{
    reveal_strlit("host");
    let word = seq!['h', 'o', 's', 't'];
    assert("host"@ =~= word);
    let front = before + name + after;
    let behind = lead + value + trail;
    let line = front + seq![':'] + behind;
    text::law_lower_is_blind_to_case(name, word);
    assert forall|i: int| 0 <= i < front.len() implies line[i] != ':' by {
        if i < before.len() {
            assert(front[i] == before[i]);
            assert(text::white_space(before[i]));
        } else if i < before.len() + name.len() {
            let k = i - before.len();
            assert(front[i] == name[k]);
            assert(name[k] == word[k] || name[k] as int + 32 == word[k] as int);
            assert('h' <= word[k] <= 't');
        } else {
            let k = i - before.len() - name.len();
            assert(front[i] == after[k]);
            assert(text::white_space(after[k]));
        }
    }
    assert(line[front.len() as int] == ':');
    text::lemma_scan_is(line, ':', front.len() as int);
    assert(line.take(front.len() as int) =~= front);
    assert(line.skip(front.len() as int + 1) =~= behind);
    let p = |c: char| text::white_space(c);
    assert(name.len() == 4);
    assert(name[0] == word[0] || name[0] as int + 32 == word[0] as int);
    assert(name[3] == word[3] || name[3] as int + 32 == word[3] as int);
    text::law_trim_takes_the_ends_off(before, name, after, p);
    text::law_trim_takes_the_ends_off(lead, value, trail, p);
}

/// A line has a host's value exactly if it names the host.
proof fn lemma_names_host(line: Seq<char>)
    ensures
        names_host(line) <==> host_value(line) is Some,
{
    reveal_strlit("host");
    let word = seq!['h', 'o', 's', 't'];
    assert("host"@ =~= word);
    let p = |c: char| text::white_space(c);
    if names_host(line) {
        let (before, name, after, value) = choose|
            before: Seq<char>,
            name: Seq<char>,
            after: Seq<char>,
            value: Seq<char>,
        |
            #![trigger (before + name + after + seq![':'] + value)]
            {
                &&& line == before + name + after + seq![':'] + value
                &&& text::reads_as(name, word)
                &&& forall|i: int| 0 <= i < before.len() ==> text::white_space(#[trigger] before[i])
                &&& forall|i: int| 0 <= i < after.len() ==> text::white_space(#[trigger] after[i])
            };
        text::lemma_trimmed(value, p);
        let (lead, trail) = text::lemma_trim_parts(value, p);
        lemma_host_line(before, name, after, lead, text::trim_white(value), trail);
    }
    if host_value(line) is Some {
        let colon = text::scan(line, ':');
        text::lemma_scan(line, ':');
        let front = line.take(colon);
        let (before, after) = text::lemma_trim_parts(front, p);
        let name = text::trim_white(front);
        text::law_lower_is_blind_to_case(name, word);
        let value = line.skip(colon + 1);
        assert(line =~= before + name + after + seq![':'] + value);
        assert(names_host(line));
    }
}

/// The first line that names the host gives the value.
proof fn lemma_first_host(lines: Seq<Seq<char>>, k: int)
    requires
        0 <= k <= lines.len(),
        forall|j: int| 0 <= j < k ==> !names_host(#[trigger] lines[j]),
    ensures
        k == lines.len() ==> first_host(lines) is None,
        k < lines.len() && host_value(lines[k]) is Some ==> first_host(lines) == host_value(lines[k]),
    decreases k,
{
    if k > 0 {
        assert(!names_host(lines[0]));
        lemma_names_host(lines[0]);
        let rest = lines.drop_first();
        assert forall|j: int| 0 <= j < k - 1 implies !names_host(#[trigger] rest[j]) by {
            assert(!names_host(lines[j + 1]));
        }
        lemma_first_host(rest, k - 1);
        if k < lines.len() {
            assert(rest[k - 1] == lines[k]);
        }
    }
}

/// Of a request that is no `CONNECT`, the first line behind the request line that
/// names the host gives the authority, wherever it stands, with the white space
/// around the value off; the lines before and behind it do not matter.
pub proof fn law_host_header_is_found_wherever_it_stands(
    head: Seq<u8>,
    lines: Seq<Seq<char>>,
    method: Seq<char>,
    target: Seq<char>,
    k: int,
    before: Seq<char>,
    name: Seq<char>,
    after: Seq<char>,
    lead: Seq<char>,
    authority: Seq<char>,
    trail: Seq<char>,
)
    requires
        vstd::utf8::valid_utf8(head),
        vstd::utf8::decode_utf8(head) == crlf_joined(lines),
        forall|i: int| 0 <= i < lines.len() ==> unbroken(#[trigger] lines[i]),
        0 < k < lines.len(),
        lines[0] == method + target,
        !method.contains(' '),
        target.len() > 0 ==> target[0] == ' ',
        !text::reads_as(method, seq!['c', 'o', 'n', 'n', 'e', 'c', 't']),
        forall|j: int| 0 < j < k ==> !names_host(#[trigger] lines[j]),
        lines[k] == before + name + after + seq![':'] + (lead + authority + trail),
        text::reads_as(name, seq!['h', 'o', 's', 't']),
        forall|i: int| 0 <= i < before.len() ==> text::white_space(#[trigger] before[i]),
        forall|i: int| 0 <= i < after.len() ==> text::white_space(#[trigger] after[i]),
        forall|i: int| 0 <= i < lead.len() ==> text::white_space(#[trigger] lead[i]),
        forall|i: int| 0 <= i < trail.len() ==> text::white_space(#[trigger] trail[i]),
        authority.len() > 0 ==> !text::white_space(authority[0]) && !text::white_space(
            authority.last(),
        ),
    ensures
        parsed_head(head) == Some((RequestKind::Forward, authority)),
{
    lemma_joined_lines(lines);
    lemma_method(lines[0], method, target);
    lemma_host_line(before, name, after, lead, authority, trail);
    let rest = lines.drop_first();
    assert forall|j: int| 0 <= j < k - 1 implies !names_host(#[trigger] rest[j]) by {
        assert(!names_host(lines[j + 1]));
    }
    lemma_first_host(rest, k - 1);
    assert(rest[k - 1] == lines[k]);
}

/// A request that is no `CONNECT` and has no line that names the host has no
/// authority, and neither has a head that is no text.
pub proof fn law_request_without_a_host_has_no_authority(
    head: Seq<u8>,
    lines: Seq<Seq<char>>,
    method: Seq<char>,
    target: Seq<char>,
)
    requires
        vstd::utf8::valid_utf8(head) ==> {
            &&& lines.len() > 0
            &&& vstd::utf8::decode_utf8(head) == crlf_joined(lines)
            &&& forall|i: int| 0 <= i < lines.len() ==> unbroken(#[trigger] lines[i])
            &&& lines[0] == method + target
            &&& !method.contains(' ')
            &&& target.len() > 0 ==> target[0] == ' '
            &&& !text::reads_as(method, seq!['c', 'o', 'n', 'n', 'e', 'c', 't'])
            &&& forall|j: int| 0 < j < lines.len() ==> !names_host(#[trigger] lines[j])
        },
    ensures
        parsed_head(head) is None,
{
    if vstd::utf8::valid_utf8(head) {
        lemma_joined_lines(lines);
        lemma_method(lines[0], method, target);
        let rest = lines.drop_first();
        assert forall|j: int| 0 <= j < rest.len() implies !names_host(#[trigger] rest[j]) by {
            assert(!names_host(lines[j + 1]));
        }
        lemma_first_host(rest, rest.len() as int);
    }
}

/// The method of a request line is what comes before its first space.
proof fn lemma_method(line: Seq<char>, method: Seq<char>, target: Seq<char>)
    requires
        line == method + target,
        !method.contains(' '),
        target.len() > 0 ==> target[0] == ' ',
    ensures
        text::split(line, ' ')[0] == method,
        target.len() == 0 ==> text::split(line, ' ').len() == 1,
        text::lower(method) == "connect"@ <==> text::reads_as(
            method,
            seq!['c', 'o', 'n', 'n', 'e', 'c', 't'],
        ),
{
    reveal_strlit("connect");
    let word = seq!['c', 'o', 'n', 'n', 'e', 'c', 't'];
    assert("connect"@ =~= word);
    text::law_lower_is_blind_to_case(method, word);
    if target.len() == 0 {
        assert(line =~= method);
        text::law_split_parts_at_the_separator(method, ' ', Seq::empty());
    } else {
        assert(line =~= method + seq![' '] + target.skip(1));
        text::law_split_parts_at_the_separator(method, ' ', target.skip(1));
    }
}

/// Of a `CONNECT`, in any case, the authority is what stands between the first
/// space of the request line and the next, or the line's end; no header counts.
/// Without a space there is none.
pub proof fn law_connect_authority_is_in_the_request_line(
    head: Seq<u8>,
    lines: Seq<Seq<char>>,
    method: Seq<char>,
    authority: Seq<char>,
    version: Seq<char>,
)
    requires
        vstd::utf8::valid_utf8(head),
        lines.len() > 0,
        vstd::utf8::decode_utf8(head) == crlf_joined(lines),
        forall|i: int| 0 <= i < lines.len() ==> unbroken(#[trigger] lines[i]),
        text::reads_as(method, seq!['c', 'o', 'n', 'n', 'e', 'c', 't']),
        !authority.contains(' '),
        version.len() > 0 ==> version[0] == ' ',
    ensures
        lines[0] == method + seq![' '] + authority + version ==> parsed_head(head) == Some(
            (RequestKind::Connect, authority),
        ),
        lines[0] == method ==> parsed_head(head) is None,
{
    let word = seq!['c', 'o', 'n', 'n', 'e', 'c', 't'];
    assert(!method.contains(' ')) by {
        if method.contains(' ') {
            let i = choose|i: int| 0 <= i < method.len() && method[i] == ' ';
            assert(method[i] == word[i] || method[i] as int + 32 == word[i] as int);
            assert('c' <= word[i] <= 't');
        }
    }
    lemma_joined_lines(lines);
    if lines[0] == method + seq![' '] + authority + version {
        let tail = authority + version;
        assert(lines[0] =~= method + (seq![' '] + tail));
        lemma_method(lines[0], method, seq![' '] + tail);
        assert(lines[0] =~= method + seq![' '] + tail);
        text::law_split_parts_at_the_separator(method, ' ', tail);
        if version.len() == 0 {
            assert(tail =~= authority);
            text::law_split_parts_at_the_separator(authority, ' ', Seq::empty());
        } else {
            assert(tail =~= authority + seq![' '] + version.skip(1));
            text::law_split_parts_at_the_separator(authority, ' ', version.skip(1));
        }
    }
    if lines[0] == method {
        lemma_method(lines[0], method, Seq::empty());
    }
}

// ---------------------------------------------------------------------------
// Laws of routing
// ---------------------------------------------------------------------------

/// The port of a request is what a decimal numeral behind its host and a colon
/// says, and 80 where there is none, or none that a port can be.
pub proof fn law_port_is_behind_the_host(host: Seq<char>, digits: Seq<char>)
    requires
        !host.contains(':') && (host.len() > 0 ==> host[0] != '[') || {
            &&& host.len() > 1
            &&& host[0] == '['
            &&& host.last() == ']'
            &&& forall|i: int| 0 < i < host.len() - 1 ==> #[trigger] host[i] != ']'
        },
    ensures
        crate::dns::host_part(host) == host,
        crate::dns::host_part(host + seq![':'] + digits) == host,
        port_of(host) is None,
        upstream_port(host) == 80,
        port_of(host + seq![':'] + digits) == (match text::numeral(digits, 10, 65535) {
            Some(n) => Some(n as u16),
            None => None,
        }),
        upstream_port(host + seq![':'] + digits) == (match text::numeral(digits, 10, 65535) {
            Some(n) => n as u16,
            None => 80,
        }),
{
    let s = host + seq![':'] + digits;
    if !host.contains(':') && (host.len() > 0 ==> host[0] != '[') {
        crate::dns::law_host_ends_at_the_colon_or_the_bracket(host, digits);
    } else {
        let inner = host.subrange(1, host.len() - 1);
        assert(host =~= seq!['['] + inner + seq![']']);
        assert(!inner.contains(']')) by {
            if inner.contains(']') {
                let i = choose|i: int| 0 <= i < inner.len() && inner[i] == ']';
                assert(host[i + 1] == ']');
            }
        }
        crate::dns::law_host_ends_at_the_colon_or_the_bracket(inner, seq![':'] + digits);
        crate::dns::law_host_ends_at_the_colon_or_the_bracket(inner, Seq::empty());
        assert(s =~= seq!['['] + inner + seq![']'] + (seq![':'] + digits));
        assert(host =~= seq!['['] + inner + seq![']'] + Seq::<char>::empty());
    }
    assert(host.skip(host.len() as int) =~= Seq::<char>::empty());
    assert(s.skip(host.len() as int) =~= seq![':'] + digits);
    assert((seq![':'] + digits).skip(1) =~= digits);
}

/// The caller at an address is the session whose lease it is, with its name and
/// its rules; an address that is no session's lease, or the lease of one that
/// nothing is kept of, has none.
pub proof fn law_caller_is_the_holder_of_the_lease(
    registry: RegistryView,
    id: crate::session::SessionId,
    name: Seq<char>,
    egress: crate::session::EgressRules,
    lease: Ipv4Addr,
    ports: Map<u16, u16>,
    session_name: Seq<char>,
)
    ensures
        ({
            let told = (RegistryView {
                callers: registry.callers.insert(id.id, (name, egress)),
                ..registry
            }).reported(id, session_name, lease, ports);
            caller_of(told, lease) == Some(CallerView { lease, name, egress })
        }),
        caller_of(registry.forgotten(id), lease) matches Some(caller)
            ==> registry.by_lease[lease.bits].id != id.id,
        !registry.by_lease.contains_key(lease.bits) ==> caller_of(registry, lease) is None,
        registry.by_lease.contains_key(lease.bits) && !registry.callers.contains_key(
            registry.by_lease[lease.bits].id,
        ) ==> caller_of(registry, lease) is None,
{
}

/// What a refused request is answered with: 408 where its head did not come in
/// time, 400 where it cannot be read, 403 where a policy is against it, and 502
/// where there is nothing to reach.
pub proof fn law_refusal_is_answered_by_its_reason()
    ensures
        Reason::HeadTimeout.answered() == Status::RequestTimeout,
        Reason::UnparseableHead.answered() == Status::BadRequest,
        Reason::EgressDenied.answered() == Status::Forbidden,
        Reason::NotPublished.answered() == Status::Forbidden,
        Reason::NoOwner.answered() == Status::BadGateway,
        Reason::UpstreamRefused.answered() == Status::BadGateway,
        Status::BadRequest.shown() == "400 Bad Request"@,
        Status::Forbidden.shown() == "403 Forbidden"@,
        Status::RequestTimeout.shown() == "408 Request Timeout"@,
        Status::BadGateway.shown() == "502 Bad Gateway"@,
{
}

/// A connection is taken for HTTP/2 exactly if it opens with the fourteen bytes of
/// the preface's request line.
pub proof fn law_preface_is_its_request_line(head: Seq<u8>)
    ensures
        h2_preface(head) <==> {
            &&& head.len() >= 14
            &&& head[0] == 0x50 && head[1] == 0x52 && head[2] == 0x49 && head[3] == 0x20
            &&& head[4] == 0x2a && head[5] == 0x20 && head[6] == 0x48 && head[7] == 0x54
            &&& head[8] == 0x54 && head[9] == 0x50 && head[10] == 0x2f && head[11] == 0x32
            &&& head[12] == 0x2e && head[13] == 0x30
        },
{
    reveal_strlit("PRI * HTTP/2.0");
    let want = text::ascii("PRI * HTTP/2.0"@);
    assert(want =~= seq![
        0x50u8,
        0x52,
        0x49,
        0x20,
        0x2a,
        0x20,
        0x48,
        0x54,
        0x54,
        0x50,
        0x2f,
        0x32,
        0x2e,
        0x30,
    ]);
    if head.len() >= 14 {
        let front = head.take(14);
        if front == want {
            assert(forall|i: int| 0 <= i < 14 ==> #[trigger] front[i] == head[i]);
        }
        if h2_preface(head) {
            assert(front[0] == head[0] && front[1] == head[1] && front[2] == head[2] && front[3]
                == head[3] && front[4] == head[4] && front[5] == head[5] && front[6] == head[6]
                && front[7] == head[7] && front[8] == head[8] && front[9] == head[9] && front[10]
                == head[10] && front[11] == head[11] && front[12] == head[12] && front[13]
                == head[13]);
        } else if head[0] == 0x50 && head[1] == 0x52 && head[2] == 0x49 && head[3] == 0x20
            && head[4] == 0x2a && head[5] == 0x20 && head[6] == 0x48 && head[7] == 0x54 && head[8]
            == 0x54 && head[9] == 0x50 && head[10] == 0x2f && head[11] == 0x32 && head[12] == 0x2e
            && head[13] == 0x30 {
            assert(front =~= want);
        }
    }
}

/// A head is complete exactly once it holds two line ends in a row anywhere; until
/// then more is read, up to 8192 bytes, and an end of the stream ends it.
pub proof fn law_head_is_complete_at_the_empty_line(buf: Seq<u8>, chunk: Seq<u8>, at: int)
    ensures
        chunk.len() == 0 ==> head_progress(buf, chunk) == HeadProgress::Ended,
        chunk.len() > 0 && 0 <= at && at + 4 <= buf.len() && buf[at] == 13 && buf[at + 1] == 10
            && buf[at + 2] == 13 && buf[at + 3] == 10 ==> head_progress(buf, chunk)
            == HeadProgress::Complete,
        chunk.len() > 0 && (forall|i: int|
            0 <= i && i + 4 <= buf.len() ==> !(#[trigger] buf[i] == 13 && buf[i + 1] == 10 && buf[i
                + 2] == 13 && buf[i + 3] == 10)) ==> head_progress(buf, chunk) == (if buf.len()
            > 8192 {
            HeadProgress::TooLarge
        } else {
            HeadProgress::More
        }),
{
    lemma_terminators();
    let marker = end_marker();
    if 0 <= at && at + 4 <= buf.len() && buf[at] == 13 && buf[at + 1] == 10 && buf[at + 2] == 13
        && buf[at + 3] == 10 {
        assert(buf.subrange(at, at + 4) =~= marker);
        text::lemma_found_by(buf, marker, 0, at);
    }
    if text::find(buf, marker) is Some {
        let i = text::find(buf, marker)->0;
        text::lemma_found(buf, marker, 0);
        let found = buf.subrange(i, i + 4);
        assert(found[0] == buf[i] && found[1] == buf[i + 1] && found[2] == buf[i + 2] && found[3]
            == buf[i + 3]);
    }
}

/// Whether bytes are a word of small letters and signs, each letter in either
/// case.
pub open spec fn spelt(word: Seq<u8>, want: Seq<u8>) -> bool {
    word.len() == want.len() && forall|i: int|
        0 <= i < word.len() ==> (#[trigger] word[i] == want[i] || 97 <= want[i] <= 122 && word[i] + 32
            == want[i])
}

proof fn lemma_spelt(word: Seq<u8>, text: Seq<char>, want: Seq<u8>)
    requires
        text::ascii(text) == want,
        forall|i: int| 0 <= i < want.len() ==> !(65 <= #[trigger] want[i] <= 90),
    ensures
        is_word(word, text) <==> spelt(word, want),
{
    text::law_same_but_case_is_blind_to_letters_case(word, want);
    if spelt(word, want) {
        assert forall|i: int| 0 <= i < word.len() implies {
            ||| #[trigger] word[i] == want[i]
            ||| 65 <= word[i] <= 90 && want[i] == word[i] + 32
            ||| 97 <= word[i] <= 122 && want[i] == word[i] - 32
        } by {
            assert(word[i] == want[i] || 97 <= want[i] <= 122 && word[i] + 32 == want[i]);
        }
    }
    if is_word(word, text) {
        assert forall|i: int| 0 <= i < word.len() implies (#[trigger] word[i] == want[i] || 97
            <= want[i] <= 122 && word[i] + 32 == want[i]) by {
            assert(!(65 <= want[i] <= 90));
        }
    }
}

/// `upgrade`, byte by byte.
pub open spec fn upgrade_bytes() -> Seq<u8> {
    seq![0x75u8, 0x70, 0x67, 0x72, 0x61, 0x64, 0x65]
}

/// `connection`, byte by byte.
pub open spec fn connection_bytes() -> Seq<u8> {
    seq![0x63u8, 0x6f, 0x6e, 0x6e, 0x65, 0x63, 0x74, 0x69, 0x6f, 0x6e]
}

/// `http2-settings`, byte by byte.
pub open spec fn settings_bytes() -> Seq<u8> {
    seq![
        0x68u8,
        0x74,
        0x74,
        0x70,
        0x32,
        0x2d,
        0x73,
        0x65,
        0x74,
        0x74,
        0x69,
        0x6e,
        0x67,
        0x73,
    ]
}

/// `h2c`, byte by byte.
pub open spec fn h2c_bytes() -> Seq<u8> {
    seq![0x68u8, 0x32, 0x63]
}

proof fn lemma_header_words(word: Seq<u8>)
    ensures
        is_word(word, "upgrade"@) <==> spelt(word, upgrade_bytes()),
        is_word(word, "connection"@) <==> spelt(word, connection_bytes()),
        is_word(word, "http2-settings"@) <==> spelt(word, settings_bytes()),
        is_word(word, "h2c"@) <==> spelt(word, h2c_bytes()),
{
    reveal_strlit("upgrade");
    reveal_strlit("connection");
    reveal_strlit("http2-settings");
    reveal_strlit("h2c");
    assert(text::ascii("upgrade"@) =~= upgrade_bytes());
    assert(text::ascii("connection"@) =~= connection_bytes());
    assert(text::ascii("http2-settings"@) =~= settings_bytes());
    assert(text::ascii("h2c"@) =~= h2c_bytes());
    lemma_spelt(word, "upgrade"@, upgrade_bytes());
    lemma_spelt(word, "connection"@, connection_bytes());
    lemma_spelt(word, "http2-settings"@, settings_bytes());
    lemma_spelt(word, "h2c"@, h2c_bytes());
}

/// A header line: blanks, a name without a colon or a line feed in it, blanks, a
/// colon, a value, and an end.
pub open spec fn header_line(
    before: Seq<u8>,
    name: Seq<u8>,
    after: Seq<u8>,
    value: Seq<u8>,
    end: Seq<u8>,
) -> bool {
    &&& forall|i: int| 0 <= i < before.len() ==> text::ascii_space(#[trigger] before[i]) && before[i] != 10
    &&& forall|i: int| 0 <= i < after.len() ==> text::ascii_space(#[trigger] after[i]) && after[i] != 10
    &&& !name.contains(58u8)
    &&& !name.contains(10u8)
    &&& name.len() > 0 ==> !text::ascii_space(name[0]) && !text::ascii_space(name.last())
    &&& !value.contains(10u8)
    &&& end == seq![13u8, 10u8] || (end == seq![10u8] && (value.len() > 0 ==> value.last() != 13))
}

/// A header line is its name and its value.
pub proof fn law_header_line_is_its_name_and_value(
    before: Seq<u8>,
    name: Seq<u8>,
    after: Seq<u8>,
    value: Seq<u8>,
    end: Seq<u8>,
)
    requires
        header_line(before, name, after, value, end),
    ensures
        parts_of(before + name + after + seq![58u8] + value + end) == Some((name, value)),
        body_length(before + name + after + seq![58u8] + value + end) == before.len() + name.len()
            + after.len() + 1 + value.len(),
{
    lemma_terminators();
    let front = before + name + after;
    let body = front + seq![58u8] + value;
    let line = body + end;
    assert(line =~= before + name + after + seq![58u8] + value + end);
    let n = line.len() as int;
    assert(line.skip(n - 1) =~= seq![line[n - 1]]);
    assert(line.skip(n - 2) =~= seq![line[n - 2], line[n - 1]]);
    if end == seq![13u8, 10u8] {
        assert(line[n - 2] == end[0] && line[n - 1] == end[1]);
        assert(line.skip(n - 2) =~= end);
    } else {
        assert(line[n - 1] == end[0]);
        assert(line[n - 2] == body.last());
        assert(line.skip(n - 2)[0] != 13);
        assert(line.skip(n - 1) =~= end);
    }
    assert(body_length(line) == body.len());
    assert(line.take(body.len() as int) =~= body);
    assert forall|i: int| 0 <= i < front.len() implies body[i] != 58u8 by {
        if i < before.len() {
            assert(body[i] == before[i]);
            assert(text::ascii_space(before[i]));
        } else if i < before.len() + name.len() {
            assert(body[i] == name[i - before.len()]);
            assert(name.contains(name[i - before.len()]));
        } else {
            let k = i - before.len() - name.len();
            assert(body[i] == after[k]);
            assert(text::ascii_space(after[k]));
        }
    }
    assert(body[front.len() as int] == 58u8);
    text::lemma_scan_is(body, 58u8, front.len() as int);
    assert(body.take(front.len() as int) =~= front);
    assert(body.skip(front.len() as int + 1) =~= value);
    text::law_trim_takes_the_ends_off(before, name, after, |b: u8| text::ascii_space(b));
}

/// What a strip leaves of one header line. An `Upgrade` header keeps what it
/// offers beside `h2c`; an `HTTP2-Settings` header goes; a `Connection` header
/// keeps all but the tokens that name `HTTP2-Settings`, and `Upgrade` where no
/// offer is left. A line of which nothing is left goes, and every other line
/// stays as it is, byte for byte.
pub proof fn law_strip_leaves_what_is_not_h2c(
    before: Seq<u8>,
    name: Seq<u8>,
    after: Seq<u8>,
    value: Seq<u8>,
    end: Seq<u8>,
    survives: bool,
)
    requires
        header_line(before, name, after, value, end),
    ensures
        ({
            let line = before + name + after + seq![58u8] + value + end;
            let left = stripped_line(line, survives);
            let offers = tokens_of(value).filter(|t: Seq<u8>| !spelt(t, h2c_bytes()));
            let named = tokens_of(value).filter(
                |t: Seq<u8>|
                    !spelt(t, settings_bytes()) && (survives || !spelt(t, upgrade_bytes())),
            );
            if spelt(name, upgrade_bytes()) {
                left == (if offers.len() == 0 {
                    Seq::<u8>::empty()
                } else {
                    name + seq![58u8, 32u8] + joined(offers) + end
                })
            } else if spelt(name, settings_bytes()) {
                left.len() == 0
            } else if spelt(name, connection_bytes()) {
                left == (if named.len() == 0 {
                    Seq::<u8>::empty()
                } else {
                    name + seq![58u8, 32u8] + joined(named) + end
                })
            } else {
                left == line
            }
        }),
{
    let line = before + name + after + seq![58u8] + value + end;
    law_header_line_is_its_name_and_value(before, name, after, value, end);
    lemma_header_words(name);
    lemma_separators();
    reveal_strlit(": ");
    assert(text::ascii(": "@) =~= seq![58u8, 32u8]);
    let f = |t: Seq<u8>| !spelt(t, h2c_bytes());
    let g = |t: Seq<u8>|
        !spelt(t, settings_bytes()) && (survives || !spelt(t, upgrade_bytes()));
    assert forall|t: Seq<u8>| #[trigger] f(t) == upgrade_stays()(t) by {
        lemma_header_words(t);
    }
    assert forall|t: Seq<u8>| #[trigger] g(t) == connection_stays(survives)(t) by {
        lemma_header_words(t);
    }
    assert(f =~= upgrade_stays());
    assert(g =~= connection_stays(survives));
    assert(line.skip(body_length(line)) =~= end);
}

/// What is left of a head is what is left of each of its lines, in their order.
pub proof fn law_strip_goes_line_by_line(
    a: Seq<Seq<u8>>,
    b: Seq<Seq<u8>>,
    line: Seq<u8>,
    survives: bool,
)
    ensures
        stripped_lines(a + b, survives) == stripped_lines(a, survives) + stripped_lines(b, survives),
        stripped_lines(seq![line], survives) == stripped_line(line, survives),
        stripped_lines(Seq::<Seq<u8>>::empty(), survives).len() == 0,
        !line.contains(58u8) ==> stripped_line(line, survives) == line,
    decreases b.len(),
{
    let one = seq![line];
    assert(one.drop_last() =~= Seq::<Seq<u8>>::empty());
    assert(stripped_lines(one.drop_last(), survives) =~= Seq::<u8>::empty());
    assert(stripped_lines(one, survives) =~= stripped_line(line, survives));
    if !line.contains(58u8) {
        lemma_terminators();
        let body = line.take(body_length(line));
        text::lemma_scan(body, 58u8);
        if text::scan(body, 58u8) < body.len() {
            let i = text::scan(body, 58u8);
            assert(line[i] == 58u8);
        }
    }
    if b.len() == 0 {
        assert(a + b =~= a);
        assert(stripped_lines(a, survives) + stripped_lines(b, survives) =~= stripped_lines(
            a,
            survives,
        ));
    } else {
        law_strip_goes_line_by_line(a, b.drop_last(), line, survives);
        assert((a + b).drop_last() =~= a + b.drop_last());
        assert((a + b).last() == b.last());
        assert(stripped_lines(a + b, survives) =~= stripped_lines(a, survives) + stripped_lines(
            b,
            survives,
        ));
    }
}

/// What is stripped is the block up to the first empty line; what follows it is
/// kept as it is. A block is stripped exactly if a line behind its first is an
/// `Upgrade` header with `h2c` among its tokens, and an offer is left exactly if
/// an `Upgrade` header has another token.
pub proof fn law_strip_keeps_the_body(block: Seq<u8>, body: Seq<u8>)
    requires
        text::find(block + body, seq![13u8, 10u8, 13u8, 10u8]) == Some(block.len() - 4),
    ensures
        without_h2c(block + body) == (if exists|i: int|
            1 <= i < lines_of(block).len() && offers_h2c(#[trigger] lines_of(block)[i]) {
            stripped_lines(
                lines_of(block),
                exists|i: int|
                    0 <= i < lines_of(block).len() && offers_other(#[trigger] lines_of(block)[i]),
            ) + body
        } else {
            block + body
        }),
{
    lemma_terminators();
    let head = block + body;
    assert(head.take(block.len() as int) =~= block);
    assert(head.skip(block.len() as int) =~= body);
}

/// An `Upgrade` header offers `h2c` exactly if one of its tokens is `h2c` in any
/// case, and another thing exactly if one is not; no other line offers anything.
#[verifier::spinoff_prover]
pub proof fn law_offer_is_a_token_of_an_upgrade_header(
    before: Seq<u8>,
    name: Seq<u8>,
    after: Seq<u8>,
    value: Seq<u8>,
    end: Seq<u8>,
)
    requires
        header_line(before, name, after, value, end),
    ensures
        offers_h2c(before + name + after + seq![58u8] + value + end) <==> (spelt(
            name,
            upgrade_bytes(),
        ) && (exists|i: int|
            0 <= i < tokens_of(value).len() && spelt(#[trigger] tokens_of(value)[i], h2c_bytes()))),
        offers_other(before + name + after + seq![58u8] + value + end) <==> (spelt(
            name,
            upgrade_bytes(),
        ) && (exists|i: int|
            0 <= i < tokens_of(value).len() && !spelt(#[trigger] tokens_of(value)[i], h2c_bytes()))),
{
    let line = before + name + after + seq![58u8] + value + end;
    law_header_line_is_its_name_and_value(before, name, after, value, end);
    lemma_header_words(name);
    let ts = tokens_of(value);
    assert(parts_of(line) == Some((name, value)));
    lemma_offers(line, name, value);
    lemma_has_word(ts);
}

/// What a line offers, by its name and its tokens.
proof fn lemma_offers(line: Seq<u8>, name: Seq<u8>, value: Seq<u8>)
    requires
        parts_of(line) == Some((name, value)),
    ensures
        offers_h2c(line) <==> (is_word(name, "upgrade"@) && has_word(tokens_of(value), true)),
        offers_other(line) <==> (is_word(name, "upgrade"@) && has_word(tokens_of(value), false)),
{
    let ts = tokens_of(value);
    if offers_h2c(line) {
        let i = choose|i: int|
            0 <= i < tokens_of(value).len() && is_word(#[trigger] tokens_of(value)[i], "h2c"@);
        assert(is_word(ts[i], "h2c"@) == true);
        assert(has_word(ts, true));
    }
    if has_word(ts, true) {
        let i = choose|i: int| 0 <= i < ts.len() && is_word(#[trigger] ts[i], "h2c"@) == true;
        assert(is_word(tokens_of(value)[i], "h2c"@));
    }
    if offers_other(line) {
        let i = choose|i: int|
            0 <= i < tokens_of(value).len() && !is_word(#[trigger] tokens_of(value)[i], "h2c"@);
        assert(is_word(ts[i], "h2c"@) == false);
        assert(has_word(ts, false));
    }
    if has_word(ts, false) {
        let i = choose|i: int| 0 <= i < ts.len() && is_word(#[trigger] ts[i], "h2c"@) == false;
        assert(!is_word(tokens_of(value)[i], "h2c"@));
        let (n, v) = parts_of(line)->0;
        assert(0 <= i < tokens_of(v).len() && !is_word(tokens_of(v)[i], "h2c"@));
        if is_word(name, "upgrade"@) {
            assert(offers_other(line));
        }
    }
}

/// Whether one of some tokens is `h2c`, or one is not.
spec fn has_word(tokens: Seq<Seq<u8>>, want: bool) -> bool {
    exists|i: int| 0 <= i < tokens.len() && is_word(#[trigger] tokens[i], "h2c"@) == want
}

proof fn lemma_has_word(tokens: Seq<Seq<u8>>)
    ensures
        has_word(tokens, true) <==> (exists|i: int|
            0 <= i < tokens.len() && spelt(#[trigger] tokens[i], h2c_bytes())),
        has_word(tokens, false) <==> (exists|i: int|
            0 <= i < tokens.len() && !spelt(#[trigger] tokens[i], h2c_bytes())),
{
    assert forall|i: int| 0 <= i < tokens.len() implies is_word(#[trigger] tokens[i], "h2c"@)
        == spelt(tokens[i], h2c_bytes()) by {
        lemma_header_words(tokens[i]);
    }
}

/// The tokens of a value are what its commas part, without the blanks around each;
/// tokens are written back with a comma and a space between each two.
pub proof fn law_tokens_are_parted_by_commas(
    before: Seq<u8>,
    token: Seq<u8>,
    after: Seq<u8>,
    rest: Seq<u8>,
    tokens: Seq<Seq<u8>>,
)
    requires
        forall|i: int| 0 <= i < before.len() ==> text::ascii_space(#[trigger] before[i]),
        forall|i: int| 0 <= i < after.len() ==> text::ascii_space(#[trigger] after[i]),
        !token.contains(44u8),
        token.len() > 0 ==> !text::ascii_space(token[0]) && !text::ascii_space(token.last()),
    ensures
        tokens_of(before + token + after) == seq![token],
        tokens_of(before + token + after + seq![44u8] + rest) == seq![token] + tokens_of(rest),
        joined(seq![token]) == token,
        tokens.len() > 0 ==> joined(tokens.push(token)) == joined(tokens) + seq![44u8, 32u8] + token,
{
    let piece = before + token + after;
    assert(!piece.contains(44u8)) by {
        if piece.contains(44u8) {
            let i = choose|i: int| 0 <= i < piece.len() && piece[i] == 44u8;
            if i < before.len() {
                assert(text::ascii_space(before[i]));
            } else if i < before.len() + token.len() {
                assert(token[i - before.len()] == 44u8);
            } else {
                assert(text::ascii_space(after[i - before.len() - token.len()]));
            }
        }
    }
    text::law_split_parts_at_the_separator(piece, 44u8, rest);
    text::law_trim_takes_the_ends_off(before, token, after, |b: u8| text::ascii_space(b));
    assert(tokens_of(piece) =~= seq![token]);
    assert(tokens_of(piece + seq![44u8] + rest) =~= seq![token] + tokens_of(rest));
    reveal_strlit(", ");
    assert(text::ascii(", "@) =~= seq![44u8, 32u8]);
    let all = tokens.push(token);
    assert(all.drop_last() =~= tokens);
}

/// Lines end with a line feed: what comes before the first, and it, is the first
/// line, and the lines behind it follow; what is left at the end is one too.
pub proof fn law_head_lines_end_in_line_feeds(line: Seq<u8>, rest: Seq<u8>)
    requires
        !line.contains(10u8),
    ensures
        lines_of(line + seq![10u8] + rest) == seq![line + seq![10u8]] + lines_of(rest),
        line.len() > 0 ==> lines_of(line) == seq![line],
        lines_of(Seq::<u8>::empty()).len() == 0,
{
    let s = line + seq![10u8] + rest;
    assert forall|j: int| 0 <= j < line.len() implies s[j] != 10u8 && line[j] != 10u8 by {
        assert(s[j] == line[j]);
        assert(line.contains(line[j]));
    }
    assert(s[line.len() as int] == 10u8);
    text::lemma_scan_is(s, 10u8, line.len() as int);
    assert(s.take(line.len() as int + 1) =~= line + seq![10u8]);
    assert(s.skip(line.len() as int + 1) =~= rest);
    text::lemma_scan_is(line, 10u8, line.len() as int);
}

/// A head that is not complete is stripped as a whole, and a line without a colon
/// offers nothing.
pub proof fn law_incomplete_head_is_stripped_whole(head: Seq<u8>, line: Seq<u8>)
    requires
        text::find(head, seq![13u8, 10u8, 13u8, 10u8]) is None,
    ensures
        without_h2c(head) == (if exists|i: int|
            1 <= i < lines_of(head).len() && offers_h2c(#[trigger] lines_of(head)[i]) {
            stripped_lines(
                lines_of(head),
                exists|i: int|
                    0 <= i < lines_of(head).len() && offers_other(#[trigger] lines_of(head)[i]),
            )
        } else {
            head
        }),
        !line.contains(58u8) ==> !offers_h2c(line) && !offers_other(line),
{
    reveal_strlit("\r\n\r\n");
    assert(end_marker() =~= seq![13u8, 10u8, 13u8, 10u8]);
    let n = head.len() as int;
    assert(head.take(n) =~= head);
    assert(head.skip(n) =~= Seq::<u8>::empty());
    let lines = lines_of(head);
    let left = stripped_lines(lines, offer_survives(lines));
    assert(left + Seq::<u8>::empty() =~= left);
    if !line.contains(58u8) {
        reveal_strlit("\r\n");
        reveal_strlit("\n");
        assert(text::ascii("\r\n"@).len() == 2 && text::ascii("\n"@).len() == 1);
        assert(0 <= body_length(line) <= line.len());
        let body = line.take(body_length(line));
        text::lemma_scan(body, 58u8);
        if text::scan(body, 58u8) < body.len() {
            assert(line[text::scan(body, 58u8)] == 58u8);
        }
    }
}

/// A request that has a route has a head that names it: its host is what the
/// route is found by, its port goes with the host, and its caller is the box at
/// the peer's address, which no address but one of IPv4 is.
pub proof fn law_routed_request_is_the_heads(
    routed: Routed<'_>,
    table: RegistryView,
    head: Seq<u8>,
    peer: Option<IpAddr>,
    ip: Ipv4Addr,
)
    requires
        routes_head(routed, table, head, peer),
    ensures
        parsed_head(head) is Some,
        routed.kind == (parsed_head(head)->0).0,
        routed.host@ == crate::dns::host_part((parsed_head(head)->0).1),
        routed.port == upstream_port((parsed_head(head)->0).1),
        table.resolved(routed.host@) == Some(routed.route@),
        peer is None ==> routed.caller is None,
        peer matches Some(IpAddr::V6(_)) ==> routed.caller is None,
        peer == Some(IpAddr::V4(ip)) ==> (routed.caller is Some <==> caller_of(table, ip) is Some),
        peer == Some(IpAddr::V4(ip)) && routed.caller is Some ==> caller_of(table, ip) == Some(
            routed.caller->0@,
        ),
{
}

/// Behind an address in brackets a port stands only behind a colon: anything else
/// there names none, and the request goes to port 80.
pub proof fn law_port_behind_brackets_needs_its_colon(inside: Seq<char>, rest: Seq<char>)
    requires
        !inside.contains(']'),
        rest.len() > 0 ==> rest[0] != ':',
    ensures
        port_of(seq!['['] + inside + seq![']'] + rest) is None,
        upstream_port(seq!['['] + inside + seq![']'] + rest) == 80,
        port_of(seq!['['] + inside) is None,
        upstream_port(seq!['['] + inside) == 80,
{
    let open = seq!['['] + inside;
    let host = open + seq![']'];
    let all = host + rest;
    crate::dns::law_host_ends_at_the_colon_or_the_bracket(inside, rest);
    assert(all.skip(host.len() as int) =~= rest);
    assert(open.skip(open.len() as int) =~= Seq::<char>::empty());
}

} // verus!
