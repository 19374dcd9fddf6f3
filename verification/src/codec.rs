//! Block-region codec: renders, detects and strips the marker-delimited
//! region that the blocker inserts into the hosts file.
//!
//! The hosts file is treated as a byte sequence. The region is a fixed
//! opening marker line, one line per blocked hostname of the form
//! `<address><TAB><hostname>`, and a fixed closing marker line, preceded by
//! a newline when appended.

use crate::config::Config;
use vstd::prelude::*;
use vstd::string::StrSliceExecFns;
use vstd::utf8::encode_utf8;

verus! {

/// Newline byte.
pub open spec fn nl() -> u8 {
    10u8
}

/// Horizontal tab byte.
pub open spec fn tab() -> u8 {
    9u8
}

/// The opening marker, `# BEGIN FOCUS BLOCK`, as bytes.
pub open spec fn open_marker_bytes() -> Seq<u8> {
    seq![
        '#' as u8, ' ' as u8, 'B' as u8, 'E' as u8, 'G' as u8, 'I' as u8, 'N' as u8, ' ' as u8,
        'F' as u8, 'O' as u8, 'C' as u8, 'U' as u8, 'S' as u8, ' ' as u8, 'B' as u8, 'L' as u8,
        'O' as u8, 'C' as u8, 'K' as u8,
    ]
}

/// The closing marker, `# END FOCUS BLOCK`, as bytes.
pub open spec fn close_marker_bytes() -> Seq<u8> {
    seq![
        '#' as u8, ' ' as u8, 'E' as u8, 'N' as u8, 'D' as u8, ' ' as u8, 'F' as u8, 'O' as u8,
        'C' as u8, 'U' as u8, 'S' as u8, ' ' as u8, 'B' as u8, 'L' as u8, 'O' as u8, 'C' as u8,
        'K' as u8,
    ]
}

/// The pattern `p` occurs in `t` starting at index `i`.
pub open spec fn occurs_at(t: Seq<u8>, p: Seq<u8>, i: int) -> bool {
    &&& 0 <= i
    &&& i + p.len() <= t.len()
    &&& forall|m: int| 0 <= m < p.len() ==> t[i + m] == p[m]
}

/// The pattern `p` occurs somewhere in `t`.
pub open spec fn occurs(t: Seq<u8>, p: Seq<u8>) -> bool {
    exists|i: int| occurs_at(t, p, i)
}

/// The least index at or after `from` where `p` occurs in `t`, if any.
pub open spec fn first_at(t: Seq<u8>, p: Seq<u8>, from: int) -> Option<int>
    decreases t.len() - from,
{
    if from < 0 || from + p.len() > t.len() {
        None
    } else if occurs_at(t, p, from) {
        Some(from)
    } else {
        first_at(t, p, from + 1)
    }
}

/// `first_at` returns exactly the least occurrence at or after `from`.
pub proof fn lemma_first_at_props(t: Seq<u8>, p: Seq<u8>, from: int)
    requires
        0 <= from,
    ensures
        match first_at(t, p, from) {
            Some(i) => from <= i && occurs_at(t, p, i) && forall|k: int|
                from <= k < i ==> !occurs_at(t, p, k),
            None => forall|k: int| from <= k ==> !occurs_at(t, p, k),
        },
    decreases t.len() - from,
{
    if from + p.len() > t.len() {
        assert forall|k: int| from <= k implies !occurs_at(t, p, k) by {
            if occurs_at(t, p, k) {
                assert(k + p.len() <= t.len());
            }
        }
    } else if occurs_at(t, p, from) {
    } else {
        lemma_first_at_props(t, p, from + 1);
    }
}

/// A search that found nothing at or after `from` means `first_at` is `None`.
proof fn lemma_first_at_none_from(t: Seq<u8>, p: Seq<u8>, from: int)
    requires
        0 <= from,
        forall|k: int| from <= k ==> !occurs_at(t, p, k),
    ensures
        first_at(t, p, from) is None,
{
    lemma_first_at_props(t, p, from);
    if let Some(i) = first_at(t, p, from) {
        assert(occurs_at(t, p, i));
    }
}

/// Occurrences in a suffix of `t` are the occurrences of `t` shifted by the
/// suffix's start.
proof fn lemma_occurs_shift(t: Seq<u8>, p: Seq<u8>, pos: int)
    requires
        0 <= pos <= t.len(),
    ensures
        forall|k: int| #[trigger]
            occurs_at(t.subrange(pos, t.len() as int), p, k) ==> occurs_at(t, p, k + pos),
        forall|k: int|
            pos <= k && #[trigger] occurs_at(t, p, k) ==> occurs_at(
                t.subrange(pos, t.len() as int),
                p,
                k - pos,
            ),
{
    let sub = t.subrange(pos, t.len() as int);
    assert forall|k: int| #[trigger] occurs_at(sub, p, k) implies occurs_at(t, p, k + pos) by {
        assert forall|m: int| 0 <= m < p.len() implies t[(k + pos) + m] == p[m] by {
            assert(sub[k + m] == t[pos + (k + m)]);
        }
    }
    assert forall|k: int| pos <= k && #[trigger] occurs_at(t, p, k) implies occurs_at(
        sub,
        p,
        k - pos,
    ) by {
        assert forall|m: int| 0 <= m < p.len() implies sub[(k - pos) + m] == p[m] by {
            assert(sub[(k - pos) + m] == t[pos + ((k - pos) + m)]);
        }
    }
}

/// If `p` occurs at `i` and nowhere between `from` and `i`, the search from
/// `from` finds exactly `i`.
proof fn lemma_first_at_exact(t: Seq<u8>, p: Seq<u8>, from: int, i: int)
    requires
        0 <= from <= i,
        occurs_at(t, p, i),
        forall|k: int| from <= k < i ==> !occurs_at(t, p, k),
    ensures
        first_at(t, p, from) == Some(i),
    decreases i - from,
{
    if from == i {
    } else {
        lemma_first_at_exact(t, p, from + 1, i);
    }
}

/// Builds the opening marker.
fn open_marker() -> (r: Vec<u8>)
    ensures
        r@ == open_marker_bytes(),
{
    let mut v: Vec<u8> = Vec::new();
    v.push('#' as u8);
    v.push(' ' as u8);
    v.push('B' as u8);
    v.push('E' as u8);
    v.push('G' as u8);
    v.push('I' as u8);
    v.push('N' as u8);
    v.push(' ' as u8);
    v.push('F' as u8);
    v.push('O' as u8);
    v.push('C' as u8);
    v.push('U' as u8);
    v.push('S' as u8);
    v.push(' ' as u8);
    v.push('B' as u8);
    v.push('L' as u8);
    v.push('O' as u8);
    v.push('C' as u8);
    v.push('K' as u8);
    proof {
        assert(v@ =~= open_marker_bytes());
    }
    v
}

/// Builds the closing marker.
fn close_marker() -> (r: Vec<u8>)
    ensures
        r@ == close_marker_bytes(),
{
    let mut v: Vec<u8> = Vec::new();
    v.push('#' as u8);
    v.push(' ' as u8);
    v.push('E' as u8);
    v.push('N' as u8);
    v.push('D' as u8);
    v.push(' ' as u8);
    v.push('F' as u8);
    v.push('O' as u8);
    v.push('C' as u8);
    v.push('U' as u8);
    v.push('S' as u8);
    v.push(' ' as u8);
    v.push('B' as u8);
    v.push('L' as u8);
    v.push('O' as u8);
    v.push('C' as u8);
    v.push('K' as u8);
    proof {
        assert(v@ =~= close_marker_bytes());
    }
    v
}

/// Whether `p` occurs in `t` at index `i`.
fn match_at(t: &Vec<u8>, p: &Vec<u8>, i: usize) -> (r: bool)
    requires
        i + p@.len() <= t@.len(),
    ensures
        r == occurs_at(t@, p@, i as int),
{
    let n = t.len();
    let plen = p.len();
    let mut m: usize = 0;
    while m < plen
        invariant
            n == t@.len(),
            plen == p@.len(),
            i + plen <= n,
            0 <= m <= plen,
            forall|k: int| 0 <= k < m ==> t@[i + k] == p@[k],
        decreases plen - m,
    {
        if t[i + m] != p[m] {
            return false;
        }
        m += 1;
    }
    true
}

/// The least index at or after `from` where `p` occurs in `t`, if any.
fn find(t: &Vec<u8>, p: &Vec<u8>, from: usize) -> (r: Option<usize>)
    ensures
        match r {
            Some(i) => from <= i && occurs_at(t@, p@, i as int) && forall|k: int|
                from <= k < i ==> !occurs_at(t@, p@, k),
            None => forall|k: int| from <= k ==> !occurs_at(t@, p@, k),
        },
{
    let n = t.len();
    let plen = p.len();
    if plen > n {
        assert forall|k: int| from <= k implies !occurs_at(t@, p@, k) by {
            if occurs_at(t@, p@, k) {
                assert(k + p@.len() <= t@.len());
            }
        }
        return None;
    }
    let mut i: usize = from;
    while i <= n - plen
        invariant
            n == t@.len(),
            plen == p@.len(),
            plen <= n,
            from <= i,
            forall|k: int| from <= k < i ==> !occurs_at(t@, p@, k),
        decreases n - i,
    {
        if match_at(t, p, i) {
            return Some(i);
        }
        i += 1;
    }
    assert forall|k: int| from <= k implies !occurs_at(t@, p@, k) by {
        if occurs_at(t@, p@, k) {
            assert(k + p@.len() <= t@.len());
        }
    }
    None
}

/// One blocking line: `<address><TAB><hostname><NL>`.
pub open spec fn line_bytes(ip: Seq<u8>, site: Seq<u8>) -> Seq<u8> {
    ip + seq![tab()] + site + seq![nl()]
}

/// The blocking lines for all hostnames, in order.
pub open spec fn lines_bytes(ip: Seq<u8>, sites: Seq<Seq<u8>>) -> Seq<u8>
    decreases sites.len(),
{
    if sites.len() == 0 {
        Seq::empty()
    } else {
        lines_bytes(ip, sites.drop_last()) + line_bytes(ip, sites.last())
    }
}

/// The whole region as appended to the hosts file: a newline, the opening
/// marker line, the blocking lines, and the closing marker.
pub open spec fn region_bytes(ip: Seq<u8>, sites: Seq<Seq<u8>>) -> Seq<u8> {
    seq![nl()] + open_marker_bytes() + seq![nl()] + lines_bytes(ip, sites) + close_marker_bytes()
}

/// The UTF-8 bytes of each hostname.
pub open spec fn site_views(sites: Seq<String>) -> Seq<Seq<u8>> {
    sites.map_values(|s: String| encode_utf8(s@))
}

/// The region a configuration renders to.
pub open spec fn region_of(config: Config) -> Seq<u8> {
    region_bytes(encode_utf8(config.block_ip@), site_views(config.blocked_sites@))
}

/// Appends the UTF-8 bytes of `s` to `out`.
fn push_str_bytes(out: &mut Vec<u8>, s: &str)
    ensures
        final(out)@ == old(out)@ + encode_utf8(s@),
{
    let mut b = s.as_bytes_vec();
    out.append(&mut b);
}

/// Renders the block region for `config`: deterministic, and byte-identical
/// for equal configurations.
pub fn build_blocked_content(config: &Config) -> (r: Vec<u8>)
    ensures
        r@ == region_of(*config),
{
    let ghost ip: Seq<u8> = encode_utf8(config.block_ip@);
    let ghost sviews: Seq<Seq<u8>> = site_views(config.blocked_sites@);
    let mut out: Vec<u8> = Vec::new();
    out.push('\n' as u8);
    let mut open = open_marker();
    out.append(&mut open);
    out.push('\n' as u8);
    let ghost prefix: Seq<u8> = out@;
    proof {
        assert(prefix =~= seq![nl()] + open_marker_bytes() + seq![nl()]);
        assert(sviews.take(0) =~= Seq::<Seq<u8>>::empty());
    }
    let n = config.blocked_sites.len();
    let mut i: usize = 0;
    while i < n
        invariant
            n == config.blocked_sites@.len(),
            0 <= i <= n,
            ip == encode_utf8(config.block_ip@),
            sviews == site_views(config.blocked_sites@),
            prefix == seq![nl()] + open_marker_bytes() + seq![nl()],
            out@ == prefix + lines_bytes(ip, sviews.take(i as int)),
        decreases n - i,
    {
        push_str_bytes(&mut out, config.block_ip.as_str());
        out.push('\t' as u8);
        let site: &String = &config.blocked_sites[i];
        push_str_bytes(&mut out, site.as_str());
        out.push('\n' as u8);
        proof {
            assert(sviews.take(i + 1).drop_last() =~= sviews.take(i as int));
            assert(sviews.take(i + 1).last() == sviews[i as int]);
            assert(out@ =~= prefix + lines_bytes(ip, sviews.take(i + 1)));
        }
        i += 1;
    }
    let mut close = close_marker();
    out.append(&mut close);
    proof {
        assert(sviews.take(n as int) =~= sviews);
        assert(out@ =~= region_bytes(ip, sviews));
    }
    out
}

/// Both markers occur, the opening one before the closing one.
pub open spec fn is_present_spec(t: Seq<u8>) -> bool {
    exists|i: int, j: int|
        i < j && occurs_at(t, open_marker_bytes(), i) && occurs_at(t, close_marker_bytes(), j)
}

/// Reports whether a block region is present in the hosts-file text.
pub fn is_present(t: &Vec<u8>) -> (r: bool)
    ensures
        r == is_present_spec(t@),
{
    let open = open_marker();
    let close = close_marker();
    let n = t.len();
    match find(t, &open, 0) {
        None => {
            assert(!is_present_spec(t@));
            false
        },
        Some(i) => {
            assert(i + open_marker_bytes().len() <= n);
            match find(t, &close, i + 1) {
                Some(j) => {
                    assert(is_present_spec(t@)) by {
                        assert(occurs_at(t@, open_marker_bytes(), i as int));
                        assert(occurs_at(t@, close_marker_bytes(), j as int));
                        assert(i < j);
                    }
                    true
                },
                None => {
                    assert(!is_present_spec(t@)) by {
                        if is_present_spec(t@) {
                            let (a, b) = choose|a: int, b: int|
                                a < b && occurs_at(t@, open_marker_bytes(), a) && occurs_at(
                                    t@,
                                    close_marker_bytes(),
                                    b,
                                );
                            assert(i <= a);
                            assert(!occurs_at(t@, close_marker_bytes(), b));
                        }
                    }
                    false
                },
            }
        },
    }
}

/// The text after one idempotent insertion: unchanged when a region is
/// already present, else with `region` appended.
pub open spec fn insert_spec(t: Seq<u8>, region: Seq<u8>) -> Seq<u8> {
    if is_present_spec(t) {
        t
    } else {
        t + region
    }
}

/// The text with every marker-delimited region removed: repeatedly, the
/// first opening marker and the first closing marker after it are located
/// and everything from the opening marker (and the newline just before it,
/// when the removal does not sit at the start of what is left) through the
/// end of the closing marker is dropped. Text without a complete region is
/// left untouched.
pub open spec fn strip_spec(t: Seq<u8>) -> Seq<u8>
    decreases t.len(),
    via strip_spec_decreases
{
    match first_at(t, open_marker_bytes(), 0) {
        None => t,
        Some(i) => match first_at(t, close_marker_bytes(), i + open_marker_bytes().len() as int) {
            None => t,
            Some(j) => {
                let start = if i > 0 && t[i - 1] == nl() {
                    i - 1
                } else {
                    i
                };
                t.subrange(0, start) + strip_spec(
                    t.subrange(j + close_marker_bytes().len() as int, t.len() as int),
                )
            },
        },
    }
}

#[via_fn]
proof fn strip_spec_decreases(t: Seq<u8>) {
    lemma_first_at_props(t, open_marker_bytes(), 0);
    if let Some(i) = first_at(t, open_marker_bytes(), 0) {
        lemma_first_at_props(t, close_marker_bytes(), i + open_marker_bytes().len() as int);
    }
}

/// Appends `t[a..b]` to `out`.
pub(crate) fn push_range(out: &mut Vec<u8>, t: &Vec<u8>, a: usize, b: usize)
    requires
        a <= b <= t@.len(),
    ensures
        final(out)@ == old(out)@ + t@.subrange(a as int, b as int),
{
    let mut k = a;
    while k < b
        invariant
            a <= k <= b <= t@.len(),
            out@ == old(out)@ + t@.subrange(a as int, k as int),
        decreases b - k,
    {
        let byte = t[k];
        out.push(byte);
        proof {
            assert(old(out)@ + t@.subrange(a as int, k + 1) =~= (old(out)@ + t@.subrange(
                a as int,
                k as int,
            )).push(t@[k as int]));
        }
        k += 1;
    }
    proof {
        assert(out@ =~= old(out)@ + t@.subrange(a as int, b as int));
    }
}

/// Reports whether `p` occurs in `t` as a contiguous run of bytes.
pub fn contains_bytes(t: &Vec<u8>, p: &Vec<u8>) -> (r: bool)
    ensures
        r == occurs(t@, p@),
{
    match find(t, p, 0) {
        Some(i) => {
            assert(occurs_at(t@, p@, i as int));
            true
        },
        None => {
            assert(!occurs(t@, p@)) by {
                if occurs(t@, p@) {
                    let i = choose|i: int| occurs_at(t@, p@, i);
                    assert(0 <= i);
                }
            }
            false
        },
    }
}

/// Unfolds `strip_spec` once when both markers are found.
proof fn lemma_strip_unfold(s: Seq<u8>, i: int, j: int)
    requires
        first_at(s, open_marker_bytes(), 0) == Some(i),
        first_at(s, close_marker_bytes(), i + open_marker_bytes().len() as int) == Some(j),
    ensures
        strip_spec(s) == s.subrange(
            0,
            if i > 0 && s[i - 1] == nl() {
                i - 1
            } else {
                i
            },
        ) + strip_spec(s.subrange(j + close_marker_bytes().len() as int, s.len() as int)),
{
}

/// Removes every marker-delimited block region from the hosts-file text,
/// leaving the surrounding content untouched. Absence of a complete region
/// makes this a no-op.
#[verifier::rlimit(50)]
pub fn strip(t: &Vec<u8>) -> (r: Vec<u8>)
    ensures
        r@ == strip_spec(t@),
{
    let open = open_marker();
    let close = close_marker();
    let n = t.len();
    let mut out: Vec<u8> = Vec::new();
    let mut pos: usize = 0;
    proof {
        assert(t@.subrange(0, n as int) =~= t@);
        assert(out@ + strip_spec(t@) =~= strip_spec(t@));
    }
    loop
        invariant
            open@ == open_marker_bytes(),
            close@ == close_marker_bytes(),
            n == t@.len(),
            0 <= pos <= n,
            strip_spec(t@) == out@ + strip_spec(t@.subrange(pos as int, n as int)),
        decreases n - pos,
    {
        let ghost suffix: Seq<u8> = t@.subrange(pos as int, n as int);
        let ghost out0: Seq<u8> = out@;
        proof {
            lemma_occurs_shift(t@, open_marker_bytes(), pos as int);
            lemma_occurs_shift(t@, close_marker_bytes(), pos as int);
        }
        let found_open = find(t, &open, pos);
        match found_open {
            None => {
                proof {
                    assert forall|k: int| 0 <= k implies !occurs_at(
                        suffix,
                        open_marker_bytes(),
                        k,
                    ) by {
                        if occurs_at(suffix, open_marker_bytes(), k) {
                            assert(occurs_at(t@, open_marker_bytes(), k + pos));
                        }
                    }
                    lemma_first_at_none_from(suffix, open_marker_bytes(), 0);
                    assert(strip_spec(suffix) == suffix);
                }
                push_range(&mut out, t, pos, n);
                proof {
                    assert(out@ == out0 + suffix);
                }
                return out;
            },
            Some(a) => {
                proof {
                    assert(occurs_at(suffix, open_marker_bytes(), a - pos));
                    assert forall|k: int| 0 <= k < a - pos implies !occurs_at(
                        suffix,
                        open_marker_bytes(),
                        k,
                    ) by {
                        if occurs_at(suffix, open_marker_bytes(), k) {
                            assert(occurs_at(t@, open_marker_bytes(), k + pos));
                        }
                    }
                    lemma_first_at_exact(suffix, open_marker_bytes(), 0, a - pos);
                }
                let found_close = find(t, &close, a + open.len());
                match found_close {
                    None => {
                        proof {
                            assert forall|k: int| a - pos + open_marker_bytes().len() <= k implies
                                !occurs_at(suffix, close_marker_bytes(), k) by {
                                if occurs_at(suffix, close_marker_bytes(), k) {
                                    assert(occurs_at(t@, close_marker_bytes(), k + pos));
                                }
                            }
                            lemma_first_at_none_from(
                                suffix,
                                close_marker_bytes(),
                                a - pos + open_marker_bytes().len() as int,
                            );
                            assert(strip_spec(suffix) == suffix);
                        }
                        push_range(&mut out, t, pos, n);
                        proof {
                            assert(out@ == out0 + suffix);
                        }
                        return out;
                    },
                    Some(c) => {
                        proof {
                            assert(occurs_at(suffix, close_marker_bytes(), c - pos));
                            assert forall|k: int|
                                a - pos + open_marker_bytes().len() <= k < c - pos implies
                                !occurs_at(suffix, close_marker_bytes(), k) by {
                                if occurs_at(suffix, close_marker_bytes(), k) {
                                    assert(occurs_at(t@, close_marker_bytes(), k + pos));
                                }
                            }
                            lemma_first_at_exact(
                                suffix,
                                close_marker_bytes(),
                                a - pos + open_marker_bytes().len() as int,
                                c - pos,
                            );
                            lemma_strip_unfold(suffix, a - pos, c - pos);
                        }
                        let start: usize = if a > pos && t[a - 1] == ('\n' as u8) {
                            a - 1
                        } else {
                            a
                        };
                        proof {
                            if a > pos {
                                assert(suffix[(a - pos) - 1] == t@[pos + ((a - pos) - 1)]);
                            }
                        }
                        push_range(&mut out, t, pos, start);
                        let newpos = c + close.len();
                        proof {
                            assert(suffix.subrange(0, start - pos) =~= t@.subrange(
                                pos as int,
                                start as int,
                            ));
                            assert(suffix.subrange(
                                c - pos + close_marker_bytes().len() as int,
                                suffix.len() as int,
                            ) =~= t@.subrange(newpos as int, n as int));
                            assert(out0 + strip_spec(suffix) =~= out@ + strip_spec(
                                t@.subrange(newpos as int, n as int),
                            ));
                        }
                        pos = newpos;
                    },
                }
            },
        }
    }
}

/// No byte of `s` is `#`, the byte both markers begin with.
pub open spec fn hash_free(s: Seq<u8>) -> bool {
    forall|i: int| 0 <= i < s.len() ==> s[i] != '#' as u8
}

/// Neither marker occurs anywhere in `t`.
pub open spec fn marker_free(t: Seq<u8>) -> bool {
    &&& forall|k: int| !occurs_at(t, open_marker_bytes(), k)
    &&& forall|k: int| !occurs_at(t, close_marker_bytes(), k)
}

/// The address and the hostnames contain no `#`, so the blocking lines
/// cannot imitate a marker.
pub open spec fn benign_sites(ip: Seq<u8>, sites: Seq<Seq<u8>>) -> bool {
    &&& hash_free(ip)
    &&& forall|k: int| 0 <= k < sites.len() ==> hash_free(#[trigger] sites[k])
}

/// Shape of the two markers: their lengths, their first byte, and that
/// neither contains a newline.
proof fn lemma_marker_bytes()
    ensures
        open_marker_bytes().len() == 19,
        close_marker_bytes().len() == 17,
        open_marker_bytes()[0] == '#' as u8,
        close_marker_bytes()[0] == '#' as u8,
        forall|m: int| 0 <= m < 19 ==> open_marker_bytes()[m] != nl(),
        forall|m: int| 0 <= m < 17 ==> close_marker_bytes()[m] != nl(),
{
}

/// The blocking lines of a benign configuration contain no `#`.
proof fn lemma_lines_hash_free(ip: Seq<u8>, sites: Seq<Seq<u8>>)
    requires
        benign_sites(ip, sites),
    ensures
        hash_free(lines_bytes(ip, sites)),
    decreases sites.len(),
{
    if sites.len() == 0 {
    } else {
        lemma_lines_hash_free(ip, sites.drop_last());
        let prefix = lines_bytes(ip, sites.drop_last());
        let line = line_bytes(ip, sites.last());
        assert(hash_free(line)) by {
            assert forall|i: int| 0 <= i < line.len() implies line[i] != '#' as u8 by {
                if i < ip.len() {
                    assert(line[i] == ip[i]);
                } else if i == ip.len() {
                    assert(line[i] == tab());
                } else if i < ip.len() + 1 + sites.last().len() {
                    assert(line[i] == sites.last()[i - ip.len() - 1]);
                } else {
                    assert(line[i] == nl());
                }
            }
        }
        assert forall|i: int| 0 <= i < lines_bytes(ip, sites).len() implies lines_bytes(ip, sites)[i]
            != '#' as u8 by {
            if i < prefix.len() {
                assert(lines_bytes(ip, sites)[i] == prefix[i]);
            } else {
                assert(lines_bytes(ip, sites)[i] == line[i - prefix.len()]);
            }
        }
    }
}

/// Where each part of the region sits within `region_bytes`.
proof fn lemma_region_index(ip: Seq<u8>, sites: Seq<Seq<u8>>)
    ensures
        region_bytes(ip, sites).len() == 38 + lines_bytes(ip, sites).len(),
        region_bytes(ip, sites)[0] == nl(),
        forall|m: int| 0 <= m < 19 ==> region_bytes(ip, sites)[1 + m] == open_marker_bytes()[m],
        region_bytes(ip, sites)[20] == nl(),
        forall|m: int|
            0 <= m < lines_bytes(ip, sites).len() ==> region_bytes(ip, sites)[21 + m]
                == lines_bytes(ip, sites)[m],
        forall|m: int|
            0 <= m < 17 ==> region_bytes(ip, sites)[21 + lines_bytes(ip, sites).len() + m]
                == close_marker_bytes()[m],
{
    lemma_marker_bytes();
    let lines = lines_bytes(ip, sites);
    let r = region_bytes(ip, sites);
    assert forall|m: int| 0 <= m < 19 implies r[1 + m] == open_marker_bytes()[m] by {}
    assert forall|m: int| 0 <= m < lines.len() implies r[21 + m] == lines[m] by {}
    assert forall|m: int| 0 <= m < 17 implies r[21 + lines.len() + m] == close_marker_bytes()[m] by {}
}

/// Appending a rendered region puts an opening marker right after the
/// leading newline and a closing marker at the end, so the result always
/// holds a region.
pub proof fn lemma_region_present(t: Seq<u8>, ip: Seq<u8>, sites: Seq<Seq<u8>>)
    ensures
        region_bytes(ip, sites).len() == 38 + lines_bytes(ip, sites).len(),
        occurs_at(t + region_bytes(ip, sites), open_marker_bytes(), t.len() as int + 1),
        occurs_at(
            t + region_bytes(ip, sites),
            close_marker_bytes(),
            t.len() as int + 21 + lines_bytes(ip, sites).len() as int,
        ),
        is_present_spec(t + region_bytes(ip, sites)),
{
    lemma_marker_bytes();
    lemma_region_index(ip, sites);
    let r = region_bytes(ip, sites);
    let lines = lines_bytes(ip, sites);
    let s = t + r;
    let tl: int = t.len() as int;
    let ll: int = lines.len() as int;
    assert forall|x: int| 0 <= x < r.len() implies s[tl + x] == r[x] by {}
    assert(occurs_at(s, open_marker_bytes(), tl + 1)) by {
        assert forall|m: int| 0 <= m < 19 implies s[(tl + 1) + m] == open_marker_bytes()[m] by {
            assert(s[tl + (1 + m)] == r[1 + m]);
        }
    }
    assert(occurs_at(s, close_marker_bytes(), tl + 21 + ll)) by {
        assert forall|m: int| 0 <= m < 17 implies s[(tl + 21 + ll) + m]
            == close_marker_bytes()[m] by {
            assert(s[tl + (21 + ll + m)] == r[21 + ll + m]);
        }
    }
    assert(tl + 1 < tl + 21 + ll);
}

/// A rendered region is detected as present, and empty text never is.
pub proof fn lemma_render_is_present(ip: Seq<u8>, sites: Seq<Seq<u8>>)
    ensures
        is_present_spec(region_bytes(ip, sites)),
        !is_present_spec(Seq::<u8>::empty()),
{
    lemma_region_present(Seq::<u8>::empty(), ip, sites);
    assert(Seq::<u8>::empty() + region_bytes(ip, sites) =~= region_bytes(ip, sites));
    lemma_marker_bytes();
    assert(!is_present_spec(Seq::<u8>::empty())) by {
        if is_present_spec(Seq::<u8>::empty()) {
            let (a, b) = choose|a: int, b: int|
                a < b && occurs_at(Seq::<u8>::empty(), open_marker_bytes(), a) && occurs_at(
                    Seq::<u8>::empty(),
                    close_marker_bytes(),
                    b,
                );
            assert(a + open_marker_bytes().len() <= 0);
        }
    }
}

/// Inserting the block region twice in a row changes nothing the second
/// time: the first insertion leaves a region present, and an insertion into
/// text with a present region is a no-op.
pub proof fn lemma_insert_idempotent(t: Seq<u8>, ip: Seq<u8>, sites: Seq<Seq<u8>>)
    ensures
        insert_spec(insert_spec(t, region_bytes(ip, sites)), region_bytes(ip, sites)) == insert_spec(
            t,
            region_bytes(ip, sites),
        ),
{
    if !is_present_spec(t) {
        lemma_region_present(t, ip, sites);
    }
}

/// Stripping text that begins with marker-free content followed by one
/// rendered region removes exactly that region (with the newline that
/// introduced it) and goes on with whatever follows.
pub proof fn lemma_strip_skips_region(t: Seq<u8>, ip: Seq<u8>, sites: Seq<Seq<u8>>, rest: Seq<u8>)
    requires
        marker_free(t),
        benign_sites(ip, sites),
    ensures
        strip_spec(t + region_bytes(ip, sites) + rest) == t + strip_spec(rest),
{
    lemma_marker_bytes();
    lemma_region_index(ip, sites);
    lemma_lines_hash_free(ip, sites);
    let r = region_bytes(ip, sites);
    let lines = lines_bytes(ip, sites);
    let s = t + r + rest;
    let tl: int = t.len() as int;
    let ll: int = lines.len() as int;
    let i0: int = tl + 1;
    let close_pos: int = tl + 21 + ll;
    assert forall|x: int| 0 <= x < r.len() implies s[tl + x] == r[x] by {
        assert((t + r)[tl + x] == r[x]);
    }
    assert forall|x: int| 0 <= x < tl implies s[x] == t[x] by {
        assert((t + r)[x] == t[x]);
    }
    // the opening marker occurs right after the leading newline ...
    assert(occurs_at(s, open_marker_bytes(), i0)) by {
        assert forall|m: int| 0 <= m < 19 implies s[i0 + m] == open_marker_bytes()[m] by {
            assert(s[tl + (1 + m)] == r[1 + m]);
        }
    }
    // ... and nowhere earlier: not inside marker-free `t`, and not across
    // the boundary, where it would have to contain the leading newline
    assert forall|k: int| 0 <= k < i0 implies !occurs_at(s, open_marker_bytes(), k) by {
        if occurs_at(s, open_marker_bytes(), k) {
            if k + 19 <= tl {
                assert(occurs_at(t, open_marker_bytes(), k)) by {
                    assert forall|m: int| 0 <= m < 19 implies t[k + m] == open_marker_bytes()[m] by {
                        assert(s[k + m] == t[k + m]);
                    }
                }
            } else {
                assert(s[k + (tl - k)] == open_marker_bytes()[tl - k]);
                assert(s[tl + 0] == r[0]);
            }
        }
    }
    lemma_first_at_exact(s, open_marker_bytes(), 0, i0);
    // the closing marker occurs at the region's end ...
    assert(occurs_at(s, close_marker_bytes(), close_pos)) by {
        assert forall|m: int| 0 <= m < 17 implies s[close_pos + m] == close_marker_bytes()[m] by {
            assert(s[tl + (21 + ll + m)] == r[21 + ll + m]);
        }
    }
    // ... and nowhere earlier after the opening marker: those positions
    // hold a newline or a blocking-line byte, never `#`
    assert forall|k: int| i0 + 19 <= k < close_pos implies !occurs_at(
        s,
        close_marker_bytes(),
        k,
    ) by {
        if occurs_at(s, close_marker_bytes(), k) {
            assert(s[k + 0] == close_marker_bytes()[0]);
            assert(s[tl + (k - tl)] == r[k - tl]);
            if k - tl == 20 {
                assert(r[20] == nl());
            } else {
                assert(r[21 + (k - tl - 21)] == lines[k - tl - 21]);
            }
        }
    }
    lemma_first_at_exact(s, close_marker_bytes(), i0 + 19, close_pos);
    // unfold one step of `strip_spec`
    assert(s[i0 - 1] == r[0]) by {
        assert(s[tl + 0] == r[0]);
    }
    lemma_strip_unfold(s, i0, close_pos);
    assert(s.subrange(0, tl) =~= t);
    assert(s.subrange(close_pos + 17, s.len() as int) =~= rest);
    assert(t + strip_spec(rest) == strip_spec(s));
}

/// Appending a rendered region to marker-free text and stripping restores
/// the text byte for byte.
pub proof fn lemma_strip_restores(t: Seq<u8>, ip: Seq<u8>, sites: Seq<Seq<u8>>)
    requires
        marker_free(t),
        benign_sites(ip, sites),
    ensures
        strip_spec(t + region_bytes(ip, sites)) == t,
{
    lemma_strip_skips_region(t, ip, sites, Seq::<u8>::empty());
    assert(t + region_bytes(ip, sites) + Seq::<u8>::empty() =~= t + region_bytes(ip, sites));
    assert(strip_spec(Seq::<u8>::empty()) == Seq::<u8>::empty());
    assert(t + Seq::<u8>::empty() =~= t);
}

/// Stripping removes every rendered region, not only the first: text with
/// two rendered regions separated by marker-free content is restored to the
/// surrounding content alone, with no leftover marker lines of either
/// insertion.
pub proof fn lemma_strip_removes_repeats(
    t1: Seq<u8>,
    t2: Seq<u8>,
    ip: Seq<u8>,
    sites: Seq<Seq<u8>>,
)
    requires
        marker_free(t1),
        marker_free(t2),
        benign_sites(ip, sites),
    ensures
        strip_spec(t1 + region_bytes(ip, sites) + t2 + region_bytes(ip, sites)) == t1 + t2,
{
    let r = region_bytes(ip, sites);
    lemma_strip_skips_region(t1, ip, sites, t2 + r);
    assert(t1 + r + t2 + r =~= t1 + r + (t2 + r));
    lemma_strip_restores(t2, ip, sites);
}

/// Text without any opening marker is left untouched by `strip`.
pub proof fn lemma_strip_no_region(t: Seq<u8>)
    requires
        forall|k: int| !occurs_at(t, open_marker_bytes(), k),
    ensures
        strip_spec(t) == t,
{
    lemma_first_at_none_from(t, open_marker_bytes(), 0);
}

} // verus!

