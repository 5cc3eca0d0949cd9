//! Proofs of the laws the codec obeys, chief among them that decoding an
//! encoded line gives back exactly the reason and content that went in.

use vstd::prelude::*;

use crate::model::{
    cw2_line, escape_reason, find_close, fwd_depth, fwd_escape, has_cw_marker, mark_unmatched,
    open_count, seg_bal, seg_ok, shift_found, spec_parse_cw, unescape, ESCAPE_CHAR,
};

verus! {

/// The number of `[` characters in a concatenation is the sum over the
/// two parts.
proof fn lemma_open_count_concat(x: Seq<char>, y: Seq<char>)
    ensures
        open_count(x + y) == open_count(x) + open_count(y),
    decreases x.len(),
{
    if x.len() == 0 {
        assert(x + y =~= y);
    } else {
        assert((x + y)[0] == x[0]);
        assert((x + y).skip(1) =~= x.skip(1) + y);
        lemma_open_count_concat(x.skip(1), y);
    }
}

/// With no occurrences of `[` left to mark, the backward pass changes
/// nothing.
pub(crate) proof fn lemma_mark_nonpositive(s: Seq<char>, k: int)
    requires
        k <= 0,
    ensures
        mark_unmatched(s, k) == s,
    decreases s.len(),
{
    if s.len() == 0 {
        assert(s =~= Seq::<char>::empty());
    } else {
        lemma_mark_nonpositive(s.skip(1), k);
        assert(open_count(s) >= 0);
        assert(seq![s[0]] + s.skip(1) =~= s);
    }
}

proof fn lemma_open_count_single(a: char)
    ensures
        open_count(seq![a]) == if a == '[' {
            1nat
        } else {
            0nat
        },
{
    assert(seq![a].skip(1) =~= Seq::<char>::empty());
    assert(open_count(Seq::<char>::empty()) == 0);
}

proof fn lemma_mark_plain(a: char, k: int)
    requires
        a != '[',
    ensures
        mark_unmatched(seq![a], k) == seq![a],
{
    assert(seq![a].skip(1) =~= Seq::<char>::empty());
    assert(mark_unmatched(Seq::<char>::empty(), k) =~= Seq::<char>::empty());
    assert(seq![a] + Seq::<char>::empty() =~= seq![a]);
}

proof fn lemma_mark_pair_plain(a: char, b: char, k: int)
    requires
        a != '[',
        b != '[',
    ensures
        mark_unmatched(seq![a, b], k) == seq![a, b],
{
    assert(seq![a, b][0] == a);
    assert(seq![a, b].skip(1) =~= seq![b]);
    lemma_mark_plain(b, k);
    assert(seq![a] + seq![b] =~= seq![a, b]);
}

proof fn lemma_mark_open(k: int)
    ensures
        mark_unmatched(seq!['['], k) == if 1 <= k {
            seq![ESCAPE_CHAR, '[']
        } else {
            seq!['[']
        },
{
    lemma_open_count_single('[');
    assert(seq!['['].skip(1) =~= Seq::<char>::empty());
    assert(mark_unmatched(Seq::<char>::empty(), k) =~= Seq::<char>::empty());
    assert(seq![ESCAPE_CHAR, '['] + Seq::<char>::empty() =~= seq![ESCAPE_CHAR, '[']);
    assert(seq!['['] + Seq::<char>::empty() =~= seq!['[']);
}

/// The backward pass distributes over a concatenation: inside the left
/// part, the count of `[` still to come includes those of the right part.
proof fn lemma_mark_concat(x: Seq<char>, y: Seq<char>, k: int)
    ensures
        mark_unmatched(x + y, k) == mark_unmatched(x, k - open_count(y)) + mark_unmatched(y, k),
    decreases x.len(),
{
    if x.len() == 0 {
        assert(x + y =~= y);
        assert(mark_unmatched(x, k - open_count(y)) + mark_unmatched(y, k) =~= mark_unmatched(
            y,
            k,
        ));
    } else {
        assert((x + y)[0] == x[0]);
        assert((x + y).skip(1) =~= x.skip(1) + y);
        lemma_open_count_concat(x, y);
        lemma_mark_concat(x.skip(1), y, k);
        if x[0] == '[' && open_count(x + y) <= k {
            assert((seq![ESCAPE_CHAR, '['] + mark_unmatched(x.skip(1), k - open_count(y)))
                + mark_unmatched(y, k) =~= seq![ESCAPE_CHAR, '['] + (mark_unmatched(
                x.skip(1),
                k - open_count(y),
            ) + mark_unmatched(y, k)));
        } else {
            assert((seq![x[0]] + mark_unmatched(x.skip(1), k - open_count(y))) + mark_unmatched(
                y,
                k,
            ) =~= seq![x[0]] + (mark_unmatched(x.skip(1), k - open_count(y)) + mark_unmatched(
                y,
                k,
            )));
        }
    }
}

/// The forward pass introduces no `[` and drops none.
proof fn lemma_open_count_fwd(r: Seq<char>, depth: nat)
    ensures
        open_count(fwd_escape(r, depth)) == open_count(r),
    decreases r.len(),
{
    if r.len() == 0 {
    } else {
        let c = r[0];
        let r2 = r.skip(1);
        if c == ESCAPE_CHAR {
            lemma_open_count_fwd(r2, depth);
            lemma_open_count_concat(seq![ESCAPE_CHAR, ESCAPE_CHAR], fwd_escape(r2, depth));
            lemma_open_count_single(ESCAPE_CHAR);
            assert(seq![ESCAPE_CHAR] + seq![ESCAPE_CHAR] =~= seq![ESCAPE_CHAR, ESCAPE_CHAR]);
            lemma_open_count_concat(seq![ESCAPE_CHAR], seq![ESCAPE_CHAR]);
        } else if c == '[' {
            lemma_open_count_fwd(r2, depth + 1);
            lemma_open_count_concat(seq!['['], fwd_escape(r2, depth + 1));
            lemma_open_count_single('[');
        } else if c == ']' {
            if depth == 0 {
                lemma_open_count_fwd(r2, 0);
                lemma_open_count_concat(seq![ESCAPE_CHAR, ']'], fwd_escape(r2, 0));
                lemma_open_count_single(ESCAPE_CHAR);
                lemma_open_count_single(']');
                assert(seq![ESCAPE_CHAR] + seq![']'] =~= seq![ESCAPE_CHAR, ']']);
                lemma_open_count_concat(seq![ESCAPE_CHAR], seq![']']);
            } else {
                lemma_open_count_fwd(r2, (depth - 1) as nat);
                lemma_open_count_concat(seq![']'], fwd_escape(r2, (depth - 1) as nat));
                lemma_open_count_single(']');
            }
        } else {
            lemma_open_count_fwd(r2, depth);
            lemma_open_count_concat(seq![c], fwd_escape(r2, depth));
            lemma_open_count_single(c);
        }
    }
}

/// The count of unmatched `[` after the forward pass never exceeds the
/// count it started from plus the `[` still to come.
proof fn lemma_fwd_depth_bound(r: Seq<char>, depth: nat)
    ensures
        fwd_depth(r, depth) <= depth + open_count(r),
    decreases r.len(),
{
    if r.len() == 0 {
    } else {
        let c = r[0];
        let r2 = r.skip(1);
        if c == '[' {
            lemma_fwd_depth_bound(r2, depth + 1);
        } else if c == ']' {
            if depth == 0 {
                lemma_fwd_depth_bound(r2, 0);
            } else {
                lemma_fwd_depth_bound(r2, (depth - 1) as nat);
            }
        } else {
            lemma_fwd_depth_bound(r2, depth);
        }
    }
}

proof fn lemma_shift_shift(o: Option<int>, a: int, b: int)
    ensures
        shift_found(shift_found(o, a), b) == shift_found(o, a + b),
        shift_found(o, 0) == o,
{
}

/// Scanning past a segment the scanner passes through without stopping:
/// the scan continues in the rest of the text at the depth the segment's
/// balance leaves behind, which is still at least one.
proof fn lemma_scan_concat(s: Seq<char>, t: Seq<char>, d: int)
    requires
        d >= 1,
        seg_ok(s, d),
    ensures
        d + seg_bal(s) >= 1,
        find_close(s + t, d) == shift_found(find_close(t, d + seg_bal(s)), s.len() as int),
    decreases s.len(),
{
    if s.len() == 0 {
        assert(s + t =~= t);
        lemma_shift_shift(find_close(t, d), 0, 0);
    } else {
        assert((s + t)[0] == s[0]);
        assert((s + t).skip(1) =~= s.skip(1) + t);
        if s[0] == '[' {
            lemma_scan_concat(s.skip(1), t, d + 1);
            lemma_shift_shift(find_close(t, d + seg_bal(s)), s.len() as int - 1, 1);
        } else if s[0] == ']' {
            lemma_scan_concat(s.skip(1), t, d - 1);
            lemma_shift_shift(find_close(t, d + seg_bal(s)), s.len() as int - 1, 1);
        } else if s[0] == ESCAPE_CHAR {
            assert((s + t).skip(2) =~= s.skip(2) + t);
            lemma_scan_concat(s.skip(2), t, d);
            lemma_shift_shift(find_close(t, d + seg_bal(s)), s.len() as int - 2, 2);
        } else {
            lemma_scan_concat(s.skip(1), t, d);
            lemma_shift_shift(find_close(t, d + seg_bal(s)), s.len() as int - 1, 1);
        }
    }
}

/// The heart of the escaper's correctness: running both passes over a raw
/// reason yields a segment the scanner passes through without stopping.
///
/// The induction carries the forward pass's current count `c`, the global
/// count `k` of unmatched `[` that the backward pass neutralizes, and the
/// scanner depth `d` reached at this point, which is pinned exactly: one,
/// plus the opens of the past that stay unescaped, minus the closes of
/// the past that the scanner counted.
proof fn lemma_escaped_neutral(r: Seq<char>, c: nat, k: int, d: int)
    requires
        k == fwd_depth(r, c),
        d == 1 + c - (if k - open_count(r) >= 0 {
            k - open_count(r)
        } else {
            0
        }),
    ensures
        seg_ok(mark_unmatched(fwd_escape(r, c), k), d),
        seg_bal(mark_unmatched(fwd_escape(r, c), k)) == (if k - open_count(r) >= 0 {
            k - open_count(r)
        } else {
            0
        }) - c,
    decreases r.len(),
{
    if r.len() == 0 {
        assert(mark_unmatched(fwd_escape(r, c), k) =~= Seq::<char>::empty());
    } else {
        let c0 = r[0];
        let r2 = r.skip(1);
        if c0 == ESCAPE_CHAR {
            let f2 = fwd_escape(r2, c);
            let e2 = mark_unmatched(f2, k);
            lemma_open_count_fwd(r2, c);
            lemma_mark_concat(seq![ESCAPE_CHAR, ESCAPE_CHAR], f2, k);
            lemma_mark_pair_plain(ESCAPE_CHAR, ESCAPE_CHAR, k - open_count(f2));
            lemma_escaped_neutral(r2, c, k, d);
            let ee = mark_unmatched(fwd_escape(r, c), k);
            assert(ee == seq![ESCAPE_CHAR, ESCAPE_CHAR] + e2);
            assert(ee.skip(2) =~= e2);
            assert(ee[0] == ESCAPE_CHAR);
        } else if c0 == '[' {
            let f2 = fwd_escape(r2, c + 1);
            let e2 = mark_unmatched(f2, k);
            lemma_open_count_fwd(r2, c + 1);
            lemma_mark_concat(seq!['['], f2, k);
            lemma_mark_open(k - open_count(f2));
            assert(open_count(r) == 1 + open_count(r2));
            if open_count(r) <= k {
                lemma_escaped_neutral(r2, c + 1, k, d);
                let ee = mark_unmatched(fwd_escape(r, c), k);
                assert(ee == seq![ESCAPE_CHAR, '['] + e2);
                assert(ee.skip(2) =~= e2);
                assert(ee[0] == ESCAPE_CHAR);
            } else {
                lemma_escaped_neutral(r2, c + 1, k, d + 1);
                let ee = mark_unmatched(fwd_escape(r, c), k);
                assert(ee == seq!['['] + e2);
                assert(ee.skip(1) =~= e2);
                assert(ee[0] == '[');
            }
        } else if c0 == ']' {
            if c == 0 {
                let f2 = fwd_escape(r2, 0);
                let e2 = mark_unmatched(f2, k);
                lemma_open_count_fwd(r2, 0);
                lemma_mark_concat(seq![ESCAPE_CHAR, ']'], f2, k);
                lemma_mark_pair_plain(ESCAPE_CHAR, ']', k - open_count(f2));
                lemma_escaped_neutral(r2, 0, k, d);
                let ee = mark_unmatched(fwd_escape(r, c), k);
                assert(ee == seq![ESCAPE_CHAR, ']'] + e2);
                assert(ee.skip(2) =~= e2);
                assert(ee[0] == ESCAPE_CHAR);
            } else {
                let f2 = fwd_escape(r2, (c - 1) as nat);
                let e2 = mark_unmatched(f2, k);
                lemma_open_count_fwd(r2, (c - 1) as nat);
                lemma_mark_concat(seq![']'], f2, k);
                lemma_mark_plain(']', k - open_count(f2));
                lemma_fwd_depth_bound(r2, (c - 1) as nat);
                assert(k <= c - 1 + open_count(r2));
                assert(d >= 2);
                lemma_escaped_neutral(r2, (c - 1) as nat, k, d - 1);
                let ee = mark_unmatched(fwd_escape(r, c), k);
                assert(ee == seq![']'] + e2);
                assert(ee.skip(1) =~= e2);
                assert(ee[0] == ']');
            }
        } else {
            let f2 = fwd_escape(r2, c);
            let e2 = mark_unmatched(f2, k);
            lemma_open_count_fwd(r2, c);
            lemma_mark_concat(seq![c0], f2, k);
            lemma_mark_plain(c0, k - open_count(f2));
            lemma_escaped_neutral(r2, c, k, d);
            let ee = mark_unmatched(fwd_escape(r, c), k);
            assert(ee == seq![c0] + e2);
            assert(ee.skip(1) =~= e2);
            assert(ee[0] == c0);
        }
    }
}

/// Removing the escapes from the escaper's output gives back the raw
/// reason, whatever count the backward pass was run with.
proof fn lemma_unescape_escaped(r: Seq<char>, c: nat, k: int)
    ensures
        unescape(mark_unmatched(fwd_escape(r, c), k)) == r,
    decreases r.len(),
{
    if r.len() == 0 {
        assert(mark_unmatched(fwd_escape(r, c), k) =~= Seq::<char>::empty());
        assert(r =~= Seq::<char>::empty());
    } else {
        let c0 = r[0];
        let r2 = r.skip(1);
        assert(seq![c0] + r2 =~= r);
        if c0 == ESCAPE_CHAR {
            let f2 = fwd_escape(r2, c);
            let e2 = mark_unmatched(f2, k);
            lemma_mark_concat(seq![ESCAPE_CHAR, ESCAPE_CHAR], f2, k);
            lemma_mark_pair_plain(ESCAPE_CHAR, ESCAPE_CHAR, k - open_count(f2));
            lemma_unescape_escaped(r2, c, k);
            let ee = mark_unmatched(fwd_escape(r, c), k);
            assert(ee == seq![ESCAPE_CHAR, ESCAPE_CHAR] + e2);
            assert(ee[0] == ESCAPE_CHAR && ee[1] == ESCAPE_CHAR);
            assert(ee.skip(2) =~= e2);
        } else if c0 == '[' {
            let f2 = fwd_escape(r2, c + 1);
            let e2 = mark_unmatched(f2, k);
            lemma_mark_concat(seq!['['], f2, k);
            lemma_mark_open(k - open_count(f2));
            lemma_unescape_escaped(r2, c + 1, k);
            let ee = mark_unmatched(fwd_escape(r, c), k);
            if 1 <= k - open_count(f2) {
                assert(ee == seq![ESCAPE_CHAR, '['] + e2);
                assert(ee[0] == ESCAPE_CHAR && ee[1] == '[');
                assert(ee.skip(2) =~= e2);
            } else {
                assert(ee == seq!['['] + e2);
                assert(ee[0] == '[');
                assert(ee.skip(1) =~= e2);
            }
        } else if c0 == ']' {
            if c == 0 {
                let f2 = fwd_escape(r2, 0);
                let e2 = mark_unmatched(f2, k);
                lemma_mark_concat(seq![ESCAPE_CHAR, ']'], f2, k);
                lemma_mark_pair_plain(ESCAPE_CHAR, ']', k - open_count(f2));
                lemma_unescape_escaped(r2, 0, k);
                let ee = mark_unmatched(fwd_escape(r, c), k);
                assert(ee == seq![ESCAPE_CHAR, ']'] + e2);
                assert(ee[0] == ESCAPE_CHAR && ee[1] == ']');
                assert(ee.skip(2) =~= e2);
            } else {
                let f2 = fwd_escape(r2, (c - 1) as nat);
                let e2 = mark_unmatched(f2, k);
                lemma_mark_concat(seq![']'], f2, k);
                lemma_mark_plain(']', k - open_count(f2));
                lemma_unescape_escaped(r2, (c - 1) as nat, k);
                let ee = mark_unmatched(fwd_escape(r, c), k);
                assert(ee == seq![']'] + e2);
                assert(ee[0] == ']');
                assert(ee.skip(1) =~= e2);
            }
        } else {
            let f2 = fwd_escape(r2, c);
            let e2 = mark_unmatched(f2, k);
            lemma_mark_concat(seq![c0], f2, k);
            lemma_mark_plain(c0, k - open_count(f2));
            lemma_unescape_escaped(r2, c, k);
            let ee = mark_unmatched(fwd_escape(r, c), k);
            assert(ee == seq![c0] + e2);
            assert(ee[0] == c0);
            assert(ee.skip(1) =~= e2);
        }
    }
}

/// Escaping always yields scanner-safe output: the scanner passes through
/// the whole escaped reason at depth one, ends at depth one, and removing
/// the escapes restores the raw reason exactly.
pub proof fn lemma_escape_reason_props(r: Seq<char>)
    ensures
        seg_ok(escape_reason(r), 1),
        seg_bal(escape_reason(r)) == 0,
        unescape(escape_reason(r)) == r,
{
    lemma_fwd_depth_bound(r, 0);
    lemma_escaped_neutral(r, 0, fwd_depth(r, 0) as int, 1);
    lemma_unescape_escaped(r, 0, fwd_depth(r, 0) as int);
}

/// The scanner always succeeds on an escaped reason, however wild the raw
/// reason was, and stops exactly at the terminator the encoder wrote:
/// whatever follows the escaped reason, the first close the scanner finds
/// is the `]` right after it.
pub proof fn lemma_escape_scanner_safe(reason: Seq<char>, rest: Seq<char>)
    ensures
        find_close(escape_reason(reason) + (seq![']'] + rest), 1) == Option::Some(
            escape_reason(reason).len() as int,
        ),
{
    let e = escape_reason(reason);
    let tail = seq![']'] + rest;
    lemma_escape_reason_props(reason);
    lemma_scan_concat(e, tail, 1);
    assert(tail[0] == ']');
    assert(find_close(tail, 1) == Option::Some(0int));
}

/// Round-trip: decoding an encoded line gives back exactly the reason and
/// content that were encoded, for every reason and every content.
pub proof fn lemma_round_trip(reason: Seq<char>, content: Seq<char>)
    ensures
        spec_parse_cw(cw2_line(reason, content), true) == Option::Some((reason, content)),
{
    let e = escape_reason(reason);
    let m = cw2_line(reason, content);
    let tail = seq![']'] + content;
    lemma_escape_reason_props(reason);
    lemma_escape_scanner_safe(reason, content);
    assert(m.len() == 4 + e.len() + 1 + content.len());
    assert(m[0] == '[' && m[1] == 'C' && m[2] == 'W' && m[3] == ' ');
    assert(has_cw_marker(m));
    assert(m.skip(4) =~= e + tail);
    assert(find_close(m.skip(4), 1) == Option::Some(e.len() as int));
    assert(m.subrange(4, 4 + e.len() as int) =~= e);
    assert(m.subrange(4 + e.len() as int + 1, m.len() as int) =~= content);
    assert(spec_parse_cw(m, true) == Option::Some((unescape(e), content)));
}

/// A sequence without the escape character comes through unescaping
/// unchanged.
proof fn lemma_unescape_plain(s: Seq<char>)
    requires
        forall|i: int| 0 <= i < s.len() ==> s[i] != ESCAPE_CHAR,
    ensures
        unescape(s) == s,
    decreases s.len(),
{
    if s.len() == 0 {
        assert(s =~= Seq::<char>::empty());
    } else {
        assert(forall|i: int| 0 <= i < s.skip(1).len() ==> s.skip(1)[i] == s[i + 1]);
        lemma_unescape_plain(s.skip(1));
        assert(seq![s[0]] + s.skip(1) =~= s);
    }
}

/// Lenient round-trip: a user-typed `[reason]content` whose reason needs
/// no protection — its brackets are balanced so the scanner passes
/// through it, and it holds no escape character — parses to exactly that
/// reason and content, and encoding and then decoding gives them back
/// unchanged.
pub proof fn lemma_lenient_round_trip(reason: Seq<char>, content: Seq<char>)
    requires
        seg_ok(reason, 1),
        seg_bal(reason) == 0,
        forall|i: int| 0 <= i < reason.len() ==> reason[i] != ESCAPE_CHAR,
    ensures
        spec_parse_cw(seq!['['] + reason + seq![']'] + content, false) == Option::Some(
            (reason, content),
        ),
        spec_parse_cw(cw2_line(reason, content), true) == Option::Some((reason, content)),
{
    let m = seq!['['] + reason + seq![']'] + content;
    let tail = seq![']'] + content;
    lemma_scan_concat(reason, tail, 1);
    assert(tail[0] == ']');
    assert(find_close(tail, 1) == Option::Some(0int));
    assert(m[0] == '[');
    assert(m.len() == 1 + reason.len() + 1 + content.len());
    assert(m.skip(1) =~= reason + tail);
    assert(find_close(m.skip(1), 1) == Option::Some(reason.len() as int));
    assert(m.subrange(1, 1 + reason.len() as int) =~= reason);
    lemma_unescape_plain(reason);
    assert(m.subrange(1 + reason.len() as int + 1, m.len() as int) =~= content);
    assert(spec_parse_cw(m, false) == Option::Some((reason, content)));
    lemma_round_trip(reason, content);
}

/// Decoding demands the literal `[CW ` marker: a line under any other
/// prefix is never taken for an envelope. A collaborator that re-emits a
/// decoded reason under a different prefix can therefore never set off a
/// second decode of its own output.
pub proof fn lemma_decode_needs_marker(m: Seq<char>)
    requires
        !has_cw_marker(m),
    ensures
        spec_parse_cw(m, true) is None,
{
}

} // verus!
