//! The executable codec: escaping a reason into a CW2 line and parsing a
//! line back into its reason and content.

use vstd::prelude::*;

use crate::model::{
    cw2_line, escape_reason, find_close, fwd_depth, fwd_escape, mark_unmatched, open_count,
    shift_found, spec_parse_cw, unescape, ESCAPE_CHAR,
};

verus! {

/// Relies on String::push: appends the given character to the end of the
/// string.
pub assume_specification[ String::push ](s: &mut String, ch: char)
    ensures
        final(s)@ == old(s)@.push(ch),
;

/// The bracket-balance scanner. Starting just past the opening marker at
/// character index `start`, it walks the message and returns the index of
/// the `]` that closes the envelope, or `None` if the scan runs off the
/// end first.
fn scan_close(message: &str, start: usize) -> (r: Option<usize>)
    requires
        1 <= start <= message@.len(),
    ensures
        match r {
            Option::Some(close) => start <= close < message@.len() && find_close(
                message@.skip(start as int),
                1,
            ) == Option::Some(close - start as int),
            Option::None => find_close(message@.skip(start as int), 1) is None,
        },
{
    let ghost m = message@;
    let len = message.unicode_len();
    let mut i: usize = start;
    let mut depth: usize = 1;
    while i < len
        invariant
            start <= i <= len,
            1 <= start,
            len == m.len(),
            m == message@,
            1 <= depth <= i - start + 1,
            find_close(m.skip(start as int), 1) == shift_found(
                find_close(m.skip(i as int), depth as int),
                i - start as int,
            ),
        decreases len - i,
    {
        let c = message.get_char(i);
        proof {
            assert(m.skip(i as int)[0] == m[i as int]);
            assert(m.skip(i as int).skip(1) =~= m.skip(i as int + 1));
        }
        if c == ']' {
            if depth == 1 {
                return Option::Some(i);
            }
            depth = depth - 1;
            i = i + 1;
        } else if c == '[' {
            depth = depth + 1;
            i = i + 1;
        } else if c == ESCAPE_CHAR {
            if i + 1 < len {
                proof {
                    assert(m.skip(i as int).skip(2) =~= m.skip(i as int + 2));
                }
                i = i + 2;
            } else {
                // the escape character dangles at the end: the scan can
                // never finish
                return Option::None;
            }
        } else {
            i = i + 1;
        }
    }
    Option::None
}

/// Parses a message for a CW envelope, with a flag selecting whether the
/// full `[CW ` marker is required or a bare leading `[` is enough.
///
/// On success the result is the reason with its escapes removed, and the
/// content after the closing `]`, untouched.
pub fn parse_cw_helper<'a>(message: &'a str, check_cw: bool) -> (r: Option<(String, &'a str)>)
    ensures
        match (r, spec_parse_cw(message@, check_cw)) {
            (Option::Some(p), Option::Some(q)) => p.0@ == q.0 && p.1@ == q.1,
            (Option::None, Option::None) => true,
            _ => false,
        },
{
    let ghost m = message@;
    let len = message.unicode_len();
    let start: usize;
    if check_cw {
        if len < 4 {
            return Option::None;
        }
        if !(message.get_char(0) == '[' && message.get_char(1) == 'C' && message.get_char(2) == 'W'
            && message.get_char(3) == ' ') {
            return Option::None;
        }
        start = 4;
    } else {
        if len < 1 {
            return Option::None;
        }
        if message.get_char(0) != '[' {
            return Option::None;
        }
        start = 1;
    }
    let close = match scan_close(message, start) {
        Option::Some(close) => close,
        Option::None => {
            return Option::None;
        },
    };
    // remove the escapes from the span between the marker and the closing
    // bracket
    let mut reason = String::new();
    let mut j: usize = start;
    while j < close
        invariant
            start <= j <= close < len,
            len == m.len(),
            m == message@,
            unescape(m.subrange(start as int, close as int)) == reason@ + unescape(
                m.subrange(j as int, close as int),
            ),
        decreases close - j,
    {
        let c = message.get_char(j);
        proof {
            assert(m.subrange(j as int, close as int)[0] == m[j as int]);
            assert(m.subrange(j as int, close as int).skip(1) =~= m.subrange(
                j as int + 1,
                close as int,
            ));
        }
        if c == ESCAPE_CHAR {
            if j + 1 < close {
                let kept = message.get_char(j + 1);
                proof {
                    assert(m.subrange(j as int, close as int)[1] == m[j as int + 1]);
                    assert(m.subrange(j as int, close as int).skip(2) =~= m.subrange(
                        j as int + 2,
                        close as int,
                    ));
                    assert(reason@.push(kept) =~= reason@ + seq![kept]);
                }
                reason.push(kept);
                proof {
                    assert(reason@ + (seq![kept] + unescape(m.subrange(j as int + 2, close as int)))
                        =~= (reason@ + seq![kept]) + unescape(m.subrange(j as int + 2, close as int)));
                }
                j = j + 2;
            } else {
                // a lone escape character just before the terminator is
                // dropped
                proof {
                    assert(m.subrange(j as int, close as int).len() == 1);
                    assert(unescape(m.subrange(close as int, close as int)) =~= Seq::<char>::empty());
                    assert(reason@ + Seq::<char>::empty() =~= reason@);
                    assert(reason@ + unescape(m.subrange(j as int, close as int)) =~= reason@);
                }
                j = close;
            }
        } else {
            proof {
                assert(reason@.push(c) =~= reason@ + seq![c]);
                assert(reason@ + (seq![c] + unescape(m.subrange(j as int + 1, close as int)))
                    =~= (reason@ + seq![c]) + unescape(m.subrange(j as int + 1, close as int)));
            }
            reason.push(c);
            j = j + 1;
        }
    }
    proof {
        assert(unescape(m.subrange(close as int, close as int)) =~= Seq::<char>::empty());
        assert(reason@ + Seq::<char>::empty() =~= reason@);
    }
    let content = message.substring_char(close + 1, len);
    Option::Some((reason, content))
}

/// Converts the given reason and content to a CW2 line.
///
/// The reason is escaped so that the scanner can never mistake one of its
/// brackets for the envelope's own, and the result is
/// `[CW (escaped reason)](content)`.
pub fn to_cw2(reason: &str, content: &str) -> (res: String)
    ensures
        res@ == cw2_line(reason@, content@),
{
    let ghost r = reason@;
    let rlen = reason.unicode_len();

    // forward pass: double every escape character and escape every `]`
    // that would push the running count of open brackets below zero
    let mut out: Vec<char> = Vec::new();
    let mut depth: usize = 0;
    let mut i: usize = 0;
    proof {
        assert(r.skip(0) =~= r);
        assert(out@ + fwd_escape(r, 0) =~= fwd_escape(r, 0));
    }
    while i < rlen
        invariant
            i <= rlen,
            rlen == r.len(),
            r == reason@,
            depth <= i,
            fwd_escape(r, 0) == out@ + fwd_escape(r.skip(i as int), depth as nat),
            fwd_depth(r, 0) == fwd_depth(r.skip(i as int), depth as nat),
        decreases rlen - i,
    {
        let c = reason.get_char(i);
        let ghost prev = out@;
        proof {
            assert(r.skip(i as int)[0] == r[i as int]);
            assert(r.skip(i as int).skip(1) =~= r.skip(i as int + 1));
        }
        if c == ESCAPE_CHAR {
            out.push(ESCAPE_CHAR);
            out.push(ESCAPE_CHAR);
            proof {
                assert(out@ =~= prev + seq![ESCAPE_CHAR, ESCAPE_CHAR]);
                assert((prev + seq![ESCAPE_CHAR, ESCAPE_CHAR]) + fwd_escape(
                    r.skip(i as int + 1),
                    depth as nat,
                ) =~= prev + (seq![ESCAPE_CHAR, ESCAPE_CHAR] + fwd_escape(
                    r.skip(i as int + 1),
                    depth as nat,
                )));
            }
        } else if c == '[' {
            out.push('[');
            depth = depth + 1;
            proof {
                assert(out@ =~= prev + seq!['[']);
                assert((prev + seq!['[']) + fwd_escape(r.skip(i as int + 1), depth as nat) =~= prev
                    + (seq!['['] + fwd_escape(r.skip(i as int + 1), depth as nat)));
            }
        } else if c == ']' {
            if depth == 0 {
                out.push(ESCAPE_CHAR);
                out.push(']');
                proof {
                    assert(out@ =~= prev + seq![ESCAPE_CHAR, ']']);
                    assert((prev + seq![ESCAPE_CHAR, ']']) + fwd_escape(r.skip(i as int + 1), 0)
                        =~= prev + (seq![ESCAPE_CHAR, ']'] + fwd_escape(r.skip(i as int + 1), 0)));
                }
            } else {
                out.push(']');
                depth = depth - 1;
                proof {
                    assert(out@ =~= prev + seq![']']);
                    assert((prev + seq![']']) + fwd_escape(r.skip(i as int + 1), depth as nat)
                        =~= prev + (seq![']'] + fwd_escape(r.skip(i as int + 1), depth as nat)));
                }
            }
        } else {
            out.push(c);
            proof {
                assert(out@ =~= prev + seq![c]);
                assert((prev + seq![c]) + fwd_escape(r.skip(i as int + 1), depth as nat) =~= prev + (
                seq![c] + fwd_escape(r.skip(i as int + 1), depth as nat)));
            }
        }
        i = i + 1;
    }
    proof {
        assert(r.skip(rlen as int) =~= Seq::<char>::empty());
        assert(out@ + Seq::<char>::empty() =~= out@);
        assert(out@ == fwd_escape(r, 0));
        assert(depth as nat == fwd_depth(r, 0));
    }

    // backward pass: when unmatched `[` remain, walk the forward output
    // from the end and put one escape character in front of each of the
    // last `depth` occurrences of `[`, building the text reversed
    let ghost v = out@;
    let escaped: Vec<char>;
    if depth > 0 {
        let k = depth;
        let mut rev_out: Vec<char> = Vec::new();
        let mut cnt: usize = k;
        let mut j: usize = out.len();
        proof {
            assert(v.skip(j as int) =~= Seq::<char>::empty());
            assert(rev_out@.reverse() =~= Seq::<char>::empty());
            assert(mark_unmatched(v.skip(j as int), k as int) =~= Seq::<char>::empty());
        }
        while j > 0
            invariant
                j <= out.len(),
                out@ == v,
                cnt <= k,
                open_count(v.skip(j as int)) >= k - cnt,
                cnt > 0 ==> open_count(v.skip(j as int)) == k - cnt,
                rev_out@.reverse() == mark_unmatched(v.skip(j as int), k as int),
            decreases j,
        {
            let c = out[j - 1];
            let ghost prev = rev_out@;
            proof {
                assert(v.skip(j as int - 1)[0] == v[j as int - 1]);
                assert(v.skip(j as int - 1).skip(1) =~= v.skip(j as int));
            }
            if c == '[' && cnt > 0 {
                rev_out.push('[');
                rev_out.push(ESCAPE_CHAR);
                cnt = cnt - 1;
                proof {
                    assert(rev_out@ =~= prev + seq!['[', ESCAPE_CHAR]);
                    assert(rev_out@.reverse() =~= seq![ESCAPE_CHAR, '['] + prev.reverse());
                }
            } else {
                rev_out.push(c);
                proof {
                    assert(rev_out@ =~= prev + seq![c]);
                    assert(rev_out@.reverse() =~= seq![c] + prev.reverse());
                    if c == '[' {
                        assert(open_count(v.skip(j as int - 1)) > k as int);
                    }
                }
            }
            j = j - 1;
        }
        proof {
            assert(v.skip(0) =~= v);
        }

        // the backward pass built the text reversed; put it back in order
        let mut fixed: Vec<char> = Vec::new();
        let mut t: usize = rev_out.len();
        proof {
            assert(rev_out@.skip(t as int) =~= Seq::<char>::empty());
            assert(fixed@ =~= rev_out@.skip(t as int).reverse());
        }
        while t > 0
            invariant
                t <= rev_out.len(),
                fixed@ == rev_out@.skip(t as int).reverse(),
            decreases t,
        {
            t = t - 1;
            fixed.push(rev_out[t]);
            proof {
                assert(fixed@ =~= rev_out@.skip(t as int).reverse());
            }
        }
        proof {
            assert(rev_out@.skip(0) =~= rev_out@);
            assert(fixed@ == mark_unmatched(v, k as int));
        }
        escaped = fixed;
    } else {
        proof {
            crate::laws::lemma_mark_nonpositive(v, 0);
        }
        escaped = out;
    }
    proof {
        assert(escaped@ == escape_reason(r));
    }

    // wrap it: `[CW ` + escaped reason + `]` + content
    let mut res = String::new();
    res.push('[');
    res.push('C');
    res.push('W');
    res.push(' ');
    proof {
        assert(res@ =~= seq!['[', 'C', 'W', ' '] + escaped@.take(0));
    }
    let mut p: usize = 0;
    while p < escaped.len()
        invariant
            p <= escaped.len(),
            res@ == seq!['[', 'C', 'W', ' '] + escaped@.take(p as int),
        decreases escaped.len() - p,
    {
        res.push(escaped[p]);
        proof {
            assert(escaped@.take(p as int + 1) =~= escaped@.take(p as int).push(escaped@[p as int]));
            assert(res@ =~= seq!['[', 'C', 'W', ' '] + escaped@.take(p as int + 1));
        }
        p = p + 1;
    }
    res.push(']');
    res.append(content);
    proof {
        assert(escaped@.take(escaped@.len() as int) =~= escaped@);
        assert(res@ =~= cw2_line(reason@, content@));
    }
    res
}

/// Parses an incoming message for a CW envelope.
///
/// Splits `[CW (reason)](content)` into `(reason)` and `(content)`, or
/// returns `None` when the line is no well-formed envelope.
pub fn try_parse_cw2<'a>(message: &'a str) -> (r: Option<(String, &'a str)>)
    ensures
        match (r, spec_parse_cw(message@, true)) {
            (Option::Some(p), Option::Some(q)) => p.0@ == q.0 && p.1@ == q.1,
            (Option::None, Option::None) => true,
            _ => false,
        },
{
    parse_cw_helper(message, true)
}

/// Attempts to convert a user-typed message to a CW2 line.
///
/// The message is expected to look like `[(reason)](content)`. Returns
/// `None` if it does not, otherwise the canonical `[CW (reason)](content)`
/// line with the reason properly escaped.
pub fn try_to_cw2(message: &str) -> (r: Option<String>)
    ensures
        match (r, spec_parse_cw(message@, false)) {
            (Option::Some(s), Option::Some(q)) => s@ == cw2_line(q.0, q.1),
            (Option::None, Option::None) => true,
            _ => false,
        },
{
    match parse_cw_helper(message, false) {
        Option::Some((reason, content)) => Option::Some(to_cw2(reason.as_str(), content)),
        Option::None => Option::None,
    }
}

} // verus!
