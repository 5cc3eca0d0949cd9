//! The mathematical model of the CW2 envelope format.
//!
//! Everything here is specification-level: sequences of characters stand
//! for the strings the executable code works on. The executable functions
//! in `parsing` are proved to compute exactly these functions.

use vstd::prelude::*;

verus! {

/// The escape character: the control byte 0x10 (DLE). It neutralizes the
/// bracket-counting significance of the character immediately after it.
pub const ESCAPE_CHAR: char = '\x10';

/// The four characters that open a CW2 envelope.
pub open spec fn cw_marker() -> Seq<char> {
    seq!['[', 'C', 'W', ' ']
}

/// Whether a line starts with the literal `[CW ` marker.
pub open spec fn has_cw_marker(m: Seq<char>) -> bool {
    m.len() >= 4 && m[0] == '[' && m[1] == 'C' && m[2] == 'W' && m[3] == ' '
}

/// Number of `[` characters in a sequence.
pub open spec fn open_count(s: Seq<char>) -> nat
    decreases s.len(),
{
    if s.len() == 0 {
        0
    } else if s[0] == '[' {
        1 + open_count(s.skip(1))
    } else {
        open_count(s.skip(1))
    }
}

/// The forward pass of the escaper. Walking left to right with a running
/// count of unmatched `[`: a literal escape character is doubled, `[`
/// raises the count, `]` lowers it unless the count is already zero, in
/// which case the `]` is preceded by one escape character and the count
/// stays at zero. All other characters pass through.
pub open spec fn fwd_escape(r: Seq<char>, depth: nat) -> Seq<char>
    decreases r.len(),
{
    if r.len() == 0 {
        Seq::empty()
    } else {
        let c = r[0];
        let rest = r.skip(1);
        if c == ESCAPE_CHAR {
            seq![ESCAPE_CHAR, ESCAPE_CHAR] + fwd_escape(rest, depth)
        } else if c == '[' {
            seq!['['] + fwd_escape(rest, depth + 1)
        } else if c == ']' {
            if depth == 0 {
                seq![ESCAPE_CHAR, ']'] + fwd_escape(rest, 0)
            } else {
                seq![']'] + fwd_escape(rest, (depth - 1) as nat)
            }
        } else {
            seq![c] + fwd_escape(rest, depth)
        }
    }
}

/// The count of unmatched `[` left over after the forward pass.
pub open spec fn fwd_depth(r: Seq<char>, depth: nat) -> nat
    decreases r.len(),
{
    if r.len() == 0 {
        depth
    } else {
        let c = r[0];
        let rest = r.skip(1);
        if c == '[' {
            fwd_depth(rest, depth + 1)
        } else if c == ']' {
            if depth == 0 {
                fwd_depth(rest, 0)
            } else {
                fwd_depth(rest, (depth - 1) as nat)
            }
        } else {
            fwd_depth(rest, depth)
        }
    }
}

/// The backward pass of the escaper: each of the last `k` occurrences of
/// `[` receives one escape character in front of it. Seen from the front,
/// a `[` is escaped exactly when at most `k` occurrences of `[` remain
/// from it to the end.
pub open spec fn mark_unmatched(s: Seq<char>, k: int) -> Seq<char>
    decreases s.len(),
{
    if s.len() == 0 {
        Seq::empty()
    } else if s[0] == '[' && open_count(s) <= k {
        seq![ESCAPE_CHAR, '['] + mark_unmatched(s.skip(1), k)
    } else {
        seq![s[0]] + mark_unmatched(s.skip(1), k)
    }
}

/// The escaped form of a raw reason: the forward pass, then the backward
/// pass over whatever count of unmatched `[` the forward pass left.
pub open spec fn escape_reason(r: Seq<char>) -> Seq<char> {
    mark_unmatched(fwd_escape(r, 0), fwd_depth(r, 0) as int)
}

/// The full encoded line: `[CW ` + escaped reason + `]` + content.
pub open spec fn cw2_line(reason: Seq<char>, content: Seq<char>) -> Seq<char> {
    cw_marker() + escape_reason(reason) + seq![']'] + content
}

/// Adds an offset to the index inside a successful scan result.
pub open spec fn shift_found(r: Option<int>, n: int) -> Option<int> {
    match r {
        Option::None => Option::None,
        Option::Some(i) => Option::Some(i + n),
    }
}

/// The bracket-balance scanner. `s` is the text just after the opening
/// marker and `depth` the count of currently open brackets. The result is
/// the index of the `]` that closes the first bracket, if the scan reaches
/// it: `[` deepens the scan, `]` closes one level, and the escape
/// character makes the next character ordinary (an escape character at
/// the very end leaves the scan unfinished, so it fails).
pub open spec fn find_close(s: Seq<char>, depth: int) -> Option<int>
    decreases s.len(),
{
    if s.len() == 0 {
        Option::None
    } else if s[0] == '[' {
        shift_found(find_close(s.skip(1), depth + 1), 1)
    } else if s[0] == ']' {
        if depth == 1 {
            Option::Some(0)
        } else {
            shift_found(find_close(s.skip(1), depth - 1), 1)
        }
    } else if s[0] == ESCAPE_CHAR {
        if s.len() == 1 {
            Option::None
        } else {
            shift_found(find_close(s.skip(2), depth), 2)
        }
    } else {
        shift_found(find_close(s.skip(1), depth), 1)
    }
}

/// Removes the escape characters from an escaped reason: an escape
/// character is dropped and the character after it (whatever it is) is
/// kept literally; every other character is kept as it stands.
pub open spec fn unescape(s: Seq<char>) -> Seq<char>
    decreases s.len(),
{
    if s.len() == 0 {
        Seq::empty()
    } else if s[0] == ESCAPE_CHAR {
        if s.len() == 1 {
            Seq::empty()
        } else {
            seq![s[1]] + unescape(s.skip(2))
        }
    } else {
        seq![s[0]] + unescape(s.skip(1))
    }
}

/// What decoding a line yields. In strict mode the line must begin with
/// the literal `[CW ` marker; in lenient mode a single leading `[` is
/// enough. The scanner then looks for the matching `]`; if it finds one,
/// the reason is the unescaped span between the prefix and that `]`, and
/// the content is everything after it, untouched.
pub open spec fn spec_parse_cw(m: Seq<char>, check_cw: bool) -> Option<(Seq<char>, Seq<char>)> {
    let plen: int = if check_cw {
        4
    } else {
        1
    };
    let prefix_ok = if check_cw {
        has_cw_marker(m)
    } else {
        m.len() >= 1 && m[0] == '['
    };
    if !prefix_ok {
        Option::None
    } else {
        match find_close(m.skip(plen), 1) {
            Option::None => Option::None,
            Option::Some(rel) => Option::Some(
                (unescape(m.subrange(plen, plen + rel)), m.subrange(plen + rel + 1, m.len() as int)),
            ),
        }
    }
}

/// The net bracket balance the scanner sees over a segment: `[` counts
/// +1, `]` counts -1, an escaped character counts nothing.
pub open spec fn seg_bal(s: Seq<char>) -> int
    decreases s.len(),
{
    if s.len() == 0 {
        0
    } else if s[0] == '[' {
        1 + seg_bal(s.skip(1))
    } else if s[0] == ']' {
        -1 + seg_bal(s.skip(1))
    } else if s[0] == ESCAPE_CHAR {
        if s.len() == 1 {
            0
        } else {
            seg_bal(s.skip(2))
        }
    } else {
        seg_bal(s.skip(1))
    }
}

/// Whether the scanner passes through a whole segment without stopping,
/// starting at `depth`: every unescaped `]` is met at depth at least two
/// (so it never closes the scan), and no escape character dangles at the
/// end of the segment.
pub open spec fn seg_ok(s: Seq<char>, depth: int) -> bool
    decreases s.len(),
{
    if s.len() == 0 {
        true
    } else if s[0] == '[' {
        seg_ok(s.skip(1), depth + 1)
    } else if s[0] == ']' {
        depth >= 2 && seg_ok(s.skip(1), depth - 1)
    } else if s[0] == ESCAPE_CHAR {
        s.len() >= 2 && seg_ok(s.skip(2), depth)
    } else {
        seg_ok(s.skip(1), depth)
    }
}

} // verus!
