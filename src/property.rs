//! Property codes carried in directory-entry names.
//!
//! A stream named `__<anything>.0_37DD<anything>` (with `D` an ASCII digit)
//! carries the attachment property `37DD`. The recognised language is the one of
//! the pattern `^__.*\.0_(37\d\d).*`, where `.` does not match a line feed and the
//! greedy `.*` makes the last candidate position win.

use vstd::prelude::*;

verus! {

pub open spec fn is_ascii_digit(c: char) -> bool {
    '0' <= c && c <= '9'
}

/// `s` holds `.0_37DD` starting at `i`.
pub open spec fn code_pattern_at(s: Seq<char>, i: int) -> bool {
    &&& 0 <= i
    &&& i + 7 <= s.len()
    &&& s[i] == '.'
    &&& s[i + 1] == '0'
    &&& s[i + 2] == '_'
    &&& s[i + 3] == '3'
    &&& s[i + 4] == '7'
    &&& is_ascii_digit(s[i + 5])
    &&& is_ascii_digit(s[i + 6])
}

/// `s` holds `.0_37DD` starting at `i`, after the two leading underscores.
pub open spec fn is_code_at(s: Seq<char>, i: int) -> bool {
    2 <= i && code_pattern_at(s, i)
}

/// No line feed occurs before position `i`.
pub open spec fn line_free(s: Seq<char>, i: int) -> bool {
    forall|k: int| 0 <= k < i ==> s[k] != '\n'
}

pub open spec fn is_match_at(s: Seq<char>, i: int) -> bool {
    is_code_at(s, i) && line_free(s, i)
}

/// `i` is the last position at which the pattern can capture its code.
pub open spec fn is_last_match(s: Seq<char>, i: int) -> bool {
    is_match_at(s, i) && forall|j: int| i < j ==> !#[trigger] is_match_at(s, j)
}

pub open spec fn starts_with_underscores(s: Seq<char>) -> bool {
    s.len() >= 2 && s[0] == '_' && s[1] == '_'
}

/// The property code that a directory-entry name carries, if any.
pub open spec fn property_code_of(s: Seq<char>) -> Option<Seq<char>> {
    if starts_with_underscores(s) && exists|i: int| is_last_match(s, i) {
        let i = choose|i: int| is_last_match(s, i);
        Some(s.subrange(i + 3, i + 7))
    } else {
        None
    }
}

pub open spec fn view_opt(o: Option<String>) -> Option<Seq<char>> {
    match o {
        Some(s) => Some(s@),
        None => None,
    }
}

proof fn lemma_last_match_unique(s: Seq<char>, a: int, b: int)
    requires
        is_last_match(s, a),
        is_last_match(s, b),
    ensures
        a == b,
{
    if a < b {
        assert(!is_match_at(s, b));
    } else if b < a {
        assert(!is_match_at(s, a));
    }
}

fn code_at(name: &str, n: usize, i: usize) -> (r: bool)
    requires
        n == name@.len(),
        i < n,
    ensures
        r == is_code_at(name@, i as int),
{
    if i < 2 || n - i < 7 {
        return false;
    }
    let d1 = name.get_char(i + 5);
    let d2 = name.get_char(i + 6);
    name.get_char(i) == '.' && name.get_char(i + 1) == '0' && name.get_char(i + 2) == '_'
        && name.get_char(i + 3) == '3' && name.get_char(i + 4) == '7' && '0' <= d1 && d1 <= '9'
        && '0' <= d2 && d2 <= '9'
}

/// Extracts the attachment property code (`37DD`) that a directory-entry name
/// carries; a name that does not carry one gives `None`.
pub fn extract_attachment_code(name: &str) -> (r: Option<String>)
    ensures
        view_opt(r) == property_code_of(name@),
{
    let n = name.unicode_len();
    if n < 2 || name.get_char(0) != '_' || name.get_char(1) != '_' {
        return None;
    }
    let mut best: Option<usize> = None;
    let mut i: usize = 0;
    while i < n && name.get_char(i) != '\n'
        invariant
            n == name@.len(),
            i <= n,
            line_free(name@, i as int),
            match best {
                Some(b) => b < i && is_match_at(name@, b as int) && forall|j: int|
                    b < j < i ==> !#[trigger] is_match_at(name@, j),
                None => forall|j: int| 0 <= j < i ==> !#[trigger] is_match_at(name@, j),
            },
        decreases n - i,
    {
        if code_at(name, n, i) {
            best = Some(i);
        }
        i += 1;
    }
    assert(forall|j: int| i <= j ==> !#[trigger] is_match_at(name@, j)) by {
        assert forall|j: int| i <= j implies !#[trigger] is_match_at(name@, j) by {
            if i < n && j > i && is_match_at(name@, j) {
                assert(name@[i as int] == '\n');
            }
        }
    }
    match best {
        Some(b) => {
            proof {
                assert(is_last_match(name@, b as int));
                let c = choose|c: int| is_last_match(name@, c);
                lemma_last_match_unique(name@, b as int, c);
            }
            let code = name.substring_char(b + 3, b + 7);
            Some(String::from_str(code))
        },
        None => {
            assert(!exists|c: int| is_last_match(name@, c));
            None
        },
    }
}

/// A name `__X.0_37YY...` carries the code `37YY`, provided `X` holds no line
/// feed and nothing after `37YY` holds a further `.0_37DD` (the pattern's greedy
/// `.*` would take that later one).
pub proof fn lemma_code_of_matching_name(x: Seq<char>, y1: char, y2: char, tail: Seq<char>)
    requires
        is_ascii_digit(y1),
        is_ascii_digit(y2),
        forall|k: int| 0 <= k < x.len() ==> x[k] != '\n',
        forall|j: int| !#[trigger] code_pattern_at(tail, j),
    ensures
        property_code_of(seq!['_', '_'] + x + seq!['.', '0', '_', '3', '7', y1, y2] + tail)
            == Some(seq!['3', '7', y1, y2]),
{
    let mid = seq!['.', '0', '_', '3', '7', y1, y2];
    let s = seq!['_', '_'] + x + mid + tail;
    let p: int = 2 + x.len() as int;
    assert(s.subrange(p, p + 7) =~= mid);
    assert(s.skip(p + 7) =~= tail);
    assert forall|k: int| 0 <= k < p implies s[k] != '\n' by {
        if k >= 2 {
            assert(s[k] == x[k - 2]);
        }
    }
    assert(is_match_at(s, p)) by {
        assert(s[p] == mid[0] && s[p + 1] == mid[1] && s[p + 2] == mid[2]);
        assert(s[p + 3] == mid[3] && s[p + 4] == mid[4] && s[p + 5] == mid[5] && s[p + 6] == mid[6]);
    }
    assert forall|j: int| p < j implies !#[trigger] is_match_at(s, j) by {
        if p < j < p + 7 {
            assert(s[j] == mid[j - p]);
        } else if j >= p + 7 && is_match_at(s, j) {
            let t = j - (p + 7);
            assert(s.subrange(j, j + 7) =~= tail.subrange(t, t + 7));
            assert(s.subrange(j, j + 7)[0] == tail[t] && s.subrange(j, j + 7)[1] == tail[t + 1]);
            assert(s.subrange(j, j + 7)[2] == tail[t + 2] && s.subrange(j, j + 7)[3] == tail[t + 3]);
            assert(s.subrange(j, j + 7)[4] == tail[t + 4] && s.subrange(j, j + 7)[5] == tail[t + 5]);
            assert(s.subrange(j, j + 7)[6] == tail[t + 6]);
            assert(code_pattern_at(tail, t));
        }
    }
    assert(is_last_match(s, p));
    let c = choose|c: int| is_last_match(s, c);
    lemma_last_match_unique(s, p, c);
    assert(s.subrange(p + 3, p + 7) =~= seq!['3', '7', y1, y2]);
}

} // verus!
